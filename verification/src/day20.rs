//! A network of modules that pass low and high pulses.

pub mod utils;

use crate::numbers::{lcm, lcm_of};
use crate::text::{bytes_eq, lines, lines_of, split_once_on_str, split_once_str, split_on_str, split_str, views};
use std::collections::VecDeque;
use utils::{
    broadcaster_name, burst, packet_views, position, position_of, Broadcaster, Button, Conjunction, FlipFlop,
    Module, ModuleEnum, ModuleView, PacketView, Pulse, PulsePacket,
};
use vstd::prelude::*;
use vstd::string::StringSliceAdditionalSpecFns;

verus! {

/// A module as first read: a conjunction still waits for its predecessors.
pub enum ModuleOrPlaceholder<'a> {
    Module(ModuleEnum<'a>),
    ConjunctionPlaceholder {
        module_name: &'a [u8],
        successors: Vec<&'a [u8]>,
        predecessors: Vec<&'a [u8]>,
    },
}

/// A sequence of `n` low pulses.
pub open spec fn lows(n: nat) -> Seq<Pulse> {
    Seq::new(n, |i: int| Pulse::Low)
}

impl<'a> View for ModuleOrPlaceholder<'a> {
    type V = ModuleView;

    open spec fn view(&self) -> ModuleView {
        match self {
            ModuleOrPlaceholder::Module(m) => m.model(),
            ModuleOrPlaceholder::ConjunctionPlaceholder {
                module_name,
                successors,
                predecessors,
            } => ModuleView::Conjunction {
                name: module_name@,
                successors: views(successors@),
                predecessors: views(predecessors@),
                recent: lows(predecessors@.len()),
            },
        }
    }
}

impl<'a> ModuleOrPlaceholder<'a> {
    /// A conjunction without predecessors yet.
    pub fn new_placeholder(module_name: &'a [u8], successors: Vec<&'a [u8]>) -> (r: Self)
        ensures
            r is ConjunctionPlaceholder,
            r@ == (ModuleView::Conjunction {
                name: module_name@,
                successors: views(successors@),
                predecessors: Seq::empty(),
                recent: Seq::empty(),
            }),
    {
        let predecessors: Vec<&'a [u8]> = Vec::new();
        assert(views(predecessors@) =~= Seq::<Seq<u8>>::empty());
        assert(lows(0) =~= Seq::<Pulse>::empty());
        ModuleOrPlaceholder::ConjunctionPlaceholder { module_name, successors, predecessors }
    }

    /// The name of the module.
    pub fn name(&self) -> (n: &'a [u8])
        ensures
            n@ == self@.name(),
    {
        match self {
            ModuleOrPlaceholder::Module(m) => m.name(),
            ModuleOrPlaceholder::ConjunctionPlaceholder { module_name, .. } => *module_name,
        }
    }

    /// The modules it sends to.
    pub fn successors(&self) -> (s: &[&'a [u8]])
        ensures
            views(s@) == self@.successors(),
    {
        match self {
            ModuleOrPlaceholder::Module(m) => m.successors(),
            ModuleOrPlaceholder::ConjunctionPlaceholder { successors, .. } => successors.as_slice(),
        }
    }
}

/// The separator between a module and its successors.
pub open spec fn arrow() -> Seq<u8> {
    " -> ".spec_bytes()
}

/// The separator between successors.
pub open spec fn comma_space() -> Seq<u8> {
    ", ".spec_bytes()
}

/// The module that a line `<kind><name> -> <successor>, ...` describes: `%`
/// marks a flip-flop, `&` a conjunction, and the broadcaster stands under its
/// own name.
pub open spec fn line_module(line: Seq<u8>) -> Option<ModuleView> {
    match split_once_on_str(line, arrow()) {
        None => None,
        Some((description, rest)) => {
            let successors = split_on_str(rest, comma_space());
            if description.len() == 0 {
                None
            } else if description[0] == 37u8 {
                Some(ModuleView::FlipFlop { name: description.skip(1), successors, on: false })
            } else if description[0] == 38u8 {
                Some(
                    ModuleView::Conjunction {
                        name: description.skip(1),
                        successors,
                        predecessors: Seq::empty(),
                        recent: Seq::empty(),
                    },
                )
            } else if description == broadcaster_name() {
                Some(ModuleView::Broadcaster { successors })
            } else {
                None
            }
        },
    }
}

/// Reads one module from its line.
pub fn parse_line<'a>(line: &'a [u8]) -> (r: Option<ModuleOrPlaceholder<'a>>)
    ensures
        match r {
            Some(m) => line_module(line@) == Some(m@) && (m is Module ==> !(m@ is Conjunction)),
            None => line_module(line@) is None,
        },
{
    let (description, rest) = split_once_str(line, " -> ".as_bytes())?;
    let successors = split_str(rest, ", ".as_bytes());
    if description.len() == 0 {
        return None;
    }
    let module_name = &description[1..description.len()];
    assert(module_name@ =~= description@.skip(1));
    if description[0] == 37u8 {
        Some(ModuleOrPlaceholder::Module(ModuleEnum::FlipFlop(FlipFlop::new(module_name, successors))))
    } else if description[0] == 38u8 {
        Some(ModuleOrPlaceholder::new_placeholder(module_name, successors))
    } else if bytes_eq(description, "broadcaster".as_bytes()) {
        Some(ModuleOrPlaceholder::Module(ModuleEnum::Broadcaster(Broadcaster::new(successors))))
    } else {
        None
    }
}

/// The modules that the lines describe, if every line describes one.
pub open spec fn modules_of(ls: Seq<Seq<u8>>) -> Option<Seq<ModuleView>>
    decreases ls.len(),
{
    if ls.len() == 0 {
        Some(Seq::empty())
    } else {
        match (modules_of(ls.drop_last()), line_module(ls.last())) {
            (Some(ms), Some(m)) => Some(ms.push(m)),
            _ => None,
        }
    }
}

/// If a prefix of the lines does not read as modules, neither does the whole.
pub proof fn lemma_modules_of_prefix(ls: Seq<Seq<u8>>, i: int)
    requires
        0 <= i <= ls.len(),
        modules_of(ls.take(i)) is None,
    ensures
        modules_of(ls) is None,
    decreases ls.len() - i,
{
    if i == ls.len() {
        assert(ls.take(i) =~= ls);
    } else {
        assert(ls.take(i + 1).drop_last() =~= ls.take(i));
        lemma_modules_of_prefix(ls, i + 1);
    }
}

/// `name` once for each of the first `k` of `successors` that is `target`.
pub open spec fn hits(successors: Seq<Seq<u8>>, target: Seq<u8>, name: Seq<u8>, k: int) -> Seq<Seq<u8>>
    decreases k,
{
    if k <= 0 {
        Seq::empty()
    } else if successors[k - 1] == target {
        hits(successors, target, name, k - 1).push(name)
    } else {
        hits(successors, target, name, k - 1)
    }
}

/// The predecessors of `target` among the first `n` modules: each module's
/// name, in order, once for every time it lists `target` as a successor.
pub open spec fn predecessors_of(ms: Seq<ModuleView>, target: Seq<u8>, n: int) -> Seq<Seq<u8>>
    decreases n,
{
    if n <= 0 {
        Seq::empty()
    } else {
        predecessors_of(ms, target, n - 1) + hits(
            ms[n - 1].successors(),
            target,
            ms[n - 1].name(),
            ms[n - 1].successors().len() as int,
        )
    }
}

/// The module at `i` as it goes into the network: a conjunction gets its
/// predecessors, all remembered as low.
pub open spec fn wired(ms: Seq<ModuleView>, i: int) -> ModuleView {
    match ms[i] {
        ModuleView::Conjunction { name, successors, .. } => {
            let predecessors = predecessors_of(ms, name, ms.len() as int);
            ModuleView::Conjunction { name, successors, predecessors, recent: lows(predecessors.len()) }
        },
        other => other,
    }
}

/// The views of a sequence of modules as first read.
pub open spec fn entry_views<'a>(entries: Seq<ModuleOrPlaceholder<'a>>) -> Seq<ModuleView> {
    entries.map_values(|e: ModuleOrPlaceholder<'a>| e@)
}

/// The views of a sequence of modules.
pub open spec fn module_views<'a>(ms: Seq<ModuleEnum<'a>>) -> Seq<ModuleView> {
    ms.map_values(|m: ModuleEnum<'a>| m.model())
}

/// Collects the predecessors of `target` among `entries`.
pub fn collect_predecessors<'a>(entries: &Vec<ModuleOrPlaceholder<'a>>, target: &[u8]) -> (r: Vec<&'a [u8]>)
    ensures
        views(r@) == predecessors_of(entry_views(entries@), target@, entries@.len() as int),
{
    let mut r: Vec<&'a [u8]> = Vec::new();
    let ghost ms = entry_views(entries@);
    assert(views(r@) =~= Seq::<Seq<u8>>::empty());
    let mut i: usize = 0;
    while i < entries.len()
        invariant
            i <= entries.len(),
            ms == entry_views(entries@),
            views(r@) == predecessors_of(ms, target@, i as int),
        decreases entries.len() - i,
    {
        let name = entries[i].name();
        let successors = entries[i].successors();
        assert(ms[i as int] == entries@[i as int]@);
        let ghost before = views(r@);
        let ghost succ = views(successors@);
        assert(before + hits(succ, target@, name@, 0) =~= before);
        let mut k: usize = 0;
        while k < successors.len()
            invariant
                k <= successors.len(),
                succ == views(successors@),
                views(r@) == before + hits(succ, target@, name@, k as int),
            decreases successors.len() - k,
        {
            assert(succ[k as int] == successors@[k as int]@);
            if bytes_eq(successors[k], target) {
                proof {
                    assert(views(r@.push(name)) =~= views(r@).push(name@));
                    assert(before + hits(succ, target@, name@, k + 1) =~= (before + hits(
                        succ,
                        target@,
                        name@,
                        k as int,
                    )).push(name@));
                }
                r.push(name);
            }
            k = k + 1;
        }
        i = i + 1;
    }
    r
}

/// The modules of a network, each under the name by which pulses find it.
pub struct Graph<'a> {
    pub keys: Vec<&'a [u8]>,
    pub modules: Vec<ModuleEnum<'a>>,
}

/// A network as plain values.
pub struct GraphView {
    pub keys: Seq<Seq<u8>>,
    pub modules: Seq<ModuleView>,
}

impl<'a> View for Graph<'a> {
    type V = GraphView;

    open spec fn view(&self) -> GraphView {
        GraphView { keys: views(self.keys@), modules: module_views(self.modules@) }
    }
}

/// The name `button`.
pub open spec fn button_name() -> Seq<u8> {
    "button".spec_bytes()
}

/// The network that a puzzle text describes: one module per line, each under
/// its own name, conjunctions wired to their predecessors, and the button
/// under `button`.
pub open spec fn input_of(text: Seq<u8>) -> Option<GraphView> {
    match modules_of(lines_of(text)) {
        None => None,
        Some(ms) => Some(
            GraphView {
                keys: Seq::new(ms.len(), |i: int| ms[i].name()).push(button_name()),
                modules: Seq::new(ms.len(), |i: int| wired(ms, i)).push(
                    ModuleView::Button { successors: seq![broadcaster_name()] },
                ),
            },
        ),
    }
}

/// Reads a network. Where several lines give one name, the last of them is
/// the one that pulses find.
pub fn parse_input<'a>(input: &'a str) -> (r: Option<Graph<'a>>)
    ensures
        match r {
            Some(graph) => input_of(input.spec_bytes()) == Some(graph@),
            None => input_of(input.spec_bytes()) is None,
        },
{
    let ls = lines(input.as_bytes());
    let ghost all = lines_of(input.spec_bytes());
    let mut entries: Vec<ModuleOrPlaceholder<'a>> = Vec::new();
    let mut i: usize = 0;
    assert(all.take(0) =~= Seq::<Seq<u8>>::empty());
    assert(entry_views(entries@) =~= Seq::<ModuleView>::empty());
    while i < ls.len()
        invariant
            i <= ls.len(),
            all == views(ls@),
            modules_of(all.take(i as int)) == Some(entry_views(entries@)),
            modules_of(all) is None ==> input_of(input.spec_bytes()) is None,
            forall|k: int|
                0 <= k < entries@.len() ==> ((#[trigger] entries@[k]) is Module ==> !(entries@[k]@ is Conjunction)),
        decreases ls.len() - i,
    {
        proof {
            assert(all.take(i + 1).drop_last() =~= all.take(i as int));
            assert(all.take(i + 1).last() == ls@[i as int]@);
        }
        match parse_line(ls[i]) {
            Some(entry) => {
                proof {
                    assert(entry_views(entries@.push(entry)) =~= entry_views(entries@).push(entry@));
                }
                entries.push(entry);
            },
            None => {
                proof {
                    assert(modules_of(all.take(i + 1)) is None);
                    lemma_modules_of_prefix(all, i + 1);
                }
                return None;
            },
        }
        i = i + 1;
    }
    assert(all.take(i as int) =~= all);
    let ghost ms = entry_views(entries@);
    let n = entries.len();

    let mut all_predecessors: Vec<Vec<&'a [u8]>> = Vec::new();
    let mut j: usize = 0;
    while j < n
        invariant
            j <= n,
            n == entries@.len(),
            ms == entry_views(entries@),
            all_predecessors@.len() == j,
            forall|k: int|
                0 <= k < j ==> views((#[trigger] all_predecessors@[k])@) == predecessors_of(
                    ms,
                    ms[k].name(),
                    n as int,
                ),
        decreases n - j,
    {
        let name = entries[j].name();
        assert(ms[j as int] == entries@[j as int]@);
        let predecessors = collect_predecessors(&entries, name);
        all_predecessors.push(predecessors);
        j = j + 1;
    }

    let mut keys: Vec<&'a [u8]> = Vec::new();
    let mut modules: Vec<ModuleEnum<'a>> = Vec::new();
    let ghost wanted_keys = Seq::new(ms.len(), |i: int| ms[i].name());
    let ghost wanted_modules = Seq::new(ms.len(), |i: int| wired(ms, i));
    let mut k: usize = 0;
    assert(views(keys@) =~= wanted_keys.take(0));
    assert(module_views(modules@) =~= wanted_modules.take(0));
    while k < n
        invariant
            k <= n,
            n == ms.len(),
            entries@.len() == n - k,
            all_predecessors@.len() == n - k,
            wanted_keys == Seq::new(ms.len(), |i: int| ms[i].name()),
            wanted_modules == Seq::new(ms.len(), |i: int| wired(ms, i)),
            forall|t: int| 0 <= t < n - k ==> (#[trigger] entries@[t])@ == ms[t + k],
            forall|t: int|
                0 <= t < n - k ==> ((#[trigger] entries@[t]) is Module ==> !(entries@[t]@ is Conjunction)),
            forall|t: int|
                0 <= t < n - k ==> views((#[trigger] all_predecessors@[t])@) == predecessors_of(
                    ms,
                    ms[t + k].name(),
                    n as int,
                ),
            views(keys@) == wanted_keys.take(k as int),
            module_views(modules@) == wanted_modules.take(k as int),
        decreases n - k,
    {
        let entry = entries.remove(0);
        let predecessors = all_predecessors.remove(0);
        assert(entry@ == ms[k as int]);
        let key = entry.name();
        let module = match entry {
            ModuleOrPlaceholder::Module(m) => m,
            ModuleOrPlaceholder::ConjunctionPlaceholder { module_name, successors, .. } => {
                ModuleEnum::Conjunction(Conjunction::new(module_name, successors, predecessors))
            },
        };
        proof {
            assert(module.model() == wired(ms, k as int));
            assert(views(keys@.push(key)) =~= views(keys@).push(key@));
            assert(module_views(modules@.push(module)) =~= module_views(modules@).push(module.model()));
            assert(wanted_keys.take(k + 1) =~= wanted_keys.take(k as int).push(wanted_keys[k as int]));
            assert(wanted_modules.take(k + 1) =~= wanted_modules.take(k as int).push(
                wanted_modules[k as int],
            ));
        }
        keys.push(key);
        modules.push(module);
        k = k + 1;
    }
    proof {
        assert(wanted_keys.take(n as int) =~= wanted_keys);
        assert(wanted_modules.take(n as int) =~= wanted_modules);
    }
    let button = ModuleEnum::Button(Button::new());
    let button_key: &'static [u8] = "button".as_bytes();
    proof {
        assert(views(keys@.push(button_key)) =~= views(keys@).push(button_name()));
        assert(module_views(modules@.push(button)) =~= module_views(modules@).push(button.model()));
    }
    keys.push(button_key);
    modules.push(button);
    Some(Graph { keys, modules })
}

/// The index of the last of the first `n` keys that equals `name`, or -1.
pub open spec fn find_key(keys: Seq<Seq<u8>>, name: Seq<u8>, n: int) -> int
    decreases n,
{
    if n <= 0 {
        -1
    } else if keys[n - 1] == name {
        n - 1
    } else {
        find_key(keys, name, n - 1)
    }
}

/// Finds the module that pulses to `name` reach.
pub fn lookup(keys: &Vec<&[u8]>, name: &[u8]) -> (r: Option<usize>)
    ensures
        match r {
            Some(i) => i < keys@.len() && i == find_key(views(keys@), name@, keys@.len() as int),
            None => find_key(views(keys@), name@, keys@.len() as int) == -1,
        },
{
    let mut n: usize = keys.len();
    while n > 0
        invariant
            n <= keys.len(),
            find_key(views(keys@), name@, keys@.len() as int) == find_key(views(keys@), name@, n as int),
        decreases n,
    {
        assert(views(keys@)[n - 1] == keys@[n - 1]@);
        if bytes_eq(keys[n - 1], name) {
            return Some(n - 1);
        }
        n = n - 1;
    }
    None
}

/// The network and the queue after the first packet of a non-empty queue
/// has been delivered: nothing when its destination cannot take it. A packet
/// to a name without a module is dropped.
pub open spec fn deliver(keys: Seq<Seq<u8>>, modules: Seq<ModuleView>, queue: Seq<PacketView>) -> Option<
    (Seq<ModuleView>, Seq<PacketView>),
> {
    let packet = queue[0];
    let i = find_key(keys, packet.destination, keys.len() as int);
    if i < 0 || i >= modules.len() {
        Some((modules, queue.skip(1)))
    } else if !modules[i].takes(packet.source) {
        None
    } else {
        Some(
            (
                modules.update(i, modules[i].after(packet.source, packet.pulse)),
                queue.skip(1) + modules[i].outgoing(packet.source, packet.pulse),
            ),
        )
    }
}

/// The network after the queue has run empty, with the numbers of low and
/// high pulses delivered added to `low` and `high`: nothing when a module
/// gets a pulse it cannot take, or when more than `fuel` packets are needed.
pub open spec fn run(
    keys: Seq<Seq<u8>>,
    modules: Seq<ModuleView>,
    queue: Seq<PacketView>,
    fuel: nat,
    low: nat,
    high: nat,
) -> Option<(Seq<ModuleView>, nat, nat)>
    decreases fuel,
{
    if queue.len() == 0 {
        Some((modules, low, high))
    } else if fuel == 0 {
        None
    } else {
        match deliver(keys, modules, queue) {
            None => None,
            Some((next_modules, next_queue)) => run(
                keys,
                next_modules,
                next_queue,
                (fuel - 1) as nat,
                if queue[0].pulse == Pulse::Low { low + 1 } else { low },
                if queue[0].pulse == Pulse::High { high + 1 } else { high },
            ),
        }
    }
}

/// The packet that a press of the button sends.
pub open spec fn press() -> Seq<PacketView> {
    seq![PacketView { source: broadcaster_name(), destination: broadcaster_name(), pulse: Pulse::Low }]
}

/// The numbers of low and high pulses after `presses` presses of the button,
/// each allowed `fuel` packets.
pub open spec fn press_many(
    keys: Seq<Seq<u8>>,
    modules: Seq<ModuleView>,
    presses: nat,
    fuel: nat,
    low: nat,
    high: nat,
) -> Option<(nat, nat)>
    decreases presses,
{
    if presses == 0 {
        Some((low, high))
    } else {
        match run(keys, modules, press(), fuel, low, high) {
            None => None,
            Some((next_modules, next_low, next_high)) => press_many(
                keys,
                next_modules,
                (presses - 1) as nat,
                fuel,
                next_low,
                next_high,
            ),
        }
    }
}

/// Delivers the first packet of `queue`, which the caller has taken off, to
/// its destination.
fn deliver_packet<'a>(graph: &mut Graph<'a>, packet: PulsePacket<'a>, queue: &mut VecDeque<PulsePacket<'a>>) -> (ok: bool)
    requires
        old(graph).keys@.len() == old(graph).modules@.len(),
    ensures
        final(graph).keys@ == old(graph).keys@,
        final(graph).modules@.len() == old(graph).modules@.len(),
        match deliver(old(graph)@.keys, old(graph)@.modules, seq![packet@] + packet_views(old(queue)@)) {
            None => !ok,
            Some((modules, rest)) => ok && final(graph)@.modules == modules && packet_views(final(queue)@)
                == rest,
        },
{
    let ghost before = seq![packet@] + packet_views(queue@);
    assert(before.skip(1) =~= packet_views(queue@));
    assert(before[0] == packet@);
    match lookup(&graph.keys, packet.destination) {
        None => true,
        Some(i) => {
            assert(module_views(graph.modules@)[i as int] == graph.modules@[i as int].model());
            if !graph.modules[i].takes(packet.source) {
                return false;
            }
            let ghost old_modules = graph.modules@;
            let mut module = graph.modules.remove(i);
            module.process_pulse(packet.source, packet.pulse, queue);
            graph.modules.insert(i, module);
            proof {
                assert(graph.modules@ =~= old_modules.update(i as int, module));
                assert(module_views(graph.modules@) =~= module_views(old_modules).update(
                    i as int,
                    module.model(),
                ));
            }
            true
        },
    }
}

/// Runs the queue empty, counting the pulses delivered.
fn run_queue<'a>(graph: &mut Graph<'a>, queue: VecDeque<PulsePacket<'a>>, fuel: usize, low: u128, high: u128) -> (r: Option<
    (u128, u128),
>)
    requires
        old(graph).keys@.len() == old(graph).modules@.len(),
        low + high + fuel <= u128::MAX,
    ensures
        final(graph).keys@ == old(graph).keys@,
        final(graph).modules@.len() == old(graph).modules@.len(),
        match run(old(graph)@.keys, old(graph)@.modules, packet_views(queue@), fuel as nat, low as nat, high as nat) {
            None => r is None,
            Some((modules, l, h)) => r == Some((l as u128, h as u128)) && final(graph)@.modules == modules
                && l + h <= low + high + fuel,
        },
{
    let mut pending = queue;
    let mut remaining = fuel;
    let mut low_count = low;
    let mut high_count = high;
    let ghost keys = graph@.keys;
    let ghost whole = run(keys, graph@.modules, packet_views(pending@), remaining as nat, low_count as nat, high_count as nat);
    let ghost bound = low_count + high_count + remaining;
    loop
        invariant
            graph.keys@ == old(graph).keys@,
            graph.modules@.len() == old(graph).modules@.len(),
            graph.keys@.len() == graph.modules@.len(),
            keys == graph@.keys,
            whole == run(keys, graph@.modules, packet_views(pending@), remaining as nat, low_count as nat, high_count as nat),
            low_count + high_count + remaining <= bound,
            bound <= u128::MAX,
            whole == run(
                old(graph)@.keys,
                old(graph)@.modules,
                packet_views(queue@),
                fuel as nat,
                low as nat,
                high as nat,
            ),
            bound == low + high + fuel,
        decreases remaining,
    {
        let ghost before = packet_views(pending@);
        let packet = match pending.pop_front() {
            None => {
                return Some((low_count, high_count));
            },
            Some(packet) => packet,
        };
        if remaining == 0 {
            return None;
        }
        proof {
            assert(before[0] == packet@);
            assert(before =~= seq![packet@] + packet_views(pending@));
        }
        match packet.pulse {
            Pulse::Low => {
                low_count = low_count + 1;
            },
            Pulse::High => {
                high_count = high_count + 1;
            },
        }
        if !deliver_packet(graph, packet, &mut pending) {
            return None;
        }
        remaining = remaining - 1;
    }
}

/// A queue that holds the packet of one press of the button.
fn press_button<'a>() -> (queue: VecDeque<PulsePacket<'a>>)
    ensures
        packet_views(queue@) == press(),
{
    let mut queue: VecDeque<PulsePacket<'a>> = VecDeque::new();
    let button = Button::new();
    assert(packet_views(queue@) =~= Seq::<PacketView>::empty());
    button.send_to_successors(Pulse::Low, &mut queue);
    assert(packet_views(queue@) =~= press());
    queue
}

/// The product of the numbers of low and high pulses that 1000 presses of
/// the button deliver, each press allowed `pulse_budget` packets. There is no
/// answer when a press needs more, when a module gets a pulse it cannot
/// take, or when the product does not fit in `usize`.
pub fn part1<'a>(graph: Graph<'a>, pulse_budget: usize) -> (r: Option<usize>)
    requires
        graph.keys@.len() == graph.modules@.len(),
    ensures
        r == (match press_many(graph@.keys, graph@.modules, 1000, pulse_budget as nat, 0, 0) {
            Some((low, high)) => if low * high <= usize::MAX {
                Some((low * high) as usize)
            } else {
                None
            },
            None => None,
        }),
{
    let mut network = graph;
    let mut low: u128 = 0;
    let mut high: u128 = 0;
    let ghost keys = network@.keys;
    let ghost whole = press_many(keys, network@.modules, 1000, pulse_budget as nat, 0, 0);
    let mut done: usize = 0;
    while done < 1000
        invariant
            done <= 1000,
            network.keys@.len() == network.modules@.len(),
            keys == network@.keys,
            whole == press_many(keys, network@.modules, (1000 - done) as nat, pulse_budget as nat, low as nat, high as nat),
            whole == press_many(graph@.keys, graph@.modules, 1000, pulse_budget as nat, 0, 0),
            low + high <= done * pulse_budget,
        decreases 1000 - done,
    {
        let queue = press_button();
        proof {
            assert(done * pulse_budget <= 1000 * usize::MAX) by (nonlinear_arith)
                requires
                    done <= 1000,
                    pulse_budget <= usize::MAX,
            ;
            assert((done + 1) * pulse_budget == done * pulse_budget + pulse_budget) by (nonlinear_arith);
        }
        match run_queue(&mut network, queue, pulse_budget, low, high) {
            None => {
                return None;
            },
            Some((l, h)) => {
                low = l;
                high = h;
            },
        }
        done = done + 1;
    }
    if low > usize::MAX as u128 || high > usize::MAX as u128 {
        proof {
            if low > usize::MAX && high > 0 {
                assert(low * high > usize::MAX) by (nonlinear_arith)
                    requires
                        low > usize::MAX,
                        high > 0,
                ;
            }
            if high > usize::MAX && low > 0 {
                assert(low * high > usize::MAX) by (nonlinear_arith)
                    requires
                        high > usize::MAX,
                        low > 0,
                ;
            }
        }
        if low == 0 || high == 0 {
            assert(low * high == 0) by (nonlinear_arith)
                requires
                    low == 0 || high == 0,
            ;
            return Some(0);
        }
        return None;
    }
    (low as usize).checked_mul(high as usize)
}

/// The name `jz`, the module that feeds the final one.
pub open spec fn watched_name() -> Seq<u8> {
    "jz".spec_bytes()
}

/// Whether every entry is filled.
pub open spec fn all_found(found: Seq<Option<usize>>) -> bool {
    forall|i: int| 0 <= i < found.len() ==> (#[trigger] found[i]) is Some
}

/// The record of first high pulses after `packet` has been seen during press
/// number `press`, and whether it gained an entry: a high pulse to the
/// watched module fills the entry of its source if that is still empty.
/// There is none when the source is not among the predecessors.
pub open spec fn note(
    predecessors: Seq<Seq<u8>>,
    found: Seq<Option<usize>>,
    packet: PacketView,
    press: usize,
) -> Option<(Seq<Option<usize>>, bool)> {
    if packet.pulse == Pulse::High && packet.destination == watched_name() {
        let i = position_of(predecessors, packet.source, 0);
        if i >= predecessors.len() || i >= found.len() {
            None
        } else if found[i] is None {
            Some((found.update(i, Some(press)), true))
        } else {
            Some((found, false))
        }
    } else {
        Some((found, false))
    }
}

/// How watching a queue run empty ends.
pub enum Watched {
    /// A module got a pulse it cannot take, or the fuel ran out.
    Stuck,
    /// Every predecessor has sent a high pulse; the record is complete.
    Done(Seq<Option<usize>>),
    /// The queue ran empty before that.
    Quiet(Seq<ModuleView>, Seq<Option<usize>>),
}

/// Runs the queue as `run` does, noting each packet before it is delivered,
/// and stops as soon as the record is complete.
pub open spec fn watch_run(
    keys: Seq<Seq<u8>>,
    modules: Seq<ModuleView>,
    queue: Seq<PacketView>,
    fuel: nat,
    predecessors: Seq<Seq<u8>>,
    found: Seq<Option<usize>>,
    press: usize,
) -> Watched
    decreases fuel,
{
    if queue.len() == 0 {
        Watched::Quiet(modules, found)
    } else if fuel == 0 {
        Watched::Stuck
    } else {
        match note(predecessors, found, queue[0], press) {
            None => Watched::Stuck,
            Some((noted, gained)) => if gained && all_found(noted) {
                Watched::Done(noted)
            } else {
                match deliver(keys, modules, queue) {
                    None => Watched::Stuck,
                    Some((next_modules, next_queue)) => watch_run(
                        keys,
                        next_modules,
                        next_queue,
                        (fuel - 1) as nat,
                        predecessors,
                        noted,
                        press,
                    ),
                }
            },
        }
    }
}

/// The complete record of first high pulses, reached by pressing the button
/// again and again after `pressed` presses, with at most `limit` presses in
/// all.
pub open spec fn watch_presses(
    keys: Seq<Seq<u8>>,
    modules: Seq<ModuleView>,
    fuel: nat,
    predecessors: Seq<Seq<u8>>,
    found: Seq<Option<usize>>,
    pressed: usize,
    limit: usize,
) -> Option<Seq<Option<usize>>>
    decreases limit - pressed,
{
    if pressed >= limit {
        None
    } else {
        match watch_run(keys, modules, press(), fuel, predecessors, found, (pressed + 1) as usize) {
            Watched::Stuck => None,
            Watched::Done(record) => Some(record),
            Watched::Quiet(next_modules, noted) => watch_presses(
                keys,
                next_modules,
                fuel,
                predecessors,
                noted,
                (pressed + 1) as usize,
                limit,
            ),
        }
    }
}

/// The least common multiple of the first `n` entries of a record, which must
/// all be filled, as far as it fits in `usize`.
pub open spec fn lcm_fold(found: Seq<Option<usize>>, n: int) -> Option<usize>
    decreases n,
{
    if n <= 0 || n > found.len() || found[n - 1] is None {
        None
    } else if n == 1 {
        found[0]
    } else {
        match lcm_fold(found, n - 1) {
            None => None,
            Some(acc) => if lcm_of(acc as nat, found[n - 1].unwrap() as nat) <= usize::MAX {
                Some(lcm_of(acc as nat, found[n - 1].unwrap() as nat) as usize)
            } else {
                None
            },
        }
    }
}

/// The number of presses after which the module fed by `jz` gets its low
/// pulse, on the assumption that each predecessor of `jz` sends high once
/// every so many presses: the least common multiple of the presses at which
/// each first does.
pub open spec fn first_low_press(graph: GraphView, fuel: nat, limit: usize) -> Option<usize> {
    let i = find_key(graph.keys, watched_name(), graph.keys.len() as int);
    if i < 0 || i >= graph.modules.len() {
        None
    } else {
        match graph.modules[i] {
            ModuleView::Conjunction { predecessors, .. } => match watch_presses(
                graph.keys,
                graph.modules,
                fuel,
                predecessors,
                Seq::new(predecessors.len(), |k: int| None),
                0,
                limit,
            ) {
                Some(record) => lcm_fold(record, record.len() as int),
                None => None,
            },
            _ => None,
        }
    }
}

/// Tells whether every entry is filled.
fn every_found(found: &Vec<Option<usize>>) -> (b: bool)
    ensures
        b == all_found(found@),
{
    let mut i: usize = 0;
    while i < found.len()
        invariant
            i <= found.len(),
            forall|k: int| 0 <= k < i ==> (#[trigger] found@[k]) is Some,
        decreases found.len() - i,
    {
        if found[i].is_none() {
            return false;
        }
        i = i + 1;
    }
    true
}

/// Notes `packet` in the record.
fn note_packet(predecessors: &Vec<&[u8]>, found: &mut Vec<Option<usize>>, packet: &PulsePacket, press: usize) -> (r: Option<bool>)
    ensures
        match note(views(predecessors@), old(found)@, packet@, press) {
            None => r is None && final(found)@ == old(found)@,
            Some((noted, gained)) => r == Some(gained) && final(found)@ == noted,
        },
{
    if packet.pulse == Pulse::High && bytes_eq(packet.destination, "jz".as_bytes()) {
        let i = match position(predecessors.as_slice(), packet.source) {
            None => {
                return None;
            },
            Some(i) => i,
        };
        if i >= found.len() {
            return None;
        }
        if found[i].is_none() {
            found.set(i, Some(press));
            Some(true)
        } else {
            Some(false)
        }
    } else {
        Some(false)
    }
}

/// How a watched run ended: stuck, done, or quiet.
pub enum WatchOutcome {
    Stuck,
    Done,
    Quiet,
}

/// Runs the queue empty while noting first high pulses.
fn watch_queue<'a>(
    graph: &mut Graph<'a>,
    queue: VecDeque<PulsePacket<'a>>,
    fuel: usize,
    predecessors: &Vec<&[u8]>,
    found: &mut Vec<Option<usize>>,
    press: usize,
) -> (r: WatchOutcome)
    requires
        old(graph).keys@.len() == old(graph).modules@.len(),
    ensures
        final(graph).keys@ == old(graph).keys@,
        final(graph).modules@.len() == old(graph).modules@.len(),
        match watch_run(
            old(graph)@.keys,
            old(graph)@.modules,
            packet_views(queue@),
            fuel as nat,
            views(predecessors@),
            old(found)@,
            press,
        ) {
            Watched::Stuck => r is Stuck,
            Watched::Done(record) => r is Done && final(found)@ == record,
            Watched::Quiet(modules, noted) => r is Quiet && final(graph)@.modules == modules && final(found)@
                == noted,
        },
{
    let mut pending = queue;
    let mut remaining = fuel;
    let ghost keys = graph@.keys;
    let ghost whole = watch_run(
        keys,
        graph@.modules,
        packet_views(pending@),
        remaining as nat,
        views(predecessors@),
        found@,
        press,
    );
    loop
        invariant
            graph.keys@ == old(graph).keys@,
            graph.modules@.len() == old(graph).modules@.len(),
            graph.keys@.len() == graph.modules@.len(),
            keys == graph@.keys,
            whole == watch_run(
                keys,
                graph@.modules,
                packet_views(pending@),
                remaining as nat,
                views(predecessors@),
                found@,
                press,
            ),
            whole == watch_run(
                old(graph)@.keys,
                old(graph)@.modules,
                packet_views(queue@),
                fuel as nat,
                views(predecessors@),
                old(found)@,
                press,
            ),
        decreases remaining,
    {
        let ghost before = packet_views(pending@);
        let packet = match pending.pop_front() {
            None => {
                return WatchOutcome::Quiet;
            },
            Some(packet) => packet,
        };
        if remaining == 0 {
            return WatchOutcome::Stuck;
        }
        proof {
            assert(before[0] == packet@);
            assert(before =~= seq![packet@] + packet_views(pending@));
        }
        match note_packet(predecessors, found, &packet, press) {
            None => {
                return WatchOutcome::Stuck;
            },
            Some(gained) => {
                if gained && every_found(found) {
                    return WatchOutcome::Done;
                }
            },
        }
        if !deliver_packet(graph, packet, &mut pending) {
            return WatchOutcome::Stuck;
        }
        remaining = remaining - 1;
    }
}

/// Folds the least common multiple over a record.
fn lcm_all(found: &Vec<Option<usize>>) -> (r: Option<usize>)
    ensures
        r == lcm_fold(found@, found@.len() as int),
{
    if found.len() == 0 {
        return None;
    }
    let mut acc: usize = match found[0] {
        None => {
            proof {
                lemma_lcm_fold_gap(found@, 0, found@.len() as int);
            }
            return None;
        },
        Some(v) => v,
    };
    let mut i: usize = 1;
    while i < found.len()
        invariant
            1 <= i <= found.len(),
            lcm_fold(found@, i as int) == Some(acc),
        decreases found.len() - i,
    {
        let next = match found[i] {
            None => None,
            Some(v) => lcm(acc, v),
        };
        match next {
            None => {
                proof {
                    assert(lcm_fold(found@, i + 1) is None);
                    lemma_lcm_fold_prefix(found@, i + 1, found@.len() as int);
                }
                return None;
            },
            Some(v) => {
                acc = v;
            },
        }
        i = i + 1;
    }
    Some(acc)
}

/// A record with an empty entry has no least common multiple.
pub proof fn lemma_lcm_fold_gap(found: Seq<Option<usize>>, i: int, n: int)
    requires
        0 <= i < n <= found.len(),
        found[i] is None,
    ensures
        lcm_fold(found, n) is None,
    decreases n,
{
    if i < n - 1 {
        lemma_lcm_fold_gap(found, i, n - 1);
    }
}

/// If the first `i` entries have no least common multiple, neither have the
/// first `n`.
pub proof fn lemma_lcm_fold_prefix(found: Seq<Option<usize>>, i: int, n: int)
    requires
        1 <= i <= n <= found.len(),
        lcm_fold(found, i) is None,
    ensures
        lcm_fold(found, n) is None,
    decreases n - i,
{
    if i < n {
        lemma_lcm_fold_prefix(found, i, n - 1);
    }
}

/// Presses the button until every predecessor of `jz` has sent it a high
/// pulse, and returns the least common multiple of the presses at which each
/// first did. Each press is allowed `pulse_budget` packets, and there are at
/// most `press_budget` presses.
pub fn part2<'a>(graph: Graph<'a>, pulse_budget: usize, press_budget: usize) -> (r: Option<usize>)
    requires
        graph.keys@.len() == graph.modules@.len(),
    ensures
        r == first_low_press(graph@, pulse_budget as nat, press_budget),
{
    let mut network = graph;
    let index = lookup(&network.keys, "jz".as_bytes())?;
    assert(module_views(network.modules@)[index as int] == network.modules@[index as int].model());
    let mut predecessors: Vec<&[u8]> = Vec::new();
    let mut found: Vec<Option<usize>> = Vec::new();
    match &network.modules[index] {
        ModuleEnum::Conjunction(conjunction) => {
            let list = conjunction.predecessors();
            let mut i: usize = 0;
            while i < list.len()
                invariant
                    i <= list.len(),
                    predecessors@ == list@.take(i as int),
                    found@ == Seq::new(i as nat, |k: int| None::<usize>),
                decreases list.len() - i,
            {
                predecessors.push(list[i]);
                found.push(None);
                proof {
                    assert(list@.take(i + 1) =~= list@.take(i as int).push(list@[i as int]));
                    assert(found@ =~= Seq::new((i + 1) as nat, |k: int| None::<usize>));
                }
                i = i + 1;
            }
            assert(list@.take(i as int) =~= list@);
        },
        _ => {
            return None;
        },
    }
    let ghost keys = network@.keys;
    let ghost watched = views(predecessors@);
    let ghost whole = watch_presses(keys, network@.modules, pulse_budget as nat, watched, found@, 0, press_budget);
    let mut pressed: usize = 0;
    while pressed < press_budget
        invariant
            pressed <= press_budget,
            network.keys@.len() == network.modules@.len(),
            keys == network@.keys,
            watched == views(predecessors@),
            whole == watch_presses(
                keys,
                network@.modules,
                pulse_budget as nat,
                watched,
                found@,
                pressed,
                press_budget,
            ),
            first_low_press(graph@, pulse_budget as nat, press_budget) == (match whole {
                Some(record) => lcm_fold(record, record.len() as int),
                None => None,
            }),
        decreases press_budget - pressed,
    {
        let queue = press_button();
        match watch_queue(&mut network, queue, pulse_budget, &predecessors, &mut found, pressed + 1) {
            WatchOutcome::Stuck => {
                return None;
            },
            WatchOutcome::Done => {
                return lcm_all(&found);
            },
            WatchOutcome::Quiet => {},
        }
        pressed = pressed + 1;
    }
    None
}

} // verus!
