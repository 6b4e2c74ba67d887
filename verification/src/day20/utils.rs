//! Pulse modules: flip-flops, conjunctions, the broadcaster and the button.

use crate::text::{bytes_eq, views};
use std::collections::VecDeque;
use vstd::prelude::*;
use vstd::string::StringSliceAdditionalSpecFns;

verus! {

/// A low or a high pulse.
#[derive(Debug, Clone, Copy, PartialEq, Eq, Structural)]
pub enum Pulse {
    Low,
    High,
}

/// A pulse on its way from one module to another.
pub struct PulsePacket<'a> {
    pub source: &'a [u8],
    pub destination: &'a [u8],
    pub pulse: Pulse,
}

/// A packet with its names as sequences of bytes.
pub struct PacketView {
    pub source: Seq<u8>,
    pub destination: Seq<u8>,
    pub pulse: Pulse,
}

impl<'a> View for PulsePacket<'a> {
    type V = PacketView;

    open spec fn view(&self) -> PacketView {
        PacketView { source: self.source@, destination: self.destination@, pulse: self.pulse }
    }
}

/// The views of a sequence of packets.
pub open spec fn packet_views<'a>(q: Seq<PulsePacket<'a>>) -> Seq<PacketView> {
    q.map_values(|p: PulsePacket<'a>| p@)
}

/// The name `broadcaster`.
pub open spec fn broadcaster_name() -> Seq<u8> {
    "broadcaster".spec_bytes()
}

/// The packets that a module called `name` sends when it sends `pulse` to
/// each of `successors`, in order.
pub open spec fn burst(name: Seq<u8>, successors: Seq<Seq<u8>>, pulse: Pulse) -> Seq<PacketView> {
    Seq::new(
        successors.len(),
        |i: int| PacketView { source: name, destination: successors[i], pulse },
    )
}

/// The index of the first of `names` from `from` on that equals `name`, or
/// the number of names when there is none.
pub open spec fn position_of(names: Seq<Seq<u8>>, name: Seq<u8>, from: int) -> int
    decreases names.len() - from,
{
    if from >= names.len() {
        names.len() as int
    } else if names[from] == name {
        from
    } else {
        position_of(names, name, from + 1)
    }
}

/// Whether every pulse of `pulses` is high.
pub open spec fn all_high(pulses: Seq<Pulse>) -> bool {
    forall|i: int| 0 <= i < pulses.len() ==> pulses[i] == Pulse::High
}

/// What a module is, as plain values.
pub enum ModuleView {
    FlipFlop { name: Seq<u8>, successors: Seq<Seq<u8>>, on: bool },
    Conjunction {
        name: Seq<u8>,
        successors: Seq<Seq<u8>>,
        predecessors: Seq<Seq<u8>>,
        recent: Seq<Pulse>,
    },
    Broadcaster { successors: Seq<Seq<u8>> },
    Button { successors: Seq<Seq<u8>> },
}

impl ModuleView {
    /// The name under which the module sends.
    pub open spec fn name(self) -> Seq<u8> {
        match self {
            ModuleView::FlipFlop { name, .. } => name,
            ModuleView::Conjunction { name, .. } => name,
            ModuleView::Broadcaster { .. } => broadcaster_name(),
            ModuleView::Button { .. } => broadcaster_name(),
        }
    }

    /// The modules it sends to.
    pub open spec fn successors(self) -> Seq<Seq<u8>> {
        match self {
            ModuleView::FlipFlop { successors, .. } => successors,
            ModuleView::Conjunction { successors, .. } => successors,
            ModuleView::Broadcaster { successors } => successors,
            ModuleView::Button { successors } => successors,
        }
    }

    /// Whether the module can take a pulse from `source`: the button takes
    /// none, and a conjunction only those of its predecessors.
    pub open spec fn takes(self, source: Seq<u8>) -> bool {
        match self {
            ModuleView::Conjunction { predecessors, recent, .. } => recent.len()
                == predecessors.len() && position_of(predecessors, source, 0) < predecessors.len(),
            ModuleView::Button { .. } => false,
            _ => true,
        }
    }

    /// The module after it has taken `pulse` from `source`: a flip-flop turns
    /// over on a low pulse, a conjunction remembers the pulse.
    pub open spec fn after(self, source: Seq<u8>, pulse: Pulse) -> ModuleView {
        match self {
            ModuleView::FlipFlop { name, successors, on } => ModuleView::FlipFlop {
                name,
                successors,
                on: if pulse == Pulse::Low {
                    !on
                } else {
                    on
                },
            },
            ModuleView::Conjunction {
                name,
                successors,
                predecessors,
                recent,
            } => ModuleView::Conjunction {
                name,
                successors,
                predecessors,
                recent: recent.update(position_of(predecessors, source, 0), pulse),
            },
            other => other,
        }
    }

    /// The pulse that the module sends on after taking `pulse` from `source`,
    /// if it sends one: a flip-flop answers a low pulse with its new state, a
    /// conjunction sends low when all it remembers is high and high
    /// otherwise, the broadcaster repeats.
    pub open spec fn sends(self, source: Seq<u8>, pulse: Pulse) -> Option<Pulse> {
        match self {
            ModuleView::FlipFlop { on, .. } => if pulse == Pulse::High {
                None
            } else if on {
                Some(Pulse::Low)
            } else {
                Some(Pulse::High)
            },
            ModuleView::Conjunction { predecessors, recent, .. } => if all_high(
                recent.update(position_of(predecessors, source, 0), pulse),
            ) {
                Some(Pulse::Low)
            } else {
                Some(Pulse::High)
            },
            ModuleView::Broadcaster { .. } => Some(pulse),
            ModuleView::Button { .. } => None,
        }
    }

    /// The packets that the module sends on after taking `pulse` from
    /// `source`.
    pub open spec fn outgoing(self, source: Seq<u8>, pulse: Pulse) -> Seq<PacketView> {
        match self.sends(source, pulse) {
            Some(sent) => burst(self.name(), self.successors(), sent),
            None => Seq::empty(),
        }
    }
}

/// A module of the pulse network.
pub trait Module<'a> {
    /// The module as plain values.
    spec fn model(&self) -> ModuleView;

    fn name(&self) -> (n: &'a [u8])
        ensures
            n@ == self.model().name(),
    ;

    fn successors(&self) -> (s: &[&'a [u8]])
        ensures
            views(s@) == self.model().successors(),
    ;

    fn process_pulse(&mut self, source: &'a [u8], pulse: Pulse, queue: &mut VecDeque<PulsePacket<'a>>)
        requires
            old(self).model().takes(source@),
        ensures
            final(self).model() == old(self).model().after(source@, pulse),
            packet_views(final(queue)@) == packet_views(old(queue)@) + old(self).model().outgoing(
                source@,
                pulse,
            ),
    ;

    fn send_to_successors(&self, pulse: Pulse, queue: &mut VecDeque<PulsePacket<'a>>)
        ensures
            packet_views(final(queue)@) == packet_views(old(queue)@) + burst(
                self.model().name(),
                self.model().successors(),
                pulse,
            ),
    {
        let successors = self.successors();
        let name = self.name();
        let ghost before = packet_views(queue@);
        let ghost all = burst(name@, views(successors@), pulse);
        assert(before + all.take(0) =~= before);
        let mut i: usize = 0;
        while i < successors.len()
            invariant
                i <= successors.len(),
                all == burst(name@, views(successors@), pulse),
                packet_views(queue@) == before + all.take(i as int),
            decreases successors.len() - i,
        {
            let packet = PulsePacket { source: name, destination: successors[i], pulse };
            proof {
                assert(packet@ == all[i as int]);
                assert(packet_views(queue@.push(packet)) =~= packet_views(queue@).push(packet@));
                assert(before + all.take(i + 1) =~= (before + all.take(i as int)).push(all[i as int]));
            }
            queue.push_back(packet);
            i = i + 1;
        }
        assert(all.take(i as int) =~= all);
    }
}

/// A module that turns over on each low pulse and reports its new state.
pub struct FlipFlop<'a> {
    pub name: &'a [u8],
    pub successors: Vec<&'a [u8]>,
    pub on: bool,
}

impl<'a> FlipFlop<'a> {
    pub fn new(name: &'a [u8], successors: Vec<&'a [u8]>) -> (r: Self)
        ensures
            r.model() == (ModuleView::FlipFlop {
                name: name@,
                successors: views(successors@),
                on: false,
            }),
    {
        FlipFlop { name, successors, on: false }
    }
}

impl<'a> Module<'a> for FlipFlop<'a> {
    open spec fn model(&self) -> ModuleView {
        ModuleView::FlipFlop { name: self.name@, successors: views(self.successors@), on: self.on }
    }

    fn name(&self) -> (n: &'a [u8]) {
        self.name
    }

    fn successors(&self) -> (s: &[&'a [u8]]) {
        self.successors.as_slice()
    }

    fn process_pulse(&mut self, source: &'a [u8], pulse: Pulse, queue: &mut VecDeque<PulsePacket<'a>>) {
        if pulse == Pulse::High {
            assert(packet_views(queue@) + Seq::<PacketView>::empty() =~= packet_views(queue@));
            return ;
        }
        self.on = !self.on;
        let pulse_to_send = if self.on {
            Pulse::High
        } else {
            Pulse::Low
        };
        self.send_to_successors(pulse_to_send, queue);
    }
}

/// A module that remembers the last pulse of each predecessor and sends low
/// exactly when all of them are high.
pub struct Conjunction<'a> {
    pub name: &'a [u8],
    pub successors: Vec<&'a [u8]>,
    pub predecessors: Vec<&'a [u8]>,
    pub most_recent_pulses: Vec<Pulse>,
}

/// Finds the first of `names` that equals `name`.
pub fn position(names: &[&[u8]], name: &[u8]) -> (r: Option<usize>)
    ensures
        match r {
            Some(i) => i < names@.len() && i == position_of(views(names@), name@, 0),
            None => position_of(views(names@), name@, 0) == names@.len(),
        },
{
    let mut i: usize = 0;
    while i < names.len()
        invariant
            i <= names.len(),
            position_of(views(names@), name@, 0) == position_of(views(names@), name@, i as int),
        decreases names.len() - i,
    {
        assert(views(names@)[i as int] == names@[i as int]@);
        if bytes_eq(names[i], name) {
            return Some(i);
        }
        i = i + 1;
    }
    None
}

/// Tells whether every pulse of `pulses` is high.
pub fn every_high(pulses: &[Pulse]) -> (b: bool)
    ensures
        b == all_high(pulses@),
{
    let mut i: usize = 0;
    while i < pulses.len()
        invariant
            i <= pulses.len(),
            forall|k: int| 0 <= k < i ==> pulses@[k] == Pulse::High,
        decreases pulses.len() - i,
    {
        if pulses[i] != Pulse::High {
            return false;
        }
        i = i + 1;
    }
    true
}

impl<'a> Conjunction<'a> {
    pub fn new(name: &'a [u8], successors: Vec<&'a [u8]>, predecessors: Vec<&'a [u8]>) -> (r: Self)
        ensures
            r.model() == (ModuleView::Conjunction {
                name: name@,
                successors: views(successors@),
                predecessors: views(predecessors@),
                recent: Seq::new(predecessors@.len(), |i: int| Pulse::Low),
            }),
    {
        let mut most_recent_pulses: Vec<Pulse> = Vec::new();
        let mut i: usize = 0;
        while i < predecessors.len()
            invariant
                i <= predecessors.len(),
                most_recent_pulses@ =~= Seq::new(i as nat, |k: int| Pulse::Low),
            decreases predecessors.len() - i,
        {
            most_recent_pulses.push(Pulse::Low);
            i = i + 1;
        }
        Conjunction { name, successors, most_recent_pulses, predecessors }
    }

    pub fn predecessors(&self) -> (p: &[&'a [u8]])
        ensures
            p@ == self.predecessors@,
    {
        self.predecessors.as_slice()
    }
}

impl<'a> Module<'a> for Conjunction<'a> {
    open spec fn model(&self) -> ModuleView {
        ModuleView::Conjunction {
            name: self.name@,
            successors: views(self.successors@),
            predecessors: views(self.predecessors@),
            recent: self.most_recent_pulses@,
        }
    }

    fn name(&self) -> (n: &'a [u8]) {
        self.name
    }

    fn successors(&self) -> (s: &[&'a [u8]]) {
        self.successors.as_slice()
    }

    fn process_pulse(&mut self, source: &'a [u8], pulse: Pulse, queue: &mut VecDeque<PulsePacket<'a>>) {
        let index = position(self.predecessors.as_slice(), source).unwrap();
        self.most_recent_pulses.set(index, pulse);
        let pulse_to_send = if every_high(self.most_recent_pulses.as_slice()) {
            Pulse::Low
        } else {
            Pulse::High
        };
        self.send_to_successors(pulse_to_send, queue);
    }
}

/// The module that repeats each pulse to all its successors.
pub struct Broadcaster<'a> {
    pub successors: Vec<&'a [u8]>,
}

impl<'a> Broadcaster<'a> {
    pub fn new(successors: Vec<&'a [u8]>) -> (r: Self)
        ensures
            r.model() == (ModuleView::Broadcaster { successors: views(successors@) }),
    {
        Broadcaster { successors }
    }
}

impl<'a> Module<'a> for Broadcaster<'a> {
    open spec fn model(&self) -> ModuleView {
        ModuleView::Broadcaster { successors: views(self.successors@) }
    }

    fn name(&self) -> (n: &'a [u8]) {
        "broadcaster".as_bytes()
    }

    fn successors(&self) -> (s: &[&'a [u8]]) {
        self.successors.as_slice()
    }

    fn process_pulse(&mut self, source: &'a [u8], pulse: Pulse, queue: &mut VecDeque<PulsePacket<'a>>) {
        self.send_to_successors(pulse, queue);
    }
}

/// The button: it sends to its successors, by default the broadcaster, and
/// takes no pulse.
pub struct Button {
    pub successors: Vec<&'static [u8]>,
}

impl Button {
    /// The button, wired to the broadcaster.
    pub fn new() -> (r: Self)
        ensures
            r.model() == (ModuleView::Button { successors: seq![broadcaster_name()] }),
    {
        let mut successors: Vec<&'static [u8]> = Vec::new();
        successors.push("broadcaster".as_bytes());
        assert(views(successors@) =~= seq![broadcaster_name()]);
        Button { successors }
    }
}

impl<'a> Module<'a> for Button {
    open spec fn model(&self) -> ModuleView {
        ModuleView::Button { successors: views(self.successors@) }
    }

    fn name(&self) -> (n: &'a [u8]) {
        "broadcaster".as_bytes()
    }

    fn successors(&self) -> (s: &[&'a [u8]]) {
        self.successors.as_slice()
    }

    fn process_pulse(&mut self, source: &'a [u8], pulse: Pulse, queue: &mut VecDeque<PulsePacket<'a>>) {
    }
}

/// Any of the four kinds of module.
pub enum ModuleEnum<'a> {
    FlipFlop(FlipFlop<'a>),
    Conjunction(Conjunction<'a>),
    Broadcaster(Broadcaster<'a>),
    Button(Button),
}

impl<'a> ModuleEnum<'a> {
    /// Whether the module can take a pulse from `source`.
    pub fn takes(&self, source: &[u8]) -> (b: bool)
        ensures
            b == self.model().takes(source@),
    {
        match self {
            ModuleEnum::Conjunction(c) => c.most_recent_pulses.len() == c.predecessors.len()
                && position(c.predecessors.as_slice(), source).is_some(),
            ModuleEnum::Button(_) => false,
            _ => true,
        }
    }
}

impl<'a> Module<'a> for ModuleEnum<'a> {
    open spec fn model(&self) -> ModuleView {
        match self {
            ModuleEnum::FlipFlop(m) => m.model(),
            ModuleEnum::Conjunction(m) => m.model(),
            ModuleEnum::Broadcaster(m) => m.model(),
            ModuleEnum::Button(m) => m.model(),
        }
    }

    fn name(&self) -> (n: &'a [u8]) {
        match self {
            ModuleEnum::FlipFlop(m) => m.name(),
            ModuleEnum::Conjunction(m) => m.name(),
            ModuleEnum::Broadcaster(m) => m.name(),
            ModuleEnum::Button(m) => m.name(),
        }
    }

    fn successors(&self) -> (s: &[&'a [u8]]) {
        match self {
            ModuleEnum::FlipFlop(m) => m.successors(),
            ModuleEnum::Conjunction(m) => m.successors(),
            ModuleEnum::Broadcaster(m) => m.successors(),
            ModuleEnum::Button(m) => m.successors(),
        }
    }

    fn process_pulse(&mut self, source: &'a [u8], pulse: Pulse, queue: &mut VecDeque<PulsePacket<'a>>) {
        match self {
            ModuleEnum::FlipFlop(m) => m.process_pulse(source, pulse, queue),
            ModuleEnum::Conjunction(m) => m.process_pulse(source, pulse, queue),
            ModuleEnum::Broadcaster(m) => m.process_pulse(source, pulse, queue),
            ModuleEnum::Button(m) => m.process_pulse(source, pulse, queue),
        }
    }
}

} // verus!
