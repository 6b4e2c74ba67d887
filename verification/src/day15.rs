//! Lens boxes: a byte hash and an ordered multimap keyed by it.

use crate::text::{bytes_eq, is_utf8, parse_unsigned, split, split_on, split_once, split_once_on, strip_last};
use crate::text::{unsigned_of, views};
use vstd::prelude::*;

verus! {

/// The hash of a byte string: fold each byte in with `(h + b) * 17 mod 256`.
pub open spec fn hash_of(s: Seq<u8>) -> int
    decreases s.len(),
{
    if s.len() == 0 {
        0
    } else {
        ((hash_of(s.drop_last()) + s.last() as int) * 17) % 256
    }
}

/// Computes the hash of `s`.
pub fn holiday_hash(s: &[u8]) -> (h: u8)
    ensures
        h as int == hash_of(s@),
{
    let mut result: u32 = 0;
    let mut i: usize = 0;
    while i < s.len()
        invariant
            i <= s.len(),
            result < 256,
            result as int == hash_of(s@.take(i as int)),
        decreases s.len() - i,
    {
        proof {
            assert(s@.take(i + 1).drop_last() =~= s@.take(i as int));
        }
        result = result + s[i] as u32;
        result = result * 17;
        result = result % 256;
        i = i + 1;
    }
    proof {
        assert(s@.take(i as int) =~= s@);
    }
    result as u8
}

/// The sum of the hashes of the first `n` pieces.
pub open spec fn hash_sum(pieces: Seq<Seq<u8>>, n: int) -> nat
    decreases n,
{
    if n <= 0 {
        0
    } else {
        hash_sum(pieces, n - 1) + hash_of(pieces[n - 1]) as nat
    }
}

/// The sum over more pieces is at least the sum over fewer.
pub proof fn lemma_hash_sum_grows(pieces: Seq<Seq<u8>>, i: int, n: int)
    requires
        0 <= i <= n,
    ensures
        hash_sum(pieces, i) <= hash_sum(pieces, n),
    decreases n - i,
{
    if i < n {
        lemma_hash_sum_grows(pieces, i, n - 1);
    }
}

/// The sum of the hashes of the pieces of the text between commas, or
/// nothing when it does not fit in 64 bits.
pub fn part1(puzzle_input: &[u8]) -> (r: Option<u64>)
    ensures
        r == (if hash_sum(split_on(puzzle_input@, 44u8), split_on(puzzle_input@, 44u8).len() as int)
            <= u64::MAX {
            Some(hash_sum(split_on(puzzle_input@, 44u8), split_on(puzzle_input@, 44u8).len() as int) as u64)
        } else {
            None
        }),
{
    let pieces = split(puzzle_input, 44u8);
    let ghost all = split_on(puzzle_input@, 44u8);
    assert(all.len() == pieces@.len());
    let mut total: u64 = 0;
    let mut i: usize = 0;
    while i < pieces.len()
        invariant
            i <= pieces.len(),
            all == views(pieces@),
            all == split_on(puzzle_input@, 44u8),
            total == hash_sum(all, i as int),
        decreases pieces.len() - i,
    {
        assert(all[i as int] == pieces@[i as int]@);
        match total.checked_add(holiday_hash(pieces[i]) as u64) {
            Some(sum) => {
                total = sum;
            },
            None => {
                proof {
                    lemma_hash_sum_grows(all, i + 1, all.len() as int);
                }
                return None;
            },
        }
        i = i + 1;
    }
    Some(total)
}

/// One step of the initialization sequence.
pub enum Instruction<'a> {
    /// Put a lens with this label and focal length into its box.
    Equals { label: &'a [u8], focal_length: u8 },
    /// Take the lens with this label out of its box.
    Dash { label: &'a [u8] },
}

/// An instruction with its label as a sequence of bytes.
pub enum InstructionView {
    Equals { label: Seq<u8>, focal_length: u8 },
    Dash { label: Seq<u8> },
}

impl<'a> View for Instruction<'a> {
    type V = InstructionView;

    open spec fn view(&self) -> InstructionView {
        match self {
            Instruction::Equals { label, focal_length } => InstructionView::Equals {
                label: label@,
                focal_length: *focal_length,
            },
            Instruction::Dash { label } => InstructionView::Dash { label: label@ },
        }
    }
}

/// Why a text is no instruction, or why no answer can be given.
#[derive(Debug, Clone, Copy, PartialEq, Eq, Structural)]
pub enum InstructionError {
    /// The text does not end in `-` and is not well-formed UTF-8.
    NotUtf8,
    /// The text neither ends in `-` nor holds an `=`.
    MissingOperator,
    /// What follows the `=` is not a number from 0 to 255.
    BadFocalLength,
    /// The focusing power does not fit in `usize`.
    Overflow,
}

/// A number from 0 to 255 written in decimal.
pub open spec fn focal_length_of(s: Seq<u8>) -> Option<u8> {
    match unsigned_of(s) {
        Some(v) => if v <= u8::MAX {
            Some(v as u8)
        } else {
            None
        },
        None => None,
    }
}

/// The instruction that a text describes: `<label>-` or `<label>=<number>`.
pub open spec fn instruction_of(s: Seq<u8>) -> Result<InstructionView, InstructionError> {
    if s.len() > 0 && s.last() == 45u8 {
        Ok(InstructionView::Dash { label: s.drop_last() })
    } else if !vstd::utf8::valid_utf8(s) {
        Err(InstructionError::NotUtf8)
    } else {
        match split_once_on(s, 61u8) {
            None => Err(InstructionError::MissingOperator),
            Some((label, number)) => match focal_length_of(number) {
                None => Err(InstructionError::BadFocalLength),
                Some(focal_length) => Ok(InstructionView::Equals { label, focal_length }),
            },
        }
    }
}

impl<'a> Instruction<'a> {
    /// Reads an instruction.
    pub fn try_from(s: &'a [u8]) -> (r: Result<Instruction<'a>, InstructionError>)
        ensures
            match r {
                Ok(instruction) => instruction_of(s@) == Ok::<InstructionView, InstructionError>(instruction@),
                Err(e) => instruction_of(s@) == Err::<InstructionView, InstructionError>(e),
            },
    {
        match strip_last(s, 45u8) {
            Some(label) => Ok(Instruction::Dash { label }),
            None => {
                if !is_utf8(s) {
                    return Err(InstructionError::NotUtf8);
                }
                match split_once(s, 61u8) {
                    None => Err(InstructionError::MissingOperator),
                    Some((label, number)) => match parse_unsigned(number) {
                        Some(v) => if v <= 255 {
                            Ok(Instruction::Equals { label, focal_length: v as u8 })
                        } else {
                            Err(InstructionError::BadFocalLength)
                        },
                        None => Err(InstructionError::BadFocalLength),
                    },
                }
            },
        }
    }
}

/// A lens in a box.
pub struct HashMapEntry<'a> {
    pub label: &'a [u8],
    pub focal_length: u8,
}

/// A lens with its label as a sequence of bytes.
pub struct Lens {
    pub label: Seq<u8>,
    pub focal_length: u8,
}

impl<'a> View for HashMapEntry<'a> {
    type V = Lens;

    open spec fn view(&self) -> Lens {
        Lens { label: self.label@, focal_length: self.focal_length }
    }
}

/// The views of the lenses of a box.
pub open spec fn lens_views<'a>(list: Seq<HashMapEntry<'a>>) -> Seq<Lens> {
    list.map_values(|e: HashMapEntry<'a>| e@)
}

/// The views of the boxes.
pub open spec fn box_views<'a>(boxes: Seq<Vec<HashMapEntry<'a>>>) -> Seq<Seq<Lens>> {
    boxes.map_values(|b: Vec<HashMapEntry<'a>>| lens_views(b@))
}

/// The index of the first lens from `from` on with this label, or the number
/// of lenses.
pub open spec fn find_label(list: Seq<Lens>, label: Seq<u8>, from: int) -> int
    decreases list.len() - from,
{
    if from >= list.len() {
        list.len() as int
    } else if list[from].label == label {
        from
    } else {
        find_label(list, label, from + 1)
    }
}

/// The box after an instruction for it: `=` changes the focal length of the
/// lens with the label, or puts a new lens behind the others; `-` takes the
/// lens with the label out.
pub open spec fn box_after(list: Seq<Lens>, instruction: InstructionView) -> Seq<Lens> {
    match instruction {
        InstructionView::Equals { label, focal_length } => {
            let i = find_label(list, label, 0);
            if i < list.len() {
                list.update(i, Lens { label: list[i].label, focal_length })
            } else {
                list.push(Lens { label, focal_length })
            }
        },
        InstructionView::Dash { label } => {
            let i = find_label(list, label, 0);
            if i < list.len() {
                list.remove(i)
            } else {
                list
            }
        },
    }
}

/// The label of an instruction.
pub open spec fn label_of(instruction: InstructionView) -> Seq<u8> {
    match instruction {
        InstructionView::Equals { label, .. } => label,
        InstructionView::Dash { label } => label,
    }
}

/// The boxes after an instruction: it acts on the box that its label hashes
/// to.
pub open spec fn boxes_after(boxes: Seq<Seq<Lens>>, instruction: InstructionView) -> Seq<Seq<Lens>> {
    let b = hash_of(label_of(instruction));
    boxes.update(b, box_after(boxes[b], instruction))
}

/// The boxes after the first `n` pieces have been carried out, starting from
/// 256 empty boxes, or the error of the first piece that is no instruction.
pub open spec fn boxes_of(pieces: Seq<Seq<u8>>, n: int) -> Result<Seq<Seq<Lens>>, InstructionError>
    decreases n,
{
    if n <= 0 {
        Ok(Seq::new(256, |i: int| Seq::empty()))
    } else {
        match boxes_of(pieces, n - 1) {
            Err(e) => Err(e),
            Ok(boxes) => match instruction_of(pieces[n - 1]) {
                Err(e) => Err(e),
                Ok(instruction) => Ok(boxes_after(boxes, instruction)),
            },
        }
    }
}

/// If carrying out the first `i` pieces fails, so does carrying out the
/// first `n`, with the same error.
pub proof fn lemma_boxes_of_prefix(pieces: Seq<Seq<u8>>, i: int, n: int)
    requires
        0 <= i <= n,
        boxes_of(pieces, i) is Err,
    ensures
        boxes_of(pieces, n) == boxes_of(pieces, i),
    decreases n - i,
{
    if i < n {
        lemma_boxes_of_prefix(pieces, i, n - 1);
    }
}

/// The hash of a byte string is below 256.
pub proof fn lemma_hash_range(s: Seq<u8>)
    ensures
        0 <= hash_of(s) < 256,
    decreases s.len(),
{
    if s.len() > 0 {
        lemma_hash_range(s.drop_last());
    }
}

/// The power of the first `n` lenses of a box: each focal length times the
/// number of its slot, counted from 1.
pub open spec fn box_power(list: Seq<Lens>, n: int) -> nat
    decreases n,
{
    if n <= 0 {
        0
    } else {
        box_power(list, n - 1) + (n * list[n - 1].focal_length) as nat
    }
}

/// The focusing power of the first `n` boxes: the power of each box times
/// its number, counted from 1.
pub open spec fn focusing_power(boxes: Seq<Seq<Lens>>, n: int) -> nat
    decreases n,
{
    if n <= 0 {
        0
    } else {
        (focusing_power(boxes, n - 1) + n * box_power(boxes[n - 1], boxes[n - 1].len() as int)) as nat
    }
}

/// The power of more lenses is at least the power of fewer.
pub proof fn lemma_box_power_grows(list: Seq<Lens>, i: int, n: int)
    requires
        0 <= i <= n,
    ensures
        box_power(list, i) <= box_power(list, n),
    decreases n - i,
{
    if i < n {
        lemma_box_power_grows(list, i, n - 1);
    }
}

/// The power of more boxes is at least the power of fewer.
pub proof fn lemma_focusing_power_grows(boxes: Seq<Seq<Lens>>, i: int, n: int)
    requires
        0 <= i <= n,
    ensures
        focusing_power(boxes, i) <= focusing_power(boxes, n),
    decreases n - i,
{
    if i < n {
        lemma_focusing_power_grows(boxes, i, n - 1);
        assert(n * box_power(boxes[n - 1], boxes[n - 1].len() as int) >= 0) by (nonlinear_arith)
            requires
                n >= 0,
        ;
    }
}

/// Finds the lens with this label.
fn find_lens(list: &Vec<HashMapEntry>, label: &[u8]) -> (r: Option<usize>)
    ensures
        match r {
            Some(i) => i < list@.len() && i == find_label(lens_views(list@), label@, 0),
            None => find_label(lens_views(list@), label@, 0) == list@.len(),
        },
{
    let mut i: usize = 0;
    while i < list.len()
        invariant
            i <= list.len(),
            find_label(lens_views(list@), label@, 0) == find_label(lens_views(list@), label@, i as int),
        decreases list.len() - i,
    {
        assert(lens_views(list@)[i as int] == list@[i as int]@);
        if bytes_eq(label, list[i].label) {
            return Some(i);
        }
        i = i + 1;
    }
    None
}

/// Carries out one instruction on the boxes.
fn carry_out<'a>(boxes: &mut Vec<Vec<HashMapEntry<'a>>>, instruction: Instruction<'a>)
    requires
        old(boxes)@.len() == 256,
    ensures
        final(boxes)@.len() == 256,
        box_views(final(boxes)@) == boxes_after(box_views(old(boxes)@), instruction@),
{
    let ghost before = box_views(boxes@);
    match instruction {
        Instruction::Equals { label, focal_length } => {
            let b = holiday_hash(label) as usize;
            proof {
                lemma_hash_range(label@);
                assert(before[b as int] == lens_views(boxes@[b as int]@));
            }
            let mut list = boxes.remove(b);
            match find_lens(&list, label) {
                Some(i) => {
                    let ghost old_list = list@;
                    let entry = HashMapEntry { label: list[i].label, focal_length };
                    assert(lens_views(old_list)[i as int] == old_list[i as int]@);
                    list.set(i, entry);
                    assert(lens_views(list@) =~= lens_views(old_list).update(i as int, entry@));
                },
                None => {
                    let ghost old_list = list@;
                    let entry = HashMapEntry { label, focal_length };
                    list.push(entry);
                    assert(lens_views(list@) =~= lens_views(old_list).push(entry@));
                },
            }
            boxes.insert(b, list);
            assert(box_views(boxes@) =~= before.update(b as int, lens_views(list@)));
        },
        Instruction::Dash { label } => {
            let b = holiday_hash(label) as usize;
            proof {
                lemma_hash_range(label@);
                assert(before[b as int] == lens_views(boxes@[b as int]@));
            }
            let mut list = boxes.remove(b);
            match find_lens(&list, label) {
                Some(i) => {
                    let ghost old_list = list@;
                    list.remove(i);
                    assert(lens_views(list@) =~= lens_views(old_list).remove(i as int));
                },
                None => {},
            }
            boxes.insert(b, list);
            assert(box_views(boxes@) =~= before.update(b as int, lens_views(list@)));
        },
    }
}

/// The power of a box, or nothing when it does not fit in `usize`.
fn power_of_box(list: &Vec<HashMapEntry>) -> (r: Option<usize>)
    ensures
        r == (if box_power(lens_views(list@), list@.len() as int) <= usize::MAX {
            Some(box_power(lens_views(list@), list@.len() as int) as usize)
        } else {
            None
        }),
{
    let ghost lenses = lens_views(list@);
    let mut total: usize = 0;
    let mut slot: usize = 0;
    while slot < list.len()
        invariant
            slot <= list.len(),
            lenses == lens_views(list@),
            total == box_power(lenses, slot as int),
        decreases list.len() - slot,
    {
        assert(lenses[slot as int] == list@[slot as int]@);
        let step = match (slot + 1).checked_mul(list[slot].focal_length as usize) {
            Some(product) => total.checked_add(product),
            None => None,
        };
        match step {
            Some(sum) => {
                total = sum;
            },
            None => {
                proof {
                    lemma_box_power_grows(lenses, slot + 1, lenses.len() as int);
                }
                return None;
            },
        }
        slot = slot + 1;
    }
    Some(total)
}

/// The focusing power of the boxes after the initialization sequence, whose
/// steps stand between commas.
pub fn part2(puzzle_input: &[u8]) -> (r: Result<usize, InstructionError>)
    ensures
        r == (match boxes_of(split_on(puzzle_input@, 44u8), split_on(puzzle_input@, 44u8).len() as int) {
            Err(e) => Err(e),
            Ok(boxes) => if focusing_power(boxes, 256) <= usize::MAX {
                Ok(focusing_power(boxes, 256) as usize)
            } else {
                Err(InstructionError::Overflow)
            },
        }),
{
    let mut boxes: Vec<Vec<HashMapEntry>> = Vec::new();
    let mut k: usize = 0;
    while k < 256
        invariant
            k <= 256,
            boxes@.len() == k,
            forall|i: int| 0 <= i < k ==> (#[trigger] boxes@[i])@.len() == 0,
        decreases 256 - k,
    {
        boxes.push(Vec::new());
        k = k + 1;
    }
    let pieces = split(puzzle_input, 44u8);
    let ghost all = split_on(puzzle_input@, 44u8);
    assert(all.len() == pieces@.len());
    proof {
        assert forall|b: int| 0 <= b < 256 implies #[trigger] box_views(boxes@)[b] == Seq::<Lens>::empty() by {
            assert(lens_views(boxes@[b]@) =~= Seq::<Lens>::empty());
        }
        assert(box_views(boxes@) =~= Seq::new(256, |i: int| Seq::<Lens>::empty()));
    }
    let mut i: usize = 0;
    while i < pieces.len()
        invariant
            i <= pieces.len(),
            all == views(pieces@),
            all == split_on(puzzle_input@, 44u8),
            boxes@.len() == 256,
            boxes_of(all, i as int) == Ok::<Seq<Seq<Lens>>, InstructionError>(box_views(boxes@)),
        decreases pieces.len() - i,
    {
        assert(all[i as int] == pieces@[i as int]@);
        match Instruction::try_from(pieces[i]) {
            Err(e) => {
                proof {
                    lemma_boxes_of_prefix(all, i + 1, all.len() as int);
                }
                return Err(e);
            },
            Ok(instruction) => {
                carry_out(&mut boxes, instruction);
            },
        }
        i = i + 1;
    }
    let ghost lenses = box_views(boxes@);
    let mut result: usize = 0;
    let mut box_num: usize = 0;
    while box_num < 256
        invariant
            box_num <= 256,
            boxes@.len() == 256,
            lenses == box_views(boxes@),
            boxes_of(all, all.len() as int) == Ok::<Seq<Seq<Lens>>, InstructionError>(lenses),
            all == split_on(puzzle_input@, 44u8),
            result == focusing_power(lenses, box_num as int),
        decreases 256 - box_num,
    {
        assert(lenses[box_num as int] == lens_views(boxes@[box_num as int]@));
        let ghost power = box_power(lenses[box_num as int], lenses[box_num as int].len() as int);
        let step = match power_of_box(&boxes[box_num]) {
            Some(p) => match (box_num + 1).checked_mul(p) {
                Some(product) => result.checked_add(product),
                None => None,
            },
            None => None,
        };
        match step {
            Some(sum) => {
                result = sum;
            },
            None => {
                proof {
                    lemma_focusing_power_grows(lenses, box_num + 1, 256);
                    assert((box_num + 1) * power >= power) by (nonlinear_arith)
                        requires
                            box_num >= 0,
                            power >= 0,
                    ;
                }
                return Err(InstructionError::Overflow);
            },
        }
        box_num = box_num + 1;
    }
    Ok(result)
}

} // verus!
