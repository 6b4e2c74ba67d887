//! Byte-level text handling: splitting on separators, lines, words and
//! decimal numbers. Every puzzle grammar in this crate is stated over these.

use vstd::prelude::*;

verus! {

/// The views of a sequence of byte slices.
pub open spec fn views(v: Seq<&[u8]>) -> Seq<Seq<u8>> {
    v.map_values(|p: &[u8]| p@)
}

/// The pieces of `s` between occurrences of `sep`, scanning from `i` with the
/// current piece starting at `start`.
pub open spec fn split_from(s: Seq<u8>, sep: u8, start: int, i: int) -> Seq<Seq<u8>>
    decreases s.len() - i,
{
    if i >= s.len() {
        seq![s.subrange(start, s.len() as int)]
    } else if s[i] == sep {
        seq![s.subrange(start, i)] + split_from(s, sep, i + 1, i + 1)
    } else {
        split_from(s, sep, start, i + 1)
    }
}

/// The pieces of `s` between occurrences of `sep`. There is always at least
/// one piece; `n` separators give `n + 1` pieces.
pub open spec fn split_on(s: Seq<u8>, sep: u8) -> Seq<Seq<u8>> {
    split_from(s, sep, 0, 0)
}

/// Splits `s` at every occurrence of `sep`.
pub fn split(s: &[u8], sep: u8) -> (pieces: Vec<&[u8]>)
    ensures
        views(pieces@) == split_on(s@, sep),
{
    let mut pieces: Vec<&[u8]> = Vec::new();
    let mut start: usize = 0;
    let mut i: usize = 0;
    while i < s.len()
        invariant
            start <= i <= s.len(),
            split_on(s@, sep) == views(pieces@) + split_from(s@, sep, start as int, i as int),
        decreases s.len() - i,
    {
        if s[i] == sep {
            let piece = &s[start..i];
            proof {
                let old_views = views(pieces@);
                assert(views(pieces@.push(piece)) =~= old_views.push(piece@));
                assert(old_views + (seq![piece@] + split_from(s@, sep, i + 1, i + 1))
                    =~= old_views.push(piece@) + split_from(s@, sep, i + 1, i + 1));
            }
            pieces.push(piece);
            start = i + 1;
        }
        i = i + 1;
    }
    let piece = &s[start..s.len()];
    proof {
        let old_views = views(pieces@);
        assert(views(pieces@.push(piece)) =~= old_views.push(piece@));
        assert(old_views + seq![piece@] =~= old_views.push(piece@));
    }
    pieces.push(piece);
    pieces
}

/// The index of the first occurrence of `sep` at or after `i`, or the length
/// of `s` when there is none.
pub open spec fn find_from(s: Seq<u8>, sep: u8, i: int) -> int
    decreases s.len() - i,
{
    if i >= s.len() {
        s.len() as int
    } else if s[i] == sep {
        i
    } else {
        find_from(s, sep, i + 1)
    }
}

/// The parts of `s` before and after the first `sep`, if `s` holds one.
pub open spec fn split_once_on(s: Seq<u8>, sep: u8) -> Option<(Seq<u8>, Seq<u8>)> {
    let i = find_from(s, sep, 0);
    if i < s.len() {
        Some((s.subrange(0, i), s.subrange(i + 1, s.len() as int)))
    } else {
        None
    }
}

/// Splits `s` at the first occurrence of `sep`.
pub fn split_once(s: &[u8], sep: u8) -> (r: Option<(&[u8], &[u8])>)
    ensures
        match r {
            Some((a, b)) => split_once_on(s@, sep) == Some((a@, b@)),
            None => split_once_on(s@, sep) is None,
        },
{
    let mut i: usize = 0;
    while i < s.len()
        invariant
            i <= s.len(),
            find_from(s@, sep, 0) == find_from(s@, sep, i as int),
        decreases s.len() - i,
    {
        if s[i] == sep {
            return Some((&s[0..i], &s[i + 1..s.len()]));
        }
        i = i + 1;
    }
    None
}

/// Whether `pat` occurs in `s` at index `i`.
pub open spec fn matches_at(s: Seq<u8>, pat: Seq<u8>, i: int) -> bool {
    0 <= i && i + pat.len() <= s.len() && s.subrange(i, i + pat.len()) == pat
}

/// Tells whether `pat` occurs in `s` at index `i`.
pub fn occurs_at(s: &[u8], pat: &[u8], i: usize) -> (b: bool)
    ensures
        b == matches_at(s@, pat@, i as int),
{
    if pat.len() > s.len() || i > s.len() - pat.len() {
        return false;
    }
    bytes_eq(&s[i..i + pat.len()], pat)
}

/// The pieces of `s` between occurrences of the non-empty string `pat`,
/// scanning from `i` with the current piece starting at `start`. Occurrences
/// are taken leftmost first and do not overlap.
pub open spec fn split_str_from(s: Seq<u8>, pat: Seq<u8>, start: int, i: int) -> Seq<Seq<u8>>
    decreases s.len() - i,
{
    if pat.len() == 0 || i + pat.len() > s.len() {
        seq![s.subrange(start, s.len() as int)]
    } else if matches_at(s, pat, i) {
        seq![s.subrange(start, i)] + split_str_from(s, pat, i + pat.len(), i + pat.len())
    } else {
        split_str_from(s, pat, start, i + 1)
    }
}

/// The pieces of `s` between occurrences of `pat`; `s` itself when `pat` is
/// empty.
pub open spec fn split_on_str(s: Seq<u8>, pat: Seq<u8>) -> Seq<Seq<u8>> {
    split_str_from(s, pat, 0, 0)
}

/// Splits `s` at every occurrence of `pat`.
pub fn split_str<'a>(s: &'a [u8], pat: &[u8]) -> (pieces: Vec<&'a [u8]>)
    ensures
        views(pieces@) == split_on_str(s@, pat@),
{
    let mut pieces: Vec<&[u8]> = Vec::new();
    let mut start: usize = 0;
    let mut i: usize = 0;
    if pat.len() > 0 {
        while pat.len() <= s.len() && i <= s.len() - pat.len()
            invariant
                pat.len() > 0,
                start <= i <= s.len(),
                split_on_str(s@, pat@) == views(pieces@) + split_str_from(s@, pat@, start as int, i as int),
            decreases s.len() - i,
        {
            if occurs_at(s, pat, i) {
                let piece = &s[start..i];
                proof {
                    let old_views = views(pieces@);
                    let rest = split_str_from(s@, pat@, i + pat@.len(), i + pat@.len());
                    assert(views(pieces@.push(piece)) =~= old_views.push(piece@));
                    assert(old_views + (seq![piece@] + rest) =~= old_views.push(piece@) + rest);
                }
                pieces.push(piece);
                i = i + pat.len();
                start = i;
            } else {
                i = i + 1;
            }
        }
    }
    let piece = &s[start..s.len()];
    proof {
        let old_views = views(pieces@);
        assert(views(pieces@.push(piece)) =~= old_views.push(piece@));
        assert(old_views + seq![piece@] =~= old_views.push(piece@));
    }
    pieces.push(piece);
    pieces
}

/// The index of the first occurrence of the non-empty string `pat` at or
/// after `i`, or the length of `s` when there is none.
pub open spec fn find_str_from(s: Seq<u8>, pat: Seq<u8>, i: int) -> int
    decreases s.len() - i,
{
    if pat.len() == 0 || i + pat.len() > s.len() {
        s.len() as int
    } else if matches_at(s, pat, i) {
        i
    } else {
        find_str_from(s, pat, i + 1)
    }
}

/// The parts of `s` before and after the first occurrence of `pat`, if it
/// holds one.
pub open spec fn split_once_on_str(s: Seq<u8>, pat: Seq<u8>) -> Option<(Seq<u8>, Seq<u8>)> {
    let i = find_str_from(s, pat, 0);
    if i < s.len() {
        Some((s.subrange(0, i), s.subrange(i + pat.len(), s.len() as int)))
    } else {
        None
    }
}

/// Splits `s` at the first occurrence of the non-empty string `pat`.
pub fn split_once_str<'a>(s: &'a [u8], pat: &[u8]) -> (r: Option<(&'a [u8], &'a [u8])>)
    ensures
        match r {
            Some((a, b)) => split_once_on_str(s@, pat@) == Some((a@, b@)),
            None => split_once_on_str(s@, pat@) is None,
        },
{
    if pat.len() == 0 {
        return None;
    }
    let mut i: usize = 0;
    while pat.len() <= s.len() && i <= s.len() - pat.len()
        invariant
            pat.len() > 0,
            i <= s.len(),
            find_str_from(s@, pat@, 0) == find_str_from(s@, pat@, i as int),
        decreases s.len() - i,
    {
        if occurs_at(s, pat, i) {
            return Some((&s[0..i], &s[i + pat.len()..s.len()]));
        }
        i = i + 1;
    }
    None
}

/// `s` without its last byte, if that byte is `last`.
pub fn strip_last(s: &[u8], last: u8) -> (r: Option<&[u8]>)
    ensures
        match r {
            Some(rest) => s@.len() > 0 && s@.last() == last && rest@ == s@.drop_last(),
            None => s@.len() == 0 || s@.last() != last,
        },
{
    if s.len() > 0 && s[s.len() - 1] == last {
        Some(&s[0..s.len() - 1])
    } else {
        None
    }
}

/// A line without a trailing carriage return.
pub open spec fn trim_cr(line: Seq<u8>) -> Seq<u8> {
    if line.len() > 0 && line.last() == 13u8 {
        line.drop_last()
    } else {
        line
    }
}

/// The `i`-th line among the pieces between line feeds: a piece that a
/// line feed ends loses a carriage return before it; the last piece, which
/// no line feed ends, stays as it is.
pub open spec fn line_at(pieces: Seq<Seq<u8>>, i: int) -> Seq<u8> {
    if i < pieces.len() - 1 {
        trim_cr(pieces[i])
    } else {
        pieces[i]
    }
}

/// The lines of a text: the pieces between line feeds, each without the
/// carriage return that may stand before its line feed. A final line feed
/// ends the last line rather than starting an empty one, so the empty text
/// has no lines.
pub open spec fn lines_of(s: Seq<u8>) -> Seq<Seq<u8>> {
    let pieces = split_on(s, 10u8);
    let n = if pieces.last().len() == 0 {
        pieces.len() - 1
    } else {
        pieces.len() as int
    };
    Seq::new(n as nat, |i: int| line_at(pieces, i))
}

/// `split_from` always yields at least one piece.
pub proof fn lemma_split_nonempty(s: Seq<u8>, sep: u8, start: int, i: int)
    requires
        0 <= start <= i,
    ensures
        split_from(s, sep, start, i).len() >= 1,
    decreases s.len() - i,
{
    if i >= s.len() {
    } else if s[i] == sep {
        lemma_split_nonempty(s, sep, i + 1, i + 1);
    } else {
        lemma_split_nonempty(s, sep, start, i + 1);
    }
}

/// Splits a text into its lines.
pub fn lines(s: &[u8]) -> (r: Vec<&[u8]>)
    ensures
        views(r@) == lines_of(s@),
{
    let pieces = split(s, 10u8);
    proof {
        lemma_split_nonempty(s@, 10u8, 0, 0);
        assert(views(pieces@).len() == pieces@.len());
    }
    let n = if pieces[pieces.len() - 1].len() == 0 {
        pieces.len() - 1
    } else {
        pieces.len()
    };
    let ghost all = views(pieces@);
    proof {
        assert(all.last() == pieces@[pieces@.len() - 1]@);
    }
    let mut r: Vec<&[u8]> = Vec::new();
    let mut i: usize = 0;
    while i < n
        invariant
            i <= n <= pieces.len(),
            all == views(pieces@),
            r@.len() == i,
            forall|k: int| 0 <= k < i ==> (#[trigger] r@[k])@ == line_at(all, k),
        decreases n - i,
    {
        let line: &[u8] = pieces[i];
        let trimmed: &[u8] = if i + 1 < pieces.len() {
            match strip_last(line, 13u8) {
                Some(rest) => rest,
                None => line,
            }
        } else {
            line
        };
        proof {
            assert(all[i as int] == line@);
            assert(trimmed@ == line_at(all, i as int));
        }
        r.push(trimmed);
        i = i + 1;
    }
    proof {
        assert(views(r@) =~= lines_of(s@));
    }
    r
}

/// ASCII whitespace: space, tab, line feed, form feed, carriage return.
pub open spec fn is_space(c: u8) -> bool {
    c == 32 || c == 9 || c == 10 || c == 12 || c == 13
}

/// The maximal runs of non-whitespace bytes in `s` from `i` on, where a run
/// that began at `start` is under way when `start < i`.
pub open spec fn words_from(s: Seq<u8>, start: int, i: int) -> Seq<Seq<u8>>
    decreases s.len() - i,
{
    if i >= s.len() {
        if start < i {
            seq![s.subrange(start, s.len() as int)]
        } else {
            Seq::empty()
        }
    } else if is_space(s[i]) {
        if start < i {
            seq![s.subrange(start, i)] + words_from(s, i + 1, i + 1)
        } else {
            words_from(s, i + 1, i + 1)
        }
    } else {
        words_from(s, start, i + 1)
    }
}

/// The words of `s`: its maximal runs of non-whitespace bytes, in order.
pub open spec fn words_of(s: Seq<u8>) -> Seq<Seq<u8>> {
    words_from(s, 0, 0)
}

/// Tells whether `c` is ASCII whitespace.
pub fn byte_is_space(c: u8) -> (b: bool)
    ensures
        b == is_space(c),
{
    c == 32 || c == 9 || c == 10 || c == 12 || c == 13
}

/// Splits `s` into its words.
pub fn words(s: &[u8]) -> (r: Vec<&[u8]>)
    ensures
        views(r@) == words_of(s@),
{
    let mut r: Vec<&[u8]> = Vec::new();
    let mut start: usize = 0;
    let mut i: usize = 0;
    while i < s.len()
        invariant
            start <= i <= s.len(),
            words_of(s@) == views(r@) + words_from(s@, start as int, i as int),
        decreases s.len() - i,
    {
        if byte_is_space(s[i]) {
            if start < i {
                let piece = &s[start..i];
                proof {
                    let old_views = views(r@);
                    assert(views(r@.push(piece)) =~= old_views.push(piece@));
                    assert(old_views + (seq![piece@] + words_from(s@, i + 1, i + 1))
                        =~= old_views.push(piece@) + words_from(s@, i + 1, i + 1));
                }
                r.push(piece);
            }
            start = i + 1;
        }
        i = i + 1;
    }
    if start < i {
        let piece = &s[start..s.len()];
        proof {
            let old_views = views(r@);
            assert(views(r@.push(piece)) =~= old_views.push(piece@));
            assert(old_views + seq![piece@] =~= old_views.push(piece@));
        }
        r.push(piece);
    } else {
        proof {
            assert(views(r@) + Seq::<Seq<u8>>::empty() =~= views(r@));
        }
    }
    r
}

/// Whether `c` is an ASCII decimal digit.
pub open spec fn is_digit(c: u8) -> bool {
    48 <= c <= 57
}

/// Whether every byte of `s` is a decimal digit.
pub open spec fn all_digits(s: Seq<u8>) -> bool {
    forall|i: int| 0 <= i < s.len() ==> is_digit(#[trigger] s[i])
}

/// The number that a string of decimal digits denotes.
pub open spec fn decimal_value(s: Seq<u8>) -> nat
    decreases s.len(),
{
    if s.len() == 0 {
        0
    } else {
        (decimal_value(s.drop_last()) * 10 + (s.last() - 48)) as nat
    }
}

/// What an unsigned decimal literal denotes: digits, after an optional `+`,
/// whose value fits in 64 bits.
pub open spec fn unsigned_of(s: Seq<u8>) -> Option<u64> {
    let digits = if s.len() > 0 && s[0] == 43u8 {
        s.skip(1)
    } else {
        s
    };
    if digits.len() > 0 && all_digits(digits) && decimal_value(digits) <= u64::MAX {
        Some(decimal_value(digits) as u64)
    } else {
        None
    }
}

/// A longer prefix of a digit string denotes at least as much.
pub proof fn lemma_decimal_prefix(s: Seq<u8>, i: int)
    requires
        all_digits(s),
        0 <= i <= s.len(),
    ensures
        decimal_value(s.take(i)) <= decimal_value(s),
    decreases s.len() - i,
{
    if i == s.len() {
        assert(s.take(i) =~= s);
    } else {
        assert(s.take(i + 1).drop_last() =~= s.take(i));
        assert(is_digit(s[i]));
        assert(s.take(i + 1).last() == s[i]);
        lemma_decimal_prefix(s, i + 1);
    }
}

/// Reads the digits of `s` from `from` on as a number.
fn parse_digits(s: &[u8], from: usize) -> (r: Option<u64>)
    requires
        from <= s.len(),
    ensures
        r == (if from < s.len() && all_digits(s@.skip(from as int)) && decimal_value(
            s@.skip(from as int),
        ) <= u64::MAX {
            Some(decimal_value(s@.skip(from as int)) as u64)
        } else {
            None
        }),
{
    if from == s.len() {
        return None;
    }
    let ghost digits = s@.skip(from as int);
    let mut value: u64 = 0;
    let mut i: usize = from;
    while i < s.len()
        invariant
            from <= i <= s.len(),
            digits == s@.skip(from as int),
            all_digits(digits.take(i - from)),
            value == decimal_value(digits.take(i - from)),
        decreases s.len() - i,
    {
        let c = s[i];
        proof {
            assert(digits[i - from] == c);
            assert(digits.take(i - from + 1).drop_last() =~= digits.take(i - from));
            assert(digits.take(i - from + 1).last() == c);
        }
        if c < 48 || c > 57 {
            return None;
        }
        let d: u64 = (c - 48) as u64;
        proof {
            assert forall|k: int| 0 <= k < i - from + 1 implies is_digit(
                #[trigger] digits.take(i - from + 1)[k],
            ) by {
                if k < i - from {
                    assert(digits.take(i - from)[k] == digits[k]);
                }
            }
        }
        if value > (u64::MAX - d) / 10 {
            proof {
                if all_digits(digits) {
                    lemma_decimal_prefix(digits, i - from + 1);
                }
            }
            return None;
        }
        value = value * 10 + d;
        i = i + 1;
    }
    proof {
        assert(digits.take(i - from) =~= digits);
    }
    Some(value)
}

/// Reads an unsigned decimal number: digits after an optional `+`.
pub fn parse_unsigned(s: &[u8]) -> (r: Option<u64>)
    ensures
        r == unsigned_of(s@),
{
    if s.len() > 0 && s[0] == 43u8 {
        parse_digits(s, 1)
    } else {
        proof {
            assert(s@.skip(0) =~= s@);
        }
        parse_digits(s, 0)
    }
}

/// What a signed decimal literal denotes: digits after an optional `+` or
/// `-`, whose value fits in 64 bits.
pub open spec fn signed_of(s: Seq<u8>) -> Option<i64> {
    let negative = s.len() > 0 && s[0] == 45u8;
    let digits = if s.len() > 0 && (s[0] == 43u8 || s[0] == 45u8) {
        s.skip(1)
    } else {
        s
    };
    if digits.len() > 0 && all_digits(digits) {
        if negative && decimal_value(digits) <= 0x8000_0000_0000_0000 {
            Some((-(decimal_value(digits) as int)) as i64)
        } else if !negative && decimal_value(digits) <= i64::MAX {
            Some(decimal_value(digits) as i64)
        } else {
            None
        }
    } else {
        None
    }
}

/// Reads a signed decimal number: digits after an optional `+` or `-`.
pub fn parse_signed(s: &[u8]) -> (r: Option<i64>)
    ensures
        r == signed_of(s@),
{
    let negative = s.len() > 0 && s[0] == 45u8;
    let magnitude = if s.len() > 0 && (s[0] == 43u8 || s[0] == 45u8) {
        parse_digits(s, 1)
    } else {
        proof {
            assert(s@.skip(0) =~= s@);
        }
        parse_digits(s, 0)
    };
    match magnitude {
        None => {
            proof {
                let digits = if s@.len() > 0 && (s@[0] == 43u8 || s@[0] == 45u8) {
                    s@.skip(1)
                } else {
                    s@
                };
                assert(!(digits.len() > 0 && all_digits(digits)) || decimal_value(digits)
                    > u64::MAX);
            }
            None
        },
        Some(m) => {
            if negative {
                if m <= 0x7fff_ffff_ffff_ffff {
                    Some(-(m as i64))
                } else if m == 0x8000_0000_0000_0000 {
                    Some(i64::MIN)
                } else {
                    None
                }
            } else if m <= 0x7fff_ffff_ffff_ffff {
                Some(m as i64)
            } else {
                None
            }
        },
    }
}

/// `std::str::from_utf8`, asked only whether it succeeds: it does exactly on
/// well-formed UTF-8.
#[verifier::external_body]
pub(crate) fn is_utf8(s: &[u8]) -> (b: bool)
    ensures
        b == vstd::utf8::valid_utf8(s@),
{
    std::str::from_utf8(s).is_ok()
}

/// What a decimal literal denotes as a 32-bit signed number.
pub open spec fn i32_of(s: Seq<u8>) -> Option<i32> {
    match signed_of(s) {
        Some(v) => if i32::MIN <= v <= i32::MAX {
            Some(v as i32)
        } else {
            None
        },
        None => None,
    }
}

/// Reads a 32-bit signed decimal number.
pub fn parse_i32(s: &[u8]) -> (r: Option<i32>)
    ensures
        r == i32_of(s@),
{
    let v = parse_signed(s)?;
    if -0x8000_0000 <= v && v <= 0x7fff_ffff {
        Some(v as i32)
    } else {
        None
    }
}

/// What a decimal literal denotes as a `usize`.
pub open spec fn usize_of(s: Seq<u8>) -> Option<usize> {
    match unsigned_of(s) {
        Some(v) => if v <= usize::MAX {
            Some(v as usize)
        } else {
            None
        },
        None => None,
    }
}

/// Reads a decimal number that fits in `usize`.
pub fn parse_usize(s: &[u8]) -> (r: Option<usize>)
    ensures
        r == usize_of(s@),
{
    let v = parse_unsigned(s)?;
    if v <= usize::MAX as u64 {
        Some(v as usize)
    } else {
        None
    }
}

/// Whether two byte strings are equal.
pub fn bytes_eq(a: &[u8], b: &[u8]) -> (r: bool)
    ensures
        r == (a@ == b@),
{
    if a.len() != b.len() {
        return false;
    }
    let mut i: usize = 0;
    while i < a.len()
        invariant
            i <= a.len(),
            a.len() == b.len(),
            a@.take(i as int) == b@.take(i as int),
        decreases a.len() - i,
    {
        if a[i] != b[i] {
            return false;
        }
        proof {
            assert(a@.take(i + 1) =~= a@.take(i as int).push(a@[i as int]));
            assert(b@.take(i + 1) =~= b@.take(i as int).push(b@[i as int]));
        }
        i = i + 1;
    }
    proof {
        assert(a@.take(i as int) =~= a@);
        assert(b@.take(i as int) =~= b@);
    }
    true
}

/// Copies a byte slice into a vector.
pub fn to_vec(s: &[u8]) -> (v: Vec<u8>)
    ensures
        v@ == s@,
{
    let mut v: Vec<u8> = Vec::with_capacity(s.len());
    let mut i: usize = 0;
    while i < s.len()
        invariant
            i <= s.len(),
            v@ == s@.take(i as int),
        decreases s.len() - i,
    {
        v.push(s[i]);
        proof {
            assert(s@.take(i + 1) =~= s@.take(i as int).push(s@[i as int]));
        }
        i = i + 1;
    }
    proof {
        assert(s@.take(i as int) =~= s@);
    }
    v
}

} // verus!
