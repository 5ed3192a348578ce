//! The textual input format: a semicolon-separated list of `x,y` pairs,
//! each coordinate a run of decimal digits, as in `1,2;3,4`.
//!
//! The grammar is specified over the input's characters: the parser accepts
//! exactly the well-formed inputs and returns the denoted cells in input
//! order; on any malformed segment it returns nothing.

use vstd::prelude::*;

use crate::grid::Vector;
use crate::grid::coords_seq;
use vstd::string::StrSliceExecFns;

verus! {

broadcast use vstd::seq_lib::group_seq_properties;

/// The character is a decimal digit.
pub open spec fn is_digit(c: char) -> bool {
    '0' as int <= c as int <= '9' as int
}

/// The numeric value of a decimal digit.
pub open spec fn digit_value(c: char) -> int {
    c as int - '0' as int
}

/// Every character of the sequence is a decimal digit.
pub open spec fn all_digits(s: Seq<char>) -> bool {
    forall|k: int| 0 <= k < s.len() ==> is_digit(#[trigger] s[k])
}

/// The number a digit run denotes, read in base ten.
pub open spec fn number_value(s: Seq<char>) -> int
    decreases s.len(),
{
    if s.len() == 0 {
        0
    } else {
        number_value(s.drop_last()) * 10 + digit_value(s.last())
    }
}

/// The segment reads as `x,y` with its comma at `i`: at least one digit on
/// each side, and both numbers small enough for 32-bit coordinates.
pub open spec fn splits_as_pair(seg: Seq<char>, i: int) -> bool {
    &&& 1 <= i < seg.len() - 1
    &&& seg[i] == ','
    &&& all_digits(seg.take(i))
    &&& all_digits(seg.skip(i + 1))
    &&& number_value(seg.take(i)) <= i32::MAX
    &&& number_value(seg.skip(i + 1)) <= i32::MAX
}

/// The segment is a well-formed `x,y` pair.
pub open spec fn valid_pair(seg: Seq<char>) -> bool {
    exists|i: int| splits_as_pair(seg, i)
}

/// The cell a well-formed segment denotes.
pub open spec fn pair_value(seg: Seq<char>) -> (int, int) {
    let i = choose|i: int| splits_as_pair(seg, i);
    (number_value(seg.take(i)), number_value(seg.skip(i + 1)))
}

/// The input split at its semicolons; an input without any is a single
/// segment, and an empty input is a single empty segment.
pub open spec fn split_segments(s: Seq<char>) -> Seq<Seq<char>>
    decreases s.len(),
{
    if s.len() == 0 {
        seq![Seq::<char>::empty()]
    } else if s[0] == ';' {
        seq![Seq::<char>::empty()] + split_segments(s.skip(1))
    } else {
        let rest = split_segments(s.skip(1));
        seq![seq![s[0]] + rest[0]] + rest.skip(1)
    }
}

/// What an input denotes: one alive cell per segment, in input order, or
/// nothing as soon as any segment is malformed.
pub open spec fn parse_spec(s: Seq<char>) -> Option<Seq<(int, int)>> {
    let segs = split_segments(s);
    if forall|k: int| 0 <= k < segs.len() ==> valid_pair(#[trigger] segs[k]) {
        Some(Seq::new(segs.len(), |k: int| pair_value(segs[k])))
    } else {
        None
    }
}

/// A split always yields at least one segment.
proof fn lemma_split_segments_nonempty(s: Seq<char>)
    ensures
        split_segments(s).len() >= 1,
    decreases s.len(),
{
    if s.len() > 0 && s[0] != ';' {
        lemma_split_segments_nonempty(s.skip(1));
    }
}

/// An input without semicolons is a single segment: itself.
proof fn lemma_split_no_semicolon(s: Seq<char>)
    requires
        forall|k: int| 0 <= k < s.len() ==> s[k] != ';',
    ensures
        split_segments(s) == seq![s],
    decreases s.len(),
{
    if s.len() == 0 {
        assert(s =~= Seq::<char>::empty());
        assert(split_segments(s) =~= seq![s]);
    } else {
        lemma_split_no_semicolon(s.skip(1));
        let rest = split_segments(s.skip(1));
        assert(seq![s[0]] + rest[0] =~= s);
        assert(rest.skip(1) =~= Seq::<Seq<char>>::empty());
        assert(split_segments(s) =~= seq![s]);
    }
}

/// Splitting at the first semicolon: the head segment is what precedes it,
/// and the remaining segments are the split of what follows it.
proof fn lemma_split_at_first_semicolon(s: Seq<char>, m: int)
    requires
        0 <= m < s.len(),
        s[m] == ';',
        forall|k: int| 0 <= k < m ==> s[k] != ';',
    ensures
        split_segments(s) == seq![s.take(m)] + split_segments(s.skip(m + 1)),
    decreases m,
{
    if m == 0 {
        assert(s.take(0) =~= Seq::<char>::empty());
        assert(split_segments(s) =~= seq![s.take(0)] + split_segments(s.skip(1)));
    } else {
        let t = s.skip(1);
        assert(t[m - 1] == s[m]);
        lemma_split_at_first_semicolon(t, m - 1);
        let rest = split_segments(t);
        assert(rest == seq![t.take(m - 1)] + split_segments(t.skip(m)));
        assert(seq![s[0]] + rest[0] =~= s.take(m));
        assert(rest.skip(1) =~= split_segments(t.skip(m)));
        assert(t.skip(m) =~= s.skip(m + 1));
        assert(split_segments(s) =~= seq![s.take(m)] + split_segments(s.skip(m + 1)));
    }
}

/// A digit run denotes a number that is not negative.
proof fn lemma_number_value_nonneg(s: Seq<char>)
    requires
        all_digits(s),
    ensures
        number_value(s) >= 0,
    decreases s.len(),
{
    if s.len() > 0 {
        assert(all_digits(s.drop_last()));
        lemma_number_value_nonneg(s.drop_last());
    }
}

/// Extending a digit run never shrinks its value.
proof fn lemma_number_value_take_le(s: Seq<char>, i: int)
    requires
        all_digits(s),
        0 <= i <= s.len(),
    ensures
        number_value(s.take(i)) <= number_value(s),
    decreases s.len(),
{
    if i == s.len() {
        assert(s.take(i) =~= s);
    } else {
        assert(all_digits(s.drop_last()));
        lemma_number_value_take_le(s.drop_last(), i);
        assert(s.drop_last().take(i) =~= s.take(i));
        lemma_number_value_nonneg(s.drop_last());
    }
}

/// A well-formed segment has exactly one admissible comma position.
proof fn lemma_pair_split_unique(seg: Seq<char>, i1: int, i2: int)
    requires
        splits_as_pair(seg, i1),
        splits_as_pair(seg, i2),
    ensures
        i1 == i2,
{
    if i1 < i2 {
        assert(seg.take(i2)[i1] == seg[i1]);
        assert(is_digit(seg[i1]));
        assert(false);
    }
    if i2 < i1 {
        assert(seg.take(i1)[i2] == seg[i2]);
        assert(is_digit(seg[i2]));
        assert(false);
    }
}

/// The first occurrence of `target` among the first `end` characters.
fn find_first(s: &str, end: usize, target: char) -> (r: Option<usize>)
    requires
        end <= s@.len(),
    ensures
        match r {
            Some(i) => i < end && s@[i as int] == target && (forall|k: int|
                0 <= k < i ==> s@[k] != target),
            None => forall|k: int| 0 <= k < end ==> s@[k] != target,
        },
{
    let mut i: usize = 0;
    while i < end
        invariant
            i <= end <= s@.len(),
            forall|k: int| 0 <= k < i ==> s@[k] != target,
        decreases end - i,
    {
        if s.get_char(i) == target {
            return Some(i);
        }
        i = i + 1;
    }
    None
}

/// Read the digit run at `from..to` as a coordinate. Nothing comes back
/// exactly when the run is empty, holds a non-digit, or denotes a number
/// too large for a coordinate.
fn parse_number_range(s: &str, from: usize, to: usize) -> (r: Option<i32>)
    requires
        from <= to <= s@.len(),
    ensures
        match r {
            Some(v) => {
                &&& s@.subrange(from as int, to as int).len() > 0
                &&& all_digits(s@.subrange(from as int, to as int))
                &&& v as int == number_value(s@.subrange(from as int, to as int))
            },
            None => !{
                &&& s@.subrange(from as int, to as int).len() > 0
                &&& all_digits(s@.subrange(from as int, to as int))
                &&& number_value(s@.subrange(from as int, to as int)) <= i32::MAX
            },
        },
{
    if from == to {
        return None;
    }
    let mut acc: i64 = 0;
    let mut i: usize = from;
    while i < to
        invariant
            from <= i <= to <= s@.len(),
            all_digits(s@.subrange(from as int, i as int)),
            0 <= acc <= i32::MAX,
            acc as int == number_value(s@.subrange(from as int, i as int)),
        decreases to - i,
    {
        let c = s.get_char(i);
        let cv = c as u32;
        if cv < 48 || cv > 57 {
            proof {
                assert(s@.subrange(from as int, to as int)[i - from] == s@[i as int]);
                assert(!is_digit(s@[i as int]));
            }
            return None;
        }
        let d = (cv - 48) as i64;
        let ghost prev = s@.subrange(from as int, i as int);
        let ghost cur = s@.subrange(from as int, i + 1);
        proof {
            assert(cur.drop_last() =~= prev);
            assert(cur.last() == s@[i as int]);
            assert(is_digit(s@[i as int]));
            assert(all_digits(cur));
            assert(number_value(cur) == acc * 10 + d);
        }
        let next = acc * 10 + d;
        if next > 2147483647i64 {
            proof {
                let sub = s@.subrange(from as int, to as int);
                if all_digits(sub) {
                    lemma_number_value_take_le(sub, i + 1 - from);
                    assert(sub.take(i + 1 - from) =~= cur);
                }
            }
            return None;
        }
        acc = next;
        i = i + 1;
    }
    proof {
        assert(s@.subrange(from as int, i as int) =~= s@.subrange(from as int, to as int));
    }
    Some(acc as i32)
}

/// Read the first `end` characters as one `x,y` segment.
fn parse_pair_range(s: &str, end: usize) -> (r: Option<Vector>)
    requires
        end <= s@.len(),
    ensures
        match r {
            Some(v) => valid_pair(s@.take(end as int)) && pair_value(s@.take(end as int)) == v@,
            None => !valid_pair(s@.take(end as int)),
        },
{
    let ghost seg = s@.take(end as int);
    match find_first(s, end, ',') {
        None => {
            proof {
                assert forall|i: int| !splits_as_pair(seg, i) by {
                    if 0 <= i < end {
                        assert(seg[i] == s@[i]);
                    }
                }
            }
            None
        },
        Some(comma) => {
            proof {
                assert(s@.subrange(0, comma as int) =~= seg.take(comma as int));
                assert(s@.subrange(comma + 1, end as int) =~= seg.skip(comma + 1));
            }
            let x = parse_number_range(s, 0, comma);
            let y = parse_number_range(s, comma + 1, end);
            match (x, y) {
                (Some(xv), Some(yv)) => {
                    proof {
                        lemma_number_value_nonneg(seg.take(comma as int));
                        lemma_number_value_nonneg(seg.skip(comma + 1));
                        assert(seg[comma as int] == s@[comma as int]);
                        assert(splits_as_pair(seg, comma as int));
                        let i0 = choose|i: int| splits_as_pair(seg, i);
                        lemma_pair_split_unique(seg, i0, comma as int);
                        assert(pair_value(seg) == (xv as int, yv as int));
                    }
                    Some(Vector::new(xv, yv))
                },
                _ => {
                    proof {
                        assert forall|i: int| !splits_as_pair(seg, i) by {
                            if splits_as_pair(seg, i) {
                                if i < comma {
                                    assert(seg[i] == s@[i]);
                                    assert(s@[i] != ',');
                                } else if i > comma {
                                    assert(seg.take(i)[comma as int] == seg[comma as int]);
                                    assert(is_digit(seg[comma as int]));
                                    assert(seg[comma as int] == s@[comma as int]);
                                } else {
                                    assert(false);
                                }
                            }
                        }
                    }
                    None
                },
            }
        },
    }
}

/// Parse a semicolon-separated list of `x,y` cells, as in `1,2;3,4`.
/// The cells come back in input order exactly when the whole input is
/// well-formed; a malformed input yields nothing.
#[verifier::rlimit(100)]
#[verifier::spinoff_prover]
pub fn parse_input(input: &str) -> (cells: Option<Vec<Vector>>)
    ensures
        match cells {
            Some(v) => parse_spec(input@) == Some(coords_seq(v@)),
            None => parse_spec(input@) is None,
        },
    decreases input@.len(),
{
    let len = input.unicode_len();
    match find_first(input, len, ';') {
        None => {
            proof {
                lemma_split_no_semicolon(input@);
                assert(input@.take(len as int) =~= input@);
            }
            match parse_pair_range(input, len) {
                Some(v) => {
                    let mut cells: Vec<Vector> = Vec::new();
                    cells.push(v);
                    proof {
                        let segs = split_segments(input@);
                        assert(segs =~= seq![input@]);
                        assert(forall|k: int|
                            0 <= k < segs.len() ==> valid_pair(#[trigger] segs[k]));
                        assert(coords_seq(cells@) =~= seq![v@]);
                        assert(Seq::new(segs.len(), |k: int| pair_value(segs[k])) =~= seq![v@]);
                    }
                    Some(cells)
                },
                None => {
                    proof {
                        let segs = split_segments(input@);
                        assert(!valid_pair(segs[0]));
                    }
                    None
                },
            }
        },
        Some(semi) => {
            proof {
                lemma_split_at_first_semicolon(input@, semi as int);
            }
            let ghost head = input@.take(semi as int);
            match parse_pair_range(input, semi) {
                None => {
                    proof {
                        let segs = split_segments(input@);
                        assert(segs[0] == head);
                        assert(!valid_pair(segs[0]));
                    }
                    None
                },
                Some(v) => {
                    let rest = input.substring_char(semi + 1, len);
                    proof {
                        assert(rest@ =~= input@.skip(semi + 1));
                    }
                    match parse_input(rest) {
                        None => {
                            proof {
                                let segs = split_segments(input@);
                                let rsegs = split_segments(rest@);
                                assert(segs =~= seq![head] + rsegs);
                                let k = choose|k: int|
                                    0 <= k < rsegs.len() && !valid_pair(rsegs[k]);
                                assert(segs[k + 1] == rsegs[k]);
                                assert(!valid_pair(segs[k + 1]));
                            }
                            None
                        },
                        Some(tail) => {
                            let mut cells: Vec<Vector> = Vec::new();
                            cells.push(v);
                            let mut tail_cells = tail;
                            cells.append(&mut tail_cells);
                            proof {
                                let segs = split_segments(input@);
                                let rsegs = split_segments(rest@);
                                assert(segs =~= seq![head] + rsegs);
                                lemma_split_segments_nonempty(rest@);
                                assert(forall|k: int|
                                    0 <= k < rsegs.len() ==> valid_pair(#[trigger] rsegs[k]));
                                assert forall|k: int|
                                    0 <= k < segs.len() implies valid_pair(#[trigger] segs[k]) by {
                                    if k == 0 {
                                        assert(segs[0] == head);
                                    } else {
                                        assert(segs[k] == rsegs[k - 1]);
                                    }
                                }
                                let rvals = Seq::new(
                                    rsegs.len(),
                                    |k: int| pair_value(rsegs[k]),
                                );
                                assert(parse_spec(rest@) == Some(rvals));
                                assert(rvals == coords_seq(tail@));
                                assert(coords_seq(cells@) =~= seq![v@] + coords_seq(tail@));
                                assert(Seq::new(segs.len(), |k: int| pair_value(segs[k])) =~= seq![
                                    v@,
                                ] + coords_seq(tail@));
                            }
                            Some(cells)
                        },
                    }
                },
            }
        },
    }
}

} // verus!
