//! Finding the segments of a log among the names of the files in its
//! directory: a segment's files are named by its base offset, a dot, and an
//! extension.

use vstd::prelude::*;
use vstd::slice::slice_subrange;

verus! {

/// Where the part of `name` before its first dot ends, looking from `from`
/// on: at the first dot, or at the end of a name without one.
pub open spec fn stem_end(name: Seq<u8>, from: int) -> int
    decreases name.len() - from,
{
    if from >= name.len() || name[from] == 0x2e {
        from
    } else {
        stem_end(name, from + 1)
    }
}

/// The part of a file name before its first dot.
pub open spec fn name_stem(name: Seq<u8>) -> Seq<u8> {
    name.subrange(0, stem_end(name, 0))
}

/// Whether a byte is a decimal digit.
pub open spec fn is_digit(byte: u8) -> bool {
    0x30 <= byte <= 0x39
}

/// Whether every byte is a decimal digit.
pub open spec fn all_digits(text: Seq<u8>) -> bool {
    forall|i: int| 0 <= i < text.len() ==> is_digit(#[trigger] text[i])
}

/// The number that a byte stands for as a digit; 0 for any other byte.
pub open spec fn digit_value(byte: u8) -> nat {
    if is_digit(byte) {
        (byte - 0x30) as nat
    } else {
        0
    }
}

/// The number that decimal digits spell.
pub open spec fn decimal_value(digits: Seq<u8>) -> nat
    decreases digits.len(),
{
    if digits.len() == 0 {
        0
    } else {
        10 * decimal_value(digits.drop_last()) + digit_value(digits.last())
    }
}

/// The digits of a number as written: the text itself, or what follows a
/// leading plus sign.
pub open spec fn unsigned_part(text: Seq<u8>) -> Seq<u8> {
    if text.len() > 0 && text[0] == 0x2b {
        text.subrange(1, text.len() as int)
    } else {
        text
    }
}

/// The number that `text` spells, if it spells one that fits: at least one
/// decimal digit and nothing else, but for a plus sign that may stand in front.
pub open spec fn parse_decimal(text: Seq<u8>) -> Option<u64> {
    let digits = unsigned_part(text);
    if digits.len() > 0 && all_digits(digits) && decimal_value(digits) <= u64::MAX {
        Some(decimal_value(digits) as u64)
    } else {
        None
    }
}

/// The base offset that a file name names: the number before its first dot.
pub open spec fn base_offset_of(name: Seq<u8>) -> Option<u64> {
    parse_decimal(name_stem(name))
}

/// Whether each item is smaller than the next.
pub open spec fn strictly_increasing(s: Seq<u64>) -> bool {
    forall|i: int, j: int| 0 <= i < j < s.len() ==> s[i] < s[j]
}

/// Whether some name among the first `count` names the base offset `base`.
pub open spec fn named_among(names: Seq<Vec<u8>>, count: int, base: u64) -> bool {
    exists|i: int| 0 <= i < count && base_offset_of(#[trigger] names[i]@) == Some(base)
}

/// More digits never spell a smaller number.
pub proof fn lemma_decimal_prefix(digits: Seq<u8>, k: int)
    requires
        0 <= k <= digits.len(),
    ensures
        decimal_value(digits.take(k)) <= decimal_value(digits),
    decreases digits.len() - k,
{
    if k == digits.len() {
        assert(digits.take(k) =~= digits);
    } else {
        lemma_decimal_prefix(digits, k + 1);
        assert(digits.take(k + 1).drop_last() =~= digits.take(k));
    }
}

/// Reads the number that `text` spells. See [`parse_decimal`].
pub fn parse_number(text: &[u8]) -> (r: Option<u64>)
    ensures
        r == parse_decimal(text@),
{
    let n: usize = text.len();
    let start: usize = if n > 0 && text[0] == 0x2b {
        1
    } else {
        0
    };
    if start == n {
        return None;
    }
    let ghost digits = unsigned_part(text@);
    let mut value: u64 = 0;
    let mut i: usize = start;
    while i < n
        invariant
            start <= i <= n,
            n == text@.len(),
            digits == text@.subrange(start as int, n as int),
            digits == unsigned_part(text@),
            all_digits(digits.take(i - start)),
            value == decimal_value(digits.take(i - start)),
        decreases n - i,
    {
        let byte: u8 = text[i];
        if byte < 0x30 || byte > 0x39 {
            assert(!is_digit(digits[i - start]));
            return None;
        }
        let digit: u64 = (byte - 0x30) as u64;
        proof {
            assert(digits.take(i + 1 - start).drop_last() =~= digits.take(i - start));
            assert(digits.take(i + 1 - start).last() == byte);
        }
        if value > (u64::MAX - digit) / 10 {
            proof {
                lemma_decimal_prefix(digits, i + 1 - start);
            }
            return None;
        }
        value = value * 10 + digit;
        i = i + 1;
    }
    assert(digits.take(n - start) =~= digits);
    Some(value)
}

/// Reads the base offset that a file name names. Names that name none are
/// for the caller to skip.
pub fn parse_base_offset(name: &[u8]) -> (r: Option<u64>)
    ensures
        r == base_offset_of(name@),
{
    let n: usize = name.len();
    let mut end: usize = 0;
    while end < n && name[end] != 0x2e
        invariant
            end <= n,
            n == name@.len(),
            stem_end(name@, 0) == stem_end(name@, end as int),
        decreases n - end,
    {
        end = end + 1;
    }
    parse_number(slice_subrange(name, 0, end))
}

/// Puts `base` in its place among the ascending `bases`, unless it is there.
fn insert_base(bases: &mut Vec<u64>, base: u64)
    requires
        strictly_increasing(old(bases)@),
    ensures
        strictly_increasing(final(bases)@),
        forall|b: u64| final(bases)@.contains(b) <==> old(bases)@.contains(b) || b == base,
{
    let n: usize = bases.len();
    let mut at: usize = 0;
    while at < n && bases[at] < base
        invariant
            at <= n,
            n == bases@.len(),
            bases@ == old(bases)@,
            forall|k: int| 0 <= k < at ==> bases@[k] < base,
        decreases n - at,
    {
        at = at + 1;
    }
    if at < n && bases[at] == base {
        assert(bases@.contains(base));
        return ;
    }
    bases.insert(at, base);
    proof {
        let before = old(bases)@;
        let after = bases@;
        assert(after.len() == before.len() + 1);
        assert(after[at as int] == base);
        assert forall|k: int| 0 <= k < after.len() implies after[k] == (if k < at {
            before[k]
        } else if k == at {
            base
        } else {
            before[k - 1]
        }) by {}
        assert forall|b: u64| after.contains(b) <==> before.contains(b) || b == base by {
            if after.contains(b) {
                let k = choose|k: int| 0 <= k < after.len() && after[k] == b;
                if k < at {
                    assert(before[k] == b);
                } else if k > at {
                    assert(before[k - 1] == b);
                }
            }
            if before.contains(b) {
                let k = choose|k: int| 0 <= k < before.len() && before[k] == b;
                if k < at {
                    assert(after[k] == b);
                } else {
                    assert(after[k + 1] == b);
                }
            }
        }
    }
}

/// The base offsets that the file names of a directory name, each once, in
/// ascending order. Names that name no base offset are skipped.
pub fn base_offsets(names: &Vec<Vec<u8>>) -> (bases: Vec<u64>)
    ensures
        strictly_increasing(bases@),
        forall|b: u64| bases@.contains(b) <==> named_among(names@, names@.len() as int, b),
{
    let mut bases: Vec<u64> = Vec::new();
    let mut i: usize = 0;
    while i < names.len()
        invariant
            i <= names@.len(),
            strictly_increasing(bases@),
            forall|b: u64| bases@.contains(b) <==> named_among(names@, i as int, b),
        decreases names@.len() - i,
    {
        let ghost before = bases@;
        match parse_base_offset(names[i].as_slice()) {
            Some(base) => {
                insert_base(&mut bases, base);
            },
            None => {},
        }
        proof {
            assert forall|b: u64| bases@.contains(b) <==> named_among(names@, i + 1, b) by {
                if named_among(names@, i + 1, b) {
                    let k = choose|k: int|
                        0 <= k < i + 1 && base_offset_of(#[trigger] names@[k]@) == Some(b);
                    if k < i {
                        assert(named_among(names@, i as int, b));
                    }
                }
                if named_among(names@, i as int, b) {
                    let k = choose|k: int|
                        0 <= k < i && base_offset_of(#[trigger] names@[k]@) == Some(b);
                    assert(0 <= k < i + 1);
                }
                if base_offset_of(names@[i as int]@) == Some(b) {
                    assert(named_among(names@, i + 1, b));
                }
            }
        }
        i = i + 1;
    }
    bases
}

} // verus!
