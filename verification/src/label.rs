//! The label model: a label is a byte string made of one prefix character
//! followed by decimal digits, and its numeric representation is the value
//! of the digits alone.

use vstd::prelude::*;

verus! {

/// A byte is an ASCII decimal digit.
pub open spec fn is_digit_byte(b: u8) -> bool {
    0x30 <= b <= 0x39
}

/// A byte is an ASCII uppercase letter.
pub open spec fn is_upper_byte(b: u8) -> bool {
    0x41 <= b <= 0x5A
}

/// The numeric value of one digit byte.
pub open spec fn digit_val(b: u8) -> int {
    b - 0x30
}

/// Every byte of the sequence is a decimal digit.
pub open spec fn all_digits(s: Seq<u8>) -> bool {
    forall|i: int| 0 <= i < s.len() ==> is_digit_byte(s[i])
}

/// The base-10 value of a digit sequence, most significant digit first.
pub open spec fn digits_val(s: Seq<u8>) -> int
    decreases s.len(),
{
    if s.len() == 0 {
        0
    } else {
        digits_val(s.drop_last()) * 10 + digit_val(s.last())
    }
}

/// The byte length of a label's first character under UTF-8, derived from
/// its leading byte. A byte that cannot lead a character counts as one.
pub open spec fn prefix_len(b: u8) -> int {
    if b < 0xC0 {
        1
    } else if b < 0xE0 {
        2
    } else if b < 0xF0 {
        3
    } else {
        4
    }
}

/// The numeric representation of a label: drop the prefix character (all
/// of its UTF-8 bytes) and parse the remaining digits as an unsigned
/// 32-bit integer. `None` when the remainder is empty, contains a
/// non-digit byte, or exceeds the 32-bit range.
pub open spec fn represent_spec(l: Seq<u8>) -> Option<u32> {
    if l.len() >= 1 && l.len() > prefix_len(l[0]) && all_digits(l.skip(prefix_len(l[0])))
        && digits_val(l.skip(prefix_len(l[0]))) <= u32::MAX {
        Some(digits_val(l.skip(prefix_len(l[0]))) as u32)
    } else {
        None
    }
}

/// The value of a digit sequence is nonnegative and no smaller than the
/// value of any of its prefixes.
pub proof fn lemma_digits_val_prefix(s: Seq<u8>, k: int)
    requires
        0 <= k <= s.len(),
        all_digits(s),
    ensures
        digits_val(s) >= digits_val(s.take(k)),
        digits_val(s) >= 0,
    decreases s.len(),
{
    if s.len() == 0 {
        assert(s.take(k) =~= s);
    } else if k == s.len() {
        assert(s.take(k) =~= s);
        lemma_digits_val_prefix(s.drop_last(), s.len() - 1);
    } else {
        let t = s.drop_last();
        assert(all_digits(t)) by {
            assert(forall|i: int| 0 <= i < t.len() ==> t[i] == s[i]);
        }
        lemma_digits_val_prefix(t, k);
        assert(t.take(k) =~= s.take(k));
        assert(digits_val(s) == digits_val(t) * 10 + digit_val(s.last()));
        assert(digits_val(t) * 10 >= digits_val(t));
    }
}

/// Computes the numeric representation of a label, exactly as
/// [`represent_spec`] describes it.
pub fn represent(label: &Vec<u8>) -> (r: Option<u32>)
    ensures
        r == represent_spec(label@),
{
    if label.len() == 0 {
        return None;
    }
    let lead = label[0];
    let k: usize = if lead < 0xC0 {
        1
    } else if lead < 0xE0 {
        2
    } else if lead < 0xF0 {
        3
    } else {
        4
    };
    assert(k as int == prefix_len(label@[0]));
    if label.len() <= k {
        return None;
    }
    let ghost digits = label@.skip(k as int);
    let mut acc: u32 = 0;
    let mut i: usize = k;
    while i < label.len()
        invariant
            k <= i <= label@.len(),
            1 <= k < label@.len(),
            k as int == prefix_len(label@[0]),
            digits == label@.skip(k as int),
            all_digits(label@.subrange(k as int, i as int)),
            acc == digits_val(label@.subrange(k as int, i as int)),
        decreases label@.len() - i,
    {
        let b = label[i];
        let ghost prefix = label@.subrange(k as int, i as int);
        let ghost extended = label@.subrange(k as int, i as int + 1);
        assert(extended =~= prefix.push(b));
        assert(extended.drop_last() =~= prefix);
        if b < 0x30 || b > 0x39 {
            assert(digits[i - k] == b);
            assert(!all_digits(digits));
            return None;
        }
        let d = (b - 0x30) as u32;
        if acc > (u32::MAX - d) / 10 {
            assert(acc * 10 + d > u32::MAX) by (nonlinear_arith)
                requires
                    acc > (u32::MAX - d) / 10,
                    d <= 9,
            ;
            assert(digits_val(extended) > u32::MAX);
            proof {
                if all_digits(digits) {
                    lemma_digits_val_prefix(digits, i as int + 1 - k as int);
                    assert(digits.take(i as int + 1 - k as int) =~= extended);
                }
            }
            return None;
        }
        assert(acc * 10 + d <= u32::MAX);
        acc = acc * 10 + d;
        i += 1;
        assert(acc == digits_val(label@.subrange(k as int, i as int)));
    }
    assert(label@.subrange(k as int, i as int) =~= digits);
    Some(acc)
}

/// Copies a byte string.
pub fn copy_bytes(v: &Vec<u8>) -> (r: Vec<u8>)
    ensures
        r@ == v@,
{
    let mut r: Vec<u8> = Vec::new();
    let mut i: usize = 0;
    while i < v.len()
        invariant
            i <= v@.len(),
            r@ == v@.take(i as int),
        decreases v@.len() - i,
    {
        r.push(v[i]);
        assert(r@ =~= v@.take(i as int + 1));
        i += 1;
    }
    assert(r@ =~= v@);
    r
}

} // verus!
