//! Rendering numbers and flags as text, for the human-readable report of
//! a save and for backup file names.

use vstd::prelude::*;
use vstd::string::{StringExecFns, StrSliceExecFns};

verus! {

pub open spec fn digit_char(d: int) -> char {
    ((0x30 + d) as u8) as char
}

/// The decimal digits of a number, most significant first.
pub open spec fn dec_str(n: nat) -> Seq<char>
    decreases n,
{
    if n < 10 {
        seq![digit_char(n as int)]
    } else {
        dec_str(n / 10).push(digit_char((n % 10) as int))
    }
}

/// A signed number: a minus sign before the digits of its magnitude.
pub open spec fn dec_str_i32(v: i32) -> Seq<char> {
    if v >= 0 {
        dec_str(v as nat)
    } else {
        seq!['-'] + dec_str((0 - v as int) as nat)
    }
}

pub open spec fn spec_bool_str(b: bool) -> Seq<char> {
    if b {
        "true"@
    } else {
        "false"@
    }
}

/// The digits of `rev`, which holds them least significant first, read
/// back to front.
pub open spec fn rev_chars(rev: Seq<u8>) -> Seq<char> {
    Seq::new(rev.len(), |i: int| digit_char(rev[rev.len() - 1 - i] as int))
}

/// Append one decimal digit to a string.
fn push_digit(s: &mut String, d: u8)
    requires
        d < 10,
    ensures
        final(s)@ == old(s)@.push(digit_char(d as int)),
{
    proof {
        reveal_strlit("0");
        reveal_strlit("1");
        reveal_strlit("2");
        reveal_strlit("3");
        reveal_strlit("4");
        reveal_strlit("5");
        reveal_strlit("6");
        reveal_strlit("7");
        reveal_strlit("8");
        reveal_strlit("9");
    }
    match d {
        0 => s.append("0"),
        1 => s.append("1"),
        2 => s.append("2"),
        3 => s.append("3"),
        4 => s.append("4"),
        5 => s.append("5"),
        6 => s.append("6"),
        7 => s.append("7"),
        8 => s.append("8"),
        _ => s.append("9"),
    }
    proof {
        assert(s@ =~= old(s)@.push(digit_char(d as int)));
    }
}

/// Render a number in decimal.
pub fn u64_to_string(v: u64) -> (r: String)
    ensures
        r@ == dec_str(v as nat),
{
    let mut rev: Vec<u8> = Vec::new();
    let mut x: u64 = v;
    rev.push((x % 10) as u8);
    x = x / 10;
    proof {
        assert(rev_chars(rev@) =~= seq![digit_char((v as int) % 10)]);
        if v >= 10 {
            assert(dec_str(v as nat) == dec_str((v as nat) / 10).push(
                digit_char(((v as nat) % 10) as int),
            ));
            assert(dec_str((v as nat) / 10) + rev_chars(rev@) =~= dec_str((v as nat) / 10).push(
                digit_char(((v as nat) % 10) as int),
            ));
        }
    }
    while x > 0
        invariant
            forall|i: int| 0 <= i < rev@.len() ==> #[trigger] rev@[i] < 10,
            rev@.len() >= 1,
            x == 0 ==> dec_str(v as nat) == rev_chars(rev@),
            x > 0 ==> dec_str(v as nat) == dec_str(x as nat) + rev_chars(rev@),
        decreases x,
    {
        let d: u8 = (x % 10) as u8;
        let ghost old_rev = rev@;
        let ghost old_x = x as nat;
        rev.push(d);
        x = x / 10;
        proof {
            assert(rev_chars(old_rev.push(d)) =~= seq![digit_char(d as int)] + rev_chars(old_rev));
            if old_x >= 10 {
                assert(dec_str(old_x) == dec_str(old_x / 10).push(digit_char((old_x % 10) as int)));
                assert(dec_str(old_x / 10) + rev_chars(rev@) =~= dec_str(old_x / 10) + (seq![
                    digit_char(d as int),
                ] + rev_chars(old_rev)));
                assert(dec_str(old_x / 10) + (seq![digit_char(d as int)] + rev_chars(old_rev)) =~= (
                dec_str(old_x / 10).push(digit_char((old_x % 10) as int))) + rev_chars(old_rev));
            } else {
                assert(dec_str(old_x) =~= seq![digit_char(d as int)]);
                assert(rev_chars(rev@) =~= dec_str(old_x) + rev_chars(old_rev));
            }
        }
    }
    let mut r = String::new();
    let total: usize = rev.len();
    let mut i: usize = total;
    while i > 0
        invariant
            i <= total,
            total == rev@.len(),
            forall|j: int| 0 <= j < rev@.len() ==> #[trigger] rev@[j] < 10,
            r@ =~= rev_chars(rev@).take(total - i),
        decreases i,
    {
        i = i - 1;
        push_digit(&mut r, rev[i]);
        proof {
            assert(rev_chars(rev@)[total - i - 1] == digit_char(rev@[i as int] as int));
            assert(r@ =~= rev_chars(rev@).take(total - i));
        }
    }
    proof {
        assert(rev_chars(rev@).take(total as int) =~= rev_chars(rev@));
    }
    r
}

/// Render a signed number in decimal.
pub fn i32_to_string(v: i32) -> (r: String)
    ensures
        r@ == dec_str_i32(v),
{
    if v >= 0 {
        u64_to_string(v as u64)
    } else {
        let magnitude: u64 = (-(v as i64)) as u64;
        let mut r = String::from_str("-");
        let digits = u64_to_string(magnitude);
        r.append(digits.as_str());
        proof {
            reveal_strlit("-");
            assert(r@ =~= dec_str_i32(v));
        }
        r
    }
}

/// Render a flag the way the standard formatter does.
pub fn bool_to_string(b: bool) -> (r: String)
    ensures
        r@ == spec_bool_str(b),
{
    if b {
        String::from_str("true")
    } else {
        String::from_str("false")
    }
}

} // verus!
