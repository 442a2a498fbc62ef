//! The product-version header: a string of four dot-separated unsigned
//! decimal numbers, "major.minor.patch.build", packed into one `u64` with
//! the components 16 bits apart. The packed number decides which slot
//! layout a file uses.

use vstd::prelude::*;
use vstd::string::StrSliceExecFns;

use crate::save::Error;

verus! {

/// The packed version at which the current slot layout begins:
/// major 1, minor 4, patch 1, build 0.
pub const CURRENT_LAYOUT_VERSION: u64 = 0x1000400010000;

pub open spec fn is_digit_char(c: char) -> bool {
    '0' <= c && c <= '9'
}

pub open spec fn digit_val(c: char) -> int {
    c as int - '0' as int
}

pub open spec fn all_digits(d: Seq<char>) -> bool {
    forall|i: int| 0 <= i < d.len() ==> is_digit_char(#[trigger] d[i])
}

/// The value of a string of decimal digits, most significant first.
pub open spec fn dec_val(d: Seq<char>) -> int
    decreases d.len(),
{
    if d.len() == 0 {
        0
    } else {
        10 * dec_val(d.drop_last()) + digit_val(d.last())
    }
}

/// The digits of one version component. A component parses the way Rust
/// parses unsigned integers: one optional leading plus sign, then digits.
pub open spec fn component_digits(c: Seq<char>) -> Seq<char> {
    if c.len() > 0 && c[0] == '+' {
        c.skip(1)
    } else {
        c
    }
}

pub open spec fn component_ok(c: Seq<char>) -> bool {
    let d = component_digits(c);
    d.len() > 0 && all_digits(d) && dec_val(d) <= u64::MAX
}

pub open spec fn component_val(c: Seq<char>) -> u64 {
    dec_val(component_digits(c)) as u64
}

/// The dot-separated pieces of a string, as splitting on '.' yields them:
/// the empty string gives one empty piece, and every dot starts a new piece.
pub open spec fn components(s: Seq<char>) -> Seq<Seq<char>>
    decreases s.len(),
{
    if s.len() == 0 {
        seq![Seq::<char>::empty()]
    } else if s[0] == '.' {
        seq![Seq::<char>::empty()] + components(s.skip(1))
    } else {
        let rest = components(s.skip(1));
        seq![seq![s[0]] + rest[0]] + rest.skip(1)
    }
}

/// A version string is well-formed when it has exactly four components and
/// each parses as a `u64`.
pub open spec fn version_ok(s: Seq<char>) -> bool {
    components(s).len() == 4 && forall|i: int|
        0 <= i < 4 ==> component_ok(#[trigger] components(s)[i])
}

/// The packed version number: major<<48 | minor<<32 | patch<<16 | build.
pub open spec fn version_num_of(s: Seq<char>) -> u64 {
    let cs = components(s);
    (component_val(cs[0]) << 48) | (component_val(cs[1]) << 32) | (component_val(cs[2]) << 16)
        | component_val(cs[3])
}

// ---------------------------------------------------------------------------
// How the split behaves: a string without dots is one component, and the
// first dot separates the first component from the split of the rest.
// ---------------------------------------------------------------------------

pub proof fn lemma_components_no_dot(s: Seq<char>)
    requires
        forall|i: int| 0 <= i < s.len() ==> s[i] != '.',
    ensures
        components(s) == seq![s],
    decreases s.len(),
{
    if s.len() == 0 {
        assert(components(s) =~~= seq![s]);
    } else {
        lemma_components_no_dot(s.skip(1));
        assert(seq![s[0]] + s.skip(1) =~= s);
        assert(components(s) =~~= seq![s]);
    }
}

pub proof fn lemma_components_split(s: Seq<char>, d: int)
    requires
        0 <= d < s.len(),
        s[d] == '.',
        forall|i: int| 0 <= i < d ==> s[i] != '.',
    ensures
        components(s) == seq![s.take(d)] + components(s.skip(d + 1)),
    decreases d,
{
    if d == 0 {
        assert(s.take(0) =~= Seq::<char>::empty());
        assert(components(s) =~~= seq![s.take(0)] + components(s.skip(1)));
    } else {
        lemma_components_split(s.skip(1), d - 1);
        assert(s.skip(1).skip(d) =~= s.skip(d + 1));
        assert(seq![s[0]] + s.skip(1).take(d - 1) =~= s.take(d));
        assert(components(s) =~~= seq![s.take(d)] + components(s.skip(d + 1)));
    }
}

pub proof fn lemma_dec_val_nonneg(d: Seq<char>)
    requires
        all_digits(d),
    ensures
        dec_val(d) >= 0,
    decreases d.len(),
{
    if d.len() > 0 {
        assert(all_digits(d.drop_last()));
        lemma_dec_val_nonneg(d.drop_last());
    }
}

/// The value of a digit string is at least the value of any of its
/// prefixes: once a prefix overflows, the whole string overflows.
pub proof fn lemma_dec_val_prefix(d: Seq<char>, m: int)
    requires
        all_digits(d),
        0 <= m <= d.len(),
    ensures
        dec_val(d) >= dec_val(d.take(m)),
    decreases d.len(),
{
    if m == d.len() {
        assert(d.take(m) =~= d);
    } else {
        assert(all_digits(d.drop_last()));
        lemma_dec_val_prefix(d.drop_last(), m);
        lemma_dec_val_nonneg(d.drop_last());
        assert(d.drop_last().take(m) =~= d.take(m));
    }
}

// ---------------------------------------------------------------------------
// The executable parser.
// ---------------------------------------------------------------------------

/// The next dot at or after `from`, or the end of the string.
fn scan_dot(s: &str, from: usize, n: usize) -> (d: usize)
    requires
        n == s@.len(),
        from <= n,
    ensures
        from <= d <= n,
        forall|i: int| from <= i < d ==> s@[i] != '.',
        d < n ==> s@[d as int] == '.',
{
    let mut j: usize = from;
    while j < n
        invariant
            from <= j <= n,
            n == s@.len(),
            forall|i: int| from <= i < j ==> s@[i] != '.',
        decreases n - j,
    {
        if s.get_char(j) == '.' {
            return j;
        }
        j = j + 1;
    }
    n
}

/// Parse the characters `from..to` of `s` as one unsigned decimal number:
/// an optional plus sign, then digits, with a value that fits a `u64`.
fn parse_component(s: &str, from: usize, to: usize, n: usize) -> (r: Result<u64, Error>)
    requires
        n == s@.len(),
        from <= to <= n,
    ensures
        component_ok(s@.subrange(from as int, to as int)) ==> r == Ok::<u64, Error>(
            component_val(s@.subrange(from as int, to as int)),
        ),
        !component_ok(s@.subrange(from as int, to as int)) ==> r == Err::<u64, Error>(
            Error::BadVersionString,
        ),
{
    let ghost comp = s@.subrange(from as int, to as int);
    let mut k: usize = from;
    if k < to && s.get_char(k) == '+' {
        k = k + 1;
    }
    proof {
        assert(component_digits(comp) =~= s@.subrange(k as int, to as int));
    }
    if k == to {
        return Err(Error::BadVersionString);
    }
    let mut acc: u64 = 0;
    let mut j: usize = k;
    while j < to
        invariant
            from <= k <= j <= to <= n,
            n == s@.len(),
            component_digits(s@.subrange(from as int, to as int)) == s@.subrange(
                k as int,
                to as int,
            ),
            all_digits(s@.subrange(k as int, j as int)),
            acc as int == dec_val(s@.subrange(k as int, j as int)),
        decreases to - j,
    {
        let c = s.get_char(j);
        let cu = c as u32;
        if cu < 0x30 || cu > 0x39 {
            proof {
                let digits = s@.subrange(k as int, to as int);
                assert(digits[j - k] == c);
                assert(!all_digits(digits));
                assert(!component_ok(s@.subrange(from as int, to as int)));
            }
            return Err(Error::BadVersionString);
        }
        let d: u32 = cu - 0x30;
        proof {
            assert(s@.subrange(k as int, j + 1).drop_last() =~= s@.subrange(k as int, j as int));
            assert(s@.subrange(k as int, j + 1).last() == c);
            assert(is_digit_char(c));
            assert(digit_val(c) == d as int);
        }
        let next_wide: u128 = (acc as u128) * 10 + (d as u128);
        if next_wide > (u64::MAX as u128) {
            proof {
                let digits = s@.subrange(k as int, to as int);
                assert(dec_val(s@.subrange(k as int, j + 1)) == 10 * (acc as int) + d as int);
                if all_digits(digits) {
                    lemma_dec_val_prefix(digits, j + 1 - k);
                    assert(digits.take(j + 1 - k) =~= s@.subrange(k as int, j + 1));
                    assert(dec_val(digits) > u64::MAX);
                }
                assert(!component_ok(s@.subrange(from as int, to as int)));
            }
            return Err(Error::BadVersionString);
        }
        acc = next_wide as u64;
        proof {
            assert(all_digits(s@.subrange(k as int, j + 1)));
        }
        j = j + 1;
    }
    proof {
        assert(s@.subrange(k as int, to as int).len() > 0);
        assert(component_ok(comp));
        assert(component_val(comp) == acc);
    }
    Ok(acc)
}

/// Parse a product-version string, "major.minor.patch.build", into the
/// packed version number, or report a bad version string: anything other
/// than exactly four dot-separated unsigned integers is rejected.
#[verifier::rlimit(100)]
pub fn parse_version_num(s: &str) -> (r: Result<u64, Error>)
    ensures
        version_ok(s@) ==> r == Ok::<u64, Error>(version_num_of(s@)),
        !version_ok(s@) ==> r == Err::<u64, Error>(Error::BadVersionString),
{
    let n = s.unicode_len();
    let d0 = scan_dot(s, 0, n);
    if d0 == n {
        proof {
            lemma_components_no_dot(s@);
        }
        return Err(Error::BadVersionString);
    }
    proof {
        lemma_components_split(s@, d0 as int);
    }
    let d1 = scan_dot(s, d0 + 1, n);
    if d1 == n {
        proof {
            assert forall|i: int| 0 <= i < s@.skip(d0 + 1).len() implies #[trigger] s@.skip(d0 + 1)[i] != '.' by {
                assert(s@.skip(d0 + 1)[i] == s@[d0 + 1 + i]);
            }
            lemma_components_no_dot(s@.skip(d0 + 1));
        }
        return Err(Error::BadVersionString);
    }
    proof {
        assert(s@.skip(d0 + 1)[d1 - d0 - 1] == s@[d1 as int]);
        assert forall|i: int| 0 <= i < d1 - d0 - 1 implies #[trigger] s@.skip(d0 + 1)[i] != '.' by {
            assert(s@.skip(d0 + 1)[i] == s@[d0 + 1 + i]);
        }
        lemma_components_split(s@.skip(d0 + 1), d1 - d0 - 1);
        assert(s@.skip(d0 + 1).skip(d1 - d0) =~= s@.skip(d1 + 1));
        assert(s@.skip(d0 + 1).take(d1 - d0 - 1) =~= s@.subrange(d0 + 1, d1 as int));
    }
    let d2 = scan_dot(s, d1 + 1, n);
    if d2 == n {
        proof {
            assert forall|i: int| 0 <= i < s@.skip(d1 + 1).len() implies #[trigger] s@.skip(d1 + 1)[i] != '.' by {
                assert(s@.skip(d1 + 1)[i] == s@[d1 + 1 + i]);
            }
            lemma_components_no_dot(s@.skip(d1 + 1));
        }
        return Err(Error::BadVersionString);
    }
    proof {
        assert(s@.skip(d1 + 1)[d2 - d1 - 1] == s@[d2 as int]);
        assert forall|i: int| 0 <= i < d2 - d1 - 1 implies #[trigger] s@.skip(d1 + 1)[i] != '.' by {
            assert(s@.skip(d1 + 1)[i] == s@[d1 + 1 + i]);
        }
        lemma_components_split(s@.skip(d1 + 1), d2 - d1 - 1);
        assert(s@.skip(d1 + 1).skip(d2 - d1) =~= s@.skip(d2 + 1));
        assert(s@.skip(d1 + 1).take(d2 - d1 - 1) =~= s@.subrange(d1 + 1, d2 as int));
    }
    let d3 = scan_dot(s, d2 + 1, n);
    if d3 < n {
        proof {
            assert(s@.skip(d2 + 1)[d3 - d2 - 1] == s@[d3 as int]);
            assert forall|i: int| 0 <= i < d3 - d2 - 1 implies #[trigger] s@.skip(d2 + 1)[i] != '.' by {
                assert(s@.skip(d2 + 1)[i] == s@[d2 + 1 + i]);
            }
            lemma_components_split(s@.skip(d2 + 1), d3 - d2 - 1);
        }
        return Err(Error::BadVersionString);
    }
    proof {
        assert forall|i: int| 0 <= i < s@.skip(d2 + 1).len() implies #[trigger] s@.skip(d2 + 1)[i] != '.' by {
            assert(s@.skip(d2 + 1)[i] == s@[d2 + 1 + i]);
        }
        lemma_components_no_dot(s@.skip(d2 + 1));
        assert(s@.skip(d2 + 1) =~= s@.subrange(d2 + 1, n as int));
        assert(s@.take(d0 as int) =~= s@.subrange(0, d0 as int));
        assert(components(s@) =~~= seq![
            s@.subrange(0, d0 as int),
            s@.subrange(d0 + 1, d1 as int),
            s@.subrange(d1 + 1, d2 as int),
            s@.subrange(d2 + 1, n as int),
        ]);
    }
    let v0 = match parse_component(s, 0, d0, n) {
        Ok(v) => v,
        Err(e) => {
            return Err(e);
        },
    };
    let v1 = match parse_component(s, d0 + 1, d1, n) {
        Ok(v) => v,
        Err(e) => {
            return Err(e);
        },
    };
    let v2 = match parse_component(s, d1 + 1, d2, n) {
        Ok(v) => v,
        Err(e) => {
            return Err(e);
        },
    };
    let v3 = match parse_component(s, d2 + 1, n, n) {
        Ok(v) => v,
        Err(e) => {
            return Err(e);
        },
    };
    Ok((v0 << 48u64) | (v1 << 32u64) | (v2 << 16u64) | v3)
}

} // verus!
