//! The catalog of equipment names an editor offers: item file names with
//! their extension trimmed, sorted, and filtered into staves and weapons.
//! Listing the game's item directory is I/O and stays with the caller;
//! everything from the raw file names on is computed and verified here.

use vstd::prelude::*;
use vstd::seq_lib::{to_multiset_build, to_multiset_insert};
use vstd::string::{StringExecFns, StrSliceExecFns};
use vstd::utf8::encode_utf8;

verus! {

/// Lexicographic order on byte sequences: the order Rust's string
/// comparison uses, which for UTF-8 is also code-point order.
pub open spec fn bytes_le(a: Seq<u8>, b: Seq<u8>) -> bool
    decreases a.len(),
{
    if a.len() == 0 {
        true
    } else if b.len() == 0 {
        false
    } else if a[0] < b[0] {
        true
    } else if a[0] > b[0] {
        false
    } else {
        bytes_le(a.skip(1), b.skip(1))
    }
}

/// String order: lexicographic on the UTF-8 bytes.
pub open spec fn str_le(a: Seq<char>, b: Seq<char>) -> bool {
    bytes_le(encode_utf8(a), encode_utf8(b))
}

/// One of any two strings is in order before the other.
pub proof fn lemma_bytes_le_total(a: Seq<u8>, b: Seq<u8>)
    ensures
        bytes_le(a, b) || bytes_le(b, a),
    decreases a.len(),
{
    if a.len() > 0 && b.len() > 0 && a[0] == b[0] {
        lemma_bytes_le_total(a.skip(1), b.skip(1));
    }
}

/// A name with every trailing ".xnb" removed, as trimming a suffix
/// repeatedly leaves it.
pub open spec fn trim_xnb(s: Seq<char>) -> Seq<char>
    decreases s.len(),
{
    if s.len() >= 4 && s.subrange(s.len() - 4, s.len() as int) == ".xnb"@ {
        trim_xnb(s.take(s.len() - 4))
    } else {
        s
    }
}

pub open spec fn has_prefix(s: Seq<char>, prefix: Seq<char>) -> bool {
    s.len() >= prefix.len() && s.subrange(0, prefix.len() as int) == prefix
}

/// Each name is in order before its neighbour.
pub open spec fn sorted_names(names: Seq<Seq<char>>) -> bool {
    forall|i: int| 0 <= i < names.len() - 1 ==> str_le(#[trigger] names[i], names[i + 1])
}

/// Compare two strings in lexicographic byte order.
fn str_le_exec(a: &str, b: &str) -> (r: bool)
    ensures
        r == str_le(a@, b@),
{
    let av = a.as_bytes_vec();
    let bv = b.as_bytes_vec();
    proof {
        assert(av@.skip(0) =~= av@);
        assert(bv@.skip(0) =~= bv@);
    }
    let mut i: usize = 0;
    while i < av.len() && i < bv.len()
        invariant
            i <= av@.len(),
            i <= bv@.len(),
            str_le(a@, b@) == bytes_le(av@.skip(i as int), bv@.skip(i as int)),
        decreases av@.len() - i,
    {
        if av[i] < bv[i] {
            return true;
        }
        if av[i] > bv[i] {
            return false;
        }
        proof {
            assert(av@.skip(i as int).skip(1) =~= av@.skip(i + 1));
            assert(bv@.skip(i as int).skip(1) =~= bv@.skip(i + 1));
        }
        i = i + 1;
    }
    proof {
        if i == av@.len() {
            assert(av@.skip(i as int) =~= Seq::<u8>::empty());
        } else {
            assert(bv@.skip(i as int) =~= Seq::<u8>::empty());
            assert(av@.skip(i as int).len() > 0);
        }
    }
    av.len() <= bv.len()
}

/// Does the name end in ".xnb"?
fn ends_with_xnb(s: &str) -> (r: bool)
    ensures
        r == (s@.len() >= 4 && s@.subrange(s@.len() - 4, s@.len() as int) == ".xnb"@),
{
    proof {
        reveal_strlit(".xnb");
    }
    let n = s.unicode_len();
    if n < 4 {
        return false;
    }
    let r = s.get_char(n - 4) == '.' && s.get_char(n - 3) == 'x' && s.get_char(n - 2) == 'n'
        && s.get_char(n - 1) == 'b';
    proof {
        if r {
            assert(s@.subrange(s@.len() - 4, s@.len() as int) =~= ".xnb"@);
        } else {
            assert(s@.subrange(s@.len() - 4, s@.len() as int) != ".xnb"@) by {
                if s@.subrange(s@.len() - 4, s@.len() as int) == ".xnb"@ {
                    assert(s@.subrange(s@.len() - 4, s@.len() as int)[0] == '.');
                    assert(s@.subrange(s@.len() - 4, s@.len() as int)[1] == 'x');
                    assert(s@.subrange(s@.len() - 4, s@.len() as int)[2] == 'n');
                    assert(s@.subrange(s@.len() - 4, s@.len() as int)[3] == 'b');
                }
            };
        }
    }
    r
}

/// Trim every trailing ".xnb" from a file name.
fn trim_item_name(s: &str) -> (r: String)
    ensures
        r@ == trim_xnb(s@),
{
    let mut cur: &str = s;
    while ends_with_xnb(cur)
        invariant
            trim_xnb(s@) == trim_xnb(cur@),
        decreases cur@.len(),
    {
        let n = cur.unicode_len();
        let shorter = cur.substring_char(0, n - 4);
        proof {
            assert(cur@.take(cur@.len() - 4) =~= cur@.subrange(0, cur@.len() - 4));
        }
        cur = shorter;
    }
    cur.to_owned()
}

/// Does the name start with the given prefix?
fn has_prefix_exec(s: &str, prefix: &str) -> (r: bool)
    ensures
        r == has_prefix(s@, prefix@),
{
    let n = s.unicode_len();
    let k = prefix.unicode_len();
    if n < k {
        return false;
    }
    let mut i: usize = 0;
    while i < k
        invariant
            i <= k,
            k == prefix@.len(),
            k <= n == s@.len(),
            forall|j: int| 0 <= j < i ==> s@[j] == prefix@[j],
        decreases k - i,
    {
        if s.get_char(i) != prefix.get_char(i) {
            proof {
                assert(s@.subrange(0, prefix@.len() as int)[i as int] != prefix@[i as int]);
            }
            return false;
        }
        i = i + 1;
    }
    proof {
        assert(s@.subrange(0, prefix@.len() as int) =~= prefix@);
    }
    true
}

/// Insert a name into a sorted list, keeping it sorted: after every name
/// that does not come after it, in keeping with a stable sort.
fn insert_sorted(out: &mut Vec<String>, name: String)
    requires
        sorted_names(old(out)@.map_values(|s: String| s@)),
    ensures
        sorted_names(final(out)@.map_values(|s: String| s@)),
        final(out)@.map_values(|s: String| s@).to_multiset() == old(out)@.map_values(
            |s: String| s@,
        ).to_multiset().insert(name@),
{
    broadcast use to_multiset_insert;

    let ghost old_views = out@.map_values(|s: String| s@);
    let mut p: usize = 0;
    while p < out.len() && str_le_exec(out[p].as_str(), name.as_str())
        invariant
            p <= out@.len(),
            old_views == out@.map_values(|s: String| s@),
            forall|j: int| 0 <= j < p ==> str_le(#[trigger] old_views[j], name@),
        decreases out@.len() - p,
    {
        p = p + 1;
    }
    proof {
        if p < out@.len() {
            lemma_bytes_le_total(encode_utf8(old_views[p as int]), encode_utf8(name@));
        }
    }
    out.insert(p, name);
    proof {
        assert(out@.map_values(|s: String| s@) =~= old_views.insert(p as int, name@));
        assert(sorted_names(out@.map_values(|s: String| s@)));
    }
}

/// The item names a game directory offers: the file names with their
/// ".xnb" extension trimmed, in sorted order. The caller lists the
/// directory; this turns its file names into the catalog.
pub fn get_items(file_names: Vec<String>) -> (r: Vec<String>)
    ensures
        sorted_names(r@.map_values(|s: String| s@)),
        r@.map_values(|s: String| s@).to_multiset() == file_names@.map_values(
            |s: String| trim_xnb(s@),
        ).to_multiset(),
{
    let ghost trimmed_views = file_names@.map_values(|s: String| trim_xnb(s@));
    let mut r: Vec<String> = Vec::new();
    proof {
        assert(r@.map_values(|s: String| s@) =~= Seq::<Seq<char>>::empty());
        assert(trimmed_views.take(0) =~= Seq::<Seq<char>>::empty());
        assert(r@.map_values(|s: String| s@).to_multiset() =~= trimmed_views.take(0).to_multiset());
    }
    let mut i: usize = 0;
    while i < file_names.len()
        invariant
            i <= file_names@.len(),
            trimmed_views == file_names@.map_values(|s: String| trim_xnb(s@)),
            sorted_names(r@.map_values(|s: String| s@)),
            r@.map_values(|s: String| s@).to_multiset() == trimmed_views.take(
                i as int,
            ).to_multiset(),
        decreases file_names@.len() - i,
    {
        let trimmed = trim_item_name(file_names[i].as_str());
        proof {
            assert(trimmed@ == trimmed_views[i as int]);
        }
        insert_sorted(&mut r, trimmed);
        proof {
            assert(trimmed_views.take(i + 1) =~= trimmed_views.take(i as int).push(
                trimmed_views[i as int],
            ));
            to_multiset_build(trimmed_views.take(i as int), trimmed_views[i as int]);
        }
        i = i + 1;
    }
    proof {
        assert(trimmed_views.take(file_names@.len() as int) =~= trimmed_views);
    }
    r
}

/// The staves among the items: the names starting with "staff_", in the
/// order the catalog has them.
pub fn get_staves(items: Vec<String>) -> (r: Vec<String>)
    ensures
        r@.map_values(|s: String| s@) == items@.map_values(|s: String| s@).filter(
            |s: Seq<char>| has_prefix(s, "staff_"@),
        ),
{
    filter_prefix(items, "staff_")
}

/// The weapons among the items: the names starting with "weapon_", in the
/// order the catalog has them.
pub fn get_weapons(items: Vec<String>) -> (r: Vec<String>)
    ensures
        r@.map_values(|s: String| s@) == items@.map_values(|s: String| s@).filter(
            |s: Seq<char>| has_prefix(s, "weapon_"@),
        ),
{
    filter_prefix(items, "weapon_")
}

/// Keep the names with the given prefix, in order.
fn filter_prefix(items: Vec<String>, prefix: &str) -> (r: Vec<String>)
    ensures
        r@.map_values(|s: String| s@) == items@.map_values(|s: String| s@).filter(
            |s: Seq<char>| has_prefix(s, prefix@),
        ),
{
    let ghost views = items@.map_values(|s: String| s@);
    let mut r: Vec<String> = Vec::new();
    proof {
        reveal(Seq::filter);
        assert(views.take(0) =~= Seq::<Seq<char>>::empty());
        assert(r@.map_values(|s: String| s@) =~= views.take(0).filter(
            |s: Seq<char>| has_prefix(s, prefix@),
        ));
    }
    let mut i: usize = 0;
    while i < items.len()
        invariant
            i <= items@.len(),
            views == items@.map_values(|s: String| s@),
            r@.map_values(|s: String| s@) == views.take(i as int).filter(
                |s: Seq<char>| has_prefix(s, prefix@),
            ),
        decreases items@.len() - i,
    {
        let keep = has_prefix_exec(items[i].as_str(), prefix);
        proof {
            assert(views[i as int] == items@[i as int]@);
        }
        let ghost before = r@.map_values(|s: String| s@);
        if keep {
            let item = items[i].clone();
            proof {
                assert(item@ == views[i as int]);
            }
            r.push(item);
        }
        proof {
            reveal(Seq::filter);
            assert(views.take(i + 1).drop_last() =~= views.take(i as int));
            assert(views.take(i + 1).last() == views[i as int]);
            if keep {
                assert(r@.map_values(|s: String| s@) =~= before.push(views[i as int]));
                assert(r@.map_values(|s: String| s@) =~= views.take(i + 1).filter(
                    |s: Seq<char>| has_prefix(s, prefix@),
                ));
            } else {
                assert(r@.map_values(|s: String| s@) =~= views.take(i + 1).filter(
                    |s: Seq<char>| has_prefix(s, prefix@),
                ));
            }
        }
        i = i + 1;
    }
    proof {
        assert(views.take(items@.len() as int) =~= views);
    }
    r
}

} // verus!
