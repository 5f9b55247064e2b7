//! Lexicographic ordering of path strings, and a verified sort.
//!
//! The scan's result is sorted ascending by path string, comparing by
//! codepoint, so the order is stated here over sequences of characters and
//! proved of the sort that [`sort_paths`] performs.

use vstd::prelude::*;
use vstd::seq_lib::to_multiset_build;
use vstd::seq_lib::to_multiset_insert;
use vstd::string::StrSliceExecFns;

verus! {

/// Lexicographic `<=` on character sequences, by codepoint.
pub open spec fn chars_le(a: Seq<char>, b: Seq<char>) -> bool
    decreases a.len(),
{
    if a.len() == 0 {
        true
    } else if b.len() == 0 {
        false
    } else if (a[0] as int) < (b[0] as int) {
        true
    } else if (b[0] as int) < (a[0] as int) {
        false
    } else {
        chars_le(a.skip(1), b.skip(1))
    }
}

/// `chars_le` is total: of any two sequences, one is `<=` the other.
pub proof fn lemma_chars_le_total(a: Seq<char>, b: Seq<char>)
    ensures
        chars_le(a, b) || chars_le(b, a),
    decreases a.len(),
{
    if a.len() > 0 && b.len() > 0 && a[0] == b[0] {
        lemma_chars_le_total(a.skip(1), b.skip(1));
    }
}

/// `chars_le` is transitive.
pub proof fn lemma_chars_le_trans(a: Seq<char>, b: Seq<char>, c: Seq<char>)
    requires
        chars_le(a, b),
        chars_le(b, c),
    ensures
        chars_le(a, c),
    decreases a.len(),
{
    if a.len() > 0 && b.len() > 0 && c.len() > 0 && a[0] == b[0] && b[0] == c[0] {
        lemma_chars_le_trans(a.skip(1), b.skip(1), c.skip(1));
    }
}

/// Decides `chars_le` on two strings.
pub fn str_le(a: &str, b: &str) -> (r: bool)
    ensures
        r == chars_le(a@, b@),
{
    let an = a.unicode_len();
    let bn = b.unicode_len();
    let mut i: usize = 0;
    proof {
        assert(a@.skip(0) =~= a@);
        assert(b@.skip(0) =~= b@);
    }
    while i < an && i < bn
        invariant
            i <= an,
            i <= bn,
            an == a@.len(),
            bn == b@.len(),
            chars_le(a@, b@) == chars_le(a@.skip(i as int), b@.skip(i as int)),
        decreases an - i,
    {
        let ca = a.get_char(i);
        let cb = b.get_char(i);
        if (ca as u32) < (cb as u32) {
            return true;
        }
        if (cb as u32) < (ca as u32) {
            return false;
        }
        proof {
            assert(a@.skip(i as int).skip(1) =~= a@.skip(i + 1));
            assert(b@.skip(i as int).skip(1) =~= b@.skip(i + 1));
        }
        i = i + 1;
    }
    proof {
        if i >= an {
            assert(a@.skip(i as int).len() == 0);
        } else {
            assert(b@.skip(i as int).len() == 0);
            assert(a@.skip(i as int).len() > 0);
        }
    }
    i >= an
}

/// The sequence of paths is sorted ascending by path string.
pub open spec fn sorted_paths(s: Seq<String>) -> bool {
    forall|i: int, j: int| 0 <= i < j < s.len() ==> chars_le(#[trigger] s[i]@, #[trigger] s[j]@)
}

/// The position at which `x` can be inserted into the sorted `out` so that it
/// stays sorted: everything before it is `<= x`, everything from it on is `>= x`.
fn insert_position(out: &Vec<String>, x: &String) -> (pos: usize)
    requires
        sorted_paths(out@),
    ensures
        pos <= out@.len(),
        forall|k: int| 0 <= k < pos ==> chars_le(#[trigger] out@[k]@, x@),
        forall|k: int| pos <= k < out@.len() ==> chars_le(x@, #[trigger] out@[k]@),
{
    let n = out.len();
    let mut j: usize = 0;
    while j < n
        invariant
            j <= n,
            n == out@.len(),
            sorted_paths(out@),
            forall|k: int| 0 <= k < j ==> chars_le(#[trigger] out@[k]@, x@),
        decreases n - j,
    {
        if !str_le(out[j].as_str(), x.as_str()) {
            proof {
                lemma_chars_le_total(out@[j as int]@, x@);
                assert forall|k: int| j <= k < out@.len() implies chars_le(
                    x@,
                    #[trigger] out@[k]@,
                ) by {
                    if k > j {
                        lemma_chars_le_trans(x@, out@[j as int]@, out@[k]@);
                    }
                }
            }
            return j;
        }
        j = j + 1;
    }
    j
}

/// Sorts the paths ascending by path string. The result holds exactly the
/// given paths, as a multiset, in sorted order.
pub fn sort_paths(v: Vec<String>) -> (r: Vec<String>)
    ensures
        sorted_paths(r@),
        r@.to_multiset() == v@.to_multiset(),
        r@.len() == v@.len(),
{
    let mut out: Vec<String> = Vec::new();
    let mut i: usize = 0;
    proof {
        assert(v@.take(0) =~= Seq::<String>::empty());
        Seq::<String>::empty().to_multiset_ensures();
        v@.take(0).to_multiset_ensures();
    }
    while i < v.len()
        invariant
            i <= v@.len(),
            sorted_paths(out@),
            out@.to_multiset() == v@.take(i as int).to_multiset(),
            out@.len() == i,
        decreases v@.len() - i,
    {
        let x = v[i].clone();
        let pos = insert_position(&out, &x);
        let ghost prev = out@;
        out.insert(pos, x);
        proof {
            to_multiset_insert(prev, pos as int, x);
            to_multiset_build(v@.take(i as int), v@[i as int]);
            assert(v@.take(i as int).push(v@[i as int]) =~= v@.take(i + 1));
            assert forall|p: int, q: int| 0 <= p < q < out@.len() implies chars_le(
                #[trigger] out@[p]@,
                #[trigger] out@[q]@,
            ) by {
                if q < pos {
                } else if p < pos && q == pos {
                    assert(chars_le(prev[p]@, x@));
                } else if p < pos && q > pos {
                    assert(chars_le(prev[p]@, prev[q - 1]@));
                } else if p == pos {
                    assert(chars_le(x@, prev[q - 1]@));
                } else {
                    assert(chars_le(prev[p - 1]@, prev[q - 1]@));
                }
            }
        }
        i = i + 1;
    }
    proof {
        assert(v@.take(i as int) =~= v@);
        v@.to_multiset_ensures();
        out@.to_multiset_ensures();
    }
    out
}

} // verus!
