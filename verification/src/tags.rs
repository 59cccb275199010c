//! Tag normalization for extracted exercise candidates.
//!
//! The classification tag is merged with the topic tags, and the result
//! is deduplicated (case-sensitively) and sorted.  This normalization is
//! deliberately lossy: the original order of human-authored tags does
//! not survive the merge.

use vstd::prelude::*;
use crate::text::{
    str_le, str_lt, str_le_exec, lemma_str_le_total, lemma_str_le_antisym, lemma_str_le_trans,
};

verus! {

/// The sequence of character views of a sequence of strings.
pub open spec fn views_of(v: Seq<String>) -> Seq<Seq<char>> {
    v.map_values(|s: String| s@)
}

/// Strictly ascending in the lexicographic order: sorted and free of
/// duplicates.
pub open spec fn strictly_sorted_strs(v: Seq<Seq<char>>) -> bool {
    forall|i: int, j: int| 0 <= i < j < v.len() ==> str_lt(#[trigger] v[i], #[trigger] v[j])
}

/// Decides the strict lexicographic order [`str_lt`].
pub fn str_lt_exec(a: &String, b: &String) -> (r: bool)
    ensures
        r == str_lt(a@, b@),
{
    let le_ab = str_le_exec(a, b);
    let le_ba = str_le_exec(b, a);
    proof {
        lemma_str_le_total(a@, b@);
        if le_ab && le_ba {
            lemma_str_le_antisym(a@, b@);
        }
    }
    le_ab && !le_ba
}

fn lower_bound(r: &Vec<String>, x: &String) -> (pos: usize)
    requires
        strictly_sorted_strs(views_of(r@)),
    ensures
        pos <= r@.len(),
        forall|k: int| 0 <= k < pos ==> str_lt(#[trigger] r@[k]@, x@),
        pos < r@.len() ==> !str_lt(r@[pos as int]@, x@),
{
    let n = r.len();
    let mut i: usize = 0;
    while i < n
        invariant
            n == r@.len(),
            0 <= i <= n,
            forall|k: int| 0 <= k < i ==> str_lt(#[trigger] r@[k]@, x@),
        decreases n - i,
    {
        let lt = str_lt_exec(&r[i], x);
        if !lt {
            return i;
        }
        i += 1;
    }
    i
}

/// Inserts a string into a strictly sorted vector, keeping it strictly
/// sorted; a string already present is not added again.
pub fn insert_sorted_unique(r: &Vec<String>, x: &String) -> (out: Vec<String>)
    requires
        strictly_sorted_strs(views_of(r@)),
    ensures
        strictly_sorted_strs(views_of(out@)),
        views_of(out@).to_set() == views_of(r@).to_set().insert(x@),
{
    let n = r.len();
    let pos = lower_bound(r, x);
    if pos < n {
        let le_xr = str_le_exec(x, &r[pos]);
        let le_rx = str_le_exec(&r[pos], x);
        if le_xr && le_rx {
            proof {
                lemma_str_le_antisym(x@, r@[pos as int]@);
                assert(views_of(r@)[pos as int] == x@);
                assert(views_of(r@).contains(x@));
                assert(views_of(r@).to_set() =~= views_of(r@).to_set().insert(x@));
            }
            return r.clone();
        }
    }
    proof {
        // At the insertion point the resident string is strictly greater.
        if pos < r@.len() {
            lemma_str_le_total(r@[pos as int]@, x@);
            if r@[pos as int]@ == x@ {
                assert(str_le(x@, r@[pos as int]@));
                assert(str_le(r@[pos as int]@, x@));
                assert(false);
            }
            assert(str_lt(x@, r@[pos as int]@));
        }
    }
    let mut out: Vec<String> = Vec::new();
    let mut k: usize = 0;
    while k < pos
        invariant
            pos <= n,
            n == r@.len(),
            0 <= k <= pos,
            out@.len() == k,
            forall|m: int| 0 <= m < k ==> #[trigger] out@[m] == r@[m],
        decreases pos - k,
    {
        out.push(r[k].clone());
        k += 1;
    }
    out.push(x.clone());
    while k < n
        invariant
            pos <= n,
            n == r@.len(),
            pos <= k <= n,
            out@.len() == k + 1,
            forall|m: int| 0 <= m < pos ==> #[trigger] out@[m] == r@[m],
            out@[pos as int] == *x,
            forall|m: int| pos < m < k + 1 ==> #[trigger] out@[m] == r@[m - 1],
        decreases n - k,
    {
        out.push(r[k].clone());
        k += 1;
    }
    proof {
        let ov = views_of(out@);
        let rv = views_of(r@);
        assert forall|i: int, j: int| 0 <= i < j < ov.len() implies str_lt(
            #[trigger] ov[i],
            #[trigger] ov[j],
        ) by {
            if i < pos && j < pos {
                assert(str_lt(rv[i], rv[j]));
            } else if i < pos && j == pos {
                assert(str_lt(rv[i], x@));
            } else if i < pos && j > pos {
                assert(str_lt(rv[i], x@));
                if pos < rv.len() {
                    assert(str_lt(x@, rv[pos as int]));
                }
                assert(str_lt(rv[i], rv[j - 1])) by {
                    if i < j - 1 {
                    } else {
                        assert(i == j - 1 && i == pos);
                        assert(false);
                    }
                }
            } else if i == pos && j > pos {
                assert(str_lt(x@, rv[pos as int]));
                if pos < j - 1 {
                    assert(str_lt(rv[pos as int], rv[j - 1]));
                    lemma_str_le_trans(x@, rv[pos as int], rv[j - 1]);
                    if x@ == rv[j - 1] {
                        lemma_str_le_antisym(x@, rv[pos as int]);
                        assert(false);
                    }
                } else {
                    assert(j - 1 == pos);
                }
            } else {
                assert(i > pos && j > pos);
                assert(str_lt(rv[i - 1], rv[j - 1]));
            }
        }
        assert forall|e: Seq<char>| ov.contains(e) <==> (rv.contains(e) || e == x@) by {
            if ov.contains(e) {
                let w = choose|w: int| 0 <= w < ov.len() && ov[w] == e;
                if w < pos {
                    assert(rv[w] == e);
                } else if w == pos {
                } else {
                    assert(rv[w - 1] == e);
                }
            }
            if rv.contains(e) {
                let w = choose|w: int| 0 <= w < rv.len() && rv[w] == e;
                if w < pos {
                    assert(ov[w] == e);
                } else {
                    assert(ov[w + 1] == e);
                }
            }
            if e == x@ {
                assert(ov[pos as int] == e);
            }
        }
        assert(ov.to_set() =~= rv.to_set().insert(x@));
    }
    out
}

/// Merges the classification tag with the topic tags, deduplicates the
/// result (case-sensitively) and sorts it.
///
/// The returned tag list is exactly the set of input tags together with
/// the classification, in strictly ascending lexicographic order.
pub fn normalize_tags(classification: &String, topic_tags: &Vec<String>) -> (r: Vec<String>)
    ensures
        strictly_sorted_strs(views_of(r@)),
        views_of(r@).to_set() == views_of(topic_tags@).to_set().insert(classification@),
{
    let empty: Vec<String> = Vec::new();
    let mut out = insert_sorted_unique(&empty, classification);
    proof {
        assert(views_of(empty@).to_set() =~= Set::<Seq<char>>::empty());
        assert(views_of(topic_tags@.take(0)).to_set() =~= Set::<Seq<char>>::empty());
    }
    let n = topic_tags.len();
    let mut i: usize = 0;
    while i < n
        invariant
            n == topic_tags@.len(),
            0 <= i <= n,
            strictly_sorted_strs(views_of(out@)),
            views_of(out@).to_set() == views_of(topic_tags@.take(i as int)).to_set().insert(
                classification@,
            ),
        decreases n - i,
    {
        let next = insert_sorted_unique(&out, &topic_tags[i]);
        proof {
            assert(views_of(topic_tags@.take(i + 1)) =~= views_of(topic_tags@.take(i as int)).push(
                topic_tags@[i as int]@,
            ));
            assert forall|e: Seq<char>|
                views_of(topic_tags@.take(i + 1)).contains(e) <==> (views_of(
                    topic_tags@.take(i as int),
                ).contains(e) || e == topic_tags@[i as int]@) by {
                let s = views_of(topic_tags@.take(i as int));
                let t = views_of(topic_tags@.take(i + 1));
                if s.contains(e) {
                    let w = choose|w: int| 0 <= w < s.len() && s[w] == e;
                    assert(t[w] == e);
                }
                if e == topic_tags@[i as int]@ {
                    assert(t[s.len() as int] == e);
                }
                if t.contains(e) {
                    let w = choose|w: int| 0 <= w < t.len() && t[w] == e;
                    if w < s.len() {
                        assert(s[w] == e);
                    } else {
                        assert(e == topic_tags@[i as int]@);
                    }
                }
            }
            let lhs = views_of(topic_tags@.take(i + 1)).to_set();
            let rhs = views_of(topic_tags@.take(i as int)).to_set().insert(
                topic_tags@[i as int]@,
            );
            assert forall|e: Seq<char>| lhs.contains(e) <==> rhs.contains(e) by {
                assert(lhs.contains(e) == views_of(topic_tags@.take(i + 1)).contains(e));
                assert(rhs.contains(e) == (views_of(topic_tags@.take(i as int)).contains(e) || e
                    == topic_tags@[i as int]@));
            }
            assert(lhs =~= rhs);
            assert(views_of(next@).to_set() =~= views_of(topic_tags@.take(i + 1)).to_set().insert(
                classification@,
            ));
        }
        out = next;
        i += 1;
    }
    proof {
        assert(topic_tags@.take(n as int) =~= topic_tags@);
    }
    out
}

} // verus!
