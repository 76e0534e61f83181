use vstd::prelude::*;
use crate::graph::{edge_views, Ed};

verus! {

/// The order of edges: by parent slot, then by child slot.
pub open spec fn edge_before(a: (int, int), b: (int, int)) -> bool {
    a.0 < b.0 || (a.0 == b.0 && a.1 < b.1)
}

/// Each edge comes before every later one. Such a sequence holds no edge
/// twice.
pub open spec fn ascending(s: Seq<(int, int)>) -> bool {
    forall|i: int, j: int| #![trigger s[i], s[j]] 0 <= i < j < s.len() ==> edge_before(s[i], s[j])
}

/// `r` holds the edges of `s`, each once, in ascending order.
pub open spec fn dedup_of(r: Seq<(int, int)>, s: Seq<(int, int)>) -> bool {
    ascending(r) && r.to_set() == s.to_set()
}

/// The edges of `s`, each once, in ascending order.
pub open spec fn sorted_unique(s: Seq<(int, int)>) -> Seq<(int, int)> {
    choose|r: Seq<(int, int)>| dedup_of(r, s)
}

/// Two ascending sequences with the same edges are the same sequence.
pub proof fn lemma_ascending_unique(a: Seq<(int, int)>, b: Seq<(int, int)>)
    requires
        ascending(a),
        ascending(b),
        a.to_set() == b.to_set(),
    ensures
        a == b,
    decreases a.len(),
{
    if a.len() == 0 {
        if b.len() > 0 {
            assert(b.to_set().contains(b[0]));
            assert(a.contains(b[0]));
        }
        assert(a =~= b);
    } else {
        let x = a.last();
        assert(a.to_set().contains(x));
        assert(b.contains(x));
        let y = b.last();
        assert(b.to_set().contains(y));
        assert(a.contains(y));
        let ia = choose|i: int| 0 <= i < a.len() && a[i] == y;
        let ib = choose|i: int| 0 <= i < b.len() && b[i] == x;
        if ia < a.len() - 1 {
            assert(edge_before(a[ia], a[a.len() - 1]));
        }
        if ib < b.len() - 1 {
            assert(edge_before(b[ib], b[b.len() - 1]));
        }
        assert(x == y);
        let a0 = a.drop_last();
        let b0 = b.drop_last();
        assert forall|e: (int, int)| a0.contains(e) <==> b0.contains(e) by {
            if a0.contains(e) {
                let i = choose|i: int| 0 <= i < a0.len() && a0[i] == e;
                assert(edge_before(a[i], a[a.len() - 1]));
                assert(a.to_set().contains(a[i]));
                assert(b.contains(e));
                let k = choose|k: int| 0 <= k < b.len() && b[k] == e;
                assert(b0[k] == e);
            }
            if b0.contains(e) {
                let i = choose|i: int| 0 <= i < b0.len() && b0[i] == e;
                assert(edge_before(b[i], b[b.len() - 1]));
                assert(b.to_set().contains(b[i]));
                assert(a.contains(e));
                let k = choose|k: int| 0 <= k < a.len() && a[k] == e;
                assert(a0[k] == e);
            }
        }
        assert(a0.to_set() =~= b0.to_set());
        assert(ascending(a0)) by {
            assert forall|i: int, j: int| 0 <= i < j < a0.len() implies edge_before(
                #[trigger] a0[i],
                #[trigger] a0[j],
            ) by {
                assert(edge_before(a[i], a[j]));
            }
        }
        assert(ascending(b0)) by {
            assert forall|i: int, j: int| 0 <= i < j < b0.len() implies edge_before(
                #[trigger] b0[i],
                #[trigger] b0[j],
            ) by {
                assert(edge_before(b[i], b[j]));
            }
        }
        lemma_ascending_unique(a0, b0);
        assert(a =~= a0.push(x));
        assert(b =~= b0.push(y));
    }
}

/// A sequence that holds the edges of `s`, each once and in ascending
/// order, is `sorted_unique(s)`.
pub proof fn lemma_sorted_unique_is(s: Seq<(int, int)>, r: Seq<(int, int)>)
    requires
        dedup_of(r, s),
    ensures
        sorted_unique(s) == r,
{
    lemma_ascending_unique(sorted_unique(s), r);
}

/// Dropping edges from an ascending list and renumbering the others by a
/// map that keeps their order leaves an ascending list.
pub proof fn lemma_filter_map_ascending(
    s: Seq<(int, int)>,
    p: spec_fn((int, int)) -> bool,
    f: spec_fn((int, int)) -> (int, int),
)
    requires
        ascending(s),
        forall|i: int, j: int|
            #![trigger s[i], s[j]]
            0 <= i < j < s.len() && p(s[i]) && p(s[j]) ==> edge_before(f(s[i]), f(s[j])),
    ensures
        ascending(s.filter(p).map_values(f)),
    decreases s.len(),
{
    reveal(Seq::filter);
    if s.len() > 0 {
        let t = s.drop_last();
        let a = s.last();
        assert forall|i: int, j: int| 0 <= i < j < t.len() implies edge_before(
            #[trigger] t[i],
            #[trigger] t[j],
        ) by {
            assert(edge_before(s[i], s[j]));
        }
        assert forall|i: int, j: int|
            #![trigger t[i], t[j]]
            0 <= i < j < t.len() && p(t[i]) && p(t[j]) implies edge_before(f(t[i]), f(t[j])) by {
            assert(t[i] == s[i] && t[j] == s[j]);
        }
        lemma_filter_map_ascending(t, p, f);
        let u = t.filter(p);
        let r = s.filter(p).map_values(f);
        if p(a) {
            assert(s.filter(p) == u.push(a));
            crate::lemmas::lemma_filter_elements(t, p);
            assert forall|i: int, j: int| 0 <= i < j < r.len() implies edge_before(
                #[trigger] r[i],
                #[trigger] r[j],
            ) by {
                if j < u.len() {
                    assert(edge_before(u.map_values(f)[i], u.map_values(f)[j]));
                } else {
                    assert(t.contains(u[i]));
                    let k = choose|k: int| 0 <= k < t.len() && t[k] == u[i];
                    assert(p(u[i]));
                    assert(s[k] == u[i] && s[s.len() - 1] == a);
                    assert(edge_before(f(s[k]), f(s[s.len() - 1])));
                }
            }
        }
    }
}

/// Whether `x` comes before `y` in the order of edges.
fn before(x: Ed, y: Ed) -> (r: bool)
    ensures
        r == edge_before(x@, y@),
{
    x.0 < y.0 || (x.0 == y.0 && x.1 < y.1)
}

/// Merges two ascending runs into one; an edge that both hold is taken
/// once.
fn merge(a: &Vec<Ed>, b: &Vec<Ed>) -> (out: Vec<Ed>)
    requires
        ascending(edge_views(a@)),
        ascending(edge_views(b@)),
    ensures
        ascending(edge_views(out@)),
        forall|e: Ed| out@.contains(e) <==> (a@.contains(e) || b@.contains(e)),
{
    let mut out: Vec<Ed> = Vec::new();
    let mut i: usize = 0;
    let mut j: usize = 0;
    while i < a.len() || j < b.len()
        invariant
            i <= a.len(),
            j <= b.len(),
            ascending(edge_views(a@)),
            ascending(edge_views(b@)),
            ascending(edge_views(out@)),
            forall|k: int| 0 <= k < out.len() ==> a@.contains(#[trigger] out[k]) || b@.contains(out[k]),
            forall|k: int| 0 <= k < i ==> out@.contains(#[trigger] a[k]),
            forall|k: int| 0 <= k < j ==> out@.contains(#[trigger] b[k]),
            forall|k: int| 0 <= k < out.len() && i < a.len() ==> edge_before((#[trigger] out[k])@, a[i as int]@),
            forall|k: int| 0 <= k < out.len() && j < b.len() ==> edge_before((#[trigger] out[k])@, b[j as int]@),
        decreases (a.len() - i) + (b.len() - j),
    {
        let ghost prev = out@;
        let take_a = j >= b.len() || (i < a.len() && before(a[i], b[j]));
        let take_b = !take_a && (i >= a.len() || before(b[j], a[i]));
        let next = if take_b { b[j] } else { a[i] };
        out.push(next);
        proof {
            assert forall|k: int| 0 <= k < prev.len() implies out@[k] == prev[k] by {}
            assert(out@[prev.len() as int] == next);
            assert forall|x: int, y: int| 0 <= x < y < out.len() implies edge_before(
                #[trigger] edge_views(out@)[x],
                #[trigger] edge_views(out@)[y],
            ) by {
                if y < prev.len() {
                    assert(edge_before(edge_views(prev)[x], edge_views(prev)[y]));
                } else {
                    assert(out@[x] == prev[x]);
                }
            }
            assert forall|k: int| 0 <= k < i implies out@.contains(#[trigger] a[k]) by {
                let w = choose|w: int| 0 <= w < prev.len() && prev[w] == a[k];
                assert(out@[w] == a[k]);
            }
            assert forall|k: int| 0 <= k < j implies out@.contains(#[trigger] b[k]) by {
                let w = choose|w: int| 0 <= w < prev.len() && prev[w] == b[k];
                assert(out@[w] == b[k]);
            }
            if i + 1 < a.len() {
                assert(edge_before(edge_views(a@)[i as int], edge_views(a@)[i + 1]));
            }
            if j + 1 < b.len() {
                assert(edge_before(edge_views(b@)[j as int], edge_views(b@)[j + 1]));
            }
        }
        if take_a {
            i += 1;
        } else if take_b {
            j += 1;
        } else {
            assert(a[i as int] == b[j as int]);
            i += 1;
            j += 1;
        }
    }
    proof {
        assert forall|e: Ed| out@.contains(e) <==> (a@.contains(e) || b@.contains(e)) by {
            if out@.contains(e) {
                let k = choose|k: int| 0 <= k < out.len() && out[k] == e;
                assert(a@.contains(out[k]) || b@.contains(out[k]));
            }
            if a@.contains(e) {
                let k = choose|k: int| 0 <= k < a.len() && a[k] == e;
                assert(out@.contains(a[k]));
            }
            if b@.contains(e) {
                let k = choose|k: int| 0 <= k < b.len() && b[k] == e;
                assert(out@.contains(b[k]));
            }
        }
    }
    out
}

/// The edges `v[lo..hi]`, each once, in ascending order.
fn sorted_run(v: &Vec<Ed>, lo: usize, hi: usize) -> (out: Vec<Ed>)
    requires
        lo <= hi <= v.len(),
    ensures
        ascending(edge_views(out@)),
        forall|e: Ed| out@.contains(e) <==> v@.subrange(lo as int, hi as int).contains(e),
    decreases hi - lo,
{
    if hi - lo == 0 {
        let out: Vec<Ed> = Vec::new();
        assert(v@.subrange(lo as int, hi as int) =~= Seq::empty());
        return out;
    }
    if hi - lo == 1 {
        let mut out: Vec<Ed> = Vec::new();
        out.push(v[lo]);
        assert(v@.subrange(lo as int, hi as int) =~= out@);
        return out;
    }
    let mid: usize = lo + (hi - lo) / 2;
    let left = sorted_run(v, lo, mid);
    let right = sorted_run(v, mid, hi);
    let out = merge(&left, &right);
    proof {
        let whole = v@.subrange(lo as int, hi as int);
        let l = v@.subrange(lo as int, mid as int);
        let r = v@.subrange(mid as int, hi as int);
        assert(whole =~= l + r);
        assert forall|e: Ed| out@.contains(e) <==> whole.contains(e) by {
            if l.contains(e) {
                let k = choose|k: int| 0 <= k < l.len() && l[k] == e;
                assert(whole[k] == e);
            }
            if r.contains(e) {
                let k = choose|k: int| 0 <= k < r.len() && r[k] == e;
                assert(whole[l.len() + k] == e);
            }
            if whole.contains(e) {
                let k = choose|k: int| 0 <= k < whole.len() && whole[k] == e;
                if k < l.len() {
                    assert(l[k] == e);
                } else {
                    assert(r[k - l.len()] == e);
                }
            }
        }
    }
    out
}

/// The edges of `v`, each once, in ascending order.
pub fn sort_dedup(v: &Vec<Ed>) -> (out: Vec<Ed>)
    ensures
        dedup_of(edge_views(out@), edge_views(v@)),
        edge_views(out@) == sorted_unique(edge_views(v@)),
{
    let out = sorted_run(v, 0, v.len());
    proof {
        assert(v@.subrange(0, v.len() as int) =~= v@);
        let r = edge_views(out@);
        let s = edge_views(v@);
        assert forall|p: (int, int)| r.contains(p) <==> s.contains(p) by {
            if r.contains(p) {
                let k = choose|k: int| 0 <= k < r.len() && r[k] == p;
                assert(out@.contains(out@[k]));
                let w = choose|w: int| 0 <= w < v.len() && v@[w] == out@[k];
                assert(s[w] == p);
            }
            if s.contains(p) {
                let k = choose|k: int| 0 <= k < s.len() && s[k] == p;
                assert(v@.subrange(0, v.len() as int).contains(v@[k]));
                assert(out@.contains(v@[k]));
                let w = choose|w: int| 0 <= w < out.len() && out@[w] == v@[k];
                assert(r[w] == p);
            }
        }
        assert(r.to_set() =~= s.to_set());
        lemma_sorted_unique_is(s, r);
    }
    out
}

} // verus!
