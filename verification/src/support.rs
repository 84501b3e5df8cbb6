//! Small verified helpers shared by the ordering engine: position lookups in
//! duplicate-free sequences, the unvisited counter that bounds a search, and
//! the two-way merge of sorted rank lists.

use vstd::prelude::*;

verus! {

/// Every value is strictly below each later one.
pub open spec fn strictly_increasing(s: Seq<usize>) -> bool {
    forall|i: int, j: int| 0 <= i < j < s.len() ==> s[i] < s[j]
}

/// Number of `false` entries in a visited map; the measure that shrinks as a
/// search marks vertices.
pub open spec fn count_false(s: Seq<bool>) -> nat
    decreases s.len(),
{
    if s.len() == 0 {
        0nat
    } else {
        count_false(s.drop_last()) + (if s.last() {
            0nat
        } else {
            1nat
        })
    }
}

/// Marking one unvisited entry shrinks `count_false` by exactly one.
pub proof fn lemma_count_false_set_true(s: Seq<bool>, i: int)
    requires
        0 <= i < s.len(),
        !s[i],
    ensures
        count_false(s.update(i, true)) + 1 == count_false(s),
    decreases s.len(),
{
    let t = s.update(i, true);
    if i == s.len() - 1 {
        assert(t.drop_last() =~= s.drop_last());
    } else {
        assert(t.drop_last() =~= s.drop_last().update(i, true));
        lemma_count_false_set_true(s.drop_last(), i);
    }
}

/// In a duplicate-free sequence, the index of the value at position `i` is
/// `i` itself.
pub proof fn lemma_position_of(s: Seq<usize>, i: int)
    requires
        s.no_duplicates(),
        0 <= i < s.len(),
    ensures
        s.index_of(s[i]) == i,
{
    assert(s.contains(s[i]));
    let j = s.index_of(s[i]);
    assert(0 <= j < s.len() && s[j] == s[i]);
    if j != i {
        assert(s[j] != s[i]);
    }
}

/// Appending a fresh value to a duplicate-free sequence moves no index: every
/// present value keeps its position, and the new value lands at the end.
pub proof fn lemma_index_of_push(s: Seq<usize>, a: usize)
    requires
        s.no_duplicates(),
        !s.contains(a),
    ensures
        forall|v: usize| s.contains(v) ==> #[trigger] s.push(a).index_of(v) == s.index_of(v),
        s.push(a).index_of(a) == s.len(),
        s.push(a).no_duplicates(),
{
    let t = s.push(a);
    assert forall|v: usize| s.contains(v) implies #[trigger] t.index_of(v) == s.index_of(v) by {
        let j = s.index_of(v);
        assert(0 <= j < s.len() && s[j] == v);
        assert(t[j] == v);
        assert(t.contains(v));
        let j2 = t.index_of(v);
        assert(0 <= j2 < t.len() && t[j2] == v);
        if j2 == s.len() {
            assert(t[j2] == a);
            assert(s.contains(a));
        } else {
            assert(s[j2] == v);
            lemma_position_of(s, j2);
            lemma_position_of(s, j);
        }
    }
    assert(t[s.len() as int] == a);
    assert(t.contains(a));
    let j3 = t.index_of(a);
    assert(0 <= j3 < t.len() && t[j3] == a);
    if j3 < s.len() {
        assert(s[j3] == a);
        assert(s.contains(a));
    }
}

/// Two duplicate-free sequences with the same members hold the same multiset.
pub proof fn lemma_same_members_same_multiset(s1: Seq<usize>, s2: Seq<usize>)
    requires
        s1.no_duplicates(),
        s2.no_duplicates(),
        forall|v: usize| s1.contains(v) <==> s2.contains(v),
    ensures
        s1.to_multiset() =~= s2.to_multiset(),
        s1.len() == s2.len(),
{
    broadcast use vstd::seq_lib::group_to_multiset_ensures;

    s1.lemma_multiset_has_no_duplicates();
    s2.lemma_multiset_has_no_duplicates();
    assert forall|v: usize| s1.to_multiset().count(v) == s2.to_multiset().count(v) by {
        if s1.contains(v) {
            assert(s1.to_multiset().count(v) > 0);
            assert(s2.to_multiset().count(v) > 0);
        } else {
            assert(s1.to_multiset().count(v) == 0);
            assert(s2.to_multiset().count(v) == 0);
        }
    }
    assert(s1.to_multiset() =~= s2.to_multiset());
    assert(s1.len() == s1.to_multiset().len());
    assert(s2.len() == s2.to_multiset().len());
}

/// Whether the vector holds the handle; a plain linear scan.
pub fn vec_contains(d: &Vec<usize>, v: usize) -> (b: bool)
    ensures
        b == d@.contains(v),
{
    let mut i: usize = 0;
    while i < d.len()
        invariant
            i <= d@.len(),
            forall|j: int| 0 <= j < i ==> d@[j] != v,
        decreases d@.len() - i,
    {
        if d[i] == v {
            return true;
        }
        i += 1;
    }
    false
}

/// Whether one of the first `bound` entries of `s` holds the position `p`.
pub open spec fn seq_has_val(s: Seq<usize>, bound: int, p: int) -> bool {
    exists|q: int| 0 <= q < bound && (#[trigger] s[q]) as int == p
}

/// Whether `p` is the old position of some value of `l` in `items0`.
pub open spec fn pos_of_member(items0: Seq<usize>, l: Seq<usize>, p: int) -> bool {
    exists|m: int| 0 <= m < l.len() && items0.index_of(#[trigger] l[m]) == p
}

/// Reassignment of a duplicate-free table: writing the duplicate-free values
/// `l` onto the strictly increasing positions `rr` — which pool exactly the
/// old positions of the values of `l` — keeps the table duplicate-free, keeps
/// its members and multiset, sends each moved value to its assigned position,
/// and leaves every other value where it was.
pub proof fn lemma_reassign(items0: Seq<usize>, items1: Seq<usize>, l: Seq<usize>, rr: Seq<usize>)
    requires
        items0.no_duplicates(),
        l.no_duplicates(),
        rr.len() == l.len(),
        strictly_increasing(rr),
        items1.len() == items0.len(),
        forall|q: int| 0 <= q < rr.len() ==> ((#[trigger] rr[q]) as int) < items0.len(),
        forall|q: int| 0 <= q < l.len() ==> items0.contains(#[trigger] l[q]),
        forall|q: int|
            0 <= q < l.len() ==> seq_has_val(rr, rr.len() as int, items0.index_of(#[trigger] l[q])),
        forall|q: int|
            0 <= q < rr.len() ==> pos_of_member(items0, l, (#[trigger] rr[q]) as int),
        forall|q: int| 0 <= q < rr.len() ==> items1[(#[trigger] rr[q]) as int] == l[q],
        forall|p: int|
            0 <= p < items1.len() && !seq_has_val(rr, rr.len() as int, p) ==> items1[p]
                == items0[p],
    ensures
        items1.no_duplicates(),
        forall|v: usize| items1.contains(v) <==> items0.contains(v),
        items1.to_multiset() == items0.to_multiset(),
        forall|q: int|
            0 <= q < l.len() ==> items1.contains(#[trigger] l[q]) && items1.index_of(l[q])
                == rr[q] as int,
        forall|v: usize|
            items0.contains(v) && !l.contains(v) ==> items1.index_of(v) == items0.index_of(v),
{
    let n = rr.len() as int;
    assert forall|p: int, q: int|
        0 <= p < items1.len() && 0 <= q < items1.len() && p != q implies items1[p]
        != items1[q] by {
        if items1[p] == items1[q] {
            if seq_has_val(rr, n, p) && seq_has_val(rr, n, q) {
                let ip = choose|ip: int| 0 <= ip < n && (#[trigger] rr[ip]) as int == p;
                let iq = choose|iq: int| 0 <= iq < n && (#[trigger] rr[iq]) as int == q;
                assert(items1[p] == l[ip]);
                assert(items1[q] == l[iq]);
                assert(ip != iq);
            } else if seq_has_val(rr, n, p) {
                let ip = choose|ip: int| 0 <= ip < n && (#[trigger] rr[ip]) as int == p;
                let v = l[ip];
                assert(items1[p] == v);
                assert(items1[q] == items0[q]);
                let t0 = items0.index_of(v);
                assert(items0.contains(v));
                assert(items0[t0] == v);
                assert(seq_has_val(rr, n, t0));
                assert(q != t0);
                assert(items0[q] == items0[t0]);
            } else if seq_has_val(rr, n, q) {
                let iq = choose|iq: int| 0 <= iq < n && (#[trigger] rr[iq]) as int == q;
                let v = l[iq];
                assert(items1[q] == v);
                assert(items1[p] == items0[p]);
                let t0 = items0.index_of(v);
                assert(items0.contains(v));
                assert(items0[t0] == v);
                assert(seq_has_val(rr, n, t0));
                assert(p != t0);
                assert(items0[p] == items0[t0]);
            }
        }
    }
    assert forall|v: usize| items1.contains(v) implies items0.contains(v) by {
        let p = choose|p: int| 0 <= p < items1.len() && items1[p] == v;
        if seq_has_val(rr, n, p) {
            let ip = choose|ip: int| 0 <= ip < n && (#[trigger] rr[ip]) as int == p;
            assert(items1[p] == l[ip]);
            assert(items0.contains(l[ip]));
        } else {
            assert(items0[p] == v);
        }
    }
    assert forall|v: usize| items0.contains(v) implies items1.contains(v) by {
        let p = choose|p: int| 0 <= p < items0.len() && items0[p] == v;
        if seq_has_val(rr, n, p) {
            let ip = choose|ip: int| 0 <= ip < n && (#[trigger] rr[ip]) as int == p;
            assert(pos_of_member(items0, l, (rr[ip]) as int));
            let m = choose|m: int|
                0 <= m < l.len() && items0.index_of(#[trigger] l[m]) == rr[ip] as int;
            assert(items0.contains(l[m]));
            assert(items0[items0.index_of(l[m])] == l[m]);
            assert(items0[p] == l[m]);
            assert(items1[(rr[m]) as int] == l[m]);
            assert(items1.contains(l[m]));
        } else {
            assert(items1[p] == v);
        }
    }
    lemma_same_members_same_multiset(items1, items0);
    assert forall|q: int|
        0 <= q < l.len() implies items1.contains(#[trigger] l[q]) && items1.index_of(l[q])
        == rr[q] as int by {
        assert(items1[(rr[q]) as int] == l[q]);
        lemma_position_of(items1, rr[q] as int);
    }
    assert forall|v: usize|
        items0.contains(v) && !l.contains(v) implies items1.index_of(v) == items0.index_of(
        v,
    ) by {
        let p = items0.index_of(v);
        assert(items0[p] == v);
        if seq_has_val(rr, n, p) {
            let ip = choose|ip: int| 0 <= ip < n && (#[trigger] rr[ip]) as int == p;
            assert(pos_of_member(items0, l, (rr[ip]) as int));
            let m = choose|m: int|
                0 <= m < l.len() && items0.index_of(#[trigger] l[m]) == rr[ip] as int;
            assert(items0[items0.index_of(l[m])] == l[m]);
            assert(l[m] == v);
            assert(l.contains(v));
        } else {
            assert(items1[p] == v);
            lemma_position_of(items1, p);
        }
    }
}

/// The full pooling step: the two sorted, disjoint value lists `db` and
/// `df`, with old positions `rbl` and `rfl`, are written onto the merged
/// position pool `rr`; the table stays a permutation, each listed value lands
/// on its pooled position, and every other value stays put.
#[verifier::rlimit(100)]
pub proof fn lemma_pool_reassign(
    items0: Seq<usize>,
    items1: Seq<usize>,
    db: Seq<usize>,
    df: Seq<usize>,
    rbl: Seq<usize>,
    rfl: Seq<usize>,
    rr: Seq<usize>,
)
    requires
        items0.no_duplicates(),
        db.no_duplicates(),
        df.no_duplicates(),
        forall|v: usize| !(db.contains(v) && df.contains(v)),
        forall|v: usize| db.contains(v) ==> items0.contains(v),
        forall|v: usize| df.contains(v) ==> items0.contains(v),
        rbl.len() == db.len(),
        rfl.len() == df.len(),
        forall|t: int| 0 <= t < db.len() ==> (#[trigger] rbl[t]) as int == items0.index_of(db[t]),
        forall|t: int| 0 <= t < df.len() ==> (#[trigger] rfl[t]) as int == items0.index_of(df[t]),
        rr.len() == db.len() + df.len(),
        strictly_increasing(rr),
        forall|q: int| 0 <= q < rr.len() ==> ((#[trigger] rr[q]) as int) < items0.len(),
        forall|p: int| 0 <= p < rr.len() ==> rbl.contains(#[trigger] rr[p]) || rfl.contains(rr[p]),
        forall|k: int| 0 <= k < rbl.len() ==> rr.contains(#[trigger] rbl[k]),
        forall|k: int| 0 <= k < rfl.len() ==> rr.contains(#[trigger] rfl[k]),
        items1.len() == items0.len(),
        forall|q: int| 0 <= q < rr.len() ==> items1[(#[trigger] rr[q]) as int] == (db + df)[q],
        forall|p: int|
            0 <= p < items1.len() && !seq_has_val(rr, rr.len() as int, p) ==> items1[p]
                == items0[p],
    ensures
        items1.no_duplicates(),
        forall|v: usize| items1.contains(v) <==> items0.contains(v),
        items1.to_multiset() == items0.to_multiset(),
        forall|t: int|
            0 <= t < db.len() ==> items1.contains(#[trigger] db[t]) && items1.index_of(db[t])
                == rr[t] as int,
        forall|t: int|
            0 <= t < df.len() ==> items1.contains(#[trigger] df[t]) && items1.index_of(df[t])
                == rr[db.len() + t] as int,
        forall|v: usize|
            items0.contains(v) && !db.contains(v) && !df.contains(v) ==> items1.index_of(v)
                == items0.index_of(v),
{
    let l = db + df;
    assert forall|p: int, q: int| 0 <= p < q < l.len() implies l[p] != l[q] by {
        if p < db.len() && q >= db.len() {
            if l[p] == l[q] {
                assert(db.contains(db[p]));
                assert(df.contains(df[q - db.len()]));
            }
        }
    }
    assert forall|q: int|
        0 <= q < l.len() implies items0.contains(#[trigger] l[q]) && seq_has_val(
        rr,
        rr.len() as int,
        items0.index_of(l[q]),
    ) by {
        if q < db.len() {
            assert(db.contains(db[q]));
            assert(rbl[q] as int == items0.index_of(l[q]));
            assert(rr.contains(rbl[q]));
            let p = choose|p: int| 0 <= p < rr.len() && rr[p] == rbl[q];
            assert((rr[p]) as int == items0.index_of(l[q]));
        } else {
            assert(df.contains(df[q - db.len()]));
            assert(rfl[q - db.len()] as int == items0.index_of(l[q]));
            assert(rr.contains(rfl[q - db.len()]));
            let p = choose|p: int| 0 <= p < rr.len() && rr[p] == rfl[q - db.len()];
            assert((rr[p]) as int == items0.index_of(l[q]));
        }
    }
    assert forall|q: int|
        0 <= q < rr.len() implies pos_of_member(items0, l, (#[trigger] rr[q]) as int) by {
        if rbl.contains(rr[q]) {
            let p = choose|p: int| 0 <= p < rbl.len() && rbl[p] == rr[q];
            assert(db.contains(db[p]));
            assert(items0.index_of(l[p]) == (rr[q]) as int);
        } else {
            let p = choose|p: int| 0 <= p < rfl.len() && rfl[p] == rr[q];
            assert(df.contains(df[p]));
            assert(items0.index_of(l[db.len() + p]) == (rr[q]) as int);
        }
    }
    lemma_reassign(items0, items1, l, rr);
    assert forall|t: int|
        0 <= t < db.len() implies items1.contains(#[trigger] db[t]) && items1.index_of(db[t])
        == rr[t] as int by {
        assert(l[t] == db[t]);
        assert(items1.index_of(l[t]) == rr[t] as int);
    }
    assert forall|t: int|
        0 <= t < df.len() implies items1.contains(#[trigger] df[t]) && items1.index_of(df[t])
        == rr[db.len() + t] as int by {
        assert(l[db.len() + t] == df[t]);
        assert(items1.index_of(l[db.len() + t]) == rr[db.len() + t] as int);
    }
    assert forall|v: usize|
        items0.contains(v) && !db.contains(v) && !df.contains(v) implies items1.index_of(v)
        == items0.index_of(v) by {
        if l.contains(v) {
            let q = choose|q: int| 0 <= q < l.len() && l[q] == v;
            if q < db.len() {
                assert(db.contains(v));
            } else {
                assert(df[q - db.len()] == v);
                assert(df.contains(v));
            }
        }
        assert(!l.contains(v));
    }
}

/// A visited map of `n` entries, all unmarked.
pub fn false_vec(n: usize) -> (v: Vec<bool>)
    ensures
        v@.len() == n,
        forall|i: int| 0 <= i < n ==> !v@[i],
{
    let mut v: Vec<bool> = Vec::new();
    let mut i: usize = 0;
    while i < n
        invariant
            i <= n,
            v@.len() == i,
            forall|j: int| 0 <= j < i ==> !v@[j],
        decreases n - i,
    {
        v.push(false);
        i += 1;
    }
    v
}

/// Two-way merge of two strictly increasing, disjoint rank lists, as the
/// reorder step uses it: the result is strictly increasing, holds exactly the
/// values of both inputs, no value from the first list moves up, and no value
/// from the second list moves down.
pub fn merge_ranks(rb: &Vec<usize>, rf: &Vec<usize>) -> (merged: Vec<usize>)
    requires
        strictly_increasing(rb@),
        strictly_increasing(rf@),
        forall|i: int, j: int| 0 <= i < rb@.len() && 0 <= j < rf@.len() ==> rb@[i] != rf@[j],
    ensures
        merged@.len() == rb@.len() + rf@.len(),
        strictly_increasing(merged@),
        forall|k: int| 0 <= k < rb@.len() ==> merged@[k] <= rb@[k],
        forall|k: int| 0 <= k < rf@.len() ==> merged@[rb@.len() + k] >= rf@[k],
        forall|p: int|
            0 <= p < merged@.len() ==> rb@.contains(#[trigger] merged@[p]) || rf@.contains(
                merged@[p],
            ),
        forall|k: int| 0 <= k < rb@.len() ==> merged@.contains(#[trigger] rb@[k]),
        forall|k: int| 0 <= k < rf@.len() ==> merged@.contains(#[trigger] rf@[k]),
{
    let mut merged: Vec<usize> = Vec::new();
    let mut bi: usize = 0;
    let mut fi: usize = 0;
    let ghost mut pos_b: Seq<int> = Seq::empty();
    let ghost mut pos_f: Seq<int> = Seq::empty();
    while bi < rb.len() || fi < rf.len()
        invariant
            strictly_increasing(rb@),
            strictly_increasing(rf@),
            forall|i: int, j: int| 0 <= i < rb@.len() && 0 <= j < rf@.len() ==> rb@[i] != rf@[j],
            bi <= rb@.len(),
            fi <= rf@.len(),
            merged@.len() == bi + fi,
            strictly_increasing(merged@),
            forall|p: int, k: int|
                0 <= p < merged@.len() && bi <= k < rb@.len() ==> #[trigger] merged@[p]
                    < #[trigger] rb@[k],
            forall|p: int, k: int|
                0 <= p < merged@.len() && fi <= k < rf@.len() ==> #[trigger] merged@[p]
                    < #[trigger] rf@[k],
            pos_b.len() == bi,
            pos_f.len() == fi,
            forall|k: int|
                0 <= k < bi ==> k <= #[trigger] pos_b[k] < merged@.len() && merged@[pos_b[k]]
                    == rb@[k],
            forall|k: int|
                0 <= k < fi ==> 0 <= #[trigger] pos_f[k] && pos_f[k] < merged@.len() && pos_f[k]
                    <= rb@.len() + k && merged@[pos_f[k]] == rf@[k],
            forall|p: int|
                0 <= p < merged@.len() ==> rb@.contains(#[trigger] merged@[p]) || rf@.contains(
                    merged@[p],
                ),
        decreases rb@.len() + rf@.len() - bi - fi,
    {
        let take_b: bool = if bi < rb.len() {
            if fi < rf.len() {
                rb[bi] < rf[fi]
            } else {
                true
            }
        } else {
            false
        };
        if take_b {
            let val = rb[bi];
            proof {
                assert(rb@.contains(rb@[bi as int]));
            }
            merged.push(val);
            proof {
                pos_b = pos_b.push(merged@.len() - 1);
                assert(merged@[merged@.len() - 1] == rb@[bi as int]);
            }
            bi += 1;
        } else {
            let val = rf[fi];
            proof {
                assert(fi < rf@.len());
                assert(rf@.contains(rf@[fi as int]));
                if bi < rb@.len() {
                    assert(rf@[fi as int] != rb@[bi as int]);
                }
            }
            merged.push(val);
            proof {
                pos_f = pos_f.push(merged@.len() - 1);
                assert(merged@.len() - 1 <= rb@.len() + fi);
                assert(merged@[merged@.len() - 1] == rf@[fi as int]);
            }
            fi += 1;
        }
    }
    proof {
        assert forall|k: int| 0 <= k < rb@.len() implies merged@[k] <= rb@[k] by {
            let p = pos_b[k];
            assert(merged@[p] == rb@[k]);
            if p > k {
                assert(merged@[k] < merged@[p]);
            }
        }
        assert forall|k: int| 0 <= k < rf@.len() implies merged@[rb@.len() + k] >= rf@[k] by {
            let p = pos_f[k];
            assert(merged@[p] == rf@[k]);
            if p < rb@.len() + k {
                assert(merged@[p] < merged@[rb@.len() + k]);
            }
        }
        assert forall|k: int| 0 <= k < rb@.len() implies merged@.contains(#[trigger] rb@[k]) by {
            let p = pos_b[k];
            assert(merged@[p] == rb@[k]);
        }
        assert forall|k: int| 0 <= k < rf@.len() implies merged@.contains(#[trigger] rf@[k]) by {
            let p = pos_f[k];
            assert(merged@[p] == rf@[k]);
        }
    }
    merged
}

} // verus!
