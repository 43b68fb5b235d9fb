//! Collision resolution: packs of scan rows that share a fingerprint are
//! resolved into survivors and deletions. Within a pack, rows are taken in
//! survivor priority order — higher rank first, ties broken by higher id —
//! and a row is marked for deletion exactly when it is similar to a survivor
//! kept so far. Because similarity is not transitive, a candidate is compared
//! only against the kept survivors, never against other deleted rows.

use vstd::prelude::*;

use crate::similarity::Similarity;
use crate::store::{entry_pairs, entry_views, EntryView, HashEntry, Store};

verus! {

/// Packs larger than this are skipped: resolving one costs quadratically
/// many similarity tests, and such a pack signals a degenerate fingerprint.
pub const MAX_PACK_LEN: usize = 5000;

/// Survivor priority: `a` precedes `b` when its rank is higher, or equal
/// with a higher id.
pub open spec fn entry_ge(a: EntryView, b: EntryView) -> bool {
    a.rank > b.rank || (a.rank == b.rank && a.id >= b.id)
}

/// Strict survivor priority.
pub open spec fn entry_gt(a: EntryView, b: EntryView) -> bool {
    a.rank > b.rank || (a.rank == b.rank && a.id > b.id)
}

/// The rows carry pairwise distinct ids.
pub open spec fn distinct_ids(q: Seq<EntryView>) -> bool {
    forall|i: int, j: int| 0 <= i < j < q.len() ==> (#[trigger] q[i]).id != (#[trigger] q[j]).id
}

/// The rows are in survivor priority order, best first.
pub open spec fn sorted_desc(q: Seq<EntryView>) -> bool {
    forall|i: int, j: int| 0 <= i < j < q.len() ==> entry_ge(#[trigger] q[i], #[trigger] q[j])
}

/// Whether some row of `q` carries this id.
pub open spec fn id_in(q: Seq<EntryView>, id: u64) -> bool {
    exists|i: int| 0 <= i < q.len() && (#[trigger] q[i]).id == id
}

/// The ids of the rows, in order.
pub open spec fn ids_of(q: Seq<EntryView>) -> Seq<u64> {
    q.map_values(|e: EntryView| e.id)
}

/// Whether `x` is similar to one of the kept survivors.
pub open spec fn spec_is_dup<S: Similarity>(s: &S, x: EntryView, kept: Seq<EntryView>) -> bool {
    exists|i: int| 0 <= i < kept.len() && s.sim(x.address, (#[trigger] kept[i]).address)
}

/// The survivors of a pack taken in the given order: a row is kept exactly
/// when it is dissimilar to every row kept before it.
pub open spec fn spec_kept<S: Similarity>(s: &S, q: Seq<EntryView>) -> Seq<EntryView>
    decreases q.len(),
{
    if q.len() == 0 {
        Seq::empty()
    } else {
        let prev = spec_kept(s, q.drop_last());
        if spec_is_dup(s, q.last(), prev) {
            prev
        } else {
            prev.push(q.last())
        }
    }
}

/// The rows of a pack marked for deletion, in order.
pub open spec fn spec_deleted<S: Similarity>(s: &S, q: Seq<EntryView>) -> Seq<EntryView>
    decreases q.len(),
{
    if q.len() == 0 {
        Seq::empty()
    } else {
        let prev = spec_deleted(s, q.drop_last());
        if spec_is_dup(s, q.last(), spec_kept(s, q.drop_last())) {
            prev.push(q.last())
        } else {
            prev
        }
    }
}

/// Every survivor is a row of the pack.
pub proof fn lemma_kept_subset<S: Similarity>(s: &S, q: Seq<EntryView>)
    ensures
        forall|x: EntryView| #[trigger] spec_kept(s, q).contains(x) ==> q.contains(x),
    decreases q.len(),
{
    if q.len() > 0 {
        lemma_kept_subset(s, q.drop_last());
        let prev = spec_kept(s, q.drop_last());
        assert forall|x: EntryView| #[trigger] spec_kept(s, q).contains(x) implies q.contains(
            x,
        ) by {
            if prev.contains(x) {
                assert(q.drop_last().contains(x));
                let i = choose|i: int| 0 <= i < q.drop_last().len() && q.drop_last()[i] == x;
                assert(q[i] == x);
            } else {
                let k = spec_kept(s, q);
                let i = choose|i: int| 0 <= i < k.len() && k[i] == x;
                assert(!spec_is_dup(s, q.last(), prev));
                assert(k == prev.push(q.last()));
                if i < prev.len() {
                    assert(prev[i] == x);
                } else {
                    assert(x == q.last());
                    assert(q[q.len() - 1] == x);
                }
            }
        }
    }
}

/// Every deleted row is a row of the pack.
pub proof fn lemma_deleted_subset<S: Similarity>(s: &S, q: Seq<EntryView>)
    ensures
        forall|x: EntryView| #[trigger] spec_deleted(s, q).contains(x) ==> q.contains(x),
    decreases q.len(),
{
    if q.len() > 0 {
        lemma_deleted_subset(s, q.drop_last());
        let prev = spec_deleted(s, q.drop_last());
        assert forall|x: EntryView| #[trigger] spec_deleted(s, q).contains(x) implies q.contains(
            x,
        ) by {
            let d = spec_deleted(s, q);
            let i = choose|i: int| 0 <= i < d.len() && d[i] == x;
            if spec_is_dup(s, q.last(), spec_kept(s, q.drop_last())) {
                if i < prev.len() {
                    assert(prev[i] == x);
                    assert(prev.contains(x));
                    assert(q.drop_last().contains(x));
                    let m = choose|m: int| 0 <= m < q.drop_last().len() && q.drop_last()[m] == x;
                    assert(q[m] == x);
                } else {
                    assert(x == q.last());
                    assert(q[q.len() - 1] == x);
                }
            } else {
                assert(prev[i] == x);
                assert(prev.contains(x));
                assert(q.drop_last().contains(x));
                let m = choose|m: int| 0 <= m < q.drop_last().len() && q.drop_last()[m] == x;
                assert(q[m] == x);
            }
        }
    }
}

/// The survivors of a prefix survive the whole pack.
pub proof fn lemma_kept_monotone<S: Similarity>(s: &S, q: Seq<EntryView>)
    requires
        q.len() > 0,
    ensures
        forall|x: EntryView| #[trigger] spec_kept(s, q.drop_last()).contains(x) ==> spec_kept(
            s,
            q,
        ).contains(x),
{
    let prev = spec_kept(s, q.drop_last());
    assert forall|x: EntryView| #[trigger] prev.contains(x) implies spec_kept(s, q).contains(
        x,
    ) by {
        let i = choose|i: int| 0 <= i < prev.len() && prev[i] == x;
        if !spec_is_dup(s, q.last(), prev) {
            assert(spec_kept(s, q)[i] == x);
        }
    }
}

/// No two survivors of one pack are similar: the later one was tested
/// against the earlier one when it was admitted.
pub proof fn lemma_kept_pairwise_dissimilar<S: Similarity>(s: &S, q: Seq<EntryView>)
    ensures
        forall|i: int, j: int|
            0 <= i < j < spec_kept(s, q).len() ==> !s.sim(
                (#[trigger] spec_kept(s, q)[j]).address,
                (#[trigger] spec_kept(s, q)[i]).address,
            ),
    decreases q.len(),
{
    if q.len() > 0 {
        lemma_kept_pairwise_dissimilar(s, q.drop_last());
        let prev = spec_kept(s, q.drop_last());
        let k = spec_kept(s, q);
        if !spec_is_dup(s, q.last(), prev) {
            assert forall|i: int, j: int| 0 <= i < j < k.len() implies !s.sim(
                (#[trigger] k[j]).address,
                (#[trigger] k[i]).address,
            ) by {
                if j == k.len() - 1 {
                    assert(k[j] == q.last());
                    assert(k[i] == prev[i]);
                    if s.sim(q.last().address, prev[i].address) {
                        assert(spec_is_dup(s, q.last(), prev));
                    }
                } else {
                    assert(k[i] == prev[i] && k[j] == prev[j]);
                }
            }
        }
    }
}

/// Every deleted row has a surviving witness in its pack: a survivor it is
/// similar to, of strictly higher priority.
pub proof fn lemma_deleted_has_better<S: Similarity>(s: &S, q: Seq<EntryView>)
    requires
        sorted_desc(q),
        distinct_ids(q),
    ensures
        forall|d: EntryView|
            #[trigger] spec_deleted(s, q).contains(d) ==> exists|k: EntryView|
                #[trigger] spec_kept(s, q).contains(k) && s.sim(d.address, k.address) && entry_gt(
                    k,
                    d,
                ),
    decreases q.len(),
{
    if q.len() > 0 {
        let dl = q.drop_last();
        assert(sorted_desc(dl) && distinct_ids(dl)) by {
            assert(forall|i: int| 0 <= i < dl.len() ==> dl[i] == q[i]);
        }
        lemma_deleted_has_better(s, dl);
        lemma_kept_monotone(s, q);
        lemma_kept_subset(s, dl);
        let prevk = spec_kept(s, dl);
        assert forall|d: EntryView| #[trigger] spec_deleted(s, q).contains(d) implies exists|
            k: EntryView,
        |
            #[trigger] spec_kept(s, q).contains(k) && s.sim(d.address, k.address) && entry_gt(
                k,
                d,
            ) by {
            let del = spec_deleted(s, q);
            let i = choose|i: int| 0 <= i < del.len() && del[i] == d;
            let last_dup = spec_is_dup(s, q.last(), prevk);
            if last_dup && i == del.len() - 1 && d == q.last() {
                // the last row was deleted: its witness is the kept row it
                // matched, which stands strictly earlier in the sorted pack
                let m = choose|m: int|
                    0 <= m < prevk.len() && s.sim(q.last().address, (#[trigger] prevk[m]).address);
                let k = prevk[m];
                assert(prevk.contains(k));
                assert(dl.contains(k));
                let n = choose|n: int| 0 <= n < dl.len() && dl[n] == k;
                assert(q[n] == k);
                assert(entry_ge(q[n], q[q.len() - 1]));
                assert(q[n].id != q[q.len() - 1].id);
                assert(spec_kept(s, q).contains(k));
                assert(s.sim(d.address, k.address) && entry_gt(k, d));
            } else {
                // the row was deleted in the prefix: its witness carries over
                assert(spec_deleted(s, dl).contains(d)) by {
                    if last_dup {
                        assert(del == spec_deleted(s, dl).push(q.last()));
                        if i < del.len() - 1 {
                            assert(spec_deleted(s, dl)[i] == d);
                        } else {
                            assert(d == q.last());
                        }
                    } else {
                        assert(del == spec_deleted(s, dl));
                        assert(spec_deleted(s, dl)[i] == d);
                    }
                }
                let k = choose|k: EntryView|
                    #[trigger] spec_kept(s, dl).contains(k) && s.sim(d.address, k.address)
                        && entry_gt(k, d);
                assert(spec_kept(s, q).contains(k));
            }
        }
    }
}

/// A pack whose rows are pairwise dissimilar loses nothing: collision
/// resolution keeps every row.
pub proof fn lemma_dissimilar_deletes_nothing<S: Similarity>(s: &S, q: Seq<EntryView>)
    requires
        forall|i: int, j: int|
            0 <= i < q.len() && 0 <= j < q.len() && i != j ==> !s.sim(
                (#[trigger] q[i]).address,
                (#[trigger] q[j]).address,
            ),
    ensures
        spec_deleted(s, q) == Seq::<EntryView>::empty(),
        spec_kept(s, q) == q,
    decreases q.len(),
{
    if q.len() > 0 {
        let dl = q.drop_last();
        assert(forall|i: int| 0 <= i < dl.len() ==> dl[i] == q[i]);
        lemma_dissimilar_deletes_nothing(s, dl);
        lemma_kept_subset(s, dl);
        let prev = spec_kept(s, dl);
        assert(!spec_is_dup(s, q.last(), prev)) by {
            if spec_is_dup(s, q.last(), prev) {
                let m = choose|m: int|
                    0 <= m < prev.len() && s.sim(q.last().address, (#[trigger] prev[m]).address);
                assert(dl.contains(prev[m]));
                let n = choose|n: int| 0 <= n < dl.len() && dl[n] == prev[m];
                assert(s.sim(q[q.len() - 1].address, q[n].address));
            }
        }
        assert(spec_kept(s, q) == prev.push(q.last()));
        assert(spec_kept(s, q) =~= q);
    }
}

/// A deleted row of a prefix stays deleted.
pub proof fn lemma_deleted_monotone<S: Similarity>(s: &S, q: Seq<EntryView>)
    requires
        q.len() > 0,
    ensures
        forall|x: EntryView| #[trigger] spec_deleted(s, q.drop_last()).contains(x) ==> spec_deleted(
            s,
            q,
        ).contains(x),
{
    let prev = spec_deleted(s, q.drop_last());
    assert forall|x: EntryView| #[trigger] prev.contains(x) implies spec_deleted(s, q).contains(
        x,
    ) by {
        let i = choose|i: int| 0 <= i < prev.len() && prev[i] == x;
        if spec_is_dup(s, q.last(), spec_kept(s, q.drop_last())) {
            assert(spec_deleted(s, q)[i] == x);
        }
    }
}

/// Every row of a pack is either kept or deleted.
pub proof fn lemma_kept_or_deleted<S: Similarity>(s: &S, q: Seq<EntryView>)
    ensures
        forall|m: int|
            0 <= m < q.len() ==> spec_kept(s, q).contains(#[trigger] q[m]) || spec_deleted(
                s,
                q,
            ).contains(q[m]),
    decreases q.len(),
{
    if q.len() > 0 {
        let dl = q.drop_last();
        lemma_kept_or_deleted(s, dl);
        lemma_kept_monotone(s, q);
        lemma_deleted_monotone(s, q);
        assert forall|m: int| 0 <= m < q.len() implies spec_kept(s, q).contains(#[trigger] q[m])
            || spec_deleted(s, q).contains(q[m]) by {
            if m < q.len() - 1 {
                assert(dl[m] == q[m]);
                assert(spec_kept(s, dl).contains(q[m]) || spec_deleted(s, dl).contains(q[m]));
            } else {
                let prevk = spec_kept(s, dl);
                if spec_is_dup(s, q.last(), prevk) {
                    let d = spec_deleted(s, q);
                    assert(d[d.len() - 1] == q.last());
                    assert(d.contains(q[m]));
                } else {
                    let k = spec_kept(s, q);
                    assert(k[k.len() - 1] == q.last());
                    assert(k.contains(q[m]));
                }
            }
        }
    }
}

/// A value at two positions occurs at least twice in the multiset.
proof fn lemma_two_indices_count_ge2<A>(sq: Seq<A>, i: int, j: int)
    requires
        0 <= i < j < sq.len(),
        sq[i] == sq[j],
    ensures
        sq.to_multiset().count(sq[i]) >= 2,
{
    broadcast use vstd::seq_lib::group_to_multiset_ensures;
    broadcast use vstd::multiset::group_multiset_axioms;

    let r = sq.remove(i);
    assert(r.to_multiset() == sq.to_multiset().remove(sq[i]));
    assert(r[j - 1] == sq[j]);
    assert(r.contains(sq[i]));
    assert(r.to_multiset().count(sq[i]) > 0);
}

/// A value occurring at least twice in the multiset has two positions.
proof fn lemma_count_ge2_two_indices<A>(sq: Seq<A>, x: A)
    requires
        sq.to_multiset().count(x) >= 2,
    ensures
        exists|i: int, j: int|
            0 <= i < j < sq.len() && (#[trigger] sq[i]) == x && (#[trigger] sq[j]) == x,
{
    broadcast use vstd::seq_lib::group_to_multiset_ensures;
    broadcast use vstd::multiset::group_multiset_axioms;

    assert(sq.contains(x));
    let i = choose|i: int| 0 <= i < sq.len() && sq[i] == x;
    let r = sq.remove(i);
    assert(r.to_multiset() == sq.to_multiset().remove(sq[i]));
    assert(r.to_multiset().count(x) >= 1);
    assert(r.contains(x));
    let m = choose|m: int| 0 <= m < r.len() && r[m] == x;
    if m < i {
        assert(sq[m] == x);
        assert(0 <= m < i < sq.len() && sq[m] == x && sq[i] == x);
    } else {
        assert(sq[m + 1] == x);
        assert(0 <= i < m + 1 < sq.len() && sq[i] == x && sq[m + 1] == x);
    }
}

/// Two sorted sequences with the same distinct ids and id-determined rows
/// are equal.
pub proof fn lemma_sorted_distinct_unique(q1: Seq<EntryView>, q2: Seq<EntryView>)
    requires
        sorted_desc(q1),
        sorted_desc(q2),
        distinct_ids(q1),
        distinct_ids(q2),
        forall|id: u64| id_in(q1, id) <==> id_in(q2, id),
        forall|i: int, j: int|
            0 <= i < q1.len() && 0 <= j < q2.len() && (#[trigger] q1[i]).id == (
            #[trigger] q2[j]).id ==> q1[i] == q2[j],
    ensures
        q1 == q2,
    decreases q1.len(),
{
    if q1.len() == 0 {
        if q2.len() > 0 {
            assert(id_in(q2, q2[0].id));
            assert(id_in(q1, q2[0].id));
        }
        assert(q1 =~= q2);
    } else {
        assert(id_in(q1, q1[0].id));
        assert(id_in(q2, q1[0].id));
        let j = choose|j: int| 0 <= j < q2.len() && (#[trigger] q2[j]).id == q1[0].id;
        assert(q2[j] == q1[0]);
        assert(id_in(q2, q2[0].id));
        assert(id_in(q1, q2[0].id));
        let i = choose|i: int| 0 <= i < q1.len() && (#[trigger] q1[i]).id == q2[0].id;
        assert(q1[i] == q2[0]);
        // both heads dominate, so they are the same row
        assert(q2[0] == q1[0]) by {
            if j > 0 {
                assert(entry_ge(q2[0], q2[j]));
            }
            if i > 0 {
                assert(entry_ge(q1[0], q1[i]));
            }
            if q2[0].id != q1[0].id {
                assert(entry_ge(q2[0], q1[0]) && entry_ge(q1[0], q2[0]));
                assert(q1[0].id == q2[0].id);
            } else {
                assert(q1[0] == q2[0]);
            }
        }
        let t1 = q1.drop_first();
        let t2 = q2.drop_first();
        assert(forall|m: int| 0 <= m < t1.len() ==> t1[m] == q1[m + 1]);
        assert(forall|m: int| 0 <= m < t2.len() ==> t2[m] == q2[m + 1]);
        assert forall|id: u64| id_in(t1, id) implies id_in(t2, id) by {
            let m = choose|m: int| 0 <= m < t1.len() && (#[trigger] t1[m]).id == id;
            assert(q1[m + 1].id == id);
            assert(id_in(q1, id));
            assert(id_in(q2, id));
            let n = choose|n: int| 0 <= n < q2.len() && (#[trigger] q2[n]).id == id;
            assert(id != q1[0].id);
            assert(n != 0);
            assert(t2[n - 1].id == id);
        }
        assert forall|id: u64| id_in(t2, id) implies id_in(t1, id) by {
            let m = choose|m: int| 0 <= m < t2.len() && (#[trigger] t2[m]).id == id;
            assert(q2[m + 1].id == id);
            assert(id_in(q2, id));
            assert(id_in(q1, id));
            let n = choose|n: int| 0 <= n < q1.len() && (#[trigger] q1[n]).id == id;
            assert(id != q2[0].id);
            assert(n != 0);
            assert(t1[n - 1].id == id);
        }
        lemma_sorted_distinct_unique(t1, t2);
        assert(q1.len() == q2.len());
        assert forall|m: int| 0 <= m < q1.len() implies q1[m] == q2[m] by {
            if m > 0 {
                assert(t1[m - 1] == q1[m]);
                assert(t2[m - 1] == q2[m]);
            }
        }
        assert(q1 =~= q2);
    }
}

/// Decides survivor priority.
fn entry_ge_exec(a: &HashEntry, b: &HashEntry) -> (r: bool)
    ensures
        r == entry_ge(a@, b@),
{
    a.rank > b.rank || (a.rank == b.rank && a.id >= b.id)
}

/// Sorts a pack into survivor priority order, best first.
fn sort_pack(v: &mut Vec<HashEntry>)
    ensures
        final(v)@.to_multiset() == old(v)@.to_multiset(),
        final(v)@.len() == old(v)@.len(),
        sorted_desc(entry_views(final(v)@)),
{
    broadcast use vstd::seq_lib::group_to_multiset_ensures;
    broadcast use vstd::multiset::group_multiset_axioms;

    let mut i: usize = 1;
    while i < v.len()
        invariant
            1 <= i,
            v@.to_multiset() == old(v)@.to_multiset(),
            v@.len() == old(v)@.len(),
            forall|x: int, y: int|
                0 <= x < y < i && y < v@.len() ==> entry_ge(
                    (#[trigger] v@[x])@,
                    (#[trigger] v@[y])@,
                ),
        decreases v@.len() - i,
    {
        let ghost w = v@;
        let x = v.remove(i);
        proof {
            assert(x == w[i as int]);
        }
        let mut j: usize = i;
        while j > 0 && !entry_ge_exec(&v[j - 1], &x)
            invariant
                j <= i < w.len(),
                v@ == w.remove(i as int),
                x == w[i as int],
                forall|m: int| j <= m < i ==> !entry_ge((#[trigger] v@[m])@, x@),
            decreases j,
        {
            j -= 1;
        }
        proof {
            assert forall|m: int| 0 <= m < j implies entry_ge((#[trigger] v@[m])@, x@) by {
                if j > 0 {
                    assert(entry_ge(v@[j - 1]@, x@));
                    if m < j - 1 {
                        assert(entry_ge(v@[m]@, v@[j - 1]@));
                    }
                }
            }
        }
        v.insert(j, x);
        proof {
            broadcast use vstd::seq_lib::group_to_multiset_ensures;
            broadcast use vstd::multiset::group_multiset_axioms;

            let u = v@;
            let r = w.remove(i as int);
            assert(u == r.insert(j as int, x));
            assert(w.contains(x)) by {
                assert(w[i as int] == x);
            }
            assert(r.to_multiset() == w.to_multiset().remove(x));
            assert(u.to_multiset() == w.to_multiset().remove(x).insert(x));
            assert(w.to_multiset().count(x) > 0);
            assert(u.to_multiset() =~= w.to_multiset());
            assert forall|a: int, b: int|
                0 <= a < b < i + 1 && b < u.len() implies entry_ge(
                (#[trigger] u[a])@,
                (#[trigger] u[b])@,
            ) by {
                if a < j && b == j {
                } else if a < j && b > j {
                    assert(u[a] == r[a] && u[b] == r[b - 1]);
                } else if a == j && b > j {
                    assert(u[b] == r[b - 1]);
                    if b - 1 < i {
                        assert(!entry_ge(r[b - 1]@, x@));
                    }
                } else if a > j && b > j {
                    assert(u[a] == r[a - 1] && u[b] == r[b - 1]);
                }
            }
        }
        i += 1;
    }
    proof {
        if v@.len() > 0 {
        }
    }
}

/// The ids of a pack with one more row.
proof fn lemma_ids_of_push(q: Seq<EntryView>, e: EntryView)
    ensures
        ids_of(q.push(e)) =~= ids_of(q).push(e.id),
{
    assert forall|m: int| 0 <= m < q.len() + 1 implies ids_of(q.push(e))[m] == ids_of(q).push(
        e.id,
    )[m] by {
        if m < q.len() {
            assert(q.push(e)[m] == q[m]);
        } else {
            assert(q.push(e)[m] == e);
        }
    }
}

/// Resolves a pack already in survivor priority order: walks the rows,
/// keeps a row when it is dissimilar to every kept survivor, and returns
/// the ids of the rows marked for deletion.
fn resolve_sorted<S: Similarity>(pack: &Vec<HashEntry>, s: &S) -> (r: Vec<u64>)
    requires
        sorted_desc(entry_views(pack@)),
    ensures
        r@ == ids_of(spec_deleted(s, entry_views(pack@))),
{
    let ghost q = entry_views(pack@);
    let mut kept_idx: Vec<usize> = Vec::new();
    let mut dels: Vec<u64> = Vec::new();
    let n = pack.len();
    let mut i: usize = 0;
    proof {
        assert(q.take(0) =~= Seq::<EntryView>::empty());
        assert(ids_of(Seq::<EntryView>::empty()) =~= Seq::<u64>::empty());
    }
    while i < n
        invariant
            q == entry_views(pack@),
            i <= n,
            n == pack@.len(),
            kept_idx@.len() == spec_kept(s, q.take(i as int)).len(),
            forall|m: int|
                0 <= m < kept_idx@.len() ==> (#[trigger] kept_idx@[m]) < i && pack@[kept_idx@[
                    m
                ] as int]@ == spec_kept(s, q.take(i as int))[m],
            dels@ == ids_of(spec_deleted(s, q.take(i as int))),
        decreases n - i,
    {
        let ghost qi = q.take(i as int);
        let ghost kept_now = spec_kept(s, qi);
        let mut found = false;
        let mut m: usize = 0;
        let klen = kept_idx.len();
        while m < klen
            invariant
                q == entry_views(pack@),
                i < n,
                n == pack@.len(),
                m <= klen,
                klen == kept_idx@.len(),
                qi == q.take(i as int),
                kept_now == spec_kept(s, qi),
                kept_idx@.len() == kept_now.len(),
                forall|t: int|
                    0 <= t < kept_idx@.len() ==> (#[trigger] kept_idx@[t]) < i && pack@[kept_idx@[
                        t
                    ] as int]@ == kept_now[t],
                !found ==> forall|t: int|
                    0 <= t < m ==> !s.sim(q[i as int].address, (#[trigger] kept_now[t]).address),
                found ==> spec_is_dup(s, q[i as int], kept_now),
            decreases klen - m,
        {
            let ki = kept_idx[m];
            if s.is_duplicate(&pack[i].address, &pack[ki].address) {
                proof {
                    assert(pack@[ki as int]@ == kept_now[m as int]);
                    assert(q[i as int].address == pack@[i as int]@.address);
                    assert(s.sim(q[i as int].address, kept_now[m as int].address));
                }
                found = true;
            }
            m += 1;
        }
        proof {
            assert(found == spec_is_dup(s, q[i as int], kept_now));
            assert(q.take(i as int + 1).drop_last() =~= qi);
            assert(q.take(i as int + 1).last() == q[i as int]);
        }
        if found {
            let d = pack[i].id;
            proof {
                assert(d == q[i as int].id);
                assert(spec_deleted(s, q.take(i as int + 1)) == spec_deleted(s, qi).push(
                    q[i as int],
                ));
                lemma_ids_of_push(spec_deleted(s, qi), q[i as int]);
            }
            dels.push(d);
        } else {
            kept_idx.push(i);
            proof {
                assert(spec_kept(s, q.take(i as int + 1)) == kept_now.push(q[i as int]));
                assert(pack@[i as int]@ == q[i as int]);
                assert forall|t: int| 0 <= t < kept_idx@.len() implies (#[trigger] kept_idx@[t]) < i
                    + 1 && pack@[kept_idx@[t] as int]@ == spec_kept(s, q.take(i as int + 1))[t] by {
                    if t < kept_idx@.len() - 1 {
                        assert(kept_idx@[t] == kept_idx@.drop_last()[t]);
                        assert(spec_kept(s, q.take(i as int + 1))[t] == kept_now[t]);
                    } else {
                        assert(kept_idx@[t] == i);
                    }
                }
            }
        }
        i += 1;
    }
    proof {
        assert(q.take(n as int) =~= q);
    }
    dels
}

/// `p` is `q` in survivor priority order: the same rows, sorted, with
/// pairwise distinct ids.
pub open spec fn is_sorted_perm(q: Seq<EntryView>, p: Seq<EntryView>) -> bool {
    &&& p.len() == q.len()
    &&& sorted_desc(p)
    &&& distinct_ids(p)
    &&& forall|id: u64| #[trigger] id_in(p, id) ==> id_in(q, id)
    &&& forall|id: u64| #[trigger] id_in(q, id) ==> id_in(p, id)
    &&& forall|i: int| 0 <= i < p.len() ==> q.contains(#[trigger] p[i])
}

/// Resolves one pack: sorts it into survivor priority order and walks it,
/// comparing each row only against the survivors kept so far, and returns
/// the ids to delete. A pack larger than `MAX_PACK_LEN` is skipped whole:
/// nothing is deleted from it.
pub fn resolve_pack<S: Similarity>(pack: Vec<HashEntry>, s: &S) -> (r: Vec<u64>)
    requires
        distinct_ids(entry_views(pack@)),
    ensures
        exists|p: Seq<EntryView>| #[trigger] is_sorted_perm(entry_views(pack@), p),
        forall|p: Seq<EntryView>|
            #[trigger] is_sorted_perm(entry_views(pack@), p) ==> r@ == (if entry_views(
                pack@,
            ).len() > MAX_PACK_LEN {
                Seq::<u64>::empty()
            } else {
                ids_of(spec_deleted(s, p))
            }),
{
    broadcast use vstd::seq_lib::group_to_multiset_ensures;
    broadcast use vstd::multiset::group_multiset_axioms;

    let ghost q = entry_views(pack@);
    let mut work = pack;
    sort_pack(&mut work);
    let ghost sq = entry_views(work@);
    proof {
        // the sorted rows are the pack's rows: membership transfers through
        // the multiset, and the ids stay pairwise distinct
        assert forall|e: HashEntry| work@.contains(e) implies pack@.contains(e) by {
            assert(work@.to_multiset().count(e) > 0);
        }
        assert forall|i: int| 0 <= i < sq.len() implies q.contains(#[trigger] sq[i]) by {
            assert(work@.contains(work@[i]));
            assert(pack@.contains(work@[i]));
            let m = choose|m: int| 0 <= m < pack@.len() && pack@[m] == work@[i];
            assert(q[m] == sq[i]);
        }
        assert forall|id: u64| #[trigger] id_in(sq, id) implies id_in(q, id) by {
            let i = choose|i: int| 0 <= i < sq.len() && (#[trigger] sq[i]).id == id;
            assert(q.contains(sq[i]));
            let m = choose|m: int| 0 <= m < q.len() && q[m] == sq[i];
        }
        assert forall|id: u64| #[trigger] id_in(q, id) implies id_in(sq, id) by {
            let i = choose|i: int| 0 <= i < q.len() && (#[trigger] q[i]).id == id;
            assert(pack@.contains(pack@[i]));
            assert(pack@.to_multiset().count(pack@[i]) > 0);
            assert(work@.contains(pack@[i]));
            let m = choose|m: int| 0 <= m < work@.len() && work@[m] == pack@[i];
            assert(sq[m].id == id);
        }
        assert(distinct_ids(sq)) by {
            assert forall|i: int, j: int| 0 <= i < j < sq.len() implies (#[trigger] sq[i]).id != (
            #[trigger] sq[j]).id by {
                if sq[i].id == sq[j].id {
                    let e1 = work@[i];
                    let e2 = work@[j];
                    if e1 == e2 {
                        lemma_two_indices_count_ge2(work@, i, j);
                        assert(pack@.to_multiset().count(e1) >= 2);
                        lemma_count_ge2_two_indices(pack@, e1);
                        let (a, b): (int, int) = choose|a: int, b: int|
                            0 <= a < b < pack@.len() && (#[trigger] pack@[a]) == e1 && (
                            #[trigger] pack@[b]) == e1;
                        assert(q[a].id == q[b].id);
                    } else {
                        assert(pack@.contains(e1) && pack@.contains(e2)) by {
                            assert(work@.to_multiset().count(e1) > 0);
                            assert(work@.to_multiset().count(e2) > 0);
                        }
                        let a = choose|a: int| 0 <= a < pack@.len() && pack@[a] == e1;
                        let b = choose|b: int| 0 <= b < pack@.len() && pack@[b] == e2;
                        assert(q[a].id == q[b].id);
                        assert(a != b);
                        if a < b {
                        } else {
                        }
                    }
                }
            }
        }
        assert(is_sorted_perm(q, sq));
    }
    let r = if work.len() > MAX_PACK_LEN {
        Vec::new()
    } else {
        resolve_sorted(&work, s)
    };
    proof {
        assert forall|p: Seq<EntryView>| #[trigger] is_sorted_perm(q, p) implies r@ == (if q.len()
            > MAX_PACK_LEN {
            Seq::<u64>::empty()
        } else {
            ids_of(spec_deleted(s, p))
        }) by {
            assert forall|i: int, j: int|
                0 <= i < p.len() && 0 <= j < sq.len() && (#[trigger] p[i]).id == (
                #[trigger] sq[j]).id implies p[i] == sq[j] by {
                assert(q.contains(p[i]));
                assert(q.contains(sq[j]));
                let a = choose|a: int| 0 <= a < q.len() && q[a] == p[i];
                let b = choose|b: int| 0 <= b < q.len() && q[b] == sq[j];
                if a != b {
                    if a < b {
                    } else {
                    }
                    assert(false);
                }
            }
            assert forall|id: u64| id_in(p, id) implies id_in(sq, id) by {
                assert(id_in(q, id));
            }
            assert forall|id: u64| id_in(sq, id) implies id_in(p, id) by {
                assert(id_in(q, id));
            }
            lemma_sorted_distinct_unique(p, sq);
            assert(p == sq);
        }
    }
    r
}

/// What the sorted scan established, at the specification level: the scan
/// rows are exactly the `(id, hash)` rows of the store, each joined to its
/// stored address, ordered by hash, pairwise distinct.
pub open spec fn scan_ok(st: Store, q: Seq<EntryView>) -> bool {
    &&& forall|id: u64, h: u64|
        #[trigger] st.hash_pairs().contains((id, h)) ==> exists|m: int|
            0 <= m < q.len() && (#[trigger] q[m]).id == id && q[m].hash == h
    &&& forall|m: int|
        0 <= m < q.len() ==> st.hash_pairs().contains(((#[trigger] q[m]).id, q[m].hash))
    &&& forall|m: int|
        0 <= m < q.len() ==> st.spec_has_record((#[trigger] q[m]).id, q[m].rank, q[m].address)
    &&& forall|x: int, y: int|
        0 <= x < y < q.len() ==> (#[trigger] q[x]).hash <= (#[trigger] q[y]).hash
    &&& forall|x: int, y: int|
        0 <= x < y < q.len() ==> ((#[trigger] q[x]).id, q[x].hash) != ((#[trigger] q[y]).id, q[
            y
        ].hash)
}

/// The pack of a fingerprint: its rows carry exactly the store's ids hashed
/// to `h`, joined to their stored addresses, in survivor priority order.
pub open spec fn is_pack_of(st: Store, h: u64, p: Seq<EntryView>) -> bool {
    &&& sorted_desc(p)
    &&& distinct_ids(p)
    &&& forall|i: int| 0 <= i < p.len() ==> (#[trigger] p[i]).hash == h
    &&& forall|i: int|
        0 <= i < p.len() ==> st.spec_has_record((#[trigger] p[i]).id, p[i].rank, p[i].address)
    &&& forall|id: u64| #[trigger] id_in(p, id) ==> st.hash_pairs().contains((id, h))
    &&& forall|id: u64| #[trigger] st.hash_pairs().contains((id, h)) ==> id_in(p, id)
}

/// The pack of a fingerprint; for a well-formed store it is unique.
pub open spec fn spec_pack(st: Store, h: u64) -> Seq<EntryView> {
    choose|p: Seq<EntryView>| is_pack_of(st, h, p)
}

/// The ids a pack deletes: none at all when the pack is oversized.
pub open spec fn spec_pack_deleted_ids<S: Similarity>(s: &S, p: Seq<EntryView>) -> Set<u64> {
    if p.len() > MAX_PACK_LEN {
        Set::empty()
    } else {
        ids_of(spec_deleted(s, p)).to_set()
    }
}

/// Whether every row with this fingerprint lies below position `i` of the
/// scan.
pub open spec fn run_complete(q: Seq<EntryView>, i: int, h: u64) -> bool {
    forall|m: int| 0 <= m < q.len() && (#[trigger] q[m]).hash == h ==> m < i
}

/// The ids deleted by the packs whose scan rows all lie below position `i`.
pub open spec fn spec_marks_from<S: Similarity>(
    s: &S,
    st: Store,
    q: Seq<EntryView>,
    i: int,
) -> Set<u64> {
    Set::new(
        |id: u64|
            exists|h: u64|
                #[trigger] spec_pack_deleted_ids(s, spec_pack(st, h)).contains(id)
                    && run_complete(q, i, h),
    )
}

/// The ids that collision resolution deletes from a store: the union, over
/// every fingerprint, of what that fingerprint's pack deletes.
pub open spec fn spec_duplicate_ids<S: Similarity>(s: &S, st: Store) -> Set<u64> {
    Set::new(
        |id: u64|
            exists|h: u64| #[trigger] spec_pack_deleted_ids(s, spec_pack(st, h)).contains(id),
    )
}

/// A well-formed store has at most one pack per fingerprint.
pub proof fn lemma_pack_unique(st: Store, h: u64, p1: Seq<EntryView>, p2: Seq<EntryView>)
    requires
        st.wf(),
        is_pack_of(st, h, p1),
        is_pack_of(st, h, p2),
    ensures
        p1 == p2,
{
    assert forall|i: int, j: int|
        0 <= i < p1.len() && 0 <= j < p2.len() && (#[trigger] p1[i]).id == (
        #[trigger] p2[j]).id implies p1[i] == p2[j] by {
        let a = choose|a: int|
            0 <= a < st.addresses@.len() && (#[trigger] st.addresses@[a]).id == p1[i].id
                && st.addresses@[a].rank == p1[i].rank && st.addresses@[a].address@ == p1[i].address;
        let b = choose|b: int|
            0 <= b < st.addresses@.len() && (#[trigger] st.addresses@[b]).id == p2[j].id
                && st.addresses@[b].rank == p2[j].rank && st.addresses@[b].address@ == p2[j].address;
        assert(a == b) by {
            if a < b {
                assert(st.addresses@[a].id < st.addresses@[b].id);
            } else if b < a {
                assert(st.addresses@[b].id < st.addresses@[a].id);
            }
        }
        assert(p1[i].hash == h && p2[j].hash == h);
    }
    assert forall|id: u64| id_in(p1, id) implies id_in(p2, id) by {
        assert(st.hash_pairs().contains((id, h)));
    }
    assert forall|id: u64| id_in(p2, id) implies id_in(p1, id) by {
        assert(st.hash_pairs().contains((id, h)));
    }
    lemma_sorted_distinct_unique(p1, p2);
}

/// A pack witness pins the chosen pack down.
pub proof fn lemma_pack_is(st: Store, h: u64, p: Seq<EntryView>)
    requires
        st.wf(),
        is_pack_of(st, h, p),
    ensures
        spec_pack(st, h) == p,
{
    assert(is_pack_of(st, h, spec_pack(st, h)));
    lemma_pack_unique(st, h, spec_pack(st, h), p);
}

/// The views of a pack with one more row.
proof fn lemma_views_push(v: Seq<HashEntry>, e: HashEntry)
    ensures
        entry_views(v.push(e)) =~= entry_views(v).push(e@),
{
    assert forall|m: int| 0 <= m < v.len() + 1 implies entry_views(v.push(e))[m] == entry_views(
        v,
    ).push(e@)[m] by {
        if m < v.len() {
            assert(v.push(e)[m] == v[m]);
        } else {
            assert(v.push(e)[m] == e);
        }
    }
}

/// Marks every address that is a near-duplicate of a higher-priority one:
/// scans the fingerprints in order, resolves each pack, and records the ids
/// to delete. The tables themselves are untouched; only deletion marks are
/// added — exactly the ids that the packs of the store delete.
#[verifier::rlimit(100)]
#[verifier::spinoff_prover]
pub fn compute_duplicates<S: Similarity>(store: &mut Store, s: &S)
    requires
        old(store).wf(),
        old(store).construction_tables,
    ensures
        final(store).wf(),
        final(store).addresses == old(store).addresses,
        final(store).hashes == old(store).hashes,
        final(store).next_id == old(store).next_id,
        final(store).construction_tables,
        final(store).marks() =~= old(store).marks().union(spec_duplicate_ids(s, *old(store))),
{
    let ghost st0 = *store;
    let entries = store.sorted_hash_entries();
    let ghost q = entry_views(entries@);
    proof {
        broadcast use vstd::seq_lib::group_to_multiset_ensures;
        broadcast use vstd::multiset::group_multiset_axioms;

        // the scan rows are the store's hash rows, joined and ordered
        assert forall|id: u64, h: u64| #[trigger] st0.hash_pairs().contains((id, h)) implies exists|
            m: int,
        | 0 <= m < q.len() && (#[trigger] q[m]).id == id && q[m].hash == h by {
            assert(st0.hashes@.contains((id, h)));
            assert(st0.hashes@.to_multiset().count((id, h)) > 0);
            assert(entry_pairs(entries@).to_multiset().count((id, h)) > 0);
            assert(entry_pairs(entries@).contains((id, h)));
            let m = choose|m: int|
                0 <= m < entry_pairs(entries@).len() && entry_pairs(entries@)[m] == (id, h);
            assert(q[m].id == id && q[m].hash == h);
        }
        assert forall|m: int| 0 <= m < q.len() implies st0.hash_pairs().contains(
            ((#[trigger] q[m]).id, q[m].hash),
        ) by {
            assert(entry_pairs(entries@)[m] == (entries@[m].id, entries@[m].hash));
            assert(entry_pairs(entries@).contains((q[m].id, q[m].hash)));
            assert(entry_pairs(entries@).to_multiset().count((q[m].id, q[m].hash)) > 0);
            assert(st0.hashes@.to_multiset().count((q[m].id, q[m].hash)) > 0);
            assert(st0.hashes@.contains((q[m].id, q[m].hash)));
        }
        assert forall|x: int, y: int| 0 <= x < y < q.len() implies ((#[trigger] q[x]).id, q[
            x
        ].hash) != ((#[trigger] q[y]).id, q[y].hash) by {
            assert(entry_pairs(entries@)[x] == (q[x].id, q[x].hash));
            assert(entry_pairs(entries@)[y] == (q[y].id, q[y].hash));
        }
        assert(scan_ok(st0, q));
        // before any run is processed, nothing is marked
        assert forall|id: u64| !spec_marks_from(s, st0, q, 0).contains(id) by {
            if spec_marks_from(s, st0, q, 0).contains(id) {
                let h = choose|h: u64|
                    #[trigger] spec_pack_deleted_ids(s, spec_pack(st0, h)).contains(id)
                        && run_complete(q, 0, h);
                assert(is_pack_of(st0, h, Seq::<EntryView>::empty())) by {
                    assert forall|x: u64| #[trigger] st0.hash_pairs().contains(
                        (x, h),
                    ) implies id_in(Seq::<EntryView>::empty(), x) by {
                        let m = choose|m: int|
                            0 <= m < q.len() && (#[trigger] q[m]).id == x && q[m].hash == h;
                        assert(m < 0);
                    }
                }
                lemma_pack_is(st0, h, Seq::<EntryView>::empty());
                assert(spec_deleted(s, Seq::<EntryView>::empty()) == Seq::<EntryView>::empty());
                assert(!spec_pack_deleted_ids(s, spec_pack(st0, h)).contains(id));
            }
        }
        assert(store.marks() =~= old(store).marks().union(spec_marks_from(s, st0, q, 0)));
    }
    let n = entries.len();
    let mut i: usize = 0;
    while i < n
        invariant
            q == entry_views(entries@),
            st0 == *old(store),
            st0.wf(),
            st0.construction_tables,
            scan_ok(st0, q),
            n == entries@.len(),
            i <= n,
            i == n || forall|m: int| 0 <= m < i ==> (#[trigger] q[m]).hash < q[i as int].hash,
            store.wf(),
            store.addresses == old(store).addresses,
            store.hashes == old(store).hashes,
            store.next_id == old(store).next_id,
            store.construction_tables,
            store.marks() =~= old(store).marks().union(spec_marks_from(s, st0, q, i as int)),
        decreases n - i,
    {
        let h = entries[i].hash;
        proof {
            assert(h == q[i as int].hash);
        }
        let mut j: usize = i + 1;
        while j < n && entries[j].hash == h
            invariant
                q == entry_views(entries@),
                n == entries@.len(),
                i < j <= n,
                h == q[i as int].hash,
                forall|m: int| i <= m < j ==> (#[trigger] q[m]).hash == h,
            decreases n - j,
        {
            j += 1;
        }
        proof {
            // the run ends strictly: every later row hashes higher
            if j < n {
                assert(q[j as int].hash != h);
                assert(q[j as int - 1].hash <= q[j as int].hash);
                assert(q[j as int].hash > h);
            }
        }
        let ghost marks_before = store.marks();
        let ghost run = q.subrange(i as int, j as int);
        if j - i >= 2 {
            let mut pack: Vec<HashEntry> = Vec::new();
            let mut t: usize = i;
            proof {
                assert(entry_views(pack@) =~= q.subrange(i as int, i as int));
            }
            while t < j
                invariant
                    q == entry_views(entries@),
                    n == entries@.len(),
                    i <= t <= j <= n,
                    entry_views(pack@) =~= q.subrange(i as int, t as int),
                decreases j - t,
            {
                let ghost pack0 = pack@;
                let e = entries[t].clone();
                proof {
                    assert(e@ == q[t as int]);
                }
                pack.push(e);
                proof {
                    lemma_views_push(pack0, entries@[t as int]);
                    assert(entry_views(pack@) =~= entry_views(pack0).push(q[t as int]));
                    assert(entry_views(pack@) =~= q.subrange(i as int, t as int + 1));
                }
                t += 1;
            }
            proof {
                assert(entry_views(pack@) =~= run);
                // within a run the hash is shared, so the ids are distinct
                assert forall|x: int, y: int| 0 <= x < y < run.len() implies (
                #[trigger] run[x]).id != (#[trigger] run[y]).id by {
                    assert(run[x] == q[i as int + x] && run[y] == q[i as int + y]);
                    assert(q[i as int + x].hash == h && q[i as int + y].hash == h);
                    assert((q[i as int + x].id, q[i as int + x].hash) != (q[i as int + y].id, q[
                        i as int + y
                    ].hash));
                }
                assert(distinct_ids(entry_views(pack@)));
            }
            let dels = resolve_pack(pack, s);
            proof {
                let p0 = choose|p: Seq<EntryView>| #[trigger] is_sorted_perm(run, p);
                assert(is_sorted_perm(run, p0));
                assert(is_pack_of(st0, h, p0)) by {
                    assert forall|m: int| 0 <= m < p0.len() implies (#[trigger] p0[m]).hash == h
                        && st0.spec_has_record(p0[m].id, p0[m].rank, p0[m].address) by {
                        assert(run.contains(p0[m]));
                        let c = choose|c: int| 0 <= c < run.len() && run[c] == p0[m];
                        assert(run[c] == q[i as int + c]);
                    }
                    assert forall|id: u64| #[trigger] id_in(p0, id) implies st0
                        .hash_pairs().contains((id, h)) by {
                        let m = choose|m: int| 0 <= m < p0.len() && (#[trigger] p0[m]).id == id;
                        assert(run.contains(p0[m]));
                        let c = choose|c: int| 0 <= c < run.len() && run[c] == p0[m];
                        assert(q[i as int + c].id == id && q[i as int + c].hash == h);
                    }
                    assert forall|id: u64| #[trigger] st0.hash_pairs().contains(
                        (id, h),
                    ) implies id_in(p0, id) by {
                        let m = choose|m: int|
                            0 <= m < q.len() && (#[trigger] q[m]).id == id && q[m].hash == h;
                        assert(i as int <= m < j as int) by {
                            if m < i as int {
                                assert(q[m].hash < h);
                            }
                            if m >= j as int {
                                if j < n {
                                    assert(q[j as int].hash <= q[m].hash);
                                }
                            }
                        }
                        assert(run[m - i as int].id == id);
                        assert(id_in(run, id));
                    }
                }
                lemma_pack_is(st0, h, p0);
                assert(dels@.to_set() =~= spec_pack_deleted_ids(s, spec_pack(st0, h))) by {
                    if run.len() > MAX_PACK_LEN {
                        assert(dels@ == Seq::<u64>::empty());
                        assert(p0.len() > MAX_PACK_LEN);
                        assert forall|x: u64| !dels@.to_set().contains(x) by {
                            if dels@.contains(x) {
                                let c = choose|c: int| 0 <= c < dels@.len() && dels@[c] == x;
                            }
                        }
                    } else {
                        assert(dels@ == ids_of(spec_deleted(s, p0)));
                        assert(p0.len() <= MAX_PACK_LEN);
                    }
                }
            }
            let ghost base = store.marks();
            let dn = dels.len();
            let mut t2: usize = 0;
            proof {
                assert(dels@.take(0) =~= Seq::<u64>::empty());
                assert(base.union(dels@.take(0).to_set()) =~= base);
            }
            while t2 < dn
                invariant
                    t2 <= dn,
                    dn == dels@.len(),
                    store.wf(),
                    store.construction_tables,
                    store.addresses == old(store).addresses,
                    store.hashes == old(store).hashes,
                    store.next_id == old(store).next_id,
                    store.marks() =~= base.union(dels@.take(t2 as int).to_set()),
                decreases dn - t2,
            {
                let d = dels[t2];
                store.insert_to_delete(d);
                proof {
                    assert(dels@.take(t2 as int + 1) =~= dels@.take(t2 as int).push(d));
                    assert forall|x: u64| dels@.take(t2 as int + 1).contains(x) implies dels@.take(
                        t2 as int,
                    ).contains(x) || x == d by {
                        let c = choose|c: int|
                            0 <= c < t2 as int + 1 && (#[trigger] dels@.take(t2 as int + 1)[c])
                                == x;
                        if c < t2 as int {
                            assert(dels@.take(t2 as int)[c] == x);
                        }
                    }
                    assert forall|x: u64| dels@.take(t2 as int).contains(x) implies dels@.take(
                        t2 as int + 1,
                    ).contains(x) by {
                        let c = choose|c: int| 0 <= c < t2 as int && dels@.take(t2 as int)[c] == x;
                        assert(dels@.take(t2 as int + 1)[c] == x);
                    }
                    assert(dels@.take(t2 as int + 1).contains(d)) by {
                        assert(dels@.take(t2 as int + 1)[t2 as int] == d);
                    }
                    assert(store.marks() =~= base.union(dels@.take(t2 as int + 1).to_set()));
                }
                t2 += 1;
            }
            proof {
                assert(dels@.take(dn as int) =~= dels@);
                assert(store.marks() =~= marks_before.union(
                    spec_pack_deleted_ids(s, spec_pack(st0, h)),
                ));
            }
        } else {
            proof {
                // a lone row forms a pack of one, which deletes nothing
                let p1 = seq![q[i as int]];
                assert(is_pack_of(st0, h, p1)) by {
                    assert(p1[0] == q[i as int]);
                    assert forall|id: u64| #[trigger] st0.hash_pairs().contains(
                        (id, h),
                    ) implies id_in(p1, id) by {
                        let m = choose|m: int|
                            0 <= m < q.len() && (#[trigger] q[m]).id == id && q[m].hash == h;
                        assert(i as int <= m < j as int) by {
                            if m < i as int {
                                assert(q[m].hash < h);
                            }
                            if m >= j as int {
                                if j < n {
                                    assert(q[j as int].hash <= q[m].hash);
                                }
                            }
                        }
                        assert(m == i as int);
                        assert(p1[0].id == id);
                    }
                    assert forall|id: u64| #[trigger] id_in(p1, id) implies st0
                        .hash_pairs().contains((id, h)) by {
                        let m = choose|m: int| 0 <= m < p1.len() && (#[trigger] p1[m]).id == id;
                        assert(p1[0].id == id);
                        assert(q[i as int].id == id && q[i as int].hash == h);
                    }
                }
                lemma_pack_is(st0, h, p1);
                assert(p1.drop_last() =~= Seq::<EntryView>::empty());
                assert(spec_deleted(s, p1) == Seq::<EntryView>::empty()) by {
                    assert(spec_deleted(s, p1.drop_last()) == Seq::<EntryView>::empty());
                    assert(spec_kept(s, p1.drop_last()) == Seq::<EntryView>::empty());
                    assert(!spec_is_dup(s, p1.last(), Seq::<EntryView>::empty()));
                }
                assert(spec_pack_deleted_ids(s, spec_pack(st0, h)) =~= Set::<u64>::empty()) by {
                    assert forall|x: u64| !ids_of(spec_deleted(s, p1)).to_set().contains(x) by {
                        if ids_of(spec_deleted(s, p1)).contains(x) {
                            let c = choose|c: int|
                                0 <= c < ids_of(spec_deleted(s, p1)).len() && ids_of(
                                    spec_deleted(s, p1),
                                )[c] == x;
                        }
                    }
                }
                assert(store.marks() =~= marks_before.union(
                    spec_pack_deleted_ids(s, spec_pack(st0, h)),
                ));
            }
        }
        proof {
            // every fingerprint finished below j is either finished below i
            // or is this run's
            assert forall|x: u64| spec_marks_from(s, st0, q, j as int).contains(
                x,
            ) implies store.marks().contains(x) by {
                let h2 = choose|h2: u64|
                    #[trigger] spec_pack_deleted_ids(s, spec_pack(st0, h2)).contains(x)
                        && run_complete(q, j as int, h2);
                if run_complete(q, i as int, h2) {
                    assert(spec_marks_from(s, st0, q, i as int).contains(x));
                    assert(marks_before.contains(x));
                } else {
                    let m = choose|m: int|
                        0 <= m < q.len() && (#[trigger] q[m]).hash == h2 && m >= i as int;
                    assert(m < j as int);
                    assert(h2 == h);
                }
            }
            assert forall|x: u64| store.marks().contains(x) implies old(
                store,
            ).marks().contains(x) || spec_marks_from(s, st0, q, j as int).contains(x) by {
                if marks_before.contains(x) {
                    if !old(store).marks().contains(x) {
                        assert(spec_marks_from(s, st0, q, i as int).contains(x));
                        let h2 = choose|h2: u64|
                            #[trigger] spec_pack_deleted_ids(s, spec_pack(st0, h2)).contains(x)
                                && run_complete(q, i as int, h2);
                        assert(run_complete(q, j as int, h2));
                    }
                } else {
                    assert(spec_pack_deleted_ids(s, spec_pack(st0, h)).contains(x));
                    assert(run_complete(q, j as int, h)) by {
                        assert forall|m: int|
                            0 <= m < q.len() && (#[trigger] q[m]).hash == h implies m
                            < j as int by {
                            if m >= j as int {
                                if j < n {
                                    assert(q[j as int].hash <= q[m].hash);
                                }
                            }
                        }
                    }
                }
            }
            assert(store.marks() =~= old(store).marks().union(
                spec_marks_from(s, st0, q, j as int),
            ));
            // the next run starts strictly above everything before it
            if j < n {
                assert forall|m: int| 0 <= m < j implies (#[trigger] q[m]).hash < q[
                    j as int
                ].hash by {
                    if m < i as int {
                        assert(q[m].hash < h);
                    } else {
                        assert(q[m].hash == h);
                    }
                }
            }
        }
        i = j;
    }
    proof {
        assert(spec_marks_from(s, st0, q, n as int) =~= spec_duplicate_ids(s, st0)) by {
            assert forall|x: u64| spec_duplicate_ids(s, st0).contains(x) implies spec_marks_from(
                s,
                st0,
                q,
                n as int,
            ).contains(x) by {
                let h = choose|h: u64|
                    #[trigger] spec_pack_deleted_ids(s, spec_pack(st0, h)).contains(x);
                assert(run_complete(q, n as int, h));
            }
        }
    }
}

/// The deduplication guarantee: two rows of one pack that both escape the
/// deletion marks are dissimilar. Two stored addresses that ever shared a
/// fingerprint and both survive are therefore never similar — deduplication
/// is exact, modulo the hash function's recall.
pub proof fn lemma_survivors_dissimilar<S: Similarity>(
    s: &S,
    st: Store,
    h: u64,
    p: Seq<EntryView>,
    i: int,
    j: int,
)
    requires
        st.wf(),
        is_pack_of(st, h, p),
        p.len() <= MAX_PACK_LEN,
        0 <= i < p.len(),
        0 <= j < p.len(),
        i != j,
        !spec_duplicate_ids(s, st).contains(p[i].id),
        !spec_duplicate_ids(s, st).contains(p[j].id),
    ensures
        !s.sim(p[i].address, p[j].address),
{
    lemma_pack_is(st, h, p);
    lemma_kept_or_deleted(s, p);
    let k = spec_kept(s, p);
    assert forall|m: int|
        0 <= m < p.len() && !spec_duplicate_ids(s, st).contains(
            (#[trigger] p[m]).id,
        ) implies k.contains(p[m]) by {
        if spec_deleted(s, p).contains(p[m]) {
            let d = spec_deleted(s, p);
            let c = choose|c: int| 0 <= c < d.len() && d[c] == p[m];
            assert(ids_of(d)[c] == p[m].id);
            assert(ids_of(d).contains(p[m].id));
            assert(ids_of(d).to_set().contains(p[m].id));
            assert(spec_pack_deleted_ids(s, spec_pack(st, h)).contains(p[m].id));
            assert(spec_duplicate_ids(s, st).contains(p[m].id));
        }
    }
    assert(k.contains(p[i]) && k.contains(p[j]));
    let ki = choose|ki: int| 0 <= ki < k.len() && k[ki] == p[i];
    let kj = choose|kj: int| 0 <= kj < k.len() && k[kj] == p[j];
    assert(p[i].id != p[j].id);
    assert(ki != kj);
    lemma_kept_pairwise_dissimilar(s, p);
    if ki < kj {
        assert(!s.sim(k[kj].address, k[ki].address));
        s.lemma_symmetric(p[i].address, p[j].address);
    } else {
        assert(!s.sim(k[ki].address, k[kj].address));
    }
}

/// Collision resolution is idempotent: once the deletions of a round are
/// applied, the pack of any fingerprint holds only survivors, which are
/// pairwise dissimilar, so a second round deletes nothing from it.
pub proof fn lemma_second_resolution_deletes_nothing<S: Similarity>(
    s: &S,
    st0: Store,
    st1: Store,
    h: u64,
    p0: Seq<EntryView>,
    p1: Seq<EntryView>,
)
    requires
        st0.wf(),
        st1.wf(),
        is_pack_of(st0, h, p0),
        is_pack_of(st1, h, p1),
        p0.len() <= MAX_PACK_LEN,
        // the first round's deletions were applied: a hash row of the new
        // store was a hash row of the old one whose id was not marked
        forall|id: u64|
            #[trigger] st1.hash_pairs().contains((id, h)) ==> st0.hash_pairs().contains((id, h))
                && !spec_duplicate_ids(s, st0).contains(id),
        // surviving rows kept their records
        forall|id: u64, r: u64, a: crate::address::AddressView|
            #[trigger] st1.spec_has_record(id, r, a) ==> st0.spec_has_record(id, r, a),
    ensures
        spec_deleted(s, p1) == Seq::<EntryView>::empty(),
        spec_kept(s, p1) == p1,
{
    lemma_pack_is(st0, h, p0);
    // every row of the new pack is a surviving row of the old pack
    assert forall|m: int| 0 <= m < p1.len() implies p0.contains(#[trigger] p1[m])
        && !spec_duplicate_ids(s, st0).contains(p1[m].id) by {
        assert(id_in(p1, p1[m].id));
        assert(st1.hash_pairs().contains((p1[m].id, h)));
        assert(st0.hash_pairs().contains((p1[m].id, h)));
        assert(id_in(p0, p1[m].id));
        let n = choose|n: int| 0 <= n < p0.len() && (#[trigger] p0[n]).id == p1[m].id;
        // the shared id pins the row down, as the store keys records by id
        assert(p0[n] == p1[m]) by {
            assert(st1.spec_has_record(p1[m].id, p1[m].rank, p1[m].address));
            assert(st0.spec_has_record(p1[m].id, p1[m].rank, p1[m].address));
            assert(st0.spec_has_record(p0[n].id, p0[n].rank, p0[n].address));
            let a = choose|a: int|
                0 <= a < st0.addresses@.len() && (#[trigger] st0.addresses@[a]).id == p1[m].id
                    && st0.addresses@[a].rank == p1[m].rank && st0.addresses@[a].address@ == p1[
                    m
                ].address;
            let b = choose|b: int|
                0 <= b < st0.addresses@.len() && (#[trigger] st0.addresses@[b]).id == p0[n].id
                    && st0.addresses@[b].rank == p0[n].rank && st0.addresses@[b].address@ == p0[
                    n
                ].address;
            assert(a == b) by {
                if a < b {
                    assert(st0.addresses@[a].id < st0.addresses@[b].id);
                } else if b < a {
                    assert(st0.addresses@[b].id < st0.addresses@[a].id);
                }
            }
        }
        assert(p0.contains(p1[m]));
    }
    // survivors of the old pack are pairwise dissimilar
    lemma_kept_or_deleted(s, p0);
    lemma_kept_pairwise_dissimilar(s, p0);
    let k = spec_kept(s, p0);
    assert forall|x: int, y: int|
        0 <= x < p1.len() && 0 <= y < p1.len() && x != y implies !s.sim(
        (#[trigger] p1[x]).address,
        (#[trigger] p1[y]).address,
    ) by {
        let nx = choose|nx: int| 0 <= nx < p0.len() && (#[trigger] p0[nx]) == p1[x];
        let ny = choose|ny: int| 0 <= ny < p0.len() && (#[trigger] p0[ny]) == p1[y];
        assert(k.contains(p1[x])) by {
            if spec_deleted(s, p0).contains(p0[nx]) {
                let d = spec_deleted(s, p0);
                let c = choose|c: int| 0 <= c < d.len() && d[c] == p0[nx];
                assert(ids_of(d)[c] == p1[x].id);
                assert(ids_of(d).contains(p1[x].id));
                assert(ids_of(d).to_set().contains(p1[x].id));
                assert(spec_pack_deleted_ids(s, spec_pack(st0, h)).contains(p1[x].id));
                assert(spec_duplicate_ids(s, st0).contains(p1[x].id));
            }
        }
        assert(k.contains(p1[y])) by {
            if spec_deleted(s, p0).contains(p0[ny]) {
                let d = spec_deleted(s, p0);
                let c = choose|c: int| 0 <= c < d.len() && d[c] == p0[ny];
                assert(ids_of(d)[c] == p1[y].id);
                assert(ids_of(d).contains(p1[y].id));
                assert(ids_of(d).to_set().contains(p1[y].id));
                assert(spec_pack_deleted_ids(s, spec_pack(st0, h)).contains(p1[y].id));
                assert(spec_duplicate_ids(s, st0).contains(p1[y].id));
            }
        }
        let kx = choose|kx: int| 0 <= kx < k.len() && k[kx] == p1[x];
        let ky = choose|ky: int| 0 <= ky < k.len() && k[ky] == p1[y];
        assert(p1[x].id != p1[y].id);
        assert(kx != ky);
        if kx < ky {
            assert(!s.sim(k[ky].address, k[kx].address));
            s.lemma_symmetric(p1[x].address, p1[y].address);
        } else {
            assert(!s.sim(k[kx].address, k[ky].address));
        }
    }
    lemma_dissimilar_deletes_nothing(s, p1);
}

/// Whether a fingerprint's pack exists in a store.
pub open spec fn spec_has_pack(st: Store, h: u64) -> bool {
    exists|p: Seq<EntryView>| #[trigger] is_pack_of(st, h, p)
}

/// Whether a fingerprint's pack exists and is within the resolvable bound.
pub open spec fn spec_has_pack_within(st: Store, h: u64) -> bool {
    exists|p: Seq<EntryView>| #[trigger] is_pack_of(st, h, p) && p.len() <= MAX_PACK_LEN
}

/// Collision resolution is idempotent over the whole store: once one round's
/// deletions are applied, a second round deletes nothing at all, so the
/// addresses after the second round's apply equal those after the first.
/// The pack hypotheses say what the sorted scan materializes on each run:
/// every fingerprint has its pack, and the first store's packs were within
/// the resolvable bound (an oversized pack is skipped whole, and if other
/// packs shrink it below the bound, a later round may resolve it — the
/// boundary is a performance heuristic, not a guarantee).
pub proof fn lemma_resolution_idempotent<S: Similarity>(s: &S, st0: Store, st1: Store)
    requires
        st0.wf(),
        st1.wf(),
        // the first round's deletions were applied
        forall|id: u64, h: u64|
            #[trigger] st1.hash_pairs().contains((id, h)) ==> st0.hash_pairs().contains((id, h))
                && !spec_duplicate_ids(s, st0).contains(id),
        forall|id: u64, r: u64, a: crate::address::AddressView|
            #[trigger] st1.spec_has_record(id, r, a) ==> st0.spec_has_record(id, r, a),
        // every fingerprint's pack exists, and the old ones are resolvable
        forall|h: u64| #[trigger] spec_has_pack_within(st0, h),
        forall|h: u64| #[trigger] spec_has_pack(st1, h),
    ensures
        spec_duplicate_ids(s, st1) =~= Set::<u64>::empty(),
{
    assert forall|id: u64| !spec_duplicate_ids(s, st1).contains(id) by {
        if spec_duplicate_ids(s, st1).contains(id) {
            let h = choose|h: u64|
                #[trigger] spec_pack_deleted_ids(s, spec_pack(st1, h)).contains(id);
            assert(spec_has_pack_within(st0, h));
            assert(spec_has_pack(st1, h));
            let p0 = choose|p: Seq<EntryView>|
                #[trigger] is_pack_of(st0, h, p) && p.len() <= MAX_PACK_LEN;
            let p1 = choose|p: Seq<EntryView>| #[trigger] is_pack_of(st1, h, p);
            lemma_pack_is(st1, h, p1);
            lemma_second_resolution_deletes_nothing(s, st0, st1, h, p0, p1);
            assert(spec_pack_deleted_ids(s, p1) =~= Set::<u64>::empty()) by {
                if p1.len() <= MAX_PACK_LEN {
                    assert(ids_of(spec_deleted(s, p1)).len() == 0);
                    assert forall|x: u64| !ids_of(spec_deleted(s, p1)).to_set().contains(x) by {
                        if ids_of(spec_deleted(s, p1)).contains(x) {
                            let c = choose|c: int|
                                0 <= c < ids_of(spec_deleted(s, p1)).len() && ids_of(
                                    spec_deleted(s, p1),
                                )[c] == x;
                        }
                    }
                }
            }
        }
    }
}

} // verus!
