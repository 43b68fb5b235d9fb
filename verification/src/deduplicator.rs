//! The deduplicator: owns the store, hands out an inserter for ingestion,
//! resolves collisions, applies the deletions and emits the dump.

use vstd::prelude::*;

use crate::address::{spec_accepts, Address, AddressView};
use crate::dedupe::{compute_duplicates, spec_duplicate_ids};
use crate::similarity::{AddressHasher, Ranker, Similarity};
use crate::store::{spec_unmarked_addrs, spec_unmarked_hashes, Store, StoredAddress};

verus! {

/// The deduplicator over one store.
pub struct Deduplicator {
    pub store: Store,
}

/// The `(id, hash)` rows that one accepted address contributes.
pub open spec fn spec_pairs_for(id: u64, hs: Seq<u64>) -> Set<(u64, u64)> {
    Set::new(|p: (u64, u64)| p.0 == id && hs.contains(p.1))
}

/// The views of the addresses of a stream that pass the acceptance filter.
pub open spec fn spec_accepted_views(inputs: Seq<Address>) -> Set<AddressView> {
    Set::new(
        |a: AddressView|
            exists|i: int| 0 <= i < inputs.len() && (#[trigger] inputs[i])@ == a && spec_accepts(a),
    )
}

/// The address rows after ingesting a stream, front first: each accepted
/// address lands with the next id and its rank; rejected ones leave no row.
pub open spec fn spec_ingest_addrs<R: Ranker>(
    r: &R,
    addrs: Seq<StoredAddress>,
    next_id: u64,
    inputs: Seq<Address>,
) -> Seq<StoredAddress>
    decreases inputs.len(),
{
    if inputs.len() == 0 {
        addrs
    } else {
        let a = inputs.first();
        if spec_accepts(a@) {
            spec_ingest_addrs(
                r,
                addrs.push(StoredAddress { id: next_id, rank: r.rank_spec(a@), address: a }),
                (next_id + 1) as u64,
                inputs.drop_first(),
            )
        } else {
            spec_ingest_addrs(r, addrs, next_id, inputs.drop_first())
        }
    }
}

/// The hash rows after ingesting a stream: each accepted address contributes
/// one row per fingerprint, keyed by its assigned id.
pub open spec fn spec_ingest_pairs<H: AddressHasher>(
    h: &H,
    pairs: Set<(u64, u64)>,
    next_id: u64,
    inputs: Seq<Address>,
) -> Set<(u64, u64)>
    decreases inputs.len(),
{
    if inputs.len() == 0 {
        pairs
    } else {
        let a = inputs.first();
        if spec_accepts(a@) {
            spec_ingest_pairs(
                h,
                pairs.union(spec_pairs_for(next_id, h.hash_spec(a@))),
                (next_id + 1) as u64,
                inputs.drop_first(),
            )
        } else {
            spec_ingest_pairs(h, pairs, next_id, inputs.drop_first())
        }
    }
}

/// Ingestion is order-independent: two streams that hold the same addresses,
/// in whatever order, leave the same set of accepted address field tuples.
pub proof fn lemma_insertion_order_independent(xs: Seq<Address>, ys: Seq<Address>)
    requires
        xs.to_multiset() == ys.to_multiset(),
    ensures
        spec_accepted_views(xs) =~= spec_accepted_views(ys),
{
    broadcast use vstd::seq_lib::group_to_multiset_ensures;
    broadcast use vstd::multiset::group_multiset_axioms;

    assert forall|a: AddressView| spec_accepted_views(xs).contains(a) implies spec_accepted_views(
        ys,
    ).contains(a) by {
        let i = choose|i: int| 0 <= i < xs.len() && (#[trigger] xs[i])@ == a && spec_accepts(a);
        assert(xs.contains(xs[i]));
        assert(xs.to_multiset().count(xs[i]) > 0);
        assert(ys.contains(xs[i]));
        let j = choose|j: int| 0 <= j < ys.len() && ys[j] == xs[i];
    }
    assert forall|a: AddressView| spec_accepted_views(ys).contains(a) implies spec_accepted_views(
        xs,
    ).contains(a) by {
        let i = choose|i: int| 0 <= i < ys.len() && (#[trigger] ys[i])@ == a && spec_accepts(a);
        assert(ys.contains(ys[i]));
        assert(ys.to_multiset().count(ys[i]) > 0);
        assert(xs.contains(ys[i]));
        let j = choose|j: int| 0 <= j < xs.len() && xs[j] == ys[i];
    }
}

impl Deduplicator {
    /// Opens a deduplicator over a fresh store.
    pub fn new() -> (d: Deduplicator)
        ensures
            d.store.wf(),
            d.store.addresses@.len() == 0,
            d.store.hashes@.len() == 0,
            d.store.to_delete@.len() == 0,
            d.store.next_id == 0,
            d.store.construction_tables,
    {
        Deduplicator { store: Store::new() }
    }

    /// Hands the store to an inserter for one ingestion session; the
    /// inserter gives it back when the session ends.
    pub fn get_db_inserter<R: Ranker, H: AddressHasher>(self, ranking: R, hasher: H) -> (ins:
        DbInserter<R, H>)
        ensures
            ins.store == self.store,
            ins.ranker == ranking,
            ins.hasher == hasher,
    {
        DbInserter::new(self, ranking, hasher)
    }

    /// Marks every address that is a near-duplicate of a higher-priority
    /// one: the deletion marks grow by exactly the ids that the packs of
    /// the store delete.
    pub fn compute_duplicates<S: Similarity>(&mut self, s: &S)
        requires
            old(self).store.wf(),
            old(self).store.construction_tables,
        ensures
            final(self).store.wf(),
            final(self).store.addresses == old(self).store.addresses,
            final(self).store.hashes == old(self).store.hashes,
            final(self).store.next_id == old(self).store.next_id,
            final(self).store.construction_tables,
            final(self).store.marks() =~= old(self).store.marks().union(
                spec_duplicate_ids(s, old(self).store),
            ),
    {
        compute_duplicates(&mut self.store, s);
    }

    /// Applies the deletion marks; unless the construction tables are to be
    /// kept, drops them and compacts storage. Afterwards no stored id is
    /// marked, and the marks are gone.
    pub fn apply_and_clean(&mut self, keep_construction_tables: bool)
        requires
            old(self).store.wf(),
            old(self).store.construction_tables,
        ensures
            final(self).store.wf(),
            final(self).store.addresses@ == spec_unmarked_addrs(
                old(self).store.addresses@,
                old(self).store.marks(),
            ),
            final(self).store.id_set() =~= old(self).store.id_set().difference(
                old(self).store.marks(),
            ),
            final(self).store.id_set().disjoint(old(self).store.marks()),
            final(self).store.marks() =~= Set::<u64>::empty(),
            final(self).store.construction_tables == keep_construction_tables,
            keep_construction_tables ==> final(self).store.hashes@ == spec_unmarked_hashes(
                old(self).store.hashes@,
                old(self).store.marks(),
            ),
            !keep_construction_tables ==> final(self).store.hashes@.len() == 0,
    {
        self.store.apply_deletions();
        if !keep_construction_tables {
            self.store.cleanup();
            self.store.vacuum();
        }
    }
}

/// The insertion pipeline, collapsed to its decisions: the acceptance
/// filter, the ranking, the hashing, and the writes they lead to. The
/// concurrency of the real pipeline reorders the stream but changes none of
/// these decisions, and ingestion is order-independent.
pub struct DbInserter<R: Ranker, H: AddressHasher> {
    pub store: Store,
    pub ranker: R,
    pub hasher: H,
}

impl<R: Ranker, H: AddressHasher> DbInserter<R, H> {
    /// Opens an ingestion session over the deduplicator's store.
    pub fn new(d: Deduplicator, ranker: R, hasher: H) -> (ins: DbInserter<R, H>)
        ensures
            ins.store == d.store,
            ins.ranker == ranker,
            ins.hasher == hasher,
    {
        DbInserter { store: d.store, ranker, hasher }
    }

    /// The inserter is usable: its store is well-formed with the
    /// construction tables in place.
    pub open spec fn wf(self) -> bool {
        self.store.wf() && self.store.construction_tables
    }

    /// Ingests one address: rejected ones never reach the store; an
    /// accepted one is ranked, hashed and persisted with its fingerprints.
    pub fn insert(&mut self, address: Address)
        requires
            old(self).wf(),
            old(self).store.next_id < u64::MAX,
        ensures
            final(self).wf(),
            final(self).ranker == old(self).ranker,
            final(self).hasher == old(self).hasher,
            final(self).store.to_delete == old(self).store.to_delete,
            final(self).store.construction_tables,
            !spec_accepts(address@) ==> final(self).store == old(self).store,
            spec_accepts(address@) ==> {
                &&& final(self).store.addresses@ == old(self).store.addresses@.push(
                    (StoredAddress {
                        id: old(self).store.next_id,
                        rank: old(self).ranker.rank_spec(address@),
                        address,
                    }),
                )
                &&& final(self).store.hash_pairs() =~= old(self).store.hash_pairs().union(
                    spec_pairs_for(
                        old(self).store.next_id,
                        old(self).hasher.hash_spec(address@),
                    ),
                )
                &&& final(self).store.next_id == old(self).store.next_id + 1
            },
    {
        if !crate::address::accepts(&address) {
            return ;
        }
        let ghost av = address@;
        let rank = self.ranker.rank(&address);
        let hashes = self.hasher.hash_address(&address);
        let ghost hs = old(self).hasher.hash_spec(av);
        let id = self.store.insert_address(address, rank);
        let ghost addrs1 = self.store.addresses@;
        let n = hashes.len();
        let mut t: usize = 0;
        proof {
            assert(self.store.hash_pairs() =~= old(self).store.hash_pairs().union(
                spec_pairs_for(id, hs.take(0)),
            )) by {
                assert(forall|h: u64| !hs.take(0).contains(h));
            }
        }
        while t < n
            invariant
                t <= n,
                n == hs.len(),
                hashes@ == hs,
                self.store.wf(),
                self.store.construction_tables,
                self.store.id_set().contains(id),
                self.ranker == old(self).ranker,
                self.hasher == old(self).hasher,
                self.store.addresses@ == addrs1,
                self.store.to_delete == old(self).store.to_delete,
                self.store.next_id == old(self).store.next_id + 1,
                self.store.hash_pairs() =~= old(self).store.hash_pairs().union(
                    spec_pairs_for(id, hs.take(t as int)),
                ),
            decreases n - t,
        {
            let h = hashes[t];
            self.store.insert_hash(id, h);
            proof {
                assert forall|p: (u64, u64)| spec_pairs_for(id, hs.take(t as int + 1)).contains(
                    p,
                ) implies spec_pairs_for(id, hs.take(t as int)).contains(p) || p == (id, h) by {
                    let c = choose|c: int|
                        0 <= c < t as int + 1 && (#[trigger] hs.take(t as int + 1)[c]) == p.1;
                    if c < t as int {
                        assert(hs.take(t as int)[c] == p.1);
                    }
                }
                assert forall|p: (u64, u64)| spec_pairs_for(id, hs.take(t as int)).contains(
                    p,
                ) implies spec_pairs_for(id, hs.take(t as int + 1)).contains(p) by {
                    let c = choose|c: int|
                        0 <= c < t as int && (#[trigger] hs.take(t as int)[c]) == p.1;
                    assert(hs.take(t as int + 1)[c] == p.1);
                }
                assert(hs.take(t as int + 1)[t as int] == h);
                assert(spec_pairs_for(id, hs.take(t as int + 1)).contains((id, h)));
                assert(self.store.hash_pairs() =~= old(self).store.hash_pairs().union(
                    spec_pairs_for(id, hs.take(t as int + 1)),
                ));
            }
            t += 1;
        }
        proof {
            assert(hs.take(n as int) =~= hs);
        }
    }

    /// Ingests a whole stream. The set of stored address field tuples grows
    /// by exactly the accepted tuples of the stream — so any reordering of
    /// the stream, as the concurrent pipeline produces, leaves the same set
    /// (`lemma_insertion_order_independent`).
    pub fn insert_all(&mut self, addresses: Vec<Address>)
        requires
            old(self).wf(),
            old(self).store.next_id + addresses@.len() <= u64::MAX,
        ensures
            final(self).wf(),
            final(self).ranker == old(self).ranker,
            final(self).hasher == old(self).hasher,
            final(self).store.addr_views() =~= old(self).store.addr_views().union(
                spec_accepted_views(addresses@),
            ),
            final(self).store.addresses@ == spec_ingest_addrs(
                &old(self).ranker,
                old(self).store.addresses@,
                old(self).store.next_id,
                addresses@,
            ),
            final(self).store.hash_pairs() == spec_ingest_pairs(
                &old(self).hasher,
                old(self).store.hash_pairs(),
                old(self).store.next_id,
                addresses@,
            ),
            final(self).store.to_delete == old(self).store.to_delete,
    {
        let ghost orig = addresses@;
        let mut rest = addresses;
        let ghost i: int = 0;
        proof {
            assert(orig.skip(0) =~= orig);
            assert(self.store.addr_views() =~= old(self).store.addr_views().union(
                spec_accepted_views(orig.take(0)),
            )) by {
                assert(forall|a: AddressView| !spec_accepted_views(orig.take(0)).contains(a));
            }
        }
        while rest.len() > 0
            invariant
                0 <= i <= orig.len(),
                rest@ == orig.skip(i),
                self.wf(),
                self.ranker == old(self).ranker,
                self.hasher == old(self).hasher,
                self.store.next_id <= old(self).store.next_id + i,
                old(self).store.next_id + orig.len() <= u64::MAX,
                self.store.addr_views() =~= old(self).store.addr_views().union(
                    spec_accepted_views(orig.take(i)),
                ),
                self.store.to_delete == old(self).store.to_delete,
                spec_ingest_addrs(&old(self).ranker, self.store.addresses@, self.store.next_id, rest@)
                    == spec_ingest_addrs(
                    &old(self).ranker,
                    old(self).store.addresses@,
                    old(self).store.next_id,
                    orig,
                ),
                spec_ingest_pairs(&old(self).hasher, self.store.hash_pairs(), self.store.next_id, rest@)
                    == spec_ingest_pairs(
                    &old(self).hasher,
                    old(self).store.hash_pairs(),
                    old(self).store.next_id,
                    orig,
                ),
            decreases rest@.len(),
        {
            let a = rest.remove(0);
            proof {
                assert(a == orig.skip(i)[0]);
                assert(a == orig[i]);
                assert(orig.skip(i).remove(0) =~= orig.skip(i + 1));
            }
            let ghost views0 = self.store.addr_views();
            let ghost addrs0 = self.store.addresses@;
            let ghost pairs0 = self.store.hash_pairs();
            let ghost nid0 = self.store.next_id;
            let ghost av = a@;
            let ghost accepted = spec_accepts(av);
            self.insert(a);
            proof {
                // one stream element consumed: the recursion steps once
                assert(orig.skip(i).first() == orig[i]);
                assert(orig.skip(i).drop_first() =~= orig.skip(i + 1));
                if accepted {
                    assert(self.store.hash_pairs() == pairs0.union(
                        spec_pairs_for(nid0, old(self).hasher.hash_spec(av)),
                    ));
                    assert(spec_ingest_addrs(
                        &old(self).ranker,
                        addrs0,
                        nid0,
                        orig.skip(i),
                    ) == spec_ingest_addrs(
                        &old(self).ranker,
                        self.store.addresses@,
                        self.store.next_id,
                        orig.skip(i + 1),
                    ));
                    assert(spec_ingest_pairs(
                        &old(self).hasher,
                        pairs0,
                        nid0,
                        orig.skip(i),
                    ) == spec_ingest_pairs(
                        &old(self).hasher,
                        self.store.hash_pairs(),
                        self.store.next_id,
                        orig.skip(i + 1),
                    ));
                }
                // the stored tuples grew by the accepted tuple, or not at all
                assert(self.store.addr_views() =~= if accepted {
                    views0.insert(av)
                } else {
                    views0
                }) by {
                    if accepted {
                        let post = self.store.addresses@;
                        assert(post.last().address@ == av);
                        assert forall|x: AddressView| self.store.addr_views().contains(
                            x,
                        ) implies views0.insert(av).contains(x) by {
                            let m = choose|m: int|
                                0 <= m < post.len() && (#[trigger] post[m]).address@ == x;
                            if m < post.len() - 1 {
                                assert(views0.contains(x));
                            }
                        }
                        assert forall|x: AddressView| views0.insert(av).contains(x) implies self
                            .store.addr_views().contains(x) by {
                            if x == av {
                                assert(post[post.len() - 1].address@ == x);
                            } else {
                                let m = choose|m: int|
                                    0 <= m < addrs0.len() && (#[trigger] addrs0[m]).address@ == x;
                                assert(post[m] == addrs0[m]);
                            }
                        }
                    }
                }
                // one more stream element accounted for
                assert forall|x: AddressView| spec_accepted_views(orig.take(i + 1)).contains(
                    x,
                ) implies spec_accepted_views(orig.take(i)).contains(x) || (accepted && x
                    == av) by {
                    let m = choose|m: int|
                        0 <= m < i + 1 && (#[trigger] orig.take(i + 1)[m])@ == x && spec_accepts(x);
                    if m < i {
                        assert(orig.take(i)[m]@ == x);
                    }
                }
                assert forall|x: AddressView| spec_accepted_views(orig.take(i)).contains(
                    x,
                ) implies spec_accepted_views(orig.take(i + 1)).contains(x) by {
                    let m = choose|m: int|
                        0 <= m < i && (#[trigger] orig.take(i)[m])@ == x && spec_accepts(x);
                    assert(orig.take(i + 1)[m]@ == x);
                }
                if accepted {
                    assert(orig.take(i + 1)[i]@ == av);
                    assert(spec_accepted_views(orig.take(i + 1)).contains(av));
                }
                assert(self.store.addr_views() =~= old(self).store.addr_views().union(
                    spec_accepted_views(orig.take(i + 1)),
                ));
                i = i + 1;
            }
        }
        proof {
            assert(orig.take(orig.len() as int) =~= orig);
            assert(rest@ =~= orig.skip(orig.len() as int));
            assert(rest@.len() == 0);
        }
    }

    /// Writes are committed when the session ends; nothing to do here.
    pub fn flush(&mut self)
        ensures
            *final(self) == *old(self),
    {
    }

    /// How many distinct city names the store holds.
    pub fn get_nb_cities(&self) -> (r: usize)
        ensures
            r == self.store.cities().len(),
    {
        self.store.count_cities()
    }

    /// How many addresses the store holds.
    pub fn get_nb_addresses(&self) -> (r: usize)
        ensures
            r == self.store.addresses@.len(),
    {
        self.store.count_addresses()
    }

    /// This layer records no per-record errors.
    pub fn get_nb_errors(&self) -> (r: i64)
        ensures
            r == 0,
    {
        0
    }

    /// This layer records no per-record errors, of any kind.
    pub fn get_nb_by_errors_kind(&self) -> (r: Vec<(String, i64)>)
        ensures
            r@.len() == 0,
    {
        Vec::new()
    }

    /// Address lookup is not offered at this layer.
    pub fn get_address(&self, _housenumber: i32, _street: &str) -> (r: Vec<Address>)
        ensures
            r@.len() == 0,
    {
        Vec::new()
    }

    /// Ends the ingestion session: commits and hands the store back.
    pub fn finish(self) -> (d: Deduplicator)
        ensures
            d.store == self.store,
    {
        Deduplicator { store: self.store }
    }
}

} // verus!
