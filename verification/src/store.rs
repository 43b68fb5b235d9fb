//! The durable store, modelled: three tables — `addresses`, `hashes`,
//! `to_delete` — with the transactional backend abstracted away. Every
//! operation states exactly how it changes the tables.

use vstd::prelude::*;

use crate::address::{Address, AddressView};

verus! {

/// One row of the `addresses` table.
pub struct StoredAddress {
    /// The primary key, assigned monotonically on insert.
    pub id: u64,
    /// The rank the caller-supplied ranking function produced on insert.
    pub rank: u64,
    pub address: Address,
}

/// One row of the sorted scan over `hashes` joined to `addresses`.
pub struct HashEntry {
    pub hash: u64,
    pub id: u64,
    pub rank: u64,
    pub address: Address,
}

/// A scan row at the specification level.
pub struct EntryView {
    pub hash: u64,
    pub id: u64,
    pub rank: u64,
    pub address: AddressView,
}

impl View for HashEntry {
    type V = EntryView;

    open spec fn view(&self) -> EntryView {
        EntryView { hash: self.hash, id: self.id, rank: self.rank, address: self.address@ }
    }
}

impl Clone for HashEntry {
    fn clone(&self) -> (r: Self)
        ensures
            r@ == self@,
    {
        HashEntry {
            hash: self.hash,
            id: self.id,
            rank: self.rank,
            address: self.address.clone(),
        }
    }
}

/// The views of a sequence of scan rows.
pub open spec fn entry_views(s: Seq<HashEntry>) -> Seq<EntryView> {
    s.map_values(|e: HashEntry| e@)
}

/// The store: the three tables, the id counter, and whether the auxiliary
/// (construction) tables `hashes` and `to_delete` still exist.
pub struct Store {
    pub addresses: Vec<StoredAddress>,
    pub hashes: Vec<(u64, u64)>,
    pub to_delete: Vec<u64>,
    pub next_id: u64,
    pub construction_tables: bool,
}

impl Store {
    /// The ids of the stored addresses, in insertion order.
    pub open spec fn ids(self) -> Seq<u64> {
        self.addresses@.map_values(|sa: StoredAddress| sa.id)
    }

    /// The set of stored address ids.
    pub open spec fn id_set(self) -> Set<u64> {
        self.ids().to_set()
    }

    /// The contents of the `hashes` table, as a set of `(id, hash)` pairs.
    pub open spec fn hash_pairs(self) -> Set<(u64, u64)> {
        self.hashes@.to_set()
    }

    /// The contents of the `to_delete` table, as a set of ids.
    pub open spec fn marks(self) -> Set<u64> {
        self.to_delete@.to_set()
    }

    /// Whether the store holds a row with this id, rank and address.
    pub open spec fn spec_has_record(self, id: u64, rank: u64, a: AddressView) -> bool {
        exists|i: int|
            0 <= i < self.addresses@.len() && (#[trigger] self.addresses@[i]).id == id
                && self.addresses@[i].rank == rank && self.addresses@[i].address@ == a
    }

    /// The set of stored address field tuples, ids set aside.
    pub open spec fn addr_views(self) -> Set<AddressView> {
        Set::new(
            |a: AddressView|
                exists|i: int|
                    0 <= i < self.addresses@.len() && (#[trigger] self.addresses@[i]).address@
                        == a,
        )
    }

    /// Well-formedness: ids are strictly increasing and below the counter,
    /// hash pairs are unique and reference stored addresses, and deletion
    /// marks are unique.
    pub open spec fn wf(self) -> bool {
        &&& forall|i: int, j: int|
            0 <= i < j < self.addresses@.len() ==> (#[trigger] self.addresses@[i]).id < (
            #[trigger] self.addresses@[j]).id
        &&& forall|i: int|
            0 <= i < self.addresses@.len() ==> (#[trigger] self.addresses@[i]).id < self.next_id
        &&& self.hashes@.no_duplicates()
        &&& forall|i: int|
            0 <= i < self.hashes@.len() ==> self.id_set().contains(
                (#[trigger] self.hashes@[i]).0,
            )
        &&& self.to_delete@.no_duplicates()
    }

    /// Opens a fresh store: every table empty, the schema in place.
    pub fn new() -> (s: Store)
        ensures
            s.wf(),
            s.addresses@.len() == 0,
            s.hashes@.len() == 0,
            s.to_delete@.len() == 0,
            s.next_id == 0,
            s.construction_tables,
    {
        Store {
            addresses: Vec::new(),
            hashes: Vec::new(),
            to_delete: Vec::new(),
            next_id: 0,
            construction_tables: true,
        }
    }

    /// Inserts an address with its rank and returns the assigned id, one
    /// greater than every id assigned before.
    pub fn insert_address(&mut self, address: Address, rank: u64) -> (id: u64)
        requires
            old(self).wf(),
            old(self).next_id < u64::MAX,
        ensures
            final(self).wf(),
            id == old(self).next_id,
            final(self).addresses@ == old(self).addresses@.push(
                (StoredAddress { id, rank, address }),
            ),
            final(self).hashes == old(self).hashes,
            final(self).to_delete == old(self).to_delete,
            final(self).next_id == id + 1,
            final(self).construction_tables == old(self).construction_tables,
            !old(self).id_set().contains(id),
            final(self).id_set() =~= old(self).id_set().insert(id),
    {
        let id = self.next_id;
        self.addresses.push(StoredAddress { id, rank, address });
        self.next_id = id + 1;
        proof {
            let pre = old(self).addresses@;
            let post = self.addresses@;
            assert(self.ids() =~= old(self).ids().push(id));
            assert(!old(self).ids().contains(id));
            assert forall|x: u64| self.id_set().contains(x) implies old(self).id_set().insert(
                id,
            ).contains(x) by {
                let i = choose|i: int| 0 <= i < self.ids().len() && self.ids()[i] == x;
                if i < pre.len() {
                    assert(old(self).ids()[i] == x);
                }
            }
            assert forall|x: u64|
                old(self).id_set().insert(id).contains(x) implies self.id_set().contains(x) by {
                if x == id {
                    assert(self.ids()[pre.len() as int] == id);
                } else {
                    let i = choose|i: int|
                        0 <= i < old(self).ids().len() && old(self).ids()[i] == x;
                    assert(self.ids()[i] == x);
                }
            }
        }
        id
    }

    /// Records a fingerprint for a stored address. Duplicate `(id, hash)`
    /// pairs are silently absorbed, as the unique key demands.
    pub fn insert_hash(&mut self, id: u64, hash: u64)
        requires
            old(self).wf(),
            old(self).id_set().contains(id),
            old(self).construction_tables,
        ensures
            final(self).wf(),
            final(self).hash_pairs() =~= old(self).hash_pairs().insert((id, hash)),
            final(self).addresses == old(self).addresses,
            final(self).to_delete == old(self).to_delete,
            final(self).next_id == old(self).next_id,
            final(self).construction_tables == old(self).construction_tables,
    {
        if !contains_pair(&self.hashes, id, hash) {
            self.hashes.push((id, hash));
            proof {
                assert(self.hashes@.drop_last() =~= old(self).hashes@);
                assert(self.hashes@[old(self).hashes@.len() as int] == (id, hash));
                assert(self.hashes@.contains((id, hash)));
                assert forall|x: (u64, u64)| self.hashes@.contains(x) implies old(
                    self,
                ).hashes@.contains(x) || x == (id, hash) by {
                    let i = choose|i: int| 0 <= i < self.hashes@.len() && self.hashes@[i] == x;
                    if i < old(self).hashes@.len() {
                        assert(old(self).hashes@[i] == x);
                    }
                }
                assert forall|x: (u64, u64)| old(self).hashes@.contains(x) implies self
                    .hashes@.contains(x) by {
                    let i = choose|i: int|
                        0 <= i < old(self).hashes@.len() && old(self).hashes@[i] == x;
                    assert(self.hashes@[i] == x);
                }
            }
        } else {
            proof {
                assert(old(self).hash_pairs().contains((id, hash)));
            }
        }
    }

    /// Marks an address id for deletion. Duplicate marks are silently
    /// absorbed: `to_delete` is a set.
    pub fn insert_to_delete(&mut self, id: u64)
        requires
            old(self).wf(),
            old(self).construction_tables,
        ensures
            final(self).wf(),
            final(self).marks() =~= old(self).marks().insert(id),
            final(self).addresses == old(self).addresses,
            final(self).hashes == old(self).hashes,
            final(self).next_id == old(self).next_id,
            final(self).construction_tables == old(self).construction_tables,
    {
        if !contains_id(&self.to_delete, id) {
            self.to_delete.push(id);
            proof {
                assert(self.to_delete@.drop_last() =~= old(self).to_delete@);
                assert(self.to_delete@[old(self).to_delete@.len() as int] == id);
                assert(self.to_delete@.contains(id));
                assert forall|x: u64| self.to_delete@.contains(x) implies old(
                    self,
                ).to_delete@.contains(x) || x == id by {
                    let i = choose|i: int|
                        0 <= i < self.to_delete@.len() && self.to_delete@[i] == x;
                    if i < old(self).to_delete@.len() {
                        assert(old(self).to_delete@[i] == x);
                    }
                }
                assert forall|x: u64| old(self).to_delete@.contains(x) implies self
                    .to_delete@.contains(x) by {
                    let i = choose|i: int|
                        0 <= i < old(self).to_delete@.len() && old(self).to_delete@[i] == x;
                    assert(self.to_delete@[i] == x);
                }
            }
        }
    }

    /// How many addresses the store holds.
    pub fn count_addresses(&self) -> (r: usize)
        ensures
            r == self.addresses@.len(),
    {
        self.addresses.len()
    }

    /// How many `(id, hash)` rows the `hashes` table holds.
    pub fn count_hashes(&self) -> (r: usize)
        ensures
            r == self.hashes@.len(),
    {
        self.hashes.len()
    }

    /// How many ids are marked for deletion.
    pub fn count_to_delete(&self) -> (r: usize)
        ensures
            r == self.to_delete@.len(),
    {
        self.to_delete.len()
    }
}

/// Filtering keeps exactly the elements that satisfy the predicate.
pub proof fn lemma_filter_contains<A>(s: Seq<A>, pred: spec_fn(A) -> bool)
    ensures
        forall|x: A| #[trigger] s.filter(pred).contains(x) <==> s.contains(x) && pred(x),
    decreases s.len(),
{
    reveal(Seq::filter);
    if s.len() == 0 {
    } else {
        lemma_filter_contains(s.drop_last(), pred);
        let dl = s.drop_last();
        let out = s.filter(pred);
        assert forall|x: A| s.contains(x) implies dl.contains(x) || x == s.last() by {
            let i = choose|i: int| 0 <= i < s.len() && s[i] == x;
            if i < s.len() - 1 {
                assert(dl[i] == x);
            }
        }
        assert forall|x: A| dl.contains(x) implies s.contains(x) by {
            let i = choose|i: int| 0 <= i < dl.len() && dl[i] == x;
            assert(s[i] == x);
        }
        if pred(s.last()) {
            assert(out == dl.filter(pred).push(s.last()));
            assert forall|x: A| out.contains(x) implies dl.filter(pred).contains(x) || x
                == s.last() by {
                let i = choose|i: int| 0 <= i < out.len() && out[i] == x;
                if i < out.len() - 1 {
                    assert(dl.filter(pred)[i] == x);
                }
            }
            assert forall|x: A| dl.filter(pred).contains(x) implies out.contains(x) by {
                let i = choose|i: int| 0 <= i < dl.filter(pred).len() && dl.filter(pred)[i] == x;
                assert(out[i] == x);
            }
            assert(out.contains(s.last())) by {
                assert(out[out.len() - 1] == s.last());
            }
        }
    }
}

/// Filtering keeps a duplicate-free sequence duplicate-free.
pub proof fn lemma_filter_no_duplicates<A>(s: Seq<A>, pred: spec_fn(A) -> bool)
    requires
        s.no_duplicates(),
    ensures
        s.filter(pred).no_duplicates(),
    decreases s.len(),
{
    reveal(Seq::filter);
    if s.len() == 0 {
    } else {
        let dl = s.drop_last();
        assert(dl.no_duplicates());
        lemma_filter_no_duplicates(dl, pred);
        if pred(s.last()) {
            let out = dl.filter(pred).push(s.last());
            assert(!dl.filter(pred).contains(s.last())) by {
                lemma_filter_contains(dl, pred);
                if dl.contains(s.last()) {
                    let i = choose|i: int| 0 <= i < dl.len() && dl[i] == s.last();
                    assert(s[i] == s[s.len() - 1]);
                }
            }
            assert forall|i: int, j: int| 0 <= i < j < out.len() implies out[i] != out[j] by {
                if j == out.len() - 1 {
                    assert(dl.filter(pred).contains(out[i])) by {
                        assert(dl.filter(pred)[i] == out[i]);
                    }
                }
            }
        }
    }
}

/// Filtering keeps a strictly ordered sequence strictly ordered.
pub proof fn lemma_filter_preserves_order<A>(
    s: Seq<A>,
    pred: spec_fn(A) -> bool,
    lt: spec_fn(A, A) -> bool,
)
    requires
        forall|i: int, j: int| 0 <= i < j < s.len() ==> lt(#[trigger] s[i], #[trigger] s[j]),
    ensures
        forall|i: int, j: int|
            0 <= i < j < s.filter(pred).len() ==> lt(
                #[trigger] s.filter(pred)[i],
                #[trigger] s.filter(pred)[j],
            ),
    decreases s.len(),
{
    reveal(Seq::filter);
    if s.len() == 0 {
    } else {
        let dl = s.drop_last();
        lemma_filter_preserves_order(dl, pred, lt);
        let out = s.filter(pred);
        if pred(s.last()) {
            assert forall|i: int, j: int| 0 <= i < j < out.len() implies lt(out[i], out[j]) by {
                if j == out.len() - 1 {
                    assert(out[j] == s.last());
                    assert(dl.filter(pred).contains(out[i])) by {
                        assert(dl.filter(pred)[i] == out[i]);
                    }
                    lemma_filter_contains(dl, pred);
                    let k = choose|k: int| 0 <= k < dl.len() && dl[k] == out[i];
                    assert(s[k] == out[i]);
                    assert(lt(s[k], s[s.len() - 1]));
                } else {
                    assert(dl.filter(pred)[i] == out[i]);
                    assert(dl.filter(pred)[j] == out[j]);
                }
            }
        }
    }
}

/// The address rows whose ids are not marked.
pub open spec fn spec_unmarked_addrs(addrs: Seq<StoredAddress>, marks: Set<u64>) -> Seq<
    StoredAddress,
> {
    addrs.filter(|sa: StoredAddress| !marks.contains(sa.id))
}

/// The hash rows whose ids are not marked.
pub open spec fn spec_unmarked_hashes(hs: Seq<(u64, u64)>, marks: Set<u64>) -> Seq<(u64, u64)> {
    hs.filter(|p: (u64, u64)| !marks.contains(p.0))
}

impl Store {
    /// Applies the deletion marks: every marked id leaves `addresses` and
    /// `hashes`, and `to_delete` is truncated. Afterwards no id is both
    /// stored and marked.
    pub fn apply_deletions(&mut self)
        requires
            old(self).wf(),
            old(self).construction_tables,
        ensures
            final(self).wf(),
            final(self).addresses@ == spec_unmarked_addrs(
                old(self).addresses@,
                old(self).marks(),
            ),
            final(self).hashes@ == spec_unmarked_hashes(old(self).hashes@, old(self).marks()),
            final(self).to_delete@.len() == 0,
            final(self).next_id == old(self).next_id,
            final(self).construction_tables == old(self).construction_tables,
            final(self).id_set() =~= old(self).id_set().difference(old(self).marks()),
            final(self).marks() =~= Set::<u64>::empty(),
            final(self).id_set().disjoint(old(self).marks()),
    {
        let ghost orig = self.addresses@;
        let ghost marks0 = old(self).marks();
        let ghost pred: spec_fn(StoredAddress) -> bool = |sa: StoredAddress| !marks0.contains(sa.id);
        let mut kept: Vec<StoredAddress> = Vec::new();
        let ghost i: int = 0;
        proof {
            reveal(Seq::filter);
            assert(orig.skip(0) =~= orig);
            assert(orig.take(0).filter(pred) =~= Seq::<StoredAddress>::empty());
        }
        while self.addresses.len() > 0
            invariant
                marks0 == old(self).marks(),
                pred == (|sa: StoredAddress| !marks0.contains(sa.id)),
                0 <= i <= orig.len(),
                self.addresses@ == orig.skip(i),
                kept@ == orig.take(i).filter(pred),
                self.to_delete == old(self).to_delete,
                self.hashes == old(self).hashes,
                self.next_id == old(self).next_id,
                self.construction_tables == old(self).construction_tables,
            decreases orig.len() - i,
        {
            let sa = self.addresses.remove(0);
            proof {
                reveal(Seq::filter);
                assert(sa == orig.skip(i)[0]);
                assert(sa == orig[i]);
                assert(orig.skip(i).remove(0) =~= orig.skip(i + 1));
                assert(orig.take(i + 1).drop_last() =~= orig.take(i));
                assert(orig.take(i + 1).last() == orig[i]);
            }
            let marked = contains_id(&self.to_delete, sa.id);
            proof {
                assert(self.to_delete@ == old(self).to_delete@);
                assert(marked == old(self).to_delete@.contains(sa.id));
                assert(old(self).marks().contains(sa.id) == old(self).to_delete@.contains(sa.id));
                assert(pred(sa) == !marked);
            }
            if !marked {
                kept.push(sa);
            }
            proof {
                i = i + 1;
            }
        }
        proof {
            assert(orig.take(orig.len() as int) =~= orig);
        }
        self.addresses = kept;

        let ghost horig = self.hashes@;
        let ghost hpred: spec_fn((u64, u64)) -> bool = |p: (u64, u64)| !marks0.contains(p.0);
        let mut hkept: Vec<(u64, u64)> = Vec::new();
        let ghost k: int = 0;
        proof {
            reveal(Seq::filter);
            assert(horig.skip(0) =~= horig);
            assert(horig.take(0).filter(hpred) =~= Seq::<(u64, u64)>::empty());
        }
        while self.hashes.len() > 0
            invariant
                marks0 == old(self).marks(),
                hpred == (|p: (u64, u64)| !marks0.contains(p.0)),
                pred == (|sa: StoredAddress| !marks0.contains(sa.id)),
                0 <= k <= horig.len(),
                self.hashes@ == horig.skip(k),
                hkept@ == horig.take(k).filter(hpred),
                self.to_delete == old(self).to_delete,
                self.addresses@ == orig.filter(pred),
                self.next_id == old(self).next_id,
                self.construction_tables == old(self).construction_tables,
            decreases horig.len() - k,
        {
            let p = self.hashes.remove(0);
            proof {
                reveal(Seq::filter);
                assert(p == horig.skip(k)[0]);
                assert(p == horig[k]);
                assert(horig.skip(k).remove(0) =~= horig.skip(k + 1));
                assert(horig.take(k + 1).drop_last() =~= horig.take(k));
                assert(horig.take(k + 1).last() == horig[k]);
            }
            let hmarked = contains_id(&self.to_delete, p.0);
            proof {
                assert(self.to_delete@ == old(self).to_delete@);
                assert(hmarked == old(self).to_delete@.contains(p.0));
                assert(old(self).marks().contains(p.0) == old(self).to_delete@.contains(p.0));
                assert(hpred(p) == !hmarked);
            }
            if !hmarked {
                hkept.push(p);
            }
            proof {
                k = k + 1;
            }
        }
        proof {
            assert(horig.take(horig.len() as int) =~= horig);
        }
        self.hashes = hkept;
        self.to_delete = Vec::new();

        proof {
            let marks = old(self).marks();
            lemma_filter_no_duplicates(horig, hpred);
            lemma_filter_contains(horig, hpred);
            lemma_filter_contains(orig, pred);
            lemma_filter_preserves_order(
                orig,
                pred,
                |a: StoredAddress, b: StoredAddress| a.id < b.id,
            );
            // new ids: exactly the old unmarked ids
            assert forall|x: u64| self.id_set().contains(x) implies old(self).id_set().contains(x)
                && !marks.contains(x) by {
                let i = choose|i: int| 0 <= i < self.ids().len() && self.ids()[i] == x;
                let sa = self.addresses@[i];
                assert(orig.filter(pred).contains(sa)) by {
                    assert(orig.filter(pred)[i] == sa);
                }
                assert(orig.contains(sa) && pred(sa));
                let j = choose|j: int| 0 <= j < orig.len() && orig[j] == sa;
                assert(old(self).ids()[j] == x);
            }
            assert forall|x: u64|
                old(self).id_set().contains(x) && !marks.contains(x) implies self.id_set().contains(
                x,
            ) by {
                let i = choose|i: int| 0 <= i < old(self).ids().len() && old(self).ids()[i] == x;
                let sa = orig[i];
                assert(pred(sa));
                assert(orig.filter(pred).contains(sa));
                let j = choose|j: int| 0 <= j < orig.filter(pred).len() && orig.filter(pred)[j]
                    == sa;
                assert(self.ids()[j] == x);
            }
            // the filtered hash rows still reference stored ids
            assert forall|i: int| 0 <= i < self.hashes@.len() implies self.id_set().contains(
                (#[trigger] self.hashes@[i]).0,
            ) by {
                let p = self.hashes@[i];
                assert(horig.filter(hpred).contains(p)) by {
                    assert(horig.filter(hpred)[i] == p);
                }
                assert(horig.contains(p) && hpred(p));
                let j = choose|j: int| 0 <= j < horig.len() && horig[j] == p;
                assert(old(self).id_set().contains(p.0));
            }
            // strict id order of the kept addresses
            assert forall|i: int, j: int|
                0 <= i < j < self.addresses@.len() implies (#[trigger] self.addresses@[i]).id < (
            #[trigger] self.addresses@[j]).id by {
                let lt = |a: StoredAddress, b: StoredAddress| a.id < b.id;
                assert(lt(orig.filter(pred)[i], orig.filter(pred)[j]));
            }
            assert forall|i: int| 0 <= i < self.addresses@.len() implies (
            #[trigger] self.addresses@[i]).id < self.next_id by {
                let sa = self.addresses@[i];
                assert(orig.filter(pred).contains(sa)) by {
                    assert(orig.filter(pred)[i] == sa);
                }
                assert(orig.contains(sa));
                let j = choose|j: int| 0 <= j < orig.len() && orig[j] == sa;
            }
        }
    }

    /// Drops the construction tables `hashes` and `to_delete`.
    pub fn cleanup(&mut self)
        requires
            old(self).wf(),
        ensures
            final(self).wf(),
            final(self).addresses == old(self).addresses,
            final(self).next_id == old(self).next_id,
            !final(self).construction_tables,
            final(self).hashes@.len() == 0,
            final(self).to_delete@.len() == 0,
    {
        self.hashes = Vec::new();
        self.to_delete = Vec::new();
        self.construction_tables = false;
    }

    /// Compacts storage; the tables are unchanged.
    pub fn vacuum(&mut self)
        ensures
            *final(self) == *old(self),
    {
    }
}

/// The `(id, hash)` pairs of a sequence of scan rows.
pub open spec fn entry_pairs(s: Seq<HashEntry>) -> Seq<(u64, u64)> {
    s.map_values(|e: HashEntry| (e.id, e.hash))
}

/// Sorts `(id, hash)` pairs by hash, ascending.
fn sort_pairs_by_hash(v: &mut Vec<(u64, u64)>)
    ensures
        final(v)@.to_multiset() == old(v)@.to_multiset(),
        forall|x: int, y: int|
            0 <= x < y < final(v)@.len() ==> (#[trigger] final(v)@[x]).1 <= (
            #[trigger] final(v)@[y]).1,
{
    broadcast use vstd::seq_lib::group_to_multiset_ensures;

    let mut i: usize = 1;
    while i < v.len()
        invariant
            1 <= i,
            v@.to_multiset() == old(v)@.to_multiset(),
            v@.len() == old(v)@.len(),
            forall|x: int, y: int| 0 <= x < y < i && y < v@.len() ==> (#[trigger] v@[x]).1 <= (
            #[trigger] v@[y]).1,
        decreases v@.len() - i,
    {
        let ghost w = v@;
        let x = v.remove(i);
        proof {
            assert(x == w[i as int]);
        }
        let mut j: usize = i;
        while j > 0 && v[j - 1].1 > x.1
            invariant
                j <= i < w.len(),
                v@ == w.remove(i as int),
                forall|m: int| j <= m < i ==> (#[trigger] v@[m]).1 > x.1,
            decreases j,
        {
            j -= 1;
        }
        proof {
            // everything before j is no greater than x
            assert forall|m: int| 0 <= m < j implies (#[trigger] v@[m]).1 <= x.1 by {
                if j > 0 {
                    assert(v@[j - 1].1 <= x.1);
                    assert(v@[m].1 <= v@[j - 1].1);
                }
            }
        }
        v.insert(j, x);
        proof {
            broadcast use vstd::seq_lib::group_to_multiset_ensures;
            broadcast use vstd::multiset::group_multiset_axioms;

            let u = v@;
            assert(u == w.remove(i as int).insert(j as int, x));
            assert(w.contains(x)) by {
                assert(w[i as int] == x);
            }
            assert(w.remove(i as int).to_multiset() == w.to_multiset().remove(x));
            assert(u.to_multiset() == w.to_multiset().remove(x).insert(x));
            assert(w.to_multiset().count(x) > 0);
            assert(u.to_multiset() =~= w.to_multiset());
            assert forall|a: int, b: int|
                0 <= a < b < i + 1 && b < u.len() implies (#[trigger] u[a]).1 <= (
            #[trigger] u[b]).1 by {
                let r = w.remove(i as int);
                if a < j && b == j {
                } else if a < j && b > j {
                    assert(u[a] == r[a] && u[b] == r[b - 1]);
                } else if a == j && b > j {
                    assert(u[b] == r[b - 1]);
                    if b - 1 < i {
                        assert(r[b - 1].1 > x.1);
                    }
                } else if a > j && b > j {
                    assert(u[a] == r[a - 1] && u[b] == r[b - 1]);
                }
            }
        }
        i += 1;
    }
    proof {
        if v@.len() > 0 {
        } else {
        }
    }
}

impl Store {
    /// Returns the stored row with this id.
    fn find_record(&self, id: u64) -> (r: &StoredAddress)
        requires
            self.wf(),
            self.id_set().contains(id),
        ensures
            r.id == id,
            self.spec_has_record(id, r.rank, r.address@),
    {
        let n = self.addresses.len();
        let mut i: usize = 0;
        while i < n
            invariant
                i <= n,
                n == self.addresses@.len(),
                forall|j: int| 0 <= j < i ==> (#[trigger] self.addresses@[j]).id != id,
            decreases n - i,
        {
            if self.addresses[i].id == id {
                return &self.addresses[i];
            }
            i += 1;
        }
        proof {
            let j = choose|j: int| 0 <= j < self.ids().len() && self.ids()[j] == id;
            assert(self.addresses@[j].id == id);
        }
        vstd::pervasive::unreached()
    }

    /// The sorted scan: one row per `(id, hash)` pair, ordered by hash
    /// ascending so that equal-hash runs are contiguous, each row joined to
    /// its stored address.
    pub fn sorted_hash_entries(&self) -> (r: Vec<HashEntry>)
        requires
            self.wf(),
        ensures
            entry_pairs(r@).to_multiset() == self.hashes@.to_multiset(),
            entry_pairs(r@).no_duplicates(),
            forall|x: int, y: int|
                0 <= x < y < r@.len() ==> (#[trigger] r@[x]).hash <= (#[trigger] r@[y]).hash,
            forall|i: int|
                0 <= i < r@.len() ==> self.spec_has_record(
                    (#[trigger] r@[i]).id,
                    r@[i].rank,
                    r@[i].address@,
                ),
    {
        broadcast use vstd::seq_lib::group_to_multiset_ensures;

        let mut pairs: Vec<(u64, u64)> = Vec::new();
        let n = self.hashes.len();
        let mut i: usize = 0;
        while i < n
            invariant
                i <= n,
                n == self.hashes@.len(),
                pairs@ == self.hashes@.take(i as int),
            decreases n - i,
        {
            pairs.push((self.hashes[i].0, self.hashes[i].1));
            proof {
                assert(self.hashes@[i as int] == (self.hashes@[i as int].0, self.hashes@[
                    i as int
                ].1));
                assert(pairs@ =~= self.hashes@.take(i as int + 1));
            }
            i += 1;
        }
        proof {
            assert(pairs@ =~= self.hashes@);
        }
        sort_pairs_by_hash(&mut pairs);

        let mut out: Vec<HashEntry> = Vec::new();
        let m = pairs.len();
        let mut k: usize = 0;
        while k < m
            invariant
                k <= m,
                m == pairs@.len(),
                self.wf(),
                pairs@.to_multiset() == self.hashes@.to_multiset(),
                entry_pairs(out@) == pairs@.take(k as int),
                forall|i: int|
                    0 <= i < out@.len() ==> self.spec_has_record(
                        (#[trigger] out@[i]).id,
                        out@[i].rank,
                        out@[i].address@,
                    ),
            decreases m - k,
        {
            let id = pairs[k].0;
            let hash = pairs[k].1;
            proof {
                broadcast use vstd::seq_lib::group_to_multiset_ensures;
                broadcast use vstd::multiset::group_multiset_axioms;

                assert(pairs@.contains(pairs@[k as int]));
                assert(pairs@.to_multiset().count(pairs@[k as int]) > 0);
                assert(self.hashes@.to_multiset().count(pairs@[k as int]) > 0);
                assert(self.hashes@.contains(pairs@[k as int]));
                let j = choose|j: int|
                    0 <= j < self.hashes@.len() && self.hashes@[j] == pairs@[k as int];
                assert(self.id_set().contains(id));
            }
            let sa = self.find_record(id);
            let rank = sa.rank;
            let address = sa.address.clone();
            let ghost out0 = out@;
            out.push(HashEntry { hash, id, rank, address });
            proof {
                assert((pairs@[k as int].0, pairs@[k as int].1) == pairs@[k as int]);
                assert(out0.len() == k as int) by {
                    assert(entry_pairs(out0).len() == out0.len());
                    assert(pairs@.take(k as int).len() == k as int);
                }
                assert forall|m: int| 0 <= m < out@.len() implies entry_pairs(out@)[m]
                    == pairs@.take(k as int + 1)[m] by {
                    if m < k as int {
                        assert(out@[m] == out0[m]);
                        assert(entry_pairs(out0)[m] == pairs@.take(k as int)[m]);
                    } else {
                        assert(out@[m].id == id && out@[m].hash == hash);
                    }
                }
                assert(entry_pairs(out@) =~= pairs@.take(k as int + 1));
            }
            k += 1;
        }
        proof {
            broadcast use vstd::seq_lib::group_to_multiset_ensures;
            broadcast use vstd::multiset::group_multiset_axioms;

            assert(entry_pairs(out@) =~= pairs@);
            // the pair rows are unique, so the scan rows are pairwise distinct
            self.hashes@.lemma_multiset_has_no_duplicates();
            assert forall|x: (u64, u64)| entry_pairs(out@).to_multiset().contains(x) implies
                entry_pairs(out@).to_multiset().count(x) == 1 by {
                assert(self.hashes@.to_multiset().contains(x));
                assert(self.hashes@.contains(x));
            }
            entry_pairs(out@).lemma_multiset_has_no_duplicates_conv();
            assert forall|x: int, y: int| 0 <= x < y < out@.len() implies (
            #[trigger] out@[x]).hash <= (#[trigger] out@[y]).hash by {
                assert(entry_pairs(out@)[x] == (out@[x].id, out@[x].hash));
                assert(entry_pairs(out@)[y] == (out@[y].id, out@[y].hash));
                assert(pairs@[x].1 <= pairs@[y].1);
            }
        }
        out
    }
}

/// The views of a list of city names.
pub open spec fn string_views(s: Seq<String>) -> Seq<Seq<char>> {
    s.map_values(|t: String| t@)
}

/// Decides whether the list holds a string with these characters.
fn vec_contains_str(v: &Vec<String>, s: &String) -> (r: bool)
    ensures
        r == string_views(v@).contains(s@),
{
    let n = v.len();
    let mut i: usize = 0;
    while i < n
        invariant
            i <= n,
            n == v@.len(),
            forall|j: int| 0 <= j < i ==> string_views(v@)[j] != s@,
        decreases n - i,
    {
        if v[i] == *s {
            assert(string_views(v@)[i as int] == s@);
            return true;
        }
        proof {
            assert(string_views(v@)[i as int] == v@[i as int]@);
        }
        i += 1;
    }
    false
}

impl Store {
    /// The distinct city names among the stored addresses.
    pub open spec fn cities(self) -> Set<Seq<char>> {
        Set::new(
            |c: Seq<char>|
                exists|i: int|
                    0 <= i < self.addresses@.len() && (#[trigger] self.addresses@[i]).address@.city
                        == Some(c),
        )
    }

    /// The distinct city names among the first `n` stored addresses.
    pub open spec fn cities_upto(self, n: int) -> Set<Seq<char>> {
        Set::new(
            |c: Seq<char>|
                exists|i: int|
                    0 <= i < n && (#[trigger] self.addresses@[i]).address@.city == Some(c),
        )
    }

    /// Counts the distinct city names among the stored addresses.
    pub fn count_cities(&self) -> (r: usize)
        ensures
            r == self.cities().len(),
    {
        let mut seen: Vec<String> = Vec::new();
        let n = self.addresses.len();
        let mut i: usize = 0;
        proof {
            assert(string_views(seen@).to_set() =~= self.cities_upto(0)) by {
                assert(forall|c: Seq<char>| !string_views(seen@).contains(c));
            }
        }
        while i < n
            invariant
                i <= n,
                n == self.addresses@.len(),
                string_views(seen@).no_duplicates(),
                string_views(seen@).to_set() =~= self.cities_upto(i as int),
            decreases n - i,
        {
            let sa = &self.addresses[i];
            match &sa.address.city {
                Some(city) => {
                    let ghost c = city@;
                    proof {
                        assert(self.addresses@[i as int].address@.city == Some(c));
                    }
                    if !vec_contains_str(&seen, city) {
                        let ghost seen0 = seen@;
                        seen.push(city.clone());
                        proof {
                            assert(string_views(seen@) =~= string_views(seen0).push(c)) by {
                                assert forall|m: int|
                                    0 <= m < seen@.len() implies string_views(seen@)[m]
                                    == string_views(seen0).push(c)[m] by {
                                    if m < seen0.len() {
                                        assert(seen@[m] == seen0[m]);
                                    } else {
                                        assert(seen@[m]@ == c);
                                    }
                                }
                            }
                            assert(string_views(seen@).no_duplicates()) by {
                                let sv = string_views(seen0).push(c);
                                assert forall|x: int, y: int|
                                    0 <= x < y < sv.len() implies sv[x] != sv[y] by {
                                    if y == sv.len() - 1 {
                                        assert(sv[x] == string_views(seen0)[x]);
                                        if sv[x] == c {
                                            assert(string_views(seen0).contains(c));
                                        }
                                    }
                                }
                            }
                            assert(string_views(seen@).to_set() =~= self.cities_upto(i as int + 1)) by {
                                let sv = string_views(seen0).push(c);
                                assert forall|x: Seq<char>| sv.contains(x) implies self.cities_upto(
                                    i as int + 1,
                                ).contains(x) by {
                                    let m = choose|m: int| 0 <= m < sv.len() && sv[m] == x;
                                    if m < seen0.len() {
                                        assert(string_views(seen0).contains(x));
                                        assert(self.cities_upto(i as int).contains(x));
                                    } else {
                                        assert(x == c);
                                    }
                                }
                                assert forall|x: Seq<char>| self.cities_upto(i as int + 1).contains(
                                    x,
                                ) implies sv.contains(x) by {
                                    let m = choose|m: int|
                                        0 <= m < i as int + 1 && (
                                        #[trigger] self.addresses@[m]).address@.city == Some(x);
                                    if m < i as int {
                                        assert(self.cities_upto(i as int).contains(x));
                                        assert(string_views(seen0).contains(x));
                                        let t = choose|t: int|
                                            0 <= t < seen0.len() && string_views(seen0)[t] == x;
                                        assert(sv[t] == x);
                                    } else {
                                        assert(x == c);
                                        assert(sv[sv.len() - 1] == c);
                                    }
                                }
                            }
                        }
                    } else {
                        proof {
                            assert(string_views(seen@).to_set() =~= self.cities_upto(
                                i as int + 1,
                            )) by {
                                assert forall|x: Seq<char>| self.cities_upto(i as int + 1).contains(
                                    x,
                                ) implies self.cities_upto(i as int).contains(x) || x == c by {
                                    let m = choose|m: int|
                                        0 <= m < i as int + 1 && (
                                        #[trigger] self.addresses@[m]).address@.city == Some(x);
                                }
                                assert(string_views(seen@).contains(c));
                            }
                        }
                    }
                },
                None => {
                    proof {
                        assert(string_views(seen@).to_set() =~= self.cities_upto(i as int + 1)) by {
                            assert forall|x: Seq<char>| self.cities_upto(i as int + 1).contains(
                                x,
                            ) implies self.cities_upto(i as int).contains(x) by {
                                let m = choose|m: int|
                                    0 <= m < i as int + 1 && (
                                    #[trigger] self.addresses@[m]).address@.city == Some(x);
                            }
                        }
                    }
                },
            }
            i += 1;
        }
        proof {
            assert(self.cities_upto(n as int) =~= self.cities());
            string_views(seen@).unique_seq_to_set();
        }
        seen.len()
    }
}

/// Decides whether the pair list holds this `(id, hash)` pair.
fn contains_pair(v: &Vec<(u64, u64)>, id: u64, hash: u64) -> (r: bool)
    ensures
        r == v@.contains((id, hash)),
{
    let n = v.len();
    let mut i: usize = 0;
    while i < n
        invariant
            i <= n,
            n == v@.len(),
            forall|j: int| 0 <= j < i ==> v@[j] != (id, hash),
        decreases n - i,
    {
        if v[i].0 == id && v[i].1 == hash {
            assert(v@[i as int] == (id, hash));
            return true;
        }
        i += 1;
    }
    false
}

/// Decides whether the id list holds this id.
pub fn contains_id(v: &Vec<u64>, id: u64) -> (r: bool)
    ensures
        r == v@.contains(id),
{
    let n = v.len();
    let mut i: usize = 0;
    while i < n
        invariant
            i <= n,
            n == v@.len(),
            forall|j: int| 0 <= j < i ==> v@[j] != id,
        decreases n - i,
    {
        if v[i] == id {
            return true;
        }
        i += 1;
    }
    false
}

} // verus!
