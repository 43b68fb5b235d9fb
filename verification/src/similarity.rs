//! The caller-supplied collaborators of the pipelines: the similarity
//! predicate, the locality-sensitive hash function and the ranking function,
//! each as a trait whose executable method is pinned to a specification
//! method, together with concrete implementations.

use vstd::prelude::*;

use crate::address::{Address, AddressView};

verus! {

/// The similarity predicate over addresses: reflexive and symmetric, not
/// necessarily transitive, and deterministic.
pub trait Similarity: Sized {
    /// What the predicate means.
    spec fn sim(&self, a: AddressView, b: AddressView) -> bool;

    proof fn lemma_reflexive(&self, a: AddressView)
        ensures
            self.sim(a, a),
    ;

    proof fn lemma_symmetric(&self, a: AddressView, b: AddressView)
        ensures
            self.sim(a, b) == self.sim(b, a),
    ;

    /// Decides whether the two addresses describe the same real-world
    /// address.
    fn is_duplicate(&self, a: &Address, b: &Address) -> (r: bool)
        ensures
            r == self.sim(a@, b@),
    ;
}

/// The locality-sensitive hash function: a total, deterministic map from an
/// address to finitely many 64-bit fingerprints. An empty result means the
/// address cannot collide and therefore cannot be deduplicated.
pub trait AddressHasher: Sized {
    spec fn hash_spec(&self, a: AddressView) -> Seq<u64>;

    fn hash_address(&self, a: &Address) -> (r: Vec<u64>)
        ensures
            r@ == self.hash_spec(a@),
    ;
}

/// The ranking function: a deterministic priority; a higher rank wins
/// tie-breaks during survivor selection.
pub trait Ranker: Sized {
    spec fn rank_spec(&self, a: AddressView) -> u64;

    fn rank(&self, a: &Address) -> (r: u64)
        ensures
            r == self.rank_spec(a@),
    ;
}

/// A ranking that gives every address the same priority: survivor selection
/// then falls back to the id tie-break alone.
pub struct ConstRanker {
    pub value: u64,
}

impl Ranker for ConstRanker {
    open spec fn rank_spec(&self, a: AddressView) -> u64 {
        self.value
    }

    fn rank(&self, a: &Address) -> u64 {
        self.value
    }
}

/// The street of an address, or the empty sequence when it has none.
pub open spec fn spec_street_or_empty(a: AddressView) -> Seq<char> {
    match a.street {
        Some(s) => s,
        None => Seq::empty(),
    }
}

/// Decides whether `a` is a prefix of `b`, character by character.
pub fn str_is_prefix(a: &str, b: &str) -> (r: bool)
    ensures
        r == a@.is_prefix_of(b@),
{
    let la = a.unicode_len();
    let lb = b.unicode_len();
    if la > lb {
        return false;
    }
    let mut i: usize = 0;
    while i < la
        invariant
            i <= la <= lb,
            la == a@.len(),
            lb == b@.len(),
            forall|j: int| 0 <= j < i ==> a@[j] == b@[j],
        decreases la - i,
    {
        if a.get_char(i) != b.get_char(i) {
            assert(!a@.is_prefix_of(b@)) by {
                assert(a@.is_prefix_of(b@) ==> a@[i as int] == b@.subrange(
                    0,
                    a@.len() as int,
                )[i as int]);
            }
            return false;
        }
        i += 1;
    }
    assert(a@ =~= b@.subrange(0, a@.len() as int));
    true
}

/// Addresses are similar when the street of one is a prefix of the street of
/// the other. The relation is reflexive and symmetric but not transitive.
pub struct PrefixSimilarity {}

impl Similarity for PrefixSimilarity {
    open spec fn sim(&self, a: AddressView, b: AddressView) -> bool {
        spec_street_or_empty(a).is_prefix_of(spec_street_or_empty(b))
            || spec_street_or_empty(b).is_prefix_of(spec_street_or_empty(a))
    }

    proof fn lemma_reflexive(&self, a: AddressView) {
        assert(spec_street_or_empty(a) =~= spec_street_or_empty(a).subrange(
            0,
            spec_street_or_empty(a).len() as int,
        ));
    }

    proof fn lemma_symmetric(&self, a: AddressView, b: AddressView) {
    }

    fn is_duplicate(&self, a: &Address, b: &Address) -> (r: bool) {
        let empty: &str = "";
        let sa: &str = match &a.street {
            Some(s) => s.as_str(),
            None => empty,
        };
        let sb: &str = match &b.street {
            Some(s) => s.as_str(),
            None => empty,
        };
        proof {
            reveal_strlit("");
            assert(sa@ == spec_street_or_empty(a@));
            assert(sb@ == spec_street_or_empty(b@));
        }
        str_is_prefix(sa, sb) || str_is_prefix(sb, sa)
    }
}

/// The offset basis of the 64-bit FNV-1a hash.
pub const FNV_OFFSET: u64 = 0xcbf29ce484222325;

/// The prime of the 64-bit FNV-1a hash.
pub const FNV_PRIME: u64 = 0x100000001b3;

/// One FNV-1a step: fold a character into the running hash.
pub open spec fn spec_fnv_step(h: u64, c: char) -> u64 {
    (h ^ (c as u64)).wrapping_mul(FNV_PRIME)
}

/// The FNV-1a hash of a sequence of characters, starting from `h`.
pub open spec fn spec_fnv(s: Seq<char>, h: u64) -> u64
    decreases s.len(),
{
    if s.len() == 0 {
        h
    } else {
        spec_fnv(s.drop_first(), spec_fnv_step(h, s.first()))
    }
}

/// Computes the FNV-1a hash of a string.
pub fn fnv_hash(s: &str) -> (r: u64)
    ensures
        r == spec_fnv(s@, FNV_OFFSET),
{
    let n = s.unicode_len();
    let mut h: u64 = FNV_OFFSET;
    let mut i: usize = 0;
    proof {
        assert(s@.skip(0) =~= s@);
    }
    while i < n
        invariant
            i <= n,
            n == s@.len(),
            spec_fnv(s@, FNV_OFFSET) == spec_fnv(s@.skip(i as int), h),
        decreases n - i,
    {
        let c = s.get_char(i);
        proof {
            assert(s@.skip(i as int).first() == s@[i as int]);
            assert(s@.skip(i as int).drop_first() =~= s@.skip(i as int + 1));
        }
        h = (h ^ (c as u64)).wrapping_mul(FNV_PRIME);
        i += 1;
    }
    proof {
        assert(s@.skip(n as int) =~= Seq::<char>::empty());
    }
    h
}

/// The default hash function: one fingerprint, the FNV-1a hash of the street.
/// An address without a street gets no fingerprint at all.
pub struct FnvStreetHasher {}

impl AddressHasher for FnvStreetHasher {
    open spec fn hash_spec(&self, a: AddressView) -> Seq<u64> {
        match a.street {
            Some(s) => seq![spec_fnv(s, FNV_OFFSET)],
            None => Seq::empty(),
        }
    }

    fn hash_address(&self, a: &Address) -> (r: Vec<u64>) {
        match &a.street {
            Some(s) => {
                let h = fnv_hash(s.as_str());
                let mut r: Vec<u64> = Vec::new();
                r.push(h);
                assert(r@ =~= seq![spec_fnv(s@, FNV_OFFSET)]);
                r
            },
            None => Vec::new(),
        }
    }
}

/// The fingerprints of a street under a finite table: the concatenation of
/// the fingerprint lists of every table row whose key equals the street.
pub open spec fn spec_table_hashes(
    entries: Seq<(Seq<char>, Seq<u64>)>,
    street: Option<Seq<char>>,
) -> Seq<u64>
    decreases entries.len(),
{
    if entries.len() == 0 {
        Seq::empty()
    } else {
        let hit = match street {
            Some(s) => entries.first().0 == s,
            None => false,
        };
        if hit {
            entries.first().1 + spec_table_hashes(entries.drop_first(), street)
        } else {
            spec_table_hashes(entries.drop_first(), street)
        }
    }
}

/// A hash function given by a finite table from street to fingerprints;
/// streets outside the table get none. It lets a caller stage arbitrary
/// collisions.
pub struct TableHasher {
    pub entries: Vec<(String, Vec<u64>)>,
}

/// The table at the specification level.
pub open spec fn spec_table_view(entries: Seq<(String, Vec<u64>)>) -> Seq<(Seq<char>, Seq<u64>)> {
    entries.map_values(|p: (String, Vec<u64>)| (p.0@, p.1@))
}

impl AddressHasher for TableHasher {
    open spec fn hash_spec(&self, a: AddressView) -> Seq<u64> {
        spec_table_hashes(spec_table_view(self.entries@), a.street)
    }

    fn hash_address(&self, a: &Address) -> (r: Vec<u64>) {
        let ghost table = spec_table_view(self.entries@);
        let mut r: Vec<u64> = Vec::new();
        let n = self.entries.len();
        let mut i: usize = 0;
        proof {
            assert(table.skip(0) =~= table);
            assert(r@ + spec_table_hashes(table, a@.street) =~= spec_table_hashes(
                table,
                a@.street,
            ));
        }
        while i < n
            invariant
                i <= n,
                n == self.entries@.len(),
                table == spec_table_view(self.entries@),
                r@ + spec_table_hashes(table.skip(i as int), a@.street) == spec_table_hashes(
                    table,
                    a@.street,
                ),
            decreases n - i,
        {
            proof {
                assert(table.skip(i as int).first() == table[i as int]);
                assert(table.skip(i as int).drop_first() =~= table.skip(i as int + 1));
            }
            let hit = match (&a.street, &self.entries[i].0) {
                (Some(street), key) => *key == *street,
                _ => false,
            };
            let ghost r_before = r@;
            if hit {
                let hs = &self.entries[i].1;
                let mut j: usize = 0;
                let m = hs.len();
                while j < m
                    invariant
                        j <= m,
                        m == hs@.len(),
                        r@ == r_before + hs@.take(j as int),
                    decreases m - j,
                {
                    r.push(hs[j]);
                    assert(r@ =~= r_before + hs@.take(j as int + 1));
                    j += 1;
                }
                assert(r@ =~= r_before + hs@) by {
                    assert(hs@.take(m as int) =~= hs@);
                }
            }
            proof {
                let tail = spec_table_hashes(table.skip(i as int + 1), a@.street);
                assert(table[i as int] == (self.entries@[i as int].0@, self.entries@[i as int].1@));
                if hit {
                    assert((r_before + table[i as int].1) + tail =~= r_before + (table[
                        i as int
                    ].1 + tail));
                }
            }
            i += 1;
        }
        r
    }
}

} // verus!
