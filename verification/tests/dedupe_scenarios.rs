use deduplicator::address::Address;
use deduplicator::deduplicator::Deduplicator;
use deduplicator::similarity::PrefixSimilarity;

fn addr(number: &str, street: &str, city: &str) -> Address {
    Address {
        lat: "48.85".to_string(),
        lon: "2.35".to_string(),
        number: Some(number.to_string()),
        street: Some(street.to_string()),
        unit: None,
        city: Some(city.to_string()),
        district: None,
        region: None,
        postcode: None,
    }
}

#[test]
fn exact_duplicate_rank_wins() {
    let mut d = Deduplicator::new();
    let id1 = d.store.insert_address(addr("10", "Rue de Rivoli", "Paris"), 10);
    d.store.insert_hash(id1, 42);
    let id2 = d.store.insert_address(addr("10", "Rue de Rivoli", "Paris"), 20);
    d.store.insert_hash(id2, 42);

    d.compute_duplicates(&PrefixSimilarity {});
    assert_eq!(d.store.to_delete, vec![id1]);

    d.apply_and_clean(true);
    assert_eq!(d.store.addresses.len(), 1);
    assert_eq!(d.store.addresses[0].id, id2);
    assert!(d.store.to_delete.is_empty());
}

#[test]
fn rank_tie_broken_by_higher_id() {
    let mut d = Deduplicator::new();
    let id1 = d.store.insert_address(addr("10", "Rue de Rivoli", "Paris"), 10);
    d.store.insert_hash(id1, 42);
    let id2 = d.store.insert_address(addr("10", "Rue de Rivoli", "Paris"), 10);
    d.store.insert_hash(id2, 42);

    d.compute_duplicates(&PrefixSimilarity {});
    assert_eq!(d.store.to_delete, vec![id1]);
}

#[test]
fn non_transitive_similarity_keeps_both_ends() {
    // A="ab" rank 30, B="a" rank 20, C="ac" rank 10, all in one pack.
    // A~B and B~C but not A~C: B goes, A and C stay.
    let mut d = Deduplicator::new();
    let ida = d.store.insert_address(addr("1", "ab", "X"), 30);
    d.store.insert_hash(ida, 7);
    let idb = d.store.insert_address(addr("2", "a", "X"), 20);
    d.store.insert_hash(idb, 7);
    let idc = d.store.insert_address(addr("3", "ac", "X"), 10);
    d.store.insert_hash(idc, 7);

    d.compute_duplicates(&PrefixSimilarity {});
    assert_eq!(d.store.to_delete, vec![idb]);

    d.apply_and_clean(true);
    let surviving: Vec<u64> = d.store.addresses.iter().map(|sa| sa.id).collect();
    assert_eq!(surviving, vec![ida, idc]);
}

#[test]
fn giant_pack_is_skipped() {
    let mut d = Deduplicator::new();
    for i in 0..5001u64 {
        let id = d.store.insert_address(addr(&format!("{}", i), "Same Street", "X"), i);
        d.store.insert_hash(id, 99);
    }
    d.compute_duplicates(&PrefixSimilarity {});
    assert!(d.store.to_delete.is_empty());
    assert_eq!(d.store.addresses.len(), 5001);
}

#[test]
fn boundary_pack_of_5000_is_resolved() {
    let mut d = Deduplicator::new();
    for i in 0..5000u64 {
        let id = d.store.insert_address(addr(&format!("{}", i), "Same Street", "X"), i);
        d.store.insert_hash(id, 99);
    }
    d.compute_duplicates(&PrefixSimilarity {});
    // identical streets: everything but the single best is marked
    assert_eq!(d.store.to_delete.len(), 4999);
}

#[test]
fn cross_pack_marks_coalesce() {
    // X and Y share two fingerprints; X loses in both packs but is marked once.
    let mut d = Deduplicator::new();
    let idx = d.store.insert_address(addr("1", "Main", "X"), 10);
    d.store.insert_hash(idx, 1);
    d.store.insert_hash(idx, 2);
    let idy = d.store.insert_address(addr("2", "Main", "X"), 20);
    d.store.insert_hash(idy, 1);
    d.store.insert_hash(idy, 2);

    d.compute_duplicates(&PrefixSimilarity {});
    assert_eq!(d.store.to_delete, vec![idx]);

    d.apply_and_clean(true);
    assert_eq!(d.store.addresses.len(), 1);
    assert_eq!(d.store.addresses[0].id, idy);
}

#[test]
fn resolution_is_idempotent() {
    let mut d = Deduplicator::new();
    let ida = d.store.insert_address(addr("1", "ab", "X"), 30);
    d.store.insert_hash(ida, 7);
    let idb = d.store.insert_address(addr("2", "a", "X"), 20);
    d.store.insert_hash(idb, 7);
    let idc = d.store.insert_address(addr("3", "ac", "X"), 10);
    d.store.insert_hash(idc, 7);

    d.compute_duplicates(&PrefixSimilarity {});
    d.apply_and_clean(true);
    let first: Vec<u64> = d.store.addresses.iter().map(|sa| sa.id).collect();

    d.compute_duplicates(&PrefixSimilarity {});
    assert!(d.store.to_delete.is_empty());
    d.apply_and_clean(true);
    let second: Vec<u64> = d.store.addresses.iter().map(|sa| sa.id).collect();
    assert_eq!(first, second);
}

#[test]
fn no_id_both_stored_and_marked_after_apply() {
    let mut d = Deduplicator::new();
    for i in 0..10u64 {
        let id = d.store.insert_address(addr(&format!("{}", i % 3), "S", "X"), i);
        d.store.insert_hash(id, i % 2);
    }
    d.compute_duplicates(&PrefixSimilarity {});
    let marked: Vec<u64> = d.store.to_delete.clone();
    d.apply_and_clean(true);
    for sa in &d.store.addresses {
        assert!(!marked.contains(&sa.id));
    }
    assert!(d.store.to_delete.is_empty());
}

#[test]
fn apply_and_clean_drops_construction_tables() {
    let mut d = Deduplicator::new();
    let id = d.store.insert_address(addr("1", "S", "X"), 1);
    d.store.insert_hash(id, 5);
    d.compute_duplicates(&PrefixSimilarity {});
    d.apply_and_clean(false);
    assert!(!d.store.construction_tables);
    assert!(d.store.hashes.is_empty());
    assert!(d.store.to_delete.is_empty());
    assert_eq!(d.store.addresses.len(), 1);
}
