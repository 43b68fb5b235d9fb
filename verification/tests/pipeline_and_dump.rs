use deduplicator::address::{accepts, Address};
use deduplicator::deduplicator::Deduplicator;
use deduplicator::dump::{csv_dump, read_dump};
use deduplicator::osm::{address_from_tags, has_addr_tag, import_addresses, OsmNode, DB};
use deduplicator::similarity::{
    fnv_hash, str_is_prefix, AddressHasher, ConstRanker, FnvStreetHasher, PrefixSimilarity,
    Similarity, TableHasher,
};
use deduplicator::sys::worker_count;

fn addr(number: Option<&str>, street: Option<&str>, city: Option<&str>) -> Address {
    Address {
        lat: "48.85".to_string(),
        lon: "2.35".to_string(),
        number: number.map(|s| s.to_string()),
        street: street.map(|s| s.to_string()),
        unit: None,
        city: city.map(|s| s.to_string()),
        district: None,
        region: None,
        postcode: None,
    }
}

#[test]
fn sentinel_number_is_rejected() {
    let d = Deduplicator::new();
    let mut ins = d.get_db_inserter(ConstRanker { value: 1 }, FnvStreetHasher {});
    ins.insert(addr(Some("S/N"), Some("Rue X"), None));
    assert_eq!(ins.get_nb_addresses(), 0);
    ins.insert(addr(None, Some("Rue X"), None));
    assert_eq!(ins.get_nb_addresses(), 0);
    ins.insert(addr(Some("10"), None, None));
    assert_eq!(ins.get_nb_addresses(), 0);
    ins.insert(addr(Some("10"), Some(""), None));
    assert_eq!(ins.get_nb_addresses(), 0);
    ins.insert(addr(Some("10"), Some("Rue X"), None));
    assert_eq!(ins.get_nb_addresses(), 1);
    assert_eq!(ins.get_nb_errors(), 0);
    assert!(ins.get_nb_by_errors_kind().is_empty());
}

#[test]
fn accepts_filter_matches_rules() {
    assert!(!accepts(&addr(Some("S/N"), Some("Rue"), None)));
    assert!(!accepts(&addr(None, Some("Rue"), None)));
    assert!(!accepts(&addr(Some("1"), None, None)));
    assert!(!accepts(&addr(Some("1"), Some(""), None)));
    assert!(accepts(&addr(Some("1"), Some("Rue"), None)));
}

#[test]
fn unhashable_address_is_stored_and_never_deleted() {
    let d = Deduplicator::new();
    // a table hasher with an empty table fingerprints nothing
    let mut ins = d.get_db_inserter(ConstRanker { value: 1 }, TableHasher { entries: Vec::new() });
    ins.insert(addr(Some("10"), Some("Rue X"), None));
    assert_eq!(ins.get_nb_addresses(), 1);
    let mut d = ins.finish();
    assert!(d.store.hashes.is_empty());
    d.compute_duplicates(&PrefixSimilarity {});
    assert!(d.store.to_delete.is_empty());
    d.apply_and_clean(true);
    assert_eq!(d.store.addresses.len(), 1);
}

#[test]
fn pipeline_deduplicates_same_street() {
    let d = Deduplicator::new();
    let mut ins = d.get_db_inserter(ConstRanker { value: 5 }, FnvStreetHasher {});
    ins.insert(addr(Some("10"), Some("Rue de Rivoli"), Some("Paris")));
    ins.insert(addr(Some("11"), Some("Rue de Rivoli"), Some("Paris")));
    ins.insert(addr(Some("12"), Some("Avenue Foch"), Some("Paris")));
    assert_eq!(ins.get_nb_addresses(), 3);
    assert_eq!(ins.get_nb_cities(), 1);
    let mut d = ins.finish();
    d.compute_duplicates(&PrefixSimilarity {});
    // the two Rue de Rivoli rows share their fingerprint; the later id wins
    assert_eq!(d.store.to_delete.len(), 1);
    d.apply_and_clean(true);
    assert_eq!(d.store.addresses.len(), 2);
}

#[test]
fn fnv_hash_of_known_text() {
    // the 64-bit FNV-1a test vector for "a"
    assert_eq!(fnv_hash("a"), 0xaf63dc4c8601ec8c);
    // hashing is deterministic and street-keyed
    let h = FnvStreetHasher {};
    let hs1 = h.hash_address(&addr(Some("1"), Some("Rue"), None));
    let hs2 = h.hash_address(&addr(Some("2"), Some("Rue"), Some("Paris")));
    assert_eq!(hs1, hs2);
    assert_eq!(hs1.len(), 1);
    let none = h.hash_address(&addr(Some("1"), None, None));
    assert!(none.is_empty());
}

#[test]
fn prefix_similarity_is_symmetric_not_transitive() {
    let s = PrefixSimilarity {};
    let a = addr(Some("1"), Some("ab"), None);
    let b = addr(Some("2"), Some("a"), None);
    let c = addr(Some("3"), Some("ac"), None);
    assert!(s.is_duplicate(&a, &b));
    assert!(s.is_duplicate(&b, &a));
    assert!(s.is_duplicate(&b, &c));
    assert!(!s.is_duplicate(&a, &c));
    assert!(s.is_duplicate(&a, &a));
    assert!(str_is_prefix("ru", "rue"));
    assert!(!str_is_prefix("rue", "ru"));
    assert!(str_is_prefix("", "rue"));
}

#[test]
fn dump_text_has_fixed_columns_and_quoting() {
    let mut d = Deduplicator::new();
    d.store.insert_address(addr(Some("10"), Some("Rue \"X\""), Some("Paris")), 1);
    let text: String = csv_dump(&d.store).into_iter().collect();
    assert_eq!(
        text,
        "lon,lat,number,street,unit,city,district,region,postcode\n\
         \"2.35\",\"48.85\",\"10\",\"Rue \"\"X\"\"\",,\"Paris\",,,\n"
    );
}

#[test]
fn dump_round_trips_through_gzip() {
    let mut d = Deduplicator::new();
    d.store.insert_address(addr(Some("10"), Some("Rue de Rivoli"), Some("Paris")), 1);
    d.store.insert_address(addr(Some("11"), Some("Avenue Foch"), None), 2);
    let text: String = csv_dump(&d.store).into_iter().collect();
    let packed = d.openaddress_dump();
    // a gzip stream is not the text itself
    assert_ne!(packed.len(), text.len());
    let unpacked: String = read_dump(&packed).expect("decode").into_iter().collect();
    assert_eq!(unpacked, text);
}

#[test]
fn worker_count_is_positive() {
    assert!(worker_count() >= 1);
}

#[test]
fn osm_tags_build_an_address() {
    let tags: Vec<(String, String)> = vec![
        ("addr:housenumber".to_string(), "10".to_string()),
        ("addr:street".to_string(), "Rue X".to_string()),
        ("addr:city".to_string(), "Paris".to_string()),
        ("name".to_string(), "somewhere".to_string()),
        ("addr:housenumber".to_string(), "12".to_string()),
    ];
    let a = address_from_tags("48.85".to_string(), "2.35".to_string(), &tags);
    assert_eq!(a.number.as_deref(), Some("12"));
    assert_eq!(a.street.as_deref(), Some("Rue X"));
    assert_eq!(a.city.as_deref(), Some("Paris"));
    assert_eq!(a.unit, None);
    assert!(has_addr_tag(&tags));
    assert!(!has_addr_tag(&vec![("name".to_string(), "addr:fake-value".to_string())]));
}

#[test]
fn osm_import_routes_key_conflicts_to_errors() {
    let node = |num: &str| OsmNode {
        lat: "1.0".to_string(),
        lon: "2.0".to_string(),
        tags: vec![
            ("addr:housenumber".to_string(), num.to_string()),
            ("addr:street".to_string(), "Rue X".to_string()),
            ("addr:city".to_string(), "Ville".to_string()),
        ],
    };
    let nodes = vec![node("10"), node("10"), node("11"), OsmNode {
        lat: "9.9".to_string(),
        lon: "9.9".to_string(),
        tags: vec![("name".to_string(), "no address".to_string())],
    }];
    let db = import_addresses(&nodes);
    assert_eq!(db.get_nb_addresses(), 2);
    assert_eq!(db.get_nb_errors(), 1);
    let kinds = db.get_nb_by_errors_kind();
    assert_eq!(kinds.len(), 1);
    assert_eq!(kinds[0].0, "key conflict");
    assert_eq!(kinds[0].1, 1);
    assert_eq!(db.get_nb_cities(), 1);
}

#[test]
fn osm_import_bounces_street_less_rows() {
    // an address-tagged node without a street violates the street column
    let nodes = vec![OsmNode {
        lat: "1.0".to_string(),
        lon: "2.0".to_string(),
        tags: vec![("addr:city".to_string(), "Nowhere".to_string())],
    }];
    let db = import_addresses(&nodes);
    assert_eq!(db.get_nb_addresses(), 0);
    assert_eq!(db.get_nb_errors(), 1);
    let kinds = db.get_nb_by_errors_kind();
    assert_eq!(kinds.len(), 1);
    assert_eq!(kinds[0].0, "missing street");
    assert_eq!(kinds[0].1, 1);
}

#[test]
fn osm_absent_key_components_never_conflict() {
    // SQL unique keys treat NULLs as distinct: two number-less rows both land
    let mut db = DB::new(1);
    let mk = || Address {
        lat: "1".to_string(),
        lon: "2".to_string(),
        number: None,
        street: Some("Rue".to_string()),
        unit: None,
        city: Some("V".to_string()),
        district: None,
        region: None,
        postcode: None,
    };
    db.insert(mk());
    db.insert(mk());
    assert_eq!(db.get_nb_addresses(), 2);
    assert_eq!(db.get_nb_errors(), 0);
    assert!(db.get_nb_by_errors_kind().is_empty());
}

#[test]
fn osm_db_buffers_until_threshold() {
    let mut db = DB::new(3);
    let mk = |num: &str| {
        let mut a = addr(Some(num), Some("Rue"), Some("V"));
        a.lat = "1".to_string();
        a.lon = "2".to_string();
        a
    };
    db.insert(mk("1"));
    db.insert(mk("2"));
    assert_eq!(db.get_nb_addresses(), 0);
    db.insert(mk("3"));
    assert_eq!(db.get_nb_addresses(), 3);
    db.insert(mk("3"));
    db.flush_buffer();
    assert_eq!(db.get_nb_addresses(), 3);
    assert_eq!(db.get_nb_errors(), 1);
}

#[test]
fn insertion_order_does_not_change_the_set() {
    let mk = |n: &str, s: &str| addr(Some(n), Some(s), Some("Paris"));
    let batch1 = vec![mk("1", "Rue A"), mk("2", "Rue B"), mk("S/N", "Rue C"), mk("3", "Rue D")];
    let batch2 = vec![mk("3", "Rue D"), mk("S/N", "Rue C"), mk("1", "Rue A"), mk("2", "Rue B")];

    let tuples = |batch: Vec<Address>| -> Vec<String> {
        let d = Deduplicator::new();
        let mut ins = d.get_db_inserter(ConstRanker { value: 1 }, FnvStreetHasher {});
        ins.insert_all(batch);
        let d = ins.finish();
        let mut v: Vec<String> = d
            .store
            .addresses
            .iter()
            .map(|sa| {
                format!(
                    "{}|{}|{:?}|{:?}",
                    sa.address.lat, sa.address.lon, sa.address.number, sa.address.street
                )
            })
            .collect();
        v.sort();
        v
    };
    assert_eq!(tuples(batch1), tuples(batch2));
}
