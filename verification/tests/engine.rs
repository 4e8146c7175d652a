use spider_firewall::{
    build_dictionary, deserialize, get_host_from_url, normalize_line, serialize, Aggregator,
    BuildError, Category, CategoryStore, Dialect, Dictionary, DomainEntry,
};

fn entry(d: &str, mask: u8) -> DomainEntry {
    DomainEntry {
        domain: d.chars().collect(),
        mask,
    }
}

fn seeded_aggregator() -> Aggregator {
    let mut agg = Aggregator::new();
    agg.add("wingwahlau.com", Category::Bad);
    agg.add("admob.google.com", Category::Ads);
    agg.add("2.atlasroofing.com", Category::Tracking);
    agg.add("bet.example.org", Category::Gambling);
    agg
}

#[test]
fn test_get_host_from_url_strips_scheme_and_path() {
    assert_eq!(
        get_host_from_url("https://example.com/path/to/page"),
        Some("example.com")
    );
    assert_eq!(get_host_from_url("http://example.com/x"), Some("example.com"));
    assert_eq!(get_host_from_url("https://example.com"), Some("example.com"));
}

#[test]
fn test_get_host_from_url_unrecognized_scheme() {
    // Only "https://" and "http://" are recognized; anything else is kept
    // and the host is simply the part before the first slash.
    assert_eq!(get_host_from_url("plainhost.com"), Some("plainhost.com"));
    assert_eq!(get_host_from_url("ftp://x.com"), Some("ftp:"));
    assert_eq!(get_host_from_url(""), Some(""));
    // At most one prefix is stripped.
    assert_eq!(get_host_from_url("https://http://x.com"), Some("http:"));
}

#[test]
fn test_walk_inherits_from_parent() {
    let store = CategoryStore::new(build_dictionary(seeded_aggregator()));
    assert!(store.is_bad_website_url("sub.wingwahlau.com"));
    assert!(store.is_ad_website_url("a.b.admob.google.com"));
    assert!(store.is_gambling_website_url("x.bet.example.org"));
    assert!(!store.is_bad_website_url("admob.google.com"));
}

#[test]
fn test_deep_nested_miss_returns_false() {
    let store = CategoryStore::new(build_dictionary(seeded_aggregator()));
    assert!(!store.is_bad_website_url("a.b.c.d.goodwebsite.com"));
}

#[test]
fn test_bare_top_level_label_is_no_parent() {
    let mut agg = Aggregator::new();
    agg.add("com", Category::Bad);
    let store = CategoryStore::new(build_dictionary(agg));
    // The starting host itself is always consulted, even without a dot...
    assert!(store.is_bad_website_url("com"));
    // ...but the walk never treats a bare top-level label as a parent.
    assert!(!store.is_bad_website_url("x.com"));
}

#[test]
fn test_category_mask_monotonic_under_stripping() {
    let store = CategoryStore::new(build_dictionary(seeded_aggregator()));
    let child = store.category_mask_for("deep.admob.google.com");
    let parent = store.category_mask_for("admob.google.com");
    assert_eq!(child & parent, parent);
}

#[test]
fn test_queries_are_idempotent() {
    let store = CategoryStore::new(build_dictionary(seeded_aggregator()));
    assert_eq!(
        store.is_bad_website_url("wingwahlau.com"),
        store.is_bad_website_url("wingwahlau.com")
    );
    assert_eq!(
        store.category_mask_for("a.b.admob.google.com"),
        store.category_mask_for("a.b.admob.google.com")
    );
    assert_eq!(
        store.is_url_bad("ads.linkedin.com"),
        store.is_url_bad("ads.linkedin.com")
    );
}

#[test]
fn test_prune_removes_subsumed_entries_only() {
    let mut agg = Aggregator::new();
    agg.add("example.com", Category::Ads);
    agg.add("ads.example.com", Category::Ads);
    agg.add("track.example.com", Category::Tracking);
    let d = build_dictionary(agg);
    // The fully subsumed child is gone; the matcher classifies it through
    // the parent anyway.
    assert_eq!(d.lookup("ads.example.com"), 0);
    assert_eq!(d.lookup("example.com"), 2);
    assert_eq!(d.lookup("track.example.com"), 4);
    let store = CategoryStore::new(d);
    assert!(store.is_ad_website_url("ads.example.com"));
    assert!(store.is_tracking_website_url("track.example.com"));
    assert!(!store.is_tracking_website_url("ads.example.com"));
}

#[test]
fn test_duplicate_insertions_are_idempotent() {
    let mut agg = Aggregator::new();
    agg.add("dup.example.com", Category::Ads);
    agg.add("dup.example.com", Category::Ads);
    agg.add("dup.example.com", Category::Bad);
    let d = build_dictionary(agg);
    assert_eq!(d.lookup("dup.example.com"), 3);
}

#[test]
fn test_whitelist_clears_bad_only() {
    let mut agg = Aggregator::new();
    agg.add("dual.com", Category::Bad);
    agg.add("dual.com", Category::Ads);
    agg.add("pure.com", Category::Bad);
    agg.add("kept.com", Category::Bad);
    agg.apply_whitelist(&vec!["dual.com".to_string(), "pure.com".to_string()]);
    let store = CategoryStore::new(build_dictionary(agg));
    assert!(!store.is_bad_website_url("dual.com"));
    assert!(store.is_ad_website_url("dual.com"));
    assert!(!store.is_bad_website_url("pure.com"));
    assert!(store.is_bad_website_url("kept.com"));
}

#[test]
fn test_register_conflict_keeps_first_registration() {
    let mut store = CategoryStore::new(build_dictionary(seeded_aggregator()));
    store
        .register("networking", vec!["ping.example.net".to_string()])
        .unwrap();
    let second = store.register("networking", vec!["other.example.net".to_string()]);
    assert!(second.is_err());
    // The first registration's contents are queryable unchanged.
    assert!(store.is_networking_url("ping.example.net"));
    assert!(!store.is_networking_url("other.example.net"));
}

#[test]
fn test_networking_and_any_bad_queries() {
    let mut store = CategoryStore::new(build_dictionary(seeded_aggregator()));
    store
        .register("networking", vec!["ping.example.net".to_string()])
        .unwrap();
    assert!(store.is_networking_url("wingwahlau.com"));
    assert!(store.is_networking_url("ping.example.net"));
    assert!(!store.is_bad_website_url("ping.example.net"));
    assert!(store.is_url_bad("ping.example.net"));
    assert!(store.is_url_bad("admob.google.com"));
    assert!(!store.is_url_bad("goodwebsite.com"));
}

#[test]
fn test_clean_variants_normalize_first() {
    let mut store = CategoryStore::new(build_dictionary(seeded_aggregator()));
    store
        .register("networking", vec!["ping.example.net".to_string()])
        .unwrap();
    assert!(store.is_bad_website_url_clean("https://wingwahlau.com/path"));
    assert!(store.is_ad_website_url_clean("http://admob.google.com/ad?x=1"));
    assert!(store.is_tracking_website_url_clean("https://2.atlasroofing.com/x"));
    assert!(store.is_gambling_website_url_clean("https://bet.example.org/slots"));
    assert!(store.is_networking_website_url_clean("https://ping.example.net/beacon"));
    assert!(store.is_url_bad_clean("https://sub.wingwahlau.com/q"));
    assert!(!store.is_bad_website_url_clean("https://goodwebsite.com/path"));
}

#[test]
fn test_build_rejects_malformed_keys() {
    assert!(matches!(
        Dictionary::build(vec![entry("", 1)]),
        Err(BuildError::MalformedKey)
    ));
    assert!(matches!(
        Dictionary::build(vec![entry("caf\u{e9}.com", 1)]),
        Err(BuildError::MalformedKey)
    ));
}

#[test]
fn test_build_rejects_duplicate_and_unsorted_keys() {
    assert!(matches!(
        Dictionary::build(vec![entry("a.com", 1), entry("a.com", 2)]),
        Err(BuildError::DuplicateKey)
    ));
    assert!(matches!(
        Dictionary::build(vec![entry("b.com", 1), entry("a.com", 2)]),
        Err(BuildError::UnsortedKeys)
    ));
    assert!(Dictionary::build(vec![entry("a.com", 1), entry("b.com", 2)]).is_ok());
}

#[test]
fn test_artifact_round_trip() {
    let d = build_dictionary(seeded_aggregator());
    let bytes = serialize(&d);
    assert_eq!(spider_firewall::try_serialize(&d), Some(bytes.clone()));
    let d2 = deserialize(&bytes).unwrap();
    assert_eq!(d2.lookup("wingwahlau.com"), 1);
    assert_eq!(d2.lookup("admob.google.com"), 2);
    assert_eq!(d2.lookup("2.atlasroofing.com"), 4);
    assert_eq!(d2.lookup("bet.example.org"), 8);
    assert_eq!(d2.lookup("missing.com"), 0);
}

#[test]
fn test_artifact_rejects_malformed_blobs() {
    // Too short for a header.
    assert!(deserialize(&vec![1u8, 2, 3]).is_err());
    // A truncated blob.
    let d = build_dictionary(seeded_aggregator());
    let mut bytes = serialize(&d);
    bytes.pop();
    assert!(deserialize(&bytes).is_err());
    // A non-ASCII key byte.
    assert!(deserialize(&vec![1, 0, 0, 0, 1, 0, 0, 0, 200, 1]).is_err());
    // An empty key.
    assert!(deserialize(&vec![1, 0, 0, 0, 0, 0, 0, 0, 1]).is_err());
    // Keys out of order.
    let blob = vec![2, 0, 0, 0, 1, 0, 0, 0, b'b', 1, 1, 0, 0, 0, b'a', 1];
    assert!(deserialize(&blob).is_err());
    // Trailing bytes after the declared entries.
    let blob2 = vec![1, 0, 0, 0, 1, 0, 0, 0, b'a', 1, 9];
    assert!(deserialize(&blob2).is_err());
}

#[test]
fn test_normalize_hosts_dialect() {
    assert_eq!(
        normalize_line("0.0.0.0 baddomain.com", Dialect::Hosts),
        Some("baddomain.com".to_string())
    );
    assert_eq!(
        normalize_line("127.0.0.1  spaced.com   # comment", Dialect::Hosts),
        Some("spaced.com".to_string())
    );
    assert_eq!(normalize_line("# a comment", Dialect::Hosts), None);
    assert_eq!(normalize_line("", Dialect::Hosts), None);
    assert_eq!(normalize_line("   ", Dialect::Hosts), None);
    assert_eq!(normalize_line("0.0.0.0", Dialect::Hosts), None);
    assert_eq!(normalize_line("0.0.0.0 localhost", Dialect::Hosts), None);
    assert_eq!(normalize_line("0.0.0.0 broadcasthost", Dialect::Hosts), None);
    assert_eq!(normalize_line("::1 ip6-allnodes", Dialect::Hosts), None);
}

#[test]
fn test_normalize_plain_dialect() {
    assert_eq!(
        normalize_line("domain.com # inline comment", Dialect::PlainList),
        Some("domain.com".to_string())
    );
    assert_eq!(normalize_line("# comment", Dialect::PlainList), None);
    assert_eq!(normalize_line("", Dialect::PlainList), None);
    assert_eq!(normalize_line("  \t ", Dialect::PlainList), None);
}

#[test]
fn test_normalize_adblock_dialect() {
    assert_eq!(
        normalize_line("||ads.example.com^", Dialect::Adblock),
        Some("ads.example.com".to_string())
    );
    assert_eq!(
        normalize_line("plain.example.com", Dialect::Adblock),
        Some("plain.example.com".to_string())
    );
    assert_eq!(normalize_line("||^", Dialect::Adblock), None);
    assert_eq!(normalize_line("", Dialect::Adblock), None);
}

#[test]
fn test_normalize_quoted_csv_dialect() {
    assert_eq!(
        normalize_line("\"csv.example.com\",", Dialect::QuotedCsv),
        Some("csv.example.com".to_string())
    );
    assert_eq!(
        normalize_line("  \"trimmed.com\"  ", Dialect::QuotedCsv),
        Some("trimmed.com".to_string())
    );
    assert_eq!(normalize_line(" \"\" , ", Dialect::QuotedCsv), None);
}

#[test]
fn test_pipeline_from_raw_lines() {
    let lines = [
        "0.0.0.0 fetched.bad.example",
        "# comment line",
        "0.0.0.0 localhost",
    ];
    let mut agg = Aggregator::new();
    for line in lines.iter() {
        if let Some(domain) = normalize_line(line, Dialect::Hosts) {
            agg.add(domain.as_str(), Category::Bad);
        }
    }
    let store = CategoryStore::new(build_dictionary(agg));
    assert!(store.is_bad_website_url("fetched.bad.example"));
    assert!(!store.is_bad_website_url("localhost"));
}
