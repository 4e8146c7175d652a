use spider_firewall::{build_dictionary, Aggregator, Category, CategoryStore};

/// A store seeded with the same kind of data the shipped artifact holds.
fn seed_store() -> CategoryStore {
    let mut agg = Aggregator::new();
    agg.add("wingwahlau.com", Category::Bad);
    agg.add("10minutesto1.net", Category::Bad);
    agg.add("admob.google.com", Category::Ads);
    agg.add("ads.linkedin.com", Category::Ads);
    agg.add("chrome://about", Category::Ads);
    agg.add("2.atlasroofing.com", Category::Tracking);
    agg.add("pixel.rubiconproject.net.akadns.net", Category::Tracking);
    agg.add("bet.example.org", Category::Gambling);
    CategoryStore::new(build_dictionary(agg))
}

#[test]
fn test_is_bad_website_url_within_set() {
    let store = seed_store();
    let bad_website = "wingwahlau.com";
    assert!(store.is_bad_website_url(bad_website));
}

#[test]
fn test_is_bad_website_url_not_in_set() {
    let store = seed_store();
    let good_website = "goodwebsite.com";
    assert!(!store.is_bad_website_url(good_website));
}

#[test]
fn test_is_bad_website_url_empty_string() {
    let store = seed_store();
    assert!(!store.is_bad_website_url(""));
}

#[test]
fn test_is_bad_website_url_case_sensitivity() {
    let store = seed_store();
    let bad_website = "10minutesto1.net";
    assert!(store.is_bad_website_url(bad_website.to_lowercase().as_str()));
}

#[test]
fn test_is_ad_website_url() {
    let store = seed_store();
    assert!(store.is_ad_website_url("admob.google.com"));
    assert!(store.is_ad_website_url("ads.linkedin.com"));
}

#[test]
fn test_is_tracking_website_url() {
    let store = seed_store();
    assert!(store.is_tracking_website_url("2.atlasroofing.com"));
    assert!(store.is_tracking_website_url("pixel.rubiconproject.net.akadns.net"));
}

#[test]
fn test_define_firewall_macro() {
    let mut store = seed_store();
    store
        .register(
            "ads",
            vec!["adwebsite.com".to_string(), "ad1website.com".to_string()],
        )
        .unwrap();
    assert!(store.is_ad_website_url("adwebsite.com"));
    assert!(store.is_ad_website_url("ad1website.com"));

    store
        .register("gambling", vec!["gamblingwebsite.com".to_string()])
        .unwrap();
    assert!(store.is_gambling_website_url("gamblingwebsite.com"));

    store
        .register("unknown", vec!["anotherbadwebsite.com".to_string()])
        .unwrap();
    assert!(store.is_bad_website_url("anotherbadwebsite.com"));

    // "global" also selects the general bad slot, which is already taken,
    // so this second registration fails and changes nothing.
    assert!(store.register("global", vec!["chrome:/".to_string()]).is_err());
    assert!(store.is_ad_website_url("chrome://about"));
}
