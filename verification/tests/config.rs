use podstats::config::Config;
use podstats::subscription::{deserialize, vec_serialize, Subscription};

/// A configuration whose cache holds `subs` (two fresh subscriptions when
/// none are given), loaded from the cache's bytes.
fn setup_loaded_cache(loc: Option<&str>, subs: Option<Vec<Subscription>>) -> Config {
    let test_cache_loc = match loc {
        Some(l) => l,
        None => "testcache",
    };

    let mut config = Config::new(Some(test_cache_loc.to_string()), None);

    let unpacked_subs = match subs {
        Some(s) => s,
        None => {
            let sub1 = Subscription::new("testurl1", "testname1", None);
            let sub2 = Subscription::new("testurl2", "testname2", None);

            let mut subs = Vec::new();
            subs.push(sub1);
            subs.push(sub2);
            subs
        }
    };

    let s = vec_serialize(&unpacked_subs);
    config.load_cache(&s);
    config
}

#[test]
fn test_get_names() {
    let conf = setup_loaded_cache(Some("testcache1"), None);

    let mut n = Vec::new();
    n.push("testname1");
    n.push("testname2");

    let names = conf.get_names();

    assert_eq!(n, names);
}

#[test]
fn test_get_entry_counts() {
    let conf = setup_loaded_cache(Some("testcache2"), None);

    let mut l_vec = Vec::new();
    l_vec.push(0);
    l_vec.push(0);

    let latest_vec = conf.get_entry_counts();

    assert_eq!(l_vec, latest_vec);
}

#[test]
fn test_get_highest_entry_count_sub() {
    let sub1 = Subscription::new("testurl1", "testname1", None);
    let sub2 = Subscription::new("testurl2", "testname2", None);

    let mut subs = Vec::new();
    subs.push(sub1.clone());
    subs.push(sub2.clone());

    let conf = setup_loaded_cache(Some("testcache3"), Some(subs));

    let sub = conf.get_highest_entry_count_sub();

    assert_eq!(sub1, sub);
}

#[test]
fn test_get_highest_entry_count_sub_name() {
    let sub1 = Subscription::new("testurl1", "testname1", None);
    let sub2 = Subscription::new("testurl2", "testname2", None);

    let mut subs = Vec::new();
    subs.push(sub1.clone());
    subs.push(sub2.clone());

    let conf = setup_loaded_cache(Some("testcache4"), Some(subs));

    let name = conf.get_highest_entry_count_sub_name();

    assert_eq!(sub1.name, name);
}

// ---------------------------------------------------------------------------

/// A subscription named `name` whose latest entry number is `latest`, with
/// one entry per title in `titles`.
fn sub_with(name: &str, latest: u64, titles: &[&str]) -> Subscription {
    let mut out = Vec::new();
    rmp::encode::write_array_len(&mut out, 7).unwrap();
    rmp::encode::write_str(&mut out, "url").unwrap();
    rmp::encode::write_str(&mut out, "url").unwrap();
    rmp::encode::write_str(&mut out, name).unwrap();
    rmp::encode::write_str(&mut out, "dir").unwrap();
    rmp::encode::write_uint(&mut out, 0).unwrap();
    rmp::encode::write_bool(&mut out, false).unwrap();
    rmp::encode::write_array_len(&mut out, 4).unwrap();
    rmp::encode::write_array_len(&mut out, titles.len() as u32).unwrap();
    for t in titles {
        rmp::encode::write_array_len(&mut out, 2).unwrap();
        rmp::encode::write_str(&mut out, t).unwrap();
        rmp::encode::write_array_len(&mut out, 0).unwrap();
    }
    rmp::encode::write_array_len(&mut out, 0).unwrap();
    rmp::encode::write_uint(&mut out, latest).unwrap();
    rmp::encode::write_array_len(&mut out, 0).unwrap();
    deserialize(&out).unwrap()
}

#[test]
fn new_config_location() {
    let c = Config::new(Some("given".to_string()), Some("found".to_string()));
    assert_eq!(c.cache_location, "given");
    assert!(c.get_names().is_empty());
    let c = Config::new(None, Some("found".to_string()));
    assert_eq!(c.cache_location, "found");
    assert!(c.get_subscriptions().is_empty());
}

#[test]
fn highest_entry_count_picks_the_maximum() {
    let subs = vec![sub_with("a", 3, &[]), sub_with("b", 17, &[]), sub_with("c", 5, &[])];
    let conf = setup_loaded_cache(None, Some(subs));
    assert_eq!(conf.get_entry_counts(), vec![3, 17, 5]);
    assert_eq!(conf.get_highest_entry_count_sub_name(), "b");
    assert_eq!(conf.get_highest_entry_count_sub().get_latest_entry_number(), 17);
}

#[test]
fn highest_entry_count_tie_goes_to_the_first() {
    let subs = vec![
        sub_with("a", 2, &[]),
        sub_with("b", 9, &[]),
        sub_with("c", 9, &[]),
        sub_with("d", 1, &[]),
    ];
    let conf = setup_loaded_cache(None, Some(subs));
    assert_eq!(conf.get_highest_entry_count_sub_name(), "b");
}

#[test]
fn entry_names_per_subscription() {
    let subs = vec![sub_with("a", 2, &["one", "two", "three"]), sub_with("b", 0, &[]), sub_with("c", 1, &["only"])];
    let conf = setup_loaded_cache(None, Some(subs));
    assert_eq!(conf.get_earliest_entry_names(), vec!["one", "", "only"]);
    assert_eq!(conf.get_latest_entry_names(), vec!["three", "", "only"]);
    assert_eq!(conf.get_names(), vec!["a", "b", "c"]);
}

#[test]
fn load_cache_replaces_subscriptions() {
    let mut conf = setup_loaded_cache(Some("loc"), None);
    conf.load_cache(&vec_serialize(&vec![sub_with("z", 4, &[])]));
    assert_eq!(conf.get_names(), vec!["z"]);
    assert_eq!(conf.cache_location, "loc");
}
