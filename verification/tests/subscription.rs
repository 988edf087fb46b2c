use podstats::subscription::{
    deserialize, is_subscription_list, serialize, vec_deserialize, vec_serialize, Subscription,
};

#[test]
fn serialize_deserialize_test() {
    let sub = Subscription::new("testurl", "testname", None);
    let s = serialize(&sub);
    let re_sub = deserialize(&s);

    assert_eq!(sub, re_sub.unwrap());
}

#[test]
fn vec_serialize_deserialize_test() {
    let sub = Subscription::new("testurl", "testname", None);
    let mut subs = Vec::new();
    subs.push(sub);

    let s = vec_serialize(&subs);
    let re_subs = vec_deserialize(&s);

    assert_eq!(subs, re_subs.unwrap());
}

// ---------------------------------------------------------------------------
// Building cache bytes by hand with rmp's primitive writers.

struct EntryBytes<'a> {
    title: &'a str,
    urls: Vec<&'a str>,
}

fn push_entry(out: &mut Vec<u8>, e: &EntryBytes) {
    rmp::encode::write_array_len(out, 2).unwrap();
    rmp::encode::write_str(out, e.title).unwrap();
    rmp::encode::write_array_len(out, e.urls.len() as u32).unwrap();
    for u in &e.urls {
        rmp::encode::write_str(out, u).unwrap();
    }
}

fn push_subscription(out: &mut Vec<u8>, name: &str, latest: u64, entries: &[EntryBytes]) {
    rmp::encode::write_array_len(out, 7).unwrap();
    rmp::encode::write_str(out, "http://example.com/feed").unwrap();
    rmp::encode::write_str(out, "http://example.com/feed").unwrap();
    rmp::encode::write_str(out, name).unwrap();
    rmp::encode::write_str(out, "dir").unwrap();
    rmp::encode::write_uint(out, 5).unwrap();
    rmp::encode::write_bool(out, true).unwrap();
    // feed state
    rmp::encode::write_array_len(out, 4).unwrap();
    rmp::encode::write_array_len(out, entries.len() as u32).unwrap();
    for e in entries {
        push_entry(out, e);
    }
    rmp::encode::write_array_len(out, 0).unwrap();
    rmp::encode::write_uint(out, latest).unwrap();
    rmp::encode::write_array_len(out, 1).unwrap();
    rmp::encode::write_array_len(out, 3).unwrap();
    rmp::encode::write_bool(out, false).unwrap();
    rmp::encode::write_uint(out, 300).unwrap();
    rmp::encode::write_str(out, "summary").unwrap();
}

fn sample_subscription_bytes(name: &str, latest: u64) -> Vec<u8> {
    let mut out = Vec::new();
    let entries = vec![
        EntryBytes { title: "first episode", urls: vec!["http://example.com/1.mp3"] },
        EntryBytes { title: "second episode", urls: vec!["http://example.com/2.mp3", "http://mirror/2.mp3"] },
    ];
    push_subscription(&mut out, name, latest, &entries);
    out
}

#[test]
fn new_subscription_fields() {
    let sub = Subscription::new("testurl", "testname", None);
    assert_eq!(sub.url, "testurl");
    assert_eq!(sub.original_url, "testurl");
    assert_eq!(sub.name, "testname");
    assert_eq!(sub.directory, "fakedir");
    assert_eq!(sub.backlog_limit, 0);
    assert!(!sub.use_title_as_filename);
    assert_eq!(sub.get_latest_entry_number(), 0);
    assert_eq!(sub.get_earliest_entry_name(), "");
    assert_eq!(sub.get_latest_entry_name(), "");

    let sub = Subscription::new("u", "n", Some("/podcasts/n"));
    assert_eq!(sub.directory, "/podcasts/n");
}

#[test]
fn serialize_exact_bytes_of_new_subscription() {
    let sub = Subscription::new("testurl", "testname", None);
    let mut expected: Vec<u8> = vec![0x97];
    expected.push(0xa7);
    expected.extend_from_slice(b"testurl");
    expected.push(0xa7);
    expected.extend_from_slice(b"testurl");
    expected.push(0xa8);
    expected.extend_from_slice(b"testname");
    expected.push(0xa7);
    expected.extend_from_slice(b"fakedir");
    expected.extend_from_slice(&[0x00, 0xc2, 0x94, 0x90, 0x90, 0x00, 0x90]);
    assert_eq!(serialize(&sub), expected);

    let mut list = vec![0x91];
    list.extend_from_slice(&expected);
    assert_eq!(vec_serialize(&vec![sub]), list);
    assert_eq!(vec_serialize(&Vec::new()), vec![0x90]);
}

#[test]
fn deserialize_hand_built_subscription() {
    let bytes = sample_subscription_bytes("show", 42);
    let sub = deserialize(&bytes).unwrap();
    assert_eq!(sub.url, "http://example.com/feed");
    assert_eq!(sub.name, "show");
    assert_eq!(sub.directory, "dir");
    assert_eq!(sub.backlog_limit, 5);
    assert!(sub.use_title_as_filename);
    assert_eq!(sub.get_latest_entry_number(), 42);
    assert_eq!(sub.get_earliest_entry_name(), "first episode");
    assert_eq!(sub.get_latest_entry_name(), "second episode");
    // and writing it again gives the same bytes back
    assert_eq!(serialize(&sub), bytes);
}

#[test]
fn roundtrip_with_long_strings_and_big_numbers() {
    let long_name: String = std::iter::repeat("ä").take(300).collect();
    let mut bytes = Vec::new();
    push_subscription(&mut bytes, &long_name, u64::MAX, &[EntryBytes { title: "t", urls: vec![] }]);
    let sub = deserialize(&bytes).unwrap();
    assert_eq!(sub.name, long_name);
    assert_eq!(sub.get_latest_entry_number(), u64::MAX);
    assert_eq!(serialize(&sub), bytes);
    let again = deserialize(&serialize(&sub)).unwrap();
    assert_eq!(again, sub);
}

#[test]
fn deserialize_ignores_trailing_bytes() {
    let mut bytes = sample_subscription_bytes("show", 1);
    bytes.extend_from_slice(&[0xff, 0x00, 0x13]);
    let sub = deserialize(&bytes).unwrap();
    assert_eq!(sub.name, "show");
}

#[test]
fn deserialize_accepts_wider_integer_encodings() {
    // backlog_limit 5 written as uint 64, and latest entry number 7 as int 16
    let mut bytes = Vec::new();
    rmp::encode::write_array_len(&mut bytes, 7).unwrap();
    for s in ["u", "u", "n", "d"] {
        rmp::encode::write_str(&mut bytes, s).unwrap();
    }
    rmp::encode::write_u64(&mut bytes, 5).unwrap();
    rmp::encode::write_bool(&mut bytes, false).unwrap();
    rmp::encode::write_array_len(&mut bytes, 4).unwrap();
    rmp::encode::write_array_len(&mut bytes, 0).unwrap();
    rmp::encode::write_array_len(&mut bytes, 0).unwrap();
    rmp::encode::write_i16(&mut bytes, 7).unwrap();
    rmp::encode::write_array_len(&mut bytes, 0).unwrap();
    let sub = deserialize(&bytes).unwrap();
    assert_eq!(sub.backlog_limit, 5);
    assert_eq!(sub.get_latest_entry_number(), 7);
}

#[test]
fn deserialize_rejects_malformed_input() {
    assert!(deserialize(&Vec::new()).is_none());
    // truncated
    let bytes = sample_subscription_bytes("show", 1);
    assert!(deserialize(&bytes[..bytes.len() - 1].to_vec()).is_none());
    // a struct array with the wrong number of fields
    let mut wrong = bytes.clone();
    wrong[0] = 0x96;
    assert!(deserialize(&wrong).is_none());
    // a negative number where a count belongs
    let mut neg = Vec::new();
    rmp::encode::write_array_len(&mut neg, 7).unwrap();
    for s in ["u", "u", "n", "d"] {
        rmp::encode::write_str(&mut neg, s).unwrap();
    }
    rmp::encode::write_sint(&mut neg, -1).unwrap();
    assert!(deserialize(&neg).is_none());
    // a string that is not UTF-8
    let mut bad = vec![0x97, 0xa2, 0xff, 0xfe];
    bad.extend_from_slice(&bytes[1..]);
    assert!(deserialize(&bad).is_none());
    // a list header promising more subscriptions than follow
    let mut list = vec![0x92];
    list.extend_from_slice(&bytes);
    assert!(!is_subscription_list(&list));
    assert!(!is_subscription_list(&Vec::new()));
}

#[test]
fn vec_roundtrip_of_several() {
    let mut bytes = vec![0x93];
    bytes.extend_from_slice(&sample_subscription_bytes("a", 1));
    bytes.extend_from_slice(&sample_subscription_bytes("b", 20));
    bytes.extend_from_slice(&sample_subscription_bytes("c", 300));
    let subs = vec_deserialize(&bytes).unwrap();
    assert_eq!(subs.len(), 3);
    assert_eq!(subs[1].name, "b");
    assert_eq!(subs[2].get_latest_entry_number(), 300);
    assert_eq!(vec_serialize(&subs), bytes);
    let back = vec_deserialize(&vec_serialize(&subs)).unwrap();
    assert_eq!(back, subs);
}

#[test]
fn clone_keeps_everything() {
    let sub = deserialize(&sample_subscription_bytes("show", 9)).unwrap();
    let c = sub.clone();
    assert_eq!(c, sub);
    assert_eq!(serialize(&c), serialize(&sub));
}

// ---------------------------------------------------------------------------
// The map form of the structs, as a cache written with field names holds it.

fn key(out: &mut Vec<u8>, name: &str) {
    rmp::encode::write_str(out, name).unwrap();
}

/// A value nobody reads: a map holding a float, a nil, an ext, a string that
/// is not UTF-8 and a nested array.
fn push_unknown_value(out: &mut Vec<u8>) {
    rmp::encode::write_map_len(out, 5).unwrap();
    key(out, "f");
    rmp::encode::write_f64(out, 1.5).unwrap();
    key(out, "n");
    rmp::encode::write_nil(out).unwrap();
    key(out, "x");
    rmp::encode::write_ext_meta(out, 3, 7).unwrap();
    out.extend_from_slice(&[1, 2, 3]);
    key(out, "s");
    out.extend_from_slice(&[0xa2, 0xff, 0xfe]);
    key(out, "a");
    rmp::encode::write_array_len(out, 2).unwrap();
    rmp::encode::write_sint(out, -3).unwrap();
    rmp::encode::write_array_len(out, 0).unwrap();
}

fn push_entry_map(out: &mut Vec<u8>, title: &str, urls: &[&str]) {
    rmp::encode::write_map_len(out, 2).unwrap();
    key(out, "urls");
    rmp::encode::write_array_len(out, urls.len() as u32).unwrap();
    for u in urls {
        rmp::encode::write_str(out, u).unwrap();
    }
    key(out, "title");
    rmp::encode::write_str(out, title).unwrap();
}

fn push_feed_state_map(out: &mut Vec<u8>, latest: u64) {
    rmp::encode::write_map_len(out, 7).unwrap();
    key(out, "entries");
    rmp::encode::write_array_len(out, 2).unwrap();
    push_entry_map(out, "first episode", &["http://example.com/1.mp3"]);
    push_entry_map(out, "second episode", &[]);
    key(out, "entries_state_dict");
    push_unknown_value(out);
    key(out, "queue");
    rmp::encode::write_array_len(out, 0).unwrap();
    key(out, "latest_entry_number");
    rmp::encode::write_uint(out, latest).unwrap();
    key(out, "summary_queue");
    rmp::encode::write_array_len(out, 1).unwrap();
    rmp::encode::write_map_len(out, 3).unwrap();
    key(out, "name");
    rmp::encode::write_str(out, "summary").unwrap();
    key(out, "number");
    rmp::encode::write_uint(out, 300).unwrap();
    key(out, "is_this_session");
    rmp::encode::write_bool(out, true).unwrap();
    key(out, "last_modified");
    rmp::encode::write_str(out, "Tue, 01 Jan 2019").unwrap();
    key(out, "etag");
    rmp::encode::write_nil(out).unwrap();
}

fn map_subscription_bytes(name: &str, latest: u64) -> Vec<u8> {
    let mut out = Vec::new();
    rmp::encode::write_map_len(&mut out, 8).unwrap();
    key(&mut out, "name");
    rmp::encode::write_str(&mut out, name).unwrap();
    key(&mut out, "url");
    rmp::encode::write_str(&mut out, "http://example.com/feed").unwrap();
    key(&mut out, "original_url");
    rmp::encode::write_str(&mut out, "http://example.com/old").unwrap();
    key(&mut out, "directory");
    rmp::encode::write_str(&mut out, "dir").unwrap();
    key(&mut out, "backlog_limit");
    rmp::encode::write_uint(&mut out, 5).unwrap();
    key(&mut out, "use_title_as_filename");
    rmp::encode::write_bool(&mut out, true).unwrap();
    key(&mut out, "feed_state");
    push_feed_state_map(&mut out, latest);
    key(&mut out, "settings");
    push_unknown_value(&mut out);
    out
}

#[test]
fn deserialize_map_form_skipping_unknown_keys() {
    let sub = deserialize(&map_subscription_bytes("show", 42)).unwrap();
    assert_eq!(sub.url, "http://example.com/feed");
    assert_eq!(sub.original_url, "http://example.com/old");
    assert_eq!(sub.name, "show");
    assert_eq!(sub.directory, "dir");
    assert_eq!(sub.backlog_limit, 5);
    assert!(sub.use_title_as_filename);
    assert_eq!(sub.get_latest_entry_number(), 42);
    assert_eq!(sub.get_earliest_entry_name(), "first episode");
    assert_eq!(sub.get_latest_entry_name(), "second episode");
    // written again, it takes the array form, which reads back the same
    let again = deserialize(&serialize(&sub)).unwrap();
    assert_eq!(again, sub);
}

#[test]
fn vec_deserialize_map_form() {
    let mut bytes = Vec::new();
    rmp::encode::write_array_len(&mut bytes, 2).unwrap();
    bytes.extend_from_slice(&map_subscription_bytes("a", 1));
    bytes.extend_from_slice(&sample_subscription_bytes("b", 2));
    let subs = vec_deserialize(&bytes).unwrap();
    assert_eq!(subs.len(), 2);
    assert_eq!(subs[0].name, "a");
    assert_eq!(subs[1].name, "b");
    assert_eq!(subs[0].get_latest_entry_number(), 1);
}

#[test]
fn deserialize_map_form_with_positional_keys() {
    let mut bytes = Vec::new();
    rmp::encode::write_map_len(&mut bytes, 8).unwrap();
    for (i, s) in ["u", "o", "n", "d"].iter().enumerate() {
        rmp::encode::write_uint(&mut bytes, i as u64).unwrap();
        rmp::encode::write_str(&mut bytes, s).unwrap();
    }
    rmp::encode::write_uint(&mut bytes, 4).unwrap();
    rmp::encode::write_uint(&mut bytes, 9).unwrap();
    rmp::encode::write_uint(&mut bytes, 5).unwrap();
    rmp::encode::write_bool(&mut bytes, false).unwrap();
    // a position past the last field is skipped like an unknown name
    rmp::encode::write_uint(&mut bytes, 300).unwrap();
    rmp::encode::write_str(&mut bytes, "ignored").unwrap();
    rmp::encode::write_uint(&mut bytes, 6).unwrap();
    push_feed_state_map(&mut bytes, 3);
    let sub = deserialize(&bytes).unwrap();
    assert_eq!(sub.url, "u");
    assert_eq!(sub.original_url, "o");
    assert_eq!(sub.name, "n");
    assert_eq!(sub.directory, "d");
    assert_eq!(sub.backlog_limit, 9);
    assert!(!sub.use_title_as_filename);
    assert_eq!(sub.get_latest_entry_number(), 3);
}

#[test]
fn deserialize_bin_strings() {
    let mut bytes = Vec::new();
    rmp::encode::write_array_len(&mut bytes, 7).unwrap();
    for s in ["http://u", "http://o", "näme", "dir"] {
        rmp::encode::write_bin(&mut bytes, s.as_bytes()).unwrap();
    }
    rmp::encode::write_uint(&mut bytes, 0).unwrap();
    rmp::encode::write_bool(&mut bytes, false).unwrap();
    rmp::encode::write_array_len(&mut bytes, 4).unwrap();
    rmp::encode::write_array_len(&mut bytes, 1).unwrap();
    rmp::encode::write_array_len(&mut bytes, 2).unwrap();
    rmp::encode::write_bin(&mut bytes, b"episode").unwrap();
    rmp::encode::write_array_len(&mut bytes, 1).unwrap();
    rmp::encode::write_bin(&mut bytes, b"http://e").unwrap();
    // an empty bin reads as an empty list
    rmp::encode::write_bin(&mut bytes, &[]).unwrap();
    rmp::encode::write_uint(&mut bytes, 1).unwrap();
    rmp::encode::write_array_len(&mut bytes, 0).unwrap();
    let sub = deserialize(&bytes).unwrap();
    assert_eq!(sub.url, "http://u");
    assert_eq!(sub.name, "näme");
    assert_eq!(sub.get_earliest_entry_name(), "episode");

    // bin bytes that are not UTF-8 are no string
    let mut bad = Vec::new();
    rmp::encode::write_array_len(&mut bad, 7).unwrap();
    rmp::encode::write_bin(&mut bad, &[0xff]).unwrap();
    bad.extend_from_slice(&bytes[11..]);
    assert!(deserialize(&bad).is_none());
}

#[test]
fn vec_deserialize_empty_bin_is_empty_list() {
    assert_eq!(vec_deserialize(&vec![0xc4, 0x00]).unwrap(), Vec::new());
    assert_eq!(vec_deserialize(&vec![0x90]).unwrap(), Vec::new());
    // a non-empty bin is no list of subscriptions
    assert!(!is_subscription_list(&vec![0xc4, 0x01, 0x00]));
    assert!(is_subscription_list(&vec![0xc4, 0x00]));
}

#[test]
fn deserialize_map_form_rejects_duplicate_and_missing_fields() {
    // `name` twice
    let mut dup = map_subscription_bytes("show", 1);
    dup[0] = 0x89;
    key(&mut dup, "name");
    rmp::encode::write_str(&mut dup, "again").unwrap();
    assert!(deserialize(&dup).is_none());
    // `feed_state` missing
    let mut missing = Vec::new();
    rmp::encode::write_map_len(&mut missing, 6).unwrap();
    for k in ["url", "original_url", "name", "directory"] {
        key(&mut missing, k);
        rmp::encode::write_str(&mut missing, "x").unwrap();
    }
    key(&mut missing, "backlog_limit");
    rmp::encode::write_uint(&mut missing, 0).unwrap();
    key(&mut missing, "use_title_as_filename");
    rmp::encode::write_bool(&mut missing, false).unwrap();
    assert!(deserialize(&missing).is_none());
    // a key that is neither a name nor an unsigned position
    let mut neg_key = Vec::new();
    rmp::encode::write_map_len(&mut neg_key, 1).unwrap();
    rmp::encode::write_sint(&mut neg_key, -1).unwrap();
    rmp::encode::write_str(&mut neg_key, "x").unwrap();
    assert!(deserialize(&neg_key).is_none());
}

#[test]
fn deserialize_nesting_limit() {
    // an unknown value nested a little is skipped
    let mut shallow = map_subscription_bytes("show", 1);
    shallow[0] = 0x89;
    key(&mut shallow, "deep");
    for _ in 0..10 {
        rmp::encode::write_array_len(&mut shallow, 1).unwrap();
    }
    rmp::encode::write_nil(&mut shallow).unwrap();
    assert_eq!(deserialize(&shallow).unwrap().name, "show");
    // nested past the limit it is refused
    let mut deep = map_subscription_bytes("show", 1);
    deep[0] = 0x89;
    key(&mut deep, "deep");
    for _ in 0..2000 {
        rmp::encode::write_array_len(&mut deep, 1).unwrap();
    }
    rmp::encode::write_nil(&mut deep).unwrap();
    assert!(deserialize(&deep).is_none());
}

// ---------------------------------------------------------------------------
// Agreement with `rmp_serde` on serde's own tuple and `Vec` types, which take
// the same array form as the structs.

type EntryTuple = (String, Vec<String>);
type SummaryTuple = (bool, u64, String);
type FeedStateTuple = (Vec<EntryTuple>, Vec<EntryTuple>, u64, Vec<SummaryTuple>);
type SubscriptionTuple = (String, String, String, String, u64, bool, FeedStateTuple);

fn sample_tuple(name: &str, latest: u64) -> SubscriptionTuple {
    let long: String = std::iter::repeat("ü").take(200).collect();
    (
        "http://example.com/feed".to_string(),
        long,
        name.to_string(),
        "dir".to_string(),
        70_000,
        true,
        (
            vec![
                ("first".to_string(), vec!["http://e/1".to_string()]),
                ("second".to_string(), vec![]),
            ],
            vec![("queued".to_string(), vec!["a".to_string(), "b".to_string()])],
            latest,
            vec![(false, 300, "summary".to_string()), (true, 0, String::new())],
        ),
    )
}

#[test]
fn agrees_with_rmp_serde_on_one_subscription() {
    for latest in [0u64, 127, 128, 255, 256, 65_536, u64::MAX] {
        let t = sample_tuple("show", latest);
        let bytes = rmp_serde::to_vec(&t).unwrap();
        let sub = deserialize(&bytes).unwrap();
        assert_eq!(sub.name, "show");
        assert_eq!(sub.get_latest_entry_number(), latest);
        assert_eq!(sub.get_earliest_entry_name(), "first");
        assert_eq!(sub.get_latest_entry_name(), "second");
        assert_eq!(serialize(&sub), bytes);
        let back: SubscriptionTuple = rmp_serde::from_slice(&serialize(&sub)).unwrap();
        assert_eq!(back, t);
    }
}

#[test]
fn agrees_with_rmp_serde_on_lists() {
    let list = vec![sample_tuple("a", 1), sample_tuple("b", 2), sample_tuple("c", 3)];
    let bytes = rmp_serde::to_vec(&list).unwrap();
    assert!(is_subscription_list(&bytes));
    let subs = vec_deserialize(&bytes).unwrap();
    assert_eq!(subs.len(), 3);
    assert_eq!(vec_serialize(&subs), bytes);
    let back: Vec<SubscriptionTuple> = rmp_serde::from_slice(&vec_serialize(&subs)).unwrap();
    assert_eq!(back, list);
    let empty: Vec<SubscriptionTuple> = Vec::new();
    assert_eq!(vec_serialize(&Vec::new()), rmp_serde::to_vec(&empty).unwrap());
}
