//! A subscription as the fetcher's cache records it, and its MessagePack form:
//! how this library writes it, and every form in which it is read back.

use vstd::prelude::*;
use vstd::seq_lib::lemma_concat_associative;
use vstd::utf8::encode_utf8;

use crate::msgpack::{
    array_bytes, array_header_bytes, bool_bytes, items_bytes, lemma_array_header_roundtrip,
    lemma_bool_roundtrip, lemma_items_roundtrip, lemma_parse_items_all, lemma_parse_items_stops,
    lemma_parse_text_fits, lemma_text_roundtrip, lemma_uint_roundtrip, parse_array_header,
    parse_bin_header, parse_bool, parse_items, parse_map_header, parse_raw, parse_text, parse_uint,
    read_array_len, read_bin_len, read_bool, read_map_len, read_raw, read_text, read_uint,
    skip_value, skip_value_exec, str_bytes, str_fits, uint_bytes, write_array_len, write_bool,
    write_str, write_uint,
};

verus! {

// ---------------------------------------------------------------------------
// The model: what a subscription holds, with strings as character sequences.

pub struct EntryView {
    pub title: Seq<char>,
    pub urls: Seq<Seq<char>>,
}

pub struct SummaryEntryView {
    pub is_this_session: bool,
    pub number: u64,
    pub name: Seq<char>,
}

pub struct FeedStateView {
    pub entries: Seq<EntryView>,
    pub queue: Seq<EntryView>,
    pub latest_entry_number: u64,
    pub summary_queue: Seq<SummaryEntryView>,
}

pub struct SubscriptionView {
    pub url: Seq<char>,
    pub original_url: Seq<char>,
    pub name: Seq<char>,
    pub directory: Seq<char>,
    pub backlog_limit: u64,
    pub use_title_as_filename: bool,
    pub feed_state: FeedStateView,
}

// ---------------------------------------------------------------------------
// The executable types.

#[derive(Debug, PartialEq, Eq)]
struct Entry {
    title: String,
    urls: Vec<String>,
}

#[derive(Debug, PartialEq, Eq)]
struct SummaryEntry {
    is_this_session: bool,
    number: u64,
    name: String,
}

/// What the fetcher keeps of a feed between runs; only this module reads
/// or builds one.
#[derive(Debug, PartialEq, Eq)]
pub struct FeedState {
    entries: Vec<Entry>,
    queue: Vec<Entry>,
    latest_entry_number: u64,
    summary_queue: Vec<SummaryEntry>,
}

/// One podcast subscription.
#[derive(Debug, PartialEq)]
pub struct Subscription {
    pub url: String,
    pub original_url: String,
    pub name: String,
    pub directory: String,
    pub backlog_limit: u64,
    pub use_title_as_filename: bool,
    pub feed_state: FeedState,
}

pub open spec fn strings_view(v: Seq<String>) -> Seq<Seq<char>> {
    v.map_values(|s: String| s@)
}

spec fn entries_view(v: Seq<Entry>) -> Seq<EntryView> {
    v.map_values(|e: Entry| e@)
}

spec fn summaries_view(v: Seq<SummaryEntry>) -> Seq<SummaryEntryView> {
    v.map_values(|e: SummaryEntry| e@)
}

pub open spec fn subscriptions_view(v: Seq<Subscription>) -> Seq<SubscriptionView> {
    v.map_values(|s: Subscription| s@)
}

impl View for Entry {
    type V = EntryView;

    closed spec fn view(&self) -> EntryView {
        EntryView { title: self.title@, urls: strings_view(self.urls@) }
    }
}

impl View for SummaryEntry {
    type V = SummaryEntryView;

    closed spec fn view(&self) -> SummaryEntryView {
        SummaryEntryView { is_this_session: self.is_this_session, number: self.number, name: self.name@ }
    }
}

impl View for FeedState {
    type V = FeedStateView;

    closed spec fn view(&self) -> FeedStateView {
        FeedStateView {
            entries: entries_view(self.entries@),
            queue: entries_view(self.queue@),
            latest_entry_number: self.latest_entry_number,
            summary_queue: summaries_view(self.summary_queue@),
        }
    }
}

impl View for Subscription {
    type V = SubscriptionView;

    open spec fn view(&self) -> SubscriptionView {
        SubscriptionView {
            url: self.url@,
            original_url: self.original_url@,
            name: self.name@,
            directory: self.directory@,
            backlog_limit: self.backlog_limit,
            use_title_as_filename: self.use_title_as_filename,
            feed_state: self.feed_state@,
        }
    }
}

// ---------------------------------------------------------------------------
// The MessagePack form of the model, as `serialize` writes it: every struct
// an array of its fields in declaration order, every list an array, every
// string a str, every number the shortest unsigned integer.

pub open spec fn str_enc() -> spec_fn(Seq<char>) -> Seq<u8> {
    |s: Seq<char>| str_bytes(s)
}

pub open spec fn entry_enc() -> spec_fn(EntryView) -> Seq<u8> {
    |e: EntryView| entry_bytes(e)
}

pub open spec fn summary_enc() -> spec_fn(SummaryEntryView) -> Seq<u8> {
    |e: SummaryEntryView| summary_bytes(e)
}

pub open spec fn subscription_enc() -> spec_fn(SubscriptionView) -> Seq<u8> {
    |s: SubscriptionView| subscription_bytes(s)
}

/// An entry: `[title, [url, ...]]`.
pub open spec fn entry_bytes(e: EntryView) -> Seq<u8> {
    array_header_bytes(2) + str_bytes(e.title) + array_bytes(e.urls, str_enc())
}

/// A summary entry: `[is_this_session, number, name]`.
pub open spec fn summary_bytes(e: SummaryEntryView) -> Seq<u8> {
    array_header_bytes(3) + bool_bytes(e.is_this_session) + uint_bytes(e.number) + str_bytes(e.name)
}

/// A feed state: `[entries, queue, latest_entry_number, summary_queue]`.
pub open spec fn feed_state_bytes(f: FeedStateView) -> Seq<u8> {
    array_header_bytes(4) + array_bytes(f.entries, entry_enc()) + array_bytes(f.queue, entry_enc())
        + uint_bytes(f.latest_entry_number) + array_bytes(f.summary_queue, summary_enc())
}

/// A subscription: `[url, original_url, name, directory, backlog_limit,
/// use_title_as_filename, feed_state]`.
pub open spec fn subscription_bytes(s: SubscriptionView) -> Seq<u8> {
    array_header_bytes(7) + str_bytes(s.url) + str_bytes(s.original_url) + str_bytes(s.name)
        + str_bytes(s.directory) + uint_bytes(s.backlog_limit) + bool_bytes(s.use_title_as_filename)
        + feed_state_bytes(s.feed_state)
}

/// A list of subscriptions: an array of them.
pub open spec fn subscriptions_bytes(l: Seq<SubscriptionView>) -> Seq<u8> {
    array_bytes(l, subscription_enc())
}

// ---------------------------------------------------------------------------
// What the reader accepts, as `rmp_serde` reads into these types: a struct is
// an array of exactly its fields in order, or a map from field names (or
// positions) to values holding each field once, where other keys' values are
// skipped; a string is a str or a bin of valid UTF-8; a list is an array, or
// an empty bin. Every array, map and ext spends one of a nesting budget, and
// none may be entered with a budget of 1 or less.

pub open spec fn str_dec() -> spec_fn(Seq<u8>) -> Option<(Seq<char>, Seq<u8>)> {
    |b: Seq<u8>| parse_text(b)
}

pub open spec fn entry_dec(c: nat) -> spec_fn(Seq<u8>) -> Option<(EntryView, Seq<u8>)> {
    |b: Seq<u8>| parse_entry(b, c)
}

pub open spec fn summary_dec(c: nat) -> spec_fn(Seq<u8>) -> Option<(SummaryEntryView, Seq<u8>)> {
    |b: Seq<u8>| parse_summary(b, c)
}

pub open spec fn subscription_dec(c: nat) -> spec_fn(Seq<u8>) -> Option<(SubscriptionView, Seq<u8>)> {
    |b: Seq<u8>| parse_subscription(b, c)
}

/// The nesting budget a cache is read with, as `rmp_serde` allows it.
pub open spec fn top_budget() -> nat {
    1024
}

/// A list: an array of elements read with `p`, which has the budget left
/// inside the array; or an empty bin, which a sequence also accepts.
pub open spec fn parse_list<T>(b: Seq<u8>, c: nat, p: spec_fn(Seq<u8>) -> Option<(T, Seq<u8>)>) -> Option<(Seq<T>, Seq<u8>)> {
    match parse_array_header(b) {
        Some((n, r)) => if c <= 1 {
            None
        } else {
            parse_items(r, n as nat, p)
        },
        None => match parse_bin_header(b) {
            Some((n, r)) => if n == 0 {
                Some((seq![], r))
            } else {
                None
            },
            None => None,
        },
    }
}

/// A key in the map form of a struct: a field's name (the bytes of a str or
/// a bin) or a field's position.
pub enum RecordKey {
    Name(Seq<u8>),
    Index(u64),
}

/// The key at the start of `b`: an unsigned integer, a str or a bin.
pub open spec fn parse_key(b: Seq<u8>) -> Option<(RecordKey, Seq<u8>)> {
    if b.len() == 0 {
        None
    } else if b[0] < 0x80 || (0xcc <= b[0] <= 0xcf) {
        match parse_uint(b) {
            Some((v, r)) => Some((RecordKey::Index(v), r)),
            None => None,
        }
    } else {
        match parse_raw(b) {
            Some((name, r)) => Some((RecordKey::Name(name), r)),
            None => None,
        }
    }
}

/// The position of the field a key names among `names`, or -1 for a key
/// that names none, whose value is skipped.
pub open spec fn field_index(k: RecordKey, names: Seq<Seq<u8>>) -> int {
    match k {
        RecordKey::Index(i) => if i < names.len() {
            i as int
        } else {
            -1
        },
        RecordKey::Name(b) => if names.len() > 0 && b == names[0] {
            0
        } else if names.len() > 1 && b == names[1] {
            1
        } else if names.len() > 2 && b == names[2] {
            2
        } else if names.len() > 3 && b == names[3] {
            3
        } else if names.len() > 4 && b == names[4] {
            4
        } else if names.len() > 5 && b == names[5] {
            5
        } else if names.len() > 6 && b == names[6] {
            6
        } else {
            -1
        },
    }
}

/// Reads `n` key-value pairs, each with `step`, from the state `s`.
pub open spec fn parse_fields<S>(b: Seq<u8>, n: nat, s: S, step: spec_fn(S, Seq<u8>) -> Option<(S, Seq<u8>)>) -> Option<(S, Seq<u8>)>
    decreases n,
{
    if n == 0 {
        Some((s, b))
    } else {
        match parse_fields(b, (n - 1) as nat, s, step) {
            Some((t, r)) => step(t, r),
            None => None,
        }
    }
}

/// Once reading the first `i` pairs fails, reading more fails too.
pub proof fn lemma_parse_fields_stops<S>(b: Seq<u8>, i: nat, n: nat, s: S, step: spec_fn(S, Seq<u8>) -> Option<(S, Seq<u8>)>)
    requires
        i <= n,
        parse_fields(b, i, s, step) is None,
    ensures
        parse_fields(b, n, s, step) is None,
    decreases n,
{
    if i < n {
        lemma_parse_fields_stops(b, i, (n - 1) as nat, s, step);
    }
}


/// The field names of an entry, as bytes: `title`, `urls`.
pub open spec fn entry_names() -> Seq<Seq<u8>> {
    seq![
        seq![116u8, 105u8, 116u8, 108u8, 101u8],
        seq![117u8, 114u8, 108u8, 115u8],
    ]
}

/// The field names of a summary entry, as bytes: `is_this_session`, `number`, `name`.
pub open spec fn summary_names() -> Seq<Seq<u8>> {
    seq![
        seq![105u8, 115u8, 95u8, 116u8, 104u8, 105u8, 115u8, 95u8, 115u8, 101u8, 115u8, 115u8, 105u8, 111u8, 110u8],
        seq![110u8, 117u8, 109u8, 98u8, 101u8, 114u8],
        seq![110u8, 97u8, 109u8, 101u8],
    ]
}

/// The field names of a feed state, as bytes: `entries`, `queue`, `latest_entry_number`, `summary_queue`.
pub open spec fn feed_state_names() -> Seq<Seq<u8>> {
    seq![
        seq![101u8, 110u8, 116u8, 114u8, 105u8, 101u8, 115u8],
        seq![113u8, 117u8, 101u8, 117u8, 101u8],
        seq![108u8, 97u8, 116u8, 101u8, 115u8, 116u8, 95u8, 101u8, 110u8, 116u8, 114u8, 121u8, 95u8, 110u8, 117u8, 109u8, 98u8, 101u8, 114u8],
        seq![115u8, 117u8, 109u8, 109u8, 97u8, 114u8, 121u8, 95u8, 113u8, 117u8, 101u8, 117u8, 101u8],
    ]
}

/// The field names of a subscription, as bytes: `url`, `original_url`, `name`, `directory`, `backlog_limit`, `use_title_as_filename`, `feed_state`.
pub open spec fn subscription_names() -> Seq<Seq<u8>> {
    seq![
        seq![117u8, 114u8, 108u8],
        seq![111u8, 114u8, 105u8, 103u8, 105u8, 110u8, 97u8, 108u8, 95u8, 117u8, 114u8, 108u8],
        seq![110u8, 97u8, 109u8, 101u8],
        seq![100u8, 105u8, 114u8, 101u8, 99u8, 116u8, 111u8, 114u8, 121u8],
        seq![98u8, 97u8, 99u8, 107u8, 108u8, 111u8, 103u8, 95u8, 108u8, 105u8, 109u8, 105u8, 116u8],
        seq![117u8, 115u8, 101u8, 95u8, 116u8, 105u8, 116u8, 108u8, 101u8, 95u8, 97u8, 115u8, 95u8, 102u8, 105u8, 108u8, 101u8, 110u8, 97u8, 109u8, 101u8],
        seq![102u8, 101u8, 101u8, 100u8, 95u8, 115u8, 116u8, 97u8, 116u8, 101u8],
    ]
}

/// The fields of an entry read so far from its map form.
pub struct EntryFields {
    pub title: Option<Seq<char>>,
    pub urls: Option<Seq<Seq<char>>>,
}

/// One key-value pair of the map form of an entry, with budget `c` for the
/// value: a field not read before is read, a field read before is an error,
/// and the value of any other key is skipped.
pub open spec fn entry_step(c: nat) -> spec_fn(EntryFields, Seq<u8>) -> Option<(EntryFields, Seq<u8>)> {
    |a: EntryFields, b: Seq<u8>|
        match parse_key(b) {
            Some((k, r)) => {
                let f = field_index(k, entry_names());
                if f == 0 {
                    if a.title is Some {
                        None
                    } else {
                        match parse_text(r) {
                            Some((v, r2)) => Some((EntryFields { title: Some(v), urls: a.urls }, r2)),
                            None => None,
                        }
                    }
                } else if f == 1 {
                    if a.urls is Some {
                        None
                    } else {
                        match parse_list(r, c, str_dec()) {
                            Some((v, r2)) => Some((EntryFields { title: a.title, urls: Some(v) }, r2)),
                            None => None,
                        }
                    }
                } else {
                    match skip_value(r, c) {
                        Some(r2) => Some((a, r2)),
                        None => None,
                    }
                }
            },
            None => None,
        }
}

pub open spec fn no_entry_fields() -> EntryFields {
    EntryFields { title: None, urls: None }
}

pub open spec fn entry_from_fields(a: EntryFields) -> Option<EntryView> {
    if a.title is Some && a.urls is Some {
        Some(EntryView { title: a.title.unwrap(), urls: a.urls.unwrap() })
    } else {
        None
    }
}

/// An entry with budget `c`: `[title, urls]`, or a map from field names (or
/// positions) to values holding each field exactly once, other keys skipped.
pub open spec fn parse_entry(b: Seq<u8>, c: nat) -> Option<(EntryView, Seq<u8>)> {
    match parse_array_header(b) {
        Some((n, r0)) => if c <= 1 || n != 2 {
            None
        } else {
            match parse_text(r0) {
                Some((title, r1)) => match parse_list(r1, (c - 1) as nat, str_dec()) {
                    Some((urls, r2)) => Some((EntryView { title, urls }, r2)),
                    None => None,
                },
                None => None,
            }
        },
        None => match parse_map_header(b) {
            Some((n, r0)) => if c <= 1 {
                None
            } else {
                match parse_fields(r0, n as nat, no_entry_fields(), entry_step((c - 1) as nat)) {
                    Some((a, r)) => match entry_from_fields(a) {
                        Some(v) => Some((v, r)),
                        None => None,
                    },
                    None => None,
                }
            },
            None => None,
        },
    }
}

/// The fields of a summary entry read so far from its map form.
pub struct SummaryFields {
    pub is_this_session: Option<bool>,
    pub number: Option<u64>,
    pub name: Option<Seq<char>>,
}

/// One key-value pair of the map form of a summary entry, with budget `c` for the
/// value: a field not read before is read, a field read before is an error,
/// and the value of any other key is skipped.
pub open spec fn summary_step(c: nat) -> spec_fn(SummaryFields, Seq<u8>) -> Option<(SummaryFields, Seq<u8>)> {
    |a: SummaryFields, b: Seq<u8>|
        match parse_key(b) {
            Some((k, r)) => {
                let f = field_index(k, summary_names());
                if f == 0 {
                    if a.is_this_session is Some {
                        None
                    } else {
                        match parse_bool(r) {
                            Some((v, r2)) => Some((SummaryFields { is_this_session: Some(v), number: a.number, name: a.name }, r2)),
                            None => None,
                        }
                    }
                } else if f == 1 {
                    if a.number is Some {
                        None
                    } else {
                        match parse_uint(r) {
                            Some((v, r2)) => Some((SummaryFields { is_this_session: a.is_this_session, number: Some(v), name: a.name }, r2)),
                            None => None,
                        }
                    }
                } else if f == 2 {
                    if a.name is Some {
                        None
                    } else {
                        match parse_text(r) {
                            Some((v, r2)) => Some((SummaryFields { is_this_session: a.is_this_session, number: a.number, name: Some(v) }, r2)),
                            None => None,
                        }
                    }
                } else {
                    match skip_value(r, c) {
                        Some(r2) => Some((a, r2)),
                        None => None,
                    }
                }
            },
            None => None,
        }
}

pub open spec fn no_summary_fields() -> SummaryFields {
    SummaryFields { is_this_session: None, number: None, name: None }
}

pub open spec fn summary_from_fields(a: SummaryFields) -> Option<SummaryEntryView> {
    if a.is_this_session is Some && a.number is Some && a.name is Some {
        Some(
            SummaryEntryView {
                is_this_session: a.is_this_session.unwrap(),
                number: a.number.unwrap(),
                name: a.name.unwrap(),
            },
        )
    } else {
        None
    }
}

/// A summary entry with budget `c`: `[is_this_session, number, name]`, or
/// its map form.
pub open spec fn parse_summary(b: Seq<u8>, c: nat) -> Option<(SummaryEntryView, Seq<u8>)> {
    match parse_array_header(b) {
        Some((n, r0)) => if c <= 1 || n != 3 {
            None
        } else {
            match parse_bool(r0) {
                Some((is_this_session, r1)) => match parse_uint(r1) {
                    Some((number, r2)) => match parse_text(r2) {
                        Some((name, r3)) => Some((SummaryEntryView { is_this_session, number, name }, r3)),
                        None => None,
                    },
                    None => None,
                },
                None => None,
            }
        },
        None => match parse_map_header(b) {
            Some((n, r0)) => if c <= 1 {
                None
            } else {
                match parse_fields(r0, n as nat, no_summary_fields(), summary_step((c - 1) as nat)) {
                    Some((a, r)) => match summary_from_fields(a) {
                        Some(v) => Some((v, r)),
                        None => None,
                    },
                    None => None,
                }
            },
            None => None,
        },
    }
}

/// The fields of a feed state read so far from its map form.
pub struct FeedStateFields {
    pub entries: Option<Seq<EntryView>>,
    pub queue: Option<Seq<EntryView>>,
    pub latest_entry_number: Option<u64>,
    pub summary_queue: Option<Seq<SummaryEntryView>>,
}

/// One key-value pair of the map form of a feed state, with budget `c` for the
/// value: a field not read before is read, a field read before is an error,
/// and the value of any other key is skipped.
pub open spec fn feed_state_step(c: nat) -> spec_fn(FeedStateFields, Seq<u8>) -> Option<(FeedStateFields, Seq<u8>)> {
    |a: FeedStateFields, b: Seq<u8>|
        match parse_key(b) {
            Some((k, r)) => {
                let f = field_index(k, feed_state_names());
                if f == 0 {
                    if a.entries is Some {
                        None
                    } else {
                        match parse_list(r, c, entry_dec((c - 1) as nat)) {
                            Some((v, r2)) => Some((FeedStateFields { entries: Some(v), queue: a.queue, latest_entry_number: a.latest_entry_number, summary_queue: a.summary_queue }, r2)),
                            None => None,
                        }
                    }
                } else if f == 1 {
                    if a.queue is Some {
                        None
                    } else {
                        match parse_list(r, c, entry_dec((c - 1) as nat)) {
                            Some((v, r2)) => Some((FeedStateFields { entries: a.entries, queue: Some(v), latest_entry_number: a.latest_entry_number, summary_queue: a.summary_queue }, r2)),
                            None => None,
                        }
                    }
                } else if f == 2 {
                    if a.latest_entry_number is Some {
                        None
                    } else {
                        match parse_uint(r) {
                            Some((v, r2)) => Some((FeedStateFields { entries: a.entries, queue: a.queue, latest_entry_number: Some(v), summary_queue: a.summary_queue }, r2)),
                            None => None,
                        }
                    }
                } else if f == 3 {
                    if a.summary_queue is Some {
                        None
                    } else {
                        match parse_list(r, c, summary_dec((c - 1) as nat)) {
                            Some((v, r2)) => Some((FeedStateFields { entries: a.entries, queue: a.queue, latest_entry_number: a.latest_entry_number, summary_queue: Some(v) }, r2)),
                            None => None,
                        }
                    }
                } else {
                    match skip_value(r, c) {
                        Some(r2) => Some((a, r2)),
                        None => None,
                    }
                }
            },
            None => None,
        }
}

pub open spec fn feed_state_from_fields(a: FeedStateFields) -> Option<FeedStateView> {
    if a.entries is Some && a.queue is Some && a.latest_entry_number is Some && a.summary_queue is Some {
        Some(
            FeedStateView {
                entries: a.entries.unwrap(),
                queue: a.queue.unwrap(),
                latest_entry_number: a.latest_entry_number.unwrap(),
                summary_queue: a.summary_queue.unwrap(),
            },
        )
    } else {
        None
    }
}

pub open spec fn no_feed_state_fields() -> FeedStateFields {
    FeedStateFields { entries: None, queue: None, latest_entry_number: None, summary_queue: None }
}

/// A feed state with budget `c`: `[entries, queue, latest_entry_number,
/// summary_queue]`, or its map form.
pub open spec fn parse_feed_state(b: Seq<u8>, c: nat) -> Option<(FeedStateView, Seq<u8>)> {
    match parse_array_header(b) {
        Some((n, r0)) => if c <= 1 || n != 4 {
            None
        } else {
            let d = (c - 1) as nat;
            match parse_list(r0, d, entry_dec((d - 1) as nat)) {
                Some((entries, r1)) => match parse_list(r1, d, entry_dec((d - 1) as nat)) {
                    Some((queue, r2)) => match parse_uint(r2) {
                        Some((latest_entry_number, r3)) => match parse_list(r3, d, summary_dec((d - 1) as nat)) {
                            Some((summary_queue, r4)) => Some(
                                (FeedStateView { entries, queue, latest_entry_number, summary_queue }, r4),
                            ),
                            None => None,
                        },
                        None => None,
                    },
                    None => None,
                },
                None => None,
            }
        },
        None => match parse_map_header(b) {
            Some((n, r0)) => if c <= 1 {
                None
            } else {
                match parse_fields(r0, n as nat, no_feed_state_fields(), feed_state_step((c - 1) as nat)) {
                    Some((a, r)) => match feed_state_from_fields(a) {
                        Some(v) => Some((v, r)),
                        None => None,
                    },
                    None => None,
                }
            },
            None => None,
        },
    }
}

/// The fields of a subscription read so far from its map form.
pub struct SubscriptionFields {
    pub url: Option<Seq<char>>,
    pub original_url: Option<Seq<char>>,
    pub name: Option<Seq<char>>,
    pub directory: Option<Seq<char>>,
    pub backlog_limit: Option<u64>,
    pub use_title_as_filename: Option<bool>,
    pub feed_state: Option<FeedStateView>,
}

/// One key-value pair of the map form of a subscription, with budget `c` for the
/// value: a field not read before is read, a field read before is an error,
/// and the value of any other key is skipped.
pub open spec fn subscription_step(c: nat) -> spec_fn(SubscriptionFields, Seq<u8>) -> Option<(SubscriptionFields, Seq<u8>)> {
    |a: SubscriptionFields, b: Seq<u8>|
        match parse_key(b) {
            Some((k, r)) => {
                let f = field_index(k, subscription_names());
                if f == 0 {
                    if a.url is Some {
                        None
                    } else {
                        match parse_text(r) {
                            Some((v, r2)) => Some((SubscriptionFields { url: Some(v), original_url: a.original_url, name: a.name, directory: a.directory, backlog_limit: a.backlog_limit, use_title_as_filename: a.use_title_as_filename, feed_state: a.feed_state }, r2)),
                            None => None,
                        }
                    }
                } else if f == 1 {
                    if a.original_url is Some {
                        None
                    } else {
                        match parse_text(r) {
                            Some((v, r2)) => Some((SubscriptionFields { url: a.url, original_url: Some(v), name: a.name, directory: a.directory, backlog_limit: a.backlog_limit, use_title_as_filename: a.use_title_as_filename, feed_state: a.feed_state }, r2)),
                            None => None,
                        }
                    }
                } else if f == 2 {
                    if a.name is Some {
                        None
                    } else {
                        match parse_text(r) {
                            Some((v, r2)) => Some((SubscriptionFields { url: a.url, original_url: a.original_url, name: Some(v), directory: a.directory, backlog_limit: a.backlog_limit, use_title_as_filename: a.use_title_as_filename, feed_state: a.feed_state }, r2)),
                            None => None,
                        }
                    }
                } else if f == 3 {
                    if a.directory is Some {
                        None
                    } else {
                        match parse_text(r) {
                            Some((v, r2)) => Some((SubscriptionFields { url: a.url, original_url: a.original_url, name: a.name, directory: Some(v), backlog_limit: a.backlog_limit, use_title_as_filename: a.use_title_as_filename, feed_state: a.feed_state }, r2)),
                            None => None,
                        }
                    }
                } else if f == 4 {
                    if a.backlog_limit is Some {
                        None
                    } else {
                        match parse_uint(r) {
                            Some((v, r2)) => Some((SubscriptionFields { url: a.url, original_url: a.original_url, name: a.name, directory: a.directory, backlog_limit: Some(v), use_title_as_filename: a.use_title_as_filename, feed_state: a.feed_state }, r2)),
                            None => None,
                        }
                    }
                } else if f == 5 {
                    if a.use_title_as_filename is Some {
                        None
                    } else {
                        match parse_bool(r) {
                            Some((v, r2)) => Some((SubscriptionFields { url: a.url, original_url: a.original_url, name: a.name, directory: a.directory, backlog_limit: a.backlog_limit, use_title_as_filename: Some(v), feed_state: a.feed_state }, r2)),
                            None => None,
                        }
                    }
                } else if f == 6 {
                    if a.feed_state is Some {
                        None
                    } else {
                        match parse_feed_state(r, c) {
                            Some((v, r2)) => Some((SubscriptionFields { url: a.url, original_url: a.original_url, name: a.name, directory: a.directory, backlog_limit: a.backlog_limit, use_title_as_filename: a.use_title_as_filename, feed_state: Some(v) }, r2)),
                            None => None,
                        }
                    }
                } else {
                    match skip_value(r, c) {
                        Some(r2) => Some((a, r2)),
                        None => None,
                    }
                }
            },
            None => None,
        }
}

pub open spec fn subscription_from_fields(a: SubscriptionFields) -> Option<SubscriptionView> {
    if a.url is Some && a.original_url is Some && a.name is Some && a.directory is Some && a.backlog_limit is Some
        && a.use_title_as_filename is Some && a.feed_state is Some {
        Some(
            SubscriptionView {
                url: a.url.unwrap(),
                original_url: a.original_url.unwrap(),
                name: a.name.unwrap(),
                directory: a.directory.unwrap(),
                backlog_limit: a.backlog_limit.unwrap(),
                use_title_as_filename: a.use_title_as_filename.unwrap(),
                feed_state: a.feed_state.unwrap(),
            },
        )
    } else {
        None
    }
}

pub open spec fn no_subscription_fields() -> SubscriptionFields {
    SubscriptionFields {
        url: None,
        original_url: None,
        name: None,
        directory: None,
        backlog_limit: None,
        use_title_as_filename: None,
        feed_state: None,
    }
}

/// The seven fields of a subscription's array form, read in order.
pub open spec fn parse_subscription_array(r0: Seq<u8>, d: nat) -> Option<(SubscriptionView, Seq<u8>)> {
    match parse_text(r0) {
        Some((url, r1)) => match parse_text(r1) {
            Some((original_url, r2)) => match parse_text(r2) {
                Some((name, r3)) => match parse_text(r3) {
                    Some((directory, r4)) => match parse_uint(r4) {
                        Some((backlog_limit, r5)) => match parse_bool(r5) {
                            Some((use_title_as_filename, r6)) => match parse_feed_state(r6, d) {
                                Some((feed_state, r7)) => Some(
                                    (
                                        SubscriptionView {
                                            url,
                                            original_url,
                                            name,
                                            directory,
                                            backlog_limit,
                                            use_title_as_filename,
                                            feed_state,
                                        },
                                        r7,
                                    ),
                                ),
                                None => None,
                            },
                            None => None,
                        },
                        None => None,
                    },
                    None => None,
                },
                None => None,
            },
            None => None,
        },
        None => None,
    }
}

/// A subscription with budget `c`: `[url, original_url, name, directory,
/// backlog_limit, use_title_as_filename, feed_state]`, or its map form.
#[verifier::opaque]
pub open spec fn parse_subscription(b: Seq<u8>, c: nat) -> Option<(SubscriptionView, Seq<u8>)> {
    match parse_array_header(b) {
        Some((n, r0)) => if c <= 1 || n != 7 {
            None
        } else {
            parse_subscription_array(r0, (c - 1) as nat)
        },
        None => match parse_map_header(b) {
            Some((n, r0)) => if c <= 1 {
                None
            } else {
                match parse_fields(r0, n as nat, no_subscription_fields(), subscription_step((c - 1) as nat)) {
                    Some((a, r)) => match subscription_from_fields(a) {
                        Some(v) => Some((v, r)),
                        None => None,
                    },
                    None => None,
                }
            },
            None => None,
        },
    }
}

/// A list of subscriptions, as `vec_deserialize` reads it.
pub open spec fn parse_subscriptions(b: Seq<u8>) -> Option<(Seq<SubscriptionView>, Seq<u8>)> {
    parse_list(b, top_budget(), subscription_dec((top_budget() - 1) as nat))
}

// ---------------------------------------------------------------------------
// Which values the format can hold: every string at most `u32::MAX` bytes of
// UTF-8 and every list at most `u32::MAX` elements, the limits of the headers.

pub open spec fn strings_fit(l: Seq<Seq<char>>) -> bool {
    l.len() <= u32::MAX && forall|i: int| 0 <= i < l.len() ==> str_fits(#[trigger] l[i])
}

pub open spec fn entry_fits(e: EntryView) -> bool {
    str_fits(e.title) && strings_fit(e.urls)
}

pub open spec fn entries_fit(l: Seq<EntryView>) -> bool {
    l.len() <= u32::MAX && forall|i: int| 0 <= i < l.len() ==> entry_fits(#[trigger] l[i])
}

pub open spec fn summary_fits(e: SummaryEntryView) -> bool {
    str_fits(e.name)
}

pub open spec fn summaries_fit(l: Seq<SummaryEntryView>) -> bool {
    l.len() <= u32::MAX && forall|i: int| 0 <= i < l.len() ==> summary_fits(#[trigger] l[i])
}

pub open spec fn feed_state_fits(f: FeedStateView) -> bool {
    entries_fit(f.entries) && entries_fit(f.queue) && summaries_fit(f.summary_queue)
}

pub open spec fn subscription_fits(s: SubscriptionView) -> bool {
    &&& str_fits(s.url)
    &&& str_fits(s.original_url)
    &&& str_fits(s.name)
    &&& str_fits(s.directory)
    &&& feed_state_fits(s.feed_state)
}

pub open spec fn subscriptions_fit(l: Seq<SubscriptionView>) -> bool {
    l.len() <= u32::MAX && forall|i: int| 0 <= i < l.len() ==> subscription_fits(#[trigger] l[i])
}


// ---------------------------------------------------------------------------
// Reading back what was written.

proof fn lemma_list_roundtrip<T>(
    l: Seq<T>,
    f: spec_fn(T) -> Seq<u8>,
    p: spec_fn(Seq<u8>) -> Option<(T, Seq<u8>)>,
    c: nat,
    rest: Seq<u8>,
)
    requires
        c >= 2,
        l.len() <= u32::MAX,
        forall|i: int, r: Seq<u8>| 0 <= i < l.len() ==> #[trigger] p(f(l[i]) + r) == Some((l[i], r)),
    ensures
        parse_list(array_bytes(l, f) + rest, c, p) == Some((l, rest)),
{
    lemma_array_header_roundtrip(l.len() as u32, items_bytes(l, f) + rest);
    assert(array_bytes(l, f) + rest =~= array_header_bytes(l.len() as u32) + (items_bytes(l, f) + rest));
    lemma_items_roundtrip(l, f, p, rest);
}

proof fn lemma_strings_roundtrip(l: Seq<Seq<char>>, c: nat, rest: Seq<u8>)
    requires
        strings_fit(l),
        c >= 2,
    ensures
        parse_list(array_bytes(l, str_enc()) + rest, c, str_dec()) == Some((l, rest)),
{
    assert forall|i: int, r: Seq<u8>| 0 <= i < l.len() implies #[trigger] str_dec()(str_enc()(l[i]) + r) == Some((l[i], r)) by {
        lemma_text_roundtrip(l[i], r);
    }
    lemma_list_roundtrip(l, str_enc(), str_dec(), c, rest);
}

proof fn lemma_entry_roundtrip(e: EntryView, c: nat, rest: Seq<u8>)
    requires
        entry_fits(e),
        c >= 3,
    ensures
        parse_entry(entry_bytes(e) + rest, c) == Some((e, rest)),
{
    let a = array_bytes(e.urls, str_enc());
    let t = str_bytes(e.title);
    assert(entry_bytes(e) + rest =~= array_header_bytes(2) + (t + (a + rest)));
    lemma_array_header_roundtrip(2, t + (a + rest));
    lemma_text_roundtrip(e.title, a + rest);
    lemma_strings_roundtrip(e.urls, (c - 1) as nat, rest);
}

proof fn lemma_entries_roundtrip(l: Seq<EntryView>, d: nat, rest: Seq<u8>)
    requires
        entries_fit(l),
        d >= 4,
    ensures
        parse_list(array_bytes(l, entry_enc()) + rest, d, entry_dec((d - 1) as nat)) == Some((l, rest)),
{
    let p = entry_dec((d - 1) as nat);
    assert forall|i: int, r: Seq<u8>| 0 <= i < l.len() implies #[trigger] p(entry_enc()(l[i]) + r) == Some((l[i], r)) by {
        lemma_entry_roundtrip(l[i], (d - 1) as nat, r);
    }
    lemma_list_roundtrip(l, entry_enc(), p, d, rest);
}

proof fn lemma_summary_roundtrip(e: SummaryEntryView, c: nat, rest: Seq<u8>)
    requires
        summary_fits(e),
        c >= 2,
    ensures
        parse_summary(summary_bytes(e) + rest, c) == Some((e, rest)),
{
    let bb = bool_bytes(e.is_this_session);
    let ub = uint_bytes(e.number);
    let sb = str_bytes(e.name);
    assert(summary_bytes(e) + rest =~= array_header_bytes(3) + (bb + (ub + (sb + rest))));
    lemma_array_header_roundtrip(3, bb + (ub + (sb + rest)));
    lemma_bool_roundtrip(e.is_this_session, ub + (sb + rest));
    lemma_uint_roundtrip(e.number, sb + rest);
    lemma_text_roundtrip(e.name, rest);
}

proof fn lemma_summaries_roundtrip(l: Seq<SummaryEntryView>, d: nat, rest: Seq<u8>)
    requires
        summaries_fit(l),
        d >= 3,
    ensures
        parse_list(array_bytes(l, summary_enc()) + rest, d, summary_dec((d - 1) as nat)) == Some((l, rest)),
{
    let p = summary_dec((d - 1) as nat);
    assert forall|i: int, r: Seq<u8>| 0 <= i < l.len() implies #[trigger] p(summary_enc()(l[i]) + r) == Some((l[i], r)) by {
        lemma_summary_roundtrip(l[i], (d - 1) as nat, r);
    }
    lemma_list_roundtrip(l, summary_enc(), p, d, rest);
}

proof fn lemma_feed_state_roundtrip(f: FeedStateView, c: nat, rest: Seq<u8>)
    requires
        feed_state_fits(f),
        c >= 5,
    ensures
        parse_feed_state(feed_state_bytes(f) + rest, c) == Some((f, rest)),
{
    let d = (c - 1) as nat;
    let e = array_bytes(f.entries, entry_enc());
    let q = array_bytes(f.queue, entry_enc());
    let u = uint_bytes(f.latest_entry_number);
    let s = array_bytes(f.summary_queue, summary_enc());
    assert(feed_state_bytes(f) + rest =~= array_header_bytes(4) + (e + (q + (u + (s + rest)))));
    lemma_array_header_roundtrip(4, e + (q + (u + (s + rest))));
    lemma_entries_roundtrip(f.entries, d, q + (u + (s + rest)));
    lemma_entries_roundtrip(f.queue, d, u + (s + rest));
    lemma_uint_roundtrip(f.latest_entry_number, s + rest);
    lemma_summaries_roundtrip(f.summary_queue, d, rest);
}

proof fn lemma_subscription_roundtrip_at(s: SubscriptionView, c: nat, rest: Seq<u8>)
    requires
        subscription_fits(s),
        c >= 6,
    ensures
        parse_subscription(subscription_bytes(s) + rest, c) == Some((s, rest)),
{
    reveal(parse_subscription);
    let b1 = str_bytes(s.url);
    let b2 = str_bytes(s.original_url);
    let b3 = str_bytes(s.name);
    let b4 = str_bytes(s.directory);
    let b5 = uint_bytes(s.backlog_limit);
    let b6 = bool_bytes(s.use_title_as_filename);
    let b7 = feed_state_bytes(s.feed_state);
    let r7 = b7 + rest;
    let r6 = b6 + r7;
    let r5 = b5 + r6;
    let r4 = b4 + r5;
    let r3 = b3 + r4;
    let r2 = b2 + r3;
    let r1 = b1 + r2;
    let p0 = array_header_bytes(7);
    let p1 = p0 + b1;
    let p2 = p1 + b2;
    let p3 = p2 + b3;
    let p4 = p3 + b4;
    let p5 = p4 + b5;
    let p6 = p5 + b6;
    assert(subscription_bytes(s) == p6 + b7);
    lemma_concat_associative(p6, b7, rest);
    lemma_concat_associative(p5, b6, r7);
    lemma_concat_associative(p4, b5, r6);
    lemma_concat_associative(p3, b4, r5);
    lemma_concat_associative(p2, b3, r4);
    lemma_concat_associative(p1, b2, r3);
    lemma_concat_associative(p0, b1, r2);
    lemma_array_header_roundtrip(7, r1);
    lemma_text_roundtrip(s.url, r2);
    lemma_text_roundtrip(s.original_url, r3);
    lemma_text_roundtrip(s.name, r4);
    lemma_text_roundtrip(s.directory, r5);
    lemma_uint_roundtrip(s.backlog_limit, r6);
    lemma_bool_roundtrip(s.use_title_as_filename, r7);
    lemma_feed_state_roundtrip(s.feed_state, (c - 1) as nat, rest);
    assert(parse_array_header(subscription_bytes(s) + rest) == Some((7u32, r1)));
    assert(parse_text(r1) == Some((s.url, r2)));
    assert(parse_text(r2) == Some((s.original_url, r3)));
    assert(parse_text(r3) == Some((s.name, r4)));
    assert(parse_text(r4) == Some((s.directory, r5)));
    assert(parse_uint(r5) == Some((s.backlog_limit, r6)));
    assert(parse_bool(r6) == Some((s.use_title_as_filename, r7)));
    assert(parse_feed_state(r7, (c - 1) as nat) == Some((s.feed_state, rest)));
    assert(parse_subscription_array(r1, (c - 1) as nat) == Some((s, rest)));
}

/// Reading a subscription back from what `serialize` writes gives the same
/// subscription, and leaves whatever followed untouched.
pub proof fn lemma_subscription_roundtrip(s: SubscriptionView, rest: Seq<u8>)
    requires
        subscription_fits(s),
    ensures
        parse_subscription(subscription_bytes(s) + rest, top_budget()) == Some((s, rest)),
{
    lemma_subscription_roundtrip_at(s, top_budget(), rest);
}

/// Reading a list of subscriptions back from what `vec_serialize` writes
/// gives the same list.
pub proof fn lemma_subscriptions_roundtrip(l: Seq<SubscriptionView>, rest: Seq<u8>)
    requires
        subscriptions_fit(l),
    ensures
        parse_subscriptions(subscriptions_bytes(l) + rest) == Some((l, rest)),
{
    let p = subscription_dec((top_budget() - 1) as nat);
    assert forall|i: int, r: Seq<u8>| 0 <= i < l.len() implies #[trigger] p(subscription_enc()(l[i]) + r) == Some((l[i], r)) by {
        lemma_subscription_roundtrip_at(l[i], (top_budget() - 1) as nat, r);
    }
    lemma_list_roundtrip(l, subscription_enc(), p, top_budget(), rest);
}


/// `serialize` gives every subscription that fits the format non-empty
/// bytes, and distinct subscriptions distinct bytes.
pub proof fn lemma_serialize_injective(s1: SubscriptionView, s2: SubscriptionView)
    requires
        subscription_fits(s1),
        subscription_fits(s2),
    ensures
        subscription_bytes(s1).len() > 0,
        subscription_bytes(s1) == subscription_bytes(s2) <==> s1 == s2,
{
    lemma_subscription_roundtrip(s1, Seq::<u8>::empty());
    lemma_subscription_roundtrip(s2, Seq::<u8>::empty());
    assert(subscription_bytes(s1) + Seq::<u8>::empty() =~= subscription_bytes(s1));
    assert(subscription_bytes(s2) + Seq::<u8>::empty() =~= subscription_bytes(s2));
}

proof fn lemma_items_bytes_flatten<T>(l: Seq<T>, f: spec_fn(T) -> Seq<u8>)
    ensures
        items_bytes(l, f) == l.map_values(f).flatten_alt(),
    decreases l.len(),
{
    if l.len() > 0 {
        lemma_items_bytes_flatten(l.drop_last(), f);
        assert(l.map_values(f).drop_last() =~= l.drop_last().map_values(f));
    } else {
        assert(l.map_values(f) =~= Seq::<Seq<u8>>::empty());
    }
}

/// `vec_serialize` writes an array header for the number of subscriptions,
/// then each subscription exactly as `serialize` writes it, in order.
pub proof fn lemma_list_bytes_are_element_bytes(l: Seq<SubscriptionView>)
    ensures
        subscriptions_bytes(l) == array_header_bytes(l.len() as u32) + l.map_values(
            |s: SubscriptionView| subscription_bytes(s),
        ).flatten(),
{
    lemma_items_bytes_flatten(l, subscription_enc());
    l.map_values(subscription_enc()).lemma_flatten_and_flatten_alt_are_equivalent();
    assert(l.map_values(subscription_enc()) =~= l.map_values(|s: SubscriptionView| subscription_bytes(s)));
}

// ---------------------------------------------------------------------------
// What is read always fits the format again.

proof fn lemma_parsed_list_fits<T>(
    b: Seq<u8>,
    c: nat,
    p: spec_fn(Seq<u8>) -> Option<(T, Seq<u8>)>,
    good: spec_fn(T) -> bool,
)
    requires
        forall|x: Seq<u8>| #[trigger] p(x) is Some ==> good(p(x).unwrap().0),
    ensures
        parse_list(b, c, p) is Some ==> {
            let l = parse_list(b, c, p).unwrap().0;
            l.len() <= u32::MAX && forall|i: int| 0 <= i < l.len() ==> #[trigger] good(l[i])
        },
{
    if let Some((n, r)) = parse_array_header(b) {
        lemma_parse_items_all(r, n as nat, p, good);
    }
}

proof fn lemma_parse_fields_keeps<S>(
    b: Seq<u8>,
    n: nat,
    s: S,
    step: spec_fn(S, Seq<u8>) -> Option<(S, Seq<u8>)>,
    inv: spec_fn(S) -> bool,
)
    requires
        inv(s),
        forall|t: S, x: Seq<u8>| inv(t) && #[trigger] step(t, x) is Some ==> inv(step(t, x).unwrap().0),
    ensures
        parse_fields(b, n, s, step) is Some ==> inv(parse_fields(b, n, s, step).unwrap().0),
    decreases n,
{
    if n > 0 {
        lemma_parse_fields_keeps(b, (n - 1) as nat, s, step, inv);
    }
}

proof fn lemma_parsed_strings_fit(b: Seq<u8>, c: nat)
    ensures
        parse_list(b, c, str_dec()) is Some ==> strings_fit(parse_list(b, c, str_dec()).unwrap().0),
{
    assert forall|x: Seq<u8>| #[trigger] str_dec()(x) is Some implies str_fits(str_dec()(x).unwrap().0) by {
        lemma_parse_text_fits(x);
    }
    let good = |s: Seq<char>| str_fits(s);
    lemma_parsed_list_fits(b, c, str_dec(), good);
    if let Some((l, r)) = parse_list(b, c, str_dec()) {
        assert forall|i: int| 0 <= i < l.len() implies #[trigger] str_fits(l[i]) by {
            assert(good(l[i]));
        }
    }
}

spec fn entry_fields_fit(a: EntryFields) -> bool {
    &&& (a.title matches Some(t) ==> str_fits(t))
    &&& (a.urls matches Some(u) ==> strings_fit(u))
}

proof fn lemma_parsed_entry_fits(b: Seq<u8>, c: nat)
    ensures
        parse_entry(b, c) is Some ==> entry_fits(parse_entry(b, c).unwrap().0),
{
    if let Some((n, r0)) = parse_array_header(b) {
        lemma_parse_text_fits(r0);
        if let Some((t, r1)) = parse_text(r0) {
            lemma_parsed_strings_fit(r1, (c - 1) as nat);
        }
    } else if let Some((n, r0)) = parse_map_header(b) {
        let c1 = (c - 1) as nat;
        let step = entry_step(c1);
        let inv = |a: EntryFields| entry_fields_fit(a);
        assert forall|t: EntryFields, x: Seq<u8>| inv(t) && #[trigger] step(t, x) is Some implies inv(
            step(t, x).unwrap().0,
        ) by {
            if let Some((k, r)) = parse_key(x) {
                lemma_parse_text_fits(r);
                lemma_parsed_strings_fit(r, c1);
            }
        }
        lemma_parse_fields_keeps(r0, n as nat, no_entry_fields(), step, inv);
    }
}

proof fn lemma_parsed_entries_fit(b: Seq<u8>, d: nat)
    ensures
        parse_list(b, d, entry_dec((d - 1) as nat)) is Some ==> entries_fit(
            parse_list(b, d, entry_dec((d - 1) as nat)).unwrap().0,
        ),
{
    let p = entry_dec((d - 1) as nat);
    assert forall|x: Seq<u8>| #[trigger] p(x) is Some implies entry_fits(p(x).unwrap().0) by {
        lemma_parsed_entry_fits(x, (d - 1) as nat);
    }
    let good = |e: EntryView| entry_fits(e);
    lemma_parsed_list_fits(b, d, p, good);
    if let Some((l, r)) = parse_list(b, d, p) {
        assert forall|i: int| 0 <= i < l.len() implies #[trigger] entry_fits(l[i]) by {
            assert(good(l[i]));
        }
    }
}

proof fn lemma_parsed_summary_fits(b: Seq<u8>, c: nat)
    ensures
        parse_summary(b, c) is Some ==> summary_fits(parse_summary(b, c).unwrap().0),
{
    if let Some((n, r0)) = parse_array_header(b) {
        if let Some((v, r1)) = parse_bool(r0) {
            if let Some((w, r2)) = parse_uint(r1) {
                lemma_parse_text_fits(r2);
            }
        }
    } else if let Some((n, r0)) = parse_map_header(b) {
        let step = summary_step((c - 1) as nat);
        let inv = |a: SummaryFields| (a.name matches Some(t) ==> str_fits(t));
        assert forall|t: SummaryFields, x: Seq<u8>| inv(t) && #[trigger] step(t, x) is Some implies inv(
            step(t, x).unwrap().0,
        ) by {
            if let Some((k, r)) = parse_key(x) {
                lemma_parse_text_fits(r);
            }
        }
        lemma_parse_fields_keeps(r0, n as nat, no_summary_fields(), step, inv);
    }
}

proof fn lemma_parsed_summaries_fit(b: Seq<u8>, d: nat)
    ensures
        parse_list(b, d, summary_dec((d - 1) as nat)) is Some ==> summaries_fit(
            parse_list(b, d, summary_dec((d - 1) as nat)).unwrap().0,
        ),
{
    let p = summary_dec((d - 1) as nat);
    assert forall|x: Seq<u8>| #[trigger] p(x) is Some implies summary_fits(p(x).unwrap().0) by {
        lemma_parsed_summary_fits(x, (d - 1) as nat);
    }
    let good = |e: SummaryEntryView| summary_fits(e);
    lemma_parsed_list_fits(b, d, p, good);
    if let Some((l, r)) = parse_list(b, d, p) {
        assert forall|i: int| 0 <= i < l.len() implies #[trigger] summary_fits(l[i]) by {
            assert(good(l[i]));
        }
    }
}

spec fn feed_state_fields_fit(a: FeedStateFields) -> bool {
    &&& (a.entries matches Some(l) ==> entries_fit(l))
    &&& (a.queue matches Some(l) ==> entries_fit(l))
    &&& (a.summary_queue matches Some(l) ==> summaries_fit(l))
}

proof fn lemma_parsed_feed_state_fits(b: Seq<u8>, c: nat)
    ensures
        parse_feed_state(b, c) is Some ==> feed_state_fits(parse_feed_state(b, c).unwrap().0),
{
    let d = (c - 1) as nat;
    if let Some((n, r0)) = parse_array_header(b) {
        lemma_parsed_entries_fit(r0, d);
        if let Some((e, r1)) = parse_list(r0, d, entry_dec((d - 1) as nat)) {
            lemma_parsed_entries_fit(r1, d);
            if let Some((q, r2)) = parse_list(r1, d, entry_dec((d - 1) as nat)) {
                if let Some((l, r3)) = parse_uint(r2) {
                    lemma_parsed_summaries_fit(r3, d);
                }
            }
        }
    } else if let Some((n, r0)) = parse_map_header(b) {
        let step = feed_state_step(d);
        let inv = |a: FeedStateFields| feed_state_fields_fit(a);
        assert forall|t: FeedStateFields, x: Seq<u8>| inv(t) && #[trigger] step(t, x) is Some implies inv(
            step(t, x).unwrap().0,
        ) by {
            if let Some((k, r)) = parse_key(x) {
                lemma_parsed_entries_fit(r, d);
                lemma_parsed_summaries_fit(r, d);
            }
        }
        lemma_parse_fields_keeps(r0, n as nat, no_feed_state_fields(), step, inv);
    }
}

spec fn subscription_fields_fit(a: SubscriptionFields) -> bool {
    &&& (a.url matches Some(t) ==> str_fits(t))
    &&& (a.original_url matches Some(t) ==> str_fits(t))
    &&& (a.name matches Some(t) ==> str_fits(t))
    &&& (a.directory matches Some(t) ==> str_fits(t))
    &&& (a.feed_state matches Some(f) ==> feed_state_fits(f))
}

proof fn lemma_parsed_subscription_fits(b: Seq<u8>, c: nat)
    ensures
        parse_subscription(b, c) is Some ==> subscription_fits(parse_subscription(b, c).unwrap().0),
{
    reveal(parse_subscription);
    let d = (c - 1) as nat;
    if let Some((n, r0)) = parse_array_header(b) {
        lemma_parse_text_fits(r0);
        if let Some((x1, r1)) = parse_text(r0) {
            lemma_parse_text_fits(r1);
            if let Some((x2, r2)) = parse_text(r1) {
                lemma_parse_text_fits(r2);
                if let Some((x3, r3)) = parse_text(r2) {
                    lemma_parse_text_fits(r3);
                    if let Some((x4, r4)) = parse_text(r3) {
                        if let Some((x5, r5)) = parse_uint(r4) {
                            if let Some((x6, r6)) = parse_bool(r5) {
                                lemma_parsed_feed_state_fits(r6, d);
                            }
                        }
                    }
                }
            }
        }
    } else if let Some((n, r0)) = parse_map_header(b) {
        let step = subscription_step(d);
        let inv = |a: SubscriptionFields| subscription_fields_fit(a);
        assert forall|t: SubscriptionFields, x: Seq<u8>| inv(t) && #[trigger] step(t, x) is Some implies inv(
            step(t, x).unwrap().0,
        ) by {
            if let Some((k, r)) = parse_key(x) {
                lemma_parse_text_fits(r);
                lemma_parsed_feed_state_fits(r, d);
            }
        }
        lemma_parse_fields_keeps(r0, n as nat, no_subscription_fields(), step, inv);
    }
}

proof fn lemma_parsed_subscriptions_fit(b: Seq<u8>)
    ensures
        parse_subscriptions(b) is Some ==> subscriptions_fit(parse_subscriptions(b).unwrap().0),
{
    let p = subscription_dec((top_budget() - 1) as nat);
    assert forall|x: Seq<u8>| #[trigger] p(x) is Some implies subscription_fits(p(x).unwrap().0) by {
        lemma_parsed_subscription_fits(x, (top_budget() - 1) as nat);
    }
    let good = |s: SubscriptionView| subscription_fits(s);
    lemma_parsed_list_fits(b, top_budget(), p, good);
    if let Some((l, r)) = parse_subscriptions(b) {
        assert forall|i: int| 0 <= i < l.len() implies #[trigger] subscription_fits(l[i]) by {
            assert(good(l[i]));
        }
    }
}

/// Whatever form a subscription was read from, writing it and reading that
/// again gives the same subscription: a cache rewritten by this library
/// reads as it did.
pub proof fn lemma_reserialize_reads_same(b: Seq<u8>)
    requires
        parse_subscription(b, top_budget()) is Some,
    ensures
        subscription_fits(parse_subscription(b, top_budget()).unwrap().0),
        parse_subscription(subscription_bytes(parse_subscription(b, top_budget()).unwrap().0), top_budget())
            == Some((parse_subscription(b, top_budget()).unwrap().0, Seq::<u8>::empty())),
{
    let s = parse_subscription(b, top_budget()).unwrap().0;
    lemma_parsed_subscription_fits(b, top_budget());
    lemma_subscription_roundtrip(s, Seq::<u8>::empty());
    assert(subscription_bytes(s) + Seq::<u8>::empty() =~= subscription_bytes(s));
}

/// The same for lists of subscriptions.
pub proof fn lemma_reserialize_list_reads_same(b: Seq<u8>)
    requires
        parse_subscriptions(b) is Some,
    ensures
        subscriptions_fit(parse_subscriptions(b).unwrap().0),
        parse_subscriptions(subscriptions_bytes(parse_subscriptions(b).unwrap().0)) == Some(
            (parse_subscriptions(b).unwrap().0, Seq::<u8>::empty()),
        ),
{
    let l = parse_subscriptions(b).unwrap().0;
    lemma_parsed_subscriptions_fit(b);
    lemma_subscriptions_roundtrip(l, Seq::<u8>::empty());
    assert(subscriptions_bytes(l) + Seq::<u8>::empty() =~= subscriptions_bytes(l));
}

// ---------------------------------------------------------------------------
// Building and reading a subscription.

/// The directory a new subscription is given: the one named, or `fakedir`.
pub open spec fn directory_or_default(directory: Option<&str>) -> Seq<char> {
    match directory {
        Some(d) => d@,
        None => "fakedir"@,
    }
}

/// The first entry's title, or the empty string when there is no entry.
pub open spec fn earliest_entry_name(s: SubscriptionView) -> Seq<char> {
    if s.feed_state.entries.len() > 0 {
        s.feed_state.entries[0].title
    } else {
        seq![]
    }
}

/// The last entry's title, or the empty string when there is no entry.
pub open spec fn latest_entry_name(s: SubscriptionView) -> Seq<char> {
    if s.feed_state.entries.len() > 0 {
        s.feed_state.entries.last().title
    } else {
        seq![]
    }
}

/// A subscription's earliest entry is its first one, whatever else it
/// holds (its backlog limit among them); without entries the name is empty.
pub proof fn lemma_earliest_entry_is_first(s: SubscriptionView)
    ensures
        s.feed_state.entries.len() > 0 ==> earliest_entry_name(s) == s.feed_state.entries[0].title,
        s.feed_state.entries.len() == 0 ==> earliest_entry_name(s).len() == 0,
{
}

/// A subscription's latest entry is its last one, whatever else it holds;
/// without entries the name is empty.
pub proof fn lemma_latest_entry_is_last(s: SubscriptionView)
    ensures
        s.feed_state.entries.len() > 0 ==> latest_entry_name(s) == s.feed_state.entries[
            s.feed_state.entries.len() - 1
        ].title,
        s.feed_state.entries.len() == 0 ==> latest_entry_name(s).len() == 0,
{
}

fn process_directory(directory: Option<&str>) -> (r: String)
    ensures
        r@ == directory_or_default(directory),
{
    match directory {
        Some(d) => d.to_owned(),
        None => "fakedir".to_owned(),
    }
}

impl Subscription {
    /// A new subscription to `url` under `name`, stored in `directory` (or
    /// `fakedir`), with no backlog limit and an empty feed state.
    pub fn new(url: &str, name: &str, directory: Option<&str>) -> (s: Subscription)
        ensures
            s@ == (SubscriptionView {
                url: url@,
                original_url: url@,
                name: name@,
                directory: directory_or_default(directory),
                backlog_limit: 0,
                use_title_as_filename: false,
                feed_state: FeedStateView {
                    entries: seq![],
                    queue: seq![],
                    latest_entry_number: 0,
                    summary_queue: seq![],
                },
            }),
    {
        let s = Subscription {
            url: url.to_owned(),
            original_url: url.to_owned(),
            name: name.to_owned(),
            directory: process_directory(directory),
            backlog_limit: 0,
            use_title_as_filename: false,
            feed_state: FeedState {
                latest_entry_number: 0,
                queue: Vec::new(),
                entries: Vec::new(),
                summary_queue: Vec::new(),
            },
        };
        assert(entries_view(s.feed_state.entries@) =~= seq![]);
        assert(entries_view(s.feed_state.queue@) =~= seq![]);
        assert(summaries_view(s.feed_state.summary_queue@) =~= seq![]);
        s
    }

    /// The subscription's name.
    pub fn get_name(&self) -> (r: String)
        ensures
            r@ == self@.name,
    {
        self.name.clone()
    }

    /// The number of the latest entry the feed state records, which this
    /// library takes as the subscription's entry count.
    pub fn get_latest_entry_number(&self) -> (r: u64)
        ensures
            r == self@.feed_state.latest_entry_number,
    {
        self.feed_state.latest_entry_number
    }

    /// The title of the first entry in the feed state, or the empty string
    /// when there is none: this library's reading of the earliest entry.
    pub fn get_earliest_entry_name(&self) -> (r: String)
        ensures
            r@ == earliest_entry_name(self@),
            self@.feed_state.entries.len() > 0 ==> r@ == self@.feed_state.entries[0].title,
            self@.feed_state.entries.len() == 0 ==> r@.len() == 0,
    {
        if self.feed_state.entries.len() > 0 {
            self.feed_state.entries[0].title.clone()
        } else {
            String::new()
        }
    }

    /// The title of the last entry in the feed state, or the empty string
    /// when there is none: this library's reading of the latest entry.
    pub fn get_latest_entry_name(&self) -> (r: String)
        ensures
            r@ == latest_entry_name(self@),
            self@.feed_state.entries.len() > 0 ==> r@ == self@.feed_state.entries[
                self@.feed_state.entries.len() - 1
            ].title,
            self@.feed_state.entries.len() == 0 ==> r@.len() == 0,
    {
        let n = self.feed_state.entries.len();
        if n > 0 {
            self.feed_state.entries[n - 1].title.clone()
        } else {
            String::new()
        }
    }
}

fn clone_strings(v: &Vec<String>) -> (r: Vec<String>)
    ensures
        strings_view(r@) == strings_view(v@),
{
    let mut r: Vec<String> = Vec::new();
    let mut i: usize = 0;
    while i < v.len()
        invariant
            i <= v.len(),
            strings_view(r@) == strings_view(v@).take(i as int),
        decreases v.len() - i,
    {
        let ghost before = r@;
        r.push(v[i].clone());
        assert(strings_view(r@) =~= strings_view(before).push(v@[i as int]@));
        assert(strings_view(v@).take(i + 1) =~= strings_view(v@).take(i as int).push(v@[i as int]@));
        i += 1;
    }
    assert(strings_view(v@).take(v.len() as int) =~= strings_view(v@));
    r
}

impl Clone for Entry {
    fn clone(&self) -> (r: Self)
        ensures
            r@ == self@,
    {
        Entry { title: self.title.clone(), urls: clone_strings(&self.urls) }
    }
}

impl Clone for SummaryEntry {
    fn clone(&self) -> (r: Self)
        ensures
            r@ == self@,
    {
        SummaryEntry { is_this_session: self.is_this_session, number: self.number, name: self.name.clone() }
    }
}

fn clone_entries(v: &Vec<Entry>) -> (r: Vec<Entry>)
    ensures
        entries_view(r@) == entries_view(v@),
{
    let mut r: Vec<Entry> = Vec::new();
    let mut i: usize = 0;
    while i < v.len()
        invariant
            i <= v.len(),
            entries_view(r@) == entries_view(v@).take(i as int),
        decreases v.len() - i,
    {
        let ghost before = r@;
        r.push(v[i].clone());
        assert(entries_view(r@) =~= entries_view(before).push(v@[i as int]@));
        assert(entries_view(v@).take(i + 1) =~= entries_view(v@).take(i as int).push(v@[i as int]@));
        i += 1;
    }
    assert(entries_view(v@).take(v.len() as int) =~= entries_view(v@));
    r
}

fn clone_summaries(v: &Vec<SummaryEntry>) -> (r: Vec<SummaryEntry>)
    ensures
        summaries_view(r@) == summaries_view(v@),
{
    let mut r: Vec<SummaryEntry> = Vec::new();
    let mut i: usize = 0;
    while i < v.len()
        invariant
            i <= v.len(),
            summaries_view(r@) == summaries_view(v@).take(i as int),
        decreases v.len() - i,
    {
        let ghost before = r@;
        r.push(v[i].clone());
        assert(summaries_view(r@) =~= summaries_view(before).push(v@[i as int]@));
        assert(summaries_view(v@).take(i + 1) =~= summaries_view(v@).take(i as int).push(v@[i as int]@));
        i += 1;
    }
    assert(summaries_view(v@).take(v.len() as int) =~= summaries_view(v@));
    r
}

impl Clone for FeedState {
    fn clone(&self) -> (r: Self)
        ensures
            r@ == self@,
    {
        FeedState {
            entries: clone_entries(&self.entries),
            queue: clone_entries(&self.queue),
            latest_entry_number: self.latest_entry_number,
            summary_queue: clone_summaries(&self.summary_queue),
        }
    }
}

impl Clone for Subscription {
    fn clone(&self) -> (r: Self)
        ensures
            r@ == self@,
    {
        Subscription {
            url: self.url.clone(),
            original_url: self.original_url.clone(),
            name: self.name.clone(),
            directory: self.directory.clone(),
            backlog_limit: self.backlog_limit,
            use_title_as_filename: self.use_title_as_filename,
            feed_state: self.feed_state.clone(),
        }
    }
}

// ---------------------------------------------------------------------------
// Writing the MessagePack form.

fn write_strings(out: &mut Vec<u8>, v: &Vec<String>)
    requires
        strings_fit(strings_view(v@)),
    ensures
        final(out)@ == old(out)@ + array_bytes(strings_view(v@), str_enc()),
{
    let ghost l = strings_view(v@);
    let ghost out0 = out@;
    write_array_len(out, v.len() as u32);
    let ghost start = out@;
    let mut i: usize = 0;
    while i < v.len()
        invariant
            i <= v.len(),
            l == strings_view(v@),
            strings_fit(l),
            start == out0 + array_header_bytes(l.len() as u32),
            out@ == start + items_bytes(l.take(i as int), str_enc()),
        decreases v.len() - i,
    {
        assert(l[i as int] == v@[i as int]@);
        let ghost before = out@;
        write_str(out, v[i].as_str());
        assert(l.take(i + 1).drop_last() =~= l.take(i as int));
        assert(out@ =~= start + items_bytes(l.take(i + 1), str_enc()));
        i += 1;
    }
    assert(l.take(v.len() as int) =~= l);
    assert(out@ =~= out0 + array_bytes(l, str_enc()));
}

fn write_entry(out: &mut Vec<u8>, e: &Entry)
    requires
        entry_fits(e@),
    ensures
        final(out)@ == old(out)@ + entry_bytes(e@),
{
    let ghost out0 = out@;
    write_array_len(out, 2);
    write_str(out, e.title.as_str());
    write_strings(out, &e.urls);
    assert(out@ =~= out0 + entry_bytes(e@));
}

fn write_entries(out: &mut Vec<u8>, v: &Vec<Entry>)
    requires
        entries_fit(entries_view(v@)),
    ensures
        final(out)@ == old(out)@ + array_bytes(entries_view(v@), entry_enc()),
{
    let ghost l = entries_view(v@);
    let ghost out0 = out@;
    write_array_len(out, v.len() as u32);
    let ghost start = out@;
    let mut i: usize = 0;
    while i < v.len()
        invariant
            i <= v.len(),
            l == entries_view(v@),
            entries_fit(l),
            start == out0 + array_header_bytes(l.len() as u32),
            out@ == start + items_bytes(l.take(i as int), entry_enc()),
        decreases v.len() - i,
    {
        assert(l[i as int] == v@[i as int]@);
        write_entry(out, &v[i]);
        assert(l.take(i + 1).drop_last() =~= l.take(i as int));
        assert(out@ =~= start + items_bytes(l.take(i + 1), entry_enc()));
        i += 1;
    }
    assert(l.take(v.len() as int) =~= l);
    assert(out@ =~= out0 + array_bytes(l, entry_enc()));
}

fn write_summary(out: &mut Vec<u8>, e: &SummaryEntry)
    requires
        summary_fits(e@),
    ensures
        final(out)@ == old(out)@ + summary_bytes(e@),
{
    let ghost out0 = out@;
    write_array_len(out, 3);
    write_bool(out, e.is_this_session);
    write_uint(out, e.number);
    write_str(out, e.name.as_str());
    assert(out@ =~= out0 + summary_bytes(e@));
}

fn write_summaries(out: &mut Vec<u8>, v: &Vec<SummaryEntry>)
    requires
        summaries_fit(summaries_view(v@)),
    ensures
        final(out)@ == old(out)@ + array_bytes(summaries_view(v@), summary_enc()),
{
    let ghost l = summaries_view(v@);
    let ghost out0 = out@;
    write_array_len(out, v.len() as u32);
    let ghost start = out@;
    let mut i: usize = 0;
    while i < v.len()
        invariant
            i <= v.len(),
            l == summaries_view(v@),
            summaries_fit(l),
            start == out0 + array_header_bytes(l.len() as u32),
            out@ == start + items_bytes(l.take(i as int), summary_enc()),
        decreases v.len() - i,
    {
        assert(l[i as int] == v@[i as int]@);
        write_summary(out, &v[i]);
        assert(l.take(i + 1).drop_last() =~= l.take(i as int));
        assert(out@ =~= start + items_bytes(l.take(i + 1), summary_enc()));
        i += 1;
    }
    assert(l.take(v.len() as int) =~= l);
    assert(out@ =~= out0 + array_bytes(l, summary_enc()));
}

fn write_feed_state(out: &mut Vec<u8>, f: &FeedState)
    requires
        feed_state_fits(f@),
    ensures
        final(out)@ == old(out)@ + feed_state_bytes(f@),
{
    let ghost out0 = out@;
    write_array_len(out, 4);
    write_entries(out, &f.entries);
    write_entries(out, &f.queue);
    write_uint(out, f.latest_entry_number);
    write_summaries(out, &f.summary_queue);
    assert(out@ =~= out0 + feed_state_bytes(f@));
}

fn write_subscription(out: &mut Vec<u8>, s: &Subscription)
    requires
        subscription_fits(s@),
    ensures
        final(out)@ == old(out)@ + subscription_bytes(s@),
{
    let ghost out0 = out@;
    write_array_len(out, 7);
    let ghost p = array_header_bytes(7);
    write_str(out, s.url.as_str());
    proof { lemma_concat_associative(out0, p, str_bytes(s@.url)); }
    let ghost p = p + str_bytes(s@.url);
    write_str(out, s.original_url.as_str());
    proof { lemma_concat_associative(out0, p, str_bytes(s@.original_url)); }
    let ghost p = p + str_bytes(s@.original_url);
    write_str(out, s.name.as_str());
    proof { lemma_concat_associative(out0, p, str_bytes(s@.name)); }
    let ghost p = p + str_bytes(s@.name);
    write_str(out, s.directory.as_str());
    proof { lemma_concat_associative(out0, p, str_bytes(s@.directory)); }
    let ghost p = p + str_bytes(s@.directory);
    write_uint(out, s.backlog_limit);
    proof { lemma_concat_associative(out0, p, uint_bytes(s@.backlog_limit)); }
    let ghost p = p + uint_bytes(s@.backlog_limit);
    write_bool(out, s.use_title_as_filename);
    proof { lemma_concat_associative(out0, p, bool_bytes(s@.use_title_as_filename)); }
    let ghost p = p + bool_bytes(s@.use_title_as_filename);
    write_feed_state(out, &s.feed_state);
    proof { lemma_concat_associative(out0, p, feed_state_bytes(s@.feed_state)); }
}

fn write_subscriptions(out: &mut Vec<u8>, subs: &Vec<Subscription>)
    requires
        subscriptions_fit(subscriptions_view(subs@)),
    ensures
        final(out)@ == old(out)@ + subscriptions_bytes(subscriptions_view(subs@)),
{
    let ghost l = subscriptions_view(subs@);
    let ghost out0 = out@;
    write_array_len(out, subs.len() as u32);
    let ghost start = out@;
    let mut i: usize = 0;
    while i < subs.len()
        invariant
            i <= subs.len(),
            l == subscriptions_view(subs@),
            subscriptions_fit(l),
            start == out0 + array_header_bytes(l.len() as u32),
            out@ == start + items_bytes(l.take(i as int), subscription_enc()),
        decreases subs.len() - i,
    {
        assert(l[i as int] == subs@[i as int]@);
        write_subscription(out, &subs[i]);
        assert(l.take(i + 1).drop_last() =~= l.take(i as int));
        assert(out@ =~= start + items_bytes(l.take(i + 1), subscription_enc()));
        i += 1;
    }
    assert(l.take(subs.len() as int) =~= l);
    assert(out@ =~= out0 + subscriptions_bytes(l));
}

// ---------------------------------------------------------------------------
// Whether a value fits the format.

fn string_fits(s: &String) -> (b: bool)
    ensures
        b == str_fits(s@),
{
    s.as_str().as_bytes().len() <= 0xffff_ffff
}

fn all_strings_fit(v: &Vec<String>) -> (b: bool)
    ensures
        b == strings_fit(strings_view(v@)),
{
    if v.len() > 0xffff_ffff {
        return false;
    }
    let mut i: usize = 0;
    while i < v.len()
        invariant
            i <= v.len(),
            forall|k: int| 0 <= k < i ==> str_fits(#[trigger] strings_view(v@)[k]),
        decreases v.len() - i,
    {
        if !string_fits(&v[i]) {
            assert(!str_fits(strings_view(v@)[i as int]));
            return false;
        }
        i += 1;
    }
    true
}

fn all_entries_fit(v: &Vec<Entry>) -> (b: bool)
    ensures
        b == entries_fit(entries_view(v@)),
{
    if v.len() > 0xffff_ffff {
        return false;
    }
    let mut i: usize = 0;
    while i < v.len()
        invariant
            i <= v.len(),
            forall|k: int| 0 <= k < i ==> entry_fits(#[trigger] entries_view(v@)[k]),
        decreases v.len() - i,
    {
        let e = &v[i];
        if !(string_fits(&e.title) && all_strings_fit(&e.urls)) {
            assert(!entry_fits(entries_view(v@)[i as int]));
            return false;
        }
        i += 1;
    }
    true
}

fn all_summaries_fit(v: &Vec<SummaryEntry>) -> (b: bool)
    ensures
        b == summaries_fit(summaries_view(v@)),
{
    if v.len() > 0xffff_ffff {
        return false;
    }
    let mut i: usize = 0;
    while i < v.len()
        invariant
            i <= v.len(),
            forall|k: int| 0 <= k < i ==> summary_fits(#[trigger] summaries_view(v@)[k]),
        decreases v.len() - i,
    {
        if !string_fits(&v[i].name) {
            assert(!summary_fits(summaries_view(v@)[i as int]));
            return false;
        }
        i += 1;
    }
    true
}

fn subscription_fits_exec(s: &Subscription) -> (b: bool)
    ensures
        b == subscription_fits(s@),
{
    string_fits(&s.url) && string_fits(&s.original_url) && string_fits(&s.name) && string_fits(&s.directory)
        && all_entries_fit(&s.feed_state.entries) && all_entries_fit(&s.feed_state.queue)
        && all_summaries_fit(&s.feed_state.summary_queue)
}

fn all_subscriptions_fit(v: &Vec<Subscription>) -> (b: bool)
    ensures
        b == subscriptions_fit(subscriptions_view(v@)),
{
    if v.len() > 0xffff_ffff {
        return false;
    }
    let mut i: usize = 0;
    while i < v.len()
        invariant
            i <= v.len(),
            forall|k: int| 0 <= k < i ==> subscription_fits(#[trigger] subscriptions_view(v@)[k]),
        decreases v.len() - i,
    {
        if !subscription_fits_exec(&v[i]) {
            assert(!subscription_fits(subscriptions_view(v@)[i as int]));
            return false;
        }
        i += 1;
    }
    true
}

/// The MessagePack form of a list of subscriptions; empty where some string
/// or list is too long for a MessagePack header.
pub fn vec_serialize(subs: &Vec<Subscription>) -> (r: Vec<u8>)
    ensures
        r@ == if subscriptions_fit(subscriptions_view(subs@)) {
            subscriptions_bytes(subscriptions_view(subs@))
        } else {
            Seq::<u8>::empty()
        },
{
    let mut out: Vec<u8> = Vec::new();
    if all_subscriptions_fit(subs) {
        write_subscriptions(&mut out, subs);
        assert(out@ =~= subscriptions_bytes(subscriptions_view(subs@)));
    }
    out
}

/// The MessagePack form of one subscription; empty where some string or
/// list is too long for a MessagePack header.
pub fn serialize(sub: &Subscription) -> (r: Vec<u8>)
    ensures
        r@ == if subscription_fits(sub@) {
            subscription_bytes(sub@)
        } else {
            Seq::<u8>::empty()
        },
{
    let mut out: Vec<u8> = Vec::new();
    if subscription_fits_exec(sub) {
        write_subscription(&mut out, sub);
        assert(out@ =~= subscription_bytes(sub@));
    }
    out
}

// ---------------------------------------------------------------------------
// Reading the MessagePack form.

/// A key of a struct's map form, as read: a field name's bytes or a field's
/// position.
enum FieldKey<'a> {
    Name(&'a [u8]),
    Index(u64),
}

spec fn key_view(k: FieldKey) -> RecordKey {
    match k {
        FieldKey::Name(n) => RecordKey::Name(n@),
        FieldKey::Index(i) => RecordKey::Index(i),
    }
}

fn read_key(input: &[u8]) -> (r: Option<(FieldKey<'_>, &[u8])>)
    ensures
        match parse_key(input@) {
            Some((k, rest)) => r matches Some((k2, rest2)) && key_view(k2) == k && rest2@ == rest,
            None => r is None,
        },
{
    if input.len() == 0 {
        return None;
    }
    let m = input[0];
    if m < 0x80 || (0xcc <= m && m <= 0xcf) {
        match read_uint(input) {
            Some((v, r)) => Some((FieldKey::Index(v), r)),
            None => None,
        }
    } else {
        match read_raw(input) {
            Some((name, r)) => Some((FieldKey::Name(name), r)),
            None => None,
        }
    }
}

/// Which of `count` fields the position `i` names, or -1.
fn field_at(i: u64, count: u64) -> (f: i64)
    requires
        count < 8,
    ensures
        f == (if i < count { i as int } else { -1 }),
{
    if i < count {
        i as i64
    } else {
        -1
    }
}

/// Which field of an entry the name `k` names: its position, or -1.
fn entry_field_named(k: &[u8]) -> (f: i64)
    ensures
        f == field_index(RecordKey::Name(k@), entry_names()),
{
    let ghost names = entry_names();
    if k.len() == 5 && k[0] == 116u8 && k[1] == 105u8 && k[2] == 116u8 && k[3] == 108u8 && k[4] == 101u8 {
        assert(k@ =~= names[0]);
        0
    } else if k.len() == 4 && k[0] == 117u8 && k[1] == 114u8 && k[2] == 108u8 && k[3] == 115u8 {
        assert(k@ =~= names[1]);
        1
    } else {
        assert(k@ != names[0]) by {
            if k@ == names[0] {
                assert(k@.len() == 5);
                assert(k@[0] == names[0][0]);
                assert(k@[1] == names[0][1]);
                assert(k@[2] == names[0][2]);
                assert(k@[3] == names[0][3]);
                assert(k@[4] == names[0][4]);
            }
        }
        assert(k@ != names[1]) by {
            if k@ == names[1] {
                assert(k@.len() == 4);
                assert(k@[0] == names[1][0]);
                assert(k@[1] == names[1][1]);
                assert(k@[2] == names[1][2]);
                assert(k@[3] == names[1][3]);
            }
        }
        -1
    }
}

/// Which field of a summary entry the name `k` names: its position, or -1.
fn summary_field_named(k: &[u8]) -> (f: i64)
    ensures
        f == field_index(RecordKey::Name(k@), summary_names()),
{
    let ghost names = summary_names();
    if k.len() == 15 && k[0] == 105u8 && k[1] == 115u8 && k[2] == 95u8 && k[3] == 116u8 && k[4] == 104u8 && k[5] == 105u8 && k[6] == 115u8 && k[7] == 95u8 && k[8] == 115u8 && k[9] == 101u8 && k[10] == 115u8 && k[11] == 115u8 && k[12] == 105u8 && k[13] == 111u8 && k[14] == 110u8 {
        assert(k@ =~= names[0]);
        0
    } else if k.len() == 6 && k[0] == 110u8 && k[1] == 117u8 && k[2] == 109u8 && k[3] == 98u8 && k[4] == 101u8 && k[5] == 114u8 {
        assert(k@ =~= names[1]);
        1
    } else if k.len() == 4 && k[0] == 110u8 && k[1] == 97u8 && k[2] == 109u8 && k[3] == 101u8 {
        assert(k@ =~= names[2]);
        2
    } else {
        assert(k@ != names[0]) by {
            if k@ == names[0] {
                assert(k@.len() == 15);
                assert(k@[0] == names[0][0]);
                assert(k@[1] == names[0][1]);
                assert(k@[2] == names[0][2]);
                assert(k@[3] == names[0][3]);
                assert(k@[4] == names[0][4]);
                assert(k@[5] == names[0][5]);
                assert(k@[6] == names[0][6]);
                assert(k@[7] == names[0][7]);
                assert(k@[8] == names[0][8]);
                assert(k@[9] == names[0][9]);
                assert(k@[10] == names[0][10]);
                assert(k@[11] == names[0][11]);
                assert(k@[12] == names[0][12]);
                assert(k@[13] == names[0][13]);
                assert(k@[14] == names[0][14]);
            }
        }
        assert(k@ != names[1]) by {
            if k@ == names[1] {
                assert(k@.len() == 6);
                assert(k@[0] == names[1][0]);
                assert(k@[1] == names[1][1]);
                assert(k@[2] == names[1][2]);
                assert(k@[3] == names[1][3]);
                assert(k@[4] == names[1][4]);
                assert(k@[5] == names[1][5]);
            }
        }
        assert(k@ != names[2]) by {
            if k@ == names[2] {
                assert(k@.len() == 4);
                assert(k@[0] == names[2][0]);
                assert(k@[1] == names[2][1]);
                assert(k@[2] == names[2][2]);
                assert(k@[3] == names[2][3]);
            }
        }
        -1
    }
}

/// Which field of a feed state the name `k` names: its position, or -1.
fn feed_state_field_named(k: &[u8]) -> (f: i64)
    ensures
        f == field_index(RecordKey::Name(k@), feed_state_names()),
{
    let ghost names = feed_state_names();
    if k.len() == 7 && k[0] == 101u8 && k[1] == 110u8 && k[2] == 116u8 && k[3] == 114u8 && k[4] == 105u8 && k[5] == 101u8 && k[6] == 115u8 {
        assert(k@ =~= names[0]);
        0
    } else if k.len() == 5 && k[0] == 113u8 && k[1] == 117u8 && k[2] == 101u8 && k[3] == 117u8 && k[4] == 101u8 {
        assert(k@ =~= names[1]);
        1
    } else if k.len() == 19 && k[0] == 108u8 && k[1] == 97u8 && k[2] == 116u8 && k[3] == 101u8 && k[4] == 115u8 && k[5] == 116u8 && k[6] == 95u8 && k[7] == 101u8 && k[8] == 110u8 && k[9] == 116u8 && k[10] == 114u8 && k[11] == 121u8 && k[12] == 95u8 && k[13] == 110u8 && k[14] == 117u8 && k[15] == 109u8 && k[16] == 98u8 && k[17] == 101u8 && k[18] == 114u8 {
        assert(k@ =~= names[2]);
        2
    } else if k.len() == 13 && k[0] == 115u8 && k[1] == 117u8 && k[2] == 109u8 && k[3] == 109u8 && k[4] == 97u8 && k[5] == 114u8 && k[6] == 121u8 && k[7] == 95u8 && k[8] == 113u8 && k[9] == 117u8 && k[10] == 101u8 && k[11] == 117u8 && k[12] == 101u8 {
        assert(k@ =~= names[3]);
        3
    } else {
        assert(k@ != names[0]) by {
            if k@ == names[0] {
                assert(k@.len() == 7);
                assert(k@[0] == names[0][0]);
                assert(k@[1] == names[0][1]);
                assert(k@[2] == names[0][2]);
                assert(k@[3] == names[0][3]);
                assert(k@[4] == names[0][4]);
                assert(k@[5] == names[0][5]);
                assert(k@[6] == names[0][6]);
            }
        }
        assert(k@ != names[1]) by {
            if k@ == names[1] {
                assert(k@.len() == 5);
                assert(k@[0] == names[1][0]);
                assert(k@[1] == names[1][1]);
                assert(k@[2] == names[1][2]);
                assert(k@[3] == names[1][3]);
                assert(k@[4] == names[1][4]);
            }
        }
        assert(k@ != names[2]) by {
            if k@ == names[2] {
                assert(k@.len() == 19);
                assert(k@[0] == names[2][0]);
                assert(k@[1] == names[2][1]);
                assert(k@[2] == names[2][2]);
                assert(k@[3] == names[2][3]);
                assert(k@[4] == names[2][4]);
                assert(k@[5] == names[2][5]);
                assert(k@[6] == names[2][6]);
                assert(k@[7] == names[2][7]);
                assert(k@[8] == names[2][8]);
                assert(k@[9] == names[2][9]);
                assert(k@[10] == names[2][10]);
                assert(k@[11] == names[2][11]);
                assert(k@[12] == names[2][12]);
                assert(k@[13] == names[2][13]);
                assert(k@[14] == names[2][14]);
                assert(k@[15] == names[2][15]);
                assert(k@[16] == names[2][16]);
                assert(k@[17] == names[2][17]);
                assert(k@[18] == names[2][18]);
            }
        }
        assert(k@ != names[3]) by {
            if k@ == names[3] {
                assert(k@.len() == 13);
                assert(k@[0] == names[3][0]);
                assert(k@[1] == names[3][1]);
                assert(k@[2] == names[3][2]);
                assert(k@[3] == names[3][3]);
                assert(k@[4] == names[3][4]);
                assert(k@[5] == names[3][5]);
                assert(k@[6] == names[3][6]);
                assert(k@[7] == names[3][7]);
                assert(k@[8] == names[3][8]);
                assert(k@[9] == names[3][9]);
                assert(k@[10] == names[3][10]);
                assert(k@[11] == names[3][11]);
                assert(k@[12] == names[3][12]);
            }
        }
        -1
    }
}

/// Which field of a subscription the name `k` names: its position, or -1.
fn subscription_field_named(k: &[u8]) -> (f: i64)
    ensures
        f == field_index(RecordKey::Name(k@), subscription_names()),
{
    let ghost names = subscription_names();
    if k.len() == 3 && k[0] == 117u8 && k[1] == 114u8 && k[2] == 108u8 {
        assert(k@ =~= names[0]);
        0
    } else if k.len() == 12 && k[0] == 111u8 && k[1] == 114u8 && k[2] == 105u8 && k[3] == 103u8 && k[4] == 105u8 && k[5] == 110u8 && k[6] == 97u8 && k[7] == 108u8 && k[8] == 95u8 && k[9] == 117u8 && k[10] == 114u8 && k[11] == 108u8 {
        assert(k@ =~= names[1]);
        1
    } else if k.len() == 4 && k[0] == 110u8 && k[1] == 97u8 && k[2] == 109u8 && k[3] == 101u8 {
        assert(k@ =~= names[2]);
        2
    } else if k.len() == 9 && k[0] == 100u8 && k[1] == 105u8 && k[2] == 114u8 && k[3] == 101u8 && k[4] == 99u8 && k[5] == 116u8 && k[6] == 111u8 && k[7] == 114u8 && k[8] == 121u8 {
        assert(k@ =~= names[3]);
        3
    } else if k.len() == 13 && k[0] == 98u8 && k[1] == 97u8 && k[2] == 99u8 && k[3] == 107u8 && k[4] == 108u8 && k[5] == 111u8 && k[6] == 103u8 && k[7] == 95u8 && k[8] == 108u8 && k[9] == 105u8 && k[10] == 109u8 && k[11] == 105u8 && k[12] == 116u8 {
        assert(k@ =~= names[4]);
        4
    } else if k.len() == 21 && k[0] == 117u8 && k[1] == 115u8 && k[2] == 101u8 && k[3] == 95u8 && k[4] == 116u8 && k[5] == 105u8 && k[6] == 116u8 && k[7] == 108u8 && k[8] == 101u8 && k[9] == 95u8 && k[10] == 97u8 && k[11] == 115u8 && k[12] == 95u8 && k[13] == 102u8 && k[14] == 105u8 && k[15] == 108u8 && k[16] == 101u8 && k[17] == 110u8 && k[18] == 97u8 && k[19] == 109u8 && k[20] == 101u8 {
        assert(k@ =~= names[5]);
        5
    } else if k.len() == 10 && k[0] == 102u8 && k[1] == 101u8 && k[2] == 101u8 && k[3] == 100u8 && k[4] == 95u8 && k[5] == 115u8 && k[6] == 116u8 && k[7] == 97u8 && k[8] == 116u8 && k[9] == 101u8 {
        assert(k@ =~= names[6]);
        6
    } else {
        assert(k@ != names[0]) by {
            if k@ == names[0] {
                assert(k@.len() == 3);
                assert(k@[0] == names[0][0]);
                assert(k@[1] == names[0][1]);
                assert(k@[2] == names[0][2]);
            }
        }
        assert(k@ != names[1]) by {
            if k@ == names[1] {
                assert(k@.len() == 12);
                assert(k@[0] == names[1][0]);
                assert(k@[1] == names[1][1]);
                assert(k@[2] == names[1][2]);
                assert(k@[3] == names[1][3]);
                assert(k@[4] == names[1][4]);
                assert(k@[5] == names[1][5]);
                assert(k@[6] == names[1][6]);
                assert(k@[7] == names[1][7]);
                assert(k@[8] == names[1][8]);
                assert(k@[9] == names[1][9]);
                assert(k@[10] == names[1][10]);
                assert(k@[11] == names[1][11]);
            }
        }
        assert(k@ != names[2]) by {
            if k@ == names[2] {
                assert(k@.len() == 4);
                assert(k@[0] == names[2][0]);
                assert(k@[1] == names[2][1]);
                assert(k@[2] == names[2][2]);
                assert(k@[3] == names[2][3]);
            }
        }
        assert(k@ != names[3]) by {
            if k@ == names[3] {
                assert(k@.len() == 9);
                assert(k@[0] == names[3][0]);
                assert(k@[1] == names[3][1]);
                assert(k@[2] == names[3][2]);
                assert(k@[3] == names[3][3]);
                assert(k@[4] == names[3][4]);
                assert(k@[5] == names[3][5]);
                assert(k@[6] == names[3][6]);
                assert(k@[7] == names[3][7]);
                assert(k@[8] == names[3][8]);
            }
        }
        assert(k@ != names[4]) by {
            if k@ == names[4] {
                assert(k@.len() == 13);
                assert(k@[0] == names[4][0]);
                assert(k@[1] == names[4][1]);
                assert(k@[2] == names[4][2]);
                assert(k@[3] == names[4][3]);
                assert(k@[4] == names[4][4]);
                assert(k@[5] == names[4][5]);
                assert(k@[6] == names[4][6]);
                assert(k@[7] == names[4][7]);
                assert(k@[8] == names[4][8]);
                assert(k@[9] == names[4][9]);
                assert(k@[10] == names[4][10]);
                assert(k@[11] == names[4][11]);
                assert(k@[12] == names[4][12]);
            }
        }
        assert(k@ != names[5]) by {
            if k@ == names[5] {
                assert(k@.len() == 21);
                assert(k@[0] == names[5][0]);
                assert(k@[1] == names[5][1]);
                assert(k@[2] == names[5][2]);
                assert(k@[3] == names[5][3]);
                assert(k@[4] == names[5][4]);
                assert(k@[5] == names[5][5]);
                assert(k@[6] == names[5][6]);
                assert(k@[7] == names[5][7]);
                assert(k@[8] == names[5][8]);
                assert(k@[9] == names[5][9]);
                assert(k@[10] == names[5][10]);
                assert(k@[11] == names[5][11]);
                assert(k@[12] == names[5][12]);
                assert(k@[13] == names[5][13]);
                assert(k@[14] == names[5][14]);
                assert(k@[15] == names[5][15]);
                assert(k@[16] == names[5][16]);
                assert(k@[17] == names[5][17]);
                assert(k@[18] == names[5][18]);
                assert(k@[19] == names[5][19]);
                assert(k@[20] == names[5][20]);
            }
        }
        assert(k@ != names[6]) by {
            if k@ == names[6] {
                assert(k@.len() == 10);
                assert(k@[0] == names[6][0]);
                assert(k@[1] == names[6][1]);
                assert(k@[2] == names[6][2]);
                assert(k@[3] == names[6][3]);
                assert(k@[4] == names[6][4]);
                assert(k@[5] == names[6][5]);
                assert(k@[6] == names[6][6]);
                assert(k@[7] == names[6][7]);
                assert(k@[8] == names[6][8]);
                assert(k@[9] == names[6][9]);
            }
        }
        -1
    }
}
fn read_strings(input: &[u8], c: u32) -> (r: Option<(Vec<String>, &[u8])>)
    ensures
        match parse_list(input@, c as nat, str_dec()) {
            Some((l, rest)) => r matches Some((v, rest2)) && strings_view(v@) == l && rest2@ == rest,
            None => r is None,
        },
{
    match read_array_len(input) {
        Some((n, r0)) => {
            if c <= 1 {
                return None;
            }
            let mut cur = r0;
            let mut acc: Vec<String> = Vec::new();
            let mut i: u32 = 0;
            assert(strings_view(acc@) =~= seq![]);
            while i < n
                invariant
                    i <= n,
                    c > 1,
                    parse_array_header(input@) == Some((n, r0@)),
                    parse_items(r0@, i as nat, str_dec()) == Some((strings_view(acc@), cur@)),
                decreases n - i,
            {
                match read_text(cur) {
                    Some((s, rest)) => {
                        let ghost before = acc@;
                        let ghost sv = s@;
                        acc.push(s);
                        assert(strings_view(acc@) =~= strings_view(before).push(sv));
                        cur = rest;
                    },
                    None => {
                        proof {
                            lemma_parse_items_stops(r0@, (i + 1) as nat, n as nat, str_dec());
                        }
                        return None;
                    },
                }
                i += 1;
            }
            Some((acc, cur))
        },
        None => match read_bin_len(input) {
            Some((n, r)) => if n == 0 {
                let v: Vec<String> = Vec::new();
                assert(strings_view(v@) =~= seq![]);
                Some((v, r))
            } else {
                None
            },
            None => None,
        },
    }
}

struct EntryParts {
    title: Option<String>,
    urls: Option<Vec<String>>,
}

impl EntryParts {
    spec fn fields(self) -> EntryFields {
        EntryFields {
            title: match self.title {
                Some(t) => Some(t@),
                None => None,
            },
            urls: match self.urls {
                Some(u) => Some(strings_view(u@)),
                None => None,
            },
        }
    }
}

/// Reads one key-value pair of an entry's map form into `parts`.
fn read_entry_field<'a>(parts: &mut EntryParts, cur: &'a [u8], c: u32) -> (r: Option<&'a [u8]>)
    ensures
        match entry_step(c as nat)(old(parts).fields(), cur@) {
            Some((a, rest)) => r matches Some(rest2) && rest2@ == rest && final(parts).fields() == a,
            None => r is None,
        },
{
    let (k, r) = match read_key(cur) {
        Some(p) => p,
        None => return None,
    };
    let f = match k {
        FieldKey::Index(i) => field_at(i, 2),
        FieldKey::Name(name) => entry_field_named(name),
    };
    assert(f == field_index(key_view(k), entry_names()));
    if f == 0 {
        if parts.title.is_some() {
            return None;
        }
        match read_text(r) {
            Some((v, r2)) => {
                parts.title = Some(v);
                Some(r2)
            },
            None => None,
        }
    } else if f == 1 {
        if parts.urls.is_some() {
            return None;
        }
        match read_strings(r, c) {
            Some((v, r2)) => {
                parts.urls = Some(v);
                Some(r2)
            },
            None => None,
        }
    } else {
        skip_value_exec(r, c)
    }
}

fn read_entry(input: &[u8], c: u32) -> (r: Option<(Entry, &[u8])>)
    ensures
        match parse_entry(input@, c as nat) {
            Some((e, rest)) => r matches Some((v, rest2)) && v@ == e && rest2@ == rest,
            None => r is None,
        },
{
    match read_array_len(input) {
        Some((n, r0)) => {
            if c <= 1 || n != 2 {
                return None;
            }
            let (title, r1) = match read_text(r0) {
                Some(p) => p,
                None => return None,
            };
            let (urls, r2) = match read_strings(r1, c - 1) {
                Some(p) => p,
                None => return None,
            };
            Some((Entry { title, urls }, r2))
        },
        None => {
            let (n, r0) = match read_map_len(input) {
                Some(p) => p,
                None => return None,
            };
            if c <= 1 {
                return None;
            }
            let ghost step = entry_step((c - 1) as nat);
            let mut parts = EntryParts { title: None, urls: None };
            let mut cur = r0;
            let mut i: u32 = 0;
            while i < n
                invariant
                    i <= n,
                    step == entry_step((c - 1) as nat),
                    c > 1,
                    parse_array_header(input@) is None,
                    parse_map_header(input@) == Some((n, r0@)),
                    parse_fields(r0@, i as nat, no_entry_fields(), step) == Some((parts.fields(), cur@)),
                decreases n - i,
            {
                match read_entry_field(&mut parts, cur, c - 1) {
                    Some(rest) => {
                        cur = rest;
                    },
                    None => {
                        proof {
                            lemma_parse_fields_stops(r0@, (i + 1) as nat, n as nat, no_entry_fields(), step);
                        }
                        return None;
                    },
                }
                i += 1;
            }
            match parts {
                EntryParts { title: Some(title), urls: Some(urls) } => Some((Entry { title, urls }, cur)),
                _ => None,
            }
        },
    }
}

fn read_entries(input: &[u8], d: u32) -> (r: Option<(Vec<Entry>, &[u8])>)
    ensures
        match parse_list(input@, d as nat, entry_dec((d - 1) as nat)) {
            Some((l, rest)) => r matches Some((v, rest2)) && entries_view(v@) == l && rest2@ == rest,
            None => r is None,
        },
{
    match read_array_len(input) {
        Some((n, r0)) => {
            if d <= 1 {
                return None;
            }
            let ghost p = entry_dec((d - 1) as nat);
            let mut cur = r0;
            let mut acc: Vec<Entry> = Vec::new();
            let mut i: u32 = 0;
            assert(entries_view(acc@) =~= seq![]);
            while i < n
                invariant
                    i <= n,
                    d > 1,
                    parse_array_header(input@) == Some((n, r0@)),
                    p == entry_dec((d - 1) as nat),
                    parse_items(r0@, i as nat, p) == Some((entries_view(acc@), cur@)),
                decreases n - i,
            {
                match read_entry(cur, d - 1) {
                    Some((e, rest)) => {
                        let ghost before = acc@;
                        let ghost ev = e@;
                        acc.push(e);
                        assert(entries_view(acc@) =~= entries_view(before).push(ev));
                        cur = rest;
                    },
                    None => {
                        proof {
                            lemma_parse_items_stops(r0@, (i + 1) as nat, n as nat, p);
                        }
                        return None;
                    },
                }
                i += 1;
            }
            Some((acc, cur))
        },
        None => match read_bin_len(input) {
            Some((n, r)) => if n == 0 {
                let v: Vec<Entry> = Vec::new();
                assert(entries_view(v@) =~= seq![]);
                Some((v, r))
            } else {
                None
            },
            None => None,
        },
    }
}

struct SummaryParts {
    is_this_session: Option<bool>,
    number: Option<u64>,
    name: Option<String>,
}

impl SummaryParts {
    spec fn fields(self) -> SummaryFields {
        SummaryFields {
            is_this_session: self.is_this_session,
            number: self.number,
            name: match self.name {
                Some(t) => Some(t@),
                None => None,
            },
        }
    }
}

/// Reads one key-value pair of a summary entry's map form into `parts`.
fn read_summary_field<'a>(parts: &mut SummaryParts, cur: &'a [u8], c: u32) -> (r: Option<&'a [u8]>)
    ensures
        match summary_step(c as nat)(old(parts).fields(), cur@) {
            Some((a, rest)) => r matches Some(rest2) && rest2@ == rest && final(parts).fields() == a,
            None => r is None,
        },
{
    let (k, r) = match read_key(cur) {
        Some(p) => p,
        None => return None,
    };
    let f = match k {
        FieldKey::Index(i) => field_at(i, 3),
        FieldKey::Name(name) => summary_field_named(name),
    };
    assert(f == field_index(key_view(k), summary_names()));
    if f == 0 {
        if parts.is_this_session.is_some() {
            return None;
        }
        match read_bool(r) {
            Some((v, r2)) => {
                parts.is_this_session = Some(v);
                Some(r2)
            },
            None => None,
        }
    } else if f == 1 {
        if parts.number.is_some() {
            return None;
        }
        match read_uint(r) {
            Some((v, r2)) => {
                parts.number = Some(v);
                Some(r2)
            },
            None => None,
        }
    } else if f == 2 {
        if parts.name.is_some() {
            return None;
        }
        match read_text(r) {
            Some((v, r2)) => {
                parts.name = Some(v);
                Some(r2)
            },
            None => None,
        }
    } else {
        skip_value_exec(r, c)
    }
}

fn read_summary(input: &[u8], c: u32) -> (r: Option<(SummaryEntry, &[u8])>)
    ensures
        match parse_summary(input@, c as nat) {
            Some((e, rest)) => r matches Some((v, rest2)) && v@ == e && rest2@ == rest,
            None => r is None,
        },
{
    match read_array_len(input) {
        Some((n, r0)) => {
            if c <= 1 || n != 3 {
                return None;
            }
            let (is_this_session, r1) = match read_bool(r0) {
                Some(p) => p,
                None => return None,
            };
            let (number, r2) = match read_uint(r1) {
                Some(p) => p,
                None => return None,
            };
            let (name, r3) = match read_text(r2) {
                Some(p) => p,
                None => return None,
            };
            Some((SummaryEntry { is_this_session, number, name }, r3))
        },
        None => {
            let (n, r0) = match read_map_len(input) {
                Some(p) => p,
                None => return None,
            };
            if c <= 1 {
                return None;
            }
            let ghost step = summary_step((c - 1) as nat);
            let mut parts = SummaryParts { is_this_session: None, number: None, name: None };
            let mut cur = r0;
            let mut i: u32 = 0;
            while i < n
                invariant
                    i <= n,
                    step == summary_step((c - 1) as nat),
                    c > 1,
                    parse_array_header(input@) is None,
                    parse_map_header(input@) == Some((n, r0@)),
                    parse_fields(r0@, i as nat, no_summary_fields(), step) == Some((parts.fields(), cur@)),
                decreases n - i,
            {
                match read_summary_field(&mut parts, cur, c - 1) {
                    Some(rest) => {
                        cur = rest;
                    },
                    None => {
                        proof {
                            lemma_parse_fields_stops(r0@, (i + 1) as nat, n as nat, no_summary_fields(), step);
                        }
                        return None;
                    },
                }
                i += 1;
            }
            match parts {
                SummaryParts { is_this_session: Some(is_this_session), number: Some(number), name: Some(name) } => {
                    Some((SummaryEntry { is_this_session, number, name }, cur))
                },
                _ => None,
            }
        },
    }
}

fn read_summaries(input: &[u8], d: u32) -> (r: Option<(Vec<SummaryEntry>, &[u8])>)
    ensures
        match parse_list(input@, d as nat, summary_dec((d - 1) as nat)) {
            Some((l, rest)) => r matches Some((v, rest2)) && summaries_view(v@) == l && rest2@ == rest,
            None => r is None,
        },
{
    match read_array_len(input) {
        Some((n, r0)) => {
            if d <= 1 {
                return None;
            }
            let ghost p = summary_dec((d - 1) as nat);
            let mut cur = r0;
            let mut acc: Vec<SummaryEntry> = Vec::new();
            let mut i: u32 = 0;
            assert(summaries_view(acc@) =~= seq![]);
            while i < n
                invariant
                    i <= n,
                    d > 1,
                    parse_array_header(input@) == Some((n, r0@)),
                    p == summary_dec((d - 1) as nat),
                    parse_items(r0@, i as nat, p) == Some((summaries_view(acc@), cur@)),
                decreases n - i,
            {
                match read_summary(cur, d - 1) {
                    Some((e, rest)) => {
                        let ghost before = acc@;
                        let ghost ev = e@;
                        acc.push(e);
                        assert(summaries_view(acc@) =~= summaries_view(before).push(ev));
                        cur = rest;
                    },
                    None => {
                        proof {
                            lemma_parse_items_stops(r0@, (i + 1) as nat, n as nat, p);
                        }
                        return None;
                    },
                }
                i += 1;
            }
            Some((acc, cur))
        },
        None => match read_bin_len(input) {
            Some((n, r)) => if n == 0 {
                let v: Vec<SummaryEntry> = Vec::new();
                assert(summaries_view(v@) =~= seq![]);
                Some((v, r))
            } else {
                None
            },
            None => None,
        },
    }
}

struct FeedStateParts {
    entries: Option<Vec<Entry>>,
    queue: Option<Vec<Entry>>,
    latest_entry_number: Option<u64>,
    summary_queue: Option<Vec<SummaryEntry>>,
}

impl FeedStateParts {
    spec fn fields(self) -> FeedStateFields {
        FeedStateFields {
            entries: match self.entries {
                Some(v) => Some(entries_view(v@)),
                None => None,
            },
            queue: match self.queue {
                Some(v) => Some(entries_view(v@)),
                None => None,
            },
            latest_entry_number: self.latest_entry_number,
            summary_queue: match self.summary_queue {
                Some(v) => Some(summaries_view(v@)),
                None => None,
            },
        }
    }
}

/// Reads one key-value pair of a feed state's map form into `parts`.
fn read_feed_state_field<'a>(parts: &mut FeedStateParts, cur: &'a [u8], c: u32) -> (r: Option<&'a [u8]>)
    ensures
        match feed_state_step(c as nat)(old(parts).fields(), cur@) {
            Some((a, rest)) => r matches Some(rest2) && rest2@ == rest && final(parts).fields() == a,
            None => r is None,
        },
{
    let (k, r) = match read_key(cur) {
        Some(p) => p,
        None => return None,
    };
    let f = match k {
        FieldKey::Index(i) => field_at(i, 4),
        FieldKey::Name(name) => feed_state_field_named(name),
    };
    assert(f == field_index(key_view(k), feed_state_names()));
    if f == 0 {
        if parts.entries.is_some() {
            return None;
        }
        match read_entries(r, c) {
            Some((v, r2)) => {
                parts.entries = Some(v);
                Some(r2)
            },
            None => None,
        }
    } else if f == 1 {
        if parts.queue.is_some() {
            return None;
        }
        match read_entries(r, c) {
            Some((v, r2)) => {
                parts.queue = Some(v);
                Some(r2)
            },
            None => None,
        }
    } else if f == 2 {
        if parts.latest_entry_number.is_some() {
            return None;
        }
        match read_uint(r) {
            Some((v, r2)) => {
                parts.latest_entry_number = Some(v);
                Some(r2)
            },
            None => None,
        }
    } else if f == 3 {
        if parts.summary_queue.is_some() {
            return None;
        }
        match read_summaries(r, c) {
            Some((v, r2)) => {
                parts.summary_queue = Some(v);
                Some(r2)
            },
            None => None,
        }
    } else {
        skip_value_exec(r, c)
    }
}

fn read_feed_state(input: &[u8], c: u32) -> (r: Option<(FeedState, &[u8])>)
    ensures
        match parse_feed_state(input@, c as nat) {
            Some((f, rest)) => r matches Some((v, rest2)) && v@ == f && rest2@ == rest,
            None => r is None,
        },
{
    match read_array_len(input) {
        Some((n, r0)) => {
            if c <= 1 || n != 4 {
                return None;
            }
            let d = c - 1;
            let (entries, r1) = match read_entries(r0, d) {
                Some(p) => p,
                None => return None,
            };
            let (queue, r2) = match read_entries(r1, d) {
                Some(p) => p,
                None => return None,
            };
            let (latest_entry_number, r3) = match read_uint(r2) {
                Some(p) => p,
                None => return None,
            };
            let (summary_queue, r4) = match read_summaries(r3, d) {
                Some(p) => p,
                None => return None,
            };
            Some((FeedState { entries, queue, latest_entry_number, summary_queue }, r4))
        },
        None => {
            let (n, r0) = match read_map_len(input) {
                Some(p) => p,
                None => return None,
            };
            if c <= 1 {
                return None;
            }
            let ghost step = feed_state_step((c - 1) as nat);
            let mut parts = FeedStateParts { entries: None, queue: None, latest_entry_number: None, summary_queue: None };
            let mut cur = r0;
            let mut i: u32 = 0;
            while i < n
                invariant
                    i <= n,
                    step == feed_state_step((c - 1) as nat),
                    c > 1,
                    parse_array_header(input@) is None,
                    parse_map_header(input@) == Some((n, r0@)),
                    parse_fields(r0@, i as nat, no_feed_state_fields(), step) == Some((parts.fields(), cur@)),
                decreases n - i,
            {
                match read_feed_state_field(&mut parts, cur, c - 1) {
                    Some(rest) => {
                        cur = rest;
                    },
                    None => {
                        proof {
                            lemma_parse_fields_stops(r0@, (i + 1) as nat, n as nat, no_feed_state_fields(), step);
                        }
                        return None;
                    },
                }
                i += 1;
            }
            match parts {
                FeedStateParts {
                    entries: Some(entries),
                    queue: Some(queue),
                    latest_entry_number: Some(latest_entry_number),
                    summary_queue: Some(summary_queue),
                } => Some((FeedState { entries, queue, latest_entry_number, summary_queue }, cur)),
                _ => None,
            }
        },
    }
}

struct SubscriptionParts {
    url: Option<String>,
    original_url: Option<String>,
    name: Option<String>,
    directory: Option<String>,
    backlog_limit: Option<u64>,
    use_title_as_filename: Option<bool>,
    feed_state: Option<FeedState>,
}

spec fn text_field(o: Option<String>) -> Option<Seq<char>> {
    match o {
        Some(t) => Some(t@),
        None => None,
    }
}

impl SubscriptionParts {
    spec fn fields(self) -> SubscriptionFields {
        SubscriptionFields {
            url: text_field(self.url),
            original_url: text_field(self.original_url),
            name: text_field(self.name),
            directory: text_field(self.directory),
            backlog_limit: self.backlog_limit,
            use_title_as_filename: self.use_title_as_filename,
            feed_state: match self.feed_state {
                Some(f) => Some(f@),
                None => None,
            },
        }
    }
}

/// Reads one key-value pair of a subscription's map form into `parts`.
fn read_subscription_field<'a>(parts: &mut SubscriptionParts, cur: &'a [u8], c: u32) -> (r: Option<&'a [u8]>)
    ensures
        match subscription_step(c as nat)(old(parts).fields(), cur@) {
            Some((a, rest)) => r matches Some(rest2) && rest2@ == rest && final(parts).fields() == a,
            None => r is None,
        },
{
    let (k, r) = match read_key(cur) {
        Some(p) => p,
        None => return None,
    };
    let f = match k {
        FieldKey::Index(i) => field_at(i, 7),
        FieldKey::Name(name) => subscription_field_named(name),
    };
    assert(f == field_index(key_view(k), subscription_names()));
    if f == 0 {
        if parts.url.is_some() {
            return None;
        }
        match read_text(r) {
            Some((v, r2)) => {
                parts.url = Some(v);
                Some(r2)
            },
            None => None,
        }
    } else if f == 1 {
        if parts.original_url.is_some() {
            return None;
        }
        match read_text(r) {
            Some((v, r2)) => {
                parts.original_url = Some(v);
                Some(r2)
            },
            None => None,
        }
    } else if f == 2 {
        if parts.name.is_some() {
            return None;
        }
        match read_text(r) {
            Some((v, r2)) => {
                parts.name = Some(v);
                Some(r2)
            },
            None => None,
        }
    } else if f == 3 {
        if parts.directory.is_some() {
            return None;
        }
        match read_text(r) {
            Some((v, r2)) => {
                parts.directory = Some(v);
                Some(r2)
            },
            None => None,
        }
    } else if f == 4 {
        if parts.backlog_limit.is_some() {
            return None;
        }
        match read_uint(r) {
            Some((v, r2)) => {
                parts.backlog_limit = Some(v);
                Some(r2)
            },
            None => None,
        }
    } else if f == 5 {
        if parts.use_title_as_filename.is_some() {
            return None;
        }
        match read_bool(r) {
            Some((v, r2)) => {
                parts.use_title_as_filename = Some(v);
                Some(r2)
            },
            None => None,
        }
    } else if f == 6 {
        if parts.feed_state.is_some() {
            return None;
        }
        match read_feed_state(r, c) {
            Some((v, r2)) => {
                parts.feed_state = Some(v);
                Some(r2)
            },
            None => None,
        }
    } else {
        skip_value_exec(r, c)
    }
}

fn read_subscription_array(r0: &[u8], d: u32) -> (r: Option<(Subscription, &[u8])>)
    ensures
        match parse_subscription_array(r0@, d as nat) {
            Some((s, rest)) => r matches Some((v, rest2)) && v@ == s && rest2@ == rest,
            None => r is None,
        },
{
    let (url, r1) = match read_text(r0) {
        Some(p) => p,
        None => return None,
    };
    let (original_url, r2) = match read_text(r1) {
        Some(p) => p,
        None => return None,
    };
    let (name, r3) = match read_text(r2) {
        Some(p) => p,
        None => return None,
    };
    let (directory, r4) = match read_text(r3) {
        Some(p) => p,
        None => return None,
    };
    let (backlog_limit, r5) = match read_uint(r4) {
        Some(p) => p,
        None => return None,
    };
    let (use_title_as_filename, r6) = match read_bool(r5) {
        Some(p) => p,
        None => return None,
    };
    let (feed_state, r7) = match read_feed_state(r6, d) {
        Some(p) => p,
        None => return None,
    };
    let s = Subscription { url, original_url, name, directory, backlog_limit, use_title_as_filename, feed_state };
    Some((s, r7))
}

fn read_subscription_map(r0: &[u8], n: u32, d: u32) -> (r: Option<(Subscription, &[u8])>)
    ensures
        match parse_fields(r0@, n as nat, no_subscription_fields(), subscription_step(d as nat)) {
            Some((a, rest)) => match subscription_from_fields(a) {
                Some(s) => r matches Some((v, rest2)) && v@ == s && rest2@ == rest,
                None => r is None,
            },
            None => r is None,
        },
{
    let ghost step = subscription_step(d as nat);
    let mut parts = SubscriptionParts {
        url: None,
        original_url: None,
        name: None,
        directory: None,
        backlog_limit: None,
        use_title_as_filename: None,
        feed_state: None,
    };
    let mut cur = r0;
    let mut i: u32 = 0;
    while i < n
        invariant
            i <= n,
            step == subscription_step(d as nat),
            parse_fields(r0@, i as nat, no_subscription_fields(), step) == Some((parts.fields(), cur@)),
        decreases n - i,
    {
        match read_subscription_field(&mut parts, cur, d) {
            Some(rest) => {
                cur = rest;
            },
            None => {
                proof {
                    lemma_parse_fields_stops(r0@, (i + 1) as nat, n as nat, no_subscription_fields(), step);
                }
                return None;
            },
        }
        i += 1;
    }
    match parts {
        SubscriptionParts {
            url: Some(url),
            original_url: Some(original_url),
            name: Some(name),
            directory: Some(directory),
            backlog_limit: Some(backlog_limit),
            use_title_as_filename: Some(use_title_as_filename),
            feed_state: Some(feed_state),
        } => {
            let s = Subscription { url, original_url, name, directory, backlog_limit, use_title_as_filename, feed_state };
            Some((s, cur))
        },
        _ => None,
    }
}

fn read_subscription(input: &[u8], c: u32) -> (r: Option<(Subscription, &[u8])>)
    ensures
        match parse_subscription(input@, c as nat) {
            Some((s, rest)) => r matches Some((v, rest2)) && v@ == s && rest2@ == rest,
            None => r is None,
        },
{
    reveal(parse_subscription);
    match read_array_len(input) {
        Some((n, r0)) => {
            if c <= 1 || n != 7 {
                return None;
            }
            read_subscription_array(r0, c - 1)
        },
        None => {
            let (n, r0) = match read_map_len(input) {
                Some(p) => p,
                None => return None,
            };
            if c <= 1 {
                return None;
            }
            read_subscription_map(r0, n, c - 1)
        },
    }
}

/// The nesting budget as an executable value.
fn top_budget_exec() -> (c: u32)
    ensures
        c == top_budget(),
{
    1024
}

/// Reads one subscription from the start of `sub_vec`, in any form that
/// `rmp_serde` reads into a subscription; what follows it is ignored.
/// `None` exactly where the bytes do not start with one.
pub fn deserialize(sub_vec: &Vec<u8>) -> (r: Option<Subscription>)
    ensures
        match parse_subscription(sub_vec@, top_budget()) {
            Some((s, _)) => r matches Some(v) && v@ == s,
            None => r is None,
        },
{
    match read_subscription(sub_vec.as_slice(), top_budget_exec()) {
        Some((s, _)) => Some(s),
        None => None,
    }
}

fn read_subscriptions(input: &[u8], d: u32) -> (r: Option<(Vec<Subscription>, &[u8])>)
    ensures
        match parse_list(input@, d as nat, subscription_dec((d - 1) as nat)) {
            Some((l, rest)) => r matches Some((v, rest2)) && subscriptions_view(v@) == l && rest2@ == rest,
            None => r is None,
        },
{
    match read_array_len(input) {
        Some((n, r0)) => {
            if d <= 1 {
                return None;
            }
            let ghost p = subscription_dec((d - 1) as nat);
            let mut cur = r0;
            let mut acc: Vec<Subscription> = Vec::new();
            let mut i: u32 = 0;
            assert(subscriptions_view(acc@) =~= seq![]);
            while i < n
                invariant
                    i <= n,
                    d > 1,
                    parse_array_header(input@) == Some((n, r0@)),
                    p == subscription_dec((d - 1) as nat),
                    parse_items(r0@, i as nat, p) == Some((subscriptions_view(acc@), cur@)),
                decreases n - i,
            {
                match read_subscription(cur, d - 1) {
                    Some((s, rest)) => {
                        let ghost before = acc@;
                        let ghost sv = s@;
                        acc.push(s);
                        assert(subscriptions_view(acc@) =~= subscriptions_view(before).push(sv));
                        cur = rest;
                    },
                    None => {
                        proof {
                            lemma_parse_items_stops(r0@, (i + 1) as nat, n as nat, p);
                        }
                        return None;
                    },
                }
                i += 1;
            }
            Some((acc, cur))
        },
        None => match read_bin_len(input) {
            Some((n, r)) => if n == 0 {
                let v: Vec<Subscription> = Vec::new();
                assert(subscriptions_view(v@) =~= seq![]);
                Some((v, r))
            } else {
                None
            },
            None => None,
        },
    }
}

/// Whether `sub_vec` starts with a list of subscriptions, in any form that
/// `rmp_serde` reads into one: what a caller tests before `vec_deserialize`.
pub fn is_subscription_list(sub_vec: &Vec<u8>) -> (b: bool)
    ensures
        b == parse_subscriptions(sub_vec@) is Some,
{
    read_subscriptions(sub_vec.as_slice(), top_budget_exec()).is_some()
}

/// Reads the list of subscriptions at the start of `sub_vec`, in any form
/// that `rmp_serde` reads into one; what follows it is ignored. The bytes
/// must hold such a list: reading anything else is a fault of the caller,
/// which `is_subscription_list` lets it rule out.
pub fn vec_deserialize(sub_vec: &Vec<u8>) -> (r: Option<Vec<Subscription>>)
    requires
        parse_subscriptions(sub_vec@) is Some,
    ensures
        r matches Some(v) && subscriptions_view(v@) == parse_subscriptions(sub_vec@).unwrap().0,
{
    match read_subscriptions(sub_vec.as_slice(), top_budget_exec()) {
        Some((v, _)) => Some(v),
        None => None,
    }
}

} // verus!
