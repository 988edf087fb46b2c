//! The configuration: where the fetcher's cache lives, and the subscriptions
//! loaded from it, with the statistics the menu offers over them.

use vstd::prelude::*;

use crate::ranking::sorted_by_count_descending;
use crate::subscription::{
    earliest_entry_name, latest_entry_name, parse_subscriptions, subscriptions_view, vec_deserialize,
    Subscription, SubscriptionView,
};

verus! {

pub struct ConfigView {
    pub cache_location: Seq<char>,
    pub subscriptions: Seq<SubscriptionView>,
}

/// The cache's location and the subscriptions read from it.
#[derive(Debug, PartialEq)]
pub struct Config {
    pub cache_location: String,
    pub subscriptions: Vec<Subscription>,
}

impl View for Config {
    type V = ConfigView;

    open spec fn view(&self) -> ConfigView {
        ConfigView { cache_location: self.cache_location@, subscriptions: subscriptions_view(self.subscriptions@) }
    }
}

/// The location the cache is read from: the one given, else the one the
/// fetcher's cache directory holds, if any.
pub open spec fn chosen_location(cache_location: Option<String>, found_cache: Option<String>) -> Option<Seq<char>> {
    match cache_location {
        Some(l) => Some(l@),
        None => match found_cache {
            Some(f) => Some(f@),
            None => None,
        },
    }
}

/// Each subscription's latest entry number, in order.
pub open spec fn entry_counts(subs: Seq<SubscriptionView>) -> Seq<u64> {
    subs.map_values(|s: SubscriptionView| s.feed_state.latest_entry_number)
}

/// `k` is the first position holding the highest entry count.
pub open spec fn is_highest(subs: Seq<SubscriptionView>, k: int) -> bool {
    let c = entry_counts(subs);
    &&& 0 <= k < subs.len()
    &&& forall|j: int| 0 <= j < subs.len() ==> #[trigger] c[j] <= c[k]
    &&& forall|j: int| 0 <= j < k ==> #[trigger] c[j] < c[k]
}

/// The entry counts are, position by position, the subscriptions' latest
/// entry numbers, and nothing else they hold.
pub proof fn lemma_entry_counts_are_latest_numbers(subs: Seq<SubscriptionView>)
    ensures
        entry_counts(subs).len() == subs.len(),
        forall|i: int| 0 <= i < subs.len() ==> #[trigger] entry_counts(subs)[i] == subs[i].feed_state.latest_entry_number,
{
}

/// The subscription with the highest entry count is the first whose latest
/// entry number no subscription exceeds, and which every earlier one falls
/// short of.
pub proof fn lemma_highest_by_latest_number(subs: Seq<SubscriptionView>, k: int)
    ensures
        is_highest(subs, k) <==> {
            &&& 0 <= k < subs.len()
            &&& forall|j: int| 0 <= j < subs.len() ==> #[trigger] subs[j].feed_state.latest_entry_number
                <= subs[k].feed_state.latest_entry_number
            &&& forall|j: int| 0 <= j < k ==> #[trigger] subs[j].feed_state.latest_entry_number
                < subs[k].feed_state.latest_entry_number
        },
{
    lemma_entry_counts_are_latest_numbers(subs);
    let c = entry_counts(subs);
    if 0 <= k < subs.len() {
        if is_highest(subs, k) {
            assert forall|j: int| 0 <= j < subs.len() implies #[trigger] subs[j].feed_state.latest_entry_number
                <= subs[k].feed_state.latest_entry_number by {
                assert(c[j] <= c[k]);
            }
            assert forall|j: int| 0 <= j < k implies #[trigger] subs[j].feed_state.latest_entry_number
                < subs[k].feed_state.latest_entry_number by {
                assert(c[j] < c[k]);
            }
        }
        if forall|j: int| 0 <= j < subs.len() ==> #[trigger] subs[j].feed_state.latest_entry_number
            <= subs[k].feed_state.latest_entry_number {
            assert forall|j: int| 0 <= j < subs.len() implies #[trigger] c[j] <= c[k] by {
                assert(subs[j].feed_state.latest_entry_number <= subs[k].feed_state.latest_entry_number);
            }
        }
        if forall|j: int| 0 <= j < k ==> #[trigger] subs[j].feed_state.latest_entry_number
            < subs[k].feed_state.latest_entry_number {
            assert forall|j: int| 0 <= j < k implies #[trigger] c[j] < c[k] by {
                assert(subs[j].feed_state.latest_entry_number < subs[k].feed_state.latest_entry_number);
            }
        }
    }
}

/// Of all positions, at most one is the first holding the highest entry
/// count, so the subscription the statistics report is determined.
pub proof fn lemma_highest_unique(subs: Seq<SubscriptionView>, k1: int, k2: int)
    requires
        is_highest(subs, k1),
        is_highest(subs, k2),
    ensures
        k1 == k2,
{
    let c = entry_counts(subs);
    if k1 < k2 {
        assert(c[k1] < c[k2]);
        assert(c[k2] <= c[k1]);
    } else if k2 < k1 {
        assert(c[k2] < c[k1]);
        assert(c[k1] <= c[k2]);
    }
}

/// A non-empty list has a first position holding its highest entry count.
pub proof fn lemma_highest_exists(subs: Seq<SubscriptionView>)
    requires
        subs.len() > 0,
    ensures
        exists|k: int| is_highest(subs, k),
    decreases subs.len(),
{
    let c = entry_counts(subs);
    if subs.len() == 1 {
        assert(is_highest(subs, 0));
    } else {
        let init = subs.drop_last();
        lemma_highest_exists(init);
        let k = choose|k: int| is_highest(init, k);
        let ci = entry_counts(init);
        assert forall|j: int| 0 <= j < init.len() implies ci[j] == c[j] by {}
        let last = subs.len() - 1;
        if c[last] > c[k] {
            assert forall|j: int| 0 <= j < subs.len() implies #[trigger] c[j] <= c[last] by {
                if j < last {
                    assert(ci[j] <= ci[k]);
                }
            }
            assert forall|j: int| 0 <= j < last implies #[trigger] c[j] < c[last] by {
                assert(ci[j] <= ci[k]);
            }
            assert(is_highest(subs, last));
        } else {
            assert forall|j: int| 0 <= j < subs.len() implies #[trigger] c[j] <= c[k] by {
                if j < last {
                    assert(ci[j] <= ci[k]);
                }
            }
            assert forall|j: int| 0 <= j < k implies #[trigger] c[j] < c[k] by {
                assert(ci[j] < ci[k]);
            }
            assert(is_highest(subs, k));
        }
    }
}

fn process_location(cache_location: Option<String>, found_cache: Option<String>) -> (r: Option<String>)
    ensures
        match r {
            Some(l) => chosen_location(cache_location, found_cache) == Some(l@),
            None => chosen_location(cache_location, found_cache) is None,
        },
{
    match cache_location {
        Some(l) => Some(l),
        None => found_cache,
    }
}

impl Config {
    /// A configuration with no subscriptions yet, reading its cache from
    /// `cache_location` or, when none is given, from `found_cache`, the cache
    /// file found in the fetcher's cache directory.
    pub fn new(cache_location: Option<String>, found_cache: Option<String>) -> (c: Config)
        requires
            cache_location is Some || found_cache is Some,
        ensures
            chosen_location(cache_location, found_cache) == Some(c@.cache_location),
            c@.subscriptions == Seq::<SubscriptionView>::empty(),
    {
        let location = process_location(cache_location, found_cache);
        let c = Config { cache_location: location.unwrap(), subscriptions: Vec::new() };
        assert(subscriptions_view(c.subscriptions@) =~= Seq::<SubscriptionView>::empty());
        c
    }

    /// Replaces the subscriptions with the list read from `cache`, the cache
    /// file's bytes.
    pub fn load_cache(&mut self, cache: &Vec<u8>)
        requires
            parse_subscriptions(cache@) is Some,
        ensures
            final(self)@.cache_location == old(self)@.cache_location,
            final(self)@.subscriptions == parse_subscriptions(cache@).unwrap().0,
    {
        self.subscriptions = vec_deserialize(cache).unwrap();
    }

    /// The subscriptions, in order.
    pub fn get_subscriptions(&self) -> (r: &Vec<Subscription>)
        ensures
            subscriptions_view(r@) == self@.subscriptions,
    {
        &self.subscriptions
    }

    /// The subscriptions' names, in order.
    pub fn get_names(&self) -> (r: Vec<String>)
        ensures
            r@.len() == self@.subscriptions.len(),
            forall|i: int| 0 <= i < r@.len() ==> #[trigger] r@[i]@ == self@.subscriptions[i].name,
    {
        let mut r: Vec<String> = Vec::new();
        let mut i: usize = 0;
        while i < self.subscriptions.len()
            invariant
                i <= self.subscriptions.len(),
                r@.len() == i,
                forall|k: int| 0 <= k < i ==> #[trigger] r@[k]@ == self@.subscriptions[k].name,
            decreases self.subscriptions.len() - i,
        {
            r.push(self.subscriptions[i].get_name());
            i += 1;
        }
        r
    }

    /// The subscriptions' latest entry numbers, in order.
    pub fn get_entry_counts(&self) -> (r: Vec<u64>)
        ensures
            r@ == entry_counts(self@.subscriptions),
            r@.len() == self@.subscriptions.len(),
            forall|i: int| 0 <= i < r@.len() ==> #[trigger] r@[i] == self@.subscriptions[i].feed_state.latest_entry_number,
    {
        let mut r: Vec<u64> = Vec::new();
        let mut i: usize = 0;
        while i < self.subscriptions.len()
            invariant
                i <= self.subscriptions.len(),
                r@ == entry_counts(self@.subscriptions).take(i as int),
            decreases self.subscriptions.len() - i,
        {
            r.push(self.subscriptions[i].get_latest_entry_number());
            assert(entry_counts(self@.subscriptions).take(i + 1) =~= entry_counts(self@.subscriptions).take(
                i as int,
            ).push(self@.subscriptions[i as int].feed_state.latest_entry_number));
            i += 1;
        }
        assert(entry_counts(self@.subscriptions).take(self.subscriptions.len() as int) =~= entry_counts(
            self@.subscriptions,
        ));
        r
    }

    /// The position of the subscription with the highest entry count; of
    /// several with that count, the first.
    fn highest_entry_count_index(&self) -> (k: usize)
        requires
            self@.subscriptions.len() > 0,
        ensures
            is_highest(self@.subscriptions, k as int),
    {
        let ghost subs = self@.subscriptions;
        let ghost c = entry_counts(subs);
        let n = self.subscriptions.len();
        let mut keys: Vec<(u64, usize)> = Vec::new();
        let mut i: usize = 0;
        while i < n
            invariant
                n == self.subscriptions.len(),
                subs == self@.subscriptions,
                c == entry_counts(subs),
                i <= n,
                keys@.len() == i,
                forall|k: int| 0 <= k < i ==> #[trigger] keys@[k] == (c[k], k as usize),
            decreases n - i,
        {
            keys.push((self.subscriptions[i].get_latest_entry_number(), i));
            i += 1;
        }
        let ghost ks = keys@;
        let sorted = sorted_by_count_descending(keys);
        let first = sorted[0];
        let k = first.1;
        proof {
            let p = choose|p: int| 0 <= p < ks.len() && ks[p] == first;
            assert(ks.contains(sorted@[0]));
            assert(ks[p] == (c[p], p as usize));
            assert(k as int == p);
            assert forall|j: int| 0 <= j < subs.len() implies #[trigger] c[j] <= c[k as int] by {
                assert(ks[j] == (c[j], j as usize));
                assert(sorted@.contains(ks[j]));
                let i = choose|i: int| 0 <= i < sorted@.len() && sorted@[i] == ks[j];
                if i > 0 {
                    assert(sorted@[0].0 >= sorted@[i].0);
                }
            }
            assert forall|j: int| 0 <= j < k implies #[trigger] c[j] < c[k as int] by {
                assert(ks[j] == (c[j], j as usize));
                assert(sorted@.contains(ks[j]));
                let i = choose|i: int| 0 <= i < sorted@.len() && sorted@[i] == ks[j];
                assert(i != 0);
                assert(sorted@[0].0 >= sorted@[i].0);
                if c[j] >= c[k as int] {
                    assert(sorted@[0].0 == sorted@[i].0);
                    let (pp, qq) = choose|pp: int, qq: int|
                        0 <= pp < qq < ks.len() && ks[pp] == sorted@[0] && ks[qq] == sorted@[i];
                    assert(ks[pp] == (c[pp], pp as usize));
                    assert(ks[qq] == (c[qq], qq as usize));
                    assert(false);
                }
            }
        }
        k
    }

    /// A copy of the subscription with the highest entry count; of several
    /// with that count, the first.
    pub fn get_highest_entry_count_sub(&self) -> (r: Subscription)
        requires
            self@.subscriptions.len() > 0,
        ensures
            exists|k: int| is_highest(self@.subscriptions, k) && r@ == self@.subscriptions[k],
            forall|j: int| 0 <= j < self@.subscriptions.len() ==> #[trigger] self@.subscriptions[j].feed_state.latest_entry_number
                <= r@.feed_state.latest_entry_number,
    {
        let k = self.highest_entry_count_index();
        proof {
            lemma_highest_by_latest_number(self@.subscriptions, k as int);
        }
        self.subscriptions[k].clone()
    }

    /// The name of the subscription with the highest entry count; of several
    /// with that count, the first.
    pub fn get_highest_entry_count_sub_name(&self) -> (r: String)
        requires
            self@.subscriptions.len() > 0,
        ensures
            exists|k: int| is_highest(self@.subscriptions, k) && r@ == self@.subscriptions[k].name,
            exists|k: int|
                0 <= k < self@.subscriptions.len() && r@ == self@.subscriptions[k].name && forall|j: int|
                    0 <= j < self@.subscriptions.len() ==> #[trigger] self@.subscriptions[j].feed_state.latest_entry_number
                        <= self@.subscriptions[k].feed_state.latest_entry_number,
    {
        self.get_highest_entry_count_sub().get_name()
    }

    /// Each subscription's earliest entry title (empty where it has none).
    pub fn get_earliest_entry_names(&self) -> (r: Vec<String>)
        ensures
            r@.len() == self@.subscriptions.len(),
            forall|i: int| 0 <= i < r@.len() ==> #[trigger] r@[i]@ == earliest_entry_name(self@.subscriptions[i]),
            forall|i: int| 0 <= i < r@.len() && self@.subscriptions[i].feed_state.entries.len() > 0
                ==> #[trigger] r@[i]@ == self@.subscriptions[i].feed_state.entries[0].title,
    {
        let mut r: Vec<String> = Vec::new();
        let mut i: usize = 0;
        while i < self.subscriptions.len()
            invariant
                i <= self.subscriptions.len(),
                r@.len() == i,
                forall|k: int| 0 <= k < i ==> #[trigger] r@[k]@ == earliest_entry_name(self@.subscriptions[k]),
            decreases self.subscriptions.len() - i,
        {
            r.push(self.subscriptions[i].get_earliest_entry_name());
            i += 1;
        }
        r
    }

    /// Each subscription's latest entry title (empty where it has none).
    pub fn get_latest_entry_names(&self) -> (r: Vec<String>)
        ensures
            r@.len() == self@.subscriptions.len(),
            forall|i: int| 0 <= i < r@.len() ==> #[trigger] r@[i]@ == latest_entry_name(self@.subscriptions[i]),
            forall|i: int| 0 <= i < r@.len() && self@.subscriptions[i].feed_state.entries.len() > 0
                ==> #[trigger] r@[i]@ == self@.subscriptions[i].feed_state.entries[
                    self@.subscriptions[i].feed_state.entries.len() - 1
                ].title,
    {
        let mut r: Vec<String> = Vec::new();
        let mut i: usize = 0;
        while i < self.subscriptions.len()
            invariant
                i <= self.subscriptions.len(),
                r@.len() == i,
                forall|k: int| 0 <= k < i ==> #[trigger] r@[k]@ == latest_entry_name(self@.subscriptions[k]),
            decreases self.subscriptions.len() - i,
        {
            r.push(self.subscriptions[i].get_latest_entry_name());
            i += 1;
        }
        r
    }
}

} // verus!
