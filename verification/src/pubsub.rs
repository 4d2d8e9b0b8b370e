//! Publish and subscribe: who listens on which channel or to which pattern of
//! channels, and what is to be delivered to whom.

use crate::encoding;
use crate::glob;
use crate::order;
use crate::text;
use dashmap::DashMap;
use std::collections::HashSet;
use vstd::prelude::*;
use vstd::utf8;

verus! {

broadcast use vstd::std_specs::hash::group_hash_axioms;

/// The table of channels, from `dashmap`.
#[verifier::external_type_specification]
#[verifier::external_body]
#[verifier::reject_recursive_types(K)]
#[verifier::reject_recursive_types(V)]
#[verifier::reject_recursive_types(S)]
pub struct ExDashMap<K, V, S>(dashmap::DashMap<K, V, S>);

/// The clients that a table holds for every channel.
pub uninterp spec fn channels_in(m: DashMap<String, Vec<u64>>) -> Map<Seq<char>, Seq<u64>>;

/// No channel.
pub open spec fn no_channels() -> Map<Seq<char>, Seq<u64>> {
    Map::empty()
}

/// Makes an empty table with `DashMap::new`.
#[verifier::external_body]
fn new_channels() -> (m: DashMap<String, Vec<u64>>)
    ensures
        channels_in(m) == no_channels(),
{
    DashMap::new()
}

/// Looks a channel up with `DashMap::get` and copies what it holds.
#[verifier::external_body]
fn clients_on(m: &DashMap<String, Vec<u64>>, channel: &str) -> (r: Option<Vec<u64>>)
    ensures
        match r {
            Some(v) => channels_in(*m).contains_key(channel@) && channels_in(*m)[channel@] == v@,
            None => !channels_in(*m).contains_key(channel@),
        },
{
    m.get(channel).map(|entry| entry.value().clone())
}

/// Sets what a channel holds with `DashMap::insert`.
#[verifier::external_body]
fn put_clients(m: &mut DashMap<String, Vec<u64>>, channel: String, clients: Vec<u64>)
    ensures
        channels_in(*final(m)) == channels_in(*old(m)).insert(channel@, clients@),
{
    m.insert(channel, clients);
}

/// Takes a channel out with `DashMap::remove`.
#[verifier::external_body]
fn remove_channel(m: &mut DashMap<String, Vec<u64>>, channel: &str)
    ensures
        channels_in(*final(m)) == channels_in(*old(m)).remove(channel@),
{
    m.remove(channel);
}

/// Lists the channels with `DashMap::iter`: every one once, in an order that
/// is not stated.
#[verifier::external_body]
fn channel_names(m: &DashMap<String, Vec<u64>>) -> (r: Vec<String>)
    ensures
        names_of(r@).no_duplicates(),
        names_of(r@).to_set() == channels_in(*m).dom(),
{
    m.iter().map(|entry| entry.key().clone()).collect()
}

/// The texts of a list.
pub open spec fn names_of(v: Seq<String>) -> Seq<Seq<char>> {
    Seq::new(v.len(), |i: int| v[i]@)
}

/// A message on a channel.
#[derive(Debug)]
pub struct PublishEvent {
    pub channel: String,
    pub message: Vec<u8>,
    /// The pattern by which the client hears the channel, if it does so by one.
    pub pattern: Option<Vec<u8>>,
}

/// A message as contracts see it.
pub struct EventView {
    pub channel: Seq<char>,
    pub message: Seq<u8>,
    pub pattern: Option<Seq<u8>>,
}

impl View for PublishEvent {
    type V = EventView;

    open spec fn view(&self) -> EventView {
        EventView {
            channel: self.channel@,
            message: self.message@,
            pattern: match self.pattern {
                Some(p) => Some(p@),
                None => None,
            },
        }
    }
}

/// A message on its way to a client.
#[derive(Debug)]
pub struct Delivery {
    pub client: u64,
    pub event: PublishEvent,
}

/// The deliveries of a list: client and message.
pub open spec fn deliveries_of(v: Seq<Delivery>) -> Seq<(u64, EventView)> {
    Seq::new(v.len(), |i: int| (v[i].client, v[i].event@))
}

/// The channels with their clients, in the order of their subscriptions.
pub type Channels = Map<Seq<char>, Seq<u64>>;

/// A client that listens to a pattern.
#[derive(Debug)]
pub struct Listener {
    pattern: Vec<u8>,
    client: u64,
}

/// Patterns with their clients, in the order of their subscriptions.
pub type Patterns = Seq<(Seq<u8>, u64)>;

spec fn listener_views(v: Seq<Listener>) -> Patterns {
    Seq::new(v.len(), |i: int| (v[i].pattern@, v[i].client))
}

/// The hub as contracts see it.
#[verifier::ext_equal]
pub struct HubView {
    pub next_id: u64,
    pub channels: Channels,
    pub patterns: Patterns,
    /// Clients that no longer take messages.
    pub closed: Set<u64>,
    /// Messages that wait for delivery.
    pub outbox: Seq<(u64, EventView)>,
}

/// The hub of all channels.
pub struct PubSubHub {
    next_id: u64,
    subscribers: DashMap<String, Vec<u64>>,
    patterns: Vec<Listener>,
    closed: HashSet<u64>,
    outbox: Vec<Delivery>,
}

impl View for PubSubHub {
    type V = HubView;

    closed spec fn view(&self) -> HubView {
        HubView {
            next_id: self.next_id,
            channels: channels_in(self.subscribers),
            patterns: listener_views(self.patterns@),
            closed: self.closed@,
            outbox: deliveries_of(self.outbox@),
        }
    }
}

/// The clients of a channel; none where nobody listens.
pub open spec fn listeners(m: Channels, channel: Seq<char>) -> Seq<u64> {
    if m.contains_key(channel) {
        m[channel]
    } else {
        Seq::empty()
    }
}

/// The channels after a client subscribed to the first `n` of a list, and the
/// channels that were new to it.
pub open spec fn subscribed(m: Channels, client: u64, chs: Seq<Seq<char>>, n: nat) -> (
    Channels,
    Seq<Seq<char>>,
)
    decreases n,
{
    if n == 0 {
        (m, Seq::empty())
    } else {
        let (before, added) = subscribed(m, client, chs, (n - 1) as nat);
        let ch = chs[n - 1];
        let ids = listeners(before, ch);
        if ids.contains(client) {
            (before, added)
        } else {
            (before.insert(ch, ids.push(client)), added.push(ch))
        }
    }
}

/// A client is not the given one.
pub open spec fn other_than(client: u64) -> spec_fn(u64) -> bool {
    |id: u64| id != client
}

/// The channels with the clients of one of them replaced. A channel without
/// clients goes.
pub open spec fn with_listeners(m: Channels, channel: Seq<char>, ids: Seq<u64>) -> Channels {
    if ids.len() == 0 {
        m.remove(channel)
    } else {
        m.insert(channel, ids)
    }
}

/// The channels after a client left one of them.
pub open spec fn left(m: Channels, client: u64, channel: Seq<char>) -> Channels {
    if m.contains_key(channel) {
        with_listeners(m, channel, m[channel].filter(other_than(client)))
    } else {
        m
    }
}

/// The channels after a client left the first `n` of a list, and the channels
/// that it had been on.
pub open spec fn unsubscribed(m: Channels, client: u64, chs: Seq<Seq<char>>, n: nat) -> (
    Channels,
    Seq<Seq<char>>,
)
    decreases n,
{
    if n == 0 {
        (m, Seq::empty())
    } else {
        let (before, removed) = unsubscribed(m, client, chs, (n - 1) as nat);
        let ch = chs[n - 1];
        (
            left(before, client, ch),
            if listeners(before, ch).contains(client) {
                removed.push(ch)
            } else {
                removed
            },
        )
    }
}

/// The channels that a client is on.
pub open spec fn channels_of(m: Channels, client: u64) -> Set<Seq<char>> {
    Set::new(|ch: Seq<char>| m.contains_key(ch) && m[ch].contains(client))
}

/// The channels after a client left all of them. Channels without clients are
/// gone.
pub open spec fn all_left(m: Channels, client: u64) -> Channels {
    Map::new(
        |ch: Seq<char>| m.contains_key(ch) && m[ch].filter(other_than(client)).len() > 0,
        |ch: Seq<char>| m[ch].filter(other_than(client)),
    )
}

/// A client takes messages.
pub open spec fn takes(closed: Set<u64>) -> spec_fn(u64) -> bool {
    |id: u64| !closed.contains(id)
}

/// A message to every client of a list.
pub open spec fn sent_to(ids: Seq<u64>, e: EventView) -> Seq<(u64, EventView)> {
    Seq::new(ids.len(), |i: int| (ids[i], e))
}

/// The patterns after a client subscribed to the first `n` of a list, and those
/// that were new to it.
pub open spec fn patterns_added(ps: Patterns, client: u64, pats: Seq<Seq<u8>>, n: nat) -> (
    Patterns,
    Seq<Seq<u8>>,
)
    decreases n,
{
    if n == 0 {
        (ps, Seq::empty())
    } else {
        let (before, added) = patterns_added(ps, client, pats, (n - 1) as nat);
        let item = (pats[n - 1], client);
        if before.contains(item) {
            (before, added)
        } else {
            (before.push(item), added.push(pats[n - 1]))
        }
    }
}

/// Anything but the given subscription.
pub open spec fn not_the(item: (Seq<u8>, u64)) -> spec_fn((Seq<u8>, u64)) -> bool {
    |x: (Seq<u8>, u64)| x != item
}

/// The patterns after a client left the first `n` of a list, and those that it
/// had listened to.
pub open spec fn patterns_left(ps: Patterns, client: u64, pats: Seq<Seq<u8>>, n: nat) -> (
    Patterns,
    Seq<Seq<u8>>,
)
    decreases n,
{
    if n == 0 {
        (ps, Seq::empty())
    } else {
        let (before, removed) = patterns_left(ps, client, pats, (n - 1) as nat);
        let item = (pats[n - 1], client);
        (
            before.filter(not_the(item)),
            if before.contains(item) {
                removed.push(pats[n - 1])
            } else {
                removed
            },
        )
    }
}

/// A subscription of the client.
pub open spec fn by_client(client: u64) -> spec_fn((Seq<u8>, u64)) -> bool {
    |x: (Seq<u8>, u64)| x.1 == client
}

/// A subscription of another client.
pub open spec fn by_others(client: u64) -> spec_fn((Seq<u8>, u64)) -> bool {
    |x: (Seq<u8>, u64)| x.1 != client
}

/// The patterns of subscriptions.
pub open spec fn pattern_texts(ps: Patterns) -> Seq<Seq<u8>> {
    Seq::new(ps.len(), |i: int| ps[i].0)
}

/// The patterns that a client listens to.
pub open spec fn patterns_of(ps: Patterns, client: u64) -> Seq<Seq<u8>> {
    pattern_texts(ps.filter(by_client(client)))
}

/// A subscription by which a client hears the channel.
pub open spec fn heard(closed: Set<u64>, channel: Seq<char>) -> spec_fn((Seq<u8>, u64)) -> bool {
    |x: (Seq<u8>, u64)|
        glob::matches(x.0, utf8::encode_utf8(channel)) && !closed.contains(x.1)
}

/// A subscription to which the channel does not belong, or whose client takes
/// messages.
pub open spec fn not_dead(closed: Set<u64>, channel: Seq<char>) -> spec_fn((Seq<u8>, u64)) -> bool {
    |x: (Seq<u8>, u64)|
        !glob::matches(x.0, utf8::encode_utf8(channel)) || !closed.contains(x.1)
}

/// A message to the clients of patterns, each with its pattern.
pub open spec fn sent_by_pattern(ps: Patterns, e: EventView) -> Seq<(u64, EventView)> {
    Seq::new(ps.len(), |i: int| (ps[i].1, EventView { pattern: Some(ps[i].0), ..e }))
}

/// The hub after a message was published: it goes to all clients of the
/// channel that take messages, and to all clients of patterns that stand for
/// the channel; clients that do not take it are dropped there.
pub open spec fn published(h: HubView, e: EventView) -> HubView {
    let ids = listeners(h.channels, e.channel);
    let open = ids.filter(takes(h.closed));
    let hits = h.patterns.filter(heard(h.closed, e.channel));
    HubView {
        outbox: h.outbox + sent_to(open, e) + sent_by_pattern(hits, e),
        channels: if open.len() < ids.len() {
            with_listeners(h.channels, e.channel, open)
        } else {
            h.channels
        },
        patterns: h.patterns.filter(not_dead(h.closed, e.channel)),
        ..h
    }
}

/// How many clients a message goes to.
pub open spec fn audience(h: HubView, channel: Seq<char>) -> nat {
    listeners(h.channels, channel).filter(takes(h.closed)).len() + h.patterns.filter(
        heard(h.closed, channel),
    ).len()
}

/// Filtering what is pushed.
proof fn lemma_filter_step(s: Seq<u64>, i: int, p: spec_fn(u64) -> bool)
    requires
        0 <= i < s.len(),
    ensures
        s.take(i + 1).filter(p) == if p(s[i]) {
            s.take(i).filter(p).push(s[i])
        } else {
            s.take(i).filter(p)
        },
{
    assert(s.take(i + 1) =~= s.take(i).push(s[i]));
    s.take(i).lemma_filter_push(s[i], p);
}

/// Something is filtered out exactly if the client is there.
proof fn lemma_leaving(s: Seq<u64>, client: u64)
    ensures
        s.filter(other_than(client)).len() <= s.len(),
        (s.filter(other_than(client)).len() < s.len()) == s.contains(client),
        !s.contains(client) ==> s.filter(other_than(client)) == s,
        !s.filter(other_than(client)).contains(client),
    decreases s.len(),
{
    let p = other_than(client);
    reveal(Seq::filter);
    if s.len() > 0 {
        let before = s.drop_last();
        lemma_leaving(before, client);
        if s.contains(client) && !before.contains(client) {
            let i = s.index_of(client);
            assert(i == s.len() - 1) by {
                if i < s.len() - 1 {
                    assert(before[i] == client);
                }
            }
        }
        if before.contains(client) {
            assert(s[before.index_of(client)] == client);
        }
        if !s.contains(client) {
            assert(s.last() != client) by {
                assert(s[s.len() - 1] == s.last());
            }
            assert(before.push(s.last()) =~= s);
        }
        assert(s.filter(p) == if p(s.last()) {
            before.filter(p).push(s.last())
        } else {
            before.filter(p)
        });
        if s.filter(p).contains(client) {
            let i = s.filter(p).index_of(client);
            if i < before.filter(p).len() {
                assert(before.filter(p)[i] == client);
            }
        }
    }
}

proof fn lemma_filter_shrinks(s: Seq<u64>, p: spec_fn(u64) -> bool)
    ensures
        s.filter(p).len() <= s.len(),
    decreases s.len(),
{
    reveal(Seq::filter);
    if s.len() > 0 {
        lemma_filter_shrinks(s.drop_last(), p);
    }
}

/// A client that left all channels is on none, and the channels of all other
/// clients are as they were.
pub proof fn law_leaving_all_leaves_none(m: Channels, client: u64)
    ensures
        channels_of(all_left(m, client), client) == Set::<Seq<char>>::empty(),
        forall|other: u64|
            other != client ==> #[trigger] channels_of(all_left(m, client), other) == channels_of(
                m,
                other,
            ),
{
    let after = all_left(m, client);
    let p = other_than(client);
    assert forall|ch: Seq<char>| !channels_of(after, client).contains(ch) by {
        if channels_of(after, client).contains(ch) {
            lemma_leaving(m[ch], client);
        }
    }
    assert(channels_of(after, client) =~= Set::<Seq<char>>::empty());
    assert forall|other: u64| other != client implies #[trigger] channels_of(after, other)
        == channels_of(m, other) by {
        assert forall|ch: Seq<char>|
            channels_of(after, other).contains(ch) == channels_of(m, other).contains(ch) by {
            if m.contains_key(ch) {
                lemma_filter_keeps(m[ch], p, other);
            }
        }
        assert(channels_of(after, other) =~= channels_of(m, other));
    }
}

proof fn lemma_filter_keeps(s: Seq<u64>, p: spec_fn(u64) -> bool, x: u64)
    requires
        p(x),
    ensures
        s.filter(p).contains(x) == s.contains(x),
    decreases s.len(),
{
    reveal(Seq::filter);
    if s.len() > 0 {
        let before = s.drop_last();
        lemma_filter_keeps(before, p, x);
        let f = before.filter(p);
        assert(s =~= before.push(s.last()));
        if s.contains(x) {
            let i = s.index_of(x);
            if i < before.len() {
                assert(before[i] == x);
                assert(f[f.index_of(x)] == x);
                assert(s.filter(p)[f.index_of(x)] == x);
            } else {
                assert(s.filter(p)[f.len() as int] == x);
            }
        }
        if s.filter(p).contains(x) {
            let i = s.filter(p).index_of(x);
            if i < f.len() {
                assert(f[i] == x);
                assert(s[before.index_of(x)] == x);
            } else {
                assert(s[s.len() - 1] == x);
            }
        }
    }
}

/// A number as an element of a list.
fn listed(ids: &Vec<u64>, client: u64) -> (r: bool)
    ensures
        r == ids@.contains(client),
{
    let mut i: usize = 0;
    while i < ids.len()
        invariant
            i <= ids@.len(),
            forall|j: int| 0 <= j < i ==> ids@[j] != client,
        decreases ids.len() - i,
    {
        if ids[i] == client {
            proof {
                assert(ids@[i as int] == client);
            }
            return true;
        }
        i = i + 1;
    }
    false
}

/// A list without a number.
fn without(ids: &Vec<u64>, client: u64) -> (r: Vec<u64>)
    ensures
        r@ == ids@.filter(other_than(client)),
{
    let mut r: Vec<u64> = Vec::new();
    let ghost p = other_than(client);
    let mut i: usize = 0;
    proof {
        assert(ids@.take(0).filter(p) =~= Seq::<u64>::empty()) by {
            reveal(Seq::filter);
        }
    }
    while i < ids.len()
        invariant
            i <= ids@.len(),
            p == other_than(client),
            r@ =~= ids@.take(i as int).filter(p),
        decreases ids.len() - i,
    {
        proof {
            lemma_filter_step(ids@, i as int, p);
        }
        if ids[i] != client {
            r.push(ids[i]);
        }
        i = i + 1;
    }
    proof {
        assert(ids@.take(i as int) =~= ids@);
    }
    r
}

fn listens(v: &Vec<Listener>, pattern: &[u8], client: u64) -> (r: bool)
    ensures
        r == listener_views(v@).contains((pattern@, client)),
{
    let ghost all = listener_views(v@);
    let mut i: usize = 0;
    while i < v.len()
        invariant
            i <= v@.len(),
            all == listener_views(v@),
            forall|j: int| 0 <= j < i ==> #[trigger] all[j] != (pattern@, client),
        decreases v.len() - i,
    {
        if v[i].client == client && order::same(&v[i].pattern, pattern) {
            proof {
                assert(all[i as int] == (pattern@, client));
            }
            return true;
        }
        i = i + 1;
    }
    false
}

fn without_listener(v: &Vec<Listener>, pattern: &[u8], client: u64) -> (r: Vec<Listener>)
    ensures
        listener_views(r@) == listener_views(v@).filter(not_the((pattern@, client))),
{
    let ghost all = listener_views(v@);
    let ghost p = not_the((pattern@, client));
    let mut r: Vec<Listener> = Vec::new();
    let mut i: usize = 0;
    proof {
        assert(all.take(0).filter(p) =~= Seq::<(Seq<u8>, u64)>::empty()) by {
            reveal(Seq::filter);
        }
    }
    while i < v.len()
        invariant
            i <= v@.len(),
            all == listener_views(v@),
            p == not_the((pattern@, client)),
            listener_views(r@) =~= all.take(i as int).filter(p),
        decreases v.len() - i,
    {
        let ghost x = all[i as int];
        proof {
            assert(all.take(i + 1) =~= all.take(i as int).push(x));
            all.take(i as int).lemma_filter_push(x, p);
        }
        if v[i].client != client || !order::same(&v[i].pattern, pattern) {
            let ghost before = listener_views(r@);
            r.push(Listener { pattern: encoding::copy(&v[i].pattern), client: v[i].client });
            proof {
                assert(listener_views(r@) =~= before.push(x));
            }
        }
        i = i + 1;
    }
    proof {
        assert(all.take(i as int) =~= all);
    }
    r
}

impl PubSubHub {
    /// A hub without channels.
    pub fn new() -> (h: PubSubHub)
        ensures
            h@ == (HubView {
                next_id: 0,
                channels: no_channels(),
                patterns: Seq::empty(),
                closed: Set::empty(),
                outbox: Seq::empty(),
            }),
    {
        let h = PubSubHub {
            next_id: 0,
            subscribers: new_channels(),
            patterns: Vec::new(),
            closed: HashSet::new(),
            outbox: Vec::new(),
        };
        proof {
            assert(h@.outbox =~= Seq::<(u64, EventView)>::empty());
            assert(h@.closed =~= Set::<u64>::empty());
            assert(h@.patterns =~= Seq::<(Seq<u8>, u64)>::empty());
        }
        h
    }

    /// Hands out the number of a new client. The numbers count up from 0 and
    /// wrap around.
    pub fn alloc_client_id(&mut self) -> (id: u64)
        ensures
            id == old(self)@.next_id,
            final(self)@ == (HubView {
                next_id: if id == u64::MAX {
                    0
                } else {
                    (id + 1) as u64
                },
                ..old(self)@
            }),
    {
        let id: u64 = self.next_id;
        self.next_id = id.wrapping_add(1);
        id
    }

    /// Subscribes a client to channels and returns those that were new to it.
    pub fn subscribe(&mut self, client_id: u64, channels: Vec<String>) -> (added: Vec<String>)
        ensures
            ({
                let chs = names_of(channels@);
                let (after, new) = subscribed(old(self)@.channels, client_id, chs, chs.len());
                &&& names_of(added@) == new
                &&& final(self)@ == (HubView { channels: after, ..old(self)@ })
            }),
    {
        let ghost h = self@;
        let ghost chs = names_of(channels@);
        let mut added: Vec<String> = Vec::new();
        let mut i: usize = 0;
        proof {
            assert(names_of(added@) =~= Seq::<Seq<char>>::empty());
        }
        while i < channels.len()
            invariant
                i <= channels@.len(),
                chs == names_of(channels@),
                subscribed(h.channels, client_id, chs, i as nat) == (
                    self@.channels,
                    names_of(added@),
                ),
                self@ == (HubView { channels: self@.channels, ..h }),
            decreases channels.len() - i,
        {
            let mut ids = match clients_on(&self.subscribers, channels[i].as_str()) {
                Some(v) => v,
                None => Vec::new(),
            };
            proof {
                assert(chs[i as int] == channels@[i as int]@);
                assert(ids@ =~= listeners(self@.channels, chs[i as int]));
            }
            if !listed(&ids, client_id) {
                let ghost before = names_of(added@);
                ids.push(client_id);
                put_clients(&mut self.subscribers, channels[i].clone(), ids);
                added.push(channels[i].clone());
                proof {
                    assert(names_of(added@) =~= before.push(chs[i as int]));
                }
            }
            i = i + 1;
        }
        added
    }

    fn leave(&mut self, client_id: u64, channel: &str) -> (was_on: bool)
        ensures
            was_on == listeners(old(self)@.channels, channel@).contains(client_id),
            final(self)@ == (HubView {
                channels: left(old(self)@.channels, client_id, channel@),
                ..old(self)@
            }),
    {
        match clients_on(&self.subscribers, channel) {
            None => false,
            Some(ids) => {
                let kept = without(&ids, client_id);
                proof {
                    lemma_leaving(ids@, client_id);
                }
                let was_on = kept.len() < ids.len();
                if kept.len() == 0 {
                    remove_channel(&mut self.subscribers, channel);
                } else {
                    put_clients(&mut self.subscribers, channel.to_owned(), kept);
                }
                was_on
            },
        }
    }

    /// Takes a client off the channels of a list, and returns those that it
    /// was on.
    pub fn unsubscribe(&mut self, client_id: u64, channels: &Vec<String>) -> (removed: Vec<String>)
        ensures
            ({
                let chs = names_of(channels@);
                let (after, gone) = unsubscribed(old(self)@.channels, client_id, chs, chs.len());
                &&& names_of(removed@) == gone
                &&& final(self)@ == (HubView { channels: after, ..old(self)@ })
            }),
    {
        let ghost h = self@;
        let ghost chs = names_of(channels@);
        let mut removed: Vec<String> = Vec::new();
        let mut i: usize = 0;
        proof {
            assert(names_of(removed@) =~= Seq::<Seq<char>>::empty());
        }
        while i < channels.len()
            invariant
                i <= channels@.len(),
                chs == names_of(channels@),
                unsubscribed(h.channels, client_id, chs, i as nat) == (
                    self@.channels,
                    names_of(removed@),
                ),
                self@ == (HubView { channels: self@.channels, ..h }),
            decreases channels.len() - i,
        {
            let ghost before = names_of(removed@);
            proof {
                assert(chs[i as int] == channels@[i as int]@);
            }
            if self.leave(client_id, channels[i].as_str()) {
                removed.push(channels[i].clone());
                proof {
                    assert(names_of(removed@) =~= before.push(chs[i as int]));
                }
            }
            i = i + 1;
        }
        removed
    }

    /// Takes a client off all channels, and returns those that it was on, each
    /// once.
    pub fn unsubscribe_all(&mut self, client_id: u64) -> (removed: Vec<String>)
        ensures
            final(self)@ == (HubView {
                channels: all_left(old(self)@.channels, client_id),
                ..old(self)@
            }),
            names_of(removed@).no_duplicates(),
            names_of(removed@).to_set() == channels_of(old(self)@.channels, client_id),
    {
        let ghost h = self@;
        let names = channel_names(&self.subscribers);
        let ghost chs = names_of(names@);
        let ghost m = h.channels;
        let mut removed: Vec<String> = Vec::new();
        let mut i: usize = 0;
        proof {
            assert(names_of(removed@) =~= Seq::<Seq<char>>::empty());
        }
        while i < names.len()
            invariant
                i <= names@.len(),
                m == h.channels,
                chs == names_of(names@),
                chs.no_duplicates(),
                chs.to_set() == m.dom(),
                self@ == (HubView { channels: self@.channels, ..h }),
                forall|j: int|
                    i <= j < chs.len() ==> listeners(self@.channels, #[trigger] chs[j])
                        == m[chs[j]] && self@.channels.contains_key(chs[j]),
                forall|j: int|
                    0 <= j < i ==> {
                        let kept = m[#[trigger] chs[j]].filter(other_than(client_id));
                        &&& self@.channels.contains_key(chs[j]) == (kept.len() > 0)
                        &&& kept.len() > 0 ==> self@.channels[chs[j]] == kept
                    },
                forall|ch: Seq<char>|
                    #[trigger] self@.channels.contains_key(ch) ==> m.contains_key(ch),
                names_of(removed@).no_duplicates(),
                forall|ch: Seq<char>| #[trigger]
                    names_of(removed@).contains(ch) == (exists|j: int|
                        0 <= j < i && #[trigger] chs[j] == ch && m[ch].contains(client_id)),
            decreases names.len() - i,
        {
            let ghost before = names_of(removed@);
            let ghost now = self@.channels;
            let ghost c = chs[i as int];
            proof {
                assert(c == names@[i as int]@);
                assert(listeners(now, c) == m[c]);
                lemma_leaving(m[c], client_id);
            }
            let was_on = self.leave(client_id, names[i].as_str());
            if was_on {
                removed.push(names[i].clone());
            }
            proof {
                let after = names_of(removed@);
                if was_on {
                    assert(after =~= before.push(c));
                    assert(!before.contains(c)) by {
                        if before.contains(c) {
                            let j = choose|j: int|
                                0 <= j < i && #[trigger] chs[j] == c && m[c].contains(client_id);
                            assert(chs[j] == chs[i as int]);
                        }
                    }
                } else {
                    assert(after == before);
                }
                assert forall|ch: Seq<char>| #[trigger]
                    after.contains(ch) == (exists|j: int|
                        0 <= j < i + 1 && #[trigger] chs[j] == ch && m[ch].contains(
                            client_id,
                        )) by {
                    if before.contains(ch) {
                        assert(after[before.index_of(ch)] == ch);
                    }
                    if was_on {
                        assert(after[before.len() as int] == c);
                        if after.contains(ch) && ch != c {
                            assert(before[after.index_of(ch)] == ch);
                        }
                    }
                    if exists|j: int|
                        0 <= j < i + 1 && #[trigger] chs[j] == ch && m[ch].contains(client_id) {
                        let j = choose|j: int|
                            0 <= j < i + 1 && #[trigger] chs[j] == ch && m[ch].contains(client_id);
                        if j < i {
                            assert(before.contains(ch));
                        }
                    }
                    if ch == c && was_on {
                        assert(chs[i as int] == ch);
                    }
                }
                assert forall|j: int| i + 1 <= j < chs.len() implies listeners(
                    self@.channels,
                    #[trigger] chs[j],
                ) == m[chs[j]] && self@.channels.contains_key(chs[j]) by {
                    assert(chs[j] != c);
                }
                assert forall|j: int| 0 <= j < i + 1 implies {
                    let kept = m[#[trigger] chs[j]].filter(other_than(client_id));
                    &&& self@.channels.contains_key(chs[j]) == (kept.len() > 0)
                    &&& kept.len() > 0 ==> self@.channels[chs[j]] == kept
                } by {
                    if j < i {
                        assert(chs[j] != c);
                    }
                }
            }
            i = i + 1;
        }
        proof {
            let want = all_left(m, client_id);
            assert forall|ch: Seq<char>| #[trigger]
                self@.channels.contains_key(ch) == want.contains_key(ch) && (want.contains_key(ch)
                    ==> self@.channels[ch] == want[ch]) by {
                if m.contains_key(ch) {
                    assert(chs.to_set().contains(ch));
                    let j = chs.index_of(ch);
                    assert(chs[j] == ch);
                }
            }
            assert(self@.channels =~= want);
            let on = channels_of(m, client_id);
            assert forall|ch: Seq<char>| names_of(removed@).to_set().contains(ch) == on.contains(
                ch,
            ) by {
                assert(names_of(removed@).to_set().contains(ch) == names_of(removed@).contains(ch));
                if on.contains(ch) {
                    assert(chs.to_set().contains(ch));
                    assert(chs[chs.index_of(ch)] == ch);
                }
                if names_of(removed@).contains(ch) {
                    let j = choose|j: int|
                        0 <= j < i && #[trigger] chs[j] == ch && m[ch].contains(client_id);
                    assert(chs.to_set().contains(chs[j]));
                }
            }
            assert(names_of(removed@).to_set() =~= on);
        }
        removed
    }

    /// Notes that a client no longer takes messages.
    pub fn close(&mut self, client_id: u64)
        ensures
            final(self)@ == (HubView {
                closed: old(self)@.closed.insert(client_id),
                ..old(self)@
            }),
    {
        self.closed.insert(client_id);
    }

    /// Publishes a message on a channel to those that listen to it by name.
    fn publish_by_name(&mut self, channel: &str, message: &Vec<u8>)
        ensures
            ({
                let h = old(self)@;
                let e = EventView { channel: channel@, message: message@, pattern: None };
                final(self)@ == (HubView {
                    outbox: h.outbox + sent_to(
                        listeners(h.channels, channel@).filter(takes(h.closed)),
                        e,
                    ),
                    channels: published(h, e).channels,
                    ..h
                })
            }),
    {
        let ghost h = self@;
        let ghost e = EventView { channel: channel@, message: message@, pattern: None };
        let ids = match clients_on(&self.subscribers, channel) {
            Some(v) => v,
            None => Vec::new(),
        };
        let ghost p = takes(h.closed);
        let mut open: Vec<u64> = Vec::new();
        let mut i: usize = 0;
        proof {
            assert(ids@ =~= listeners(h.channels, channel@));
            assert(ids@.take(0).filter(p) =~= Seq::<u64>::empty()) by {
                reveal(Seq::filter);
            }
            assert(sent_to(open@, e) =~= Seq::<(u64, EventView)>::empty());
            assert(h.outbox + sent_to(open@, e) =~= h.outbox);
        }
        while i < ids.len()
            invariant
                i <= ids@.len(),
                p == takes(h.closed),
                e == (EventView { channel: channel@, message: message@, pattern: None }),
                open@ =~= ids@.take(i as int).filter(p),
                self@ == (HubView { outbox: h.outbox + sent_to(open@, e), ..h }),
            decreases ids.len() - i,
        {
            proof {
                lemma_filter_step(ids@, i as int, p);
            }
            if !self.closed.contains(&ids[i]) {
                let ghost before = open@;
                let ghost box_before = self.outbox@;
                open.push(ids[i]);
                let event = PublishEvent {
                    channel: channel.to_owned(),
                    message: encoding::copy(message),
                    pattern: None,
                };
                self.outbox.push(Delivery { client: ids[i], event });
                proof {
                    assert(sent_to(open@, e) =~= sent_to(before, e).push((ids@[i as int], e)));
                    assert(deliveries_of(self.outbox@) =~= deliveries_of(box_before).push(
                        (ids@[i as int], e),
                    ));
                    assert(self@.outbox =~= h.outbox + sent_to(open@, e));
                }
            }
            i = i + 1;
        }
        proof {
            assert(ids@.take(i as int) =~= ids@);
            lemma_filter_shrinks(ids@, p);
        }
        if open.len() < ids.len() {
            if open.len() == 0 {
                remove_channel(&mut self.subscribers, channel);
            } else {
                put_clients(&mut self.subscribers, channel.to_owned(), open);
            }
        }
    }

    /// Publishes a message on a channel to those that listen by patterns.
    fn publish_by_pattern(&mut self, channel: &str, message: &Vec<u8>)
        ensures
            ({
                let h = old(self)@;
                let e = EventView { channel: channel@, message: message@, pattern: None };
                final(self)@ == (HubView {
                    outbox: h.outbox + sent_by_pattern(
                        h.patterns.filter(heard(h.closed, channel@)),
                        e,
                    ),
                    patterns: h.patterns.filter(not_dead(h.closed, channel@)),
                    ..h
                })
            }),
    {
        let ghost h = self@;
        let ghost e = EventView { channel: channel@, message: message@, pattern: None };
        let ghost all = h.patterns;
        let ghost p = heard(h.closed, channel@);
        let ghost q = not_dead(h.closed, channel@);
        let name = text::bytes_of(channel);
        let mut kept: Vec<Listener> = Vec::new();
        let mut found: Vec<Listener> = Vec::new();
        std::mem::swap(&mut found, &mut self.patterns);
        let mut i: usize = 0;
        proof {
            assert(listener_views(found@) == all);
            assert(all.take(0).filter(p) =~= Seq::<(Seq<u8>, u64)>::empty()) by {
                reveal(Seq::filter);
            }
            assert(all.take(0).filter(q) =~= Seq::<(Seq<u8>, u64)>::empty()) by {
                reveal(Seq::filter);
            }
            assert(self@.outbox =~= h.outbox + sent_by_pattern(all.take(0).filter(p), e));
        }
        while i < found.len()
            invariant
                i <= found@.len(),
                all == listener_views(found@),
                all == h.patterns,
                p == heard(h.closed, channel@),
                q == not_dead(h.closed, channel@),
                name@ == utf8::encode_utf8(channel@),
                e == (EventView { channel: channel@, message: message@, pattern: None }),
                listener_views(kept@) =~= all.take(i as int).filter(q),
                self@.outbox == h.outbox + sent_by_pattern(all.take(i as int).filter(p), e),
                self@ == (HubView { outbox: self@.outbox, patterns: self@.patterns, ..h }),
            decreases found.len() - i,
        {
            let ghost x = all[i as int];
            let ghost hits = all.take(i as int).filter(p);
            proof {
                assert(x == (found@[i as int].pattern@, found@[i as int].client));
                assert(all.take(i + 1) =~= all.take(i as int).push(x));
                all.take(i as int).lemma_filter_push(x, p);
                all.take(i as int).lemma_filter_push(x, q);
            }
            let client: u64 = found[i].client;
            let stands: bool = glob::glob(&found[i].pattern, &name);
            let open: bool = !self.closed.contains(&client);
            if stands && open {
                let ghost box_before = self.outbox@;
                let event = PublishEvent {
                    channel: channel.to_owned(),
                    message: encoding::copy(message),
                    pattern: Some(encoding::copy(&found[i].pattern)),
                };
                self.outbox.push(Delivery { client, event });
                proof {
                    let item = (x.1, EventView { pattern: Some(x.0), ..e });
                    assert(sent_by_pattern(hits.push(x), e) =~= sent_by_pattern(hits, e).push(
                        item,
                    ));
                    assert(deliveries_of(self.outbox@) =~= deliveries_of(box_before).push(item));
                    assert(self@.outbox =~= h.outbox + sent_by_pattern(hits.push(x), e));
                }
            }
            if !stands || open {
                let ghost before = listener_views(kept@);
                kept.push(Listener { pattern: encoding::copy(&found[i].pattern), client });
                proof {
                    assert(listener_views(kept@) =~= before.push(x));
                }
            }
            i = i + 1;
        }
        proof {
            assert(all.take(i as int) =~= all);
        }
        self.patterns = kept;
    }

    /// Publishes a message and returns how many clients it goes to.
    pub fn publish(&mut self, channel: &str, message: &Vec<u8>) -> (delivered: usize)
        ensures
            ({
                let e = EventView { channel: channel@, message: message@, pattern: None };
                &&& final(self)@ == published(old(self)@, e)
                &&& delivered == audience(old(self)@, channel@)
            }),
    {
        let ghost h = self@;
        let before: usize = self.outbox.len();
        self.publish_by_name(channel, message);
        proof {
            assert(self@.patterns == h.patterns);
            assert(deliveries_of(self.outbox@).len() == self.outbox@.len());
        }
        self.publish_by_pattern(channel, message);
        proof {
            assert(deliveries_of(self.outbox@).len() == self.outbox@.len());
        }
        self.outbox.len() - before
    }

    /// Subscribes a client to patterns and returns those that were new to it.
    pub fn psubscribe(&mut self, client_id: u64, patterns: &[Vec<u8>]) -> (added: Vec<Vec<u8>>)
        ensures
            ({
                let pats = encoding::byte_seqs(patterns@);
                let (after, new) = patterns_added(
                    old(self)@.patterns,
                    client_id,
                    pats,
                    pats.len(),
                );
                &&& encoding::byte_seqs(added@) == new
                &&& final(self)@ == (HubView { patterns: after, ..old(self)@ })
            }),
    {
        let ghost h = self@;
        let ghost pats = encoding::byte_seqs(patterns@);
        let mut added: Vec<Vec<u8>> = Vec::new();
        let mut i: usize = 0;
        proof {
            assert(encoding::byte_seqs(added@) =~= Seq::<Seq<u8>>::empty());
        }
        while i < patterns.len()
            invariant
                i <= patterns@.len(),
                pats == encoding::byte_seqs(patterns@),
                patterns_added(h.patterns, client_id, pats, i as nat) == (
                    self@.patterns,
                    encoding::byte_seqs(added@),
                ),
                self@ == (HubView { patterns: self@.patterns, ..h }),
            decreases patterns.len() - i,
        {
            proof {
                assert(pats[i as int] == patterns@[i as int]@);
            }
            if !listens(&self.patterns, &patterns[i], client_id) {
                let ghost before = encoding::byte_seqs(added@);
                let ghost ps = self@.patterns;
                self.patterns.push(
                    Listener { pattern: encoding::copy(&patterns[i]), client: client_id },
                );
                added.push(encoding::copy(&patterns[i]));
                proof {
                    assert(encoding::byte_seqs(added@) =~= before.push(pats[i as int]));
                    assert(self@.patterns =~= ps.push((pats[i as int], client_id)));
                }
            }
            i = i + 1;
        }
        added
    }

    /// Takes a client off the patterns of a list, and returns those that it
    /// listened to.
    pub fn punsubscribe(&mut self, client_id: u64, patterns: &[Vec<u8>]) -> (removed: Vec<Vec<u8>>)
        ensures
            ({
                let pats = encoding::byte_seqs(patterns@);
                let (after, gone) = patterns_left(
                    old(self)@.patterns,
                    client_id,
                    pats,
                    pats.len(),
                );
                &&& encoding::byte_seqs(removed@) == gone
                &&& final(self)@ == (HubView { patterns: after, ..old(self)@ })
            }),
    {
        let ghost h = self@;
        let ghost pats = encoding::byte_seqs(patterns@);
        let mut removed: Vec<Vec<u8>> = Vec::new();
        let mut i: usize = 0;
        proof {
            assert(encoding::byte_seqs(removed@) =~= Seq::<Seq<u8>>::empty());
        }
        while i < patterns.len()
            invariant
                i <= patterns@.len(),
                pats == encoding::byte_seqs(patterns@),
                patterns_left(h.patterns, client_id, pats, i as nat) == (
                    self@.patterns,
                    encoding::byte_seqs(removed@),
                ),
                self@ == (HubView { patterns: self@.patterns, ..h }),
            decreases patterns.len() - i,
        {
            proof {
                assert(pats[i as int] == patterns@[i as int]@);
            }
            if listens(&self.patterns, &patterns[i], client_id) {
                let ghost before = encoding::byte_seqs(removed@);
                removed.push(encoding::copy(&patterns[i]));
                proof {
                    assert(encoding::byte_seqs(removed@) =~= before.push(pats[i as int]));
                }
            }
            let kept = without_listener(&self.patterns, &patterns[i], client_id);
            self.patterns = kept;
            i = i + 1;
        }
        removed
    }

    /// Takes a client off all patterns, and returns those that it listened to.
    pub fn punsubscribe_all(&mut self, client_id: u64) -> (removed: Vec<Vec<u8>>)
        ensures
            encoding::byte_seqs(removed@) == patterns_of(old(self)@.patterns, client_id),
            final(self)@ == (HubView {
                patterns: old(self)@.patterns.filter(by_others(client_id)),
                ..old(self)@
            }),
    {
        let ghost h = self@;
        let ghost all = h.patterns;
        let ghost p = by_client(client_id);
        let ghost q = by_others(client_id);
        let mut kept: Vec<Listener> = Vec::new();
        let mut removed: Vec<Vec<u8>> = Vec::new();
        let mut i: usize = 0;
        proof {
            assert(all.take(0).filter(p) =~= Seq::<(Seq<u8>, u64)>::empty()) by {
                reveal(Seq::filter);
            }
            assert(all.take(0).filter(q) =~= Seq::<(Seq<u8>, u64)>::empty()) by {
                reveal(Seq::filter);
            }
        }
        while i < self.patterns.len()
            invariant
                i <= self.patterns@.len(),
                self@ == h,
                all == h.patterns,
                all == listener_views(self.patterns@),
                p == by_client(client_id),
                q == by_others(client_id),
                listener_views(kept@) =~= all.take(i as int).filter(q),
                encoding::byte_seqs(removed@) =~= pattern_texts(all.take(i as int).filter(p)),
            decreases self.patterns.len() - i,
        {
            let ghost x = all[i as int];
            proof {
                assert(all.take(i + 1) =~= all.take(i as int).push(x));
                all.take(i as int).lemma_filter_push(x, p);
                all.take(i as int).lemma_filter_push(x, q);
            }
            let copied = encoding::copy(&self.patterns[i].pattern);
            if self.patterns[i].client == client_id {
                let ghost before = encoding::byte_seqs(removed@);
                removed.push(copied);
                proof {
                    assert(encoding::byte_seqs(removed@) =~= before.push(x.0));
                }
            } else {
                let ghost before = listener_views(kept@);
                kept.push(Listener { pattern: copied, client: self.patterns[i].client });
                proof {
                    assert(listener_views(kept@) =~= before.push(x));
                }
            }
            i = i + 1;
        }
        proof {
            assert(all.take(i as int) =~= all);
        }
        self.patterns = kept;
        removed
    }

    /// How many patterns a client listens to.
    pub fn pattern_count(&self, client_id: u64) -> (n: usize)
        ensures
            n == patterns_of(self@.patterns, client_id).len(),
    {
        let ghost all = self@.patterns;
        let ghost p = by_client(client_id);
        let mut n: usize = 0;
        let mut i: usize = 0;
        proof {
            assert(all.take(0).filter(p) =~= Seq::<(Seq<u8>, u64)>::empty()) by {
                reveal(Seq::filter);
            }
        }
        while i < self.patterns.len()
            invariant
                i <= self.patterns@.len(),
                n <= i,
                all == listener_views(self.patterns@),
                p == by_client(client_id),
                n == all.take(i as int).filter(p).len(),
            decreases self.patterns.len() - i,
        {
            proof {
                let x = all[i as int];
                assert(all.take(i + 1) =~= all.take(i as int).push(x));
                all.take(i as int).lemma_filter_push(x, p);
            }
            if self.patterns[i].client == client_id {
                n = n + 1;
            }
            i = i + 1;
        }
        proof {
            assert(all.take(i as int) =~= all);
        }
        n
    }

    /// Hands out the messages that wait for delivery.
    pub fn take_outbox(&mut self) -> (v: Vec<Delivery>)
        ensures
            deliveries_of(v@) == old(self)@.outbox,
            final(self)@ == (HubView { outbox: Seq::empty(), ..old(self)@ }),
    {
        let mut v: Vec<Delivery> = Vec::new();
        std::mem::swap(&mut v, &mut self.outbox);
        proof {
            assert(self@.outbox =~= Seq::<(u64, EventView)>::empty());
        }
        v
    }

    /// How many channels a client is on.
    pub fn subscription_count(&self, client_id: u64) -> (n: usize)
        ensures
            n == channels_of(self@.channels, client_id).len(),
    {
        let names = channel_names(&self.subscribers);
        let ghost chs = names_of(names@);
        let ghost m = self@.channels;
        let ghost mut on = Set::<Seq<char>>::empty();
        let mut n: usize = 0;
        let mut i: usize = 0;
        while i < names.len()
            invariant
                i <= names@.len(),
                n <= i,
                m == self@.channels,
                chs == names_of(names@),
                chs.no_duplicates(),
                chs.to_set() == m.dom(),
                on.finite(),
                n == on.len(),
                forall|ch: Seq<char>| #[trigger]
                    on.contains(ch) == (exists|j: int|
                        0 <= j < i && #[trigger] chs[j] == ch && m[ch].contains(client_id)),
            decreases names.len() - i,
        {
            let ghost c = chs[i as int];
            proof {
                assert(c == names@[i as int]@);
                assert(chs.to_set().contains(c));
                assert(!on.contains(c)) by {
                    if on.contains(c) {
                        let j = choose|j: int|
                            0 <= j < i && #[trigger] chs[j] == c && m[c].contains(client_id);
                        assert(chs[j] == chs[i as int]);
                    }
                }
            }
            match clients_on(&self.subscribers, names[i].as_str()) {
                Some(ids) => if listed(&ids, client_id) {
                    n = n + 1;
                    proof {
                        on = on.insert(c);
                    }
                },
                None => {},
            }
            proof {
                assert forall|ch: Seq<char>| #[trigger]
                    on.contains(ch) == (exists|j: int|
                        0 <= j < i + 1 && #[trigger] chs[j] == ch && m[ch].contains(
                            client_id,
                        )) by {
                    if exists|j: int|
                        0 <= j < i + 1 && #[trigger] chs[j] == ch && m[ch].contains(client_id) {
                        let j = choose|j: int|
                            0 <= j < i + 1 && #[trigger] chs[j] == ch && m[ch].contains(client_id);
                        if j < i {
                            assert(chs[j] == ch);
                        }
                    }
                    if ch == c {
                        assert(chs[i as int] == ch);
                    }
                }
            }
            i = i + 1;
        }
        proof {
            let want = channels_of(m, client_id);
            assert forall|ch: Seq<char>| on.contains(ch) == want.contains(ch) by {
                if want.contains(ch) {
                    assert(chs.to_set().contains(ch));
                    assert(chs[chs.index_of(ch)] == ch);
                }
                if on.contains(ch) {
                    let j = choose|j: int|
                        0 <= j < i && #[trigger] chs[j] == ch && m[ch].contains(client_id);
                    assert(chs.to_set().contains(chs[j]));
                }
            }
            assert(on =~= want);
        }
        n
    }
}

/// A client that subscribed to a channel hears it, and nobody else begins or
/// ceases to hear anything.
pub proof fn law_subscribers_hear(
    m: Channels,
    client: u64,
    chs: Seq<Seq<char>>,
    n: nat,
    ch: Seq<char>,
    other: u64,
)
    requires
        n <= chs.len(),
    ensures
        ({
            let after = subscribed(m, client, chs, n).0;
            &&& listeners(after, ch).contains(client) == (listeners(m, ch).contains(client)
                || exists|i: int| 0 <= i < n && #[trigger] chs[i] == ch)
            &&& other != client ==> listeners(after, ch).contains(other) == listeners(
                m,
                ch,
            ).contains(other)
        }),
    decreases n,
{
    if n > 0 {
        law_subscribers_hear(m, client, chs, (n - 1) as nat, ch, other);
        let before = subscribed(m, client, chs, (n - 1) as nat).0;
        let ids = listeners(before, ch);
        let more = ids.push(client);
        assert(more.contains(client)) by {
            assert(more[ids.len() as int] == client);
        }
        if other != client {
            if ids.contains(other) {
                assert(more[ids.index_of(other)] == other);
            }
            if more.contains(other) {
                assert(ids[more.index_of(other)] == other);
            }
        }
        assert(chs[n - 1] == ch || chs[n - 1] != ch);
    }
}

/// A published message waits for delivery to a client exactly if the client
/// listens to the channel and still takes messages, and messages that waited
/// before still wait.
pub proof fn law_published_message_reaches_listeners(h: HubView, e: EventView, client: u64)
    requires
        e.pattern is None,
    ensures
        ({
            let after = published(h, e).outbox;
            let new = after.skip(h.outbox.len() as int);
            &&& after.take(h.outbox.len() as int) == h.outbox
            &&& new.len() == audience(h, e.channel)
            &&& new.contains((client, e)) == (listeners(h.channels, e.channel).contains(client)
                && !h.closed.contains(client))
        }),
{
    let ids = listeners(h.channels, e.channel);
    let open = ids.filter(takes(h.closed));
    let hits = h.patterns.filter(heard(h.closed, e.channel));
    let after = published(h, e).outbox;
    let new = after.skip(h.outbox.len() as int);
    assert(after.take(h.outbox.len() as int) =~= h.outbox);
    assert(new =~= sent_to(open, e) + sent_by_pattern(hits, e));
    broadcast use vstd::seq_lib::group_filter_ensures;

    if new.contains((client, e)) {
        let i = new.index_of((client, e));
        if i >= open.len() {
            assert(new[i] == sent_by_pattern(hits, e)[i - open.len()]);
        }
        assert(open[i] == client);
        assert(open.contains(client));
    }
    if !h.closed.contains(client) {
        lemma_filter_keeps(ids, takes(h.closed), client);
        if open.contains(client) {
            assert(new[open.index_of(client)] == (client, e));
        }
    }
}

/// A published message waits for delivery to a client by a pattern exactly if
/// the client listens to the pattern, the pattern stands for the channel, and
/// the client still takes messages.
pub proof fn law_published_message_reaches_patterns(
    h: HubView,
    e: EventView,
    pattern: Seq<u8>,
    client: u64,
)
    requires
        e.pattern is None,
    ensures
        ({
            let new = published(h, e).outbox.skip(h.outbox.len() as int);
            new.contains((client, EventView { pattern: Some(pattern), ..e })) == (
            h.patterns.contains((pattern, client)) && glob::matches(
                pattern,
                utf8::encode_utf8(e.channel),
            ) && !h.closed.contains(client))
        }),
{
    let open = listeners(h.channels, e.channel).filter(takes(h.closed));
    let p = heard(h.closed, e.channel);
    let hits = h.patterns.filter(p);
    let sent = sent_by_pattern(hits, e);
    let new = published(h, e).outbox.skip(h.outbox.len() as int);
    let item = (client, EventView { pattern: Some(pattern), ..e });
    let sub = (pattern, client);
    assert(new =~= sent_to(open, e) + sent);
    lemma_subscriptions_kept(h.patterns, p, sub);
    if new.contains(item) {
        let i = new.index_of(item);
        if i < open.len() {
            assert(new[i] == sent_to(open, e)[i]);
        }
        assert(new[i] == sent[i - open.len()]);
        assert(hits[i - open.len()] == sub);
    }
    if hits.contains(sub) {
        let i = hits.index_of(sub);
        assert(sent[i] == item);
        assert(new[open.len() + i] == item);
    }
}

proof fn lemma_subscriptions_kept(
    s: Patterns,
    p: spec_fn((Seq<u8>, u64)) -> bool,
    x: (Seq<u8>, u64),
)
    ensures
        s.filter(p).contains(x) == (s.contains(x) && p(x)),
    decreases s.len(),
{
    reveal(Seq::filter);
    if s.len() > 0 {
        let before = s.drop_last();
        lemma_subscriptions_kept(before, p, x);
        let f = before.filter(p);
        assert(s =~= before.push(s.last()));
        if s.contains(x) && p(x) {
            let i = s.index_of(x);
            if i < before.len() {
                assert(before[i] == x);
                assert(s.filter(p)[f.index_of(x)] == x);
            } else {
                assert(s.filter(p)[f.len() as int] == x);
            }
        }
        if s.filter(p).contains(x) {
            let i = s.filter(p).index_of(x);
            if i < f.len() {
                assert(f[i] == x);
                assert(s[before.index_of(x)] == x);
            } else {
                assert(s[s.len() - 1] == x);
            }
        }
    }
}

/// A client that left all patterns listens to none, and all others listen to
/// what they listened to.
pub proof fn law_leaving_all_patterns(ps: Patterns, client: u64, pattern: Seq<u8>, other: u64)
    ensures
        ps.filter(by_others(client)).contains((pattern, other)) == (other != client
            && ps.contains((pattern, other))),
{
    lemma_subscriptions_kept(ps, by_others(client), (pattern, other));
}

/// A client that subscribed to a pattern listens to it until it leaves it, and
/// nobody else begins or ceases to listen.
pub proof fn law_pattern_subscriptions(
    ps: Patterns,
    client: u64,
    pats: Seq<Seq<u8>>,
    n: nat,
    pattern: Seq<u8>,
    other: u64,
)
    requires
        n <= pats.len(),
    ensures
        ({
            let more = patterns_added(ps, client, pats, n).0;
            let less = patterns_left(ps, client, pats, n).0;
            let named = other == client && exists|i: int| 0 <= i < n && #[trigger] pats[i]
                == pattern;
            &&& more.contains((pattern, other)) == (ps.contains((pattern, other)) || named)
            &&& less.contains((pattern, other)) == (ps.contains((pattern, other)) && !named)
        }),
    decreases n,
{
    let x = (pattern, other);
    if n > 0 {
        law_pattern_subscriptions(ps, client, pats, (n - 1) as nat, pattern, other);
        let before = patterns_added(ps, client, pats, (n - 1) as nat).0;
        let item = (pats[n - 1], client);
        let after = before.push(item);
        if before.contains(x) {
            assert(after[before.index_of(x)] == x);
        }
        assert(after[before.len() as int] == item);
        if after.contains(x) && x != item {
            assert(before[after.index_of(x)] == x);
        }
        let left = patterns_left(ps, client, pats, (n - 1) as nat).0;
        lemma_subscriptions_kept(left, not_the(item), x);
        assert(pats[n - 1] == pattern || pats[n - 1] != pattern);
    }
}

/// A client that left channels no longer hears them, it hears all others as
/// before, and nobody else begins or ceases to hear anything. The channels that
/// are told are those among the named ones that it heard, each once.
pub proof fn law_leavers_do_not_hear(
    m: Channels,
    client: u64,
    chs: Seq<Seq<char>>,
    n: nat,
    ch: Seq<char>,
    other: u64,
)
    requires
        n <= chs.len(),
    ensures
        ({
            let (after, gone) = unsubscribed(m, client, chs, n);
            let named = exists|i: int| 0 <= i < n && #[trigger] chs[i] == ch;
            &&& listeners(after, ch).contains(other) == (listeners(m, ch).contains(other) && !(other
                == client && named))
            &&& gone.contains(ch) == (listeners(m, ch).contains(client) && named)
            &&& gone.no_duplicates()
        }),
    decreases n,
{
    if n > 0 {
        let (before, told) = unsubscribed(m, client, chs, (n - 1) as nat);
        let (after, gone) = unsubscribed(m, client, chs, n);
        let c = chs[n - 1];
        law_leavers_do_not_hear(m, client, chs, (n - 1) as nat, ch, other);
        law_leavers_do_not_hear(m, client, chs, (n - 1) as nat, ch, client);
        law_leavers_do_not_hear(m, client, chs, (n - 1) as nat, c, client);
        let ids = listeners(before, c);
        lemma_leaving(ids, client);
        if other != client {
            lemma_filter_keeps(ids, other_than(client), other);
        }
        assert(chs[n - 1] == ch || chs[n - 1] != ch);
        if listeners(before, c).contains(client) {
            assert(gone[told.len() as int] == c);
            assert(!told.contains(c));
            if told.contains(ch) {
                assert(gone[told.index_of(ch)] == ch);
            }
            if gone.contains(ch) && ch != c {
                assert(told[gone.index_of(ch)] == ch);
            }
        }
    }
}

/// The channels that are told of a subscription are those among the named ones
/// that the client did not hear, each once.
pub proof fn law_new_channels_are_told(
    m: Channels,
    client: u64,
    chs: Seq<Seq<char>>,
    n: nat,
    ch: Seq<char>,
)
    requires
        n <= chs.len(),
    ensures
        ({
            let added = subscribed(m, client, chs, n).1;
            let named = exists|i: int| 0 <= i < n && #[trigger] chs[i] == ch;
            &&& added.contains(ch) == (!listeners(m, ch).contains(client) && named)
            &&& added.no_duplicates()
        }),
    decreases n,
{
    if n > 0 {
        let (before, told) = subscribed(m, client, chs, (n - 1) as nat);
        let added = subscribed(m, client, chs, n).1;
        let c = chs[n - 1];
        law_new_channels_are_told(m, client, chs, (n - 1) as nat, ch);
        law_new_channels_are_told(m, client, chs, (n - 1) as nat, c);
        law_subscribers_hear(m, client, chs, (n - 1) as nat, c, client);
        assert(chs[n - 1] == ch || chs[n - 1] != ch);
        if !listeners(before, c).contains(client) {
            assert(added[told.len() as int] == c);
            assert(!told.contains(c));
            if told.contains(ch) {
                assert(added[told.index_of(ch)] == ch);
            }
            if added.contains(ch) && ch != c {
                assert(told[added.index_of(ch)] == ch);
            }
        }
    }
}

} // verus!
