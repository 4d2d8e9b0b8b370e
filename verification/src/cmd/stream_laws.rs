//! What holds of streams: an entry that was added is counted and found, and a
//! range shows the entries between its ends in the order of their ids.

use super::laws;
use super::stream;
use super::stream::{EntryId, StreamMeta};
use super::Moment;
use crate::cmd;
use crate::codec;
use crate::encoding;
use crate::error::ErrorView;
use crate::order;
use crate::protocol::RespView;
use crate::storage::StoreView;
use crate::table;
use crate::table::Entries;
use crate::types;
use crate::types::DataType;
use vstd::prelude::*;

verus! {

/// A stream is in order: every entry is kept under the bytes of an id, and its
/// fields can be read.
pub open spec fn stream_ok(e: Entries, ns: Seq<u8>, key: Seq<u8>, version: u64) -> bool {
    forall|sub: Seq<u8>| #[trigger]
        e.contains_key(encoding::subkey_of(key, version, sub, ns)) ==> sub.len() == 16
            && stream::fields_in(e[encoding::subkey_of(key, version, sub, ns)]) is Some
}

/// The keys of a stream's entries.
pub open spec fn entry_keys(e: Entries, ns: Seq<u8>, key: Seq<u8>, version: u64) -> Seq<Seq<u8>> {
    table::keys_with(e, encoding::sub_prefix(key, version, ns))
}

/// The metadata that XADD finds or makes.
pub open spec fn xadd_meta(s: StoreView, ns: Seq<u8>, key: Seq<u8>, at: Moment) -> StreamMeta {
    match stream::stream_meta(s, ns, key, at.now_ms)->Ok_0 {
        Some(m) => m,
        None => stream::fresh_stream(at.version),
    }
}

/// The id that XADD gives to its entry.
pub open spec fn xadd_id(s: StoreView, ns: Seq<u8>, a: Seq<Seq<u8>>, at: Moment) -> EntryId {
    stream::new_id(
        s.subkey,
        ns,
        a[0],
        a[1],
        xadd_meta(s, ns, a[0], at),
        stream::clock(at.now_ms),
    )->Ok_0
}

/// A key holds a stream that is in order, or none, and then the version of the
/// moment is behind all that are stored for it.
pub open spec fn stream_ready(s: StoreView, ns: Seq<u8>, key: Seq<u8>, at: Moment, last: u64) -> bool {
    stream::stream_meta(s, ns, key, at.now_ms) is Ok ==> match stream::stream_meta(
        s,
        ns,
        key,
        at.now_ms,
    )->Ok_0 {
        Some(m) => stream_ok(s.subkey, ns, key, m.version),
        None => laws::versions_upto(s, ns, key, last) && last < at.version,
    }
}

pub(crate) proof fn lemma_stream_ready(s: StoreView, ns: Seq<u8>, key: Seq<u8>, at: Moment, last: u64)
    requires
        stream::stream_meta(s, ns, key, at.now_ms) is Ok,
        stream_ready(s, ns, key, at, last),
    ensures
        stream_ok(s.subkey, ns, key, xadd_meta(s, ns, key, at).version),
        stream::stream_meta(s, ns, key, at.now_ms)->Ok_0 is None ==> encoding::elements_of(
            s.subkey,
            key,
            at.version,
            ns,
        ) == Set::<Seq<u8>>::empty(),
{
    if stream::stream_meta(s, ns, key, at.now_ms)->Ok_0 is None {
        laws::law_later_versions_are_unused(s, ns, key, last, at.version);
    }
}

/// XADD keeps a stream in order, XLEN then tells one entry more, and the new
/// entry holds the fields that were given, under the id that was replied.
pub proof fn law_xadd(
    s: StoreView,
    ns: Seq<u8>,
    a: Seq<Seq<u8>>,
    at: Moment,
    last: u64,
)
    requires
        stream::xadd_outcome(s, ns, a, at).reply is Ok,
        stream_ready(s, ns, a[0], at, last),
        stream::fields_fit(stream::fields_of(a)),
        a[0].len() < 0x1_0000_0000,
        ns.len() <= 255,
    ensures
        ({
            let o = stream::xadd_outcome(s, ns, a, at);
            let m = xadd_meta(s, ns, a[0], at);
            let id = xadd_id(s, ns, a, at);
            let k = encoding::subkey_of(a[0], m.version, stream::id_bytes(id), ns);
            &&& o.reply == Ok::<_, ErrorView>(cmd::bulk(Some(stream::id_text(id))))
            &&& stream_ok(o.store.subkey, ns, a[0], m.version)
            &&& stream::xlen_reply(o.store, ns, seq![a[0]], at.now_ms) == Ok::<_, ErrorView>(
                cmd::count_reply(cmd::grown(m.size, 1)),
            )
            &&& o.store.subkey.contains_key(k)
            &&& stream::id_of_key(k, ns) == Some(id)
            &&& stream::entry_reply(o.store.subkey, ns, k) == RespView::Array(
                seq![
                    cmd::bulk(Some(stream::id_text(id))),
                    RespView::Array(stream::fields_reply(stream::fields_of(a))),
                ],
            )
        }),
{
    lemma_stream_ready(s, ns, a[0], at, last);
    let o = stream::xadd_outcome(s, ns, a, at);
    let m = xadd_meta(s, ns, a[0], at);
    let id = xadd_id(s, ns, a, at);
    let sub = stream::id_bytes(id);
    let k = encoding::subkey_of(a[0], m.version, sub, ns);
    let after = StreamMeta {
        size: cmd::grown(m.size, 1),
        last_ms: id.0,
        last_seq: id.1,
        ..m
    };
    stream::law_id_bytes(id, id);
    stream::law_fields_round_trip(stream::fields_of(a));
    stream::law_stream_meta_round_trip(after);
    encoding::law_keys_round_trip(a[0], m.version, sub, ns);
    types::law_flags_round_trip(DataType::Stream);
    assert forall|x: Seq<u8>| #[trigger]
        o.store.subkey.contains_key(encoding::subkey_of(a[0], m.version, x, ns)) implies x.len()
        == 16 && stream::fields_in(
        o.store.subkey[encoding::subkey_of(a[0], m.version, x, ns)],
    ) is Some by {
        encoding::lemma_subkey_injective(a[0], m.version, x, sub, ns);
        if x != sub {
            assert(s.subkey.contains_key(encoding::subkey_of(a[0], m.version, x, ns)));
        }
    }
    let v = stream::stream_meta_bytes(after);
    assert(v[0] == m.flags);
    assert(v.len() >= 41) by {
        if v.len() < 41 {
            assert(stream::stream_meta_in(v) is None);
        }
    }
    assert(!types::expired(m.expire, at.now_ms));
    assert(seq![a[0]][0] == a[0]);
}

/// The metadata that XADD leaves: the id of the new entry is the last one.
pub(crate) proof fn lemma_meta_after(s: StoreView, ns: Seq<u8>, a: Seq<Seq<u8>>, at: Moment)
    requires
        stream::xadd_outcome(s, ns, a, at).reply is Ok,
    ensures
        ({
            let o = stream::xadd_outcome(s, ns, a, at);
            let m = xadd_meta(s, ns, a[0], at);
            let id = xadd_id(s, ns, a, at);
            let after = StreamMeta {
                size: cmd::grown(m.size, 1),
                last_ms: id.0,
                last_seq: id.1,
                ..m
            };
            &&& o.reply == Ok::<_, ErrorView>(cmd::bulk(Some(stream::id_text(id))))
            &&& stream::stream_meta(o.store, ns, a[0], at.now_ms) == Ok::<_, ErrorView>(Some(after))
            &&& forall|now_ms: i64| #[trigger]
                stream::stream_meta(o.store, ns, a[0], now_ms) == Ok::<_, ErrorView>(
                    if types::expired(after.expire, now_ms) {
                        None
                    } else {
                        Some(after)
                    },
                )
        }),
{
    let m = xadd_meta(s, ns, a[0], at);
    let id = xadd_id(s, ns, a, at);
    let after = StreamMeta {
        size: cmd::grown(m.size, 1),
        last_ms: id.0,
        last_seq: id.1,
        ..m
    };
    stream::law_stream_meta_round_trip(after);
    types::law_flags_round_trip(DataType::Stream);
    let v = stream::stream_meta_bytes(after);
    assert(v[0] == m.flags);
    assert(v.len() >= 41) by {
        if v.len() < 41 {
            assert(stream::stream_meta_in(v) is None);
        }
    }
    assert(!types::expired(m.expire, at.now_ms));
}

proof fn lemma_id_of_bytes(b: Seq<u8>)
    requires
        b.len() == 16,
    ensures
        stream::id_bytes(stream::id_in_bytes(b)) == b,
{
    let x = b.subrange(0, 8);
    let y = b.subrange(8, 16);
    codec::lemma_pow256_values();
    codec::lemma_from_be_round_trip(x);
    codec::lemma_from_be_round_trip(y);
    codec::lemma_from_be_bound(x);
    codec::lemma_from_be_bound(y);
    assert(b =~= x + y);
}

pub(crate) proof fn lemma_entry(e: Entries, ns: Seq<u8>, key: Seq<u8>, version: u64, i: int)
    requires
        stream_ok(e, ns, key, version),
        e.dom().finite(),
        key.len() < 0x1_0000_0000,
        ns.len() <= 255,
        0 <= i < entry_keys(e, ns, key, version).len(),
    ensures
        ({
            let k = entry_keys(e, ns, key, version)[i];
            &&& stream::id_of_key(k, ns) is Some
            &&& k == encoding::sub_prefix(key, version, ns) + stream::id_bytes(
                stream::id_of_key(k, ns)->0,
            )
            &&& stream::fields_in(e[k]) is Some
        }),
{
    let p = encoding::sub_prefix(key, version, ns);
    let ks = entry_keys(e, ns, key, version);
    table::lemma_runs_listed(e, p, Seq::empty());
    let k = ks[i];
    assert(table::with_prefix(e, p).contains(k));
    order::lemma_prefix_split(k, p);
    let sub = k.skip(p.len() as int);
    assert(e.contains_key(encoding::subkey_of(key, version, sub, ns)));
    encoding::law_keys_round_trip(key, version, sub, ns);
    lemma_id_of_bytes(sub);
}

/// A key among those of one millisecond: the id that it holds.
proof fn lemma_id_in_ms(
    e: Entries,
    ns: Seq<u8>,
    key: Seq<u8>,
    version: u64,
    ms: u64,
    k: Seq<u8>,
)
    requires
        stream_ok(e, ns, key, version),
        key.len() < 0x1_0000_0000,
        ns.len() <= 255,
        e.contains_key(k),
        order::has_prefix(k, stream::ms_prefix(key, version, ns, ms)),
    ensures
        ({
            let id = stream::id_of_key(k, ns);
            &&& id is Some
            &&& (id->0).0 == ms
            &&& k == encoding::subkey_of(key, version, stream::id_bytes(id->0), ns)
        }),
{
    let p = stream::ms_prefix(key, version, ns, ms);
    let sp = encoding::sub_prefix(key, version, ns);
    let b = codec::be(ms as nat, 8);
    order::lemma_prefix_split(k, p);
    let sub = b + k.skip(p.len() as int);
    assert(k =~= sp + sub);
    assert(k == encoding::subkey_of(key, version, sub, ns));
    encoding::law_keys_round_trip(key, version, sub, ns);
    lemma_id_of_bytes(sub);
    codec::lemma_pow256_values();
    codec::lemma_be_len(ms as nat, 8);
    codec::lemma_be_round_trip(ms as nat, 8);
    assert(sub.subrange(0, 8) =~= b);
}

/// The last of ascending keys is behind any of them, or that key.
proof fn lemma_last_key(ks: Seq<Seq<u8>>, k: Seq<u8>)
    requires
        order::ascending(ks),
        ks.contains(k),
    ensures
        ks.len() > 0,
        k == ks.last() || order::lt(k, ks.last()),
{
    let i = choose|i: int| 0 <= i < ks.len() && ks[i] == k;
    if i < ks.len() - 1 {
        assert(order::lt(ks[i], ks[ks.len() - 1]));
    }
}

proof fn lemma_unused(
    e: Entries,
    ns: Seq<u8>,
    key: Seq<u8>,
    version: u64,
    ms: u64,
    n: u64,
)
    requires
        stream_ok(e, ns, key, version),
        e.dom().finite(),
        key.len() < 0x1_0000_0000,
        ns.len() <= 255,
        stream::unused_seq(e, ns, key, version, ms) <= n,
    ensures
        !e.contains_key(
            encoding::subkey_of(key, version, stream::id_bytes(EntryId(ms, n)), ns),
        ),
{
    let new = EntryId(ms, n);
    let sub = stream::id_bytes(new);
    let k = encoding::subkey_of(key, version, sub, ns);
    if e.contains_key(k) {
        let p = stream::ms_prefix(key, version, ns, ms);
        let sp = encoding::sub_prefix(key, version, ns);
        let used = table::keys_with(e, p);
        table::lemma_runs_listed(e, p, Seq::empty());
        assert(k =~= p + codec::be(n as nat, 8));
        assert(k.take(p.len() as int) =~= p);
        assert(table::with_prefix(e, p).contains(k));
        lemma_last_key(used, k);
        let last = used.last();
        assert(table::with_prefix(e, p).contains(last));
        lemma_id_in_ms(e, ns, key, version, ms, last);
        let id = stream::id_of_key(last, ns)->0;
        order::lemma_lt_common_prefix(sp, sub, stream::id_bytes(id));
        stream::law_id_bytes(new, id);
        stream::law_id_bytes(id, new);
        if k == last {
            encoding::lemma_subkey_injective(key, version, sub, stream::id_bytes(id), ns);
        }
        assert(n <= id.1);
    }
}

/// An id that is left to the server is free: no entry of the stream has it.
pub proof fn law_new_ids_are_free(
    e: Entries,
    ns: Seq<u8>,
    key: Seq<u8>,
    spec_text: Seq<u8>,
    m: StreamMeta,
    now_ms: u64,
)
    requires
        stream_ok(e, ns, key, m.version),
        e.dom().finite(),
        key.len() < 0x1_0000_0000,
        ns.len() <= 255,
        stream::left_open(spec_text, now_ms) is Some,
        stream::new_id(e, ns, key, spec_text, m, now_ms) is Ok,
    ensures
        !e.contains_key(
            encoding::subkey_of(
                key,
                m.version,
                stream::id_bytes(stream::new_id(e, ns, key, spec_text, m, now_ms)->Ok_0),
                ns,
            ),
        ),
{
    let id = stream::new_id(e, ns, key, spec_text, m, now_ms)->Ok_0;
    lemma_unused(e, ns, key, m.version, id.0, id.1);
}

/// XADD adds one entry, under its id, and XLEN goes on counting the entries. A
/// stream that is made anew, with a version behind all that are stored, has that
/// entry alone.
/// It does so unless an id is written that an entry before the last one has.
pub proof fn law_xlen_counts_the_entries(
    s: StoreView,
    ns: Seq<u8>,
    a: Seq<Seq<u8>>,
    at: Moment,
    last: u64,
)
    requires
        stream::xadd_outcome(s, ns, a, at).reply is Ok,
        stream_ready(s, ns, a[0], at, last),
        s.subkey.dom().finite(),
        a[0].len() < 0x1_0000_0000,
        ns.len() <= 255,
        stream::left_open(a[1], stream::clock(at.now_ms)) is None ==> !s.subkey.contains_key(
            encoding::subkey_of(
                a[0],
                xadd_meta(s, ns, a[0], at).version,
                stream::id_bytes(xadd_id(s, ns, a, at)),
                ns,
            ),
        ),
    ensures
        ({
            let o = stream::xadd_outcome(s, ns, a, at);
            let m = xadd_meta(s, ns, a[0], at);
            let sub = stream::id_bytes(xadd_id(s, ns, a, at));
            let before = encoding::elements_of(s.subkey, a[0], m.version, ns);
            let after = encoding::elements_of(o.store.subkey, a[0], m.version, ns);
            &&& stream::stream_meta(s, ns, a[0], at.now_ms)->Ok_0 is None ==> before == Set::<
                Seq<u8>,
            >::empty() && m.size == 0
            &&& before.finite() && !before.contains(sub)
            &&& after == before.insert(sub)
            &&& after.len() == before.len() + 1
            &&& m.size == before.len() && after.len() <= u64::MAX ==> cmd::grown(m.size, 1)
                == after.len()
        }),
{
    lemma_stream_ready(s, ns, a[0], at, last);
    let m = xadd_meta(s, ns, a[0], at);
    let sub = stream::id_bytes(xadd_id(s, ns, a, at));
    if stream::left_open(a[1], stream::clock(at.now_ms)) is Some {
        law_new_ids_are_free(s.subkey, ns, a[0], a[1], m, stream::clock(at.now_ms));
    }
    encoding::lemma_elements(
        s.subkey,
        a[0],
        m.version,
        ns,
        sub,
        stream::fields_bytes(stream::fields_of(a)),
    );
}

/// The entries of a stream stand in the order of their ids, each id once.
pub proof fn law_entries_ascend(
    e: Entries,
    ns: Seq<u8>,
    key: Seq<u8>,
    version: u64,
    i: int,
    j: int,
)
    requires
        stream_ok(e, ns, key, version),
        e.dom().finite(),
        key.len() < 0x1_0000_0000,
        ns.len() <= 255,
        0 <= i < j < entry_keys(e, ns, key, version).len(),
    ensures
        ({
            let ks = entry_keys(e, ns, key, version);
            stream::id_lt(
                stream::id_of_key(ks[i], ns)->0,
                stream::id_of_key(ks[j], ns)->0,
            )
        }),
{
    let p = encoding::sub_prefix(key, version, ns);
    let ks = entry_keys(e, ns, key, version);
    table::lemma_runs_listed(e, p, Seq::empty());
    lemma_entry(e, ns, key, version, i);
    lemma_entry(e, ns, key, version, j);
    let x = stream::id_of_key(ks[i], ns)->0;
    let y = stream::id_of_key(ks[j], ns)->0;
    order::lemma_lt_common_prefix(p, stream::id_bytes(x), stream::id_bytes(y));
    stream::law_id_bytes(x, y);
}

proof fn lemma_stop(
    ks: Seq<Seq<u8>>,
    out: spec_fn(Seq<u8>) -> bool,
    hit: spec_fn(Seq<u8>) -> bool,
    i: int,
    hits: nat,
)
    requires
        0 <= i <= ks.len(),
    ensures
        ({
            let stop = stream::stops_at(ks, out, hit, None, i, hits);
            i <= stop <= ks.len() && (stop < ks.len() ==> out(ks[stop]))
        }),
    decreases ks.len() - i,
{
    if i < ks.len() && !out(ks[i]) {
        lemma_stop(ks, out, hit, i + 1, hits + 1);
        lemma_stop(ks, out, hit, i + 1, hits);
    }
}

pub(crate) proof fn lemma_none_from(ks: Seq<Seq<u8>>, p: spec_fn(Seq<u8>) -> bool, i: int)
    requires
        0 <= i <= ks.len(),
        forall|j: int| i <= j < ks.len() ==> !p(#[trigger] ks[j]),
    ensures
        order::first_from(ks, p, i) == ks.len(),
    decreases ks.len() - i,
{
    if i < ks.len() {
        lemma_none_from(ks, p, i + 1);
    }
}

proof fn lemma_filter_none(ks: Seq<Seq<u8>>, p: spec_fn(Seq<u8>) -> bool)
    requires
        forall|j: int| 0 <= j < ks.len() ==> !p(#[trigger] ks[j]),
    ensures
        ks.filter(p) == Seq::<Seq<u8>>::empty(),
    decreases ks.len(),
{
    reveal(Seq::filter);
    if ks.len() > 0 {
        lemma_filter_none(ks.drop_last(), p);
    }
}

/// XRANGE without a limit shows exactly the entries whose ids lie between its
/// ends, both included, in the order of their ids.
pub proof fn law_xrange_shows_what_lies_between(
    s: StoreView,
    ns: Seq<u8>,
    key: Seq<u8>,
    version: u64,
    start: EntryId,
    end: EntryId,
)
    requires
        stream_ok(s.subkey, ns, key, version),
        s.subkey.dom().finite(),
        key.len() < 0x1_0000_0000,
        ns.len() <= 255,
    ensures
        ({
            let ks = entry_keys(s.subkey, ns, key, version);
            stream::range_reply(s.subkey, ks, ns, start, end, None) == Ok::<_, ErrorView>(
                RespView::Array(
                    stream::entry_replies(
                        s.subkey,
                        ns,
                        ks.filter(stream::within(ns, start, end)),
                    ),
                ),
            )
        }),
{
    let e = s.subkey;
    let ks = entry_keys(e, ns, key, version);
    let hit = stream::within(ns, start, end);
    let out = stream::behind(ns, end);
    let bad = stream::unreadable(e, ns);
    let stop = stream::stops_at(ks, out, hit, None, 0, 0);
    lemma_stop(ks, out, hit, 0, 0);
    assert forall|j: int| 0 <= j < ks.len() implies !bad(#[trigger] ks[j]) by {
        lemma_entry(e, ns, key, version, j);
    }
    lemma_none_from(ks, bad, 0);
    if stop < ks.len() {
        let read = ks.take(stop + 1);
        let rest = ks.skip(stop + 1);
        assert forall|j: int| 0 <= j < rest.len() implies !hit(#[trigger] rest[j]) by {
            law_entries_ascend(e, ns, key, version, stop, stop + 1 + j);
            lemma_entry(e, ns, key, version, stop);
            lemma_entry(e, ns, key, version, stop + 1 + j);
        }
        lemma_filter_none(rest, hit);
        assert(ks =~= read + rest);
        Seq::filter_distributes_over_add(read, rest, hit);
        assert(ks.filter(hit) =~= read.filter(hit));
    }
}

} // verus!
