//! What holds of reading streams, told by ids and fields: XRANGE shows the
//! entries between two ids, XREAD those behind an id, and both show what XADD
//! was given.

use super::stream;
use super::stream::{EntryId, FieldView};
use super::stream_laws;
use super::stream_laws::{entry_keys, stream_ok};
use super::Moment;
use crate::codec;
use crate::encoding;
use crate::error::ErrorView;
use crate::order;
use crate::protocol::RespView;
use crate::storage::StoreView;
use crate::table::Entries;
use crate::text;
use vstd::prelude::*;

verus! {

/// A key holds a stream that is in order. The key must be shorter than 4 GiB and
/// the namespace at most 255 bytes long.
pub open spec fn stream_there(s: StoreView, ns: Seq<u8>, key: Seq<u8>, now_ms: i64) -> bool {
    &&& key.len() < 0x1_0000_0000
    &&& ns.len() <= 255
    &&& s.subkey.dom().finite()
    &&& stream::stream_meta(s, ns, key, now_ms) is Ok
    &&& stream::stream_meta(s, ns, key, now_ms)->Ok_0 is Some
    &&& stream_ok(s.subkey, ns, key, stream_version(s, ns, key, now_ms))
}

/// The version of the stream of a key.
pub open spec fn stream_version(s: StoreView, ns: Seq<u8>, key: Seq<u8>, now_ms: i64) -> u64 {
    (stream::stream_meta(s, ns, key, now_ms)->Ok_0->0).version
}

/// Where the entry with an id is kept: milliseconds and number, eight bytes each,
/// behind what all entries of the stream begin with.
pub open spec fn entry_key(key: Seq<u8>, version: u64, ns: Seq<u8>, id: (u64, u64)) -> Seq<u8> {
    encoding::subkey_of(
        key,
        version,
        codec::be(id.0 as nat, 8) + codec::be(id.1 as nat, 8),
        ns,
    )
}

/// The fields of the entry with an id; nothing if the stream has none.
pub open spec fn entry_fields(
    e: Entries,
    ns: Seq<u8>,
    key: Seq<u8>,
    version: u64,
    id: (u64, u64),
) -> Option<Seq<FieldView>> {
    let k = entry_key(key, version, ns, id);
    if e.contains_key(k) {
        stream::fields_in(e[k])
    } else {
        None
    }
}

/// The first id comes before the second: in an earlier millisecond, or with a
/// smaller number in the same one.
pub open spec fn earlier(a: (u64, u64), b: (u64, u64)) -> bool {
    a.0 < b.0 || (a.0 == b.0 && a.1 < b.1)
}

/// An entry as it is shown: its id, milliseconds and number in decimal digits
/// with a dash between them, and its fields, each name with its value behind it.
pub open spec fn entry_shown(id: (u64, u64), fields: Seq<FieldView>) -> RespView {
    RespView::Array(
        seq![
            RespView::BulkString(
                Some(text::dec(id.0 as nat) + seq![45u8] + text::dec(id.1 as nat)),
            ),
            RespView::Array(
                Seq::new(
                    2 * fields.len(),
                    |i: int|
                        RespView::BulkString(
                            Some(
                                if i % 2 == 0 {
                                    fields[i / 2].0
                                } else {
                                    fields[i / 2].1
                                },
                            ),
                        ),
                ),
            ),
        ],
    )
}

/// Entries of a stream as they are shown.
pub open spec fn entries_shown(
    e: Entries,
    ns: Seq<u8>,
    key: Seq<u8>,
    version: u64,
    ids: Seq<(u64, u64)>,
) -> Seq<RespView> {
    Seq::new(
        ids.len(),
        |i: int| entry_shown(ids[i], entry_fields(e, ns, key, version, ids[i])->0),
    )
}

/// The ids stand in ascending order.
pub open spec fn ids_ascend(ids: Seq<(u64, u64)>) -> bool {
    forall|i: int, j: int| 0 <= i < j < ids.len() ==> earlier(#[trigger] ids[i], #[trigger] ids[j])
}

/// The first `n` of some ids, or all if there are not so many.
pub open spec fn first_ids(ids: Seq<(u64, u64)>, n: int) -> Seq<(u64, u64)> {
    if n < ids.len() {
        ids.take(n)
    } else {
        ids
    }
}

/// The two numbers of an id.
pub open spec fn pair(id: EntryId) -> (u64, u64) {
    (id.0, id.1)
}

/// The ids of all entries of a stream.
spec fn all_ids(e: Entries, ns: Seq<u8>, key: Seq<u8>, version: u64) -> Seq<(u64, u64)> {
    let ks = entry_keys(e, ns, key, version);
    Seq::new(ks.len(), |i: int| pair(stream::id_of_key(ks[i], ns)->0))
}

#[verifier::rlimit(60)]
proof fn lemma_ids(e: Entries, ns: Seq<u8>, key: Seq<u8>, version: u64)
    requires
        stream_ok(e, ns, key, version),
        e.dom().finite(),
        key.len() < 0x1_0000_0000,
        ns.len() <= 255,
    ensures
        ({
            let ks = entry_keys(e, ns, key, version);
            let ids = all_ids(e, ns, key, version);
            &&& ids_ascend(ids)
            &&& forall|id: (u64, u64)| #[trigger]
                ids.contains(id) <==> entry_fields(e, ns, key, version, id) is Some
            &&& forall|i: int|
                0 <= i < ks.len() ==> {
                    &&& stream::id_of_key(#[trigger] ks[i], ns) == Some(EntryId(ids[i].0, ids[i].1))
                    &&& stream::fields_in(e[ks[i]]) is Some
                    &&& stream::entry_reply(e, ns, ks[i]) == entry_shown(
                        ids[i],
                        entry_fields(e, ns, key, version, ids[i])->0,
                    )
                }
        }),
{
    let p = encoding::sub_prefix(key, version, ns);
    let ks = entry_keys(e, ns, key, version);
    let ids = all_ids(e, ns, key, version);
    crate::table::lemma_runs_listed(e, p, Seq::empty());
    assert forall|i: int| 0 <= i < ks.len() implies {
        &&& stream::id_of_key(#[trigger] ks[i], ns) == Some(EntryId(ids[i].0, ids[i].1))
        &&& ks[i] == entry_key(key, version, ns, ids[i])
        &&& e.contains_key(ks[i])
        &&& stream::fields_in(e[ks[i]]) is Some
        &&& stream::entry_reply(e, ns, ks[i]) == entry_shown(
            ids[i],
            entry_fields(e, ns, key, version, ids[i])->0,
        )
    } by {
        stream_laws::lemma_entry(e, ns, key, version, i);
        assert(crate::table::with_prefix(e, p).contains(ks[i]));
        let fs = stream::fields_in(e[ks[i]])->0;
        let shown = entry_shown(ids[i], fs)->Array_0;
        assert(shown[1]->Array_0 =~= stream::fields_reply(fs));
        assert(stream::entry_reply(e, ns, ks[i])->Array_0 =~= shown);
    }
    assert forall|i: int, j: int| 0 <= i < j < ids.len() implies earlier(
        #[trigger] ids[i],
        #[trigger] ids[j],
    ) by {
        stream_laws::law_entries_ascend(e, ns, key, version, i, j);
        stream_laws::lemma_entry(e, ns, key, version, i);
        stream_laws::lemma_entry(e, ns, key, version, j);
    }
    assert forall|id: (u64, u64)| #[trigger] ids.contains(id) <==> entry_fields(
        e,
        ns,
        key,
        version,
        id,
    ) is Some by {
        let k = entry_key(key, version, ns, id);
        if ids.contains(id) {
            let i = ids.index_of(id);
            assert(stream::id_of_key(ks[i], ns) is Some);
        }
        if e.contains_key(k) {
            let sub = codec::be(id.0 as nat, 8) + codec::be(id.1 as nat, 8);
            order::lemma_prefix_append(p, sub);
            assert(crate::table::with_prefix(e, p).contains(k));
            let i = ks.index_of(k);
            assert(stream::id_of_key(ks[i], ns) is Some);
            encoding::lemma_subkey_injective(
                key,
                version,
                sub,
                codec::be(ids[i].0 as nat, 8) + codec::be(ids[i].1 as nat, 8),
                ns,
            );
            stream::law_id_bytes(EntryId(id.0, id.1), EntryId(ids[i].0, ids[i].1));
            stream::law_id_bytes(EntryId(ids[i].0, ids[i].1), EntryId(id.0, id.1));
            assert(ids[i] == id);
        }
    }
}

/// The first place from which on a property holds that stays once it holds.
proof fn lemma_cut(ks: Seq<Seq<u8>>, p: spec_fn(Seq<u8>) -> bool, i: int)
    requires
        0 <= i <= ks.len(),
        forall|x: int, y: int|
            0 <= x < y < ks.len() && p(#[trigger] ks[x]) ==> p(#[trigger] ks[y]),
    ensures
        i <= order::first_from(ks, p, i) <= ks.len(),
        forall|j: int| i <= j < ks.len() ==> p(#[trigger] ks[j]) == (j >= order::first_from(ks, p, i)),
    decreases ks.len() - i,
{
    if i < ks.len() && !p(ks[i]) {
        lemma_cut(ks, p, i + 1);
    }
}

proof fn lemma_filter_stretch(ks: Seq<Seq<u8>>, p: spec_fn(Seq<u8>) -> bool, x: int, y: int)
    requires
        0 <= x <= y <= ks.len(),
        forall|i: int| 0 <= i < ks.len() ==> p(#[trigger] ks[i]) == (x <= i < y),
    ensures
        ks.filter(p) == ks.subrange(x, y),
    decreases ks.len(),
{
    reveal(Seq::filter);
    if ks.len() > 0 {
        let head = ks.drop_last();
        assert(p(ks.last()) == (x <= ks.len() - 1 < y));
        assert forall|i: int| 0 <= i < head.len() implies p(#[trigger] head[i]) == (x <= i < y) by {
            assert(head[i] == ks[i]);
        }
        if y == ks.len() {
            if x == y {
                lemma_filter_stretch(head, p, x - 1, y - 1);
                assert(head.subrange(x - 1, y - 1) =~= ks.subrange(x, y));
            } else {
                lemma_filter_stretch(head, p, x, y - 1);
                assert(ks.subrange(x, y) =~= head.subrange(x, y - 1).push(ks.last()));
            }
        } else {
            lemma_filter_stretch(head, p, x, y);
            assert(ks.subrange(x, y) =~= head.subrange(x, y));
        }
    } else {
        assert(ks.subrange(x, y) =~= ks);
    }
}

/// Where the reading of a range stops that begins at `x` and ends before `y`.
proof fn lemma_stops(
    ks: Seq<Seq<u8>>,
    out: spec_fn(Seq<u8>) -> bool,
    hit: spec_fn(Seq<u8>) -> bool,
    count: Option<usize>,
    x: int,
    y: int,
    i: int,
    hits: nat,
)
    requires
        0 <= x,
        0 <= y <= ks.len(),
        0 <= i <= y,
        count is Some ==> count->0 > 0,
        forall|j: int| 0 <= j < ks.len() ==> out(#[trigger] ks[j]) == (j >= y),
        forall|j: int| 0 <= j < ks.len() ==> hit(#[trigger] ks[j]) == (x <= j < y),
        hits == (if i > x {
            i - x
        } else {
            0
        }),
        count is Some ==> i < x + count->0,
    ensures
        stream::stops_at(ks, out, hit, count, i, hits) == (if count is Some && x + count->0 <= y {
            x + count->0 - 1
        } else {
            y
        }),
    decreases y - i,
{
    if i < y {
        assert(out(ks[i]) == (i >= y));
        assert(hit(ks[i]) == (x <= i < y));
        if x <= i {
            if !(count is Some && hits + 1 >= count->0) {
                lemma_stops(ks, out, hit, count, x, y, i + 1, hits + 1);
            }
        } else {
            lemma_stops(ks, out, hit, count, x, y, i + 1, hits);
        }
    } else if i < ks.len() {
        assert(out(ks[i]) == (i >= y));
    }
}

/// A range shows the entries with these ids, the first ones if they are counted.
#[verifier::opaque]
spec fn range_shown(
    e: Entries,
    ns: Seq<u8>,
    key: Seq<u8>,
    version: u64,
    first: (u64, u64),
    last: (u64, u64),
    ids: Seq<(u64, u64)>,
    count: Option<usize>,
) -> bool {
    let shown = if count is Some {
        first_ids(ids, count->0 as int)
    } else {
        ids
    };
    stream::range_reply(
        e,
        entry_keys(e, ns, key, version),
        ns,
        EntryId(first.0, first.1),
        EntryId(last.0, last.1),
        count,
    ) == Ok::<_, ErrorView>(RespView::Array(entries_shown(e, ns, key, version, shown)))
}

proof fn lemma_counted(
    s: StoreView,
    ns: Seq<u8>,
    key: Seq<u8>,
    now_ms: i64,
    first: (u64, u64),
    last: (u64, u64),
    ids: Seq<(u64, u64)>,
    count: Option<usize>,
)
    requires
        range_shown(
            s.subkey,
            ns,
            key,
            stream_version(s, ns, key, now_ms),
            first,
            last,
            ids,
            count,
        ),
    ensures
        ({
            let v = stream_version(s, ns, key, now_ms);
            let shown = if count is Some {
                first_ids(ids, count->0 as int)
            } else {
                ids
            };
            stream::range_reply(
                s.subkey,
                entry_keys(s.subkey, ns, key, v),
                ns,
                EntryId(first.0, first.1),
                EntryId(last.0, last.1),
                count,
            ) == Ok::<_, ErrorView>(RespView::Array(entries_shown(s.subkey, ns, key, v, shown)))
        }),
{
    reveal(range_shown);
}

#[verifier::rlimit(60)]
proof fn lemma_range(
    e: Entries,
    ns: Seq<u8>,
    key: Seq<u8>,
    version: u64,
    first: (u64, u64),
    last: (u64, u64),
) -> (ids: Seq<(u64, u64)>)
    requires
        stream_ok(e, ns, key, version),
        e.dom().finite(),
        key.len() < 0x1_0000_0000,
        ns.len() <= 255,
    ensures
        ids_ascend(ids),
        forall|id: (u64, u64)| #[trigger]
            ids.contains(id) <==> entry_fields(e, ns, key, version, id) is Some && !earlier(
                id,
                first,
            ) && !earlier(last, id),
        forall|count: Option<usize>|
            (count is Some ==> count->0 > 0) ==> #[trigger] range_shown(
                e,
                ns,
                key,
                version,
                first,
                last,
                ids,
                count,
            ),
{
    let ks = entry_keys(e, ns, key, version);
    let all = all_ids(e, ns, key, version);
    let start = EntryId(first.0, first.1);
    let end = EntryId(last.0, last.1);
    let hit = stream::within(ns, start, end);
    let out = stream::behind(ns, end);
    let reached = |k: Seq<u8>| !stream::id_lt(stream::id_of_key(k, ns)->0, start);
    let bad = stream::unreadable(e, ns);
    lemma_ids(e, ns, key, version);
    assert forall|i: int| 0 <= i < ks.len() implies !bad(#[trigger] ks[i]) && out(ks[i]) == earlier(
        last,
        all[i],
    ) && reached(ks[i]) == !earlier(all[i], first) && hit(ks[i]) == (!earlier(all[i], first)
        && !earlier(last, all[i])) by {
        assert(stream::id_of_key(ks[i], ns) == Some(EntryId(all[i].0, all[i].1)));
    }
    assert forall|x: int, y: int| 0 <= x < y < ks.len() && out(#[trigger] ks[x]) implies out(
        #[trigger] ks[y],
    ) by {
        assert(earlier(all[x], all[y]));
    }
    assert forall|x: int, y: int| 0 <= x < y < ks.len() && reached(#[trigger] ks[x]) implies reached(
        #[trigger] ks[y],
    ) by {
        assert(earlier(all[x], all[y]));
    }
    lemma_cut(ks, out, 0);
    lemma_cut(ks, reached, 0);
    stream_laws::lemma_none_from(ks, bad, 0);
    let y = order::first_from(ks, out, 0);
    let r = order::first_from(ks, reached, 0);
    let x = if r < y {
        r
    } else {
        y
    };
    let ids = all.subrange(x, y);
    assert forall|i: int, j: int| 0 <= i < j < ids.len() implies earlier(
        #[trigger] ids[i],
        #[trigger] ids[j],
    ) by {
        assert(earlier(all[x + i], all[x + j]));
    }
    assert forall|id: (u64, u64)| #[trigger] ids.contains(id) <==> entry_fields(
        e,
        ns,
        key,
        version,
        id,
    ) is Some && !earlier(id, first) && !earlier(last, id) by {
        if ids.contains(id) {
            let i = ids.index_of(id);
            assert(all[x + i] == id);
            assert(all.contains(id));
            assert(!bad(ks[x + i]));
        }
        if entry_fields(e, ns, key, version, id) is Some && !earlier(id, first) && !earlier(
            last,
            id,
        ) {
            assert(all.contains(id));
            let i = all.index_of(id);
            assert(!bad(ks[i]));
            assert(ids[i - x] == id);
        }
    }
    assert forall|count: Option<usize>| count is Some ==> count->0 > 0 implies {
        #[trigger] range_shown(e, ns, key, version, first, last, ids, count)
    } by {
        let shown = if count is Some {
            first_ids(ids, count->0 as int)
        } else {
            ids
        };
        lemma_stops(ks, out, hit, count, x, y, 0, 0);
        let stop = stream::stops_at(ks, out, hit, count, 0, 0);
        let read = if stop < ks.len() {
            ks.take(stop + 1)
        } else {
            ks
        };
        let upto = x + shown.len();
        assert forall|i: int| 0 <= i < read.len() implies hit(#[trigger] read[i]) == (x <= i < upto) by {
            assert(read[i] == ks[i]);
        }
        lemma_filter_stretch(read, hit, x, upto);
        let found = read.subrange(x, upto);
        let replies = stream::entry_replies(e, ns, found);
        let want = entries_shown(e, ns, key, version, shown);
        assert forall|i: int| 0 <= i < replies.len() implies replies[i] == want[i] by {
            assert(found[i] == ks[x + i]);
            assert(shown[i] == all[x + i]);
        }
        assert(replies =~= want);
        reveal(range_shown);
    }
    ids
}

proof fn lemma_xrange(
    s: StoreView,
    ns: Seq<u8>,
    a: Seq<Seq<u8>>,
    now_ms: i64,
    count: Option<usize>,
)
    requires
        stream::stream_meta(s, ns, a[0], now_ms) is Ok,
        stream::stream_meta(s, ns, a[0], now_ms)->Ok_0 is Some,
        a.len() == 3 && count is None || a.len() == 5 && text::is_word(a[3], "COUNT"@)
            && text::usize_in(a[4]) == count && count is Some,
        stream::bound_in(a[1]) is Some,
        stream::bound_in(a[2]) is Some,
    ensures
        stream::xrange_reply(s, ns, a, now_ms) == (if count == Some(0usize) {
            Ok(RespView::Array(Seq::empty()))
        } else {
            stream::range_reply(
                s.subkey,
                entry_keys(s.subkey, ns, a[0], stream_version(s, ns, a[0], now_ms)),
                ns,
                stream::bound_in(a[1])->0,
                stream::bound_in(a[2])->0,
                count,
            )
        }),
{
}

/// XRANGE shows exactly the entries of a stream whose ids do not come before its
/// first bound and not behind its second one, in ascending order of their ids,
/// each with its fields. COUNT shows the first ones of these, so many at most.
#[verifier::rlimit(60)]
pub proof fn law_xrange(
    s: StoreView,
    ns: Seq<u8>,
    key: Seq<u8>,
    start: Seq<u8>,
    end: Seq<u8>,
    word: Seq<u8>,
    count: Seq<u8>,
    now_ms: i64,
) -> (ids: Seq<(u64, u64)>)
    requires
        stream_there(s, ns, key, now_ms),
        stream::bound_in(start) is Some,
        stream::bound_in(end) is Some,
        text::is_word(word, "COUNT"@),
        text::usize_in(count) is Some,
    ensures
        ids_ascend(ids),
        ({
            let v = stream_version(s, ns, key, now_ms);
            let first = pair(stream::bound_in(start)->0);
            let last = pair(stream::bound_in(end)->0);
            let n = text::usize_in(count)->0 as int;
            &&& forall|id: (u64, u64)| #[trigger]
                ids.contains(id) <==> entry_fields(s.subkey, ns, key, v, id) is Some && !earlier(
                    id,
                    first,
                ) && !earlier(last, id)
            &&& stream::xrange_reply(s, ns, seq![key, start, end], now_ms) == Ok::<_, ErrorView>(
                RespView::Array(entries_shown(s.subkey, ns, key, v, ids)),
            )
            &&& stream::xrange_reply(s, ns, seq![key, start, end, word, count], now_ms) == Ok::<
                _,
                ErrorView,
            >(RespView::Array(entries_shown(s.subkey, ns, key, v, first_ids(ids, n))))
        }),
{
    let v = stream_version(s, ns, key, now_ms);
    let first = pair(stream::bound_in(start)->0);
    let last = pair(stream::bound_in(end)->0);
    let ids = lemma_range(s.subkey, ns, key, v, first, last);
    let a = seq![key, start, end];
    let b = seq![key, start, end, word, count];
    assert(a[0] == key && a[1] == start && a[2] == end);
    assert(b[0] == key && b[1] == start && b[2] == end && b[3] == word && b[4] == count);
    let n = text::usize_in(count)->0;
    lemma_xrange(s, ns, a, now_ms, None);
    lemma_xrange(s, ns, b, now_ms, Some(n));
    let none: Option<usize> = None;
    lemma_counted(s, ns, key, now_ms, first, last, ids, none);
    if n == 0 {
        assert(entries_shown(s.subkey, ns, key, v, first_ids(ids, 0)) =~= Seq::<RespView>::empty());
    } else {
        lemma_counted(s, ns, key, now_ms, first, last, ids, Some(n));
    }
    ids
}

/// What XREAD shows of one stream: nothing at all without entries.
pub open spec fn stream_shown(
    s: StoreView,
    ns: Seq<u8>,
    key: Seq<u8>,
    now_ms: i64,
    ids: Seq<(u64, u64)>,
) -> Seq<RespView> {
    if ids.len() == 0 {
        Seq::empty()
    } else {
        seq![
            RespView::Array(
                seq![
                    RespView::BulkString(Some(key)),
                    RespView::Array(
                        entries_shown(
                            s.subkey,
                            ns,
                            key,
                            stream_version(s, ns, key, now_ms),
                            ids,
                        ),
                    ),
                ],
            ),
        ]
    }
}

#[verifier::rlimit(60)]
proof fn lemma_behind(e: Entries, ns: Seq<u8>, key: Seq<u8>, v: u64, id: EntryId) -> (ids: Seq<
    (u64, u64),
>)
    requires
        stream_ok(e, ns, key, v),
        e.dom().finite(),
        key.len() < 0x1_0000_0000,
        ns.len() <= 255,
    ensures
        ids_ascend(ids),
        forall|other: (u64, u64)| #[trigger]
            ids.contains(other) <==> entry_fields(e, ns, key, v, other) is Some && earlier(
                pair(id),
                other,
            ),
        stream::entries_after(e, ns, entry_keys(e, ns, key, v), id) == Ok::<_, ErrorView>(
            entries_shown(e, ns, key, v, ids),
        ),
{
    let start = pair(id);
    let ks = entry_keys(e, ns, key, v);
    let all = all_ids(e, ns, key, v);
    let hit = stream::after(ns, id);
    let bad = stream::unreadable(e, ns);
    lemma_ids(e, ns, key, v);
    assert forall|i: int| 0 <= i < ks.len() implies !bad(#[trigger] ks[i]) && hit(ks[i]) == earlier(
        start,
        all[i],
    ) by {
        assert(stream::id_of_key(ks[i], ns) == Some(EntryId(all[i].0, all[i].1)));
    }
    assert forall|x: int, y: int| 0 <= x < y < ks.len() && hit(#[trigger] ks[x]) implies hit(
        #[trigger] ks[y],
    ) by {
        assert(earlier(all[x], all[y]));
    }
    lemma_cut(ks, hit, 0);
    stream_laws::lemma_none_from(ks, bad, 0);
    let x = order::first_from(ks, hit, 0);
    lemma_filter_stretch(ks, hit, x, ks.len() as int);
    let ids = all.skip(x);
    assert forall|i: int, j: int| 0 <= i < j < ids.len() implies earlier(
        #[trigger] ids[i],
        #[trigger] ids[j],
    ) by {
        assert(earlier(all[x + i], all[x + j]));
    }
    assert forall|id: (u64, u64)| #[trigger] ids.contains(id) <==> entry_fields(
        e,
        ns,
        key,
        v,
        id,
    ) is Some && earlier(start, id) by {
        if ids.contains(id) {
            let i = ids.index_of(id);
            assert(all[x + i] == id);
            assert(all.contains(id));
            assert(!bad(ks[x + i]));
        }
        if entry_fields(e, ns, key, v, id) is Some && earlier(start, id) {
            assert(all.contains(id));
            let i = all.index_of(id);
            assert(!bad(ks[i]));
            assert(ids[i - x] == id);
        }
    }
    let found = stream::entry_replies(e, ns, ks.filter(hit));
    let want = entries_shown(e, ns, key, v, ids);
    assert(found =~= want) by {
        assert forall|i: int| 0 <= i < found.len() implies found[i] == want[i] by {
            assert(ks.subrange(x, ks.len() as int)[i] == ks[x + i]);
            assert(ids[i] == all[x + i]);
        }
    }
    ids
}

/// XREAD of one stream shows exactly the entries whose ids come behind the given
/// one, in a later millisecond or with a greater number in the same one, in
/// ascending order of their ids, each with its fields. COUNT shows the first ones
/// of these, so many at most.
#[verifier::rlimit(60)]
pub proof fn law_xread(
    s: StoreView,
    ns: Seq<u8>,
    key: Seq<u8>,
    from: Seq<u8>,
    streams_word: Seq<u8>,
    count_word: Seq<u8>,
    count: Seq<u8>,
    now_ms: i64,
) -> (ids: Seq<(u64, u64)>)
    requires
        stream_there(s, ns, key, now_ms),
        stream::read_id_in(from) is Some,
        text::is_word(streams_word, "STREAMS"@),
        text::is_word(count_word, "COUNT"@),
        text::usize_in(count) is Some,
    ensures
        ids_ascend(ids),
        ({
            let v = stream_version(s, ns, key, now_ms);
            let start = pair(stream::read_id_in(from)->0);
            let n = text::usize_in(count)->0 as int;
            &&& forall|id: (u64, u64)| #[trigger]
                ids.contains(id) <==> entry_fields(s.subkey, ns, key, v, id) is Some && earlier(
                    start,
                    id,
                )
            &&& stream::xread_reply(s, ns, seq![streams_word, key, from], now_ms) == Ok::<
                _,
                ErrorView,
            >(RespView::Array(stream_shown(s, ns, key, now_ms, ids)))
            &&& stream::xread_reply(
                s,
                ns,
                seq![count_word, count, streams_word, key, from],
                now_ms,
            ) == Ok::<_, ErrorView>(
                RespView::Array(stream_shown(s, ns, key, now_ms, first_ids(ids, n))),
            )
        }),
{
    let v = stream_version(s, ns, key, now_ms);
    let ids = lemma_behind(s.subkey, ns, key, v, stream::read_id_in(from)->0);
    let a = seq![streams_word, key, from];
    let b = seq![count_word, count, streams_word, key, from];
    let n = text::usize_in(count)->0;
    assert(a[0] == streams_word && a[1] == key && a[2] == from);
    assert(b[0] == count_word && b[1] == count);
    assert(b.skip(2) =~= a);
    assert(!text::is_word(streams_word, "COUNT"@)) by {
        reveal_strlit("STREAMS");
        reveal_strlit("COUNT");
    }
    lemma_one_stream(s, ns, a, now_ms, None);
    lemma_one_stream(s, ns, a, now_ms, Some(n));
    let few = first_ids(ids, n as int);
    let found = entries_shown(s.subkey, ns, key, v, ids);
    assert(stream::limited(found, Some(n)) =~= entries_shown(s.subkey, ns, key, v, few));
    ids
}

/// XREAD of one stream.
proof fn lemma_one_stream(
    s: StoreView,
    ns: Seq<u8>,
    a: Seq<Seq<u8>>,
    now_ms: i64,
    count: Option<usize>,
)
    requires
        a.len() == 3,
        text::is_word(a[0], "STREAMS"@),
        stream::read_id_in(a[2]) is Some,
        stream::stream_meta(s, ns, a[1], now_ms) is Ok,
        stream::stream_meta(s, ns, a[1], now_ms)->Ok_0 is Some,
        ({
            let v = stream_version(s, ns, a[1], now_ms);
            stream::entries_after(
                s.subkey,
                ns,
                entry_keys(s.subkey, ns, a[1], v),
                stream::read_id_in(a[2])->0,
            ) is Ok
        }),
    ensures
        ({
            let v = stream_version(s, ns, a[1], now_ms);
            let found = stream::entries_after(
                s.subkey,
                ns,
                entry_keys(s.subkey, ns, a[1], v),
                stream::read_id_in(a[2])->0,
            )->Ok_0;
            let shown = stream::limited(found, count);
            stream::streams_reply(s, ns, a, now_ms, count) == Ok::<_, ErrorView>(
                RespView::Array(
                    if shown.len() == 0 {
                        Seq::empty()
                    } else {
                        seq![
                            RespView::Array(
                                seq![RespView::BulkString(Some(a[1])), RespView::Array(shown)],
                            ),
                        ]
                    },
                ),
            )
        }),
{
    reveal_with_fuel(stream::streams_read, 2);
    assert(stream::streams_read(s, ns, a, now_ms, count, 1, 0) == Ok::<_, ErrorView>(
        Seq::<RespView>::empty(),
    ));
    let r = stream::streams_reply(s, ns, a, now_ms, count)->Ok_0->Array_0;
    let v = stream_version(s, ns, a[1], now_ms);
    let found = stream::entries_after(
        s.subkey,
        ns,
        entry_keys(s.subkey, ns, a[1], v),
        stream::read_id_in(a[2])->0,
    )->Ok_0;
    let shown = stream::limited(found, count);
    if shown.len() > 0 {
        assert(r =~= seq![
            RespView::Array(seq![RespView::BulkString(Some(a[1])), RespView::Array(shown)]),
        ]);
    }
}

/// The text of an id: milliseconds and number in decimal digits with a dash
/// between them.
pub open spec fn written(id: (u64, u64)) -> Seq<u8> {
    text::dec(id.0 as nat) + seq![45u8] + text::dec(id.1 as nat)
}

proof fn lemma_dash(s: Seq<u8>, i: int, d: int)
    requires
        0 <= i <= d < s.len(),
        s[d] == 45,
        forall|j: int| 0 <= j < d ==> s[j] != 45,
    ensures
        stream::dash_from(s, i) == d,
    decreases d - i,
{
    if i < d {
        assert(s[i] != 45);
        lemma_dash(s, i + 1, d);
    }
}

/// An id that is written as replies write it is read as this id, as the id of a
/// new entry, as a bound of XRANGE and as the id from which XREAD reads. A dash
/// alone is the least bound and a plus sign alone the greatest; milliseconds with
/// a dash behind them are the first id of that millisecond.
pub proof fn law_written_ids(id: (u64, u64))
    ensures
        stream::id_in(written(id)) == Some(EntryId(id.0, id.1)),
        stream::bound_in(written(id)) == Some(EntryId(id.0, id.1)),
        stream::read_id_in(written(id)) == Some(EntryId(id.0, id.1)),
        stream::bound_in(seq![45u8]) == Some(EntryId(0, 0)),
        stream::bound_in(seq![43u8]) == Some(EntryId(u64::MAX, u64::MAX)),
        stream::bound_in(text::dec(id.0 as nat) + seq![45u8]) == Some(EntryId(id.0, 0)),
{
    let s = written(id);
    let (x, y) = (text::dec(id.0 as nat), text::dec(id.1 as nat));
    text::law_decimal_round_trip(id.0 as nat, 0);
    text::law_decimal_round_trip(id.1 as nat, 0);
    text::lemma_dec(id.0 as nat);
    text::lemma_dec(id.1 as nat);
    let d = x.len() as int;
    assert(x.len() > 0 && y.len() > 0);
    assert forall|j: int| 0 <= j < d implies s[j] != 45 by {
        assert(s[j] == x[j]);
        assert(text::is_digit(x[j]));
    }
    assert(s[d] == 45);
    lemma_dash(s, 0, d);
    assert(s.take(d) =~= x);
    assert(s.skip(d + 1) =~= y);
    assert(s.len() >= 3);
    assert(s.last() == y.last());
    assert(text::is_digit(y.last()));
    let b = x + seq![45u8];
    assert(b.drop_last() =~= x);
    assert(seq![45u8].len() == 1 && seq![43u8].len() == 1);
    assert(seq![45u8][0] != seq![43u8][0]);
}

/// XADD adds one entry, with the id that it replies and the fields that it was
/// given, and leaves all other entries as they are. A stream that is made anew,
/// with a version behind all that are stored, has that entry alone.
#[verifier::rlimit(60)]
pub proof fn law_xadd_adds_one_entry(
    s: StoreView,
    ns: Seq<u8>,
    a: Seq<Seq<u8>>,
    at: Moment,
    last: u64,
) -> (id: (u64, u64))
    requires
        stream::xadd_outcome(s, ns, a, at).reply is Ok,
        stream_laws::stream_ready(s, ns, a[0], at, last),
        stream::fields_fit(stream::fields_of(a)),
        s.subkey.dom().finite(),
        a[0].len() < 0x1_0000_0000,
        ns.len() <= 255,
    ensures
        ({
            let o = stream::xadd_outcome(s, ns, a, at);
            let v = stream_version(o.store, ns, a[0], at.now_ms);
            let fields = Seq::new(
                ((a.len() - 2) / 2) as nat,
                |i: int| (a[2 * i + 2], a[2 * i + 3]),
            );
            &&& o.reply == Ok::<_, ErrorView>(RespView::BulkString(Some(written(id))))
            &&& stream_there(o.store, ns, a[0], at.now_ms)
            &&& entry_fields(o.store.subkey, ns, a[0], v, id) == Some(fields)
            &&& stream::stream_meta(s, ns, a[0], at.now_ms)->Ok_0 is Some ==> v == stream_version(
                s,
                ns,
                a[0],
                at.now_ms,
            )
            &&& forall|other: (u64, u64)|
                other != id ==> #[trigger] entry_fields(o.store.subkey, ns, a[0], v, other) == (
                if stream::stream_meta(s, ns, a[0], at.now_ms)->Ok_0 is Some {
                    entry_fields(s.subkey, ns, a[0], v, other)
                } else {
                    None
                })
        }),
{
    let o = stream::xadd_outcome(s, ns, a, at);
    let m = stream_laws::xadd_meta(s, ns, a[0], at);
    let id = pair(stream_laws::xadd_id(s, ns, a, at));
    stream_laws::law_xadd(s, ns, a, at, last);
    stream_laws::lemma_stream_ready(s, ns, a[0], at, last);
    stream::law_fields_round_trip(stream::fields_of(a));
    let new = stream::StreamMeta {
        size: crate::cmd::grown(m.size, 1),
        last_ms: id.0,
        last_seq: id.1,
        ..m
    };
    stream_laws::lemma_meta_after(s, ns, a, at);
    assert(stream::stream_meta(o.store, ns, a[0], at.now_ms) == Ok::<_, ErrorView>(Some(new)));
    let fields = Seq::new(((a.len() - 2) / 2) as nat, |i: int| (a[2 * i + 2], a[2 * i + 3]));
    assert(stream::fields_of(a) =~= fields);
    assert forall|other: (u64, u64)| other != id implies #[trigger] entry_fields(
        o.store.subkey,
        ns,
        a[0],
        m.version,
        other,
    ) == (if stream::stream_meta(s, ns, a[0], at.now_ms)->Ok_0 is Some {
        entry_fields(s.subkey, ns, a[0], m.version, other)
    } else {
        None
    }) by {
        let (p, q) = (EntryId(id.0, id.1), EntryId(other.0, other.1));
        stream::law_id_bytes(p, q);
        stream::law_id_bytes(q, p);
        encoding::lemma_subkey_injective(
            a[0],
            m.version,
            stream::id_bytes(q),
            stream::id_bytes(p),
            ns,
        );
        if stream::stream_meta(s, ns, a[0], at.now_ms)->Ok_0 is None {
            assert(!encoding::elements_of(s.subkey, a[0], at.version, ns).contains(
                stream::id_bytes(q),
            ));
        }
    }
    id
}

/// An id that is written for a new entry is the one that it gets. Directly after
/// an entry was added this works for the ids behind that entry's, and no others:
/// all others are refused and nothing changes.
#[verifier::rlimit(60)]
pub proof fn law_written_ids_must_ascend(
    s: StoreView,
    ns: Seq<u8>,
    a: Seq<Seq<u8>>,
    at: Moment,
    b: Seq<Seq<u8>>,
    later: Moment,
    id: (u64, u64),
    next: (u64, u64),
)
    requires
        stream::xadd_outcome(s, ns, a, at).reply == Ok::<_, ErrorView>(
            RespView::BulkString(Some(written(id))),
        ),
        stream::stream_meta(
            stream::xadd_outcome(s, ns, a, at).store,
            ns,
            a[0],
            later.now_ms,
        )->Ok_0 is Some,
        stream_laws::xadd_meta(s, ns, a[0], at).size < u64::MAX,
        b.len() >= 4,
        b.len() % 2 == 0,
        b[0] == a[0],
        b[1] == written(next),
    ensures
        ({
            let t = stream::xadd_outcome(s, ns, a, at).store;
            let o = stream::xadd_outcome(t, ns, b, later);
            if earlier(id, next) {
                o.reply == Ok::<_, ErrorView>(RespView::BulkString(Some(written(next))))
            } else {
                o.reply is Err && o.store == t
            }
        }),
{
    law_written_ids(id);
    law_written_ids(next);
    stream_laws::lemma_meta_after(s, ns, a, at);
    let t = stream::xadd_outcome(s, ns, a, at).store;
    let got = stream_laws::xadd_id(s, ns, a, at);
    law_written_ids(pair(got));
    assert(written(pair(got)) == written(id));
    assert(got == EntryId(id.0, id.1));
    let w = written(next);
    text::lemma_dec(next.1 as nat);
    assert(w.last() == text::dec(next.1 as nat).last());
    assert(text::is_digit(w.last()));
    assert(w.len() >= 3);
    assert(seq![42u8].len() == 1);
    assert(stream::left_open(w, stream::clock(later.now_ms)) is None);
}

/// An asterisk for the id of a new entry leaves it to the server: the entry gets
/// the milliseconds of the clock and an id that no entry has. Milliseconds with a
/// dash and an asterisk behind them leave the number to the server.
pub proof fn law_ids_left_to_the_server(
    s: StoreView,
    ns: Seq<u8>,
    a: Seq<Seq<u8>>,
    at: Moment,
    last: u64,
    ms: u64,
) -> (id: (u64, u64))
    requires
        stream::xadd_outcome(s, ns, a, at).reply is Ok,
        stream_laws::stream_ready(s, ns, a[0], at, last),
        s.subkey.dom().finite(),
        a[0].len() < 0x1_0000_0000,
        ns.len() <= 255,
        0 <= at.now_ms,
        a[1] == seq![42u8] && ms == at.now_ms || a[1] == text::dec(ms as nat) + seq![45u8, 42u8],
    ensures
        id.0 == ms,
        stream::xadd_outcome(s, ns, a, at).reply == Ok::<_, ErrorView>(
            RespView::BulkString(Some(written(id))),
        ),
        stream::stream_meta(s, ns, a[0], at.now_ms)->Ok_0 is Some ==> entry_fields(
            s.subkey,
            ns,
            a[0],
            stream_version(s, ns, a[0], at.now_ms),
            id,
        ) is None,
{
    let m = stream_laws::xadd_meta(s, ns, a[0], at);
    let id = pair(stream_laws::xadd_id(s, ns, a, at));
    stream_laws::lemma_stream_ready(s, ns, a[0], at, last);
    text::law_decimal_round_trip(ms as nat, 0);
    text::lemma_dec(ms as nat);
    let w = text::dec(ms as nat) + seq![45u8, 42u8];
    assert(w.take(w.len() - 2) =~= text::dec(ms as nat));
    assert(w.len() >= 3 && w[w.len() - 2] == 45 && w[w.len() - 1] == 42);
    assert(seq![42u8].len() == 1);
    stream_laws::law_new_ids_are_free(s.subkey, ns, a[0], a[1], m, stream::clock(at.now_ms));
    id
}

/// The arguments of XREAD for some streams.
pub open spec fn read_args(word: Seq<u8>, keys: Seq<Seq<u8>>, ids: Seq<Seq<u8>>) -> Seq<Seq<u8>> {
    seq![word] + keys + ids
}

/// What one stream more adds to a reply of XREAD.
spec fn stream_step(
    s: StoreView,
    ns: Seq<u8>,
    key: Seq<u8>,
    id: Seq<u8>,
    now_ms: i64,
    count: Option<usize>,
    before: Result<Seq<RespView>, ErrorView>,
) -> Result<Seq<RespView>, ErrorView> {
    match before {
        Err(e) => Err(e),
        Ok(shown) => match stream::read_id_in(id) {
            None => Err(stream::bad_id()),
            Some(start) => match stream::stream_meta(s, ns, key, now_ms) {
                Err(e) => Err(e),
                Ok(None) => Ok(shown),
                Ok(Some(m)) => match stream::entries_after(
                    s.subkey,
                    ns,
                    entry_keys(s.subkey, ns, key, m.version),
                    start,
                ) {
                    Err(e) => Err(e),
                    Ok(found) => if stream::limited(found, count).len() == 0 {
                        Ok(shown)
                    } else {
                        Ok(
                            shown.push(
                                RespView::Array(
                                    seq![
                                        RespView::BulkString(Some(key)),
                                        RespView::Array(stream::limited(found, count)),
                                    ],
                                ),
                            ),
                        )
                    },
                },
            },
        },
    }
}

proof fn lemma_step(
    s: StoreView,
    ns: Seq<u8>,
    a: Seq<Seq<u8>>,
    now_ms: i64,
    count: Option<usize>,
    half: int,
    n: nat,
)
    requires
        n > 0,
    ensures
        same_read(
            stream::streams_read(s, ns, a, now_ms, count, half, n),
            stream_step(
                s,
                ns,
                a[n as int],
                a[half + n],
                now_ms,
                count,
                stream::streams_read(s, ns, a, now_ms, count, half, (n - 1) as nat),
            ),
        ),
{
}

proof fn lemma_streams_same(
    s: StoreView,
    ns: Seq<u8>,
    a: Seq<Seq<u8>>,
    b: Seq<Seq<u8>>,
    now_ms: i64,
    count: Option<usize>,
    x: int,
    y: int,
    n: nat,
)
    requires
        forall|i: int| 1 <= i <= n ==> #[trigger] same_pair(a, b, x, y, i),
    ensures
        same_read(
            stream::streams_read(s, ns, a, now_ms, count, x, n),
            stream::streams_read(s, ns, b, now_ms, count, y, n),
        ),
    decreases n,
{
    let none = Ok::<Seq<RespView>, ErrorView>(Seq::empty());
    if n == 0 {
        assert(same_read(stream::streams_read(s, ns, a, now_ms, count, x, 0), none));
        assert(same_read(stream::streams_read(s, ns, b, now_ms, count, y, 0), none));
    } else {
        let i = n as int;
        assert(same_pair(a, b, x, y, i));
        lemma_streams_same(s, ns, a, b, now_ms, count, x, y, (n - 1) as nat);
        let p = stream::streams_read(s, ns, a, now_ms, count, x, (n - 1) as nat);
        let q = stream::streams_read(s, ns, b, now_ms, count, y, (n - 1) as nat);
        lemma_step(s, ns, a, now_ms, count, x, n);
        lemma_step(s, ns, b, now_ms, count, y, n);
        assert(same_read(
            stream_step(s, ns, a[i], a[x + i], now_ms, count, p),
            stream_step(s, ns, b[i], b[y + i], now_ms, count, q),
        ));
    }
}

/// The key and the id at a place are the same in both lists of arguments.
spec fn same_pair(a: Seq<Seq<u8>>, b: Seq<Seq<u8>>, x: int, y: int, i: int) -> bool {
    a[i] == b[i] && a[x + i] == b[y + i]
}

spec fn same_read(
    x: Result<Seq<RespView>, ErrorView>,
    y: Result<Seq<RespView>, ErrorView>,
) -> bool {
    x == y
}

/// What XREAD of several streams replies is what it replies for all but the last
/// one, and behind that what it replies for the last one.
spec fn joined(
    before: Result<RespView, ErrorView>,
    one: Result<RespView, ErrorView>,
    all: Result<RespView, ErrorView>,
) -> bool {
    match (before, one) {
        (Err(_), _) => all == before,
        (Ok(_), Err(_)) => all == one,
        (Ok(x), Ok(y)) => all == Ok::<_, ErrorView>(RespView::Array(x->Array_0 + y->Array_0)),
    }
}

/// XREAD of several streams, with COUNT or without it, replies what it replies for
/// each of them, one after the other, and fails as it fails for the first one for
/// which it does.
#[verifier::rlimit(60)]
pub proof fn law_xread_goes_stream_by_stream(
    s: StoreView,
    ns: Seq<u8>,
    word: Seq<u8>,
    keys: Seq<Seq<u8>>,
    ids: Seq<Seq<u8>>,
    key: Seq<u8>,
    id: Seq<u8>,
    count_word: Seq<u8>,
    count: Seq<u8>,
    now_ms: i64,
)
    requires
        text::is_word(word, "STREAMS"@),
        text::is_word(count_word, "COUNT"@),
        text::usize_in(count) is Some,
        keys.len() == ids.len(),
        keys.len() > 0,
    ensures
        ({
            let before = stream::xread_reply(s, ns, read_args(word, keys, ids), now_ms);
            let one = stream::xread_reply(s, ns, seq![word, key, id], now_ms);
            let all = stream::xread_reply(
                s,
                ns,
                read_args(word, keys.push(key), ids.push(id)),
                now_ms,
            );
            match (before, one) {
                (Err(_), _) => all == before,
                (Ok(_), Err(_)) => all == one,
                (Ok(x), Ok(y)) => all == Ok::<_, ErrorView>(
                    RespView::Array(x->Array_0 + y->Array_0),
                ),
            }
        }),
        ({
            let c = seq![count_word, count];
            let before = stream::xread_reply(s, ns, c + read_args(word, keys, ids), now_ms);
            let one = stream::xread_reply(s, ns, c + seq![word, key, id], now_ms);
            let all = stream::xread_reply(
                s,
                ns,
                c + read_args(word, keys.push(key), ids.push(id)),
                now_ms,
            );
            match (before, one) {
                (Err(_), _) => all == before,
                (Ok(_), Err(_)) => all == one,
                (Ok(x), Ok(y)) => all == Ok::<_, ErrorView>(
                    RespView::Array(x->Array_0 + y->Array_0),
                ),
            }
        }),
{
    let a = read_args(word, keys, ids);
    let b = read_args(word, keys.push(key), ids.push(id));
    let one = seq![word, key, id];
    let c = seq![count_word, count];
    assert(!text::is_word(word, "COUNT"@)) by {
        reveal_strlit("STREAMS");
        reveal_strlit("COUNT");
    }
    assert(a[0] == word && b[0] == word && one[0] == word);
    lemma_streams_joined(s, ns, word, keys, ids, key, id, now_ms, None);
    lemma_streams_joined(s, ns, word, keys, ids, key, id, now_ms, text::usize_in(count));
    assert((c + a)[0] == count_word && (c + a)[1] == count && (c + a).skip(2) =~= a);
    assert((c + b)[0] == count_word && (c + b)[1] == count && (c + b).skip(2) =~= b);
    assert((c + one)[0] == count_word && (c + one)[1] == count && (c + one).skip(2) =~= one);
}

#[verifier::rlimit(60)]
proof fn lemma_streams_joined(
    s: StoreView,
    ns: Seq<u8>,
    word: Seq<u8>,
    keys: Seq<Seq<u8>>,
    ids: Seq<Seq<u8>>,
    key: Seq<u8>,
    id: Seq<u8>,
    now_ms: i64,
    count: Option<usize>,
)
    requires
        text::is_word(word, "STREAMS"@),
        keys.len() == ids.len(),
        keys.len() > 0,
    ensures
        joined(
            stream::streams_reply(s, ns, read_args(word, keys, ids), now_ms, count),
            stream::streams_reply(s, ns, seq![word, key, id], now_ms, count),
            stream::streams_reply(
                s,
                ns,
                read_args(word, keys.push(key), ids.push(id)),
                now_ms,
                count,
            ),
        ),
{
    let n = keys.len() as int;
    let a = read_args(word, keys, ids);
    let b = read_args(word, keys.push(key), ids.push(id));
    let c = seq![word, key, id];
    assert(a[0] == word && b[0] == word && c[0] == word);
    assert(a.len() == 2 * n + 1 && b.len() == 2 * n + 3);
    assert forall|i: int| 1 <= i <= n implies #[trigger] same_pair(a, b, n, n + 1, i) by {
        assert(a[i] == keys[i - 1] && b[i] == keys[i - 1]);
        assert(a[n + i] == ids[i - 1] && b[n + 1 + i] == ids[i - 1]);
    }
    lemma_streams_same(s, ns, a, b, now_ms, count, n, n + 1, keys.len());
    assert(b[n + 1] == key && b[2 * n + 2] == id);
    assert(c[1] == key && c[2] == id);
    assert((2 * n) / 2 == n && (2 * n + 2) / 2 == n + 1);
    let empty = Seq::<RespView>::empty();
    let x = stream::streams_read(s, ns, b, now_ms, count, n + 1, keys.len());
    let y = stream::streams_read(s, ns, c, now_ms, count, 1, 1);
    let z = stream::streams_read(s, ns, b, now_ms, count, n + 1, keys.len() + 1);
    lemma_step(s, ns, b, now_ms, count, n + 1, keys.len() + 1);
    lemma_step(s, ns, c, now_ms, count, 1, 1);
    assert(stream::streams_read(s, ns, c, now_ms, count, 1, 0) == Ok::<_, ErrorView>(empty));
    if x is Ok && y is Ok {
        assert(z->Ok_0 =~= x->Ok_0 + y->Ok_0);
    }
}

} // verus!
