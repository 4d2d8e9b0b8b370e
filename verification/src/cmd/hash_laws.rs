//! What holds of hashes: HGETALL and HSCAN show every field once, and the
//! size goes on counting the fields.

use super::hash;
use super::laws;
use super::Moment;
use crate::cmd;
use crate::encoding;
use crate::error::ErrorView;
use crate::order;
use crate::protocol::RespView;
use crate::storage::StoreView;
use crate::table;
use crate::table::Entries;
use crate::text;
use crate::types::{DataType, Metadata};
use vstd::prelude::*;
use vstd::utf8;

verus! {

/// The keys of a hash's fields, in order.
pub open spec fn field_keys(e: Entries, ns: Seq<u8>, key: Seq<u8>, version: u64) -> Seq<Seq<u8>> {
    table::keys_with(e, encoding::sub_prefix(key, version, ns))
}

/// The fields of a hash, in order.
pub open spec fn fields(e: Entries, ns: Seq<u8>, key: Seq<u8>, version: u64) -> Seq<Seq<u8>> {
    let ks = field_keys(e, ns, key, version);
    Seq::new(ks.len(), |i: int| encoding::element_in(ks[i], ns))
}

/// The fields with their values, as HGETALL replies them.
pub open spec fn shown(e: Entries, ns: Seq<u8>, key: Seq<u8>, version: u64) -> Seq<RespView> {
    let fs = fields(e, ns, key, version);
    Seq::new(
        2 * fs.len(),
        |i: int|
            if i % 2 == 0 {
                cmd::bulk(Some(fs[i / 2]))
            } else {
                cmd::bulk(Some(e[encoding::subkey_of(key, version, fs[i / 2], ns)]))
            },
    )
}

proof fn lemma_field_key(e: Entries, ns: Seq<u8>, key: Seq<u8>, version: u64, i: int)
    requires
        e.dom().finite(),
        key.len() < 0x1_0000_0000,
        ns.len() <= 255,
        0 <= i < field_keys(e, ns, key, version).len(),
    ensures
        ({
            let k = field_keys(e, ns, key, version)[i];
            &&& e.contains_key(k)
            &&& encoding::subkey_parts(k, ns) is Some
            &&& k == encoding::subkey_of(key, version, encoding::element_in(k, ns), ns)
        }),
{
    let p = encoding::sub_prefix(key, version, ns);
    let k = field_keys(e, ns, key, version)[i];
    table::lemma_runs_listed(e, p, Seq::empty());
    assert(table::with_prefix(e, p).contains(k));
    order::lemma_prefix_split(k, p);
    encoding::law_keys_round_trip(key, version, k.skip(p.len() as int), ns);
}

/// HGETALL shows every field of a hash once with its value, in ascending order
/// of the fields. The key must be shorter than 4 GiB and the namespace at most
/// 255 bytes long.
pub proof fn law_hgetall_shows_every_field(
    s: StoreView,
    ns: Seq<u8>,
    key: Seq<u8>,
    now_ms: i64,
    field: Seq<u8>,
)
    requires
        s.subkey.dom().finite(),
        key.len() < 0x1_0000_0000,
        ns.len() <= 255,
        hash::hash_meta(s, ns, key, now_ms) is Ok,
        hash::hash_meta(s, ns, key, now_ms)->Ok_0 is Some,
    ensures
        ({
            let v = (hash::hash_meta(s, ns, key, now_ms)->Ok_0->0).version;
            let fs = fields(s.subkey, ns, key, v);
            &&& hash::hgetall_reply(s, ns, seq![key], now_ms) == Ok::<_, ErrorView>(
                RespView::Array(shown(s.subkey, ns, key, v)),
            )
            &&& order::ascending(fs)
            &&& fs.contains(field) == s.subkey.contains_key(
                encoding::subkey_of(key, v, field, ns),
            )
        }),
{
    let v = (hash::hash_meta(s, ns, key, now_ms)->Ok_0->0).version;
    let e = s.subkey;
    let p = encoding::sub_prefix(key, v, ns);
    let ks = field_keys(e, ns, key, v);
    let fs = fields(e, ns, key, v);
    table::lemma_runs_listed(e, p, Seq::empty());
    assert forall|i: int| 0 <= i < ks.len() implies encoding::subkey_parts(
        #[trigger] ks[i],
        ns,
    ) is Some by {
        lemma_field_key(e, ns, key, v, i);
    }
    let all = shown(e, ns, key, v);
    assert(hash::field_values(e, ks, ns) =~= all) by {
        assert forall|i: int| 0 <= i < all.len() implies all[i] == hash::field_values(
            e,
            ks,
            ns,
        )[i] by {
            lemma_field_key(e, ns, key, v, i / 2);
        }
    }
    assert(seq![key][0] == key);
    assert forall|i: int, j: int| 0 <= i < j < fs.len() implies order::lt(
        #[trigger] fs[i],
        #[trigger] fs[j],
    ) by {
        lemma_field_key(e, ns, key, v, i);
        lemma_field_key(e, ns, key, v, j);
        assert(order::lt(ks[i], ks[j]));
        order::lemma_lt_common_prefix(p, fs[i], fs[j]);
    }
    if fs.contains(field) {
        let i = fs.index_of(field);
        lemma_field_key(e, ns, key, v, i);
    }
    let k = encoding::subkey_of(key, v, field, ns);
    if e.contains_key(k) {
        order::lemma_prefix_append(p, field);
        assert(table::with_prefix(e, p).contains(k));
        let i = ks.index_of(k);
        encoding::law_keys_round_trip(key, v, field, ns);
        assert(fs[i] == field);
    }
}

proof fn lemma_cursor_is_text(k: Seq<u8>)
    ensures
        utf8::valid_utf8(hash::cursor_text(k)),
{
    let t = hash::cursor_text(k);
    assert forall|i: int| 0 <= i < t.len() implies #[trigger] t[i] < 128 by {
        if k.len() > 0 {
            assert(t[i] == text::hex(k)[i]);
        }
    }
    assert(t.subrange(0, 0) =~= Seq::<u8>::empty());
    assert(utf8::partial_valid_utf8(t, 0)) by {
        reveal_with_fuel(utf8::valid_utf8, 2);
    }
    utf8::partial_valid_utf8_extend_ascii_block(t, 0, t.len() as int);
    assert(t.subrange(t.len() as int, t.len() as int) =~= Seq::<u8>::empty());
    assert(t.subrange(0, t.len() as int) =~= t);
}

/// The position of a scan that has shown `pos` fields.
pub open spec fn scan_position(
    e: Entries,
    ns: Seq<u8>,
    key: Seq<u8>,
    version: u64,
    pos: int,
) -> Seq<u8> {
    hash::cursor_text(table::forward_mark(e, encoding::sub_prefix(key, version, ns), pos))
}

proof fn lemma_rest_of_scan(e: Entries, ns: Seq<u8>, key: Seq<u8>, version: u64, pos: int)
    requires
        e.dom().finite(),
        0 <= pos <= field_keys(e, ns, key, version).len(),
    ensures
        ({
            let p = encoding::sub_prefix(key, version, ns);
            order::ordered(table::run_after(e, p, table::forward_mark(e, p, pos))) == field_keys(
                e,
                ns,
                key,
                version,
            ).skip(pos)
        }),
{
    let p = encoding::sub_prefix(key, version, ns);
    let ks = field_keys(e, ns, key, version);
    encoding::lemma_key_lengths(key, version, ns);
    table::lemma_runs_listed(e, p, Seq::empty());
    if pos > 0 {
        assert(table::with_prefix(e, p).contains(ks[pos - 1]));
        table::law_forward_pages_continue(e, p, Seq::empty(), pos);
    } else {
        assert(ks.skip(0) =~= ks);
    }
}

proof fn lemma_page_shown(
    e: Entries,
    ns: Seq<u8>,
    key: Seq<u8>,
    version: u64,
    pos: int,
    end: int,
)
    requires
        e.dom().finite(),
        key.len() < 0x1_0000_0000,
        ns.len() <= 255,
        0 <= pos <= end <= field_keys(e, ns, key, version).len(),
    ensures
        ({
            let page = field_keys(e, ns, key, version).subrange(pos, end);
            &&& hash::all_parse(page, ns)
            &&& hash::field_values(e, page, ns) == shown(e, ns, key, version).subrange(
                2 * pos,
                2 * end,
            )
        }),
{
    let ks = field_keys(e, ns, key, version);
    let page = ks.subrange(pos, end);
    assert forall|i: int| 0 <= i < page.len() implies encoding::subkey_parts(
        #[trigger] page[i],
        ns,
    ) is Some by {
        lemma_field_key(e, ns, key, version, pos + i);
    }
    let all = shown(e, ns, key, version);
    let part = all.subrange(2 * pos, 2 * end);
    let values = hash::field_values(e, page, ns);
    assert forall|i: int| 0 <= i < part.len() implies part[i] == values[i] by {
        assert((2 * pos + i) / 2 == pos + i / 2);
        assert((2 * pos + i) % 2 == i % 2);
        lemma_field_key(e, ns, key, version, pos + i / 2);
        assert(page[i / 2] == ks[pos + i / 2]);
        assert(part[i] == all[2 * pos + i]);
    }
    assert(part =~= values);
}

/// What HSCAN replies at a position: the next `count` fields, or those that are
/// left, and the position behind them. The position is the start again once all
/// were shown.
pub open spec fn scan_page(
    e: Entries,
    ns: Seq<u8>,
    key: Seq<u8>,
    version: u64,
    pos: int,
    count: int,
) -> RespView {
    let len = field_keys(e, ns, key, version).len() as int;
    let end = scan_end(len, pos, count);
    RespView::Array(
        seq![
            cmd::bulk(
                Some(
                    if end < len {
                        scan_position(e, ns, key, version, end)
                    } else {
                        seq![48u8]
                    },
                ),
            ),
            RespView::Array(shown(e, ns, key, version).subrange(2 * pos, 2 * end)),
        ],
    )
}

/// How many fields a scan has shown after a page from `pos` on.
pub open spec fn scan_end(len: int, pos: int, count: int) -> int {
    if len - pos < count {
        len
    } else {
        pos + count
    }
}

/// HSCAN with any COUNT of at least one, or without it, shows the next fields
/// and the position behind them. So a scan from the start to the start shows
/// every field once with its value, in ascending order, as long as the hash
/// stays as it is; and it comes to its end, for every page shows at least one
/// field more.
pub proof fn law_hscan_walks_over_all_fields(
    s: StoreView,
    ns: Seq<u8>,
    a: Seq<Seq<u8>>,
    now_ms: i64,
    pos: int,
)
    requires
        s.subkey.dom().finite(),
        a.len() >= 2,
        a[0].len() < 0x1_0000_0000,
        ns.len() <= 255,
        hash::scan_count(a) is Ok,
        hash::hash_meta(s, ns, a[0], now_ms) is Ok,
        hash::hash_meta(s, ns, a[0], now_ms)->Ok_0 is Some,
        ({
            let v = (hash::hash_meta(s, ns, a[0], now_ms)->Ok_0->0).version;
            &&& 0 <= pos <= field_keys(s.subkey, ns, a[0], v).len()
            &&& a[1] == scan_position(s.subkey, ns, a[0], v, pos)
        }),
    ensures
        ({
            let v = (hash::hash_meta(s, ns, a[0], now_ms)->Ok_0->0).version;
            let len = field_keys(s.subkey, ns, a[0], v).len() as int;
            let count = hash::scan_count(a)->Ok_0;
            &&& hash::hscan_reply(s, ns, a, now_ms) == Ok::<_, ErrorView>(
                scan_page(s.subkey, ns, a[0], v, pos, count as int),
            )
            &&& count >= 1
            &&& pos < len ==> pos < scan_end(len, pos, count as int) <= len
            &&& scan_end(len, pos, count as int) - pos <= count
        }),
{
    let key = a[0];
    let v = (hash::hash_meta(s, ns, key, now_ms)->Ok_0->0).version;
    let e = s.subkey;
    let ks = field_keys(e, ns, key, v);
    let mark = table::forward_mark(e, encoding::sub_prefix(key, v, ns), pos);
    let count = hash::scan_count(a)->Ok_0;
    let end = scan_end(ks.len() as int, pos, count as int);
    lemma_cursor_is_text(mark);
    hash::law_cursor_round_trip(mark);
    lemma_rest_of_scan(e, ns, key, v, pos);
    lemma_page_shown(e, ns, key, v, pos, end);
    let run = ks.skip(pos);
    let n = table::page_len(run.len(), count as nat) as int;
    assert(run.take(n) =~= ks.subrange(pos, end));
    if end < ks.len() {
        assert(run[n - 1] == ks[end - 1]);
    }
    let next = if end < ks.len() {
        scan_position(e, ns, key, v, end)
    } else {
        seq![48u8]
    };
    let page = table::first_page(e, run, count as nat);
    assert(hash::cursor_text(
        match page.next {
            Some(k) => k,
            None => Seq::empty(),
        },
    ) == next);
    let got = hash::hscan_reply(s, ns, a, now_ms);
    assert(got is Ok);
    assert(got->Ok_0->Array_0 =~= seq![
        cmd::bulk(Some(next)),
        RespView::Array(shown(e, ns, key, v).subrange(2 * pos, 2 * end)),
    ]);
}

/// HSCAN of a key that is not there shows no field and is at its end.
pub proof fn law_hscan_of_no_hash(s: StoreView, ns: Seq<u8>, key: Seq<u8>, now_ms: i64)
    requires
        hash::hash_meta(s, ns, key, now_ms) == Ok::<Option<Metadata>, ErrorView>(None),
    ensures
        hash::hscan_reply(s, ns, seq![key, seq![48u8]], now_ms) == Ok::<_, ErrorView>(
            RespView::Array(seq![cmd::bulk(Some(seq![48u8])), cmd::no_items()]),
        ),
{
    let a = seq![key, seq![48u8]];
    let none = Seq::<u8>::empty();
    assert(a[0] == key && a[1] == seq![48u8]);
    lemma_cursor_is_text(none);
    hash::law_cursor_round_trip(none);
    assert(hash::cursor_text(none) == seq![48u8]);
    let got = hash::hscan_reply(s, ns, a, now_ms);
    assert(got->Ok_0->Array_0 =~= seq![cmd::bulk(Some(seq![48u8])), cmd::no_items()]);
}

/// The fields that a scan shows in `n` pages from the start on.
pub open spec fn scanned(len: int, count: int, n: nat) -> int
    decreases n,
{
    if n == 0 {
        0
    } else {
        scan_end(len, scanned(len, count, (n - 1) as nat), count)
    }
}

/// The pages of a scan put together are what HGETALL shows, and they are
/// complete after as many pages as there are fields.
pub proof fn law_hscan_pages_make_the_whole(
    e: Entries,
    ns: Seq<u8>,
    key: Seq<u8>,
    version: u64,
    count: int,
    n: nat,
)
    requires
        count >= 1,
    ensures
        ({
            let all = shown(e, ns, key, version);
            let len = fields(e, ns, key, version).len() as int;
            let x = scanned(len, count, n);
            let y = scanned(len, count, n + 1);
            &&& 0 <= x <= y <= len
            &&& all.take(2 * x) + all.subrange(2 * x, 2 * y) == all.take(2 * y)
            &&& n >= len ==> x == len && all.take(2 * x) == all
        }),
{
    let len = fields(e, ns, key, version).len() as int;
    lemma_scanned(len, count, n);
    lemma_scanned(len, count, n + 1);
    let all = shown(e, ns, key, version);
    let x = scanned(len, count, n);
    let y = scanned(len, count, n + 1);
    assert(all.take(2 * x) + all.subrange(2 * x, 2 * y) =~= all.take(2 * y));
    if n >= len {
        assert(all.take(2 * x) =~= all);
    }
}

proof fn lemma_scanned(len: int, count: int, n: nat)
    requires
        count >= 1,
        len >= 0,
    ensures
        0 <= scanned(len, count, n) <= len,
        scanned(len, count, n) == len || scanned(len, count, n) >= n,
    decreases n,
{
    if n > 0 {
        lemma_scanned(len, count, (n - 1) as nat);
    }
}

/// What a client has been shown once a scan is at its end: it calls HSCAN with a
/// cursor and the same options behind it, then with the cursor of each reply,
/// until that is `0`. Nothing if a call fails or `calls` calls are not enough.
pub open spec fn scan_from(
    s: StoreView,
    ns: Seq<u8>,
    key: Seq<u8>,
    cursor: Seq<u8>,
    options: Seq<Seq<u8>>,
    now_ms: i64,
    calls: nat,
) -> Option<Seq<RespView>>
    decreases calls,
{
    if calls == 0 {
        None
    } else {
        match hash::hscan_reply(s, ns, seq![key, cursor] + options, now_ms) {
            Ok(RespView::Array(reply)) => match (reply[0], reply[1]) {
                (RespView::BulkString(Some(next)), RespView::Array(page)) => if next == seq![48u8] {
                    Some(page)
                } else {
                    match scan_from(s, ns, key, next, options, now_ms, (calls - 1) as nat) {
                        Some(rest) => Some(page + rest),
                        None => None,
                    }
                },
                _ => None,
            },
            _ => None,
        }
    }
}

/// A scan of a hash from `0` to `0`, with any COUNT, shows what HGETALL shows:
/// every field once with its value, in ascending order. It is at its end after
/// at most as many calls as there are fields, and one call for no fields.
pub proof fn law_hscan_shows_the_whole_hash(
    s: StoreView,
    ns: Seq<u8>,
    key: Seq<u8>,
    options: Seq<Seq<u8>>,
    now_ms: i64,
    calls: nat,
)
    requires
        s.subkey.dom().finite(),
        key.len() < 0x1_0000_0000,
        ns.len() <= 255,
        hash::scan_count(seq![key, seq![48u8]] + options) is Ok,
        hash::hash_meta(s, ns, key, now_ms) is Ok,
        hash::hash_meta(s, ns, key, now_ms)->Ok_0 is Some,
        ({
            let v = (hash::hash_meta(s, ns, key, now_ms)->Ok_0->0).version;
            calls >= 1 && calls >= fields(s.subkey, ns, key, v).len()
        }),
    ensures
        ({
            let v = (hash::hash_meta(s, ns, key, now_ms)->Ok_0->0).version;
            let all = shown(s.subkey, ns, key, v);
            &&& scan_from(s, ns, key, seq![48u8], options, now_ms, calls) == Some(all)
            &&& hash::hgetall_reply(s, ns, seq![key], now_ms) == Ok::<_, ErrorView>(
                RespView::Array(all),
            )
        }),
{
    let v = (hash::hash_meta(s, ns, key, now_ms)->Ok_0->0).version;
    let all = shown(s.subkey, ns, key, v);
    assert(hash::cursor_text(Seq::<u8>::empty()) == seq![48u8]);
    lemma_scan_from(s, ns, key, options, now_ms, 0, calls);
    assert(all.skip(0) =~= all);
    law_hgetall_shows_every_field(s, ns, key, now_ms, Seq::empty());
}

proof fn lemma_scan_from(
    s: StoreView,
    ns: Seq<u8>,
    key: Seq<u8>,
    options: Seq<Seq<u8>>,
    now_ms: i64,
    pos: int,
    calls: nat,
)
    requires
        s.subkey.dom().finite(),
        key.len() < 0x1_0000_0000,
        ns.len() <= 255,
        hash::scan_count(seq![key, seq![48u8]] + options) is Ok,
        hash::hash_meta(s, ns, key, now_ms) is Ok,
        hash::hash_meta(s, ns, key, now_ms)->Ok_0 is Some,
        ({
            let v = (hash::hash_meta(s, ns, key, now_ms)->Ok_0->0).version;
            let len = field_keys(s.subkey, ns, key, v).len();
            0 <= pos <= len && calls >= 1 && calls >= len - pos
        }),
    ensures
        ({
            let v = (hash::hash_meta(s, ns, key, now_ms)->Ok_0->0).version;
            scan_from(
                s,
                ns,
                key,
                scan_position(s.subkey, ns, key, v, pos),
                options,
                now_ms,
                calls,
            ) == Some(shown(s.subkey, ns, key, v).skip(2 * pos))
        }),
    decreases calls,
{
    let v = (hash::hash_meta(s, ns, key, now_ms)->Ok_0->0).version;
    let e = s.subkey;
    let len = field_keys(e, ns, key, v).len() as int;
    let all = shown(e, ns, key, v);
    let first = seq![key, seq![48u8]] + options;
    let a = seq![key, scan_position(e, ns, key, v, pos)] + options;
    assert(first.len() == a.len());
    if a.len() >= 4 {
        assert(a[2] == first[2] && a[3] == first[3]);
    }
    law_hscan_walks_over_all_fields(s, ns, a, now_ms, pos);
    let count = hash::scan_count(a)->Ok_0 as int;
    let end = scan_end(len, pos, count);
    let page = all.subrange(2 * pos, 2 * end);
    if end < len {
        lemma_scan_from(s, ns, key, options, now_ms, end, (calls - 1) as nat);
        assert(page + all.skip(2 * end) =~= all.skip(2 * pos));
        lemma_inner_position(e, ns, key, v, end);
    } else {
        assert(page =~= all.skip(2 * pos));
    }
}

/// A scan that has shown a field is not at the start again.
proof fn lemma_inner_position(e: Entries, ns: Seq<u8>, key: Seq<u8>, version: u64, pos: int)
    requires
        e.dom().finite(),
        0 < pos <= field_keys(e, ns, key, version).len(),
    ensures
        scan_position(e, ns, key, version, pos) != seq![48u8],
{
    let p = encoding::sub_prefix(key, version, ns);
    table::lemma_runs_listed(e, p, Seq::empty());
    let k = field_keys(e, ns, key, version)[pos - 1];
    assert(table::with_prefix(e, p).contains(k));
    assert(k.len() > 0);
    hash::law_cursor_round_trip(k);
    hash::law_cursor_round_trip(Seq::empty());
}

/// The fields that the first `n` pairs of HSET name.
pub open spec fn fields_named(a: Seq<Seq<u8>>, n: nat) -> Set<Seq<u8>>
    decreases n,
{
    if n == 0 {
        Set::empty()
    } else {
        fields_named(a, (n - 1) as nat).insert(a[2 * n - 1])
    }
}

proof fn lemma_fields_added(
    e: Entries,
    ns: Seq<u8>,
    version: u64,
    a: Seq<Seq<u8>>,
    n: nat,
)
    requires
        e.dom().finite(),
    ensures
        ({
            let after = hash::fields_set(e, ns, version, a, n);
            let before = encoding::elements_of(e, a[0], version, ns);
            let now = encoding::elements_of(after, a[0], version, ns);
            &&& after.dom().finite()
            &&& now == before.union(fields_named(a, n))
            &&& now.finite()
            &&& before.finite()
            &&& now.len() == before.len() + hash::missing_fields(e, ns, version, a, n)
        }),
    decreases n,
{
    let none = Seq::<u8>::empty();
    let before = encoding::elements_of(e, a[0], version, ns);
    encoding::lemma_elements(e, a[0], version, ns, none, none);
    if n == 0 {
        assert(before.union(fields_named(a, 0)) =~= before);
    } else {
        lemma_fields_added(e, ns, version, a, (n - 1) as nat);
        let mid = hash::fields_set(e, ns, version, a, (n - 1) as nat);
        let set = encoding::elements_of(mid, a[0], version, ns);
        let field = a[2 * n - 1];
        encoding::lemma_elements(mid, a[0], version, ns, field, a[2 * n as int]);
        assert(set.insert(field) =~= before.union(fields_named(a, n)));
        if set.contains(field) {
            assert(set.insert(field) =~= set);
        }
    }
}

/// HSET makes a hash of the fields that were there and those that are named,
/// replies by how many it grew, and HLEN goes on counting the fields. A hash that
/// is made anew, with a version behind all that are stored, has the named fields
/// alone.
pub proof fn law_hset_counts_the_fields(
    s: StoreView,
    ns: Seq<u8>,
    a: Seq<Seq<u8>>,
    at: Moment,
    last: u64,
)
    requires
        a.len() >= 3 && a.len() % 2 == 1,
        s.subkey.dom().finite(),
        hash::hash_meta(s, ns, a[0], at.now_ms) is Ok,
        hash::hash_meta(s, ns, a[0], at.now_ms)->Ok_0 is None ==> laws::versions_upto(
            s,
            ns,
            a[0],
            last,
        ) && last < at.version,
    ensures
        ({
            let o = hash::hset_outcome(s, ns, a, at);
            let m = hash::hset_meta(s, ns, a[0], at);
            let before = encoding::elements_of(s.subkey, a[0], m.version, ns);
            let after = encoding::elements_of(o.store.subkey, a[0], m.version, ns);
            let size = cmd::grown(m.size, (after.len() - before.len()) as nat);
            &&& hash::hash_meta(s, ns, a[0], at.now_ms)->Ok_0 is None ==> before == Set::<
                Seq<u8>,
            >::empty() && m.size == 0
            &&& after == before.union(fields_named(a, ((a.len() - 1) / 2) as nat))
            &&& after.finite() && before.finite()
            &&& o.reply == Ok::<_, ErrorView>(
                RespView::Integer((after.len() - before.len()) as i64),
            )
            &&& o.store.metadata[encoding::meta_key_of(a[0], ns)] == encoding::metadata_bytes(
                (Metadata { size, ..m }),
            )
            &&& hash::hash_meta(o.store, ns, a[0], at.now_ms) == Ok::<_, ErrorView>(
                Some(Metadata { size, ..m }),
            )
            &&& hash::hlen_reply(o.store, ns, seq![a[0]], at.now_ms) == Ok::<_, ErrorView>(
                cmd::count_reply(size),
            )
            &&& m.size == before.len() && after.len() <= u64::MAX ==> size == after.len()
        }),
{
    if hash::hash_meta(s, ns, a[0], at.now_ms)->Ok_0 is None {
        laws::law_later_versions_are_unused(s, ns, a[0], last, at.version);
    }
    let m = hash::hset_meta(s, ns, a[0], at);
    let n = ((a.len() - 1) / 2) as nat;
    lemma_fields_added(s.subkey, ns, m.version, a, n);
    let o = hash::hset_outcome(s, ns, a, at);
    let before = encoding::elements_of(s.subkey, a[0], m.version, ns);
    let after = encoding::elements_of(o.store.subkey, a[0], m.version, ns);
    let m2 = Metadata { size: cmd::grown(m.size, (after.len() - before.len()) as nat), ..m };
    cmd::lemma_fresh_meta(DataType::Hash, at.version);
    lemma_size_read(s, o.store, ns, a[0], at.now_ms, m2);
    assert(seq![a[0]][0] == a[0]);
}

proof fn lemma_size_read(
    s: StoreView,
    after: StoreView,
    ns: Seq<u8>,
    key: Seq<u8>,
    now_ms: i64,
    m: Metadata,
)
    requires
        hash::hash_meta(s, ns, key, now_ms) is Ok,
        match hash::hash_meta(s, ns, key, now_ms)->Ok_0 {
            Some(was) => m == (Metadata { size: m.size, ..was }),
            None => cmd::well_formed_meta(m, DataType::Hash) && m.expire == 0,
        },
        after.metadata.contains_key(encoding::meta_key_of(key, ns)),
        after.metadata[encoding::meta_key_of(key, ns)] == encoding::metadata_bytes(m),
    ensures
        hash::hash_meta(after, ns, key, now_ms) == Ok::<_, ErrorView>(Some(m)),
{
    if hash::hash_meta(s, ns, key, now_ms)->Ok_0 is Some {
        cmd::lemma_typed_meta_read(
            s,
            ns,
            key,
            now_ms,
            DataType::Hash,
            "invalid metadata encoding"@,
        );
    }
    cmd::lemma_typed_meta_written(
        after,
        ns,
        key,
        m,
        now_ms,
        DataType::Hash,
        "invalid metadata encoding"@,
    );
}

proof fn lemma_fields_gone(
    e: Entries,
    ns: Seq<u8>,
    version: u64,
    a: Seq<Seq<u8>>,
    n: nat,
)
    requires
        e.dom().finite(),
    ensures
        ({
            let after = hash::fields_removed(e, ns, version, a, n);
            let before = encoding::elements_of(e, a[0], version, ns);
            let now = encoding::elements_of(after, a[0], version, ns);
            &&& after.dom().finite()
            &&& now == before.difference(cmd::set::named(a, n))
            &&& now.finite()
            &&& before.finite()
            &&& before.len() == now.len() + hash::present_fields(e, ns, version, a, n)
        }),
    decreases n,
{
    let none = Seq::<u8>::empty();
    let before = encoding::elements_of(e, a[0], version, ns);
    encoding::lemma_elements(e, a[0], version, ns, none, none);
    if n == 0 {
        assert(before.difference(cmd::set::named(a, 0)) =~= before);
    } else {
        lemma_fields_gone(e, ns, version, a, (n - 1) as nat);
        let mid = hash::fields_removed(e, ns, version, a, (n - 1) as nat);
        let set = encoding::elements_of(mid, a[0], version, ns);
        encoding::lemma_elements(mid, a[0], version, ns, a[n as int], none);
        assert(set.remove(a[n as int]) =~= before.difference(cmd::set::named(a, n)));
        if !set.contains(a[n as int]) {
            assert(set.remove(a[n as int]) =~= set);
        }
    }
}

/// HDEL makes a hash of the fields that were there and are not named, replies
/// by how many it shrank, and HLEN goes on counting the fields.
pub proof fn law_hdel_counts_the_fields(s: StoreView, ns: Seq<u8>, a: Seq<Seq<u8>>, now_ms: i64)
    requires
        a.len() >= 2,
        s.subkey.dom().finite(),
        hash::hash_meta(s, ns, a[0], now_ms) is Ok,
        hash::hash_meta(s, ns, a[0], now_ms)->Ok_0 is Some,
    ensures
        ({
            let o = hash::hdel_outcome(s, ns, a, now_ms);
            let m = hash::hash_meta(s, ns, a[0], now_ms)->Ok_0->0;
            let before = encoding::elements_of(s.subkey, a[0], m.version, ns);
            let after = encoding::elements_of(o.store.subkey, a[0], m.version, ns);
            let size = cmd::shrunk(m.size, (before.len() - after.len()) as nat);
            &&& after == before.difference(cmd::set::named(a, (a.len() - 1) as nat))
            &&& after.finite() && before.finite()
            &&& o.reply == Ok::<_, ErrorView>(
                RespView::Integer((before.len() - after.len()) as i64),
            )
            &&& hash::hash_meta(o.store, ns, a[0], now_ms) == Ok::<_, ErrorView>(
                Some(Metadata { size, ..m }),
            )
            &&& hash::hlen_reply(o.store, ns, seq![a[0]], now_ms) == Ok::<_, ErrorView>(
                cmd::count_reply(size),
            )
            &&& m.size == before.len() ==> size == after.len()
        }),
{
    let m = hash::hash_meta(s, ns, a[0], now_ms)->Ok_0->0;
    let n = (a.len() - 1) as nat;
    lemma_fields_gone(s.subkey, ns, m.version, a, n);
    let o = hash::hdel_outcome(s, ns, a, now_ms);
    let deleted = hash::present_fields(s.subkey, ns, m.version, a, n);
    if deleted > 0 {
        let m2 = Metadata { size: cmd::shrunk(m.size, deleted), ..m };
        lemma_size_read(s, o.store, ns, a[0], now_ms, m2);
    }
    assert(seq![a[0]][0] == a[0]);
}

/// The value that HGET replies; nothing if it replies none.
pub open spec fn field_got(
    s: StoreView,
    ns: Seq<u8>,
    key: Seq<u8>,
    field: Seq<u8>,
    now_ms: i64,
) -> Option<Seq<u8>> {
    (hash::hget_reply(s, ns, seq![key, field], now_ms)->Ok_0)->BulkString_0
}

/// HMGET replies for every field what HGET replies for it, in the order of the
/// fields, and HEXISTS whether HGET finds a value.
#[verifier::rlimit(60)]
pub proof fn law_hmget_is_many_hgets(
    s: StoreView,
    ns: Seq<u8>,
    key: Seq<u8>,
    names: Seq<Seq<u8>>,
    now_ms: i64,
)
    requires
        hash::hash_meta(s, ns, key, now_ms) is Ok,
        names.len() > 0,
    ensures
        hash::hmget_reply(s, ns, seq![key] + names, now_ms) == Ok::<_, ErrorView>(
            RespView::Array(
                Seq::new(
                    names.len(),
                    |i: int| hash::hget_reply(s, ns, seq![key, names[i]], now_ms)->Ok_0,
                ),
            ),
        ),
        forall|i: int|
            0 <= i < names.len() ==> hash::hget_reply(
                s,
                ns,
                seq![key, #[trigger] names[i]],
                now_ms,
            ) == Ok::<_, ErrorView>(
                RespView::BulkString(field_got(s, ns, key, names[i], now_ms)),
            ),
        forall|i: int|
            0 <= i < names.len() ==> hash::hexists_reply(
                s,
                ns,
                seq![key, #[trigger] names[i]],
                now_ms,
            ) == Ok::<_, ErrorView>(
                RespView::Integer(
                    if field_got(s, ns, key, names[i], now_ms) is Some {
                        1
                    } else {
                        0
                    },
                ),
            ),
{
    let a = seq![key] + names;
    assert(a[0] == key);
    let want = Seq::new(
        names.len(),
        |i: int| hash::hget_reply(s, ns, seq![key, names[i]], now_ms)->Ok_0,
    );
    assert forall|i: int| 0 <= i < names.len() implies a[i + 1] == names[i] && seq![
        key,
        names[i],
    ][0] == key && seq![key, names[i]][1] == #[trigger] names[i] by {}
    assert((hash::hmget_reply(s, ns, a, now_ms)->Ok_0)->Array_0 =~= want);
}

/// HGETALL replies every field for which HGET finds a value, each once, in
/// ascending order, and behind each the value that HGET replies. HLEN replies how
/// many there are, where the size in the metadata is the number of fields. A key
/// that is not there has none.
#[verifier::rlimit(60)]
pub proof fn law_hgetall_shows_what_hget_gives(
    s: StoreView,
    ns: Seq<u8>,
    key: Seq<u8>,
    now_ms: i64,
) -> (names: Seq<Seq<u8>>)
    requires
        s.subkey.dom().finite(),
        key.len() < 0x1_0000_0000,
        ns.len() <= 255,
        hash::hash_meta(s, ns, key, now_ms) is Ok,
    ensures
        order::ascending(names),
        forall|f: Seq<u8>| #[trigger]
            names.contains(f) <==> field_got(s, ns, key, f, now_ms) is Some,
        hash::hgetall_reply(s, ns, seq![key], now_ms) == Ok::<_, ErrorView>(
            RespView::Array(
                Seq::new(
                    2 * names.len(),
                    |i: int|
                        RespView::BulkString(
                            if i % 2 == 0 {
                                Some(names[i / 2])
                            } else {
                                field_got(s, ns, key, names[i / 2], now_ms)
                            },
                        ),
                ),
            ),
        ),
        ({
            let counted = match hash::hash_meta(s, ns, key, now_ms)->Ok_0 {
                Some(m) => m.size == encoding::elements_of(s.subkey, key, m.version, ns).len()
                    && m.size < 0x8000_0000_0000_0000,
                None => true,
            };
            counted ==> hash::hlen_reply(s, ns, seq![key], now_ms) == Ok::<_, ErrorView>(
                RespView::Integer(names.len() as i64),
            )
        }),
{
    assert(seq![key][0] == key);
    match hash::hash_meta(s, ns, key, now_ms)->Ok_0 {
        None => {
            let names = Seq::<Seq<u8>>::empty();
            let none = Seq::new(
                2 * names.len(),
                |i: int|
                    RespView::BulkString(
                        if i % 2 == 0 {
                            Some(names[i / 2])
                        } else {
                            field_got(s, ns, key, names[i / 2], now_ms)
                        },
                    ),
            );
            assert(none =~= Seq::<RespView>::empty());
            assert forall|f: Seq<u8>| #[trigger] names.contains(f) <==> field_got(
                s,
                ns,
                key,
                f,
                now_ms,
            ) is Some by {
                assert(seq![key, f][1] == f);
            }
            names
        },
        Some(m) => {
            let v = m.version;
            let names = fields(s.subkey, ns, key, v);
            law_hgetall_shows_every_field(s, ns, key, now_ms, Seq::empty());
            assert forall|f: Seq<u8>| #[trigger] names.contains(f) <==> field_got(
                s,
                ns,
                key,
                f,
                now_ms,
            ) is Some by {
                law_hgetall_shows_every_field(s, ns, key, now_ms, f);
                assert(seq![key, f][1] == f);
            }
            let want = Seq::new(
                2 * names.len(),
                |i: int|
                    RespView::BulkString(
                        if i % 2 == 0 {
                            Some(names[i / 2])
                        } else {
                            field_got(s, ns, key, names[i / 2], now_ms)
                        },
                    ),
            );
            let all = shown(s.subkey, ns, key, v);
            assert forall|i: int| 0 <= i < all.len() implies all[i] == want[i] by {
                let f = names[i / 2];
                assert(names.contains(f));
                assert(seq![key, f][1] == f);
            }
            assert(all =~= want);
            let elements = encoding::elements_of(s.subkey, key, v, ns);
            assert forall|f: Seq<u8>| names.to_set().contains(f) == elements.contains(f) by {
                law_hgetall_shows_every_field(s, ns, key, now_ms, f);
            }
            assert(names.to_set() =~= elements);
            assert(names.no_duplicates()) by {
                assert forall|i: int, j: int| 0 <= i < names.len() && 0 <= j < names.len() && i
                    != j implies names[i] != names[j] by {
                    if names[i] == names[j] {
                        order::lemma_ascending_injective(names, i, j);
                    }
                }
            }
            names.unique_seq_to_set();
            names
        },
    }
}

/// HDEL removes the named fields and no others: HGET replies for all other fields
/// what it replied before. Of a key that is not there it removes nothing and
/// replies 0.
#[verifier::rlimit(60)]
pub proof fn law_hdel_leaves_the_other_fields(
    s: StoreView,
    ns: Seq<u8>,
    key: Seq<u8>,
    names: Seq<Seq<u8>>,
    other: Seq<u8>,
    now_ms: i64,
)
    requires
        hash::hash_meta(s, ns, key, now_ms) is Ok,
        names.len() > 0,
    ensures
        ({
            let o = hash::hdel_outcome(s, ns, seq![key] + names, now_ms);
            &&& !names.contains(other) ==> hash::hget_reply(
                o.store,
                ns,
                seq![key, other],
                now_ms,
            ) == hash::hget_reply(s, ns, seq![key, other], now_ms)
            &&& names.contains(other) ==> hash::hget_reply(o.store, ns, seq![key, other], now_ms)
                == Ok::<_, ErrorView>(RespView::BulkString(None))
            &&& hash::hash_meta(s, ns, key, now_ms)->Ok_0 is None ==> o.store == s && o.reply
                == Ok::<_, ErrorView>(RespView::Integer(0))
        }),
{
    let a = seq![key] + names;
    let n = names.len();
    let o = hash::hdel_outcome(s, ns, a, now_ms);
    assert(a[0] == key);
    assert(seq![key, other][0] == key && seq![key, other][1] == other);
    if hash::hash_meta(s, ns, key, now_ms)->Ok_0 is Some {
        let m = hash::hash_meta(s, ns, key, now_ms)->Ok_0->0;
        let deleted = hash::present_fields(s.subkey, ns, m.version, a, n);
        if deleted > 0 {
            let m2 = Metadata { size: cmd::shrunk(m.size, deleted), ..m };
            lemma_size_read(s, o.store, ns, key, now_ms, m2);
        }
        if names.contains(other) {
            let i = names.index_of(other);
            assert(a[i + 1] == other);
            hash::law_hget_after_hdel(s, ns, a, now_ms, i + 1);
        } else {
            assert forall|i: int| 1 <= i <= n implies #[trigger] a[i] != other by {
                assert(a[i] == names[i - 1]);
            }
            lemma_removed_elsewhere(s.subkey, ns, m.version, a, n, other);
        }
    }
}

proof fn lemma_removed_elsewhere(
    e: Entries,
    ns: Seq<u8>,
    version: u64,
    a: Seq<Seq<u8>>,
    n: nat,
    other: Seq<u8>,
)
    requires
        n < a.len(),
        forall|i: int| 1 <= i <= n ==> #[trigger] a[i] != other,
    ensures
        table::lookup(
            hash::fields_removed(e, ns, version, a, n),
            encoding::subkey_of(a[0], version, other, ns),
        ) == table::lookup(e, encoding::subkey_of(a[0], version, other, ns)),
    decreases n,
{
    if n > 0 {
        lemma_removed_elsewhere(e, ns, version, a, (n - 1) as nat, other);
        assert(a[n as int] != other);
        encoding::lemma_subkey_injective(a[0], version, a[n as int], other, ns);
    }
}

/// A hash that HSET makes anew, with a version behind all that are stored, has no
/// other fields than those that are named.
pub proof fn law_new_hash_has_the_named_fields(
    s: StoreView,
    ns: Seq<u8>,
    a: Seq<Seq<u8>>,
    at: Moment,
    other: Seq<u8>,
    last: u64,
)
    requires
        a.len() >= 3 && a.len() % 2 == 1,
        hash::hash_meta(s, ns, a[0], at.now_ms) == Ok::<Option<Metadata>, ErrorView>(None),
        laws::versions_upto(s, ns, a[0], last),
        last < at.version,
        forall|j: int| 1 <= j && 2 * j < a.len() ==> #[trigger] a[2 * j - 1] != other,
    ensures
        hash::hget_reply(
            hash::hset_outcome(s, ns, a, at).store,
            ns,
            seq![a[0], other],
            at.now_ms,
        ) == Ok::<_, ErrorView>(RespView::BulkString(None)),
{
    laws::law_later_versions_are_unused(s, ns, a[0], last, at.version);
    cmd::lemma_fresh_meta(DataType::Hash, at.version);
    let n = ((a.len() - 1) / 2) as int;
    let i = last_named(a, n, a[1]);
    lemma_last_named(a, n, a[1]);
    hash::law_hget_after_hset(s, ns, a, at, i, other, at.now_ms);
    assert(!encoding::elements_of(s.subkey, a[0], at.version, ns).contains(other));
}

/// The last of the first `n` pairs that names a field.
spec fn last_named(a: Seq<Seq<u8>>, n: int, field: Seq<u8>) -> int
    decreases n,
{
    if n <= 1 || a[2 * n - 1] == field {
        n
    } else {
        last_named(a, n - 1, field)
    }
}

proof fn lemma_last_named(a: Seq<Seq<u8>>, n: int, field: Seq<u8>)
    requires
        1 <= n,
        2 * n < a.len(),
        a[1] == field,
    ensures
        1 <= last_named(a, n, field) <= n,
        a[2 * last_named(a, n, field) - 1] == field,
        forall|j: int| last_named(a, n, field) < j <= n ==> #[trigger] a[2 * j - 1] != field,
    decreases n,
{
    if n > 1 && a[2 * n - 1] != field {
        lemma_last_named(a, n - 1, field);
    }
}

/// HSCAN with COUNT replies so many fields, one for 0, and without it ten, as far
/// as there are so many left behind its cursor.
pub proof fn law_hscan_count(
    s: StoreView,
    ns: Seq<u8>,
    key: Seq<u8>,
    word: Seq<u8>,
    count: Seq<u8>,
    now_ms: i64,
    pos: int,
)
    requires
        s.subkey.dom().finite(),
        key.len() < 0x1_0000_0000,
        ns.len() <= 255,
        text::is_word(word, "COUNT"@),
        text::usize_in(count) is Some,
        hash::hash_meta(s, ns, key, now_ms) is Ok,
        hash::hash_meta(s, ns, key, now_ms)->Ok_0 is Some,
        ({
            let v = (hash::hash_meta(s, ns, key, now_ms)->Ok_0->0).version;
            0 <= pos <= fields(s.subkey, ns, key, v).len()
        }),
    ensures
        ({
            let v = (hash::hash_meta(s, ns, key, now_ms)->Ok_0->0).version;
            let cursor = scan_position(s.subkey, ns, key, v, pos);
            let left = fields(s.subkey, ns, key, v).len() - pos;
            let n = text::usize_in(count)->0;
            let plain = hash::hscan_reply(s, ns, seq![key, cursor], now_ms);
            let counted = hash::hscan_reply(s, ns, seq![key, cursor, word, count], now_ms);
            let shown_plain = (((plain->Ok_0)->Array_0)[1])->Array_0;
            let shown_counted = (((counted->Ok_0)->Array_0)[1])->Array_0;
            &&& plain is Ok && counted is Ok
            &&& shown_plain.len() == 2 * (if left < 10 {
                left
            } else {
                10
            })
            &&& shown_counted.len() == 2 * (if n == 0 {
                if left < 1 {
                    left
                } else {
                    1
                }
            } else if left < n {
                left
            } else {
                n as int
            })
        }),
{
    let v = (hash::hash_meta(s, ns, key, now_ms)->Ok_0->0).version;
    let cursor = scan_position(s.subkey, ns, key, v, pos);
    let a = seq![key, cursor];
    let b = seq![key, cursor, word, count];
    assert(a[0] == key && a[1] == cursor);
    assert(b[0] == key && b[1] == cursor && b[2] == word && b[3] == count);
    law_hscan_walks_over_all_fields(s, ns, a, now_ms, pos);
    law_hscan_walks_over_all_fields(s, ns, b, now_ms, pos);
}

} // verus!
