//! What holds of all commands on data: which entries they change, that an error
//! changes none, and that the versions of values are new.

use super::dispatch;
use super::dispatch::DispatchedView;
use super::stream::StreamMeta;
use super::zset::{Floats, ZaddFlags, ZsetState};
use super::{admin, bitmap, hash, list, stream, stream_laws, string, zset, zset_laws};
use super::{CommandContext, Moment, Outcome};
use crate::cmd;
use crate::codec;
use crate::encoding;
use crate::order;
use crate::protocol::RespView;
use crate::storage::{Cf, StoreView};
use crate::table;
use crate::table::Entries;
use crate::text;
use crate::types;
use crate::types::{DataType, Metadata};
use vstd::prelude::*;

verus! {

/// The key is that of a record or an element of one of the user keys `a`.
pub open spec fn names(a: Seq<Seq<u8>>, ns: Seq<u8>, k: Seq<u8>) -> bool {
    exists|i: int|
        0 <= i < a.len() && order::has_prefix(k, encoding::meta_key_of(#[trigger] a[i], ns))
}

/// Only entries of the user keys `a` differ.
pub open spec fn only_named(
    before: Entries,
    after: Entries,
    a: Seq<Seq<u8>>,
    ns: Seq<u8>,
) -> bool {
    forall|k: Seq<u8>|
        !#[trigger] names(a, ns, k) ==> table::lookup(after, k) == table::lookup(before, k)
}

/// In every column family only entries of the user keys `a` differ.
pub open spec fn store_only_named(
    before: StoreView,
    after: StoreView,
    a: Seq<Seq<u8>>,
    ns: Seq<u8>,
) -> bool {
    forall|cf: Cf| only_named(#[trigger] before.at(cf), after.at(cf), a, ns)
}

/// The user keys whose entries a command may change: all arguments of DEL, every
/// other one of MSET, the first two of BITOP, of which the second is the key of
/// its result, and otherwise the first one.
pub open spec fn keys_written(c: Seq<u8>, a: Seq<Seq<u8>>) -> Seq<Seq<u8>> {
    if text::is_word(c, "DEL"@) {
        a
    } else if text::is_word(c, "MSET"@) {
        Seq::new(((a.len() + 1) / 2) as nat, |i: int| a[2 * i])
    } else if text::is_word(c, "BITOP"@) && a.len() >= 2 {
        a.take(2)
    } else if a.len() >= 1 {
        a.take(1)
    } else {
        a
    }
}

/// The key is that of an element of one of the user keys `w`, with a version up
/// to `last`.
pub open spec fn is_element(w: Seq<Seq<u8>>, ns: Seq<u8>, last: u64, k: Seq<u8>) -> bool {
    exists|i: int, v: u64, sub: Seq<u8>|
        0 <= i < w.len() && v <= last && k == #[trigger] encoding::subkey_of(w[i], v, sub, ns)
}

/// The key is that of the record of one of the user keys `w`.
pub open spec fn is_record(w: Seq<Seq<u8>>, ns: Seq<u8>, k: Seq<u8>) -> bool {
    exists|i: int| 0 <= i < w.len() && k == encoding::meta_key_of(#[trigger] w[i], ns)
}

/// The version that a record gives to the elements of its value is at most
/// `last`. The record of a string gives none.
pub open spec fn record_upto(v: Seq<u8>, last: u64) -> bool {
    v.len() >= 17 && types::type_of_flags(v[0]) != Some(DataType::String) ==> encoding::u64_at(
        v,
        9,
    ) <= last
}

/// The record under a key, if there is one, has a version up to `last`.
pub open spec fn stored_upto(e: Entries, k: Seq<u8>, last: u64) -> bool {
    e.contains_key(k) ==> record_upto(e[k], last)
}

/// The records of a user key, in its namespace and in the default one, have
/// versions up to `last`.
pub open spec fn records_upto(s: StoreView, ns: Seq<u8>, key: Seq<u8>, last: u64) -> bool {
    &&& stored_upto(s.metadata, encoding::meta_key_of(key, ns), last)
    &&& stored_upto(s.metadata, encoding::meta_key_of(key, Seq::empty()), last)
}

/// Only elements of the user keys `w` with versions up to `last` differ.
spec fn elements_differ(
    before: Entries,
    after: Entries,
    w: Seq<Seq<u8>>,
    ns: Seq<u8>,
    last: u64,
) -> bool {
    forall|k: Seq<u8>|
        !#[trigger] is_element(w, ns, last, k) ==> table::lookup(after, k) == table::lookup(
            before,
            k,
        )
}

/// Only records of the user keys `w` differ, and those that do have versions up
/// to `last`.
spec fn records_differ(
    before: Entries,
    after: Entries,
    w: Seq<Seq<u8>>,
    ns: Seq<u8>,
    last: u64,
) -> bool {
    forall|k: Seq<u8>|
        {
            let same = table::lookup(after, k) == table::lookup(before, k);
            &&& !#[trigger] is_record(w, ns, k) ==> same
            &&& same || stored_upto(after, k, last)
        }
}

/// A command that fails changes nothing, and one that works changes only
/// records and elements of the user keys `w`, with versions up to `last`.
spec fn tame(o: Option<Outcome>, s: StoreView, w: Seq<Seq<u8>>, ns: Seq<u8>, last: u64) -> bool {
    o is Some ==> {
        let t = o->0.store;
        &&& o->0.reply is Err ==> t == s
        &&& t.general == s.general
        &&& t.pubsub == s.pubsub
        &&& records_differ(s.metadata, t.metadata, w, ns, last)
        &&& elements_differ(s.subkey, t.subkey, w, ns, last)
        &&& elements_differ(s.zset_score, t.zset_score, w, ns, last)
    }
}

proof fn lemma_element(w: Seq<Seq<u8>>, ns: Seq<u8>, last: u64, i: int, version: u64, sub: Seq<u8>)
    requires
        0 <= i < w.len(),
        version <= last,
    ensures
        is_element(w, ns, last, encoding::subkey_of(w[i], version, sub, ns)),
{
}

proof fn lemma_record(w: Seq<Seq<u8>>, ns: Seq<u8>, i: int)
    requires
        0 <= i < w.len(),
    ensures
        is_record(w, ns, encoding::meta_key_of(w[i], ns)),
{
}

/// The versions in the records that commands write.
proof fn lemma_written_records(m: Metadata, sm: StreamMeta, payload: Seq<u8>, expire: i64)
    ensures
        forall|last: u64| m.version <= last ==> #[trigger] record_upto(
            encoding::metadata_bytes(m),
            last,
        ),
        forall|last: u64| sm.version <= last ==> #[trigger] record_upto(
            stream::stream_meta_bytes(sm),
            last,
        ),
        forall|last: u64| #[trigger] record_upto(string::string_record(payload, expire), last),
{
    codec::lemma_pow256_values();
    codec::lemma_be_round_trip(m.version as nat, 8);
    codec::lemma_be_round_trip(sm.version as nat, 8);
    codec::lemma_be_len(codec::to_bits(m.expire as int), 8);
    codec::lemma_be_len(codec::to_bits(sm.expire as int), 8);
    let d = encoding::metadata_bytes(m);
    let b = stream::stream_meta_bytes(sm);
    assert(d.subrange(9, 17) =~= codec::be(m.version as nat, 8));
    assert(b.subrange(9, 17) =~= codec::be(sm.version as nat, 8));
    types::law_flags_round_trip(DataType::String);
    assert(string::string_record(payload, expire)[0] == types::flags_of(DataType::String));
}

/// A record keeps its version with another expiry time.
proof fn lemma_expire_keeps_version(v: Seq<u8>, expire: i64, last: u64)
    requires
        v.len() >= 9,
        record_upto(v, last),
    ensures
        record_upto(string::with_expire(v, expire), last),
{
    codec::lemma_be_len(codec::to_bits(expire as int), 8);
    let w = string::with_expire(v, expire);
    assert(w[0] == v[0]);
    if v.len() >= 17 {
        assert(w.subrange(9, 17) =~= v.subrange(9, 17));
    }
}

proof fn lemma_pairs_set(
    s: StoreView,
    ns: Seq<u8>,
    a: Seq<Seq<u8>>,
    w: Seq<Seq<u8>>,
    n: nat,
    last: u64,
)
    requires
        2 * n <= a.len(),
        forall|i: int| 0 <= i < n ==> is_record(w, ns, encoding::meta_key_of(#[trigger] a[2 * i], ns)),
    ensures
        ({
            let t = string::pairs_set(s, ns, a, n);
            &&& t == (StoreView { metadata: t.metadata, ..s })
            &&& records_differ(s.metadata, t.metadata, w, ns, last)
        }),
    decreases n,
{
    if n > 0 {
        lemma_pairs_set(s, ns, a, w, (n - 1) as nat, last);
        let m = types::fresh_metadata(DataType::Hash, 0);
        lemma_written_records(m, stream::fresh_stream(0), a[2 * n - 1], 0);
        assert(is_record(w, ns, encoding::meta_key_of(a[2 * (n - 1)], ns)));
    }
}

proof fn lemma_keys_deleted(
    s: StoreView,
    ns: Seq<u8>,
    a: Seq<Seq<u8>>,
    now_ms: i64,
    n: nat,
    last: u64,
)
    requires
        n <= a.len(),
    ensures
        ({
            let t = string::keys_deleted(s, ns, a, now_ms, n).0;
            &&& t == (StoreView { metadata: t.metadata, ..s })
            &&& records_differ(s.metadata, t.metadata, a, ns, last)
        }),
    decreases n,
{
    if n > 0 {
        lemma_keys_deleted(s, ns, a, now_ms, (n - 1) as nat, last);
        lemma_record(a, ns, n - 1);
    }
}

proof fn lemma_string_family(
    s: StoreView,
    ns: Seq<u8>,
    c: Seq<u8>,
    a: Seq<Seq<u8>>,
    at: Moment,
    last: u64,
)
    requires
        a.len() > 0 ==> records_upto(s, ns, a[0], last),
    ensures
        tame(dispatch::string_family(s, ns, c, a, at), s, keys_written(c, a), ns, last),
{
    reveal(dispatch::string_family);
    let w = keys_written(c, a);
    if a.len() > 0 {
        assert(w[0] == a[0]);
        lemma_record(w, ns, 0);
    }
    let m = types::fresh_metadata(DataType::Hash, 0);
    assert forall|payload: Seq<u8>, expire: i64|
        record_upto(#[trigger] string::string_record(payload, expire), last) by {
        lemma_written_records(m, stream::fresh_stream(0), payload, expire);
    }
    assert forall|v: Seq<u8>, expire: i64|
        v.len() >= 9 && record_upto(v, last) implies record_upto(
        #[trigger] string::with_expire(v, expire),
        last,
    ) by {
        lemma_expire_keeps_version(v, expire, last);
    }
    if text::is_word(c, "DEL"@) {
        lemma_keys_deleted(s, ns, a, at.now_ms, a.len(), last);
    }
    if text::is_word(c, "MSET"@) && a.len() % 2 == 0 {
        let n = (a.len() / 2) as nat;
        assert forall|i: int| 0 <= i < n implies is_record(
            w,
            ns,
            encoding::meta_key_of(#[trigger] a[2 * i], ns),
        ) by {
            if text::is_word(c, "DEL"@) {
                lemma_record(w, ns, 2 * i);
            } else {
                assert(w[i] == a[2 * i]);
                lemma_record(w, ns, i);
            }
        }
        lemma_pairs_set(s, ns, a, w, n, last);
    }
}

proof fn lemma_fields(
    e: Entries,
    ns: Seq<u8>,
    version: u64,
    a: Seq<Seq<u8>>,
    w: Seq<Seq<u8>>,
    n: nat,
    last: u64,
)
    requires
        w.len() > 0,
        w[0] == a[0],
        version <= last,
    ensures
        elements_differ(e, hash::fields_set(e, ns, version, a, n), w, ns, last),
        elements_differ(e, hash::fields_removed(e, ns, version, a, n), w, ns, last),
    decreases n,
{
    if n > 0 {
        lemma_fields(e, ns, version, a, w, (n - 1) as nat, last);
        lemma_element(w, ns, last, 0, version, a[2 * n - 1]);
        lemma_element(w, ns, last, 0, version, a[n as int]);
    }
}

/// The record that a command writes for a value has the version that it found,
/// or the new one.
proof fn lemma_metadata_written(last: u64)
    ensures
        forall|m: Metadata| m.version <= last ==> record_upto(
            #[trigger] encoding::metadata_bytes(m),
            last,
        ),
        forall|m: StreamMeta| m.version <= last ==> record_upto(
            #[trigger] stream::stream_meta_bytes(m),
            last,
        ),
{
    assert forall|m: Metadata| m.version <= last implies record_upto(
        #[trigger] encoding::metadata_bytes(m),
        last,
    ) by {
        lemma_written_records(m, stream::fresh_stream(0), Seq::empty(), 0);
    }
    assert forall|m: StreamMeta| m.version <= last implies record_upto(
        #[trigger] stream::stream_meta_bytes(m),
        last,
    ) by {
        lemma_written_records(
            types::fresh_metadata(DataType::Hash, 0),
            m,
            Seq::empty(),
            0,
        );
    }
}

proof fn lemma_hash_family(
    s: StoreView,
    ns: Seq<u8>,
    c: Seq<u8>,
    a: Seq<Seq<u8>>,
    at: Moment,
    last: u64,
)
    requires
        at.version <= last,
        a.len() > 0 ==> records_upto(s, ns, a[0], last),
    ensures
        tame(dispatch::hash_family(s, ns, c, a, at), s, keys_written(c, a), ns, last),
{
    reveal(dispatch::hash_family);
    let w = keys_written(c, a);
    if a.len() > 0 {
        assert(w[0] == a[0]);
        lemma_record(w, ns, 0);
        lemma_metadata_written(last);
        assert forall|version: u64, n: nat| version <= last implies elements_differ(
            s.subkey,
            #[trigger] hash::fields_set(s.subkey, ns, version, a, n),
            w,
            ns,
            last,
        ) by {
            lemma_fields(s.subkey, ns, version, a, w, n, last);
        }
        assert forall|version: u64, n: nat| version <= last implies elements_differ(
            s.subkey,
            #[trigger] hash::fields_removed(s.subkey, ns, version, a, n),
            w,
            ns,
            last,
        ) by {
            lemma_fields(s.subkey, ns, version, a, w, n, last);
        }
    }
}

proof fn lemma_pushed(
    e: Entries,
    ns: Seq<u8>,
    m: Metadata,
    a: Seq<Seq<u8>>,
    w: Seq<Seq<u8>>,
    left: bool,
    n: nat,
    last: u64,
)
    requires
        w.len() > 0,
        w[0] == a[0],
        m.version <= last,
    ensures
        elements_differ(e, list::pushed(e, ns, m, a, left, n), w, ns, last),
        elements_differ(e, list::popped_entries(e, m, a[0], ns, left, n), w, ns, last),
    decreases n,
{
    if n > 0 {
        lemma_pushed(e, ns, m, a, w, left, (n - 1) as nat, last);
        lemma_element(
            w,
            ns,
            last,
            0,
            m.version,
            list::index_bytes(list::pushed_index(m, left, n as int) as int),
        );
        lemma_element(
            w,
            ns,
            last,
            0,
            m.version,
            list::index_bytes(list::popped_index(m, left, n - 1) as int),
        );
    }
}

proof fn lemma_list_family(
    s: StoreView,
    ns: Seq<u8>,
    c: Seq<u8>,
    a: Seq<Seq<u8>>,
    at: Moment,
    last: u64,
)
    requires
        at.version <= last,
        a.len() > 0 ==> records_upto(s, ns, a[0], last),
    ensures
        tame(dispatch::list_family(s, ns, c, a, at), s, keys_written(c, a), ns, last),
{
    reveal(dispatch::list_family);
    let w = keys_written(c, a);
    if a.len() > 0 {
        assert(w[0] == a[0]);
        lemma_record(w, ns, 0);
        lemma_metadata_written(last);
        assert forall|m: Metadata, left: bool, n: nat| m.version <= last implies elements_differ(
            s.subkey,
            #[trigger] list::pushed(s.subkey, ns, m, a, left, n),
            w,
            ns,
            last,
        ) by {
            lemma_pushed(s.subkey, ns, m, a, w, left, n, last);
        }
        assert forall|m: Metadata, left: bool, n: nat| m.version <= last implies elements_differ(
            s.subkey,
            #[trigger] list::popped_entries(s.subkey, m, a[0], ns, left, n),
            w,
            ns,
            last,
        ) by {
            lemma_pushed(s.subkey, ns, m, a, w, left, n, last);
        }
    }
}

proof fn lemma_members(
    e: Entries,
    ns: Seq<u8>,
    version: u64,
    b: Seq<Seq<u8>>,
    w: Seq<Seq<u8>>,
    n: nat,
    last: u64,
)
    requires
        w.len() > 0,
        w[0] == b[0],
        version <= last,
    ensures
        elements_differ(e, cmd::set::members_added(e, ns, version, b, n), w, ns, last),
        elements_differ(e, cmd::set::members_removed(e, ns, version, b, n), w, ns, last),
    decreases n,
{
    if n > 0 {
        lemma_members(e, ns, version, b, w, (n - 1) as nat, last);
        lemma_element(w, ns, last, 0, version, b[n as int]);
    }
}

proof fn lemma_set_family(
    s: StoreView,
    ns: Seq<u8>,
    c: Seq<u8>,
    a: Seq<Seq<u8>>,
    at: Moment,
    last: u64,
)
    requires
        at.version <= last,
        a.len() > 0 ==> records_upto(s, ns, a[0], last),
    ensures
        tame(dispatch::set_family(s, ns, c, a, at), s, keys_written(c, a), ns, last),
{
    reveal(dispatch::set_family);
    let w = keys_written(c, a);
    if a.len() > 0 {
        assert(w[0] == a[0]);
        lemma_record(w, ns, 0);
        lemma_metadata_written(last);
        assert forall|version: u64, n: nat| version <= last implies elements_differ(
            s.subkey,
            #[trigger] cmd::set::members_added(s.subkey, ns, version, a, n),
            w,
            ns,
            last,
        ) by {
            lemma_members(s.subkey, ns, version, a, w, n, last);
        }
        assert forall|version: u64, b: Seq<Seq<u8>>, n: nat|
            version <= last && b[0] == a[0] implies elements_differ(
            s.subkey,
            #[trigger] cmd::set::members_removed(s.subkey, ns, version, b, n),
            w,
            ns,
            last,
        ) by {
            lemma_members(s.subkey, ns, version, b, w, n, last);
        }
        assert forall|gone: Seq<Seq<u8>>| (#[trigger] (seq![a[0]] + gone))[0] == a[0] by {}
    }
}

/// Both families of a sorted set differ only in elements of the user keys `w`.
spec fn zset_differs(s: StoreView, st: ZsetState, w: Seq<Seq<u8>>, ns: Seq<u8>, last: u64) -> bool {
    &&& elements_differ(s.subkey, st.subkey, w, ns, last)
    &&& elements_differ(s.zset_score, st.zset_score, w, ns, last)
}

proof fn lemma_member_set(
    s: StoreView,
    st: ZsetState,
    ns: Seq<u8>,
    w: Seq<Seq<u8>>,
    version: u64,
    member: Seq<u8>,
    prior: Option<u64>,
    new: u64,
    last: u64,
)
    requires
        w.len() > 0,
        version <= last,
        zset_differs(s, st, w, ns, last),
    ensures
        zset_differs(
            s,
            zset::member_set(st, ns, w[0], version, member, prior, new),
            w,
            ns,
            last,
        ),
{
    lemma_element(w, ns, last, 0, version, member);
    lemma_element(w, ns, last, 0, version, crate::score::score_bytes(new) + member);
    if prior is Some {
        lemma_element(w, ns, last, 0, version, crate::score::score_bytes(prior->0) + member);
    }
}

proof fn lemma_zset_states(
    s: StoreView,
    ns: Seq<u8>,
    a: Seq<Seq<u8>>,
    w: Seq<Seq<u8>>,
    version: u64,
    f: ZaddFlags,
    u: Seq<(Seq<u8>, u64)>,
    n: nat,
    last: u64,
)
    requires
        w.len() > 0,
        w[0] == a[0],
        version <= last,
    ensures
        zset_differs(s, zset::zadd_state(s, ns, a[0], version, f, u, n), w, ns, last),
        zset_differs(s, zset::zrem_state(s, ns, a, version, n), w, ns, last),
    decreases n,
{
    if n > 0 {
        lemma_zset_states(s, ns, a, w, version, f, u, (n - 1) as nat, last);
        let st = zset::zadd_state(s, ns, a[0], version, f, u, (n - 1) as nat);
        let (member, new) = u[n - 1];
        match zset::old_score(s.subkey, ns, a[0], version, member) {
            Ok(prior) => lemma_member_set(s, st, ns, w, version, member, prior, new, last),
            Err(_) => {},
        }
        let gone = a[n as int];
        let left = zset::zrem_state(s, ns, a, version, (n - 1) as nat);
        lemma_element(w, ns, last, 0, version, gone);
        match zset::old_score(left.subkey, ns, a[0], version, gone) {
            Ok(Some(b)) => lemma_element(
                w,
                ns,
                last,
                0,
                version,
                crate::score::score_bytes(b) + gone,
            ),
            _ => {},
        }
    }
}

proof fn lemma_member_written(
    s: StoreView,
    ns: Seq<u8>,
    w: Seq<Seq<u8>>,
    m: Metadata,
    member: Seq<u8>,
    prior: Option<u64>,
    new: u64,
    last: u64,
)
    requires
        w.len() > 0,
        m.version <= last,
    ensures
        ({
            let t = zset::one_member_written(s, ns, w[0], m, member, prior, new);
            &&& t.general == s.general
            &&& t.pubsub == s.pubsub
            &&& records_differ(s.metadata, t.metadata, w, ns, last)
            &&& elements_differ(s.subkey, t.subkey, w, ns, last)
            &&& elements_differ(s.zset_score, t.zset_score, w, ns, last)
        }),
{
    let st = ZsetState { subkey: s.subkey, zset_score: s.zset_score, added: 0, changed: 0 };
    lemma_member_set(s, st, ns, w, m.version, member, prior, new, last);
    lemma_record(w, ns, 0);
    lemma_metadata_written(last);
}

proof fn lemma_zset_family(
    s: StoreView,
    ns: Seq<u8>,
    c: Seq<u8>,
    a: Seq<Seq<u8>>,
    at: Moment,
    scores: Seq<Option<u64>>,
    sum: u64,
    last: u64,
)
    requires
        at.version <= last,
        a.len() > 0 ==> records_upto(s, ns, a[0], last),
    ensures
        tame(
            dispatch::zset_family(s, ns, c, a, at, scores, sum),
            s,
            keys_written(c, a),
            ns,
            last,
        ),
{
    reveal(dispatch::zset_family);
    let w = keys_written(c, a);
    if a.len() > 0 {
        assert(w[0] == a[0]);
        lemma_record(w, ns, 0);
        lemma_metadata_written(last);
        assert forall|m: Metadata, member: Seq<u8>, prior: Option<u64>, new: u64|
            m.version <= last implies {
            let t = #[trigger] zset::one_member_written(s, ns, a[0], m, member, prior, new);
            &&& t.general == s.general
            &&& t.pubsub == s.pubsub
            &&& records_differ(s.metadata, t.metadata, w, ns, last)
            &&& elements_differ(s.subkey, t.subkey, w, ns, last)
            &&& elements_differ(s.zset_score, t.zset_score, w, ns, last)
        } by {
            lemma_member_written(s, ns, w, m, member, prior, new, last);
        }
        assert forall|version: u64, f: ZaddFlags, u: Seq<(Seq<u8>, u64)>, n: nat|
            version <= last implies zset_differs(
            s,
            #[trigger] zset::zadd_state(s, ns, a[0], version, f, u, n),
            w,
            ns,
            last,
        ) by {
            lemma_zset_states(s, ns, a, w, version, f, u, n, last);
        }
        assert forall|version: u64, n: nat| version <= last implies zset_differs(
            s,
            #[trigger] zset::zrem_state(s, ns, a, version, n),
            w,
            ns,
            last,
        ) by {
            lemma_zset_states(s, ns, a, w, version, zset::no_flags(), Seq::empty(), n, last);
        }
    }
}

proof fn lemma_stream_family(
    s: StoreView,
    ns: Seq<u8>,
    c: Seq<u8>,
    a: Seq<Seq<u8>>,
    at: Moment,
    last: u64,
)
    requires
        at.version <= last,
        a.len() > 0 ==> records_upto(s, ns, a[0], last),
    ensures
        tame(dispatch::stream_family(s, ns, c, a, at), s, keys_written(c, a), ns, last),
{
    reveal(dispatch::stream_family);
    let w = keys_written(c, a);
    if a.len() > 0 {
        assert(w[0] == a[0]);
        lemma_record(w, ns, 0);
        lemma_metadata_written(last);
        assert forall|version: u64, sub: Seq<u8>| version <= last implies is_element(
            w,
            ns,
            last,
            #[trigger] encoding::subkey_of(a[0], version, sub, ns),
        ) by {
            lemma_element(w, ns, last, 0, version, sub);
        }
    }
}

proof fn lemma_result_entries(
    op: bitmap::BitOp,
    e: Entries,
    ns: Seq<u8>,
    a: Seq<Seq<u8>>,
    w: Seq<Seq<u8>>,
    ms: Seq<Option<Metadata>>,
    version: u64,
    n: nat,
    last: u64,
)
    requires
        w.len() > 1,
        w[1] == a[1],
        version <= last,
    ensures
        elements_differ(
            e,
            bitmap::result_entries(op, e, ns, a, ms, version, n),
            w,
            ns,
            last,
        ),
    decreases n,
{
    if n > 0 {
        lemma_result_entries(op, e, ns, a, w, ms, version, (n - 1) as nat, last);
        lemma_element(w, ns, last, 1, version, codec::be((n - 1) as nat, 8));
    }
}

proof fn lemma_bitmap_family(
    s: StoreView,
    ns: Seq<u8>,
    c: Seq<u8>,
    a: Seq<Seq<u8>>,
    at: Moment,
    last: u64,
)
    requires
        at.version <= last,
        a.len() > 0 ==> records_upto(s, ns, a[0], last),
    ensures
        tame(dispatch::bitmap_family(s, ns, c, a, at), s, keys_written(c, a), ns, last),
{
    reveal(dispatch::bitmap_family);
    let w = keys_written(c, a);
    if a.len() > 0 {
        assert(w[0] == a[0]);
        assert forall|version: u64, i: int| version <= last implies is_element(
            w,
            ns,
            last,
            #[trigger] bitmap::fragment_key(a[0], version, i, ns),
        ) by {
            lemma_element(w, ns, last, 0, version, codec::be(i as nat, 8));
        }
        lemma_record(w, ns, 0);
        lemma_metadata_written(last);
    }
    if text::is_word(c, "BITOP"@) && a.len() > 1 {
        reveal_strlit("BITOP");
        reveal_strlit("MSET");
        reveal_strlit("DEL");
        assert(w[1] == a[1]);
        lemma_record(w, ns, 1);
        assert forall|op: bitmap::BitOp, ms: Seq<Option<Metadata>>, n: nat|
            elements_differ(
                s.subkey,
                #[trigger] bitmap::result_entries(op, s.subkey, ns, a, ms, at.version, n),
                w,
                ns,
                last,
            ) by {
            lemma_result_entries(op, s.subkey, ns, a, w, ms, at.version, n, last);
        }
    }
}

/// What a command on data does to the store, unless it flushes it.
proof fn lemma_tame(
    s: StoreView,
    ns: Seq<u8>,
    c: Seq<u8>,
    a: Seq<Seq<u8>>,
    at: Moment,
    scores: Seq<Option<u64>>,
    sum: u64,
    last: u64,
)
    requires
        !flushes(c),
        at.version <= last,
        forall|i: int|
            0 <= i < keys_written(c, a).len() ==> records_upto(
                s,
                ns,
                #[trigger] keys_written(c, a)[i],
                last,
            ),
    ensures
        tame(
            dispatch::data_outcome(s, ns, c, a, at, scores, sum),
            s,
            keys_written(c, a),
            ns,
            last,
        ),
{
    if a.len() > 0 {
        assert(keys_written(c, a)[0] == a[0]);
    }
    lemma_string_family(s, ns, c, a, at, last);
    lemma_hash_family(s, ns, c, a, at, last);
    lemma_list_family(s, ns, c, a, at, last);
    lemma_set_family(s, ns, c, a, at, last);
    lemma_zset_family(s, ns, c, a, at, scores, sum, last);
    lemma_stream_family(s, ns, c, a, at, last);
    lemma_bitmap_family(s, ns, c, a, at, last);
    reveal(dispatch::store_family);
}

proof fn lemma_tame_names(s: StoreView, o: Outcome, w: Seq<Seq<u8>>, ns: Seq<u8>, last: u64)
    requires
        tame(Some(o), s, w, ns, last),
    ensures
        store_only_named(s, o.store, w, ns),
{
    assert forall|k: Seq<u8>| #[trigger] is_element(w, ns, last, k) implies names(w, ns, k) by {
        let (i, v, sub) = choose|i: int, v: u64, sub: Seq<u8>|
            0 <= i < w.len() && v <= last && k == #[trigger] encoding::subkey_of(w[i], v, sub, ns);
        let p = encoding::meta_key_of(w[i], ns);
        let t = codec::be(v as nat, 8) + sub;
        order::lemma_prefix_append(p, t);
        assert(k =~= p + t);
    }
    assert forall|k: Seq<u8>| #[trigger] is_record(w, ns, k) implies names(w, ns, k) by {
        let i = choose|i: int|
            0 <= i < w.len() && k == encoding::meta_key_of(#[trigger] w[i], ns);
        order::lemma_prefix_append(k, Seq::empty());
        assert(k + Seq::<u8>::empty() =~= k);
    }
    assert forall|cf: Cf| only_named(#[trigger] s.at(cf), o.store.at(cf), w, ns) by {
        assert forall|k: Seq<u8>| !#[trigger] names(w, ns, k) implies table::lookup(
            o.store.at(cf),
            k,
        ) == table::lookup(s.at(cf), k) by {
            assert(!is_element(w, ns, last, k));
            assert(!is_record(w, ns, k));
        }
    }
}

/// A command that removes keys that it does not name.
pub open spec fn flushes(c: Seq<u8>) -> bool {
    text::is_word(c, "FLUSHDB"@) || text::is_word(c, "FLUSHALL"@)
}

/// A command on data that replies an error has changed nothing. One that works
/// has changed at most entries of the user keys that it writes, unless it is
/// FLUSHDB or FLUSHALL.
pub proof fn law_commands_change_what_they_name(
    s: StoreView,
    ns: Seq<u8>,
    c: Seq<u8>,
    a: Seq<Seq<u8>>,
    at: Moment,
    scores: Seq<Option<u64>>,
    sum: u64,
)
    requires
        dispatch::data_outcome(s, ns, c, a, at, scores, sum) is Some,
    ensures
        ({
            let o = dispatch::data_outcome(s, ns, c, a, at, scores, sum)->0;
            &&& o.reply is Err ==> o.store == s
            &&& !flushes(c) ==> store_only_named(s, o.store, keys_written(c, a), ns)
            &&& text::is_word(c, "FLUSHDB"@) ==> o.store == admin::flushed(s, ns)
            &&& text::is_word(c, "FLUSHALL"@) ==> o.store == admin::emptied(s)
        }),
{
    let o = dispatch::data_outcome(s, ns, c, a, at, scores, sum)->0;
    if flushes(c) {
        reveal(dispatch::store_family);
        lemma_flush_is_no_string_command(s, ns, c, a, at);
        reveal_strlit("FLUSHDB");
        reveal_strlit("FLUSHALL");
        reveal_strlit("DBSIZE");
    } else {
        lemma_tame(s, ns, c, a, at, scores, sum, u64::MAX);
        lemma_tame_names(s, o, keys_written(c, a), ns, u64::MAX);
    }
}

proof fn lemma_flush_is_no_string_command(
    s: StoreView,
    ns: Seq<u8>,
    c: Seq<u8>,
    a: Seq<Seq<u8>>,
    at: Moment,
)
    requires
        flushes(c),
    ensures
        dispatch::string_family(s, ns, c, a, at) is None,
{
    reveal(dispatch::string_family);
    reveal_strlit("FLUSHDB");
    reveal_strlit("FLUSHALL");
    reveal_strlit("GET");
    reveal_strlit("SET");
    reveal_strlit("MGET");
    reveal_strlit("MSET");
    reveal_strlit("DEL");
    reveal_strlit("EXISTS");
    reveal_strlit("INCR");
    reveal_strlit("DECR");
    reveal_strlit("APPEND");
    reveal_strlit("TTL");
    reveal_strlit("PTTL");
    reveal_strlit("EXPIRE");
    reveal_strlit("PERSIST");
    assert(!text::is_word(c, "PERSIST"@)) by {
        if text::is_word(c, "PERSIST"@) {
            assert(text::upper(c[0]) as int == 'F' as int);
            assert(text::upper(c[0]) as int == 'P' as int);
        }
    }
}

/// The entries of different user keys have nothing in common.
pub(crate) proof fn lemma_keys_apart(ns: Seq<u8>, key: Seq<u8>, t: Seq<u8>, other: Seq<u8>)
    requires
        key.len() < 0x1_0000_0000,
        other.len() < 0x1_0000_0000,
        order::has_prefix(
            encoding::meta_key_of(key, ns) + t,
            encoding::meta_key_of(other, ns),
        ),
    ensures
        key == other,
{
    let d = encoding::meta_key_of(key, ns) + t;
    let p = encoding::meta_key_of(other, ns);
    let n = encoding::ns_prefix(ns).len() as int;
    let x = key.len() % 0x1_0000_0000;
    let y = other.len() % 0x1_0000_0000;
    codec::lemma_be_len(x, 4);
    codec::lemma_be_len(y, 4);
    reveal_with_fuel(codec::pow256, 5);
    assert forall|i: int| 0 <= i < p.len() implies d[i] == p[i] by {
        assert(d.subrange(0, p.len() as int)[i] == d[i]);
    }
    assert(codec::be(x, 4) =~= codec::be(y, 4)) by {
        assert forall|i: int| 0 <= i < 4 implies codec::be(x, 4)[i] == codec::be(y, 4)[i] by {
            assert(d[n + i] == codec::be(x, 4)[i]);
            assert(p[n + i] == codec::be(y, 4)[i]);
        }
    }
    codec::lemma_be_injective(x, y, 4);
    assert(key =~= other) by {
        assert forall|i: int| 0 <= i < key.len() implies key[i] == other[i] by {
            assert(d[n + 4 + i] == key[i]);
            assert(p[n + 4 + i] == other[i]);
        }
    }
}

/// All keys of a list are shorter than `n`.
pub open spec fn keys_shorter(w: Seq<Seq<u8>>, n: int) -> bool {
    forall|i: int| 0 <= i < w.len() ==> (#[trigger] w[i]).len() < n
}

/// A command leaves the records and elements of all keys that it does not write
/// as they are. Keys must be shorter than 4 GiB.
pub proof fn law_other_keys_stay(
    s: StoreView,
    ns: Seq<u8>,
    c: Seq<u8>,
    a: Seq<Seq<u8>>,
    at: Moment,
    scores: Seq<Option<u64>>,
    sum: u64,
    key: Seq<u8>,
    t: Seq<u8>,
    cf: Cf,
)
    requires
        dispatch::data_outcome(s, ns, c, a, at, scores, sum) is Some,
        !flushes(c),
        key.len() < 0x1_0000_0000,
        keys_shorter(keys_written(c, a), 0x1_0000_0000),
        !keys_written(c, a).contains(key),
    ensures
        ({
            let o = dispatch::data_outcome(s, ns, c, a, at, scores, sum)->0;
            let k = encoding::meta_key_of(key, ns) + t;
            table::lookup(o.store.at(cf), k) == table::lookup(s.at(cf), k)
        }),
{
    law_commands_change_what_they_name(s, ns, c, a, at, scores, sum);
    let o = dispatch::data_outcome(s, ns, c, a, at, scores, sum)->0;
    let k = encoding::meta_key_of(key, ns) + t;
    let w = keys_written(c, a);
    assert(only_named(s.at(cf), o.store.at(cf), w, ns));
    if names(w, ns, k) {
        let i = choose|i: int|
            0 <= i < w.len() && order::has_prefix(k, encoding::meta_key_of(#[trigger] w[i], ns));
        lemma_keys_apart(ns, key, t, w[i]);
    }
}

pub(crate) proof fn lemma_meta_in_namespace(key: Seq<u8>, ns: Seq<u8>, k: Seq<u8>)
    requires
        order::has_prefix(k, encoding::meta_key_of(key, ns)),
    ensures
        order::has_prefix(k, encoding::ns_prefix(ns)),
{
    let p = encoding::ns_prefix(ns);
    let m = encoding::meta_key_of(key, ns);
    assert(k.subrange(0, m.len() as int).subrange(0, p.len() as int) =~= p);
    assert(k.subrange(0, p.len() as int) =~= p);
}

/// A command in one namespace leaves the records and elements of all other
/// namespaces as they are, but for FLUSHALL. In the default namespace this is
/// so but for FLUSHDB, too. Namespaces must fit in 255 bytes; keys of the
/// default namespace must be shorter than 16 MiB.
pub proof fn law_namespaces_are_separate(
    s: StoreView,
    ns: Seq<u8>,
    c: Seq<u8>,
    a: Seq<Seq<u8>>,
    at: Moment,
    scores: Seq<Option<u64>>,
    sum: u64,
    other: Seq<u8>,
    key: Seq<u8>,
    t: Seq<u8>,
    cf: Cf,
)
    requires
        dispatch::data_outcome(s, ns, c, a, at, scores, sum) is Some,
        ns != other,
        ns.len() <= 255,
        other.len() <= 255,
        other.len() == 0 ==> key.len() < 0x100_0000,
        !text::is_word(c, "FLUSHALL"@),
        ns.len() == 0 ==> !text::is_word(c, "FLUSHDB"@),
        ns.len() == 0 ==> keys_shorter(keys_written(c, a), 0x100_0000),
    ensures
        ({
            let o = dispatch::data_outcome(s, ns, c, a, at, scores, sum)->0;
            let k = encoding::meta_key_of(key, other) + t;
            table::lookup(o.store.at(cf), k) == table::lookup(s.at(cf), k)
        }),
{
    law_commands_change_what_they_name(s, ns, c, a, at, scores, sum);
    let o = dispatch::data_outcome(s, ns, c, a, at, scores, sum)->0;
    let k = encoding::meta_key_of(key, other) + t;
    if ns.len() > 0 {
        encoding::law_namespaces_do_not_mix(key, t, other, ns);
    }
    let w = keys_written(c, a);
    if store_only_named(s, o.store, w, ns) {
        assert(only_named(s.at(cf), o.store.at(cf), w, ns));
        if names(w, ns, k) {
            let i = choose|i: int|
                0 <= i < w.len() && order::has_prefix(
                    k,
                    encoding::meta_key_of(#[trigger] w[i], ns),
                );
            if ns.len() > 0 {
                lemma_meta_in_namespace(w[i], ns, k);
            } else {
                if other.len() == 0 {
                    assert(ns =~= other);
                }
                let m = encoding::meta_key_of(w[i], ns);
                let rest = k.skip(m.len() as int);
                order::lemma_prefix_split(k, m);
                encoding::law_namespaces_do_not_mix(w[i], rest, ns, other);
                assert(order::has_prefix(k, encoding::meta_key_of(key, other))) by {
                    order::lemma_prefix_append(encoding::meta_key_of(key, other), t);
                }
                lemma_meta_in_namespace(key, other, k);
            }
        }
    }
}

/// After FLUSHDB the namespace has no keys, and all entries outside the
/// namespace are as they were.
pub proof fn law_flushdb(s: StoreView, ns: Seq<u8>, now_ms: i64, k: Seq<u8>, cf: Cf)
    requires
        s.metadata.dom().finite(),
    ensures
        admin::dbsize_reply(admin::flushed(s, ns), ns, now_ms) == RespView::Integer(0),
        !order::has_prefix(k, encoding::ns_prefix(ns)) ==> table::lookup(
            admin::flushed(s, ns).at(cf),
            k,
        ) == table::lookup(s.at(cf), k),
        order::has_prefix(k, encoding::ns_prefix(ns)) && (cf == Cf::Metadata || cf == Cf::Subkey
            || cf == Cf::ZsetScore) ==> table::lookup(admin::flushed(s, ns).at(cf), k) is None,
{
    let p = encoding::ns_prefix(ns);
    let after = admin::flushed(s, ns).metadata;
    assert(after.dom().subset_of(s.metadata.dom()));
    vstd::set_lib::lemma_set_subset_finite(s.metadata.dom(), after.dom());
    table::lemma_runs_listed(after, p, Seq::empty());
    let ks = table::keys_with(after, p);
    if ks.len() > 0 {
        assert(table::with_prefix(after, p).contains(ks[0]));
    }
}

/// After FLUSHALL no namespace has a key.
pub proof fn law_flushall(s: StoreView, ns: Seq<u8>, now_ms: i64)
    ensures
        admin::dbsize_reply(admin::emptied(s), ns, now_ms) == RespView::Integer(0),
{
    let p = encoding::ns_prefix(ns);
    let after = admin::emptied(s).metadata;
    table::lemma_runs_listed(after, p, Seq::empty());
    let ks = table::keys_with(after, p);
    if ks.len() > 0 {
        assert(table::with_prefix(after, p).contains(ks[0]));
    }
}

/// All elements of a user key have versions up to `last`.
pub open spec fn elements_upto(e: Entries, ns: Seq<u8>, key: Seq<u8>, last: u64) -> bool {
    forall|v: u64, sub: Seq<u8>| #[trigger]
        e.contains_key(encoding::subkey_of(key, v, sub, ns)) ==> v <= last
}

/// Nothing that is stored for a user key has a version behind `last`, neither
/// its elements nor its records.
pub open spec fn versions_upto(s: StoreView, ns: Seq<u8>, key: Seq<u8>, last: u64) -> bool {
    &&& elements_upto(s.subkey, ns, key, last)
    &&& elements_upto(s.zset_score, ns, key, last)
    &&& records_upto(s, ns, key, last)
}

/// A version behind all that are stored is unused: no element of the key has it,
/// so that a value of any type that is made anew with it starts out empty.
pub proof fn law_later_versions_are_unused(
    s: StoreView,
    ns: Seq<u8>,
    key: Seq<u8>,
    last: u64,
    version: u64,
)
    requires
        versions_upto(s, ns, key, last),
        last < version,
    ensures
        encoding::elements_of(s.subkey, key, version, ns) == Set::<Seq<u8>>::empty(),
        encoding::elements_of(s.zset_score, key, version, ns) == Set::<Seq<u8>>::empty(),
        zset_laws::zset_ok(s.subkey, s.zset_score, ns, key, version),
        list::list_ok(s.subkey, ns, key, types::fresh_metadata(DataType::List, version)),
        stream_laws::stream_ok(s.subkey, ns, key, version),
{
    assert(encoding::elements_of(s.subkey, key, version, ns) =~= Set::<Seq<u8>>::empty());
    assert(encoding::elements_of(s.zset_score, key, version, ns) =~= Set::<Seq<u8>>::empty());
    cmd::lemma_fresh_meta(DataType::List, version);
    let m = types::fresh_metadata(DataType::List, version);
    assert(list::numbers(m) =~= Set::<Seq<u8>>::empty());
}

/// An element of a user key tells its key and its version.
proof fn lemma_element_version(
    w: Seq<Seq<u8>>,
    ns: Seq<u8>,
    last: u64,
    key: Seq<u8>,
    v: u64,
    sub: Seq<u8>,
)
    requires
        is_element(w, ns, last, encoding::subkey_of(key, v, sub, ns)),
        key.len() < 0x1_0000_0000,
        keys_shorter(w, 0x1_0000_0000),
    ensures
        v <= last,
{
    let k = encoding::subkey_of(key, v, sub, ns);
    let (i, x, other) = choose|i: int, x: u64, other: Seq<u8>|
        0 <= i < w.len() && x <= last && k == #[trigger] encoding::subkey_of(w[i], x, other, ns);
    let p = encoding::meta_key_of(key, ns);
    let q = encoding::meta_key_of(w[i], ns);
    let t = codec::be(v as nat, 8) + sub;
    let u = codec::be(x as nat, 8) + other;
    assert(k =~= p + t);
    assert(k =~= q + u);
    order::lemma_prefix_append(q, u);
    lemma_keys_apart(ns, key, t, w[i]);
    codec::lemma_pow256_values();
    codec::lemma_be_len(v as nat, 8);
    codec::lemma_be_len(x as nat, 8);
    let n = p.len() as int;
    assert(k.subrange(n, n + 8) =~= codec::be(v as nat, 8));
    assert(k.subrange(n, n + 8) =~= codec::be(x as nat, 8));
    codec::lemma_be_injective(v as nat, x as nat, 8);
}

proof fn lemma_elements_stay_upto(
    before: Entries,
    after: Entries,
    w: Seq<Seq<u8>>,
    ns: Seq<u8>,
    key: Seq<u8>,
    last: u64,
    version: u64,
)
    requires
        elements_differ(before, after, w, ns, version),
        elements_upto(before, ns, key, last),
        last <= version,
        key.len() < 0x1_0000_0000,
        keys_shorter(w, 0x1_0000_0000),
    ensures
        elements_upto(after, ns, key, version),
{
    assert forall|v: u64, sub: Seq<u8>| #[trigger]
        after.contains_key(encoding::subkey_of(key, v, sub, ns)) implies v <= version by {
        let k = encoding::subkey_of(key, v, sub, ns);
        if is_element(w, ns, version, k) {
            lemma_element_version(w, ns, version, key, v, sub);
        } else {
            assert(table::lookup(after, k) == table::lookup(before, k));
            assert(before.contains_key(k));
        }
    }
}

/// Records that are there still, or have versions up to `version`.
proof fn lemma_records_stay_upto(
    before: StoreView,
    after: StoreView,
    w: Seq<Seq<u8>>,
    ns: Seq<u8>,
    k: Seq<u8>,
    last: u64,
    version: u64,
)
    requires
        records_differ(before.metadata, after.metadata, w, ns, version),
        stored_upto(before.metadata, k, last),
        last <= version,
    ensures
        stored_upto(after.metadata, k, version),
{
    let same = table::lookup(after.metadata, k) == table::lookup(before.metadata, k);
    if is_record(w, ns, k) {
        assert(same || stored_upto(after.metadata, k, version));
    }
    if same {
        if after.metadata.contains_key(k) {
            assert(before.metadata.contains_key(k));
            assert(after.metadata[k] == before.metadata[k]);
        }
    }
}

/// What is gone has no version.
proof fn lemma_fewer_versions(
    s: StoreView,
    t: StoreView,
    ns: Seq<u8>,
    key: Seq<u8>,
    last: u64,
    version: u64,
)
    requires
        t.metadata.submap_of(s.metadata),
        t.subkey.submap_of(s.subkey),
        t.zset_score.submap_of(s.zset_score),
        versions_upto(s, ns, key, last),
        last <= version,
    ensures
        versions_upto(t, ns, key, version),
{
    assert forall|v: u64, sub: Seq<u8>| #[trigger]
        t.subkey.contains_key(encoding::subkey_of(key, v, sub, ns)) implies v <= version by {
        assert(s.subkey.dom().contains(encoding::subkey_of(key, v, sub, ns)));
    }
    assert forall|v: u64, sub: Seq<u8>| #[trigger]
        t.zset_score.contains_key(encoding::subkey_of(key, v, sub, ns)) implies v <= version by {
        assert(s.zset_score.dom().contains(encoding::subkey_of(key, v, sub, ns)));
    }
    let own = encoding::meta_key_of(key, ns);
    let default = encoding::meta_key_of(key, Seq::empty());
    if t.metadata.contains_key(own) {
        assert(s.metadata.dom().contains(own));
        assert(s.metadata[own] == t.metadata[own]);
    }
    if t.metadata.contains_key(default) {
        assert(s.metadata.dom().contains(default));
        assert(s.metadata[default] == t.metadata[default]);
    }
}

/// The records of all keys that a command writes have versions up to `last`.
pub open spec fn written_upto(
    s: StoreView,
    ns: Seq<u8>,
    c: Seq<u8>,
    a: Seq<Seq<u8>>,
    last: u64,
) -> bool {
    forall|i: int|
        0 <= i < keys_written(c, a).len() ==> records_upto(
            s,
            ns,
            #[trigger] keys_written(c, a)[i],
            last,
        )
}

proof fn lemma_written_later(
    s: StoreView,
    ns: Seq<u8>,
    c: Seq<u8>,
    a: Seq<Seq<u8>>,
    last: u64,
    version: u64,
)
    requires
        written_upto(s, ns, c, a, last),
        last <= version,
    ensures
        written_upto(s, ns, c, a, version),
{
    let w = keys_written(c, a);
    assert forall|i: int| 0 <= i < w.len() implies records_upto(s, ns, #[trigger] w[i], version) by {
        assert(records_upto(s, ns, w[i], last));
    }
}

/// The version of a moment behind all that are stored is unused, and the
/// command that runs at that moment stores no version behind it: so the next
/// version is unused, too. This holds for every key of the namespace, and
/// whatever the command is. Keys must be shorter than 4 GiB.
pub proof fn law_new_versions_are_unused(
    s: StoreView,
    ns: Seq<u8>,
    c: Seq<u8>,
    a: Seq<Seq<u8>>,
    at: Moment,
    scores: Seq<Option<u64>>,
    sum: u64,
    key: Seq<u8>,
    last: u64,
)
    requires
        dispatch::data_outcome(s, ns, c, a, at, scores, sum) is Some,
        versions_upto(s, ns, key, last),
        written_upto(s, ns, c, a, last),
        last < at.version,
        key.len() < 0x1_0000_0000,
        keys_shorter(keys_written(c, a), 0x1_0000_0000),
    ensures
        versions_upto(
            dispatch::data_outcome(s, ns, c, a, at, scores, sum)->0.store,
            ns,
            key,
            at.version,
        ),
        encoding::elements_of(s.subkey, key, at.version, ns) == Set::<Seq<u8>>::empty(),
        encoding::elements_of(s.zset_score, key, at.version, ns) == Set::<Seq<u8>>::empty(),
        zset_laws::zset_ok(s.subkey, s.zset_score, ns, key, at.version),
        list::list_ok(s.subkey, ns, key, types::fresh_metadata(DataType::List, at.version)),
        stream_laws::stream_ok(s.subkey, ns, key, at.version),
{
    law_later_versions_are_unused(s, ns, key, last, at.version);
    let o = dispatch::data_outcome(s, ns, c, a, at, scores, sum)->0;
    let t = o.store;
    if flushes(c) {
        law_commands_change_what_they_name(s, ns, c, a, at, scores, sum);
        lemma_fewer_versions(s, t, ns, key, last, at.version);
    } else {
        let w = keys_written(c, a);
        lemma_written_later(s, ns, c, a, last, at.version);
        lemma_tame(s, ns, c, a, at, scores, sum, at.version);
        lemma_elements_stay_upto(s.subkey, t.subkey, w, ns, key, last, at.version);
        lemma_elements_stay_upto(s.zset_score, t.zset_score, w, ns, key, last, at.version);
        let own = encoding::meta_key_of(key, ns);
        let default = encoding::meta_key_of(key, Seq::empty());
        lemma_records_stay_upto(s, t, w, ns, own, last, at.version);
        lemma_records_stay_upto(s, t, w, ns, default, last, at.version);
    }
}

/// Nothing that is stored in a namespace has a version behind `last`.
pub open spec fn namespace_upto(s: StoreView, ns: Seq<u8>, last: u64) -> bool {
    forall|key: Seq<u8>| key.len() < 0x1_0000_0000 ==> #[trigger] versions_upto(s, ns, key, last)
}

/// A command on data with the moment and the floating point work that it takes.
pub struct Step {
    pub name: Seq<u8>,
    pub args: Seq<Seq<u8>>,
    pub at: Moment,
    pub scores: Seq<Option<u64>>,
    pub sum: u64,
}

/// What a command does to a store.
pub open spec fn step_done(s: StoreView, ns: Seq<u8>, x: Step) -> Option<Outcome> {
    dispatch::data_outcome(s, ns, x.name, x.args, x.at, x.scores, x.sum)
}

/// The store after the first `n` commands of a list, run in a namespace one
/// after the other.
pub open spec fn steps_done(s: StoreView, ns: Seq<u8>, xs: Seq<Step>, n: nat) -> StoreView
    decreases n,
{
    if n == 0 {
        s
    } else {
        let before = steps_done(s, ns, xs, (n - 1) as nat);
        match step_done(before, ns, xs[n - 1]) {
            Some(o) => o.store,
            None => before,
        }
    }
}

/// The last version after the first `n` commands.
pub open spec fn version_after(xs: Seq<Step>, first: u64, n: nat) -> u64 {
    if n == 0 {
        first
    } else {
        xs[n - 1].at.version
    }
}

/// The versions of the moments ascend, from `first` on, as those do that are
/// handed out; and the keys that are written are shorter than 4 GiB.
pub open spec fn steps_ascend(xs: Seq<Step>, first: u64) -> bool {
    forall|i: int|
        0 <= i < xs.len() ==> version_after(xs, first, i as nat) < (#[trigger] xs[i]).at.version
            && keys_shorter(keys_written(xs[i].name, xs[i].args), 0x1_0000_0000)
}

/// Whatever commands ran in a namespace, every version that is handed out is
/// unused when it comes: nothing that is stored has it or a greater one.
pub proof fn law_every_version_is_new(
    s: StoreView,
    ns: Seq<u8>,
    xs: Seq<Step>,
    first: u64,
    n: nat,
)
    requires
        namespace_upto(s, ns, first),
        steps_ascend(xs, first),
        n <= xs.len(),
    ensures
        namespace_upto(steps_done(s, ns, xs, n), ns, version_after(xs, first, n)),
        n < xs.len() ==> version_after(xs, first, n) < xs[n as int].at.version,
    decreases n,
{
    if n > 0 {
        let last = version_after(xs, first, (n - 1) as nat);
        law_every_version_is_new(s, ns, xs, first, (n - 1) as nat);
        let x = xs[n - 1];
        let before = steps_done(s, ns, xs, (n - 1) as nat);
        let after = steps_done(s, ns, xs, n);
        assert(last < x.at.version);
        assert forall|key: Seq<u8>| key.len() < 0x1_0000_0000 implies #[trigger] versions_upto(
            after,
            ns,
            key,
            x.at.version,
        ) by {
            assert(versions_upto(before, ns, key, last));
            if step_done(before, ns, x) is Some {
                lemma_all_written(before, ns, x.name, x.args, last);
                law_new_versions_are_unused(
                    before,
                    ns,
                    x.name,
                    x.args,
                    x.at,
                    x.scores,
                    x.sum,
                    key,
                    last,
                );
            } else {
                lemma_fewer_versions(before, after, ns, key, last, x.at.version);
            }
        }
    }
    if n < xs.len() {
        assert(version_after(xs, first, n) < xs[n as int].at.version);
    }
}

proof fn lemma_all_written(s: StoreView, ns: Seq<u8>, c: Seq<u8>, a: Seq<Seq<u8>>, last: u64)
    requires
        namespace_upto(s, ns, last),
        keys_shorter(keys_written(c, a), 0x1_0000_0000),
    ensures
        written_upto(s, ns, c, a, last),
{
    let w = keys_written(c, a);
    assert forall|i: int| 0 <= i < w.len() implies records_upto(s, ns, #[trigger] w[i], last) by {
        assert(versions_upto(s, ns, w[i], last));
    }
}

/// A user key whose entries cannot be taken for those of another namespace: the
/// namespace fits in 255 bytes, and the key is shorter than 4 GiB, or than
/// 16 MiB in the default namespace.
pub open spec fn proper_key(ns: Seq<u8>, key: Seq<u8>) -> bool {
    ns.len() <= 255 && key.len() < (if ns.len() == 0 {
        0x100_0000int
    } else {
        0x1_0000_0000int
    })
}

/// All keys that a command writes are proper.
pub open spec fn writes_proper_keys(ns: Seq<u8>, c: Seq<u8>, a: Seq<Seq<u8>>) -> bool {
    forall|i: int|
        0 <= i < keys_written(c, a).len() ==> proper_key(ns, #[trigger] keys_written(c, a)[i])
}

/// A command in one namespace stores no version behind that of its moment in
/// another one.
pub proof fn law_versions_of_other_namespaces(
    s: StoreView,
    ns: Seq<u8>,
    c: Seq<u8>,
    a: Seq<Seq<u8>>,
    at: Moment,
    scores: Seq<Option<u64>>,
    sum: u64,
    other: Seq<u8>,
    key: Seq<u8>,
    last: u64,
)
    requires
        dispatch::data_outcome(s, ns, c, a, at, scores, sum) is Some,
        ns != other,
        ns.len() <= 255,
        proper_key(other, key),
        writes_proper_keys(ns, c, a),
        versions_upto(s, other, key, last),
        written_upto(s, ns, c, a, last),
        last <= at.version,
    ensures
        versions_upto(
            dispatch::data_outcome(s, ns, c, a, at, scores, sum)->0.store,
            other,
            key,
            at.version,
        ),
{
    let t = dispatch::data_outcome(s, ns, c, a, at, scores, sum)->0.store;
    if flushes(c) {
        law_commands_change_what_they_name(s, ns, c, a, at, scores, sum);
        lemma_fewer_versions(s, t, other, key, last, at.version);
    } else {
        let w = keys_written(c, a);
        assert(ns.len() == 0 ==> keys_shorter(w, 0x100_0000));
        assert forall|v: u64, sub: Seq<u8>, cf: Cf|
            table::lookup(t.at(cf), #[trigger] encoding::subkey_of(key, v, sub, other))
                == table::lookup(#[trigger] s.at(cf), encoding::subkey_of(key, v, sub, other)) by {
            let tail = codec::be(v as nat, 8) + sub;
            law_namespaces_are_separate(
                s,
                ns,
                c,
                a,
                at,
                scores,
                sum,
                other,
                key,
                tail,
                cf,
            );
            assert(encoding::subkey_of(key, v, sub, other) =~= encoding::meta_key_of(key, other)
                + tail);
        }
        assert forall|v: u64, sub: Seq<u8>| #[trigger]
            t.subkey.contains_key(encoding::subkey_of(key, v, sub, other)) implies v
            <= at.version by {
            let k = encoding::subkey_of(key, v, sub, other);
            assert(table::lookup(t.at(Cf::Subkey), k) == table::lookup(s.at(Cf::Subkey), k));
            assert(s.subkey.contains_key(k));
        }
        assert forall|v: u64, sub: Seq<u8>| #[trigger]
            t.zset_score.contains_key(encoding::subkey_of(key, v, sub, other)) implies v
            <= at.version by {
            let k = encoding::subkey_of(key, v, sub, other);
            assert(table::lookup(t.at(Cf::ZsetScore), k) == table::lookup(s.at(Cf::ZsetScore), k));
            assert(s.zset_score.contains_key(k));
        }
        lemma_written_later(s, ns, c, a, last, at.version);
        lemma_tame(s, ns, c, a, at, scores, sum, at.version);
        let own = encoding::meta_key_of(key, other);
        let default = encoding::meta_key_of(key, Seq::empty());
        lemma_records_stay_upto(s, t, w, ns, own, last, at.version);
        lemma_records_stay_upto(s, t, w, ns, default, last, at.version);
    }
}

/// Nothing that is stored has a version behind `last`, whatever the namespace.
pub open spec fn store_upto(s: StoreView, last: u64) -> bool {
    forall|ns: Seq<u8>, key: Seq<u8>|
        proper_key(ns, key) ==> #[trigger] versions_upto(s, ns, key, last)
}

/// Every command that is dispatched at a moment behind all versions that are
/// stored leaves none behind that moment's: so if all versions that are stored
/// were handed out, the next one that is handed out is unused again.
pub proof fn law_dispatched_versions_are_new(
    before: CommandContext,
    after: CommandContext,
    c: Seq<u8>,
    a: Seq<Seq<u8>>,
    at: Moment,
    floats: Floats,
    r: DispatchedView,
    last: u64,
)
    requires
        dispatch::dispatched(before, after, c, a, at, floats, r),
        store_upto(before.storage@, last),
        last < at.version,
        before.namespace@.len() <= 255,
        writes_proper_keys(before.namespace@, c, a),
    ensures
        store_upto(after.storage@, at.version),
{
    let s = before.storage@;
    let ns = before.namespace@;
    let done = dispatch::data_outcome(s, ns, c, a, at, floats.scores@, floats.sum);
    let w = keys_written(c, a);
    assert(keys_shorter(w, 0x1_0000_0000));
    assert(written_upto(s, ns, c, a, last)) by {
        assert forall|i: int| 0 <= i < w.len() implies records_upto(
            s,
            ns,
            #[trigger] w[i],
            last,
        ) by {
            assert(versions_upto(s, ns, w[i], last));
        }
    }
    assert forall|x: Seq<u8>, key: Seq<u8>| proper_key(x, key) implies #[trigger] versions_upto(
        after.storage@,
        x,
        key,
        at.version,
    ) by {
        assert(versions_upto(s, x, key, last));
        if done is None {
            assert(after.storage@ == s);
            lemma_fewer_versions(s, s, x, key, last, at.version);
        } else if x == ns {
            law_new_versions_are_unused(s, ns, c, a, at, floats.scores@, floats.sum, key, last);
        } else {
            law_versions_of_other_namespaces(
                s,
                ns,
                c,
                a,
                at,
                floats.scores@,
                floats.sum,
                x,
                key,
                last,
            );
        }
    }
}

/// An empty store has no versions.
pub proof fn law_empty_store_has_no_versions(ns: Seq<u8>, first: u64)
    ensures
        namespace_upto(StoreView::empty(), ns, first),
        store_upto(StoreView::empty(), first),
{
}

} // verus!
