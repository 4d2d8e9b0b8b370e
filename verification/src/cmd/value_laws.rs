//! What holds of every value that commands make: its record tells the truth of
//! its elements.

use super::dispatch::DispatchedView;
use super::laws;
use super::zset::Floats;
use super::{bitmap, bitmap_laws, dispatch, hash, hash_laws, list, stream, stream_laws, string, zset, zset_laws};
use super::{CommandContext, Moment};
use crate::cmd;
use crate::codec;
use crate::encoding;
use crate::order;
use crate::storage::{Cf, StoreView};
use crate::table;
use crate::text;
use crate::types;
use crate::types::{DataType, Metadata};
use vstd::prelude::*;

verus! {

/// What metadata says of the elements of a key is true: a hash and a set have as
/// many elements as it counts, a sorted set has so many members and is in
/// order, a list has exactly the elements from its head to its tail, and the
/// entries of a stream can be read.
pub open spec fn value_true(s: StoreView, ns: Seq<u8>, key: Seq<u8>, m: Metadata) -> bool {
    let elements = encoding::elements_of(s.subkey, key, m.version, ns);
    match types::type_of_flags(m.flags) {
        Some(DataType::Hash) => m.size == elements.len(),
        Some(DataType::SetType) => m.size == elements.len(),
        Some(DataType::ZSet) => m.size == elements.len() && zset_laws::zset_ok(
            s.subkey,
            s.zset_score,
            ns,
            key,
            m.version,
        ),
        Some(DataType::List) => list::list_ok(s.subkey, ns, key, m),
        Some(DataType::Stream) => stream_laws::stream_ok(s.subkey, ns, key, m.version),
        _ => true,
    }
}

/// A record of a key tells the truth.
pub open spec fn record_true(s: StoreView, ns: Seq<u8>, key: Seq<u8>, v: Seq<u8>) -> bool {
    match encoding::metadata_in(v) {
        Some(m) => value_true(s, ns, key, m),
        None => true,
    }
}

/// The value of a key is in order: its record, if it has one, tells the truth.
pub open spec fn in_order(s: StoreView, ns: Seq<u8>, key: Seq<u8>) -> bool {
    let k = encoding::meta_key_of(key, ns);
    s.metadata.contains_key(k) ==> record_true(s, ns, key, s.metadata[k])
}

/// The default namespace has no record that would be read for a key of another
/// one.
pub open spec fn alone(s: StoreView, ns: Seq<u8>, key: Seq<u8>) -> bool {
    ns.len() > 0 ==> !s.metadata.contains_key(encoding::meta_key_of(key, Seq::empty()))
}

/// All elements of a key can be counted in 64 bits.
pub open spec fn countable(s: StoreView, ns: Seq<u8>, key: Seq<u8>) -> bool {
    forall|v: u64| #[trigger] encoding::elements_of(s.subkey, key, v, ns).len() <= u64::MAX
}

/// A list of a key has numbers left for `n` more elements.
pub open spec fn list_room(s: StoreView, ns: Seq<u8>, key: Seq<u8>, n: int) -> bool {
    let k = encoding::meta_key_of(key, ns);
    &&& n < 0x8000_0000_0000_0000
    &&& s.metadata.contains_key(k) ==> match encoding::metadata_in(s.metadata[k]) {
        Some(m) => types::type_of_flags(m.flags) == Some(DataType::List) ==> list::has_room(m, n),
        None => true,
    }
}

/// Nothing of a key differs.
spec fn same_entries(s: StoreView, t: StoreView, ns: Seq<u8>, key: Seq<u8>) -> bool {
    forall|x: Seq<u8>, cf: Cf|
        table::lookup(t.at(cf), #[trigger] (encoding::meta_key_of(key, ns) + x)) == table::lookup(
            #[trigger] s.at(cf),
            encoding::meta_key_of(key, ns) + x,
        )
}

proof fn lemma_same_elements(s: StoreView, t: StoreView, ns: Seq<u8>, key: Seq<u8>, version: u64)
    requires
        same_entries(s, t, ns, key),
    ensures
        forall|sub: Seq<u8>|
            table::lookup(t.subkey, #[trigger] encoding::subkey_of(key, version, sub, ns))
                == table::lookup(s.subkey, encoding::subkey_of(key, version, sub, ns)),
        forall|sub: Seq<u8>|
            table::lookup(t.zset_score, #[trigger] encoding::subkey_of(key, version, sub, ns))
                == table::lookup(s.zset_score, encoding::subkey_of(key, version, sub, ns)),
{
    assert forall|sub: Seq<u8>, cf: Cf|
        table::lookup(t.at(cf), #[trigger] encoding::subkey_of(key, version, sub, ns))
            == table::lookup(#[trigger] s.at(cf), encoding::subkey_of(key, version, sub, ns)) by {
        let x = codec::be(version as nat, 8) + sub;
        assert(encoding::subkey_of(key, version, sub, ns) =~= encoding::meta_key_of(key, ns) + x);
        assert(table::lookup(t.at(cf), encoding::meta_key_of(key, ns) + x) == table::lookup(
            s.at(cf),
            encoding::meta_key_of(key, ns) + x,
        ));
    }
    assert forall|sub: Seq<u8>|
        table::lookup(t.subkey, #[trigger] encoding::subkey_of(key, version, sub, ns))
            == table::lookup(s.subkey, encoding::subkey_of(key, version, sub, ns)) by {
        assert(t.at(Cf::Subkey) == t.subkey && s.at(Cf::Subkey) == s.subkey);
    }
    assert forall|sub: Seq<u8>|
        table::lookup(t.zset_score, #[trigger] encoding::subkey_of(key, version, sub, ns))
            == table::lookup(s.zset_score, encoding::subkey_of(key, version, sub, ns)) by {
        assert(t.at(Cf::ZsetScore) == t.zset_score && s.at(Cf::ZsetScore) == s.zset_score);
    }
}

proof fn lemma_same_value(
    s: StoreView,
    t: StoreView,
    ns: Seq<u8>,
    key: Seq<u8>,
    m: Metadata,
)
    requires
        same_entries(s, t, ns, key),
        value_true(s, ns, key, m),
    ensures
        value_true(t, ns, key, m),
{
    let v = m.version;
    lemma_same_elements(s, t, ns, key, v);
    let before = encoding::elements_of(s.subkey, key, v, ns);
    let after = encoding::elements_of(t.subkey, key, v, ns);
    assert forall|sub: Seq<u8>| before.contains(sub) == after.contains(sub) by {
        let k = encoding::subkey_of(key, v, sub, ns);
        assert(table::lookup(t.subkey, k) == table::lookup(s.subkey, k));
    }
    assert(before =~= after);
    if types::type_of_flags(m.flags) == Some(DataType::ZSet) {
        lemma_same_zset(s, t, ns, key, v);
    }
    if types::type_of_flags(m.flags) == Some(DataType::Stream) {
        assert forall|sub: Seq<u8>| #[trigger]
            t.subkey.contains_key(encoding::subkey_of(key, v, sub, ns)) implies sub.len() == 16
            && stream::fields_in(t.subkey[encoding::subkey_of(key, v, sub, ns)]) is Some by {
            let k = encoding::subkey_of(key, v, sub, ns);
            assert(table::lookup(t.subkey, k) == table::lookup(s.subkey, k));
            assert(s.subkey.contains_key(k));
        }
    }
}

proof fn lemma_same_zset(s: StoreView, t: StoreView, ns: Seq<u8>, key: Seq<u8>, v: u64)
    requires
        same_entries(s, t, ns, key),
        zset_laws::zset_ok(s.subkey, s.zset_score, ns, key, v),
    ensures
        zset_laws::zset_ok(t.subkey, t.zset_score, ns, key, v),
{
    lemma_same_elements(s, t, ns, key, v);
    assert forall|m: Seq<u8>| #[trigger]
        zset_laws::member_in(t.subkey, ns, key, v, m) implies zset_laws::has_score(
        t.subkey,
        ns,
        key,
        v,
        m,
    ) by {
        let k = encoding::subkey_of(key, v, m, ns);
        assert(table::lookup(t.subkey, k) == table::lookup(s.subkey, k));
        assert(zset_laws::member_in(s.subkey, ns, key, v, m));
        assert(zset_laws::has_score(s.subkey, ns, key, v, m));
    }
    assert forall|x: Seq<u8>|
        t.zset_score.contains_key(#[trigger] encoding::subkey_of(key, v, x, ns)) == (x.len() >= 8
            && zset_laws::member_in(t.subkey, ns, key, v, x.skip(8)) && t.subkey[encoding::subkey_of(
            key,
            v,
            x.skip(8),
            ns,
        )] == x.take(8)) by {
        let k = encoding::subkey_of(key, v, x, ns);
        let b = encoding::subkey_of(key, v, x.skip(8), ns);
        assert(table::lookup(t.zset_score, k) == table::lookup(s.zset_score, k));
        assert(table::lookup(t.subkey, b) == table::lookup(s.subkey, b));
        assert(zset_laws::member_in(s.subkey, ns, key, v, x.skip(8)) == zset_laws::member_in(
            t.subkey,
            ns,
            key,
            v,
            x.skip(8),
        ));
    }
}

proof fn lemma_same_order(s: StoreView, t: StoreView, ns: Seq<u8>, key: Seq<u8>)
    requires
        same_entries(s, t, ns, key),
        in_order(s, ns, key),
    ensures
        in_order(t, ns, key),
{
    let k = encoding::meta_key_of(key, ns);
    let none = Seq::<u8>::empty();
    assert(k + none =~= k);
    assert(table::lookup(t.at(Cf::Metadata), k + none) == table::lookup(
        s.at(Cf::Metadata),
        k + none,
    ));
    if t.metadata.contains_key(k) {
        assert(s.metadata.contains_key(k) && s.metadata[k] == t.metadata[k]);
        match encoding::metadata_in(t.metadata[k]) {
            Some(m) => lemma_same_value(s, t, ns, key, m),
            None => {},
        }
    }
}

/// What a key must be like for a command to keep its value in order: in order,
/// read from its own record, and with versions before that of the moment.
pub open spec fn ready(s: StoreView, ns: Seq<u8>, key: Seq<u8>, at: Moment, last: u64) -> bool {
    &&& in_order(s, ns, key)
    &&& alone(s, ns, key)
    &&& laws::versions_upto(s, ns, key, last)
    &&& last < at.version
    &&& s.subkey.dom().finite()
}

/// A record that is read is the key's own and tells the truth.
proof fn lemma_own_record(s: StoreView, ns: Seq<u8>, key: Seq<u8>)
    requires
        alone(s, ns, key),
    ensures
        cmd::stored_meta(s, ns, key) == table::lookup(
            s.metadata,
            encoding::meta_key_of(key, ns),
        ),
{
}

proof fn lemma_hash(s: StoreView, ns: Seq<u8>, c: Seq<u8>, a: Seq<Seq<u8>>, at: Moment, last: u64)
    requires
        dispatch::hash_family(s, ns, c, a, at) is Some,
        a.len() > 0,
        ready(s, ns, a[0], at, last),
        countable(dispatch::hash_family(s, ns, c, a, at)->0.store, ns, a[0]),
    ensures
        in_order(dispatch::hash_family(s, ns, c, a, at)->0.store, ns, a[0]),
{
    reveal(dispatch::hash_family);
    let t = dispatch::hash_family(s, ns, c, a, at)->0.store;
    let key = a[0];
    let found = hash::hash_meta(s, ns, key, at.now_ms);
    lemma_own_record(s, ns, key);
    if text::is_word(c, "HSET"@) {
        if a.len() >= 3 && a.len() % 2 == 1 && found is Ok {
            let m = hash::hset_meta(s, ns, key, at);
            hash_laws::law_hset_counts_the_fields(s, ns, a, at, last);
            let before = encoding::elements_of(s.subkey, key, m.version, ns);
            let after = encoding::elements_of(t.subkey, key, m.version, ns);
            assert(m.size == before.len());
            assert(after.len() <= u64::MAX);
        }
    } else if text::is_word(c, "HDEL"@) {
        if a.len() >= 2 && found is Ok && found->Ok_0 is Some {
            let m = found->Ok_0->0;
            hash_laws::law_hdel_counts_the_fields(s, ns, a, at.now_ms);
            let before = encoding::elements_of(s.subkey, key, m.version, ns);
            assert(m.size == before.len());
        }
    }
}

proof fn lemma_set(s: StoreView, ns: Seq<u8>, c: Seq<u8>, a: Seq<Seq<u8>>, at: Moment, last: u64)
    requires
        dispatch::set_family(s, ns, c, a, at) is Some,
        a.len() > 0,
        a[0].len() < 0x1_0000_0000,
        ns.len() <= 255,
        ready(s, ns, a[0], at, last),
        countable(dispatch::set_family(s, ns, c, a, at)->0.store, ns, a[0]),
    ensures
        in_order(dispatch::set_family(s, ns, c, a, at)->0.store, ns, a[0]),
{
    reveal(dispatch::set_family);
    let t = dispatch::set_family(s, ns, c, a, at)->0.store;
    let key = a[0];
    let found = cmd::set::set_meta(s, ns, key, at.now_ms);
    lemma_own_record(s, ns, key);
    if text::is_word(c, "SADD"@) {
        if a.len() >= 2 && found is Ok {
            let m = cmd::set::sadd_meta(s, ns, key, at);
            cmd::set::law_sadd_is_union(s, ns, a, at, last);
            let before = encoding::elements_of(s.subkey, key, m.version, ns);
            let after = encoding::elements_of(t.subkey, key, m.version, ns);
            assert(m.size == before.len());
            assert(after.len() <= u64::MAX);
        }
    } else if text::is_word(c, "SREM"@) {
        if a.len() >= 2 && found is Ok && found->Ok_0 is Some {
            let m = found->Ok_0->0;
            cmd::set::law_srem_is_difference(s, ns, a, at.now_ms);
            let before = encoding::elements_of(s.subkey, key, m.version, ns);
            assert(m.size == before.len());
        }
    } else if text::is_word(c, "SPOP"@) {
        if a.len() <= 2 && cmd::set::pop_count(a) is Some && found is Ok && found->Ok_0 is Some {
            let m = found->Ok_0->0;
            cmd::set::law_spop_takes_members(s, ns, a, at);
            let before = encoding::elements_of(s.subkey, key, m.version, ns);
            assert(m.size == before.len());
        }
    }
}

proof fn lemma_list(s: StoreView, ns: Seq<u8>, c: Seq<u8>, a: Seq<Seq<u8>>, at: Moment, last: u64)
    requires
        dispatch::list_family(s, ns, c, a, at) is Some,
        a.len() > 0,
        ready(s, ns, a[0], at, last),
        list_room(s, ns, a[0], a.len() as int),
    ensures
        in_order(dispatch::list_family(s, ns, c, a, at)->0.store, ns, a[0]),
{
    reveal(dispatch::list_family);
    let key = a[0];
    let found = list::list_meta(s, ns, key, at.now_ms);
    lemma_own_record(s, ns, key);
    if text::is_word(c, "LPUSH"@) || text::is_word(c, "RPUSH"@) {
        if a.len() >= 2 && found is Ok {
            list::law_push(s, ns, a, at, text::is_word(c, "LPUSH"@), last);
        }
    } else if text::is_word(c, "LPOP"@) || text::is_word(c, "RPOP"@) {
        let left = text::is_word(c, "LPOP"@);
        if found is Ok && found->Ok_0 is Some && (found->Ok_0->0).size > 0 {
            if a.len() == 1 {
                assert(a =~= seq![key]);
                list::law_pop_one(s, ns, key, at.now_ms, left);
            } else if a.len() == 2 && text::usize_in(a[1]) is Some && text::usize_in(a[1])->0 > 0 {
                assert(a =~= seq![key, a[1]]);
                list::law_pop_many(s, ns, key, a[1], at.now_ms, left);
            }
        }
    }
}

proof fn lemma_one_member(
    s: StoreView,
    ns: Seq<u8>,
    key: Seq<u8>,
    m: Metadata,
    member: Seq<u8>,
    new: u64,
)
    requires
        zset_laws::zset_ok(s.subkey, s.zset_score, ns, key, m.version),
        s.subkey.dom().finite(),
        cmd::well_formed_meta(m, DataType::ZSet),
        m.size == encoding::elements_of(s.subkey, key, m.version, ns).len(),
        !crate::score::is_nan(new),
        ({
            let prior = zset::old_score(s.subkey, ns, key, m.version, member)->Ok_0;
            countable(zset::one_member_written(s, ns, key, m, member, prior, new), ns, key)
        }),
    ensures
        ({
            let prior = zset::old_score(s.subkey, ns, key, m.version, member)->Ok_0;
            in_order(zset::one_member_written(s, ns, key, m, member, prior, new), ns, key)
        }),
{
    let prior = zset::old_score(s.subkey, ns, key, m.version, member)->Ok_0;
    let t = zset::one_member_written(s, ns, key, m, member, prior, new);
    zset_laws::law_one_member_written(s, ns, key, m, member, new);
    let before = encoding::elements_of(s.subkey, key, m.version, ns);
    let after = encoding::elements_of(t.subkey, key, m.version, ns);
    assert(after.len() <= u64::MAX);
    let m2 = Metadata { size: cmd::grown(m.size, (after.len() - before.len()) as nat), ..m };
    encoding::law_values_round_trip(m2, 0, 0, Seq::empty());
}

/// The sorted set that a command finds or makes is in order.
proof fn lemma_zset_found(s: StoreView, ns: Seq<u8>, key: Seq<u8>, at: Moment, last: u64)
    requires
        ready(s, ns, key, at, last),
        zset::zset_meta(s, ns, key, at.now_ms) is Ok,
    ensures
        ({
            let m = zset_laws::zadd_meta(s, ns, key, at);
            &&& cmd::well_formed_meta(m, DataType::ZSet)
            &&& m.size == encoding::elements_of(s.subkey, key, m.version, ns).len()
            &&& zset_laws::zset_ok(s.subkey, s.zset_score, ns, key, m.version)
            &&& zset_laws::zset_ready(s, ns, key, at, last)
        }),
{
    lemma_own_record(s, ns, key);
    cmd::lemma_fresh_meta(DataType::ZSet, at.version);
    if zset::zset_meta(s, ns, key, at.now_ms)->Ok_0 is None {
        laws::law_later_versions_are_unused(s, ns, key, last, at.version);
    }
}

proof fn lemma_zadd_incr(
    s: StoreView,
    ns: Seq<u8>,
    key: Seq<u8>,
    m: Metadata,
    f: zset::ZaddFlags,
    increment: Option<u64>,
    member: Seq<u8>,
    sum: u64,
)
    requires
        zset_laws::zset_ok(s.subkey, s.zset_score, ns, key, m.version),
        s.subkey.dom().finite(),
        cmd::well_formed_meta(m, DataType::ZSet),
        m.size == encoding::elements_of(s.subkey, key, m.version, ns).len(),
        increment is Some ==> !crate::score::is_nan(increment->0),
        in_order(s, ns, key),
        countable(
            zset::zadd_incr_outcome(s, ns, key, m, f, increment, member, sum).store,
            ns,
            key,
        ),
    ensures
        in_order(
            zset::zadd_incr_outcome(s, ns, key, m, f, increment, member, sum).store,
            ns,
            key,
        ),
{
    let t = zset::zadd_incr_outcome(s, ns, key, m, f, increment, member, sum).store;
    if t != s {
        let prior = zset::old_score(s.subkey, ns, key, m.version, member)->Ok_0;
        let new = if prior is Some {
            sum
        } else {
            increment->0
        };
        lemma_one_member(s, ns, key, m, member, new);
    }
}

/// A record that was written and tells the truth puts its key in order.
proof fn lemma_written_in_order(t: StoreView, ns: Seq<u8>, key: Seq<u8>, m: Metadata)
    requires
        types::type_of_flags(m.flags) is Some,
        types::type_of_flags(m.flags) != Some(DataType::List) ==> m.head == 0 && m.tail == -1,
        t.metadata.contains_key(encoding::meta_key_of(key, ns)),
        t.metadata[encoding::meta_key_of(key, ns)] == encoding::metadata_bytes(m),
        value_true(t, ns, key, m),
    ensures
        in_order(t, ns, key),
{
    encoding::law_values_round_trip(m, 0, 0, Seq::empty());
}

#[verifier::spinoff_prover]
proof fn lemma_zadd_plain(
    s: StoreView,
    ns: Seq<u8>,
    a: Seq<Seq<u8>>,
    at: Moment,
    scores: Seq<Option<u64>>,
    sum: u64,
    last: u64,
)
    requires
        a.len() > 0,
        ready(s, ns, a[0], at, last),
        zset::zadd_outcome(s, ns, a, at, scores, sum).reply is Ok,
        zset::zset_meta(s, ns, a[0], at.now_ms) is Ok,
        !(zset::flags_from(a, 1, zset::no_flags()).0).incr,
        countable(zset::zadd_outcome(s, ns, a, at, scores, sum).store, ns, a[0]),
    ensures
        in_order(zset::zadd_outcome(s, ns, a, at, scores, sum).store, ns, a[0]),
{
    let t = zset::zadd_outcome(s, ns, a, at, scores, sum).store;
    let key = a[0];
    let m = zset_laws::zadd_meta(s, ns, key, at);
    lemma_zset_found(s, ns, key, at, last);
    zset_laws::law_zadd(s, ns, a, at, scores, sum, Seq::empty(), last);
    let before = encoding::elements_of(s.subkey, key, m.version, ns);
    let after = encoding::elements_of(t.subkey, key, m.version, ns);
    assert(after.len() <= u64::MAX);
    let m2 = Metadata { size: cmd::grown(m.size, (after.len() - before.len()) as nat), ..m };
    lemma_written_in_order(t, ns, key, m2);
}

proof fn lemma_zadd(
    s: StoreView,
    ns: Seq<u8>,
    a: Seq<Seq<u8>>,
    at: Moment,
    scores: Seq<Option<u64>>,
    sum: u64,
    last: u64,
)
    requires
        a.len() > 0,
        ready(s, ns, a[0], at, last),
        countable(zset::zadd_outcome(s, ns, a, at, scores, sum).store, ns, a[0]),
    ensures
        in_order(zset::zadd_outcome(s, ns, a, at, scores, sum).store, ns, a[0]),
{
    let o = zset::zadd_outcome(s, ns, a, at, scores, sum);
    let key = a[0];
    if o.reply is Ok {
        let (f, from) = zset::flags_from(a, 1, zset::no_flags());
        if f.incr {
            lemma_zset_found(s, ns, key, at, last);
            let m = zset_laws::zadd_meta(s, ns, key, at);
            lemma_zadd_incr(
                s,
                ns,
                key,
                m,
                f,
                zset::score_arg(scores, from),
                a[from + 1],
                sum,
            );
        } else {
            lemma_zadd_plain(s, ns, a, at, scores, sum, last);
        }
    }
}

proof fn lemma_zincrby(
    s: StoreView,
    ns: Seq<u8>,
    a: Seq<Seq<u8>>,
    at: Moment,
    scores: Seq<Option<u64>>,
    sum: u64,
    last: u64,
)
    requires
        a.len() > 0,
        ready(s, ns, a[0], at, last),
        countable(zset::zincrby_outcome(s, ns, a, at, scores, sum).store, ns, a[0]),
    ensures
        in_order(zset::zincrby_outcome(s, ns, a, at, scores, sum).store, ns, a[0]),
{
    let o = zset::zincrby_outcome(s, ns, a, at, scores, sum);
    let key = a[0];
    if o.reply is Ok {
        lemma_zset_found(s, ns, key, at, last);
        let m = zset_laws::zadd_meta(s, ns, key, at);
        let prior = zset::old_score(s.subkey, ns, key, m.version, a[2])->Ok_0;
        let new = if prior is Some {
            sum
        } else {
            zset::score_arg(scores, 1)->0
        };
        assert(o.store == zset::one_member_written(s, ns, key, m, a[2], prior, new));
        lemma_one_member(s, ns, key, m, a[2], new);
    }
}

proof fn lemma_zrem(s: StoreView, ns: Seq<u8>, a: Seq<Seq<u8>>, at: Moment, last: u64)
    requires
        a.len() > 0,
        ready(s, ns, a[0], at, last),
    ensures
        in_order(zset::zrem_outcome(s, ns, a, at.now_ms).store, ns, a[0]),
{
    let o = zset::zrem_outcome(s, ns, a, at.now_ms);
    let key = a[0];
    let found = zset::zset_meta(s, ns, key, at.now_ms);
    if a.len() >= 2 && found is Ok && found->Ok_0 is Some {
        lemma_own_record(s, ns, key);
        lemma_zset_found(s, ns, key, at, last);
        zset_laws::law_zrem_counts_the_members(s, ns, a, at.now_ms);
        assert(o.store.metadata.contains_key(encoding::meta_key_of(key, ns)));
    }
}

proof fn lemma_zset(
    s: StoreView,
    ns: Seq<u8>,
    c: Seq<u8>,
    a: Seq<Seq<u8>>,
    at: Moment,
    scores: Seq<Option<u64>>,
    sum: u64,
    last: u64,
)
    requires
        dispatch::zset_family(s, ns, c, a, at, scores, sum) is Some,
        a.len() > 0,
        ready(s, ns, a[0], at, last),
        countable(dispatch::zset_family(s, ns, c, a, at, scores, sum)->0.store, ns, a[0]),
    ensures
        in_order(dispatch::zset_family(s, ns, c, a, at, scores, sum)->0.store, ns, a[0]),
{
    reveal(dispatch::zset_family);
    if text::is_word(c, "ZADD"@) {
        lemma_zadd(s, ns, a, at, scores, sum, last);
    } else if text::is_word(c, "ZINCRBY"@) {
        lemma_zincrby(s, ns, a, at, scores, sum, last);
    } else if text::is_word(c, "ZREM"@) {
        lemma_zrem(s, ns, a, at, last);
    }
}

proof fn lemma_stream(
    s: StoreView,
    ns: Seq<u8>,
    c: Seq<u8>,
    a: Seq<Seq<u8>>,
    at: Moment,
    last: u64,
)
    requires
        dispatch::stream_family(s, ns, c, a, at) is Some,
        a.len() > 0,
        a[0].len() < 0x1_0000_0000,
        text::is_word(c, "XADD"@) ==> laws::keys_shorter(a, 0x1_0000_0000),
        ns.len() <= 255,
        ready(s, ns, a[0], at, last),
    ensures
        in_order(dispatch::stream_family(s, ns, c, a, at)->0.store, ns, a[0]),
{
    reveal(dispatch::stream_family);
    let o = dispatch::stream_family(s, ns, c, a, at)->0;
    let key = a[0];
    lemma_own_record(s, ns, key);
    if text::is_word(c, "XADD"@) && o.reply is Ok {
        let m = stream_laws::xadd_meta(s, ns, key, at);
        assert(stream_laws::stream_ready(s, ns, key, at, last));
        assert forall|i: int| 0 <= i < stream::fields_of(a).len() implies (
        #[trigger] stream::fields_of(a)[i]).0.len() < 0x1_0000_0000 && stream::fields_of(a)[i].1.len()
            < 0x1_0000_0000 by {
            assert(a[2 * i + 2].len() < 0x1_0000_0000 && a[2 * i + 3].len() < 0x1_0000_0000);
        }
        stream_laws::law_xadd(s, ns, a, at, last);
        let id = stream_laws::xadd_id(s, ns, a, at);
        let m2 = stream::StreamMeta {
            size: cmd::grown(m.size, 1),
            last_ms: id.0,
            last_seq: id.1,
            ..m
        };
        stream::law_stream_meta_round_trip(m2);
        assert(stream::stream_meta_bytes(m2)[0] == m2.flags);
        types::law_flags_round_trip(DataType::Stream);
    }
}

/// The record of a key after a command on records alone: it is gone, it is as it
/// was, it has another expiry time, or it is that of a string.
spec fn record_kept(s: StoreView, t: StoreView, ns: Seq<u8>, key: Seq<u8>) -> bool {
    let k = encoding::meta_key_of(key, ns);
    t.metadata.contains_key(k) ==> {
        let v = t.metadata[k];
        ||| v.len() > 0 && types::type_of_flags(v[0]) == Some(DataType::String)
        ||| s.metadata.contains_key(k) && (v == s.metadata[k] || (s.metadata[k].len() >= 9
            && exists|x: i64| v == #[trigger] string::with_expire(s.metadata[k], x)))
    }
}

proof fn lemma_string_type(payload: Seq<u8>, expire: i64)
    ensures
        ({
            let v = string::string_record(payload, expire);
            v.len() > 0 && types::type_of_flags(v[0]) == Some(DataType::String)
        }),
{
    types::law_flags_round_trip(DataType::String);
    assert(string::string_record(payload, expire)[0] == types::flags_of(DataType::String));
}

proof fn lemma_expire_read(v: Seq<u8>, x: i64)
    requires
        v.len() >= 9,
    ensures
        match (encoding::metadata_in(v), encoding::metadata_in(string::with_expire(v, x))) {
            (Some(m), Some(n)) => n == (Metadata { expire: n.expire, ..m }),
            (None, None) => true,
            _ => false,
        },
{
    codec::lemma_be_len(codec::to_bits(x as int), 8);
    let w = string::with_expire(v, x);
    assert(w.len() == v.len());
    assert(w[0] == v[0]);
    if v.len() >= 25 {
        assert(w.subrange(9, 17) =~= v.subrange(9, 17));
        assert(w.subrange(17, 25) =~= v.subrange(17, 25));
    }
    if v.len() >= 41 {
        assert(w.subrange(25, 33) =~= v.subrange(25, 33));
        assert(w.subrange(33, 41) =~= v.subrange(33, 41));
    }
}

proof fn lemma_record_kept(s: StoreView, t: StoreView, ns: Seq<u8>, key: Seq<u8>)
    requires
        record_kept(s, t, ns, key),
        in_order(s, ns, key),
        t.subkey == s.subkey,
        t.zset_score == s.zset_score,
    ensures
        in_order(t, ns, key),
{
    let k = encoding::meta_key_of(key, ns);
    if t.metadata.contains_key(k) {
        let v = t.metadata[k];
        if !(v.len() > 0 && types::type_of_flags(v[0]) == Some(DataType::String)) && v
            != s.metadata[k] {
            let x = choose|x: i64| v == #[trigger] string::with_expire(s.metadata[k], x);
            lemma_expire_read(s.metadata[k], x);
        }
    }
}

proof fn lemma_pairs(s: StoreView, ns: Seq<u8>, a: Seq<Seq<u8>>, n: nat, key: Seq<u8>)
    ensures
        ({
            let t = string::pairs_set(s, ns, a, n);
            &&& record_kept(s, t, ns, key)
            &&& t.subkey == s.subkey
            &&& t.zset_score == s.zset_score
        }),
    decreases n,
{
    if n > 0 {
        lemma_pairs(s, ns, a, (n - 1) as nat, key);
        lemma_string_type(a[2 * n - 1], 0);
    }
}

proof fn lemma_deleted(
    s: StoreView,
    ns: Seq<u8>,
    a: Seq<Seq<u8>>,
    now_ms: i64,
    n: nat,
    key: Seq<u8>,
)
    ensures
        ({
            let t = string::keys_deleted(s, ns, a, now_ms, n).0;
            &&& record_kept(s, t, ns, key)
            &&& t.subkey == s.subkey
            &&& t.zset_score == s.zset_score
        }),
    decreases n,
{
    if n > 0 {
        lemma_deleted(s, ns, a, now_ms, (n - 1) as nat, key);
    }
}

proof fn lemma_string(s: StoreView, ns: Seq<u8>, c: Seq<u8>, a: Seq<Seq<u8>>, at: Moment, key: Seq<u8>)
    requires
        dispatch::string_family(s, ns, c, a, at) is Some,
        in_order(s, ns, key),
        alone(s, ns, key),
        key.len() < 0x1_0000_0000,
        a.len() > 0 ==> a[0].len() < 0x1_0000_0000,
    ensures
        in_order(dispatch::string_family(s, ns, c, a, at)->0.store, ns, key),
{
    reveal(dispatch::string_family);
    let t = dispatch::string_family(s, ns, c, a, at)->0.store;
    lemma_own_record(s, ns, key);
    assert forall|payload: Seq<u8>, expire: i64| {
        let v = #[trigger] string::string_record(payload, expire);
        v.len() > 0 && types::type_of_flags(v[0]) == Some(DataType::String)
    } by {
        lemma_string_type(payload, expire);
    }
    let k = encoding::meta_key_of(key, ns);
    if a.len() > 0 && k == encoding::meta_key_of(a[0], ns) {
        let none = Seq::<u8>::empty();
        order::lemma_prefix_append(k, none);
        laws::lemma_keys_apart(ns, key, none, a[0]);
    }
    lemma_deleted(s, ns, a, at.now_ms, a.len(), key);
    lemma_pairs(s, ns, a, (a.len() / 2) as nat, key);
    assert(record_kept(s, t, ns, key));
    lemma_record_kept(s, t, ns, key);
}

proof fn lemma_setbit(s: StoreView, ns: Seq<u8>, a: Seq<Seq<u8>>, at: Moment)
    requires
        a.len() > 0,
        in_order(s, ns, a[0]),
        alone(s, ns, a[0]),
    ensures
        in_order(bitmap::setbit_outcome(s, ns, a, at).store, ns, a[0]),
{
    let o = bitmap::setbit_outcome(s, ns, a, at);
    let key = a[0];
    lemma_own_record(s, ns, key);
    cmd::lemma_fresh_meta(DataType::Bitmap, at.version);
    if o.reply is Ok {
        let found = bitmap::bitmap_meta(s, ns, key, at.now_ms);
        let m = match found->Ok_0 {
            Some(m) => m,
            None => types::fresh_metadata(DataType::Bitmap, at.version),
        };
        let n = bitmap::offset_in(a[1])->Ok_0 as int / 8 + 1;
        let m2 = Metadata {
            size: if n > m.size {
                n as u64
            } else {
                m.size
            },
            ..m
        };
        lemma_written_in_order(o.store, ns, key, m2);
    }
}

proof fn lemma_bitop(s: StoreView, ns: Seq<u8>, a: Seq<Seq<u8>>, at: Moment, key: Seq<u8>)
    requires
        in_order(s, ns, key),
        key.len() < 0x1_0000_0000,
        a.len() >= 2 ==> a[1].len() < 0x1_0000_0000,
    ensures
        in_order(bitmap::bitop_outcome(s, ns, a, at).store, ns, key),
{
    let o = bitmap::bitop_outcome(s, ns, a, at);
    if o.reply is Ok {
        if key == a[1] {
            cmd::lemma_fresh_meta(DataType::Bitmap, at.version);
            let ms = bitmap::source_metas(s, ns, a, at.now_ms, (a.len() - 2) as nat)->Ok_0;
            let m2 = Metadata {
                size: bitmap::longest(ms),
                ..types::fresh_metadata(DataType::Bitmap, at.version)
            };
            lemma_written_in_order(o.store, ns, key, m2);
        } else {
            assert forall|x: Seq<u8>, cf: Cf|
                table::lookup(o.store.at(cf), #[trigger] (encoding::meta_key_of(key, ns) + x))
                    == table::lookup(#[trigger] s.at(cf), encoding::meta_key_of(key, ns) + x) by {
                bitmap_laws::law_bitop_leaves_other_keys(s, ns, a, at, key, x, cf);
            }
            lemma_same_order(s, o.store, ns, key);
        }
    }
}

proof fn lemma_bitmap(
    s: StoreView,
    ns: Seq<u8>,
    c: Seq<u8>,
    a: Seq<Seq<u8>>,
    at: Moment,
    key: Seq<u8>,
)
    requires
        dispatch::bitmap_family(s, ns, c, a, at) is Some,
        !text::is_word(c, "DEL"@),
        !text::is_word(c, "MSET"@),
        in_order(s, ns, key),
        alone(s, ns, key),
        laws::keys_written(c, a).contains(key),
        key.len() < 0x1_0000_0000,
        laws::keys_shorter(laws::keys_written(c, a), 0x1_0000_0000),
    ensures
        in_order(dispatch::bitmap_family(s, ns, c, a, at)->0.store, ns, key),
{
    reveal(dispatch::bitmap_family);
    let w = laws::keys_written(c, a);
    if text::is_word(c, "SETBIT"@) {
        reveal_strlit("SETBIT");
        reveal_strlit("BITOP");
        lemma_setbit(s, ns, a, at);
    } else if text::is_word(c, "BITOP"@) {
        if a.len() >= 2 {
            assert(w[1] == a[1]);
        }
        lemma_bitop(s, ns, a, at, key);
    }
}

/// BITOP is none of the commands on other values.
proof fn lemma_bitop_is_a_bitmap_command(
    s: StoreView,
    ns: Seq<u8>,
    c: Seq<u8>,
    a: Seq<Seq<u8>>,
    at: Moment,
    scores: Seq<Option<u64>>,
    sum: u64,
)
    requires
        text::is_word(c, "BITOP"@),
    ensures
        dispatch::hash_family(s, ns, c, a, at) is None,
        dispatch::list_family(s, ns, c, a, at) is None,
        dispatch::set_family(s, ns, c, a, at) is None,
        dispatch::zset_family(s, ns, c, a, at, scores, sum) is None,
        dispatch::stream_family(s, ns, c, a, at) is None,
{
    reveal_strlit("BITOP");
    assert(text::upper(c[0]) as int == 'B' as int);
    assert(dispatch::hash_family(s, ns, c, a, at) is None) by {
        reveal(dispatch::hash_family);
        reveal_strlit("HSET");
        reveal_strlit("HGET");
        reveal_strlit("HMGET");
        reveal_strlit("HGETALL");
        reveal_strlit("HDEL");
        reveal_strlit("HEXISTS");
        reveal_strlit("HLEN");
        reveal_strlit("HSCAN");
    }
    assert(dispatch::list_family(s, ns, c, a, at) is None) by {
        reveal(dispatch::list_family);
        reveal_strlit("LPUSH");
        reveal_strlit("RPUSH");
        reveal_strlit("LPOP");
        reveal_strlit("RPOP");
        reveal_strlit("LRANGE");
        reveal_strlit("LINDEX");
        reveal_strlit("LLEN");
    }
    assert(dispatch::set_family(s, ns, c, a, at) is None) by {
        reveal(dispatch::set_family);
        reveal_strlit("SADD");
        reveal_strlit("SREM");
        reveal_strlit("SPOP");
        reveal_strlit("SISMEMBER");
        reveal_strlit("SMEMBERS");
        reveal_strlit("SCARD");
        reveal_strlit("SINTER");
        reveal_strlit("SDIFF");
        reveal_strlit("SUNION");
    }
    assert(dispatch::zset_family(s, ns, c, a, at, scores, sum) is None) by {
        reveal(dispatch::zset_family);
        reveal_strlit("ZADD");
        reveal_strlit("ZINCRBY");
        reveal_strlit("ZREM");
        reveal_strlit("ZSCORE");
        reveal_strlit("ZCARD");
        reveal_strlit("ZRANK");
        reveal_strlit("ZREVRANK");
        reveal_strlit("ZRANGE");
        reveal_strlit("ZREVRANGE");
        reveal_strlit("ZRANGEBYSCORE");
        reveal_strlit("ZREVRANGEBYSCORE");
    }
    assert(dispatch::stream_family(s, ns, c, a, at) is None) by {
        reveal(dispatch::stream_family);
        reveal_strlit("XADD");
        reveal_strlit("XLEN");
        reveal_strlit("XRANGE");
        reveal_strlit("XREAD");
    }
}

/// FLUSHDB and FLUSHALL leave no record of any key.
proof fn lemma_flushed(s: StoreView, ns: Seq<u8>, c: Seq<u8>, at: Moment, key: Seq<u8>)
    requires
        laws::flushes(c),
        dispatch::store_family(s, ns, c, at) is Some,
    ensures
        in_order(dispatch::store_family(s, ns, c, at)->0.store, ns, key),
{
    reveal(dispatch::store_family);
    reveal_strlit("FLUSHDB");
    reveal_strlit("FLUSHALL");
    reveal_strlit("DBSIZE");
    let k = encoding::meta_key_of(key, ns);
    assert(k.subrange(0, k.len() as int) =~= k);
    laws::lemma_meta_in_namespace(key, ns, k);
}

/// Commands keep every value in order: where the record of a key tells the truth
/// of its elements before a command, it does so after it, and so from an empty
/// store on. The moment must have a version that no value of the key has yet.
/// Keys, and what XADD stores, must be shorter than 4 GiB and the namespace at
/// most 255 bytes long, the numbers of a list must not run out, and elements
/// must be countable in 64 bits.
pub proof fn law_values_stay_in_order(
    s: StoreView,
    ns: Seq<u8>,
    c: Seq<u8>,
    a: Seq<Seq<u8>>,
    at: Moment,
    scores: Seq<Option<u64>>,
    sum: u64,
    key: Seq<u8>,
    last: u64,
)
    requires
        dispatch::data_outcome(s, ns, c, a, at, scores, sum) is Some,
        ready(s, ns, key, at, last),
        key.len() < 0x1_0000_0000,
        laws::keys_shorter(laws::keys_written(c, a), 0x1_0000_0000),
        text::is_word(c, "XADD"@) ==> laws::keys_shorter(a, 0x1_0000_0000),
        ns.len() <= 255,
        list_room(s, ns, key, a.len() as int),
        countable(
            dispatch::data_outcome(s, ns, c, a, at, scores, sum)->0.store,
            ns,
            key,
        ),
    ensures
        in_order(dispatch::data_outcome(s, ns, c, a, at, scores, sum)->0.store, ns, key),
{
    let o = dispatch::data_outcome(s, ns, c, a, at, scores, sum)->0;
    let w = laws::keys_written(c, a);
    if a.len() > 0 {
        assert(w[0] == a[0]);
    }
    if dispatch::string_family(s, ns, c, a, at) is Some {
        lemma_string(s, ns, c, a, at, key);
    } else if laws::flushes(c) {
        assert(dispatch::store_family(s, ns, c, at) is Some) by {
            reveal(dispatch::store_family);
        }
        lemma_flushed(s, ns, c, at, key);
    } else if !w.contains(key) {
        assert forall|x: Seq<u8>, cf: Cf|
            table::lookup(o.store.at(cf), #[trigger] (encoding::meta_key_of(key, ns) + x))
                == table::lookup(#[trigger] s.at(cf), encoding::meta_key_of(key, ns) + x) by {
            laws::law_other_keys_stay(s, ns, c, a, at, scores, sum, key, x, cf);
        }
        lemma_same_order(s, o.store, ns, key);
    } else {
        assert(!text::is_word(c, "DEL"@) && !text::is_word(c, "MSET"@)) by {
            reveal(dispatch::string_family);
        }
        if text::is_word(c, "BITOP"@) {
            lemma_bitop_is_a_bitmap_command(s, ns, c, a, at, scores, sum);
        }
        if dispatch::store_family(s, ns, c, at) is Some {
            assert(o.store == s) by {
                reveal(dispatch::store_family);
            }
        } else if dispatch::hash_family(s, ns, c, a, at) is Some {
            lemma_hash(s, ns, c, a, at, last);
        } else if dispatch::list_family(s, ns, c, a, at) is Some {
            lemma_list(s, ns, c, a, at, last);
        } else if dispatch::set_family(s, ns, c, a, at) is Some {
            lemma_set(s, ns, c, a, at, last);
        } else if dispatch::zset_family(s, ns, c, a, at, scores, sum) is Some {
            lemma_zset(s, ns, c, a, at, scores, sum, last);
        } else if dispatch::stream_family(s, ns, c, a, at) is Some {
            lemma_stream(s, ns, c, a, at, last);
        } else {
            lemma_bitmap(s, ns, c, a, at, key);
        }
    }
}

proof fn lemma_countable(s: StoreView, ns: Seq<u8>, key: Seq<u8>)
    requires
        s.subkey.dom().finite(),
        s.subkey.dom().len() <= u64::MAX,
    ensures
        countable(s, ns, key),
{
    assert forall|v: u64| #[trigger]
        encoding::elements_of(s.subkey, key, v, ns).len() <= u64::MAX by {
        let elements = encoding::elements_of(s.subkey, key, v, ns);
        let p = encoding::sub_prefix(key, v, ns);
        let cut = |x: Seq<u8>| x.skip(p.len() as int);
        let image = s.subkey.dom().map(cut);
        vstd::set_lib::lemma_map_size_bound(s.subkey.dom(), image, cut);
        assert forall|x: Seq<u8>| elements.contains(x) implies image.contains(x) by {
            let k = encoding::subkey_of(key, v, x, ns);
            assert(cut(k) =~= x);
            assert(s.subkey.dom().contains(k));
        }
        vstd::set_lib::lemma_len_subset(elements, image);
    }
}

/// A command in a namespace adds no record to the default one.
proof fn lemma_alone(
    s: StoreView,
    ns: Seq<u8>,
    c: Seq<u8>,
    a: Seq<Seq<u8>>,
    at: Moment,
    scores: Seq<Option<u64>>,
    sum: u64,
    key: Seq<u8>,
)
    requires
        dispatch::data_outcome(s, ns, c, a, at, scores, sum) is Some,
        alone(s, ns, key),
        ns.len() <= 255,
        key.len() < 0x100_0000,
    ensures
        alone(dispatch::data_outcome(s, ns, c, a, at, scores, sum)->0.store, ns, key),
{
    let none = Seq::<u8>::empty();
    let k = encoding::meta_key_of(key, none);
    assert(k + none =~= k);
    let t = dispatch::data_outcome(s, ns, c, a, at, scores, sum)->0.store;
    if ns.len() > 0 {
        if text::is_word(c, "FLUSHALL"@) {
            laws::law_commands_change_what_they_name(s, ns, c, a, at, scores, sum);
            assert(t.metadata == Map::<Seq<u8>, Seq<u8>>::empty());
        } else {
            laws::law_namespaces_are_separate(
                s,
                ns,
                c,
                a,
                at,
                scores,
                sum,
                none,
                key,
                none,
                Cf::Metadata,
            );
            assert(table::lookup(t.metadata, k) == table::lookup(s.metadata, k));
        }
    }
}

/// Every command that is dispatched at a moment behind all versions that are
/// stored keeps the value of a key in order, so that from an empty store on all
/// values are, as long as the numbers of a list do not run out. A key of a
/// namespace must have no record in the default one that would be read for it;
/// no command in that namespace makes one, if the key is shorter than 16 MiB.
pub proof fn law_dispatched_values_stay_in_order(
    before: CommandContext,
    after: CommandContext,
    c: Seq<u8>,
    a: Seq<Seq<u8>>,
    at: Moment,
    floats: Floats,
    r: DispatchedView,
    key: Seq<u8>,
    last: u64,
)
    requires
        dispatch::dispatched(before, after, c, a, at, floats, r),
        laws::store_upto(before.storage@, last),
        last < at.version,
        laws::proper_key(before.namespace@, key),
        laws::writes_proper_keys(before.namespace@, c, a),
        text::is_word(c, "XADD"@) ==> laws::keys_shorter(a, 0x1_0000_0000),
        in_order(before.storage@, before.namespace@, key),
        alone(before.storage@, before.namespace@, key),
        list_room(before.storage@, before.namespace@, key, a.len() as int),
    ensures
        in_order(after.storage@, before.namespace@, key),
        key.len() < 0x100_0000 ==> alone(after.storage@, before.namespace@, key),
        laws::store_upto(after.storage@, at.version),
{
    let s = before.storage@;
    let ns = before.namespace@;
    before.storage.lemma_finite();
    after.storage.lemma_finite();
    assert(s.at(Cf::Subkey) == s.subkey);
    assert(after.storage@.at(Cf::Subkey) == after.storage@.subkey);
    laws::law_dispatched_versions_are_new(before, after, c, a, at, floats, r, last);
    assert(laws::versions_upto(s, ns, key, last));
    let done = dispatch::data_outcome(s, ns, c, a, at, floats.scores@, floats.sum);
    if done is None {
        assert(after.storage@ == s);
    } else {
        lemma_countable(after.storage@, ns, key);
        law_values_stay_in_order(s, ns, c, a, at, floats.scores@, floats.sum, key, last);
        if key.len() < 0x100_0000 {
            lemma_alone(s, ns, c, a, at, floats.scores@, floats.sum, key);
        }
    }
}

/// The values of an empty store are in order.
pub proof fn law_empty_store_is_in_order(ns: Seq<u8>, key: Seq<u8>)
    ensures
        in_order(StoreView::empty(), ns, key),
        alone(StoreView::empty(), ns, key),
{
}

} // verus!
