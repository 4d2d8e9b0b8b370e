//! What holds of sets, told by what SISMEMBER replies: SMEMBERS and SCARD, SADD
//! and SREM, SPOP, and the operations on several sets.

use super::laws;
use super::Moment;
use crate::cmd;
use crate::encoding;
use crate::error::ErrorView;
use crate::order;
use crate::protocol::RespView;
use crate::storage::StoreView;
use crate::text;
use vstd::prelude::*;

verus! {

/// SISMEMBER replies 1.
pub open spec fn is_member(
    s: StoreView,
    ns: Seq<u8>,
    key: Seq<u8>,
    m: Seq<u8>,
    now_ms: i64,
) -> bool {
    cmd::set::sismember_reply(s, ns, seq![key, m], now_ms) == Ok::<_, ErrorView>(
        RespView::Integer(1),
    )
}

/// Members as a reply.
pub open spec fn members_reply(l: Seq<Seq<u8>>) -> RespView {
    RespView::Array(Seq::new(l.len(), |i: int| RespView::BulkString(Some(l[i]))))
}

/// The size in the metadata of a set is the number of its members.
pub open spec fn set_counted(s: StoreView, ns: Seq<u8>, key: Seq<u8>, now_ms: i64) -> bool {
    match cmd::set::set_meta(s, ns, key, now_ms) {
        Ok(Some(m)) => m.size == encoding::elements_of(s.subkey, key, m.version, ns).len(),
        _ => true,
    }
}

proof fn lemma_is_member(s: StoreView, ns: Seq<u8>, key: Seq<u8>, m: Seq<u8>, now_ms: i64)
    requires
        cmd::set::set_meta(s, ns, key, now_ms) is Ok,
    ensures
        is_member(s, ns, key, m, now_ms) == match cmd::set::set_meta(s, ns, key, now_ms)->Ok_0 {
            Some(meta) => encoding::elements_of(s.subkey, key, meta.version, ns).contains(m),
            None => false,
        },
        cmd::set::sismember_reply(s, ns, seq![key, m], now_ms) == Ok::<_, ErrorView>(
            RespView::Integer(
                if is_member(s, ns, key, m, now_ms) {
                    1
                } else {
                    0
                },
            ),
        ),
{
    assert(seq![key, m][0] == key && seq![key, m][1] == m);
}

proof fn lemma_ascending_once(l: Seq<Seq<u8>>)
    requires
        order::ascending(l),
    ensures
        l.no_duplicates(),
{
    assert forall|i: int, j: int| 0 <= i < l.len() && 0 <= j < l.len() && i != j implies l[i]
        != l[j] by {
        if l[i] == l[j] {
            order::lemma_ascending_injective(l, i, j);
        }
    }
}

/// SMEMBERS replies exactly the members for which SISMEMBER replies 1, each
/// once, in ascending order, and SCARD replies how many there are.
#[verifier::rlimit(60)]
pub proof fn law_smembers(s: StoreView, ns: Seq<u8>, key: Seq<u8>, now_ms: i64) -> (l: Seq<Seq<u8>>)
    requires
        s.subkey.dom().finite(),
        key.len() < 0x1_0000_0000,
        ns.len() <= 255,
        cmd::set::set_meta(s, ns, key, now_ms) is Ok,
    ensures
        order::ascending(l),
        l.no_duplicates(),
        forall|m: Seq<u8>| #[trigger] l.contains(m) <==> is_member(s, ns, key, m, now_ms),
        cmd::set::smembers_reply(s, ns, seq![key], now_ms) == Ok::<_, ErrorView>(members_reply(l)),
        set_counted(s, ns, key, now_ms) && l.len() < 0x8000_0000_0000_0000
            ==> cmd::set::scard_reply(s, ns, seq![key], now_ms) == Ok::<_, ErrorView>(
            RespView::Integer(l.len() as i64),
        ),
{
    assert(seq![key][0] == key);
    match cmd::set::set_meta(s, ns, key, now_ms)->Ok_0 {
        None => {
            let l = Seq::<Seq<u8>>::empty();
            assert(members_reply(l)->Array_0 =~= Seq::<RespView>::empty());
            assert forall|m: Seq<u8>| #[trigger] l.contains(m) <==> is_member(
                s,
                ns,
                key,
                m,
                now_ms,
            ) by {
                lemma_is_member(s, ns, key, m, now_ms);
            }
            l
        },
        Some(meta) => {
            let l = cmd::set::members(s.subkey, ns, key, meta.version);
            let set = encoding::elements_of(s.subkey, key, meta.version, ns);
            cmd::set::law_members(s.subkey, ns, key, meta.version);
            lemma_ascending_once(l);
            assert forall|m: Seq<u8>| #[trigger] l.contains(m) <==> is_member(
                s,
                ns,
                key,
                m,
                now_ms,
            ) by {
                lemma_is_member(s, ns, key, m, now_ms);
                assert(l.contains(m) == cmd::set::has_member(s.subkey, ns, key, meta.version, m));
            }
            assert forall|m: Seq<u8>| l.to_set().contains(m) == set.contains(m) by {
                assert(l.contains(m) == cmd::set::has_member(s.subkey, ns, key, meta.version, m));
            }
            assert(l.to_set() =~= set);
            l.unique_seq_to_set();
            assert(cmd::set::bulks(l) =~= members_reply(l)->Array_0);
            l
        },
    }
}

proof fn lemma_named(a: Seq<Seq<u8>>, n: nat, m: Seq<u8>)
    requires
        n < a.len(),
    ensures
        cmd::set::named(a, n).contains(m) == a.subrange(1, 1 + n as int).contains(m),
    decreases n,
{
    let part = a.subrange(1, 1 + n as int);
    if n > 0 {
        lemma_named(a, (n - 1) as nat, m);
        let before = a.subrange(1, n as int);
        assert(part =~= before.push(a[n as int]));
        if before.contains(m) {
            assert(part[before.index_of(m)] == m);
        }
        if a[n as int] == m {
            assert(part[n - 1] == m);
        }
        if part.contains(m) {
            let i = part.index_of(m);
            if i < n - 1 {
                assert(before[i] == m);
            }
        }
    }
}

/// After SADD the members of a set are those that it had and those that were
/// named, and no others. Its reply is how many of the named ones were new, and
/// SCARD has grown by so many. A set that is made anew, with a version behind all
/// that are stored, has the named members alone.
#[verifier::rlimit(60)]
pub proof fn law_sadd(
    s: StoreView,
    ns: Seq<u8>,
    key: Seq<u8>,
    names: Seq<Seq<u8>>,
    at: Moment,
    last: u64,
)
    requires
        names.len() > 0,
        s.subkey.dom().finite(),
        cmd::set::set_meta(s, ns, key, at.now_ms) is Ok,
        cmd::set::set_meta(s, ns, key, at.now_ms)->Ok_0 is None ==> laws::versions_upto(
            s,
            ns,
            key,
            last,
        ) && last < at.version,
    ensures
        ({
            let o = cmd::set::sadd_outcome(s, ns, seq![key] + names, at);
            let fresh = names.to_set().filter(|m: Seq<u8>| !is_member(s, ns, key, m, at.now_ms));
            &&& forall|m: Seq<u8>| #[trigger]
                is_member(o.store, ns, key, m, at.now_ms) <==> is_member(s, ns, key, m, at.now_ms)
                    || names.contains(m)
            &&& o.reply == Ok::<_, ErrorView>(RespView::Integer(fresh.len() as i64))
            &&& cmd::set::set_meta(o.store, ns, key, at.now_ms) is Ok
            &&& cmd::set::set_meta(o.store, ns, key, at.now_ms)->Ok_0 is Some
            &&& set_counted(s, ns, key, at.now_ms) && encoding::elements_of(
                o.store.subkey,
                key,
                cmd::set::sadd_meta(s, ns, key, at).version,
                ns,
            ).len() <= u64::MAX ==> set_counted(o.store, ns, key, at.now_ms)
        }),
{
    let a = seq![key] + names;
    let n = names.len();
    assert(a[0] == key);
    assert(a.subrange(1, 1 + n as int) =~= names);
    let o = cmd::set::sadd_outcome(s, ns, a, at);
    let meta = cmd::set::sadd_meta(s, ns, key, at);
    cmd::set::law_sadd_is_union(s, ns, a, at, last);
    let before = encoding::elements_of(s.subkey, key, meta.version, ns);
    let after = encoding::elements_of(o.store.subkey, key, meta.version, ns);
    assert forall|m: Seq<u8>| before.contains(m) == is_member(s, ns, key, m, at.now_ms) by {
        lemma_is_member(s, ns, key, m, at.now_ms);
    }
    assert forall|m: Seq<u8>| #[trigger] is_member(o.store, ns, key, m, at.now_ms) <==> is_member(
        s,
        ns,
        key,
        m,
        at.now_ms,
    ) || names.contains(m) by {
        lemma_is_member(o.store, ns, key, m, at.now_ms);
        lemma_named(a, n, m);
        assert(before.contains(m) == is_member(s, ns, key, m, at.now_ms));
    }
    let fresh = names.to_set().filter(|m: Seq<u8>| !is_member(s, ns, key, m, at.now_ms));
    assert forall|m: Seq<u8>| fresh.contains(m) == after.difference(before).contains(m) by {
        lemma_named(a, n, m);
        assert(before.contains(m) == is_member(s, ns, key, m, at.now_ms));
    }
    assert(fresh =~= after.difference(before));
    assert(before.subset_of(after));
    vstd::set_lib::lemma_set_difference_len(after, before);
    assert(after.intersect(before) =~= before);
}

/// After SREM the members of a set are those that it had and that were not
/// named. Its reply is how many of the named ones were members. Of a key that is
/// not there nothing is removed.
#[verifier::rlimit(60)]
pub proof fn law_srem(
    s: StoreView,
    ns: Seq<u8>,
    key: Seq<u8>,
    names: Seq<Seq<u8>>,
    now_ms: i64,
)
    requires
        names.len() > 0,
        s.subkey.dom().finite(),
        cmd::set::set_meta(s, ns, key, now_ms) is Ok,
    ensures
        ({
            let o = cmd::set::srem_outcome(s, ns, seq![key] + names, now_ms);
            let gone = names.to_set().filter(|m: Seq<u8>| is_member(s, ns, key, m, now_ms));
            &&& forall|m: Seq<u8>| #[trigger]
                is_member(o.store, ns, key, m, now_ms) <==> is_member(s, ns, key, m, now_ms)
                    && !names.contains(m)
            &&& o.reply == Ok::<_, ErrorView>(RespView::Integer(gone.len() as i64))
            &&& cmd::set::set_meta(s, ns, key, now_ms)->Ok_0 is None ==> o.store == s
            &&& set_counted(s, ns, key, now_ms) ==> set_counted(o.store, ns, key, now_ms)
        }),
{
    let a = seq![key] + names;
    let n = names.len();
    assert(a[0] == key);
    assert(a.subrange(1, 1 + n as int) =~= names);
    let o = cmd::set::srem_outcome(s, ns, a, now_ms);
    let gone = names.to_set().filter(|m: Seq<u8>| is_member(s, ns, key, m, now_ms));
    match cmd::set::set_meta(s, ns, key, now_ms)->Ok_0 {
        None => {
            assert forall|m: Seq<u8>| !#[trigger] is_member(s, ns, key, m, now_ms) by {
                lemma_is_member(s, ns, key, m, now_ms);
            }
            assert(gone =~= Set::<Seq<u8>>::empty());
        },
        Some(meta) => {
            cmd::set::law_srem_is_difference(s, ns, a, now_ms);
            let before = encoding::elements_of(s.subkey, key, meta.version, ns);
            let after = encoding::elements_of(o.store.subkey, key, meta.version, ns);
            assert forall|m: Seq<u8>| before.contains(m) == is_member(s, ns, key, m, now_ms) by {
                lemma_is_member(s, ns, key, m, now_ms);
            }
            assert forall|m: Seq<u8>| #[trigger] is_member(o.store, ns, key, m, now_ms)
                <==> is_member(s, ns, key, m, now_ms) && !names.contains(m) by {
                lemma_is_member(o.store, ns, key, m, now_ms);
                lemma_named(a, n, m);
                assert(before.contains(m) == is_member(s, ns, key, m, now_ms));
            }
            assert forall|m: Seq<u8>| gone.contains(m) == before.difference(after).contains(m) by {
                lemma_named(a, n, m);
                assert(before.contains(m) == is_member(s, ns, key, m, now_ms));
            }
            assert(gone =~= before.difference(after));
            vstd::set_lib::lemma_set_difference_len(before, after);
            assert(before.intersect(after) =~= after);
        },
    }
}

/// The arguments of SPOP with or without a count.
pub open spec fn pop_args(key: Seq<u8>, count: Seq<u8>, counted: bool) -> Seq<Seq<u8>> {
    if counted {
        seq![key, count]
    } else {
        seq![key]
    }
}

/// SPOP replies members of a set, each once: one without a count, or nothing if
/// there is none, and with a count as many as it says, or all of them. After that
/// the members are those that it had and that were not replied.
#[verifier::rlimit(60)]
pub proof fn law_spop(
    s: StoreView,
    ns: Seq<u8>,
    key: Seq<u8>,
    count: Seq<u8>,
    at: Moment,
    counted: bool,
) -> (gone: Seq<Seq<u8>>)
    requires
        text::usize_in(count) is Some,
        s.subkey.dom().finite(),
        key.len() < 0x1_0000_0000,
        ns.len() <= 255,
        cmd::set::set_meta(s, ns, key, at.now_ms) is Ok,
    ensures
        ({
            let o = cmd::set::spop_outcome(s, ns, pop_args(key, count, counted), at);
            let wanted = if counted {
                text::usize_in(count)->0 as nat
            } else {
                1
            };
            let all = (cmd::set::smembers_reply(s, ns, seq![key], at.now_ms)->Ok_0)->Array_0;
            &&& gone.no_duplicates()
            &&& forall|m: Seq<u8>| #[trigger]
                gone.contains(m) ==> is_member(s, ns, key, m, at.now_ms)
            &&& gone.len() == if wanted < all.len() {
                wanted
            } else {
                all.len()
            }
            &&& o.reply == Ok::<_, ErrorView>(
                if counted {
                    members_reply(gone)
                } else if gone.len() > 0 {
                    RespView::BulkString(Some(gone[0]))
                } else {
                    RespView::BulkString(None)
                },
            )
            &&& forall|m: Seq<u8>| #[trigger]
                is_member(o.store, ns, key, m, at.now_ms) <==> is_member(s, ns, key, m, at.now_ms)
                    && !gone.contains(m)
        }),
{
    let a = pop_args(key, count, counted);
    assert(a[0] == key);
    assert(counted ==> a[1] == count);
    let o = cmd::set::spop_outcome(s, ns, a, at);
    let all = law_smembers(s, ns, key, at.now_ms);
    assert forall|l: Seq<Seq<u8>>| cmd::set::bulks(l) =~= #[trigger] members_reply(l)->Array_0 by {}
    match cmd::set::set_meta(s, ns, key, at.now_ms)->Ok_0 {
        None => {
            let gone = Seq::<Seq<u8>>::empty();
            assert(cmd::set::bulks(gone) =~= members_reply(gone)->Array_0);
            gone
        },
        Some(meta) => {
            cmd::set::law_spop_takes_members(s, ns, a, at);
            let before = encoding::elements_of(s.subkey, key, meta.version, ns);
            let gone = cmd::set::picked(
                cmd::set::members(s.subkey, ns, key, meta.version),
                cmd::set::pop_count(a)->0 as nat,
                at.version,
            );
            assert(cmd::set::bulks(gone) =~= members_reply(gone)->Array_0);
            assert(all.to_set() =~= before) by {
                assert forall|m: Seq<u8>| all.to_set().contains(m) == before.contains(m) by {
                    lemma_is_member(s, ns, key, m, at.now_ms);
                    assert(all.contains(m) == is_member(s, ns, key, m, at.now_ms));
                }
            }
            all.unique_seq_to_set();
            assert forall|m: Seq<u8>| #[trigger] gone.contains(m) implies is_member(
                s,
                ns,
                key,
                m,
                at.now_ms,
            ) by {
                lemma_is_member(s, ns, key, m, at.now_ms);
                let i = gone.index_of(m);
                assert(before.contains(gone[i]));
            }
            assert forall|m: Seq<u8>| #[trigger] is_member(o.store, ns, key, m, at.now_ms)
                <==> is_member(s, ns, key, m, at.now_ms) && !gone.contains(m) by {
                lemma_is_member(s, ns, key, m, at.now_ms);
                lemma_is_member(o.store, ns, key, m, at.now_ms);
                assert(gone.to_set().contains(m) == gone.contains(m));
            }
            gone
        },
    }
}

proof fn lemma_filter_once(l: Seq<Seq<u8>>, p: spec_fn(Seq<u8>) -> bool)
    requires
        l.no_duplicates(),
    ensures
        l.filter(p).no_duplicates(),
    decreases l.len(),
{
    reveal(Seq::filter);
    if l.len() > 0 {
        let before = l.drop_last();
        assert(before.no_duplicates());
        lemma_filter_once(before, p);
        cmd::set::lemma_filter_contains(before, p, l.last());
        assert(!before.contains(l.last())) by {
            if before.contains(l.last()) {
                let i = before.index_of(l.last());
                assert(l[i] == l[l.len() - 1]);
            }
        }
    }
}

/// Where all keys hold sets or nothing, SINTER replies exactly what SISMEMBER
/// finds in all of the sets, each member once.
#[verifier::rlimit(60)]
pub proof fn law_sinter(s: StoreView, ns: Seq<u8>, keys: Seq<Seq<u8>>, now_ms: i64) -> (l: Seq<
    Seq<u8>,
>)
    requires
        keys.len() > 0,
        cmd::set::keys_fit(keys, ns),
        s.subkey.dom().finite(),
        forall|i: int|
            0 <= i < keys.len() ==> cmd::set::set_meta(s, ns, #[trigger] keys[i], now_ms) is Ok,
    ensures
        l.no_duplicates(),
        forall|m: Seq<u8>| #[trigger]
            l.contains(m) <==> forall|i: int|
                0 <= i < keys.len() ==> is_member(s, ns, #[trigger] keys[i], m, now_ms),
        cmd::set::sinter_reply(s, ns, keys, now_ms) == Ok::<_, ErrorView>(members_reply(l)),
{
    let n = keys.len();
    cmd::set::lemma_no_fault(s, ns, keys, now_ms, n);
    lemma_metas_ok(s, ns, keys, now_ms, n);
    let l = match cmd::set::all_metas(s, ns, keys, now_ms, n)->Ok_0 {
        None => Seq::<Seq<u8>>::empty(),
        Some(ms) => {
            let base = cmd::set::smallest(ms, ms.len());
            cmd::set::members(s.subkey, ns, keys[base], ms[base].version).filter(
                cmd::set::in_all(s.subkey, ns, keys, ms),
            )
        },
    };
    assert(cmd::set::bulks(l) =~= members_reply(l)->Array_0);
    match cmd::set::all_metas(s, ns, keys, now_ms, n)->Ok_0 {
        None => {
            assert(members_reply(l)->Array_0 =~= Seq::<RespView>::empty());
        },
        Some(ms) => {
            cmd::set::lemma_all_metas_len(s, ns, keys, now_ms, n);
            cmd::set::lemma_smallest_push(ms, ms[0], ms.len());
            let base = cmd::set::smallest(ms, ms.len());
            assert(keys[base].len() < 0x1_0000_0000);
            cmd::set::law_members(s.subkey, ns, keys[base], ms[base].version);
            let all = cmd::set::members(s.subkey, ns, keys[base], ms[base].version);
            lemma_ascending_once(all);
            lemma_filter_once(all, cmd::set::in_all(s.subkey, ns, keys, ms));
        },
    }
    assert forall|m: Seq<u8>| #[trigger] l.contains(m) <==> forall|i: int|
        0 <= i < keys.len() ==> is_member(s, ns, #[trigger] keys[i], m, now_ms) by {
        cmd::set::law_sinter_is_intersection(s, ns, keys, now_ms, m);
        cmd::set::lemma_bulks_contain(l, m);
        if forall|i: int| 0 <= i < keys.len() ==> is_member(s, ns, #[trigger] keys[i], m, now_ms) {
            assert forall|j: int| 0 <= j < keys.len() implies cmd::set::sismember_reply(
                s,
                ns,
                seq![#[trigger] keys[j], m],
                now_ms,
            ) == Ok::<_, ErrorView>(RespView::Integer(1)) by {
                assert(is_member(s, ns, keys[j], m, now_ms));
            }
        }
        if l.contains(m) {
            assert forall|j: int| 0 <= j < keys.len() implies is_member(
                s,
                ns,
                #[trigger] keys[j],
                m,
                now_ms,
            ) by {
                assert(cmd::set::sismember_reply(s, ns, seq![keys[j], m], now_ms) == Ok::<
                    _,
                    ErrorView,
                >(RespView::Integer(1)));
            }
        }
    }
    l
}

proof fn lemma_metas_ok(s: StoreView, ns: Seq<u8>, keys: Seq<Seq<u8>>, now_ms: i64, n: nat)
    requires
        n <= keys.len(),
        forall|i: int|
            0 <= i < keys.len() ==> cmd::set::set_meta(s, ns, #[trigger] keys[i], now_ms) is Ok,
    ensures
        cmd::set::all_metas(s, ns, keys, now_ms, n) is Ok,
    decreases n,
{
    if n > 0 {
        lemma_metas_ok(s, ns, keys, now_ms, (n - 1) as nat);
        assert(cmd::set::set_meta(s, ns, keys[n - 1], now_ms) is Ok);
    }
}

/// Where all keys hold sets or nothing, SDIFF replies exactly what SISMEMBER
/// finds in the first set and in none of the others, each member once.
#[verifier::rlimit(60)]
pub proof fn law_sdiff(s: StoreView, ns: Seq<u8>, keys: Seq<Seq<u8>>, now_ms: i64) -> (l: Seq<
    Seq<u8>,
>)
    requires
        keys.len() > 0,
        cmd::set::keys_fit(keys, ns),
        s.subkey.dom().finite(),
        forall|i: int|
            0 <= i < keys.len() ==> cmd::set::set_meta(s, ns, #[trigger] keys[i], now_ms) is Ok,
    ensures
        l.no_duplicates(),
        forall|m: Seq<u8>| #[trigger]
            l.contains(m) <==> is_member(s, ns, keys[0], m, now_ms) && forall|i: int|
                1 <= i < keys.len() ==> !is_member(s, ns, #[trigger] keys[i], m, now_ms),
        cmd::set::sdiff_reply(s, ns, keys, now_ms) == Ok::<_, ErrorView>(members_reply(l)),
{
    let n = keys.len();
    cmd::set::lemma_no_fault(s, ns, keys, now_ms, n);
    assert(cmd::set::set_meta(s, ns, keys[0], now_ms) is Ok);
    let l = match cmd::set::set_meta(s, ns, keys[0], now_ms)->Ok_0 {
        None => Seq::<Seq<u8>>::empty(),
        Some(meta) => cmd::set::members(s.subkey, ns, keys[0], meta.version).filter(
            cmd::set::in_no_other(s, ns, keys, now_ms),
        ),
    };
    assert(cmd::set::bulks(l) =~= members_reply(l)->Array_0);
    match cmd::set::set_meta(s, ns, keys[0], now_ms)->Ok_0 {
        None => {
            assert(members_reply(l)->Array_0 =~= Seq::<RespView>::empty());
        },
        Some(meta) => {
            assert(keys[0].len() < 0x1_0000_0000);
            cmd::set::law_members(s.subkey, ns, keys[0], meta.version);
            let all = cmd::set::members(s.subkey, ns, keys[0], meta.version);
            lemma_ascending_once(all);
            lemma_filter_once(all, cmd::set::in_no_other(s, ns, keys, now_ms));
        },
    }
    assert forall|m: Seq<u8>| #[trigger] l.contains(m) <==> is_member(s, ns, keys[0], m, now_ms)
        && forall|i: int|
        1 <= i < keys.len() ==> !is_member(s, ns, #[trigger] keys[i], m, now_ms) by {
        cmd::set::law_sdiff_is_difference(s, ns, keys, now_ms, m);
        cmd::set::lemma_bulks_contain(l, m);
        if l.contains(m) {
            assert forall|i: int| 1 <= i < keys.len() implies !is_member(
                s,
                ns,
                #[trigger] keys[i],
                m,
                now_ms,
            ) by {
                assert(cmd::set::sismember_reply(s, ns, seq![keys[i], m], now_ms) != Ok::<
                    _,
                    ErrorView,
                >(RespView::Integer(1)));
            }
        }
        if forall|i: int| 1 <= i < keys.len() ==> !is_member(s, ns, #[trigger] keys[i], m, now_ms) {
            assert forall|j: int| 1 <= j < keys.len() implies cmd::set::sismember_reply(
                s,
                ns,
                seq![#[trigger] keys[j], m],
                now_ms,
            ) != Ok::<_, ErrorView>(RespView::Integer(1)) by {
                assert(!is_member(s, ns, keys[j], m, now_ms));
            }
        }
    }
    l
}

/// How many members SMEMBERS replies for some keys, all together.
pub open spec fn members_together(
    s: StoreView,
    ns: Seq<u8>,
    keys: Seq<Seq<u8>>,
    now_ms: i64,
) -> nat
    decreases keys.len(),
{
    if keys.len() == 0 {
        0
    } else {
        members_together(s, ns, keys.drop_last(), now_ms) + ((cmd::set::smembers_reply(
            s,
            ns,
            seq![keys.last()],
            now_ms,
        )->Ok_0)->Array_0).len()
    }
}

/// Where all keys hold sets or nothing, SUNION replies exactly what SISMEMBER
/// finds in at least one of the sets, each member once. It works at least if the
/// sets have no more members together than a union may have; a union that has
/// more is refused.
#[verifier::rlimit(60)]
pub proof fn law_sunion(s: StoreView, ns: Seq<u8>, keys: Seq<Seq<u8>>, now_ms: i64) -> (l: Seq<
    Seq<u8>,
>)
    requires
        keys.len() > 0,
        cmd::set::keys_fit(keys, ns),
        s.subkey.dom().finite(),
        forall|i: int|
            0 <= i < keys.len() ==> cmd::set::set_meta(s, ns, #[trigger] keys[i], now_ms) is Ok,
    ensures
        ({
            let r = cmd::set::sunion_reply(s, ns, keys, now_ms);
            &&& members_together(s, ns, keys, now_ms) <= cmd::set::SET_UNION_RESULT_LIMIT
                ==> r is Ok
            &&& r is Err ==> r == Err::<RespView, _>(
                ErrorView::Command("SUNION result exceeds memory limit"@),
            )
            &&& r is Ok ==> {
                &&& r == Ok::<_, ErrorView>(members_reply(l))
                &&& l.no_duplicates()
                &&& l.len() <= cmd::set::SET_UNION_RESULT_LIMIT
                &&& forall|m: Seq<u8>| #[trigger]
                    l.contains(m) <==> exists|i: int|
                        0 <= i < keys.len() && is_member(s, ns, #[trigger] keys[i], m, now_ms)
            }
        }),
{
    let n = keys.len();
    cmd::set::lemma_no_fault(s, ns, keys, now_ms, n);
    lemma_union(s, ns, keys, now_ms, n);
    assert(keys.take(n as int) =~= keys);
    let r = cmd::set::sunion_reply(s, ns, keys, now_ms);
    let l = cmd::set::union_of(s, ns, keys, now_ms, n)->Ok_0;
    assert(cmd::set::bulks(l) =~= members_reply(l)->Array_0);
    if r is Ok {
        assert forall|m: Seq<u8>| #[trigger] l.contains(m) <==> exists|i: int|
            0 <= i < keys.len() && is_member(s, ns, #[trigger] keys[i], m, now_ms) by {
            cmd::set::law_sunion_is_union(s, ns, keys, now_ms, m);
            cmd::set::lemma_bulks_contain(l, m);
            if l.contains(m) {
                let j = choose|j: int|
                    0 <= j < keys.len() && cmd::set::sismember_reply(
                        s,
                        ns,
                        seq![#[trigger] keys[j], m],
                        now_ms,
                    ) == Ok::<_, ErrorView>(RespView::Integer(1));
                assert(is_member(s, ns, keys[j], m, now_ms));
            }
            if exists|i: int|
                0 <= i < keys.len() && is_member(s, ns, #[trigger] keys[i], m, now_ms) {
                let i = choose|i: int|
                    0 <= i < keys.len() && is_member(s, ns, #[trigger] keys[i], m, now_ms);
                assert(cmd::set::sismember_reply(s, ns, seq![keys[i], m], now_ms) == Ok::<
                    _,
                    ErrorView,
                >(RespView::Integer(1)));
            }
        }
    }
    l
}

proof fn lemma_merged_len(acc: Seq<Seq<u8>>, ms: Seq<Seq<u8>>, n: nat)
    requires
        n <= ms.len(),
    ensures
        acc.len() + n <= cmd::set::SET_UNION_RESULT_LIMIT ==> cmd::set::merged(acc, ms, n) is Some,
        cmd::set::merged(acc, ms, n) is Some ==> (cmd::set::merged(acc, ms, n)->0).len()
            <= acc.len() + n,
    decreases n,
{
    if n > 0 {
        lemma_merged_len(acc, ms, (n - 1) as nat);
    }
}

proof fn lemma_union(s: StoreView, ns: Seq<u8>, keys: Seq<Seq<u8>>, now_ms: i64, n: nat)
    requires
        n <= keys.len(),
        forall|i: int|
            0 <= i < keys.len() ==> cmd::set::set_meta(s, ns, #[trigger] keys[i], now_ms) is Ok,
    ensures
        ({
            let u = cmd::set::union_of(s, ns, keys, now_ms, n);
            let all = members_together(s, ns, keys.take(n as int), now_ms);
            &&& all <= cmd::set::SET_UNION_RESULT_LIMIT ==> u is Ok
            &&& u is Ok ==> (u->Ok_0).len() <= all && (u->Ok_0).no_duplicates() && (u->Ok_0).len()
                <= cmd::set::SET_UNION_RESULT_LIMIT
            &&& u is Err ==> u == Err::<Seq<Seq<u8>>, _>(
                ErrorView::Command("SUNION result exceeds memory limit"@),
            )
        }),
    decreases n,
{
    if n > 0 {
        lemma_union(s, ns, keys, now_ms, (n - 1) as nat);
        let part = keys.take(n as int);
        assert(part.drop_last() =~= keys.take(n - 1));
        assert(part.last() == keys[n - 1]);
        let key = keys[n - 1];
        assert(seq![key][0] == key);
        assert(cmd::set::set_meta(s, ns, keys[n - 1], now_ms) is Ok);
        let before = cmd::set::union_of(s, ns, keys, now_ms, (n - 1) as nat);
        match cmd::set::set_meta(s, ns, key, now_ms)->Ok_0 {
            None => {},
            Some(meta) => {
                let ms = cmd::set::members(s.subkey, ns, key, meta.version);
                assert(cmd::set::bulks(ms).len() == ms.len());
                if before is Ok {
                    lemma_merged_len(before->Ok_0, ms, ms.len());
                    cmd::set::law_sunion_limit(before->Ok_0, ms, ms.len());
                }
            },
        }
    }
}

} // verus!
