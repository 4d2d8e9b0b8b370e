//! What holds of sorted sets whatever is done to them: the two families agree,
//! and the members stand in the order of their scores.

use super::laws;
use super::zset;
use super::zset::{MemberAction, ZaddFlags, ZsetState};
use super::Moment;
use crate::cmd;
use crate::codec;
use crate::encoding;
use crate::error::ErrorView;
use crate::order;
use crate::protocol::RespView;
use crate::score;
use crate::storage::StoreView;
use crate::table;
use crate::table::Entries;
use crate::types;
use crate::types::{DataType, Metadata};
use vstd::prelude::*;

verus! {

/// A sorted set is in order: every member's record is the bytes of a score
/// that is a number, and the score family has the key of a score and a member
/// exactly if the member has that score.
pub open spec fn zset_ok(e: Entries, z: Entries, ns: Seq<u8>, key: Seq<u8>, version: u64) -> bool {
    &&& forall|m: Seq<u8>| #[trigger]
        member_in(e, ns, key, version, m) ==> has_score(e, ns, key, version, m)
    &&& forall|t: Seq<u8>|
        z.contains_key(#[trigger] encoding::subkey_of(key, version, t, ns)) == (t.len() >= 8
            && member_in(e, ns, key, version, t.skip(8)) && e[encoding::subkey_of(
            key,
            version,
            t.skip(8),
            ns,
        )] == t.take(8))
}

/// The member is in the sorted set.
pub open spec fn member_in(e: Entries, ns: Seq<u8>, key: Seq<u8>, version: u64, m: Seq<u8>) -> bool {
    e.contains_key(encoding::subkey_of(key, version, m, ns))
}

/// The member's record is the bytes of a score that is a number.
pub open spec fn has_score(e: Entries, ns: Seq<u8>, key: Seq<u8>, version: u64, m: Seq<u8>) -> bool {
    let v = e[encoding::subkey_of(key, version, m, ns)];
    v.len() == 8 && !score::is_nan(score::score_in(v)) && v == score::score_bytes(
        score::score_in(v),
    )
}

/// The score of a member that is in order.
pub open spec fn score_at(e: Entries, ns: Seq<u8>, key: Seq<u8>, version: u64, m: Seq<u8>) -> u64 {
    score::score_in(e[encoding::subkey_of(key, version, m, ns)])
}

pub(crate) proof fn lemma_old_score(e: Entries, z: Entries, ns: Seq<u8>, key: Seq<u8>, version: u64, m: Seq<u8>)
    requires
        zset_ok(e, z, ns, key, version),
    ensures
        zset::old_score(e, ns, key, version, m) == Ok::<_, ErrorView>(
            if member_in(e, ns, key, version, m) {
                Some(score_at(e, ns, key, version, m))
            } else {
                None
            },
        ),
{
    if member_in(e, ns, key, version, m) {
        let v = e[encoding::subkey_of(key, version, m, ns)];
        assert(has_score(e, ns, key, version, m));
        assert(v.take(8) =~= v);
    }
}

/// Giving a member a score keeps a sorted set in order, and only that member's
/// score changes.
pub proof fn law_member_set(
    st: ZsetState,
    ns: Seq<u8>,
    key: Seq<u8>,
    version: u64,
    member: Seq<u8>,
    new: u64,
    other: Seq<u8>,
)
    requires
        zset_ok(st.subkey, st.zset_score, ns, key, version),
        !score::is_nan(new),
    ensures
        ({
            let prior = zset::old_score(st.subkey, ns, key, version, member)->Ok_0;
            let after = zset::member_set(st, ns, key, version, member, prior, new);
            &&& zset_ok(after.subkey, after.zset_score, ns, key, version)
            &&& zset::old_score(after.subkey, ns, key, version, member) == Ok::<_, ErrorView>(
                Some(new),
            )
            &&& other != member ==> zset::old_score(after.subkey, ns, key, version, other)
                == zset::old_score(st.subkey, ns, key, version, other)
        }),
{
    let e = st.subkey;
    let z = st.zset_score;
    lemma_old_score(e, z, ns, key, version, member);
    let prior = zset::old_score(e, ns, key, version, member)->Ok_0;
    let after = zset::member_set(st, ns, key, version, member, prior, new);
    let e2 = after.subkey;
    let z2 = after.zset_score;
    let sb = score::score_bytes(new);
    let sk = encoding::subkey_of(key, version, member, ns);
    score::law_score_round_trip(new);
    encoding::lemma_subkey_injective(key, version, member, other, ns);
    assert(sb.take(8) =~= sb);
    assert forall|m: Seq<u8>| #[trigger] member_in(e2, ns, key, version, m) implies has_score(
        e2,
        ns,
        key,
        version,
        m,
    ) by {
        encoding::lemma_subkey_injective(key, version, m, member, ns);
        if m != member {
            assert(member_in(e, ns, key, version, m));
            assert(has_score(e, ns, key, version, m));
        }
    }
    assert forall|t: Seq<u8>|
        z2.contains_key(#[trigger] encoding::subkey_of(key, version, t, ns)) == (t.len() >= 8
            && member_in(e2, ns, key, version, t.skip(8)) && e2[encoding::subkey_of(
            key,
            version,
            t.skip(8),
            ns,
        )] == t.take(8)) by {
        let k = encoding::subkey_of(key, version, t, ns);
        encoding::lemma_subkey_injective(key, version, t, sb + member, ns);
        let was = z.contains_key(k);
        if t.len() >= 8 {
            assert(t =~= t.take(8) + t.skip(8));
            encoding::lemma_subkey_injective(key, version, t.skip(8), member, ns);
        }
        assert((sb + member).skip(8) =~= member);
        assert((sb + member).take(8) =~= sb);
        match prior {
            Some(b) => {
                let pb = score::score_bytes(b);
                score::law_score_round_trip(b);
                assert(has_score(e, ns, key, version, member));
                assert(e[sk] == pb);
                encoding::lemma_subkey_injective(key, version, t, pb + member, ns);
                assert((pb + member).skip(8) =~= member);
                assert((pb + member).take(8) =~= pb);
            },
            None => {},
        }
    }
}

/// The members of a list are different from each other.
pub open spec fn distinct(u: Seq<(Seq<u8>, u64)>) -> bool {
    forall|i: int, j: int|
        0 <= i < j < u.len() ==> (#[trigger] u[i]).0 != (#[trigger] u[j]).0
}

/// All scores of a list are numbers.
pub open spec fn all_numbers(u: Seq<(Seq<u8>, u64)>) -> bool {
    forall|i: int| 0 <= i < u.len() ==> !score::is_nan((#[trigger] u[i]).1)
}

pub(crate) proof fn lemma_place(u: Seq<(Seq<u8>, u64)>, member: Seq<u8>, i: int)
    requires
        0 <= i <= u.len(),
    ensures
        ({
            let p = zset::place_from(u, member, i);
            &&& i <= p <= u.len()
            &&& p < u.len() ==> u[p].0 == member
            &&& forall|j: int| i <= j < p ==> (#[trigger] u[j]).0 != member
        }),
    decreases u.len() - i,
{
    if i < u.len() && u[i].0 != member {
        lemma_place(u, member, i + 1);
    }
}

pub(crate) proof fn lemma_updates(a: Seq<Seq<u8>>, scores: Seq<Option<u64>>, from: int, n: nat)
    requires
        zset::scores_given(scores, from, n),
    ensures
        distinct(zset::updates(a, scores, from, n)),
        all_numbers(zset::updates(a, scores, from, n)),
    decreases n,
{
    if n > 0 {
        assert forall|i: int| 0 <= i < n - 1 implies #[trigger] zset::score_arg(
            scores,
            from + 2 * i,
        ) is Some by {}
        lemma_updates(a, scores, from, (n - 1) as nat);
        let u = zset::updates(a, scores, from, (n - 1) as nat);
        let member = a[from + 2 * n - 1];
        assert(zset::score_arg(scores, from + 2 * (n - 1)) is Some);
        lemma_place(u, member, 0);
        let p = zset::place_from(u, member, 0);
        let after = zset::updates(a, scores, from, n);
        if p < u.len() {
            assert forall|i: int, j: int| 0 <= i < j < after.len() implies (#[trigger] after[i]).0
                != (#[trigger] after[j]).0 by {
                assert(after[i].0 == u[i].0);
                assert(after[j].0 == u[j].0);
            }
        }
    }
}

/// The sets of scores before and after `n` updates.
pub(crate) proof fn lemma_zadd_state(
    s: StoreView,
    ns: Seq<u8>,
    key: Seq<u8>,
    version: u64,
    f: ZaddFlags,
    u: Seq<(Seq<u8>, u64)>,
    n: nat,
)
    requires
        n <= u.len(),
        distinct(u),
        all_numbers(u),
        zset_ok(s.subkey, s.zset_score, ns, key, version),
        s.subkey.dom().finite(),
    ensures
        ({
            let st = zset::zadd_state(s, ns, key, version, f, u, n);
            &&& zset_ok(st.subkey, st.zset_score, ns, key, version)
            &&& st.subkey.dom().finite()
            &&& encoding::elements_of(st.subkey, key, version, ns).len()
                == encoding::elements_of(s.subkey, key, version, ns).len() + st.added
            &&& forall|m: Seq<u8>|
                (forall|i: int| 0 <= i < n ==> (#[trigger] u[i]).0 != m) ==> #[trigger]
                    zset::old_score(st.subkey, ns, key, version, m) == zset::old_score(
                    s.subkey,
                    ns,
                    key,
                    version,
                    m,
                )
            &&& forall|i: int|
                0 <= i < n ==> zset::old_score(st.subkey, ns, key, version, (#[trigger] u[i]).0)
                    == updated_score(s.subkey, ns, key, version, f, u[i])
        }),
    decreases n,
{
    let none = Seq::<u8>::empty();
    if n > 0 {
        lemma_zadd_state(s, ns, key, version, f, u, (n - 1) as nat);
        let st = zset::zadd_state(s, ns, key, version, f, u, (n - 1) as nat);
        let (member, new) = u[n - 1];
        assert forall|i: int| 0 <= i < n - 1 implies (#[trigger] u[i]).0 != member by {
            assert(u[i].0 != u[n - 1].0);
        }
        lemma_old_score(s.subkey, s.zset_score, ns, key, version, member);
        lemma_old_score(st.subkey, st.zset_score, ns, key, version, member);
        let prior = zset::old_score(s.subkey, ns, key, version, member)->Ok_0;
        assert(zset::old_score(st.subkey, ns, key, version, member)->Ok_0 == prior);
        assert(!score::is_nan(u[n - 1].1));
        if zset::member_action(f, prior, new) != MemberAction::Skip {
            let after = zset::zadd_state(s, ns, key, version, f, u, n);
            assert forall|m: Seq<u8>|
                (forall|i: int| 0 <= i < n ==> (#[trigger] u[i]).0 != m) implies #[trigger]
                    zset::old_score(after.subkey, ns, key, version, m) == zset::old_score(
                s.subkey,
                ns,
                key,
                version,
                m,
            ) by {
                assert(u[n - 1].0 != m);
                law_member_set(st, ns, key, version, member, new, m);
            }
            assert forall|i: int| 0 <= i < n implies zset::old_score(
                after.subkey,
                ns,
                key,
                version,
                (#[trigger] u[i]).0,
            ) == updated_score(s.subkey, ns, key, version, f, u[i]) by {
                law_member_set(st, ns, key, version, member, new, u[i].0);
            }
            law_member_set(st, ns, key, version, member, new, member);
            encoding::lemma_elements(
                st.subkey,
                key,
                version,
                ns,
                member,
                score::score_bytes(new),
            );
            let set = encoding::elements_of(st.subkey, key, version, ns);
            assert(set.contains(member) == (prior is Some));
            if set.contains(member) {
                assert(set.insert(member) =~= set);
            }
        }
    }
}

/// What a member's score comes to by ZADD.
pub open spec fn updated_score(
    e: Entries,
    ns: Seq<u8>,
    key: Seq<u8>,
    version: u64,
    f: ZaddFlags,
    update: (Seq<u8>, u64),
) -> Result<Option<u64>, ErrorView> {
    match zset::old_score(e, ns, key, version, update.0) {
        Err(x) => Err(x),
        Ok(prior) => if zset::member_action(f, prior, update.1) == MemberAction::Skip {
            Ok(prior)
        } else {
            Ok(Some(update.1))
        },
    }
}

/// The metadata that ZADD finds or makes.
pub open spec fn zadd_meta(s: StoreView, ns: Seq<u8>, key: Seq<u8>, at: Moment) -> Metadata {
    zset::meta_or_new(zset::zset_meta(s, ns, key, at.now_ms)->Ok_0, at.version)
}

/// A key holds a sorted set that is in order, or none, and then the version of
/// the moment is behind all that are stored for it.
pub open spec fn zset_ready(s: StoreView, ns: Seq<u8>, key: Seq<u8>, at: Moment, last: u64) -> bool {
    zset::zset_meta(s, ns, key, at.now_ms) is Ok ==> match zset::zset_meta(
        s,
        ns,
        key,
        at.now_ms,
    )->Ok_0 {
        Some(m) => zset_ok(s.subkey, s.zset_score, ns, key, m.version),
        None => laws::versions_upto(s, ns, key, last) && last < at.version,
    }
}

pub(crate) proof fn lemma_zset_ready(s: StoreView, ns: Seq<u8>, key: Seq<u8>, at: Moment, last: u64)
    requires
        zset::zset_meta(s, ns, key, at.now_ms) is Ok,
        zset_ready(s, ns, key, at, last),
    ensures
        zset_ok(s.subkey, s.zset_score, ns, key, zadd_meta(s, ns, key, at).version),
        zset::zset_meta(s, ns, key, at.now_ms)->Ok_0 is None ==> encoding::elements_of(
            s.subkey,
            key,
            at.version,
            ns,
        ) == Set::<Seq<u8>>::empty(),
{
    if zset::zset_meta(s, ns, key, at.now_ms)->Ok_0 is None {
        laws::law_later_versions_are_unused(s, ns, key, last, at.version);
    }
}

/// ZADD keeps a sorted set in order and goes on counting its members, gives
/// every member that is named the last score that it is given, unless an
/// option or the same score stands against it, and leaves all other scores as
/// they are. A sorted set that is made anew, with a version behind all that are
/// stored, starts out without members.
pub proof fn law_zadd(
    s: StoreView,
    ns: Seq<u8>,
    a: Seq<Seq<u8>>,
    at: Moment,
    scores: Seq<Option<u64>>,
    sum: u64,
    other: Seq<u8>,
    last: u64,
)
    requires
        zset::zadd_outcome(s, ns, a, at, scores, sum).reply is Ok,
        !(zset::flags_from(a, 1, zset::no_flags()).0).incr,
        zset_ready(s, ns, a[0], at, last),
        s.subkey.dom().finite(),
    ensures
        ({
            let o = zset::zadd_outcome(s, ns, a, at, scores, sum);
            let m = zadd_meta(s, ns, a[0], at);
            let (f, from) = zset::flags_from(a, 1, zset::no_flags());
            let u = zset::updates(a, scores, from, ((a.len() - from) / 2) as nat);
            let before = encoding::elements_of(s.subkey, a[0], m.version, ns).len();
            let after = encoding::elements_of(o.store.subkey, a[0], m.version, ns).len();
            &&& zset::zset_meta(s, ns, a[0], at.now_ms)->Ok_0 is None ==> before == 0 && m.size == 0
            &&& zset_ok(o.store.subkey, o.store.zset_score, ns, a[0], m.version)
            &&& before <= after
            &&& o.store.metadata.contains_key(encoding::meta_key_of(a[0], ns))
            &&& o.store.metadata[encoding::meta_key_of(a[0], ns)] == encoding::metadata_bytes(
                (Metadata { size: cmd::grown(m.size, (after - before) as nat), ..m }),
            )
            &&& !f.ch ==> o.reply == Ok::<_, ErrorView>(RespView::Integer((after - before) as i64))
            &&& forall|i: int|
                0 <= i < u.len() ==> zset::old_score(
                    o.store.subkey,
                    ns,
                    a[0],
                    m.version,
                    (#[trigger] u[i]).0,
                ) == updated_score(s.subkey, ns, a[0], m.version, f, u[i])
            &&& (forall|i: int| 0 <= i < u.len() ==> (#[trigger] u[i]).0 != other)
                ==> zset::old_score(o.store.subkey, ns, a[0], m.version, other)
                == zset::old_score(s.subkey, ns, a[0], m.version, other)
        }),
{
    lemma_zset_ready(s, ns, a[0], at, last);
    let m = zadd_meta(s, ns, a[0], at);
    let (f, from) = zset::flags_from(a, 1, zset::no_flags());
    let n = ((a.len() - from) / 2) as nat;
    lemma_updates(a, scores, from, n);
    let u = zset::updates(a, scores, from, n);
    lemma_zadd_state(s, ns, a[0], m.version, f, u, u.len());
    if forall|i: int| 0 <= i < u.len() ==> (#[trigger] u[i]).0 != other {
        let st = zset::zadd_state(s, ns, a[0], m.version, f, u, u.len());
        assert(zset::old_score(st.subkey, ns, a[0], m.version, other) == zset::old_score(
            s.subkey,
            ns,
            a[0],
            m.version,
            other,
        ));
    }
}

/// What ZADD wrote is read: the set is there, ZCARD counts what it counted and
/// what was added, and ZSCORE replies the score that every named member came
/// to.
pub proof fn law_zscore_after_zadd(
    s: StoreView,
    ns: Seq<u8>,
    a: Seq<Seq<u8>>,
    at: Moment,
    scores: Seq<Option<u64>>,
    sum: u64,
    i: int,
    last: u64,
)
    requires
        zset::zadd_outcome(s, ns, a, at, scores, sum).reply is Ok,
        !(zset::flags_from(a, 1, zset::no_flags()).0).incr,
        zset_ready(s, ns, a[0], at, last),
        s.subkey.dom().finite(),
        ({
            let from = zset::flags_from(a, 1, zset::no_flags()).1;
            0 <= i < zset::updates(a, scores, from, ((a.len() - from) / 2) as nat).len()
        }),
    ensures
        ({
            let o = zset::zadd_outcome(s, ns, a, at, scores, sum);
            let m = zadd_meta(s, ns, a[0], at);
            let (f, from) = zset::flags_from(a, 1, zset::no_flags());
            let u = zset::updates(a, scores, from, ((a.len() - from) / 2) as nat);
            let before = encoding::elements_of(s.subkey, a[0], m.version, ns).len();
            let after = encoding::elements_of(o.store.subkey, a[0], m.version, ns).len();
            &&& zset::zcard_reply(o.store, ns, seq![a[0]], at.now_ms) == Ok::<_, ErrorView>(
                cmd::count_reply(cmd::grown(m.size, (after - before) as nat)),
            )
            &&& zset::zscore_reply(o.store, ns, seq![a[0], u[i].0], at.now_ms) == match updated_score(
                s.subkey,
                ns,
                a[0],
                m.version,
                f,
                u[i],
            ) {
                Ok(Some(b)) => Ok(RespView::Score(b)),
                Ok(None) => Ok(cmd::bulk(None)),
                Err(e) => Err(e),
            }
        }),
{
    lemma_zset_ready(s, ns, a[0], at, last);
    let o = zset::zadd_outcome(s, ns, a, at, scores, sum);
    let m = zadd_meta(s, ns, a[0], at);
    let (f, from) = zset::flags_from(a, 1, zset::no_flags());
    let u = zset::updates(a, scores, from, ((a.len() - from) / 2) as nat);
    law_zadd(s, ns, a, at, scores, sum, Seq::empty(), last);
    let before = encoding::elements_of(s.subkey, a[0], m.version, ns).len();
    let after = encoding::elements_of(o.store.subkey, a[0], m.version, ns).len();
    let m2 = Metadata { size: cmd::grown(m.size, (after - before) as nat), ..m };
    lemma_meta_kept(s, o.store, ns, a[0], at, m2);
    assert(seq![a[0]][0] == a[0]);
    assert(seq![a[0], u[i].0][0] == a[0] && seq![a[0], u[i].0][1] == u[i].0);
}

pub(crate) proof fn lemma_meta_kept(
    s: StoreView,
    after: StoreView,
    ns: Seq<u8>,
    key: Seq<u8>,
    at: Moment,
    m: Metadata,
)
    requires
        zset::zset_meta(s, ns, key, at.now_ms) is Ok,
        m == (Metadata { size: m.size, ..zadd_meta(s, ns, key, at) }),
        after.metadata.contains_key(encoding::meta_key_of(key, ns)),
        after.metadata[encoding::meta_key_of(key, ns)] == encoding::metadata_bytes(m),
    ensures
        zset::zset_meta(after, ns, key, at.now_ms) == Ok::<_, ErrorView>(Some(m)),
{
    types::law_flags_round_trip(DataType::ZSet);
    encoding::law_values_round_trip(m, 0, 0, Seq::empty());
    assert(encoding::metadata_bytes(m)[0] == m.flags);
}

/// A member that gets a score is a member, the sorted set stays in order, and
/// its metadata goes on counting the members.
pub proof fn law_one_member_written(
    s: StoreView,
    ns: Seq<u8>,
    key: Seq<u8>,
    m: Metadata,
    member: Seq<u8>,
    new: u64,
)
    requires
        zset_ok(s.subkey, s.zset_score, ns, key, m.version),
        s.subkey.dom().finite(),
        !score::is_nan(new),
    ensures
        ({
            let prior = zset::old_score(s.subkey, ns, key, m.version, member)->Ok_0;
            let t = zset::one_member_written(s, ns, key, m, member, prior, new);
            let before = encoding::elements_of(s.subkey, key, m.version, ns);
            let after = encoding::elements_of(t.subkey, key, m.version, ns);
            &&& zset_ok(t.subkey, t.zset_score, ns, key, m.version)
            &&& before.finite() && after == before.insert(member)
            &&& t.metadata == s.metadata.insert(
                encoding::meta_key_of(key, ns),
                encoding::metadata_bytes(
                    (Metadata {
                        size: cmd::grown(m.size, (after.len() - before.len()) as nat),
                        ..m
                    }),
                ),
            )
        }),
{
    let st = ZsetState { subkey: s.subkey, zset_score: s.zset_score, added: 0, changed: 0 };
    law_member_set(st, ns, key, m.version, member, new, member);
    lemma_old_score(s.subkey, s.zset_score, ns, key, m.version, member);
    encoding::lemma_elements(
        s.subkey,
        key,
        m.version,
        ns,
        member,
        score::score_bytes(new),
    );
    let before = encoding::elements_of(s.subkey, key, m.version, ns);
    assert(before.contains(member) == member_in(s.subkey, ns, key, m.version, member));
    if before.contains(member) {
        assert(before.insert(member) =~= before);
    }
}

/// ZINCRBY keeps a sorted set in order, ZSCORE then replies what it replied,
/// and all other scores are as they were.
pub proof fn law_zincrby(
    s: StoreView,
    ns: Seq<u8>,
    a: Seq<Seq<u8>>,
    at: Moment,
    scores: Seq<Option<u64>>,
    sum: u64,
    other: Seq<u8>,
    last: u64,
)
    requires
        zset::zincrby_outcome(s, ns, a, at, scores, sum).reply is Ok,
        zset_ready(s, ns, a[0], at, last),
        other != a[2],
    ensures
        ({
            let o = zset::zincrby_outcome(s, ns, a, at, scores, sum);
            let v = zadd_meta(s, ns, a[0], at).version;
            &&& zset_ok(o.store.subkey, o.store.zset_score, ns, a[0], v)
            &&& zset::zscore_reply(o.store, ns, seq![a[0], a[2]], at.now_ms) == o.reply
            &&& zset::old_score(o.store.subkey, ns, a[0], v, other) == zset::old_score(
                s.subkey,
                ns,
                a[0],
                v,
                other,
            )
        }),
{
    lemma_zset_ready(s, ns, a[0], at, last);
    let o = zset::zincrby_outcome(s, ns, a, at, scores, sum);
    let m = zadd_meta(s, ns, a[0], at);
    let st = ZsetState { subkey: s.subkey, zset_score: s.zset_score, added: 0, changed: 0 };
    let new = (o.reply->Ok_0)->Score_0;
    law_member_set(st, ns, a[0], m.version, a[2], new, other);
    let prior = zset::old_score(s.subkey, ns, a[0], m.version, a[2])->Ok_0;
    let added = zset::member_set(st, ns, a[0], m.version, a[2], prior, new).added;
    let m2 = Metadata { size: cmd::grown(m.size, added), ..m };
    lemma_meta_kept(s, o.store, ns, a[0], at, m2);
    assert(seq![a[0], a[2]][0] == a[0] && seq![a[0], a[2]][1] == a[2]);
}

/// ZADD without options gives a member its new score as a number: only where
/// the score was the same number before does it stay as it was written.
pub proof fn law_plain_update(
    e: Entries,
    z: Entries,
    ns: Seq<u8>,
    key: Seq<u8>,
    version: u64,
    update: (Seq<u8>, u64),
)
    requires
        zset_ok(e, z, ns, key, version),
        !score::is_nan(update.1),
    ensures
        ({
            let r = updated_score(e, ns, key, version, zset::no_flags(), update);
            r is Ok && r->Ok_0 is Some && score::score_eq(r->Ok_0->0, update.1)
        }),
{
    lemma_old_score(e, z, ns, key, version, update.0);
    if member_in(e, ns, key, version, update.0) {
        assert(has_score(e, ns, key, version, update.0));
    }
}

/// ZREM keeps a sorted set in order and leaves none of the named members.
pub proof fn law_zrem(
    s: StoreView,
    ns: Seq<u8>,
    a: Seq<Seq<u8>>,
    version: u64,
    n: nat,
    member: Seq<u8>,
)
    requires
        n < a.len(),
        zset_ok(s.subkey, s.zset_score, ns, a[0], version),
    ensures
        ({
            let st = zset::zrem_state(s, ns, a, version, n);
            &&& zset_ok(st.subkey, st.zset_score, ns, a[0], version)
            &&& member_in(st.subkey, ns, a[0], version, member) <==> member_in(
                s.subkey,
                ns,
                a[0],
                version,
                member,
            ) && forall|i: int| 1 <= i <= n ==> #[trigger] a[i] != member
            &&& member_in(st.subkey, ns, a[0], version, member) ==> zset::old_score(
                st.subkey,
                ns,
                a[0],
                version,
                member,
            ) == zset::old_score(s.subkey, ns, a[0], version, member)
        }),
    decreases n,
{
    if n > 0 {
        law_zrem(s, ns, a, version, (n - 1) as nat, member);
        let st = zset::zrem_state(s, ns, a, version, (n - 1) as nat);
        let x = a[n as int];
        law_zrem(s, ns, a, version, (n - 1) as nat, x);
        lemma_old_score(s.subkey, s.zset_score, ns, a[0], version, x);
        encoding::lemma_subkey_injective(a[0], version, x, member, ns);
        if member_in(s.subkey, ns, a[0], version, x) {
            let b = score_at(s.subkey, ns, a[0], version, x);
            lemma_member_removed(st, ns, a[0], version, x, b, s);
        }
    }
}

/// ZREM replies by how many members a sorted set shrank, and ZCARD goes on
/// counting them.
pub proof fn law_zrem_counts_the_members(s: StoreView, ns: Seq<u8>, a: Seq<Seq<u8>>, now_ms: i64)
    requires
        a.len() >= 2,
        s.subkey.dom().finite(),
        zset::zset_meta(s, ns, a[0], now_ms) is Ok,
        zset::zset_meta(s, ns, a[0], now_ms)->Ok_0 is Some,
        zset_ok(
            s.subkey,
            s.zset_score,
            ns,
            a[0],
            (zset::zset_meta(s, ns, a[0], now_ms)->Ok_0->0).version,
        ),
    ensures
        ({
            let o = zset::zrem_outcome(s, ns, a, now_ms);
            let m = zset::zset_meta(s, ns, a[0], now_ms)->Ok_0->0;
            let before = encoding::elements_of(s.subkey, a[0], m.version, ns);
            let after = encoding::elements_of(o.store.subkey, a[0], m.version, ns);
            let size = cmd::shrunk(m.size, (before.len() - after.len()) as nat);
            &&& after == before.difference(cmd::set::named(a, (a.len() - 1) as nat))
            &&& after.finite() && before.finite()
            &&& zset_ok(o.store.subkey, o.store.zset_score, ns, a[0], m.version)
            &&& o.reply == Ok::<_, ErrorView>(
                RespView::Integer((before.len() - after.len()) as i64),
            )
            &&& zset::zset_meta(o.store, ns, a[0], now_ms) == Ok::<_, ErrorView>(
                Some(Metadata { size, ..m }),
            )
            &&& zset::zcard_reply(o.store, ns, seq![a[0]], now_ms) == Ok::<_, ErrorView>(
                cmd::count_reply(size),
            )
            &&& m.size == before.len() ==> size == after.len()
        }),
{
    let m = zset::zset_meta(s, ns, a[0], now_ms)->Ok_0->0;
    let n = (a.len() - 1) as nat;
    assert forall|i: int| 1 <= i < a.len() implies zset::old_score(
        s.subkey,
        ns,
        a[0],
        m.version,
        #[trigger] a[i],
    ) is Ok by {
        lemma_old_score(s.subkey, s.zset_score, ns, a[0], m.version, a[i]);
    }
    law_zrem(s, ns, a, m.version, n, a[0]);
    lemma_members_gone(s, ns, a, m.version, n);
    let o = zset::zrem_outcome(s, ns, a, now_ms);
    let changed = zset::zrem_state(s, ns, a, m.version, n).changed;
    if changed > 0 {
        let m2 = Metadata { size: cmd::shrunk(m.size, changed), ..m };
        lemma_meta_kept(s, o.store, ns, a[0], Moment { now_ms, version: 0 }, m2);
    }
    assert(seq![a[0]][0] == a[0]);
}

proof fn lemma_members_gone(s: StoreView, ns: Seq<u8>, a: Seq<Seq<u8>>, version: u64, n: nat)
    requires
        n < a.len(),
        s.subkey.dom().finite(),
        zset_ok(s.subkey, s.zset_score, ns, a[0], version),
    ensures
        ({
            let st = zset::zrem_state(s, ns, a, version, n);
            let before = encoding::elements_of(s.subkey, a[0], version, ns);
            let now = encoding::elements_of(st.subkey, a[0], version, ns);
            &&& st.subkey.dom().finite()
            &&& now == before.difference(cmd::set::named(a, n))
            &&& now.finite()
            &&& before.finite()
            &&& before.len() == now.len() + st.changed
        }),
    decreases n,
{
    let none = Seq::<u8>::empty();
    let before = encoding::elements_of(s.subkey, a[0], version, ns);
    encoding::lemma_elements(s.subkey, a[0], version, ns, none, none);
    if n == 0 {
        assert(before.difference(cmd::set::named(a, 0)) =~= before);
    } else {
        lemma_members_gone(s, ns, a, version, (n - 1) as nat);
        let x = a[n as int];
        let st = zset::zrem_state(s, ns, a, version, (n - 1) as nat);
        let now = encoding::elements_of(st.subkey, a[0], version, ns);
        law_zrem(s, ns, a, version, (n - 1) as nat, x);
        lemma_old_score(st.subkey, st.zset_score, ns, a[0], version, x);
        encoding::lemma_elements(st.subkey, a[0], version, ns, x, none);
        assert(now.remove(x) =~= before.difference(cmd::set::named(a, n)));
        if !now.contains(x) {
            assert(now.remove(x) =~= now);
        }
    }
}

proof fn lemma_member_removed(
    st: ZsetState,
    ns: Seq<u8>,
    key: Seq<u8>,
    version: u64,
    member: Seq<u8>,
    b: u64,
    s: StoreView,
)
    requires
        zset_ok(st.subkey, st.zset_score, ns, key, version),
        zset_ok(s.subkey, s.zset_score, ns, key, version),
        member_in(s.subkey, ns, key, version, member),
        b == score_at(s.subkey, ns, key, version, member),
        member_in(st.subkey, ns, key, version, member) ==> zset::old_score(
            st.subkey,
            ns,
            key,
            version,
            member,
        ) == zset::old_score(s.subkey, ns, key, version, member),
    ensures
        zset_ok(
            st.subkey.remove(encoding::subkey_of(key, version, member, ns)),
            st.zset_score.remove(zset::score_key(key, version, b, member, ns)),
            ns,
            key,
            version,
        ),
{
    let e = st.subkey;
    let z = st.zset_score;
    let sk = encoding::subkey_of(key, version, member, ns);
    let e2 = e.remove(sk);
    let z2 = z.remove(zset::score_key(key, version, b, member, ns));
    let sb = score::score_bytes(b);
    score::law_score_round_trip(b);
    assert(has_score(s.subkey, ns, key, version, member));
    lemma_old_score(e, z, ns, key, version, member);
    lemma_old_score(s.subkey, s.zset_score, ns, key, version, member);
    if member_in(e, ns, key, version, member) {
        assert(has_score(e, ns, key, version, member));
        assert(e[sk] == sb);
    }
    assert forall|m: Seq<u8>| #[trigger] member_in(e2, ns, key, version, m) implies has_score(
        e2,
        ns,
        key,
        version,
        m,
    ) by {
        assert(member_in(e, ns, key, version, m));
        assert(has_score(e, ns, key, version, m));
    }
    assert forall|t: Seq<u8>|
        z2.contains_key(#[trigger] encoding::subkey_of(key, version, t, ns)) == (t.len() >= 8
            && member_in(e2, ns, key, version, t.skip(8)) && e2[encoding::subkey_of(
            key,
            version,
            t.skip(8),
            ns,
        )] == t.take(8)) by {
        let k = encoding::subkey_of(key, version, t, ns);
        let was = z.contains_key(k);
        encoding::lemma_subkey_injective(key, version, t, sb + member, ns);
        assert((sb + member).skip(8) =~= member);
        assert((sb + member).take(8) =~= sb);
        if t.len() >= 8 {
            assert(t =~= t.take(8) + t.skip(8));
            encoding::lemma_subkey_injective(key, version, t.skip(8), member, ns);
        }
    }
}

/// The keys of a sorted set in the score family, from the smallest score.
pub open spec fn score_keys(z: Entries, ns: Seq<u8>, key: Seq<u8>, version: u64) -> Seq<Seq<u8>> {
    table::keys_with(z, encoding::sub_prefix(key, version, ns))
}

/// The members stand in the score family each once, from the smallest score to
/// the greatest, and members of one score in the order of their bytes. The key
/// must be shorter than 4 GiB and the namespace at most 255 bytes long.
pub proof fn law_members_stand_by_score(
    e: Entries,
    z: Entries,
    ns: Seq<u8>,
    key: Seq<u8>,
    version: u64,
)
    requires
        zset_ok(e, z, ns, key, version),
        z.dom().finite(),
        key.len() < 0x1_0000_0000,
        ns.len() <= 255,
    ensures
        ({
            let ks = score_keys(z, ns, key, version);
            &&& forall|i: int|
                0 <= i < ks.len() ==> stands_for(e, ns, key, version, #[trigger] ks[i])
            &&& forall|m: Seq<u8>| #[trigger]
                member_in(e, ns, key, version, m) ==> exists|i: int|
                    0 <= i < ks.len() && zset::member_of(#[trigger] ks[i], ns) == m
            &&& forall|i: int, j: int|
                0 <= i < j < ks.len() ==> score::score_le(
                    zset::score_of(#[trigger] ks[i], ns),
                    zset::score_of(#[trigger] ks[j], ns),
                )
            &&& forall|i: int, j: int|
                0 <= i < j < ks.len() && zset::score_of(ks[i], ns) == zset::score_of(ks[j], ns)
                    ==> order::lt(
                    zset::member_of(#[trigger] ks[i], ns),
                    zset::member_of(#[trigger] ks[j], ns),
                )
            &&& forall|i: int, j: int|
                0 <= i < j < ks.len() ==> zset::member_of(#[trigger] ks[i], ns)
                    != zset::member_of(#[trigger] ks[j], ns)
        }),
{
    let p = encoding::sub_prefix(key, version, ns);
    let ks = score_keys(z, ns, key, version);
    table::lemma_runs_listed(z, p, Seq::empty());
    assert forall|i: int| 0 <= i < ks.len() implies stands_for(
        e,
        ns,
        key,
        version,
        #[trigger] ks[i],
    ) by {
        lemma_stands(e, z, ns, key, version, i);
    }
    assert forall|m: Seq<u8>| #[trigger] member_in(e, ns, key, version, m) implies exists|i: int|
        0 <= i < ks.len() && zset::member_of(#[trigger] ks[i], ns) == m by {
        assert(has_score(e, ns, key, version, m));
        let v = e[encoding::subkey_of(key, version, m, ns)];
        let t = v + m;
        assert(t.skip(8) =~= m);
        assert(t.take(8) =~= v);
        let k = encoding::subkey_of(key, version, t, ns);
        assert(z.contains_key(k));
        order::lemma_prefix_append(p, t);
        assert(table::with_prefix(z, p).contains(k));
        let i = ks.index_of(k);
        encoding::law_keys_round_trip(key, version, t, ns);
        assert(ks[i] == k);
        assert(zset::member_of(ks[i], ns) == m);
    }
    assert forall|i: int, j: int| 0 <= i < j < ks.len() implies score::score_le(
        zset::score_of(#[trigger] ks[i], ns),
        zset::score_of(#[trigger] ks[j], ns),
    ) && (zset::score_of(ks[i], ns) == zset::score_of(ks[j], ns) ==> order::lt(
        zset::member_of(ks[i], ns),
        zset::member_of(ks[j], ns),
    )) && zset::member_of(ks[i], ns) != zset::member_of(ks[j], ns) by {
        assert(stands_for(e, ns, key, version, ks[i]));
        assert(stands_for(e, ns, key, version, ks[j]));
        let (a, b) = (zset::score_of(ks[i], ns), zset::score_of(ks[j], ns));
        let (m, n) = (zset::member_of(ks[i], ns), zset::member_of(ks[j], ns));
        let (x, y) = (score::score_bytes(a), score::score_bytes(b));
        assert(order::lt(ks[i], ks[j]));
        assert(ks[i] =~= p + (x + m));
        assert(ks[j] =~= p + (y + n));
        order::lemma_lt_common_prefix(p, x + m, y + n);
        score::law_score_round_trip(a);
        score::law_score_round_trip(b);
        score::law_score_bytes_order(a, b);
        score::law_score_bytes_order(b, a);
        if x == y {
            order::lemma_lt_common_prefix(x, m, n);
        } else {
            order::lemma_lt_total(x, y);
            if order::lt(y, x) {
                order::lemma_lt_extends(y, x, n, m);
                order::lemma_lt_asymmetric(y + n, x + m);
            }
        }
        if m == n {
            assert(x == y);
            order::lemma_lt_irreflexive(m);
        }
    }
}

/// A key of the score family is that of a member with its score.
pub open spec fn stands_for(e: Entries, ns: Seq<u8>, key: Seq<u8>, version: u64, k: Seq<u8>) -> bool {
    let m = zset::member_of(k, ns);
    let b = zset::score_of(k, ns);
    &&& zset::score_parts(k, ns) is Some
    &&& member_in(e, ns, key, version, m)
    &&& e[encoding::subkey_of(key, version, m, ns)] == score::score_bytes(b)
    &&& !score::is_nan(b)
    &&& k == zset::score_key(key, version, b, m, ns)
}

proof fn lemma_stands(
    e: Entries,
    z: Entries,
    ns: Seq<u8>,
    key: Seq<u8>,
    version: u64,
    i: int,
)
    requires
        zset_ok(e, z, ns, key, version),
        z.dom().finite(),
        key.len() < 0x1_0000_0000,
        ns.len() <= 255,
        0 <= i < score_keys(z, ns, key, version).len(),
    ensures
        stands_for(e, ns, key, version, score_keys(z, ns, key, version)[i]),
{
    let p = encoding::sub_prefix(key, version, ns);
    let ks = score_keys(z, ns, key, version);
    table::lemma_runs_listed(z, p, Seq::empty());
    let k = ks[i];
    assert(table::with_prefix(z, p).contains(k));
    order::lemma_prefix_split(k, p);
    let t = k.skip(p.len() as int);
    assert(k == encoding::subkey_of(key, version, t, ns));
    assert(z.contains_key(encoding::subkey_of(key, version, t, ns)));
    encoding::law_keys_round_trip(key, version, t, ns);
    let m = t.skip(8);
    assert(member_in(e, ns, key, version, m));
    assert(has_score(e, ns, key, version, m));
    assert(t =~= t.take(8) + m);
}

/// ZRANK gives the place at which ZRANGE shows the member, ZREVRANK the place
/// from the other end, and the two add up to the number of members less one.
pub proof fn law_zrank(
    s: StoreView,
    ns: Seq<u8>,
    key: Seq<u8>,
    member: Seq<u8>,
    now_ms: i64,
)
    requires
        key.len() < 0x1_0000_0000,
        ns.len() <= 255,
        s.zset_score.dom().finite(),
        zset::zset_meta(s, ns, key, now_ms) is Ok,
        zset::zset_meta(s, ns, key, now_ms)->Ok_0 is Some,
        ({
            let v = (zset::zset_meta(s, ns, key, now_ms)->Ok_0->0).version;
            &&& zset_ok(s.subkey, s.zset_score, ns, key, v)
            &&& member_in(s.subkey, ns, key, v, member)
            &&& score_keys(s.zset_score, ns, key, v).len() < 0x8000_0000_0000_0000
        }),
    ensures
        ({
            let v = (zset::zset_meta(s, ns, key, now_ms)->Ok_0->0).version;
            let ks = score_keys(s.zset_score, ns, key, v);
            let up = zset::zrank_reply(s, ns, seq![key, member], now_ms, false);
            let down = zset::zrank_reply(s, ns, seq![key, member], now_ms, true);
            exists|i: int|
                0 <= i < ks.len() && zset::member_of(#[trigger] ks[i], ns) == member && up == Ok::<
                    _,
                    ErrorView,
                >(RespView::Integer(i as i64)) && down == Ok::<_, ErrorView>(
                    RespView::Integer((ks.len() - 1 - i) as i64),
                )
        }),
{
    let v = (zset::zset_meta(s, ns, key, now_ms)->Ok_0->0).version;
    let e = s.subkey;
    let z = s.zset_score;
    let ks = score_keys(z, ns, key, v);
    law_members_stand_by_score(e, z, ns, key, v);
    lemma_old_score(e, z, ns, key, v, member);
    let i = choose|i: int| 0 <= i < ks.len() && zset::member_of(#[trigger] ks[i], ns) == member;
    let b = score_at(e, ns, key, v, member);
    let p = zset::ends_search(ns, b, member);
    assert(has_score(e, ns, key, v, member));
    assert forall|j: int| 0 <= j < ks.len() implies p(#[trigger] ks[j]) == (j == i) by {
        assert(stands_for(e, ns, key, v, ks[j]));
        assert(stands_for(e, ns, key, v, ks[i]));
        score::law_score_round_trip(b);
        score::law_score_round_trip(zset::score_of(ks[i], ns));
        if j < i {
            assert(zset::member_of(ks[j], ns) != zset::member_of(ks[i], ns));
        }
        if i < j {
            assert(zset::member_of(ks[i], ns) != zset::member_of(ks[j], ns));
        }
    }
    lemma_only_place(ks, p, i, 0);
    let back = ks.reverse();
    let r = ks.len() - 1 - i;
    assert forall|j: int| 0 <= j < back.len() implies p(#[trigger] back[j]) == (j == r) by {
        assert(back[j] == ks[ks.len() - 1 - j]);
    }
    lemma_only_place(back, p, r, 0);
    assert(back[r] == ks[i]);
    assert(zset::zrank_reply(s, ns, seq![key, member], now_ms, false) == Ok::<_, ErrorView>(
        RespView::Integer(i as i64),
    ));
    assert(zset::zrank_reply(s, ns, seq![key, member], now_ms, true) == Ok::<_, ErrorView>(
        RespView::Integer(r as i64),
    ));
}

proof fn lemma_only_place(ks: Seq<Seq<u8>>, p: spec_fn(Seq<u8>) -> bool, at: int, i: int)
    requires
        0 <= i <= at < ks.len(),
        forall|j: int| 0 <= j < ks.len() ==> p(#[trigger] ks[j]) == (j == at),
    ensures
        order::first_from(ks, p, i) == at,
    decreases at - i,
{
    assert(p(ks[i]) == (i == at));
    if i < at {
        lemma_only_place(ks, p, at, i + 1);
    }
}

/// A member stands before another one: the bytes of its score, which are
/// ordered as scores are, come before those of the other, or they are the same
/// and its own bytes come before.
pub open spec fn stands_before(
    e: Entries,
    ns: Seq<u8>,
    key: Seq<u8>,
    version: u64,
    m: Seq<u8>,
    n: Seq<u8>,
) -> bool {
    let x = e[encoding::subkey_of(key, version, m, ns)];
    let y = e[encoding::subkey_of(key, version, n, ns)];
    order::lt(x, y) || (x == y && order::lt(m, n))
}

/// The members that stand before one.
pub open spec fn members_before(
    e: Entries,
    ns: Seq<u8>,
    key: Seq<u8>,
    version: u64,
    member: Seq<u8>,
) -> Set<Seq<u8>> {
    encoding::elements_of(e, key, version, ns).filter(
        |m: Seq<u8>| stands_before(e, ns, key, version, m, member),
    )
}

/// The members that stand behind one.
pub open spec fn members_behind(
    e: Entries,
    ns: Seq<u8>,
    key: Seq<u8>,
    version: u64,
    member: Seq<u8>,
) -> Set<Seq<u8>> {
    encoding::elements_of(e, key, version, ns).filter(
        |m: Seq<u8>| stands_before(e, ns, key, version, member, m),
    )
}

/// The members in the order of the score family, as a sequence.
pub open spec fn member_list(z: Entries, ns: Seq<u8>, key: Seq<u8>, version: u64) -> Seq<Seq<u8>> {
    let ks = score_keys(z, ns, key, version);
    Seq::new(ks.len(), |i: int| zset::member_of(ks[i], ns))
}

pub(crate) proof fn lemma_member_list(
    e: Entries,
    z: Entries,
    ns: Seq<u8>,
    key: Seq<u8>,
    version: u64,
)
    requires
        zset_ok(e, z, ns, key, version),
        z.dom().finite(),
        key.len() < 0x1_0000_0000,
        ns.len() <= 255,
    ensures
        ({
            let l = member_list(z, ns, key, version);
            &&& l.no_duplicates()
            &&& l.to_set() == encoding::elements_of(e, key, version, ns)
            &&& forall|i: int, j: int|
                0 <= i < j < l.len() ==> stands_before(
                    e,
                    ns,
                    key,
                    version,
                    #[trigger] l[i],
                    #[trigger] l[j],
                )
        }),
{
    let ks = score_keys(z, ns, key, version);
    let l = member_list(z, ns, key, version);
    let p = encoding::sub_prefix(key, version, ns);
    law_members_stand_by_score(e, z, ns, key, version);
    table::lemma_runs_listed(z, p, Seq::empty());
    assert forall|m: Seq<u8>| l.to_set().contains(m) == encoding::elements_of(
        e,
        key,
        version,
        ns,
    ).contains(m) by {
        if l.to_set().contains(m) {
            let i = l.index_of(m);
            assert(stands_for(e, ns, key, version, ks[i]));
        }
        if member_in(e, ns, key, version, m) {
            let i = choose|i: int| 0 <= i < ks.len() && zset::member_of(#[trigger] ks[i], ns) == m;
            assert(l[i] == m);
        }
    }
    assert(l.to_set() =~= encoding::elements_of(e, key, version, ns));
    assert forall|i: int, j: int| 0 <= i < j < l.len() implies stands_before(
        e,
        ns,
        key,
        version,
        #[trigger] l[i],
        #[trigger] l[j],
    ) && l[i] != l[j] by {
        assert(stands_for(e, ns, key, version, ks[i]));
        assert(stands_for(e, ns, key, version, ks[j]));
        let (a, b) = (zset::score_of(ks[i], ns), zset::score_of(ks[j], ns));
        let (x, y) = (score::score_bytes(a), score::score_bytes(b));
        assert(order::lt(ks[i], ks[j]));
        assert(ks[i] =~= p + (x + l[i]));
        assert(ks[j] =~= p + (y + l[j]));
        order::lemma_lt_common_prefix(p, x + l[i], y + l[j]);
        score::law_score_round_trip(a);
        score::law_score_round_trip(b);
        if x == y {
            order::lemma_lt_common_prefix(x, l[i], l[j]);
        } else {
            order::lemma_lt_total(x, y);
            if order::lt(y, x) {
                order::lemma_lt_extends(y, x, l[j], l[i]);
                order::lemma_lt_asymmetric(y + l[j], x + l[i]);
            }
        }
        assert(zset::member_of(ks[i], ns) != zset::member_of(ks[j], ns));
    }
}

/// ZRANK gives the number of members that stand before a member, ZREVRANK the
/// number of those that stand behind it, and the two add up to what ZCARD
/// replies less one, where the size is the number of members.
pub proof fn law_ranks_count_the_members(
    s: StoreView,
    ns: Seq<u8>,
    key: Seq<u8>,
    member: Seq<u8>,
    now_ms: i64,
)
    requires
        key.len() < 0x1_0000_0000,
        ns.len() <= 255,
        s.zset_score.dom().finite(),
        zset::zset_meta(s, ns, key, now_ms) is Ok,
        zset::zset_meta(s, ns, key, now_ms)->Ok_0 is Some,
        ({
            let m = zset::zset_meta(s, ns, key, now_ms)->Ok_0->0;
            let members = encoding::elements_of(s.subkey, key, m.version, ns);
            &&& zset_ok(s.subkey, s.zset_score, ns, key, m.version)
            &&& members.contains(member)
            &&& m.size == members.len()
            &&& members.len() < 0x8000_0000_0000_0000
        }),
    ensures
        ({
            let v = (zset::zset_meta(s, ns, key, now_ms)->Ok_0->0).version;
            let before = members_before(s.subkey, ns, key, v, member).len();
            let behind = members_behind(s.subkey, ns, key, v, member).len();
            let a = seq![key, member];
            &&& zset::zrank_reply(s, ns, a, now_ms, false) == Ok::<_, ErrorView>(
                RespView::Integer(before as i64),
            )
            &&& zset::zrank_reply(s, ns, a, now_ms, true) == Ok::<_, ErrorView>(
                RespView::Integer(behind as i64),
            )
            &&& zset::zcard_reply(s, ns, seq![key], now_ms) == Ok::<_, ErrorView>(
                RespView::Integer((before + behind + 1) as i64),
            )
            &&& before + behind + 1 < 0x8000_0000_0000_0000
        }),
{
    let m = zset::zset_meta(s, ns, key, now_ms)->Ok_0->0;
    let v = m.version;
    let e = s.subkey;
    let z = s.zset_score;
    let ks = score_keys(z, ns, key, v);
    let l = member_list(z, ns, key, v);
    let members = encoding::elements_of(e, key, v, ns);
    lemma_member_list(e, z, ns, key, v);
    l.unique_seq_to_set();
    law_zrank(s, ns, key, member, now_ms);
    let i = choose|i: int|
        0 <= i < ks.len() && zset::member_of(#[trigger] ks[i], ns) == member && zset::zrank_reply(
            s,
            ns,
            seq![key, member],
            now_ms,
            false,
        ) == Ok::<_, ErrorView>(RespView::Integer(i as i64));
    assert(l[i] == member);
    let front = l.take(i);
    let back = l.skip(i + 1);
    assert forall|x: Seq<u8>| front.to_set().contains(x) == members_before(
        e,
        ns,
        key,
        v,
        member,
    ).contains(x) by {
        lemma_place_of(e, z, ns, key, v, i, x);
    }
    assert(front.to_set() =~= members_before(e, ns, key, v, member));
    front.unique_seq_to_set();
    assert forall|x: Seq<u8>| back.to_set().contains(x) == members_behind(
        e,
        ns,
        key,
        v,
        member,
    ).contains(x) by {
        lemma_place_of(e, z, ns, key, v, i, x);
    }
    assert(back.to_set() =~= members_behind(e, ns, key, v, member));
    back.unique_seq_to_set();
    assert(codec::from_bits(m.size as nat) == m.size);
}

proof fn lemma_place_of(
    e: Entries,
    z: Entries,
    ns: Seq<u8>,
    key: Seq<u8>,
    version: u64,
    i: int,
    x: Seq<u8>,
)
    requires
        zset_ok(e, z, ns, key, version),
        z.dom().finite(),
        key.len() < 0x1_0000_0000,
        ns.len() <= 255,
        0 <= i < member_list(z, ns, key, version).len(),
    ensures
        ({
            let l = member_list(z, ns, key, version);
            &&& l.take(i).contains(x) == members_before(e, ns, key, version, l[i]).contains(x)
            &&& l.skip(i + 1).contains(x) == members_behind(e, ns, key, version, l[i]).contains(x)
        }),
{
    let l = member_list(z, ns, key, version);
    let members = encoding::elements_of(e, key, version, ns);
    lemma_member_list(e, z, ns, key, version);
    let member = l[i];
    let y = e[encoding::subkey_of(key, version, member, ns)];
    if l.take(i).contains(x) {
        let j = l.take(i).index_of(x);
        assert(l[j] == x && l.to_set().contains(x));
    }
    if l.skip(i + 1).contains(x) {
        let j = l.skip(i + 1).index_of(x);
        assert(l[i + 1 + j] == x && l.to_set().contains(x));
    }
    if members.contains(x) {
        assert(l.to_set().contains(x));
        let j = l.index_of(x);
        let w = e[encoding::subkey_of(key, version, x, ns)];
        order::lemma_lt_irreflexive(w);
        order::lemma_lt_irreflexive(x);
        if j < i {
            assert(l.take(i)[j] == x);
            assert(stands_before(e, ns, key, version, l[j], l[i]));
            if order::lt(w, y) {
                order::lemma_lt_asymmetric(w, y);
            } else {
                order::lemma_lt_asymmetric(x, member);
            }
            if l.skip(i + 1).contains(x) {
                let k = l.skip(i + 1).index_of(x);
                assert(l[i + 1 + k] == x);
            }
        } else if j > i {
            assert(l.skip(i + 1)[j - i - 1] == x);
            assert(stands_before(e, ns, key, version, l[i], l[j]));
            if order::lt(y, w) {
                order::lemma_lt_asymmetric(y, w);
            } else {
                order::lemma_lt_asymmetric(member, x);
            }
            if l.take(i).contains(x) {
                let k = l.take(i).index_of(x);
                assert(l[k] == x);
            }
        } else {
            if l.take(i).contains(x) {
                let k = l.take(i).index_of(x);
                assert(l[k] == x);
            }
            if l.skip(i + 1).contains(x) {
                let k = l.skip(i + 1).index_of(x);
                assert(l[i + 1 + k] == x);
            }
        }
    }
}

/// ZRANK and ZREVRANK reply nothing for a key that is not there and for what is
/// no member.
pub proof fn law_no_rank(s: StoreView, ns: Seq<u8>, key: Seq<u8>, member: Seq<u8>, now_ms: i64)
    requires
        zset::zset_meta(s, ns, key, now_ms) is Ok,
        match zset::zset_meta(s, ns, key, now_ms)->Ok_0 {
            None => true,
            Some(m) => zset_ok(s.subkey, s.zset_score, ns, key, m.version) && !member_in(
                s.subkey,
                ns,
                key,
                m.version,
                member,
            ),
        },
    ensures
        zset::zrank_reply(s, ns, seq![key, member], now_ms, false) == Ok::<_, ErrorView>(
            cmd::bulk(None),
        ),
        zset::zrank_reply(s, ns, seq![key, member], now_ms, true) == Ok::<_, ErrorView>(
            cmd::bulk(None),
        ),
{
    match zset::zset_meta(s, ns, key, now_ms)->Ok_0 {
        None => {},
        Some(m) => lemma_old_score(s.subkey, s.zset_score, ns, key, m.version, member),
    }
}

/// ZRANGE over all places shows every member, and ZREVRANGE shows the same
/// members in the opposite order. The size must be the number of members.
pub proof fn law_zrange_shows_all(
    s: StoreView,
    ns: Seq<u8>,
    key: Seq<u8>,
    now_ms: i64,
)
    requires
        key.len() < 0x1_0000_0000,
        ns.len() <= 255,
        s.zset_score.dom().finite(),
        zset::zset_meta(s, ns, key, now_ms) is Ok,
        zset::zset_meta(s, ns, key, now_ms)->Ok_0 is Some,
        ({
            let m = zset::zset_meta(s, ns, key, now_ms)->Ok_0->0;
            &&& zset_ok(s.subkey, s.zset_score, ns, key, m.version)
            &&& m.size == encoding::elements_of(s.subkey, key, m.version, ns).len()
            &&& m.size < 0x8000_0000_0000_0000
        }),
    ensures
        ({
            let m = zset::zset_meta(s, ns, key, now_ms)->Ok_0->0;
            let ks = score_keys(s.zset_score, ns, key, m.version);
            let all = seq![key, seq![48u8], seq![45u8, 49u8]];
            &&& zset::zrange_reply(s, ns, all, now_ms, false) == Ok::<_, ErrorView>(
                RespView::Array(
                    Seq::new(
                        ks.len(),
                        |i: int| cmd::bulk(Some(zset::member_of(ks[i], ns))),
                    ),
                ),
            )
            &&& zset::zrange_reply(s, ns, all, now_ms, true) == Ok::<_, ErrorView>(
                RespView::Array(
                    Seq::new(
                        ks.len(),
                        |i: int| cmd::bulk(Some(zset::member_of(ks[ks.len() - 1 - i], ns))),
                    ),
                ),
            )
        }),
{
    let m = zset::zset_meta(s, ns, key, now_ms)->Ok_0->0;
    let ks = score_keys(s.zset_score, ns, key, m.version);
    let zero = seq![48u8];
    let minus_one = seq![45u8, 49u8];
    let all = seq![key, zero, minus_one];
    assert(crate::text::i64_in(zero) == Some(0i64)) by {
        crate::text::law_decimal_round_trip(0, 0);
        reveal_with_fuel(crate::text::dec, 2);
        assert(crate::text::dec_signed(0) =~= zero);
    }
    assert(crate::text::i64_in(minus_one) == Some(-1i64)) by {
        crate::text::law_decimal_round_trip(0, -1);
        reveal_with_fuel(crate::text::dec, 2);
        assert(crate::text::dec_signed(-1) =~= minus_one);
    }
    law_members_stand_by_score(s.subkey, s.zset_score, ns, key, m.version);
    lemma_member_list(s.subkey, s.zset_score, ns, key, m.version);
    member_list(s.zset_score, ns, key, m.version).unique_seq_to_set();
    assert(codec::from_bits(m.size as nat) == m.size);
    let back = ks.reverse();
    assert forall|i: int| 0 <= i < ks.len() implies zset::score_parts(
        #[trigger] ks[i],
        ns,
    ) is Some by {
        assert(stands_for(s.subkey, ns, key, m.version, ks[i]));
    }
    assert forall|i: int| 0 <= i < back.len() implies zset::score_parts(
        #[trigger] back[i],
        ns,
    ) is Some by {
        assert(back[i] == ks[ks.len() - 1 - i]);
    }
    assert(ks.subrange(0, ks.len() as int) =~= ks);
    assert(back.subrange(0, back.len() as int) =~= back);
    let up = Seq::new(ks.len(), |i: int| cmd::bulk(Some(zset::member_of(ks[i], ns))));
    let down = Seq::new(
        ks.len(),
        |i: int| cmd::bulk(Some(zset::member_of(ks[ks.len() - 1 - i], ns))),
    );
    assert(zset::rendered(zset::items_of(ks, ns), false) =~= up);
    assert(zset::rendered(zset::items_of(back, ns), false) =~= down);
    assert(zset::rendered(Seq::empty(), false) =~= Seq::<RespView>::empty());
    if ks.len() == 0 {
        assert(up =~= Seq::<RespView>::empty());
        assert(down =~= Seq::<RespView>::empty());
    }
    assert(all[1] == zero && all[2] == minus_one && all[0] == key);
}

} // verus!
