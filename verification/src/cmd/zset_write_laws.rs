//! What holds of writing to sorted sets, told by the scores that ZSCORE replies:
//! what ZADD does with each of its options, and what ZINCRBY and ZREM do.

use super::zset;
use super::zset::ZaddFlags;
use super::zset_laws;
use super::zset_laws::{zadd_meta, zset_ok, zset_ready};
use super::zset_range_laws::score_replied;
use super::Moment;
use crate::cmd;
use crate::encoding;
use crate::error::ErrorView;
use crate::protocol::RespView;
use crate::score;
use crate::storage::StoreView;
use crate::table::Entries;
use crate::text;
use crate::types::Metadata;
use vstd::prelude::*;

verus! {

/// One of some words is an option.
pub open spec fn has_option(words: Seq<Seq<u8>>, option: Seq<char>) -> bool {
    exists|i: int| 0 <= i < words.len() && text::is_word(#[trigger] words[i], option)
}

/// A word is an option of ZADD.
pub open spec fn is_option(w: Seq<u8>) -> bool {
    text::is_word(w, "NX"@) || text::is_word(w, "XX"@) || text::is_word(w, "GT"@) || text::is_word(
        w,
        "LT"@,
    ) || text::is_word(w, "CH"@) || text::is_word(w, "INCR"@)
}

/// The arguments of ZADD: a key, options, and scores with members behind them.
pub open spec fn zadd_args(
    key: Seq<u8>,
    options: Seq<Seq<u8>>,
    pairs: Seq<Seq<u8>>,
) -> Seq<Seq<u8>> {
    seq![key] + options + pairs
}

/// The options are options and the pairs are pairs.
pub open spec fn zadd_form(options: Seq<Seq<u8>>, pairs: Seq<Seq<u8>>) -> bool {
    &&& forall|i: int| 0 <= i < options.len() ==> is_option(#[trigger] options[i])
    &&& pairs.len() > 0 && pairs.len() % 2 == 0
    &&& !is_option(pairs[0])
}

/// The flags that some options are.
pub open spec fn flags_of(options: Seq<Seq<u8>>) -> ZaddFlags {
    ZaddFlags {
        nx: has_option(options, "NX"@),
        xx: has_option(options, "XX"@),
        gt: has_option(options, "GT"@),
        lt: has_option(options, "LT"@),
        ch: has_option(options, "CH"@),
        incr: has_option(options, "INCR"@),
    }
}

proof fn lemma_option_words(w: Seq<u8>)
    ensures
        text::is_word(w, "NX"@) ==> !text::is_word(w, "XX"@) && !text::is_word(w, "GT"@)
            && !text::is_word(w, "LT"@) && !text::is_word(w, "CH"@) && !text::is_word(w, "INCR"@),
        text::is_word(w, "XX"@) ==> !text::is_word(w, "GT"@) && !text::is_word(w, "LT"@)
            && !text::is_word(w, "CH"@) && !text::is_word(w, "INCR"@),
        text::is_word(w, "GT"@) ==> !text::is_word(w, "LT"@) && !text::is_word(w, "CH"@)
            && !text::is_word(w, "INCR"@),
        text::is_word(w, "LT"@) ==> !text::is_word(w, "CH"@) && !text::is_word(w, "INCR"@),
        text::is_word(w, "CH"@) ==> !text::is_word(w, "INCR"@),
{
    reveal_strlit("NX");
    reveal_strlit("XX");
    reveal_strlit("GT");
    reveal_strlit("LT");
    reveal_strlit("CH");
    reveal_strlit("INCR");
    if w.len() == 2 {
        let c = text::upper(w[0]) as int;
        assert(text::is_word(w, "NX"@) ==> c == 'N' as int);
        assert(text::is_word(w, "XX"@) ==> c == 'X' as int);
        assert(text::is_word(w, "GT"@) ==> c == 'G' as int);
        assert(text::is_word(w, "LT"@) ==> c == 'L' as int);
        assert(text::is_word(w, "CH"@) ==> c == 'C' as int);
    }
}

proof fn lemma_has_option(words: Seq<Seq<u8>>, w: Seq<u8>, option: Seq<char>)
    ensures
        has_option(words.push(w), option) == (has_option(words, option) || text::is_word(
            w,
            option,
        )),
{
    let more = words.push(w);
    if has_option(words, option) {
        let i = choose|i: int| 0 <= i < words.len() && text::is_word(#[trigger] words[i], option);
        assert(more[i] == words[i]);
    }
    if text::is_word(w, option) {
        assert(more[words.len() as int] == w);
    }
    if has_option(more, option) {
        let i = choose|i: int| 0 <= i < more.len() && text::is_word(#[trigger] more[i], option);
        if i < words.len() {
            assert(words[i] == more[i]);
        }
    }
}

proof fn lemma_flag(words: Seq<Seq<u8>>, w: Seq<u8>)
    requires
        is_option(w),
    ensures
        zset::with_flag(flags_of(words), w) == Some(flags_of(words.push(w))),
{
    lemma_option_words(w);
    lemma_has_option(words, w, "NX"@);
    lemma_has_option(words, w, "XX"@);
    lemma_has_option(words, w, "GT"@);
    lemma_has_option(words, w, "LT"@);
    lemma_has_option(words, w, "CH"@);
    lemma_has_option(words, w, "INCR"@);
}

proof fn lemma_flags(key: Seq<u8>, options: Seq<Seq<u8>>, pairs: Seq<Seq<u8>>, i: int)
    requires
        zadd_form(options, pairs),
        0 <= i <= options.len(),
    ensures
        zset::flags_from(zadd_args(key, options, pairs), 1 + i, flags_of(options.take(i))) == (
            flags_of(options),
            1 + options.len() as int,
        ),
    decreases options.len() - i,
{
    let a = zadd_args(key, options, pairs);
    if i < options.len() {
        assert(a[1 + i] == options[i]);
        assert(is_option(options[i]));
        lemma_flag(options.take(i), options[i]);
        assert(options.take(i + 1) =~= options.take(i).push(options[i]));
        lemma_flags(key, options, pairs, i + 1);
    } else {
        assert(a[1 + i] == pairs[0]);
        assert(options.take(i) =~= options);
        assert(zset::with_flag(flags_of(options), pairs[0]) is None);
    }
}

proof fn lemma_no_options(options: Seq<Seq<u8>>)
    ensures
        flags_of(options.take(0)) == zset::no_flags(),
{
    assert(options.take(0) =~= Seq::<Seq<u8>>::empty());
}

/// The score that the last one of `n` pairs with a member gives it; nothing if no
/// pair has the member. The pairs begin at the argument `from`.
pub open spec fn last_given(
    pairs: Seq<Seq<u8>>,
    scores: Seq<Option<u64>>,
    from: int,
    n: nat,
    member: Seq<u8>,
) -> Option<u64>
    decreases n,
{
    if n == 0 {
        None
    } else if pairs[2 * n - 1] == member {
        scores[from + 2 * n - 2]
    } else {
        last_given(pairs, scores, from, (n - 1) as nat, member)
    }
}

/// All pairs have a score that is a number.
pub open spec fn scores_fit(scores: Seq<Option<u64>>, from: int, n: nat) -> bool {
    forall|i: int|
        0 <= i < n ==> 0 <= from + 2 * i < scores.len() && (#[trigger] scores[from + 2 * i]) is Some
            && !score::is_nan(scores[from + 2 * i]->0)
}

proof fn lemma_scores_given(scores: Seq<Option<u64>>, from: int, n: nat)
    requires
        scores_fit(scores, from, n),
    ensures
        zset::scores_given(scores, from, n),
        forall|i: int|
            0 <= i < n ==> #[trigger] zset::score_arg(scores, from + 2 * i) == scores[from + 2 * i],
{
    assert forall|i: int| 0 <= i < n implies #[trigger] zset::score_arg(scores, from + 2 * i)
        == scores[from + 2 * i] && scores[from + 2 * i] is Some by {}
}

/// The list of updates gives every member its last score.
#[verifier::rlimit(60)]
proof fn lemma_given(
    a: Seq<Seq<u8>>,
    pairs: Seq<Seq<u8>>,
    scores: Seq<Option<u64>>,
    from: int,
    n: nat,
)
    requires
        0 <= from,
        from + 2 * n <= a.len(),
        2 * n <= pairs.len(),
        forall|i: int| 0 <= i < 2 * n ==> a[from + i] == #[trigger] pairs[i],
        scores_fit(scores, from, n),
    ensures
        ({
            let u = zset::updates(a, scores, from, n);
            &&& forall|m: Seq<u8>|
                (#[trigger] last_given(pairs, scores, from, n, m)) is Some ==> exists|j: int|
                    0 <= j < u.len() && (#[trigger] u[j]).0 == m
            &&& forall|j: int|
                0 <= j < u.len() ==> last_given(pairs, scores, from, n, (#[trigger] u[j]).0)
                    == Some(u[j].1)
        }),
    decreases n,
{
    if n > 0 {
        let before = zset::updates(a, scores, from, (n - 1) as nat);
        let u = zset::updates(a, scores, from, n);
        assert forall|i: int| 0 <= i < n - 1 implies 0 <= from + 2 * i < scores.len() && (
        #[trigger] scores[from + 2 * i]) is Some && !score::is_nan(scores[from + 2 * i]->0) by {}
        lemma_given(a, pairs, scores, from, (n - 1) as nat);
        let member = pairs[2 * n - 1];
        assert(a[from + (2 * n - 1)] == member);
        assert(scores[from + 2 * (n - 1)] is Some);
        let b = scores[from + 2 * n - 2]->0;
        assert(zset::score_arg(scores, from + 2 * n - 2) == Some(b));
        zset_laws::lemma_place(before, member, 0);
        let p = zset::place_from(before, member, 0);
        lemma_scores_given(scores, from, n);
        zset_laws::lemma_updates(a, scores, from, n);
        assert(u[p] == (member, b));
        assert forall|m: Seq<u8>|
            (#[trigger] last_given(pairs, scores, from, n, m)) is Some implies exists|j: int|
            0 <= j < u.len() && (#[trigger] u[j]).0 == m by {
            if m != member {
                assert(last_given(pairs, scores, from, (n - 1) as nat, m) is Some);
                let j = choose|j: int| 0 <= j < before.len() && (#[trigger] before[j]).0 == m;
                assert(u[j].0 == m);
            } else {
                assert(u[p].0 == m);
            }
        }
        assert forall|j: int| 0 <= j < u.len() implies last_given(
            pairs,
            scores,
            from,
            n,
            (#[trigger] u[j]).0,
        ) == Some(u[j].1) by {
            if j != p {
                assert(u[j] == before[j]);
                assert(u[j].0 != u[p].0);
            }
        }
    }
}

/// What becomes of a score: a member that is not named keeps its score. A new
/// member gets the score that it is given, unless only members are updated. A
/// member gets its new score unless none is updated, the score would not grow
/// where it must, would not shrink where it must, or is the same number.
pub open spec fn score_rule(
    nx: bool,
    xx: bool,
    gt: bool,
    lt: bool,
    prior: Option<u64>,
    given: Option<u64>,
) -> Option<u64> {
    match (prior, given) {
        (_, None) => prior,
        (None, Some(b)) => if xx {
            None
        } else {
            Some(b)
        },
        (Some(p), Some(b)) => if nx || (gt && !score::score_lt(p, b)) || (lt && !score::score_lt(
            b,
            p,
        )) || score::score_eq(p, b) {
            Some(p)
        } else {
            Some(b)
        },
    }
}

/// ZADD without INCR, whatever its options: every member that is named comes to
/// the last score that it is given, as NX, XX, GT and LT allow, and all other
/// members keep theirs. It works for all sets of options but NX with XX, GT with
/// LT, and NX with GT or LT, which are refused.
#[verifier::rlimit(60)]
pub proof fn law_zadd_scores(
    s: StoreView,
    ns: Seq<u8>,
    key: Seq<u8>,
    options: Seq<Seq<u8>>,
    pairs: Seq<Seq<u8>>,
    at: Moment,
    scores: Seq<Option<u64>>,
    sum: u64,
    member: Seq<u8>,
    last: u64,
)
    requires
        zadd_form(options, pairs),
        !has_option(options, "INCR"@),
        scores_fit(scores, 1 + options.len() as int, (pairs.len() / 2) as nat),
        zset::zset_meta(s, ns, key, at.now_ms) is Ok,
        zset_ready(s, ns, key, at, last),
        s.subkey.dom().finite(),
    ensures
        ({
            let o = zset::zadd_outcome(s, ns, zadd_args(key, options, pairs), at, scores, sum);
            let nx = has_option(options, "NX"@);
            let xx = has_option(options, "XX"@);
            let gt = has_option(options, "GT"@);
            let lt = has_option(options, "LT"@);
            let clash = nx && xx || gt && lt || nx && gt || nx && lt;
            &&& clash ==> o.reply is Err && o.store == s
            &&& !clash ==> o.reply is Ok && score_replied(o.store, ns, key, member, at.now_ms)
                == score_rule(
                nx,
                xx,
                gt,
                lt,
                score_replied(s, ns, key, member, at.now_ms),
                last_given(
                    pairs,
                    scores,
                    1 + options.len() as int,
                    (pairs.len() / 2) as nat,
                    member,
                ),
            )
        }),
{
    let a = zadd_args(key, options, pairs);
    let from = 1 + options.len() as int;
    let n = (pairs.len() / 2) as nat;
    assert(a[0] == key);
    lemma_no_options(options);
    lemma_flags(key, options, pairs, 0);
    let f = flags_of(options);
    lemma_scores_given(scores, from, n);
    let o = zset::zadd_outcome(s, ns, a, at, scores, sum);
    if zset::flags_error(f) is None {
        let m = zadd_meta(s, ns, key, at);
        zset_laws::lemma_zset_ready(s, ns, key, at, last);
        zset_laws::lemma_updates(a, scores, from, n);
        let u = zset::updates(a, scores, from, n);
        assert((a.len() - from) / 2 == n);
        assert forall|i: int| 0 <= i < u.len() implies zset::old_score(
            s.subkey,
            ns,
            key,
            m.version,
            (#[trigger] u[i]).0,
        ) is Ok by {
            zset_laws::lemma_old_score(s.subkey, s.zset_score, ns, key, m.version, u[i].0);
        }
        assert(o.reply is Ok);
        assert forall|i: int| 0 <= i < 2 * n implies a[from + i] == #[trigger] pairs[i] by {}
        lemma_given(a, pairs, scores, from, n);
        zset_laws::law_zadd(s, ns, a, at, scores, sum, member, last);
        lemma_score_replied(s, ns, key, at, member);
        let before = encoding::elements_of(s.subkey, key, m.version, ns).len();
        let after = encoding::elements_of(o.store.subkey, key, m.version, ns).len();
        let m2 = Metadata { size: cmd::grown(m.size, (after - before) as nat), ..m };
        zset_laws::lemma_meta_kept(s, o.store, ns, key, at, m2);
        assert(seq![key, member][0] == key && seq![key, member][1] == member);
        zset_laws::lemma_old_score(s.subkey, s.zset_score, ns, key, m.version, member);
        zset_laws::lemma_old_score(
            o.store.subkey,
            o.store.zset_score,
            ns,
            key,
            m.version,
            member,
        );
        if zset_laws::member_in(s.subkey, ns, key, m.version, member) {
            assert(zset_laws::has_score(s.subkey, ns, key, m.version, member));
        }
        let given = last_given(pairs, scores, from, n, member);
        if given is Some {
            let j = choose|j: int| 0 <= j < u.len() && (#[trigger] u[j]).0 == member;
            assert(u[j] == (member, given->0));
            assert(!score::is_nan(u[j].1));
        } else {
            assert forall|i: int| 0 <= i < u.len() implies (#[trigger] u[i]).0 != member by {}
        }
    }
}

/// What ZSCORE replies before a command is the score under the metadata that the
/// command finds or makes.
proof fn lemma_score_replied(s: StoreView, ns: Seq<u8>, key: Seq<u8>, at: Moment, member: Seq<u8>)
    requires
        zset::zset_meta(s, ns, key, at.now_ms) is Ok,
        zset_ok(s.subkey, s.zset_score, ns, key, zadd_meta(s, ns, key, at).version),
        zset::zset_meta(s, ns, key, at.now_ms)->Ok_0 is None ==> encoding::elements_of(
            s.subkey,
            key,
            at.version,
            ns,
        ) == Set::<Seq<u8>>::empty(),
    ensures
        zset::old_score(s.subkey, ns, key, zadd_meta(s, ns, key, at).version, member) == Ok::<
            _,
            ErrorView,
        >(score_replied(s, ns, key, member, at.now_ms)),
{
    let v = zadd_meta(s, ns, key, at).version;
    assert(seq![key, member][0] == key && seq![key, member][1] == member);
    zset_laws::lemma_old_score(s.subkey, s.zset_score, ns, key, v, member);
    if zset::zset_meta(s, ns, key, at.now_ms)->Ok_0 is None {
        cmd::lemma_fresh_meta(crate::types::DataType::ZSet, at.version);
        assert(!encoding::elements_of(s.subkey, key, at.version, ns).contains(member));
    }
}

/// The members of `n` updates that are not skipped, and those of them that are
/// new.
spec fn touched(
    e: Entries,
    ns: Seq<u8>,
    key: Seq<u8>,
    version: u64,
    f: ZaddFlags,
    u: Seq<(Seq<u8>, u64)>,
    n: nat,
    new: bool,
) -> Set<Seq<u8>>
    decreases n,
{
    if n == 0 {
        Set::empty()
    } else {
        let before = touched(e, ns, key, version, f, u, (n - 1) as nat, new);
        let prior = zset::old_score(e, ns, key, version, u[n - 1].0)->Ok_0;
        if zset::member_action(f, prior, u[n - 1].1) == zset::MemberAction::Skip || (new && prior
            is Some) {
            before
        } else {
            before.insert(u[n - 1].0)
        }
    }
}

#[verifier::rlimit(60)]
proof fn lemma_touched(
    s: StoreView,
    ns: Seq<u8>,
    key: Seq<u8>,
    version: u64,
    f: ZaddFlags,
    u: Seq<(Seq<u8>, u64)>,
    n: nat,
)
    requires
        n <= u.len(),
        zset_laws::distinct(u),
        zset::scores_readable(s.subkey, ns, key, version, u),
    ensures
        ({
            let st = zset::zadd_state(s, ns, key, version, f, u, n);
            let all = touched(s.subkey, ns, key, version, f, u, n, false);
            let new = touched(s.subkey, ns, key, version, f, u, n, true);
            &&& all.finite() && all.len() == st.changed
            &&& new.finite() && new.len() == st.added
            &&& forall|m: Seq<u8>| #[trigger]
                all.contains(m) <==> exists|i: int|
                    0 <= i < n && (#[trigger] u[i]).0 == m && zset::member_action(
                        f,
                        zset::old_score(s.subkey, ns, key, version, m)->Ok_0,
                        u[i].1,
                    ) != zset::MemberAction::Skip
            &&& forall|m: Seq<u8>| #[trigger]
                new.contains(m) <==> all.contains(m) && zset::old_score(
                    s.subkey,
                    ns,
                    key,
                    version,
                    m,
                )->Ok_0 is None
        }),
    decreases n,
{
    if n > 0 {
        lemma_touched(s, ns, key, version, f, u, (n - 1) as nat);
        let before = touched(s.subkey, ns, key, version, f, u, (n - 1) as nat, false);
        let all = touched(s.subkey, ns, key, version, f, u, n, false);
        let x = u[n - 1].0;
        assert(zset::old_score(s.subkey, ns, key, version, u[n - 1].0) is Ok);
        assert(!before.contains(x)) by {
            if before.contains(x) {
                let i = choose|i: int|
                    0 <= i < n - 1 && (#[trigger] u[i]).0 == x && zset::member_action(
                        f,
                        zset::old_score(s.subkey, ns, key, version, x)->Ok_0,
                        u[i].1,
                    ) != zset::MemberAction::Skip;
                assert(u[i].0 != u[n - 1].0);
            }
        }
        assert forall|m: Seq<u8>| #[trigger] all.contains(m) <==> exists|i: int|
            0 <= i < n && (#[trigger] u[i]).0 == m && zset::member_action(
                f,
                zset::old_score(s.subkey, ns, key, version, m)->Ok_0,
                u[i].1,
            ) != zset::MemberAction::Skip by {
            if before.contains(m) {
                let i = choose|i: int|
                    0 <= i < n - 1 && (#[trigger] u[i]).0 == m && zset::member_action(
                        f,
                        zset::old_score(s.subkey, ns, key, version, m)->Ok_0,
                        u[i].1,
                    ) != zset::MemberAction::Skip;
                assert(u[i].0 == m);
            }
            if all.contains(m) && !before.contains(m) {
                assert(u[n - 1].0 == m);
            }
            if exists|i: int|
                0 <= i < n && (#[trigger] u[i]).0 == m && zset::member_action(
                    f,
                    zset::old_score(s.subkey, ns, key, version, m)->Ok_0,
                    u[i].1,
                ) != zset::MemberAction::Skip {
                let i = choose|i: int|
                    0 <= i < n && (#[trigger] u[i]).0 == m && zset::member_action(
                        f,
                        zset::old_score(s.subkey, ns, key, version, m)->Ok_0,
                        u[i].1,
                    ) != zset::MemberAction::Skip;
                if i < n - 1 {
                    assert(before.contains(m));
                }
            }
        }
    }
}

/// The reply of ZADD without INCR: how many members are new, and with CH how
/// many have another score than before, new ones among them.
#[verifier::rlimit(60)]
pub proof fn law_zadd_reply(
    s: StoreView,
    ns: Seq<u8>,
    key: Seq<u8>,
    options: Seq<Seq<u8>>,
    pairs: Seq<Seq<u8>>,
    at: Moment,
    scores: Seq<Option<u64>>,
    sum: u64,
    last: u64,
)
    requires
        zadd_form(options, pairs),
        !has_option(options, "INCR"@),
        scores_fit(scores, 1 + options.len() as int, (pairs.len() / 2) as nat),
        zset::zset_meta(s, ns, key, at.now_ms) is Ok,
        zset_ready(s, ns, key, at, last),
        s.subkey.dom().finite(),
        zset::zadd_outcome(s, ns, zadd_args(key, options, pairs), at, scores, sum).reply is Ok,
    ensures
        ({
            let o = zset::zadd_outcome(s, ns, zadd_args(key, options, pairs), at, scores, sum);
            let changed = Set::new(
                |m: Seq<u8>|
                    score_replied(o.store, ns, key, m, at.now_ms) != score_replied(
                        s,
                        ns,
                        key,
                        m,
                        at.now_ms,
                    ),
            );
            let new = Set::new(
                |m: Seq<u8>|
                    score_replied(o.store, ns, key, m, at.now_ms) is Some && score_replied(
                        s,
                        ns,
                        key,
                        m,
                        at.now_ms,
                    ) is None,
            );
            &&& changed.finite() && new.finite()
            &&& o.reply == Ok::<_, ErrorView>(
                RespView::Integer(
                    if has_option(options, "CH"@) {
                        changed.len() as i64
                    } else {
                        new.len() as i64
                    },
                ),
            )
        }),
{
    let a = zadd_args(key, options, pairs);
    let from = 1 + options.len() as int;
    let n = (pairs.len() / 2) as nat;
    assert(a[0] == key);
    lemma_no_options(options);
    lemma_flags(key, options, pairs, 0);
    let f = flags_of(options);
    lemma_scores_given(scores, from, n);
    let o = zset::zadd_outcome(s, ns, a, at, scores, sum);
    let v = zadd_meta(s, ns, key, at).version;
    zset_laws::lemma_zset_ready(s, ns, key, at, last);
    zset_laws::lemma_updates(a, scores, from, n);
    let u = zset::updates(a, scores, from, n);
    assert((a.len() - from) / 2 == n);
    assert forall|i: int| 0 <= i < 2 * n implies a[from + i] == #[trigger] pairs[i] by {}
    lemma_given(a, pairs, scores, from, n);
    lemma_touched(s, ns, key, v, f, u, u.len());
    let all = touched(s.subkey, ns, key, v, f, u, u.len(), false);
    let fresh = touched(s.subkey, ns, key, v, f, u, u.len(), true);
    let changed = Set::new(
        |m: Seq<u8>|
            score_replied(o.store, ns, key, m, at.now_ms) != score_replied(s, ns, key, m, at.now_ms),
    );
    let new = Set::new(
        |m: Seq<u8>|
            score_replied(o.store, ns, key, m, at.now_ms) is Some && score_replied(
                s,
                ns,
                key,
                m,
                at.now_ms,
            ) is None,
    );
    assert forall|m: Seq<u8>| changed.contains(m) == all.contains(m) && new.contains(m)
        == fresh.contains(m) by {
        law_zadd_scores(s, ns, key, options, pairs, at, scores, sum, m, last);
        lemma_score_replied(s, ns, key, at, m);
        let prior = score_replied(s, ns, key, m, at.now_ms);
        let given = last_given(pairs, scores, from, n, m);
        zset_laws::lemma_old_score(s.subkey, s.zset_score, ns, key, v, m);
        if zset_laws::member_in(s.subkey, ns, key, v, m) {
            assert(zset_laws::has_score(s.subkey, ns, key, v, m));
        }
        if given is Some {
            let j = choose|j: int| 0 <= j < u.len() && (#[trigger] u[j]).0 == m;
            assert(u[j] == (m, given->0));
            assert(!score::is_nan(u[j].1));
            if all.contains(m) {
                let i = choose|i: int|
                    0 <= i < u.len() && (#[trigger] u[i]).0 == m && zset::member_action(
                        f,
                        zset::old_score(s.subkey, ns, key, v, m)->Ok_0,
                        u[i].1,
                    ) != zset::MemberAction::Skip;
                assert(last_given(pairs, scores, from, n, u[i].0) == Some(u[i].1));
            }
        } else {
            if all.contains(m) {
                let i = choose|i: int|
                    0 <= i < u.len() && (#[trigger] u[i]).0 == m && zset::member_action(
                        f,
                        zset::old_score(s.subkey, ns, key, v, m)->Ok_0,
                        u[i].1,
                    ) != zset::MemberAction::Skip;
                assert(last_given(pairs, scores, from, n, u[i].0) == Some(u[i].1));
            }
        }
    }
    assert(changed =~= all);
    assert(new =~= fresh);
}

#[verifier::rlimit(60)]
proof fn lemma_one_written(
    s: StoreView,
    ns: Seq<u8>,
    key: Seq<u8>,
    at: Moment,
    member: Seq<u8>,
    new: u64,
    other: Seq<u8>,
    last: u64,
)
    requires
        zset::zset_meta(s, ns, key, at.now_ms) is Ok,
        zset_ready(s, ns, key, at, last),
        !score::is_nan(new),
    ensures
        ({
            let m = zadd_meta(s, ns, key, at);
            let prior = score_replied(s, ns, key, member, at.now_ms);
            let t = zset::one_member_written(s, ns, key, m, member, prior, new);
            &&& zset::old_score(s.subkey, ns, key, m.version, member) == Ok::<_, ErrorView>(prior)
            &&& s.subkey.contains_key(encoding::subkey_of(key, m.version, member, ns)) == (prior
                is Some)
            &&& score_replied(t, ns, key, member, at.now_ms) == Some(new)
            &&& other != member ==> score_replied(t, ns, key, other, at.now_ms) == score_replied(
                s,
                ns,
                key,
                other,
                at.now_ms,
            )
        }),
{
    let m = zadd_meta(s, ns, key, at);
    zset_laws::lemma_zset_ready(s, ns, key, at, last);
    lemma_score_replied(s, ns, key, at, member);
    lemma_score_replied(s, ns, key, at, other);
    zset_laws::lemma_old_score(s.subkey, s.zset_score, ns, key, m.version, member);
    let prior = score_replied(s, ns, key, member, at.now_ms);
    let t = zset::one_member_written(s, ns, key, m, member, prior, new);
    let st = zset::ZsetState {
        subkey: s.subkey,
        zset_score: s.zset_score,
        added: 0,
        changed: 0,
    };
    zset_laws::law_member_set(st, ns, key, m.version, member, new, other);
    zset_laws::law_member_set(st, ns, key, m.version, member, new, member);
    let added = zset::member_set(st, ns, key, m.version, member, prior, new).added;
    let m2 = Metadata { size: cmd::grown(m.size, added), ..m };
    zset_laws::lemma_meta_kept(s, t, ns, key, at, m2);
    assert(seq![key, member][0] == key && seq![key, member][1] == member);
    assert(seq![key, other][0] == key && seq![key, other][1] == other);
    encoding::lemma_subkey_injective(key, m.version, other, member, ns);
    score::law_score_round_trip(new);
    assert(score::score_bytes(new).take(8) =~= score::score_bytes(new));
}

/// ZINCRBY of a member that is not there gives it the increment as its score. For
/// one that is, the sum of its score and the increment is handed in, of exactly
/// the two numbers that `addends` names; it becomes the score if it is finite,
/// and otherwise nothing changes. The new score is replied, and all other scores
/// stay as they are.
#[verifier::rlimit(60)]
pub proof fn law_zincrby_score(
    s: StoreView,
    ns: Seq<u8>,
    key: Seq<u8>,
    increment: Seq<u8>,
    member: Seq<u8>,
    other: Seq<u8>,
    name: Seq<u8>,
    at: Moment,
    scores: Seq<Option<u64>>,
    sum: u64,
    last: u64,
)
    requires
        text::is_word(name, "ZINCRBY"@),
        scores.len() > 1 && scores[1] is Some && !score::is_nan(scores[1]->0),
        zset::zset_meta(s, ns, key, at.now_ms) is Ok,
        zset_ready(s, ns, key, at, last),
        other != member,
    ensures
        ({
            let a = seq![key, increment, member];
            let o = zset::zincrby_outcome(s, ns, a, at, scores, sum);
            let prior = score_replied(s, ns, key, member, at.now_ms);
            let inc = scores[1]->0;
            let new = if prior is None {
                inc
            } else {
                sum
            };
            let works = prior is None || score::is_finite(sum);
            &&& zset::addends(s, ns, name, a, scores, at.now_ms) == match prior {
                Some(p) => Some((p, inc)),
                None => None,
            }
            &&& !works ==> o.reply is Err && o.store == s
            &&& works ==> {
                &&& o.reply == Ok::<_, ErrorView>(RespView::Score(new))
                &&& score_replied(o.store, ns, key, member, at.now_ms) == Some(new)
                &&& score_replied(o.store, ns, key, other, at.now_ms) == score_replied(
                    s,
                    ns,
                    key,
                    other,
                    at.now_ms,
                )
            }
        }),
{
    let a = seq![key, increment, member];
    assert(a[0] == key && a[2] == member);
    assert(seq![key, member][0] == key && seq![key, member][1] == member);
    let prior = score_replied(s, ns, key, member, at.now_ms);
    let new = if prior is None {
        scores[1]->0
    } else {
        sum
    };
    zset_laws::lemma_zset_ready(s, ns, key, at, last);
    lemma_score_replied(s, ns, key, at, member);
    if prior is None || score::is_finite(sum) {
        lemma_one_written(s, ns, key, at, member, new, other, last);
    }
}

/// ZADD with INCR does what ZINCRBY does, unless an option stands against it: NX
/// for a member that is there, XX for one that is not, GT where the score would
/// not grow and LT where it would not shrink. It then replies nothing and changes
/// nothing. More than one pair is refused.
#[verifier::rlimit(60)]
pub proof fn law_zadd_incr(
    s: StoreView,
    ns: Seq<u8>,
    key: Seq<u8>,
    options: Seq<Seq<u8>>,
    increment: Seq<u8>,
    member: Seq<u8>,
    at: Moment,
    scores: Seq<Option<u64>>,
    plain: Seq<Option<u64>>,
    sum: u64,
    last: u64,
)
    requires
        zadd_form(options, seq![increment, member]),
        has_option(options, "INCR"@),
        scores_fit(scores, 1 + options.len() as int, 1),
        plain.len() > 1 && plain[1] == scores[1 + options.len() as int],
        zset::zset_meta(s, ns, key, at.now_ms) is Ok,
        zset_ready(s, ns, key, at, last),
    ensures
        ({
            let a = zadd_args(key, options, seq![increment, member]);
            let o = zset::zadd_outcome(s, ns, a, at, scores, sum);
            let z = zset::zincrby_outcome(s, ns, seq![key, increment, member], at, plain, sum);
            let prior = score_replied(s, ns, key, member, at.now_ms);
            let nx = has_option(options, "NX"@);
            let xx = has_option(options, "XX"@);
            let gt = has_option(options, "GT"@);
            let lt = has_option(options, "LT"@);
            let clash = nx && xx || gt && lt || nx && gt || nx && lt;
            let against = nx && prior is Some || xx && prior is None;
            let worse = prior is Some && score::is_finite(sum) && (gt && !score::score_lt(
                prior->0,
                sum,
            ) || lt && !score::score_lt(sum, prior->0));
            if clash {
                o.reply is Err && o.store == s
            } else if against || worse {
                o.reply == Ok::<_, ErrorView>(RespView::BulkString(None)) && o.store == s
            } else {
                o == z
            }
        }),
{
    let pairs = seq![increment, member];
    let a = zadd_args(key, options, pairs);
    let from = 1 + options.len() as int;
    assert(a[0] == key && a[from] == pairs[0] && a[from + 1] == pairs[1]);
    lemma_no_options(options);
    lemma_flags(key, options, pairs, 0);
    assert(scores[from + 2 * 0] is Some);
    assert(zset::score_arg(scores, from) == scores[from]);
    let b = seq![key, increment, member];
    assert(b[0] == key && b[2] == member);
    zset_laws::lemma_zset_ready(s, ns, key, at, last);
    lemma_score_replied(s, ns, key, at, member);
    let v = zadd_meta(s, ns, key, at).version;
    zset_laws::lemma_old_score(s.subkey, s.zset_score, ns, key, v, member);
    if zset_laws::member_in(s.subkey, ns, key, v, member) {
        assert(zset_laws::has_score(s.subkey, ns, key, v, member));
    }
}

/// ZREM takes the scores of the named members away and leaves all others. Its
/// reply is how many of the named ones had a score. Of a key that is not there
/// nothing is removed.
#[verifier::rlimit(60)]
pub proof fn law_zrem_scores(
    s: StoreView,
    ns: Seq<u8>,
    key: Seq<u8>,
    names: Seq<Seq<u8>>,
    now_ms: i64,
)
    requires
        names.len() > 0,
        s.subkey.dom().finite(),
        zset::zset_meta(s, ns, key, now_ms) is Ok,
        match zset::zset_meta(s, ns, key, now_ms)->Ok_0 {
            Some(m) => zset_ok(s.subkey, s.zset_score, ns, key, m.version),
            None => true,
        },
    ensures
        ({
            let o = zset::zrem_outcome(s, ns, seq![key] + names, now_ms);
            let gone = names.to_set().filter(
                |m: Seq<u8>| score_replied(s, ns, key, m, now_ms) is Some,
            );
            &&& forall|m: Seq<u8>| #[trigger]
                score_replied(o.store, ns, key, m, now_ms) == if names.contains(m) {
                    None
                } else {
                    score_replied(s, ns, key, m, now_ms)
                }
            &&& o.reply == Ok::<_, ErrorView>(RespView::Integer(gone.len() as i64))
            &&& zset::zset_meta(s, ns, key, now_ms)->Ok_0 is None ==> o.store == s
        }),
{
    let a = seq![key] + names;
    let n = names.len();
    assert(a[0] == key);
    let o = zset::zrem_outcome(s, ns, a, now_ms);
    let gone = names.to_set().filter(|m: Seq<u8>| score_replied(s, ns, key, m, now_ms) is Some);
    match zset::zset_meta(s, ns, key, now_ms)->Ok_0 {
        None => {
            assert forall|m: Seq<u8>| (#[trigger] score_replied(s, ns, key, m, now_ms)) is None by {
                assert(seq![key, m][0] == key && seq![key, m][1] == m);
            }
            assert(gone =~= Set::<Seq<u8>>::empty());
        },
        Some(meta) => {
            let v = meta.version;
            zset_laws::law_zrem_counts_the_members(s, ns, a, now_ms);
            let before = encoding::elements_of(s.subkey, key, v, ns);
            let after = encoding::elements_of(o.store.subkey, key, v, ns);
            assert forall|m: Seq<u8>| {
                &&& #[trigger] score_replied(o.store, ns, key, m, now_ms) == if names.contains(m) {
                    None
                } else {
                    score_replied(s, ns, key, m, now_ms)
                }
                &&& before.contains(m) == (score_replied(s, ns, key, m, now_ms) is Some)
                &&& after.contains(m) == (score_replied(o.store, ns, key, m, now_ms) is Some)
            } by {
                assert(seq![key, m][0] == key && seq![key, m][1] == m);
                zset_laws::law_zrem(s, ns, a, v, n, m);
                zset_laws::lemma_old_score(s.subkey, s.zset_score, ns, key, v, m);
                zset_laws::lemma_old_score(o.store.subkey, o.store.zset_score, ns, key, v, m);
                if names.contains(m) {
                    let i = names.index_of(m);
                    assert(a[i + 1] == m);
                } else {
                    assert forall|i: int| 1 <= i <= n implies #[trigger] a[i] != m by {
                        assert(a[i] == names[i - 1]);
                    }
                }
            }
            assert forall|m: Seq<u8>| gone.contains(m) == before.difference(after).contains(m) by {
                assert(before.contains(m) == (score_replied(s, ns, key, m, now_ms) is Some));
                assert(score_replied(o.store, ns, key, m, now_ms) is Some == after.contains(m));
            }
            assert(gone =~= before.difference(after));
            vstd::set_lib::lemma_set_difference_len(before, after);
            assert(before.intersect(after) =~= after);
        },
    }
}

/// A pair without a score that is a number is refused, whatever the others are,
/// and nothing changes, and so is an increment that is none.
pub proof fn law_bad_scores_are_refused(
    s: StoreView,
    ns: Seq<u8>,
    key: Seq<u8>,
    options: Seq<Seq<u8>>,
    pairs: Seq<Seq<u8>>,
    at: Moment,
    scores: Seq<Option<u64>>,
    sum: u64,
    i: int,
)
    requires
        zadd_form(options, pairs),
        0 <= i < pairs.len() / 2,
        scores.len() == 1 + options.len() + pairs.len(),
        scores[1 + options.len() + 2 * i] is None || score::is_nan(
            scores[1 + options.len() + 2 * i]->0,
        ),
    ensures
        ({
            let o = zset::zadd_outcome(s, ns, zadd_args(key, options, pairs), at, scores, sum);
            o.reply is Err && o.store == s
        }),
        scores[1] is None || score::is_nan(scores[1]->0) ==> {
            let z = zset::zincrby_outcome(s, ns, seq![key, pairs[0], pairs[1]], at, scores, sum);
            z.reply == Err::<RespView, _>(ErrorView::NotInteger) && z.store == s
        },
{
    let a = zadd_args(key, options, pairs);
    let from = 1 + options.len() as int;
    assert(a[0] == key);
    lemma_no_options(options);
    lemma_flags(key, options, pairs, 0);
    let n = (pairs.len() / 2) as nat;
    assert((a.len() - from) / 2 == n);
    assert(zset::score_arg(scores, from + 2 * i) is None);
    if n == 1 {
        assert(i == 0);
    }
}

} // verus!
