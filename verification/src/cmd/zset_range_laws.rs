//! What holds of ranges of sorted sets, told by the replies of several commands:
//! ZRANGEBYSCORE shows the members whose ZSCORE lies between its ends, ZRANGE
//! those whose ZRANK does, and the reverse commands show the same from behind.

use super::list;
use super::zset;
use super::zset::Limit;
use super::zset_laws;
use super::zset_laws::{member_list, score_at, score_keys, zset_ok};
use crate::codec;
use crate::encoding;
use crate::error::ErrorView;
use crate::order;
use crate::protocol::RespView;
use crate::score;
use crate::storage::StoreView;
use crate::text;
use vstd::prelude::*;

verus! {

/// A key holds a sorted set that is in order. The key must be shorter than 4 GiB
/// and the namespace at most 255 bytes long.
pub open spec fn zset_there(s: StoreView, ns: Seq<u8>, key: Seq<u8>, now_ms: i64) -> bool {
    &&& key.len() < 0x1_0000_0000
    &&& ns.len() <= 255
    &&& s.zset_score.dom().finite()
    &&& zset::zset_meta(s, ns, key, now_ms) is Ok
    &&& zset::zset_meta(s, ns, key, now_ms)->Ok_0 is Some
    &&& zset_ok(s.subkey, s.zset_score, ns, key, set_version(s, ns, key, now_ms))
}

/// The version of the sorted set of a key.
pub open spec fn set_version(s: StoreView, ns: Seq<u8>, key: Seq<u8>, now_ms: i64) -> u64 {
    (zset::zset_meta(s, ns, key, now_ms)->Ok_0->0).version
}

/// The score that ZSCORE replies for a member; nothing if it replies none.
pub open spec fn score_replied(
    s: StoreView,
    ns: Seq<u8>,
    key: Seq<u8>,
    member: Seq<u8>,
    now_ms: i64,
) -> Option<u64> {
    match zset::zscore_reply(s, ns, seq![key, member], now_ms) {
        Ok(RespView::Score(b)) => Some(b),
        _ => None,
    }
}

/// Members as a reply.
pub open spec fn members_reply(l: Seq<Seq<u8>>) -> RespView {
    RespView::Array(Seq::new(l.len(), |i: int| RespView::BulkString(Some(l[i]))))
}

/// Members as a reply, each with the score behind it that ZSCORE replies.
pub open spec fn scored_reply(
    s: StoreView,
    ns: Seq<u8>,
    key: Seq<u8>,
    l: Seq<Seq<u8>>,
    now_ms: i64,
) -> RespView {
    RespView::Array(
        Seq::new(
            2 * l.len(),
            |i: int|
                if i % 2 == 0 {
                    RespView::BulkString(Some(l[i / 2]))
                } else {
                    RespView::Score(score_replied(s, ns, key, l[i / 2], now_ms)->0)
                },
        ),
    )
}

/// `l` lists the members whose scores lie between `min` and `max`, both
/// included, each once, in ascending order of their scores, and those of one
/// score in the order of their bytes.
pub open spec fn lists_scores(
    s: StoreView,
    ns: Seq<u8>,
    key: Seq<u8>,
    now_ms: i64,
    min: u64,
    max: u64,
    l: Seq<Seq<u8>>,
) -> bool {
    &&& l.no_duplicates()
    &&& forall|m: Seq<u8>| #[trigger]
        l.contains(m) <==> {
            let b = score_replied(s, ns, key, m, now_ms);
            b is Some && score::score_le(min, b->0) && score::score_le(b->0, max)
        }
    &&& forall|i: int, j: int|
        0 <= i < j < l.len() ==> {
            let x = score_replied(s, ns, key, #[trigger] l[i], now_ms)->0;
            let y = score_replied(s, ns, key, #[trigger] l[j], now_ms)->0;
            score::score_le(x, y) && (x == y ==> order::lt(l[i], l[j]))
        }
}

/// A command works and replies a value.
pub open spec fn replies(r: Result<RespView, ErrorView>, v: RespView) -> bool {
    r == Ok::<RespView, ErrorView>(v)
}

/// What ZSCORE replies of a sorted set that is in order, and how its list of
/// members stands.
#[verifier::spinoff_prover]
#[verifier::rlimit(60)]
proof fn lemma_scores(s: StoreView, ns: Seq<u8>, key: Seq<u8>, now_ms: i64)
    requires
        zset_there(s, ns, key, now_ms),
    ensures
        ({
            let v = set_version(s, ns, key, now_ms);
            let ks = score_keys(s.zset_score, ns, key, v);
            let l = member_list(s.zset_score, ns, key, v);
            &&& l.no_duplicates()
            &&& l.len() == ks.len()
            &&& forall|m: Seq<u8>| #[trigger]
                l.contains(m) <==> score_replied(s, ns, key, m, now_ms) is Some
            &&& forall|i: int|
                0 <= i < ks.len() ==> {
                    &&& zset::score_parts(#[trigger] ks[i], ns) is Some
                    &&& zset::member_of(ks[i], ns) == l[i]
                    &&& score_replied(s, ns, key, l[i], now_ms) == Some(zset::score_of(ks[i], ns))
                    &&& !score::is_nan(zset::score_of(ks[i], ns))
                }
            &&& forall|i: int, j: int|
                0 <= i < j < ks.len() ==> {
                    let x = zset::score_of(#[trigger] ks[i], ns);
                    let y = zset::score_of(#[trigger] ks[j], ns);
                    score::score_le(x, y) && (x == y ==> order::lt(l[i], l[j]))
                }
        }),
{
    let v = set_version(s, ns, key, now_ms);
    let (e, z) = (s.subkey, s.zset_score);
    let ks = score_keys(z, ns, key, v);
    let l = member_list(z, ns, key, v);
    zset_laws::lemma_member_list(e, z, ns, key, v);
    zset_laws::law_members_stand_by_score(e, z, ns, key, v);
    assert forall|m: Seq<u8>| score_replied(s, ns, key, m, now_ms) == (if zset_laws::member_in(
        e,
        ns,
        key,
        v,
        m,
    ) {
        Some(score_at(e, ns, key, v, m))
    } else {
        None
    }) by {
        zset_laws::lemma_old_score(e, z, ns, key, v, m);
        assert(seq![key, m][0] == key && seq![key, m][1] == m);
    }
    assert forall|m: Seq<u8>| #[trigger] l.contains(m) <==> score_replied(
        s,
        ns,
        key,
        m,
        now_ms,
    ) is Some by {
        assert(l.to_set().contains(m) == l.contains(m));
        assert(encoding::elements_of(e, key, v, ns).contains(m) == zset_laws::member_in(
            e,
            ns,
            key,
            v,
            m,
        ));
    }
    assert forall|i: int| 0 <= i < ks.len() implies {
        &&& zset::score_parts(#[trigger] ks[i], ns) is Some
        &&& zset::member_of(ks[i], ns) == l[i]
        &&& score_replied(s, ns, key, l[i], now_ms) == Some(zset::score_of(ks[i], ns))
        &&& !score::is_nan(zset::score_of(ks[i], ns))
    } by {
        assert(zset_laws::stands_for(e, ns, key, v, ks[i]));
        score::law_score_round_trip(zset::score_of(ks[i], ns));
    }
}

/// How many of ascending keys have scores below `min`, and how many have none
/// above `max`.
spec fn below(ks: Seq<Seq<u8>>, ns: Seq<u8>, min: u64, n: nat) -> nat
    decreases n,
{
    if n == 0 {
        0
    } else if score::score_lt(zset::score_of(ks[n - 1], ns), min) {
        n
    } else {
        below(ks, ns, min, (n - 1) as nat)
    }
}

spec fn upto(ks: Seq<Seq<u8>>, ns: Seq<u8>, max: u64, n: nat) -> nat
    decreases n,
{
    if n == 0 {
        0
    } else if !score::score_lt(max, zset::score_of(ks[n - 1], ns)) {
        n
    } else {
        upto(ks, ns, max, (n - 1) as nat)
    }
}

spec fn by_scores(ks: Seq<Seq<u8>>, ns: Seq<u8>) -> bool {
    &&& forall|i: int|
        0 <= i < ks.len() ==> zset::score_parts(#[trigger] ks[i], ns) is Some && !score::is_nan(
            zset::score_of(ks[i], ns),
        )
    &&& forall|i: int, j: int|
        0 <= i < j < ks.len() ==> score::score_le(
            zset::score_of(#[trigger] ks[i], ns),
            zset::score_of(#[trigger] ks[j], ns),
        )
}

proof fn lemma_cuts(ks: Seq<Seq<u8>>, ns: Seq<u8>, min: u64, max: u64, n: nat)
    requires
        by_scores(ks, ns),
        !score::is_nan(min),
        !score::is_nan(max),
        n <= ks.len(),
    ensures
        below(ks, ns, min, n) <= n,
        upto(ks, ns, max, n) <= n,
        forall|i: int|
            0 <= i < n ==> score::score_lt(zset::score_of(#[trigger] ks[i], ns), min) == (i < below(
                ks,
                ns,
                min,
                n,
            )),
        forall|i: int|
            0 <= i < n ==> score::score_lt(max, zset::score_of(#[trigger] ks[i], ns)) == (i >= upto(
                ks,
                ns,
                max,
                n,
            )),
    decreases n,
{
    if n > 0 {
        lemma_cuts(ks, ns, min, max, (n - 1) as nat);
        let last = ks[n - 1];
        assert forall|i: int| 0 <= i < n - 1 implies score::score_le(
            zset::score_of(#[trigger] ks[i], ns),
            zset::score_of(last, ns),
        ) by {
            assert(ks[n - 1] == last);
        }
    }
}

/// The keys between two cuts; none if they cross.
spec fn stretch(ks: Seq<Seq<u8>>, lo: int, hi: int) -> Seq<Seq<u8>> {
    if lo <= hi {
        ks.subrange(lo, hi)
    } else {
        Seq::empty()
    }
}

proof fn lemma_by_score(
    ks: Seq<Seq<u8>>,
    ns: Seq<u8>,
    min: u64,
    max: u64,
    limit: Limit,
    reverse: bool,
)
    requires
        by_scores(ks, ns),
        !score::is_nan(min),
        !score::is_nan(max),
    ensures
        ({
            let found = stretch(ks, below(ks, ns, min, ks.len()) as int, upto(ks, ns, max, ks.len()) as int);
            zset::by_score(
                if reverse {
                    ks.reverse()
                } else {
                    ks
                },
                ns,
                min,
                max,
                limit,
                reverse,
            ) == Ok::<_, ErrorView>(
                zset::items_of(
                    zset::limited(
                        if reverse {
                            found.reverse()
                        } else {
                            found
                        },
                        limit,
                    ),
                    ns,
                ),
            )
        }),
{
    lemma_cuts(ks, ns, min, max, ks.len());
    let n = ks.len() as int;
    let lo = below(ks, ns, min, ks.len()) as int;
    let hi = upto(ks, ns, max, ks.len()) as int;
    let walk = if reverse {
        ks.reverse()
    } else {
        ks
    };
    let found = if reverse {
        stretch(ks, lo, hi).reverse()
    } else {
        stretch(ks, lo, hi)
    };
    let stop = zset::ends_range(ns, min, max, reverse);
    let keep = zset::in_range(ns, min, max, reverse);
    let end = if reverse {
        n - lo
    } else {
        hi
    };
    let first = if reverse {
        n - hi
    } else {
        lo
    };
    assert forall|j: int| 0 <= j < n implies stop(#[trigger] walk[j]) == (j >= end) && keep(walk[j])
        == (j >= first) by {
        let i = if reverse {
            n - 1 - j
        } else {
            j
        };
        assert(walk[j] == ks[i]);
    }
    list::lemma_first_at(walk, stop, 0, end);
    let head = walk.take(end);
    let from = if first < end {
        first
    } else {
        end
    };
    assert forall|j: int| 0 <= j < from implies !keep(#[trigger] head[j]) by {
        assert(head[j] == walk[j]);
    }
    assert forall|j: int| from <= j < head.len() implies keep(#[trigger] head[j]) by {
        assert(head[j] == walk[j]);
    }
    list::lemma_filter_suffix(head, keep, from);
    assert(head.skip(from) =~= found);
}

/// The list of ZRANGEBYSCORE: that of the keys between the cuts.
#[verifier::spinoff_prover]
#[verifier::rlimit(60)]
proof fn lemma_listed(s: StoreView, ns: Seq<u8>, key: Seq<u8>, now_ms: i64, min: u64, max: u64) -> (l:
    Seq<Seq<u8>>)
    requires
        zset_there(s, ns, key, now_ms),
        !score::is_nan(min),
        !score::is_nan(max),
    ensures
        lists_scores(s, ns, key, now_ms, min, max, l),
        ({
            let v = set_version(s, ns, key, now_ms);
            let ks = score_keys(s.zset_score, ns, key, v);
            let found = stretch(ks, below(ks, ns, min, ks.len()) as int, upto(ks, ns, max, ks.len()) as int);
            &&& by_scores(ks, ns)
            &&& l.len() == found.len()
            &&& forall|i: int|
                0 <= i < found.len() ==> zset::member_of(#[trigger] found[i], ns) == l[i] && Some(
                    zset::score_of(found[i], ns),
                ) == score_replied(s, ns, key, l[i], now_ms)
        }),
{
    let v = set_version(s, ns, key, now_ms);
    let ks = score_keys(s.zset_score, ns, key, v);
    let all = member_list(s.zset_score, ns, key, v);
    lemma_scores(s, ns, key, now_ms);
    lemma_cuts(ks, ns, min, max, ks.len());
    let lo = below(ks, ns, min, ks.len()) as int;
    let hi = upto(ks, ns, max, ks.len()) as int;
    let found = stretch(ks, lo, hi);
    let l = stretch(all, lo, hi);
    assert forall|i: int| 0 <= i < l.len() implies #[trigger] l[i] == all[lo + i] && found[i]
        == ks[lo + i] by {}
    assert forall|m: Seq<u8>| #[trigger] l.contains(m) <==> {
        let b = score_replied(s, ns, key, m, now_ms);
        b is Some && score::score_le(min, b->0) && score::score_le(b->0, max)
    } by {
        if l.contains(m) {
            let i = l.index_of(m);
            assert(all[lo + i] == m);
            assert(all.contains(m));
            assert(zset::score_parts(ks[lo + i], ns) is Some);
        }
        let b = score_replied(s, ns, key, m, now_ms);
        if b is Some && score::score_le(min, b->0) && score::score_le(b->0, max) {
            assert(all.contains(m));
            let i = all.index_of(m);
            assert(zset::score_parts(ks[i], ns) is Some);
            assert(lo <= i < hi);
            assert(l[i - lo] == m);
        }
    }
    assert forall|i: int, j: int| 0 <= i < j < l.len() implies {
        let x = score_replied(s, ns, key, #[trigger] l[i], now_ms)->0;
        let y = score_replied(s, ns, key, #[trigger] l[j], now_ms)->0;
        score::score_le(x, y) && (x == y ==> order::lt(l[i], l[j])) && l[i] != l[j]
    } by {
        assert(zset::score_parts(ks[lo + i], ns) is Some);
        assert(zset::score_parts(ks[lo + j], ns) is Some);
        assert(all[lo + i] != all[lo + j]);
    }
    l
}

/// ZRANGEBYSCORE without options replies exactly the members whose scores, as
/// ZSCORE replies them, are at least the smaller end and at most the greater one,
/// each once, in ascending order of their scores, and those of one score in the
/// order of their bytes. ZREVRANGEBYSCORE, which takes its ends the other way
/// round, replies the same members in the opposite order. With WITHSCORES the
/// score stands behind each member. `ends` and `back` are the numbers that the
/// arguments of the two write.
#[verifier::spinoff_prover]
#[verifier::rlimit(60)]
pub proof fn law_zrangebyscore(
    s: StoreView,
    ns: Seq<u8>,
    key: Seq<u8>,
    x: Seq<u8>,
    y: Seq<u8>,
    word: Seq<u8>,
    now_ms: i64,
    min: u64,
    max: u64,
    ends: Seq<Option<u64>>,
    back: Seq<Option<u64>>,
) -> (l: Seq<Seq<u8>>)
    requires
        zset_there(s, ns, key, now_ms),
        text::is_word(word, "WITHSCORES"@),
        !score::is_nan(min),
        !score::is_nan(max),
        ends.len() >= 3 && ends[1] == Some(min) && ends[2] == Some(max),
        back.len() >= 3 && back[1] == Some(max) && back[2] == Some(min),
    ensures
        lists_scores(s, ns, key, now_ms, min, max, l),
        replies(zset::zrangebyscore_reply(s, ns, seq![key, x, y], now_ms, ends, false), members_reply(l)),
        replies(zset::zrangebyscore_reply(s, ns, seq![key, x, y], now_ms, back, true), members_reply(l.reverse())),
        replies(zset::zrangebyscore_reply(s, ns, seq![key, x, y, word], now_ms, ends, false), scored_reply(s, ns, key, l, now_ms)),
        replies(zset::zrangebyscore_reply(s, ns, seq![key, x, y, word], now_ms, back, true), scored_reply(s, ns, key, l.reverse(), now_ms)),
{
    let l = lemma_listed(s, ns, key, now_ms, min, max);
    let all = Limit { offset: 0, count: 0 };
    let a = seq![key, x, y];
    let b = seq![key, x, y, word];
    reveal_with_fuel(zset::range_options, 3);
    assert(a[0] == key && b[0] == key && b[3] == word);
    assert(zset::range_options(a, 3, false, all) == Ok::<_, ErrorView>((false, all)));
    assert(zset::range_options(b, 3, false, all) == Ok::<_, ErrorView>((true, all)));
    lemma_replies(s, ns, a, now_ms, min, max, ends, l, false, all, false);
    lemma_replies(s, ns, a, now_ms, min, max, back, l, false, all, true);
    lemma_replies(s, ns, b, now_ms, min, max, ends, l, true, all, false);
    lemma_replies(s, ns, b, now_ms, min, max, back, l, true, all, true);
    assert(cut(l, all) =~= l);
    assert(cut(l.reverse(), all) =~= l.reverse());
    l
}

/// What LIMIT leaves of a list: the items from `offset` on, `count` of them, or
/// all if `count` is 0.
pub open spec fn cut(l: Seq<Seq<u8>>, limit: Limit) -> Seq<Seq<u8>> {
    let from = if limit.offset < l.len() {
        limit.offset as int
    } else {
        l.len() as int
    };
    let upto = if limit.count == 0 || l.len() < limit.offset + limit.count {
        l.len() as int
    } else {
        limit.offset + limit.count
    };
    Seq::new((upto - from) as nat, |i: int| l[from + i])
}

#[verifier::spinoff_prover]
#[verifier::rlimit(60)]
proof fn lemma_replies(
    s: StoreView,
    ns: Seq<u8>,
    a: Seq<Seq<u8>>,
    now_ms: i64,
    min: u64,
    max: u64,
    ends: Seq<Option<u64>>,
    l: Seq<Seq<u8>>,
    with_scores: bool,
    limit: Limit,
    reverse: bool,
)
    requires
        a.len() >= 3,
        zset_there(s, ns, a[0], now_ms),
        !score::is_nan(min),
        !score::is_nan(max),
        ends.len() >= 3,
        ends[1] == Some(
            if reverse {
                max
            } else {
                min
            },
        ),
        ends[2] == Some(
            if reverse {
                min
            } else {
                max
            },
        ),
        zset::range_options(a, 3, false, (Limit { offset: 0, count: 0 })) == Ok::<_, ErrorView>(
            (with_scores, limit),
        ),
        ({
            let v = set_version(s, ns, a[0], now_ms);
            let ks = score_keys(s.zset_score, ns, a[0], v);
            let found = stretch(ks, below(ks, ns, min, ks.len()) as int, upto(ks, ns, max, ks.len()) as int);
            &&& by_scores(ks, ns)
            &&& l.len() == found.len()
            &&& forall|i: int|
                0 <= i < found.len() ==> zset::member_of(#[trigger] found[i], ns) == l[i] && Some(
                    zset::score_of(found[i], ns),
                ) == score_replied(s, ns, a[0], l[i], now_ms)
        }),
    ensures
        ({
            let shown = cut(
                if reverse {
                    l.reverse()
                } else {
                    l
                },
                limit,
            );
            replies(zset::zrangebyscore_reply(s, ns, a, now_ms, ends, reverse), if with_scores {
                    scored_reply(s, ns, a[0], shown, now_ms)
                } else {
                    members_reply(shown)
                })
        }),
{
    let v = set_version(s, ns, a[0], now_ms);
    let ks = score_keys(s.zset_score, ns, a[0], v);
    let found = stretch(ks, below(ks, ns, min, ks.len()) as int, upto(ks, ns, max, ks.len()) as int);
    let hits = if reverse {
        found.reverse()
    } else {
        found
    };
    let list = if reverse {
        l.reverse()
    } else {
        l
    };
    lemma_by_score(ks, ns, min, max, limit, reverse);
    assert forall|i: int| 0 <= i < hits.len() implies zset::member_of(#[trigger] hits[i], ns)
        == list[i] && Some(zset::score_of(hits[i], ns)) == score_replied(
        s,
        ns,
        a[0],
        list[i],
        now_ms,
    ) by {
        let j = if reverse {
            hits.len() - 1 - i
        } else {
            i
        };
        assert(hits[i] == found[j]);
    }
    let kept = zset::limited(hits, limit);
    let shown = cut(list, limit);
    let from = if limit.offset < list.len() {
        limit.offset as int
    } else {
        list.len() as int
    };
    assert(kept.len() == shown.len());
    assert forall|i: int| 0 <= i < kept.len() implies #[trigger] kept[i] == hits[from + i] by {}
    let items = zset::items_of(kept, ns);
    let r = zset::rendered(items, with_scores);
    if with_scores {
        assert(RespView::Array(r)->Array_0 =~= scored_reply(s, ns, a[0], shown, now_ms)->Array_0)
            by {
            assert forall|i: int| 0 <= i < r.len() implies r[i] == scored_reply(
                s,
                ns,
                a[0],
                shown,
                now_ms,
            )->Array_0[i] by {
                assert(kept[i / 2] == hits[from + i / 2]);
                assert(shown[i / 2] == list[from + i / 2]);
            }
        }
    } else {
        assert(r =~= members_reply(shown)->Array_0) by {
            assert forall|i: int| 0 <= i < r.len() implies r[i] == members_reply(shown)->Array_0[i]
                by {
                assert(kept[i] == hits[from + i]);
            }
        }
    }
}

#[verifier::spinoff_prover]
#[verifier::rlimit(60)]
proof fn lemma_limit_options(
    key: Seq<u8>,
    x: Seq<u8>,
    y: Seq<u8>,
    scores_word: Seq<u8>,
    limit_word: Seq<u8>,
    offset: Seq<u8>,
    count: Seq<u8>,
)
    requires
        text::is_word(scores_word, "WITHSCORES"@),
        text::is_word(limit_word, "LIMIT"@),
        text::usize_in(offset) is Some,
        text::usize_in(count) is Some,
    ensures
        ({
            let all = Limit { offset: 0, count: 0 };
            let limit = Limit { offset: text::usize_in(offset)->0, count: text::usize_in(count)->0 };
            let a = seq![key, x, y, limit_word, offset, count];
            let b = seq![key, x, y, scores_word, limit_word, offset, count];
            let c = seq![key, x, y, limit_word, offset, count, scores_word];
            &&& zset::range_options(seq![key, x, y], 3, false, all) == Ok::<_, ErrorView>(
                (false, all),
            )
            &&& zset::range_options(a, 3, false, all) == Ok::<_, ErrorView>((false, limit))
            &&& zset::range_options(b, 3, false, all) == Ok::<_, ErrorView>((true, limit))
            &&& zset::range_options(c, 3, false, all) == Ok::<_, ErrorView>((true, limit))
        }),
{
    let all = Limit { offset: 0, count: 0 };
    let limit = Limit { offset: text::usize_in(offset)->0, count: text::usize_in(count)->0 };
    let a = seq![key, x, y, limit_word, offset, count];
    let b = seq![key, x, y, scores_word, limit_word, offset, count];
    let c = seq![key, x, y, limit_word, offset, count, scores_word];
    assert(!text::is_word(limit_word, "WITHSCORES"@)) by {
        reveal_strlit("LIMIT");
        reveal_strlit("WITHSCORES");
    }
    assert(a[3] == limit_word && a[4] == offset && a[5] == count);
    assert(b[3] == scores_word && b[4] == limit_word && b[5] == offset && b[6] == count);
    assert(c[3] == limit_word && c[4] == offset && c[5] == count && c[6] == scores_word);
    assert(zset::range_options(a, 6, false, limit) == Ok::<_, ErrorView>((false, limit)));
    assert(zset::range_options(b, 7, true, limit) == Ok::<_, ErrorView>((true, limit)));
    assert(zset::range_options(b, 4, true, all) == Ok::<_, ErrorView>((true, limit)));
    assert(zset::range_options(c, 7, true, limit) == Ok::<_, ErrorView>((true, limit)));
    assert(zset::range_options(c, 6, false, limit) == Ok::<_, ErrorView>((true, limit)));
}

/// LIMIT offset count behind the ends of ZRANGEBYSCORE or ZREVRANGEBYSCORE: of
/// the members that are replied without it, those from the place `offset` on are
/// replied, `count` of them, or all if `count` is 0, and it is the same with
/// WITHSCORES before or behind it.
#[verifier::spinoff_prover]
#[verifier::rlimit(60)]
pub proof fn law_zrangebyscore_limit(
    s: StoreView,
    ns: Seq<u8>,
    key: Seq<u8>,
    x: Seq<u8>,
    y: Seq<u8>,
    scores_word: Seq<u8>,
    limit_word: Seq<u8>,
    offset: Seq<u8>,
    count: Seq<u8>,
    now_ms: i64,
    ends: Seq<Option<u64>>,
    reverse: bool,
) -> (l: Seq<Seq<u8>>)
    requires
        zset_there(s, ns, key, now_ms),
        text::is_word(scores_word, "WITHSCORES"@),
        text::is_word(limit_word, "LIMIT"@),
        text::usize_in(offset) is Some,
        text::usize_in(count) is Some,
        ends.len() >= 3,
        ends[1] is Some && !score::is_nan(ends[1]->0),
        ends[2] is Some && !score::is_nan(ends[2]->0),
    ensures
        ({
            let limit = Limit { offset: text::usize_in(offset)->0, count: text::usize_in(count)->0 };
            let plain = seq![key, x, y];
            let a = seq![key, x, y, limit_word, offset, count];
            let b = seq![key, x, y, scores_word, limit_word, offset, count];
            let c = seq![key, x, y, limit_word, offset, count, scores_word];
            &&& replies(zset::zrangebyscore_reply(s, ns, plain, now_ms, ends, reverse), members_reply(l))
            &&& replies(zset::zrangebyscore_reply(s, ns, a, now_ms, ends, reverse), members_reply(cut(l, limit)))
            &&& replies(zset::zrangebyscore_reply(s, ns, b, now_ms, ends, reverse), scored_reply(s, ns, key, cut(l, limit), now_ms))
            &&& replies(zset::zrangebyscore_reply(s, ns, c, now_ms, ends, reverse), scored_reply(s, ns, key, cut(l, limit), now_ms))
        }),
{
    let min = if reverse {
        ends[2]->0
    } else {
        ends[1]->0
    };
    let max = if reverse {
        ends[1]->0
    } else {
        ends[2]->0
    };
    let l = lemma_listed(s, ns, key, now_ms, min, max);
    let all = Limit { offset: 0, count: 0 };
    let limit = Limit { offset: text::usize_in(offset)->0, count: text::usize_in(count)->0 };
    let plain = seq![key, x, y];
    let a = seq![key, x, y, limit_word, offset, count];
    let b = seq![key, x, y, scores_word, limit_word, offset, count];
    let c = seq![key, x, y, limit_word, offset, count, scores_word];
    lemma_limit_options(key, x, y, scores_word, limit_word, offset, count);
    assert(plain[0] == key && a[0] == key && b[0] == key && c[0] == key);
    lemma_replies(s, ns, plain, now_ms, min, max, ends, l, false, all, reverse);
    lemma_replies(s, ns, a, now_ms, min, max, ends, l, false, limit, reverse);
    lemma_replies(s, ns, b, now_ms, min, max, ends, l, true, limit, reverse);
    lemma_replies(s, ns, c, now_ms, min, max, ends, l, true, limit, reverse);
    let shown = if reverse {
        l.reverse()
    } else {
        l
    };
    assert(cut(shown, all) =~= shown);
    shown
}

/// A place in a list of `len` items, counted from the end if it is negative, and
/// the first one if that would lie before it.
pub open spec fn place(i: int, len: int) -> int {
    if i >= 0 {
        i
    } else if len + i >= 0 {
        len + i
    } else {
        0
    }
}

/// The items of a list from one place to another, both included, as far as the
/// list goes.
pub open spec fn between(l: Seq<Seq<u8>>, first: int, last: int) -> Seq<Seq<u8>> {
    let from = if first < 0 {
        0
    } else {
        first
    };
    let to = if last < l.len() {
        last
    } else {
        l.len() - 1
    };
    if from <= to {
        l.subrange(from, to + 1)
    } else {
        Seq::empty()
    }
}

/// `l` lists all members of a sorted set, each once, in ascending order of their
/// scores, and those of one score in the order of their bytes.
pub open spec fn lists_members(
    s: StoreView,
    ns: Seq<u8>,
    key: Seq<u8>,
    now_ms: i64,
    l: Seq<Seq<u8>>,
) -> bool {
    &&& l.no_duplicates()
    &&& forall|m: Seq<u8>| #[trigger]
        l.contains(m) <==> score_replied(s, ns, key, m, now_ms) is Some
    &&& forall|i: int, j: int|
        0 <= i < j < l.len() ==> {
            let x = score_replied(s, ns, key, #[trigger] l[i], now_ms)->0;
            let y = score_replied(s, ns, key, #[trigger] l[j], now_ms)->0;
            score::score_le(x, y) && (x == y ==> order::lt(l[i], l[j]))
        }
}

/// ZRANGE replies the members between two places of the list of all members,
/// from the one of the smallest score on, both places included, and ZREVRANGE
/// those of the list from behind. Negative places count from the end, and those
/// that would lie before the first one stand for the first one. ZRANK tells
/// the place of a member, and ZCARD how many there are. With WITHSCORES the score
/// stands behind each member. The size in the metadata must be the number of
/// members.
#[verifier::spinoff_prover]
#[verifier::rlimit(60)]
pub proof fn law_zrange(
    s: StoreView,
    ns: Seq<u8>,
    key: Seq<u8>,
    start: Seq<u8>,
    stop: Seq<u8>,
    word: Seq<u8>,
    now_ms: i64,
) -> (l: Seq<Seq<u8>>)
    requires
        zset_there(s, ns, key, now_ms),
        text::i64_in(start) is Some,
        text::i64_in(stop) is Some,
        text::is_word(word, "WITHSCORES"@),
        ({
            let m = zset::zset_meta(s, ns, key, now_ms)->Ok_0->0;
            &&& m.size == encoding::elements_of(s.subkey, key, m.version, ns).len()
            &&& m.size < 0x8000_0000_0000_0000
        }),
    ensures
        lists_members(s, ns, key, now_ms, l),
        ({
            let first = place(text::i64_in(start)->0 as int, l.len() as int);
            let last = place(text::i64_in(stop)->0 as int, l.len() as int);
            let up = between(l, first, last);
            let down = between(l.reverse(), first, last);
            let a = seq![key, start, stop];
            let b = seq![key, start, stop, word];
            &&& replies(zset::zrange_reply(s, ns, a, now_ms, false), members_reply(up))
            &&& replies(zset::zrange_reply(s, ns, a, now_ms, true), members_reply(down))
            &&& replies(
                zset::zrange_reply(s, ns, b, now_ms, false),
                scored_reply(s, ns, key, up, now_ms),
            )
            &&& replies(
                zset::zrange_reply(s, ns, b, now_ms, true),
                scored_reply(s, ns, key, down, now_ms),
            )
        }),
        replies(zset::zcard_reply(s, ns, seq![key], now_ms), RespView::Integer(l.len() as i64)),
        forall|i: int| 0 <= i < l.len() ==> #[trigger] ranked(s, ns, key, now_ms, l, i),
{
    let v = set_version(s, ns, key, now_ms);
    let l = member_list(s.zset_score, ns, key, v);
    lemma_all_members(s, ns, key, now_ms);
    let a = seq![key, start, stop];
    let b = seq![key, start, stop, word];
    assert(a[0] == key && a[1] == start && a[2] == stop);
    assert(b[0] == key && b[1] == start && b[2] == stop && b[3] == word);
    lemma_ranged(s, ns, a, now_ms, false);
    lemma_ranged(s, ns, a, now_ms, true);
    lemma_ranged(s, ns, b, now_ms, false);
    lemma_ranged(s, ns, b, now_ms, true);
    assert forall|i: int| 0 <= i < l.len() implies #[trigger] ranked(s, ns, key, now_ms, l, i) by {
        lemma_ranked(s, ns, key, now_ms, i);
    }
    l
}

/// ZRANK and ZREVRANK tell the place of the member at a place of a list.
pub open spec fn ranked(
    s: StoreView,
    ns: Seq<u8>,
    key: Seq<u8>,
    now_ms: i64,
    l: Seq<Seq<u8>>,
    i: int,
) -> bool {
    &&& replies(
        zset::zrank_reply(s, ns, seq![key, l[i]], now_ms, false),
        RespView::Integer(i as i64),
    )
    &&& replies(
        zset::zrank_reply(s, ns, seq![key, l[i]], now_ms, true),
        RespView::Integer((l.len() - 1 - i) as i64),
    )
}

#[verifier::spinoff_prover]
#[verifier::rlimit(60)]
proof fn lemma_all_members(s: StoreView, ns: Seq<u8>, key: Seq<u8>, now_ms: i64)
    requires
        zset_there(s, ns, key, now_ms),
        ({
            let m = zset::zset_meta(s, ns, key, now_ms)->Ok_0->0;
            &&& m.size == encoding::elements_of(s.subkey, key, m.version, ns).len()
            &&& m.size < 0x8000_0000_0000_0000
        }),
    ensures
        ({
            let v = set_version(s, ns, key, now_ms);
            let l = member_list(s.zset_score, ns, key, v);
            &&& lists_members(s, ns, key, now_ms, l)
            &&& l.len() == score_keys(s.zset_score, ns, key, v).len()
            &&& l.len() == (zset::zset_meta(s, ns, key, now_ms)->Ok_0->0).size
            &&& replies(
                zset::zcard_reply(s, ns, seq![key], now_ms),
                RespView::Integer(l.len() as i64),
            )
        }),
{
    let v = set_version(s, ns, key, now_ms);
    let l = member_list(s.zset_score, ns, key, v);
    let m = zset::zset_meta(s, ns, key, now_ms)->Ok_0->0;
    lemma_scores(s, ns, key, now_ms);
    zset_laws::lemma_member_list(s.subkey, s.zset_score, ns, key, v);
    l.unique_seq_to_set();
    assert(l.len() == m.size);
    assert(codec::from_bits(m.size as nat) == m.size);
    assert(seq![key][0] == key);
    let ks = score_keys(s.zset_score, ns, key, v);
    assert forall|i: int, j: int| 0 <= i < j < l.len() implies {
        let x = score_replied(s, ns, key, #[trigger] l[i], now_ms)->0;
        let y = score_replied(s, ns, key, #[trigger] l[j], now_ms)->0;
        score::score_le(x, y) && (x == y ==> order::lt(l[i], l[j]))
    } by {
        assert(zset::score_parts(ks[i], ns) is Some);
        assert(zset::score_parts(ks[j], ns) is Some);
    }
}

#[verifier::spinoff_prover]
#[verifier::rlimit(60)]
proof fn lemma_ranked(s: StoreView, ns: Seq<u8>, key: Seq<u8>, now_ms: i64, i: int)
    requires
        zset_there(s, ns, key, now_ms),
        0 <= i < member_list(
            s.zset_score,
            ns,
            key,
            set_version(s, ns, key, now_ms),
        ).len() < 0x8000_0000_0000_0000,
    ensures
        ranked(
            s,
            ns,
            key,
            now_ms,
            member_list(s.zset_score, ns, key, set_version(s, ns, key, now_ms)),
            i,
        ),
{
    let v = set_version(s, ns, key, now_ms);
    let l = member_list(s.zset_score, ns, key, v);
    let ks = score_keys(s.zset_score, ns, key, v);
    zset_laws::lemma_member_list(s.subkey, s.zset_score, ns, key, v);
    assert(l.to_set().contains(l[i]));
    assert(encoding::elements_of(s.subkey, key, v, ns).contains(l[i]));
    assert(zset_laws::member_in(s.subkey, ns, key, v, l[i]));
    zset_laws::law_zrank(s, ns, key, l[i], now_ms);
    let up = zset::zrank_reply(s, ns, seq![key, l[i]], now_ms, false);
    let down = zset::zrank_reply(s, ns, seq![key, l[i]], now_ms, true);
    let j = choose|j: int|
        0 <= j < ks.len() && zset::member_of(#[trigger] ks[j], ns) == l[i] && up == Ok::<
            _,
            ErrorView,
        >(RespView::Integer(j as i64)) && down == Ok::<_, ErrorView>(
            RespView::Integer((ks.len() - 1 - j) as i64),
        );
    assert(l[j] == l[i]);
}

#[verifier::spinoff_prover]
#[verifier::rlimit(60)]
proof fn lemma_ranged(s: StoreView, ns: Seq<u8>, a: Seq<Seq<u8>>, now_ms: i64, reverse: bool)
    requires
        a.len() == 3 || (a.len() == 4 && text::is_word(a[3], "WITHSCORES"@)),
        zset_there(s, ns, a[0], now_ms),
        text::i64_in(a[1]) is Some,
        text::i64_in(a[2]) is Some,
        ({
            let m = zset::zset_meta(s, ns, a[0], now_ms)->Ok_0->0;
            &&& m.size == score_keys(s.zset_score, ns, a[0], m.version).len()
            &&& m.size < 0x8000_0000_0000_0000
        }),
    ensures
        ({
            let v = set_version(s, ns, a[0], now_ms);
            let l = member_list(s.zset_score, ns, a[0], v);
            let first = place(text::i64_in(a[1])->0 as int, l.len() as int);
            let last = place(text::i64_in(a[2])->0 as int, l.len() as int);
            let shown = between(
                if reverse {
                    l.reverse()
                } else {
                    l
                },
                first,
                last,
            );
            replies(zset::zrange_reply(s, ns, a, now_ms, reverse), if a.len() == 4 {
                    scored_reply(s, ns, a[0], shown, now_ms)
                } else {
                    members_reply(shown)
                })
        }),
{
    let key = a[0];
    let m = zset::zset_meta(s, ns, key, now_ms)->Ok_0->0;
    let v = m.version;
    let ks = score_keys(s.zset_score, ns, key, v);
    let l = member_list(s.zset_score, ns, key, v);
    let len = l.len() as int;
    lemma_scores(s, ns, key, now_ms);
    assert(codec::from_bits(m.size as nat) == m.size);
    let walk = if reverse {
        ks.reverse()
    } else {
        ks
    };
    let list = if reverse {
        l.reverse()
    } else {
        l
    };
    assert forall|i: int| 0 <= i < len implies zset::score_parts(#[trigger] walk[i], ns) is Some
        && zset::member_of(walk[i], ns) == list[i] && Some(zset::score_of(walk[i], ns))
        == score_replied(s, ns, key, list[i], now_ms) by {
        let j = if reverse {
            len - 1 - i
        } else {
            i
        };
        assert(walk[i] == ks[j]);
        assert(zset::score_parts(ks[j], ns) is Some);
    }
    let first = place(text::i64_in(a[1])->0 as int, len);
    let last = place(text::i64_in(a[2])->0 as int, len);
    let shown = between(list, first, last);
    let (at, count) = zset::rank_span(
        len,
        text::i64_in(a[1])->0 as int,
        text::i64_in(a[2])->0 as int,
    );
    let items = zset::ranged(walk, ns, at, count)->Ok_0;
    assert(items.len() == shown.len());
    assert forall|i: int| 0 <= i < items.len() implies (#[trigger] items[i]).1 == shown[i] && Some(
        items[i].0,
    ) == score_replied(s, ns, key, shown[i], now_ms) by {
        assert(walk.subrange(at, at + items.len())[i] == walk[at + i]);
        assert(shown[i] == list[at + i]);
    }
    let r = zset::rendered(items, a.len() == 4);
    if a.len() == 4 {
        let want = scored_reply(s, ns, key, shown, now_ms)->Array_0;
        assert forall|i: int| 0 <= i < r.len() implies r[i] == want[i] by {
            assert(items[i / 2].1 == shown[i / 2]);
        }
        assert(r =~= want);
    } else {
        let want = members_reply(shown)->Array_0;
        assert forall|i: int| 0 <= i < r.len() implies r[i] == want[i] by {
            assert(items[i].1 == shown[i]);
        }
        assert(r =~= want);
    }
}

} // verus!
