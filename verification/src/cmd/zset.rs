//! Sorted set commands.
//!
//! A sorted set is kept twice: the subkey of a member holds its score, and
//! the score family has a key of score and member for every member, so that
//! the members of a set stand there in the order of their scores.

use super::{
    array, count_value, empty_array, expect_arg_count, expect_min_arg_count, push_reply,
    wrong_type_error, CommandContext, Moment, Outcome,
};
use crate::cmd;
use crate::encoding;
use crate::error;
use crate::error::{ErrorView, KvdbError, KvdbResult};
use crate::order;
use crate::protocol;
use crate::protocol::{RespValue, RespView};
use crate::score;
use crate::storage;
use crate::storage::{Cf, StoreView, WriteBatch};
use crate::table;
use crate::table::{Entries, Table};
use crate::text;
use crate::types;
use crate::types::{DataType, Metadata};
use vstd::prelude::*;

verus! {

/// Entries read at a time.
pub const ZSET_PAGE_SIZE: usize = 1024;

/// Floating point work that a command takes as given.
#[derive(Debug)]
pub struct Floats {
    /// For every argument the bits of the number that it writes, if it writes
    /// one.
    pub scores: Vec<Option<u64>>,
    /// The bits of the sum of a member's score and its increment.
    pub sum: u64,
}

/// The score that an argument writes. Not-a-number is none.
pub open spec fn score_arg(scores: Seq<Option<u64>>, i: int) -> Option<u64> {
    if 0 <= i < scores.len() {
        match scores[i] {
            Some(b) => if score::is_nan(b) {
                None
            } else {
                Some(b)
            },
            None => None,
        }
    } else {
        None
    }
}

/// Reads a score argument.
pub fn parse_score(floats: &Floats, i: usize) -> (r: KvdbResult<u64>)
    ensures
        match r {
            Ok(b) => score_arg(floats.scores@, i as int) == Some(b),
            Err(e) => score_arg(floats.scores@, i as int) is None && e@ == ErrorView::NotInteger,
        },
{
    if i < floats.scores.len() {
        match floats.scores[i] {
            Some(b) => if !score::nan(b) {
                return Ok(b);
            },
            None => {},
        }
    }
    Err(KvdbError::NotInteger)
}

/// The metadata of a sorted set. An expired value counts as none, but for a
/// string, which is of another type even when it is expired.
pub open spec fn zset_meta(s: StoreView, ns: Seq<u8>, key: Seq<u8>, now_ms: i64) -> Result<
    Option<Metadata>,
    ErrorView,
> {
    match cmd::stored_meta(s, ns, key) {
        None => Ok(None),
        Some(v) => if v.len() == 0 {
            Ok(None)
        } else {
            match types::type_of_flags(v[0]) {
                None => Err(ErrorView::Protocol("invalid data type"@)),
                Some(DataType::String) => Err(cmd::wrong_type()),
                Some(_) => match encoding::metadata_in(v) {
                    None => Err(ErrorView::Protocol("invalid metadata encoding"@)),
                    Some(m) => if types::expired(m.expire, now_ms) {
                        Ok(None)
                    } else if types::type_of_flags(m.flags) != Some(DataType::ZSet) {
                        Err(cmd::wrong_type())
                    } else {
                        Ok(Some(m))
                    },
                },
            }
        },
    }
}

fn read_zset_meta(ctx: &CommandContext, user_key: &[u8], now_ms: i64) -> (r: KvdbResult<
    Option<Metadata>,
>)
    ensures
        cmd::meta_view(r) == zset_meta(ctx.storage@, ctx.namespace@, user_key@, now_ms),
{
    let v = match ctx.get_meta(user_key) {
        Some(v) => v,
        None => return Ok(None),
    };
    if v.len() == 0 {
        return Ok(None);
    }
    match types::data_type_from_flags(v[0]) {
        None => return Err(error::protocol_error("invalid data type")),
        Some(DataType::String) => return Err(wrong_type_error()),
        Some(_) => {},
    }
    let meta = match encoding::decode_metadata(&v) {
        Some(m) => m,
        None => return Err(error::protocol_error("invalid metadata encoding")),
    };
    if meta.is_expired(now_ms) {
        return Ok(None);
    }
    match meta.data_type() {
        Some(DataType::ZSet) => Ok(Some(meta)),
        _ => Err(wrong_type_error()),
    }
}

/// The metadata to work on: what is stored, or that of a new sorted set.
pub open spec fn meta_or_new(found: Option<Metadata>, version: u64) -> Metadata {
    match found {
        Some(m) => m,
        None => types::fresh_metadata(DataType::ZSet, version),
    }
}

/// The key of a member in the score family.
pub open spec fn score_key(
    key: Seq<u8>,
    version: u64,
    bits: u64,
    member: Seq<u8>,
    ns: Seq<u8>,
) -> Seq<u8> {
    encoding::subkey_of(key, version, score::score_bytes(bits) + member, ns)
}

fn score_subkey(ctx: &CommandContext, user_key: &[u8], version: u64, bits: u64, member: &[u8]) -> (k:
    Vec<u8>)
    ensures
        k@ == score_key(user_key@, version, bits, member@, ctx.namespace@),
{
    let mut sub = score::encode_score(bits);
    encoding::extend(&mut sub, member);
    ctx.sub_key(user_key, version, &sub)
}

/// The score and the member that a key of the score family holds.
pub open spec fn score_parts(k: Seq<u8>, ns: Seq<u8>) -> Option<(u64, Seq<u8>)> {
    match encoding::subkey_parts(k, ns) {
        None => None,
        Some((_, _, sub)) => if sub.len() < 8 {
            None
        } else {
            Some((score::score_in(sub.take(8)), sub.skip(8)))
        },
    }
}

/// The score in a key of the score family.
pub open spec fn score_of(k: Seq<u8>, ns: Seq<u8>) -> u64 {
    match score_parts(k, ns) {
        Some((b, _)) => b,
        None => 0,
    }
}

/// The member in a key of the score family.
pub open spec fn member_of(k: Seq<u8>, ns: Seq<u8>) -> Seq<u8> {
    match score_parts(k, ns) {
        Some((_, m)) => m,
        None => Seq::empty(),
    }
}

/// The error for a key of the score family that cannot be taken apart.
pub open spec fn bad_score_key() -> ErrorView {
    ErrorView::Protocol("invalid zset score subkey"@)
}

/// The error for a stored score that is too short.
pub open spec fn bad_score() -> ErrorView {
    ErrorView::Protocol("invalid score encoding"@)
}

fn parse_score_subkey(ctx: &CommandContext, key: &[u8]) -> (r: KvdbResult<(u64, Vec<u8>)>)
    ensures
        match r {
            Ok((b, m)) => score_parts(key@, ctx.namespace@) == Some((b, m@)),
            Err(e) => score_parts(key@, ctx.namespace@) is None && e@ == bad_score_key(),
        },
{
    match ctx.parse_subkey(key) {
        Some((_key, _version, sub)) => {
            if sub.len() < 8 {
                return Err(error::protocol_error("invalid zset score subkey"));
            }
            let member = vstd::slice::slice_subrange(sub, 8, sub.len());
            proof {
                assert(member@ =~= sub@.skip(8));
            }
            Ok((score::decode_score(sub), encoding::copy(member)))
        },
        None => Err(error::protocol_error("invalid zset score subkey")),
    }
}

/// The stored score of a member: nothing if it is no member, an error if the
/// record is too short.
pub open spec fn stored_score(m: Entries, k: Seq<u8>) -> Result<Option<u64>, ErrorView> {
    match table::lookup(m, k) {
        None => Ok(None),
        Some(v) => if v.len() < 8 {
            Err(bad_score())
        } else {
            Ok(Some(score::score_in(v.take(8))))
        },
    }
}

fn read_score(ctx: &CommandContext, mkey: &[u8]) -> (r: KvdbResult<Option<u64>>)
    ensures
        (match r {
            Ok(b) => Ok::<_, ErrorView>(b),
            Err(e) => Err(e@),
        }) == stored_score(ctx.storage@.subkey, mkey@),
{
    match ctx.storage.get_in(Cf::Subkey, mkey) {
        Some(v) => {
            if v.len() < 8 {
                return Err(error::protocol_error("invalid score encoding"));
            }
            Ok(Some(score::decode_score(&v)))
        },
        None => Ok(None),
    }
}

/// The options of ZADD.
#[derive(Debug, Clone, Copy, PartialEq, Eq, Structural)]
pub struct ZaddFlags {
    /// Only add members.
    pub nx: bool,
    /// Only update members.
    pub xx: bool,
    /// Only update to a greater score.
    pub gt: bool,
    /// Only update to a smaller score.
    pub lt: bool,
    /// Count updated members too.
    pub ch: bool,
    /// Add to the score.
    pub incr: bool,
}

/// No options.
pub open spec fn no_flags() -> ZaddFlags {
    ZaddFlags { nx: false, xx: false, gt: false, lt: false, ch: false, incr: false }
}

/// The options with one more, if the word is an option.
pub open spec fn with_flag(f: ZaddFlags, w: Seq<u8>) -> Option<ZaddFlags> {
    if text::is_word(w, "NX"@) {
        Some(ZaddFlags { nx: true, ..f })
    } else if text::is_word(w, "XX"@) {
        Some(ZaddFlags { xx: true, ..f })
    } else if text::is_word(w, "GT"@) {
        Some(ZaddFlags { gt: true, ..f })
    } else if text::is_word(w, "LT"@) {
        Some(ZaddFlags { lt: true, ..f })
    } else if text::is_word(w, "CH"@) {
        Some(ZaddFlags { ch: true, ..f })
    } else if text::is_word(w, "INCR"@) {
        Some(ZaddFlags { incr: true, ..f })
    } else {
        None
    }
}

/// The options from the `i`th argument on, added to `f`, and where they end.
pub open spec fn flags_from(a: Seq<Seq<u8>>, i: int, f: ZaddFlags) -> (ZaddFlags, int)
    decreases a.len() - i,
{
    if 0 <= i < a.len() {
        match with_flag(f, a[i]) {
            Some(g) => flags_from(a, i + 1, g),
            None => (f, i),
        }
    } else {
        (f, i)
    }
}

/// What is wrong with a set of options: NX and XX exclude each other, and so
/// do any two of NX, GT and LT.
pub open spec fn flags_error(f: ZaddFlags) -> Option<ErrorView> {
    if f.nx && f.xx {
        Some(ErrorView::Command("XX and NX options at the same time are not compatible"@))
    } else if (f.gt && f.lt) || (f.nx && (f.gt || f.lt)) {
        Some(ErrorView::Command("GT, LT, and/or NX options at the same time are not compatible"@))
    } else {
        None
    }
}

fn add_flag(f: ZaddFlags, w: &[u8]) -> (r: Option<ZaddFlags>)
    ensures
        r == with_flag(f, w@),
{
    let mut g = f;
    if text::matches_word(w, "NX") {
        g.nx = true;
    } else if text::matches_word(w, "XX") {
        g.xx = true;
    } else if text::matches_word(w, "GT") {
        g.gt = true;
    } else if text::matches_word(w, "LT") {
        g.lt = true;
    } else if text::matches_word(w, "CH") {
        g.ch = true;
    } else if text::matches_word(w, "INCR") {
        g.incr = true;
    } else {
        return None;
    }
    Some(g)
}

/// Reads the options from the second argument on: what they are and where
/// they end.
pub fn parse_zadd_flags(args: &[Vec<u8>]) -> (r: KvdbResult<(ZaddFlags, usize)>)
    requires
        args@.len() >= 1,
    ensures
        ({
            let (f, end) = flags_from(encoding::byte_seqs(args@), 1, no_flags());
            match r {
                Ok((g, n)) => g == f && n == end && 1 <= n <= args@.len() && flags_error(
                    f,
                ) is None,
                Err(e) => flags_error(f) == Some(e@),
            }
        }),
{
    let ghost a = encoding::byte_seqs(args@);
    let mut f = ZaddFlags { nx: false, xx: false, gt: false, lt: false, ch: false, incr: false };
    let mut i: usize = 1;
    loop
        invariant_except_break
            flags_from(a, 1, no_flags()) == flags_from(a, i as int, f),
        invariant
            1 <= i <= args@.len(),
            a == encoding::byte_seqs(args@),
        ensures
            flags_from(a, 1, no_flags()) == (f, i as int),
        decreases args.len() - i,
    {
        if i >= args.len() {
            break;
        }
        proof {
            assert(a[i as int] == args@[i as int]@);
        }
        match add_flag(f, &args[i]) {
            Some(g) => {
                f = g;
            },
            None => {
                break;
            },
        }
        i = i + 1;
    }
    if f.nx && f.xx {
        return Err(error::command_error("XX and NX options at the same time are not compatible"));
    }
    if (f.gt && f.lt) || (f.nx && (f.gt || f.lt)) {
        return Err(
            error::command_error("GT, LT, and/or NX options at the same time are not compatible"),
        );
    }
    Ok((f, i))
}

/// What ZADD does with one member.
#[derive(Debug, Clone, Copy, PartialEq, Eq, Structural)]
pub enum MemberAction {
    Skip,
    Add,
    Update,
}

/// What ZADD does with a member that has the score `prior`, if it is one, and
/// is to get the score `new`.
pub open spec fn member_action(f: ZaddFlags, prior: Option<u64>, new: u64) -> MemberAction {
    match prior {
        None => if f.xx {
            MemberAction::Skip
        } else {
            MemberAction::Add
        },
        Some(prior) => if f.nx || (f.gt && score::score_le(new, prior)) || (f.lt && score::score_le(
            prior,
            new,
        )) || score::score_eq(prior, new) {
            MemberAction::Skip
        } else {
            MemberAction::Update
        },
    }
}

fn decide_member(f: ZaddFlags, prior: Option<u64>, new: u64) -> (r: MemberAction)
    ensures
        r == member_action(f, prior, new),
{
    match prior {
        None => if f.xx {
            MemberAction::Skip
        } else {
            MemberAction::Add
        },
        Some(prior) => {
            let same = score::equal(prior, new);
            if f.nx || (f.gt && (score::less(new, prior) || score::equal(new, prior))) || (f.lt && (
            score::less(prior, new) || same)) || same {
                MemberAction::Skip
            } else {
                MemberAction::Update
            }
        },
    }
}

/// Where a member stands in a list, from the `i`th place on; its length if it
/// is not there.
pub open spec fn place_from(u: Seq<(Seq<u8>, u64)>, member: Seq<u8>, i: int) -> int
    decreases u.len() - i,
{
    if 0 <= i < u.len() && u[i].0 != member {
        place_from(u, member, i + 1)
    } else {
        i
    }
}

/// A list of members and scores with one score set: the last one that a member
/// is given counts, in the place of its first.
pub open spec fn with_update(u: Seq<(Seq<u8>, u64)>, member: Seq<u8>, bits: u64) -> Seq<
    (Seq<u8>, u64),
> {
    let i = place_from(u, member, 0);
    if i < u.len() {
        u.update(i, (member, bits))
    } else {
        u.push((member, bits))
    }
}

/// The members and scores of the first `n` pairs that begin at the argument
/// `from`.
pub open spec fn updates(
    a: Seq<Seq<u8>>,
    scores: Seq<Option<u64>>,
    from: int,
    n: nat,
) -> Seq<(Seq<u8>, u64)>
    decreases n,
{
    if n == 0 {
        Seq::empty()
    } else {
        with_update(
            updates(a, scores, from, (n - 1) as nat),
            a[from + 2 * n - 1],
            score_arg(scores, from + 2 * n - 2)->0,
        )
    }
}

/// All of the first `n` pairs that begin at the argument `from` have a score.
pub open spec fn scores_given(scores: Seq<Option<u64>>, from: int, n: nat) -> bool {
    forall|i: int| 0 <= i < n ==> #[trigger] score_arg(scores, from + 2 * i) is Some
}

/// The two families of a sorted set while members are written, and the
/// counts.
#[verifier::ext_equal]
pub struct ZsetState {
    pub subkey: Entries,
    pub zset_score: Entries,
    pub added: nat,
    pub changed: nat,
}

/// The families after a member got a score: its subkey holds it, and the key
/// of its prior score is gone.
pub open spec fn member_set(
    st: ZsetState,
    ns: Seq<u8>,
    key: Seq<u8>,
    version: u64,
    member: Seq<u8>,
    prior: Option<u64>,
    new: u64,
) -> ZsetState {
    let cleared = match prior {
        Some(b) => st.zset_score.remove(score_key(key, version, b, member, ns)),
        None => st.zset_score,
    };
    ZsetState {
        subkey: st.subkey.insert(
            encoding::subkey_of(key, version, member, ns),
            score::score_bytes(new),
        ),
        zset_score: cleared.insert(score_key(key, version, new, member, ns), Seq::empty()),
        added: st.added + (if prior is None {
            1nat
        } else {
            0nat
        }),
        changed: st.changed + 1,
    }
}

/// The score of a member before the command.
pub open spec fn old_score(
    m: Entries,
    ns: Seq<u8>,
    key: Seq<u8>,
    version: u64,
    member: Seq<u8>,
) -> Result<Option<u64>, ErrorView> {
    stored_score(m, encoding::subkey_of(key, version, member, ns))
}

/// The families after the first `n` updates.
pub open spec fn zadd_state(
    s: StoreView,
    ns: Seq<u8>,
    key: Seq<u8>,
    version: u64,
    f: ZaddFlags,
    u: Seq<(Seq<u8>, u64)>,
    n: nat,
) -> ZsetState
    decreases n,
{
    if n == 0 {
        ZsetState { subkey: s.subkey, zset_score: s.zset_score, added: 0, changed: 0 }
    } else {
        let st = zadd_state(s, ns, key, version, f, u, (n - 1) as nat);
        let member = u[n - 1].0;
        let new = u[n - 1].1;
        match old_score(s.subkey, ns, key, version, member) {
            Err(_) => st,
            Ok(prior) => if member_action(f, prior, new) == MemberAction::Skip {
                st
            } else {
                member_set(st, ns, key, version, member, prior, new)
            },
        }
    }
}

/// Every member that is updated has a readable score.
pub open spec fn scores_readable(
    m: Entries,
    ns: Seq<u8>,
    key: Seq<u8>,
    version: u64,
    u: Seq<(Seq<u8>, u64)>,
) -> bool {
    forall|i: int|
        0 <= i < u.len() ==> old_score(m, ns, key, version, (#[trigger] u[i]).0) is Ok
}

/// The error for an increment whose result is not finite.
pub open spec fn bad_increment() -> ErrorView {
    ErrorView::Command("increment would produce NaN or Infinity"@)
}

/// The store after one member got a score and the metadata was written.
pub open spec fn one_member_written(
    s: StoreView,
    ns: Seq<u8>,
    key: Seq<u8>,
    m: Metadata,
    member: Seq<u8>,
    prior: Option<u64>,
    new: u64,
) -> StoreView {
    let st = member_set(
        (ZsetState { subkey: s.subkey, zset_score: s.zset_score, added: 0, changed: 0 }),
        ns,
        key,
        m.version,
        member,
        prior,
        new,
    );
    StoreView {
        subkey: st.subkey,
        zset_score: st.zset_score,
        metadata: s.metadata.insert(
            encoding::meta_key_of(key, ns),
            encoding::metadata_bytes((Metadata { size: cmd::grown(m.size, st.added), ..m })),
        ),
        ..s
    }
}

/// ZADD with INCR on one member.
pub open spec fn zadd_incr_outcome(
    s: StoreView,
    ns: Seq<u8>,
    key: Seq<u8>,
    m: Metadata,
    f: ZaddFlags,
    increment: Option<u64>,
    member: Seq<u8>,
    sum: u64,
) -> Outcome {
    let present = s.subkey.contains_key(encoding::subkey_of(key, m.version, member, ns));
    match increment {
        None => cmd::unchanged(Err(ErrorView::NotInteger), s),
        Some(inc) => if (f.nx && present) || (f.xx && !present) {
            cmd::unchanged(Ok(cmd::bulk(None)), s)
        } else {
            match old_score(s.subkey, ns, key, m.version, member) {
                Err(e) => cmd::unchanged(Err(e), s),
                Ok(None) => Outcome {
                    reply: Ok(RespView::Score(inc)),
                    store: one_member_written(s, ns, key, m, member, None, inc),
                },
                Ok(Some(prior)) => if !score::is_finite(sum) {
                    cmd::unchanged(Err(bad_increment()), s)
                } else if (f.gt && score::score_le(sum, prior)) || (f.lt && score::score_le(
                    prior,
                    sum,
                )) {
                    cmd::unchanged(Ok(cmd::bulk(None)), s)
                } else {
                    Outcome {
                        reply: Ok(RespView::Score(sum)),
                        store: one_member_written(s, ns, key, m, member, Some(prior), sum),
                    }
                },
            }
        },
    }
}

/// ZADD key [NX|XX] [GT|LT] [CH] [INCR] score member [score member ...].
pub open spec fn zadd_outcome(
    s: StoreView,
    ns: Seq<u8>,
    a: Seq<Seq<u8>>,
    at: Moment,
    scores: Seq<Option<u64>>,
    sum: u64,
) -> Outcome {
    if a.len() < 3 {
        cmd::unchanged(Err(cmd::wrong_args("ZADD"@)), s)
    } else {
        let (f, from) = flags_from(a, 1, no_flags());
        match flags_error(f) {
            Some(e) => cmd::unchanged(Err(e), s),
            None => if a.len() == from || (a.len() - from) % 2 != 0 {
                cmd::unchanged(Err(cmd::wrong_args("ZADD"@)), s)
            } else if f.incr && a.len() - from != 2 {
                cmd::unchanged(
                    Err(
                        ErrorView::Command("INCR option supports a single increment-element pair"@),
                    ),
                    s,
                )
            } else {
                match zset_meta(s, ns, a[0], at.now_ms) {
                    Err(e) => cmd::unchanged(Err(e), s),
                    Ok(found) => {
                        let m = meta_or_new(found, at.version);
                        let n = ((a.len() - from) / 2) as nat;
                        if f.incr {
                            zadd_incr_outcome(
                                s,
                                ns,
                                a[0],
                                m,
                                f,
                                score_arg(scores, from),
                                a[from + 1],
                                sum,
                            )
                        } else if !scores_given(scores, from, n) {
                            cmd::unchanged(Err(ErrorView::NotInteger), s)
                        } else {
                            let u = updates(a, scores, from, n);
                            let st = zadd_state(s, ns, a[0], m.version, f, u, u.len());
                            if !scores_readable(s.subkey, ns, a[0], m.version, u) {
                                cmd::unchanged(Err(bad_score()), s)
                            } else {
                                Outcome {
                                    reply: Ok(
                                        RespView::Integer(
                                            (if f.ch {
                                                st.changed
                                            } else {
                                                st.added
                                            }) as i64,
                                        ),
                                    ),
                                    store: StoreView {
                                        subkey: st.subkey,
                                        zset_score: st.zset_score,
                                        metadata: s.metadata.insert(
                                            encoding::meta_key_of(a[0], ns),
                                            encoding::metadata_bytes(
                                                (Metadata {
                                                    size: cmd::grown(m.size, st.added),
                                                    ..m
                                                }),
                                            ),
                                        ),
                                        ..s
                                    },
                                }
                            }
                        }
                    },
                }
            },
        }
    }
}

/// A list of members and scores.
pub open spec fn updates_view(v: Seq<(Vec<u8>, u64)>) -> Seq<(Seq<u8>, u64)> {
    Seq::new(v.len(), |i: int| (v[i].0@, v[i].1))
}

proof fn lemma_place_bound(u: Seq<(Seq<u8>, u64)>, member: Seq<u8>, i: int)
    requires
        0 <= i <= u.len(),
    ensures
        i <= place_from(u, member, i) <= u.len(),
    decreases u.len() - i,
{
    if i < u.len() && u[i].0 != member {
        lemma_place_bound(u, member, i + 1);
    }
}

fn set_update(u: &mut Vec<(Vec<u8>, u64)>, member: &[u8], bits: u64)
    ensures
        updates_view(final(u)@) == with_update(updates_view(old(u)@), member@, bits),
{
    let mut i: usize = 0;
    let ghost v = updates_view(u@);
    while i < u.len() && !order::same(&u[i].0, member)
        invariant
            i <= u@.len(),
            *u == *old(u),
            v == updates_view(u@),
            place_from(v, member@, 0) == place_from(v, member@, i as int),
        decreases u.len() - i,
    {
        proof {
            assert(v[i as int].0 == u@[i as int].0@);
        }
        i = i + 1;
    }
    proof {
        if i < u@.len() {
            assert(v[i as int].0 == u@[i as int].0@);
        }
    }
    let item = (encoding::copy(member), bits);
    if i < u.len() {
        u[i] = item;
        proof {
            assert(updates_view(u@) =~= v.update(i as int, (member@, bits)));
        }
    } else {
        u.push(item);
        proof {
            assert(updates_view(u@) =~= v.push((member@, bits)));
        }
    }
}

fn collect_updates(args: &[Vec<u8>], floats: &Floats, from: usize) -> (r: KvdbResult<
    Vec<(Vec<u8>, u64)>,
>)
    requires
        from <= args@.len(),
        (args@.len() - from) % 2 == 0,
    ensures
        ({
            let n = ((args@.len() - from) / 2) as nat;
            match r {
                Ok(u) => scores_given(floats.scores@, from as int, n) && updates_view(u@)
                    == updates(
                    encoding::byte_seqs(args@),
                    floats.scores@,
                    from as int,
                    n,
                ),
                Err(e) => !scores_given(floats.scores@, from as int, n) && e@
                    == ErrorView::NotInteger,
            }
        }),
{
    let ghost a = encoding::byte_seqs(args@);
    let ghost sc = floats.scores@;
    let mut u: Vec<(Vec<u8>, u64)> = Vec::new();
    let mut i: usize = from;
    proof {
        assert(updates_view(u@) =~= Seq::<(Seq<u8>, u64)>::empty());
    }
    while i < args.len()
        invariant
            from <= i <= args@.len(),
            (i - from) % 2 == 0,
            (args@.len() - from) % 2 == 0,
            a == encoding::byte_seqs(args@),
            sc == floats.scores@,
            scores_given(sc, from as int, ((i - from) / 2) as nat),
            updates_view(u@) == updates(a, sc, from as int, ((i - from) / 2) as nat),
        decreases args.len() - i,
    {
        let ghost n = ((i - from) / 2) as nat;
        let bits: u64 = match parse_score(floats, i) {
            Ok(b) => b,
            Err(e) => {
                proof {
                    assert(score_arg(sc, from + 2 * (n as int)) is None);
                }
                return Err(e);
            },
        };
        set_update(&mut u, &args[i + 1], bits);
        proof {
            assert(from + 2 * (n + 1) - 1 == i + 1);
            assert(a[i + 1] == args@[i + 1]@);
            assert(updates_view(u@) == updates(a, sc, from as int, n + 1));
            assert(((i + 2 - from) / 2) as nat == n + 1);
            assert forall|j: int| 0 <= j < n + 1 implies #[trigger] score_arg(
                sc,
                from + 2 * j,
            ) is Some by {
                if j == n {
                    assert(from + 2 * j == i);
                }
            }
        }
        i = i + 2;
    }
    Ok(u)
}

fn write_member(
    ctx: &CommandContext,
    batch: &mut WriteBatch,
    user_key: &[u8],
    version: u64,
    member: &[u8],
    prior: Option<u64>,
    new: u64,
    Ghost(s): Ghost<StoreView>,
    Ghost(st): Ghost<ZsetState>,
)
    requires
        storage::applied(s, old(batch)@) == (StoreView {
            subkey: st.subkey,
            zset_score: st.zset_score,
            ..s
        }),
    ensures
        ({
            let t = member_set(st, ctx.namespace@, user_key@, version, member@, prior, new);
            storage::applied(s, final(batch)@) == (StoreView {
                subkey: t.subkey,
                zset_score: t.zset_score,
                ..s
            })
        }),
{
    match prior {
        Some(b) => {
            let gone = score_subkey(ctx, user_key, version, b, member);
            batch.delete(Cf::ZsetScore, &gone);
        },
        None => {},
    }
    let mkey = ctx.sub_key(user_key, version, member);
    let bytes = score::encode_score(new);
    batch.put(Cf::Subkey, &mkey, &bytes);
    let skey = score_subkey(ctx, user_key, version, new, member);
    let none: Vec<u8> = Vec::new();
    proof {
        assert(none@ =~= Seq::<u8>::empty());
    }
    batch.put(Cf::ZsetScore, &skey, &none);
}

proof fn lemma_state_counts(
    s: StoreView,
    ns: Seq<u8>,
    key: Seq<u8>,
    version: u64,
    f: ZaddFlags,
    u: Seq<(Seq<u8>, u64)>,
    n: nat,
)
    ensures
        zadd_state(s, ns, key, version, f, u, n).added <= zadd_state(
            s,
            ns,
            key,
            version,
            f,
            u,
            n,
        ).changed <= n,
    decreases n,
{
    if n > 0 {
        lemma_state_counts(s, ns, key, version, f, u, (n - 1) as nat);
    }
}

fn zadd_members(
    ctx: &CommandContext,
    user_key: &[u8],
    meta: &Metadata,
    flags: ZaddFlags,
    u: &Vec<(Vec<u8>, u64)>,
) -> (r: KvdbResult<(WriteBatch, u64, u64)>)
    ensures
        ({
            let s = ctx.storage@;
            let ns = ctx.namespace@;
            let uv = updates_view(u@);
            let st = zadd_state(s, ns, user_key@, meta.version, flags, uv, uv.len());
            match r {
                Ok((batch, added, changed)) => scores_readable(
                    s.subkey,
                    ns,
                    user_key@,
                    meta.version,
                    uv,
                ) && storage::applied(s, batch@) == (StoreView {
                    subkey: st.subkey,
                    zset_score: st.zset_score,
                    ..s
                }) && added == st.added && changed == st.changed,
                Err(e) => !scores_readable(s.subkey, ns, user_key@, meta.version, uv) && e@
                    == bad_score(),
            }
        }),
{
    let ghost s = ctx.storage@;
    let ghost ns = ctx.namespace@;
    let ghost uv = updates_view(u@);
    let mut batch = WriteBatch::new();
    let mut added: u64 = 0;
    let mut changed: u64 = 0;
    let mut i: usize = 0;
    while i < u.len()
        invariant
            i <= u@.len(),
            s == ctx.storage@,
            ns == ctx.namespace@,
            uv == updates_view(u@),
            forall|j: int|
                0 <= j < i ==> old_score(
                    s.subkey,
                    ns,
                    user_key@,
                    meta.version,
                    (#[trigger] uv[j]).0,
                ) is Ok,
            ({
                let st = zadd_state(s, ns, user_key@, meta.version, flags, uv, i as nat);
                &&& storage::applied(s, batch@) == (StoreView {
                    subkey: st.subkey,
                    zset_score: st.zset_score,
                    ..s
                })
                &&& added == st.added
                &&& changed == st.changed
                &&& added <= changed <= i
            }),
        decreases u.len() - i,
    {
        let ghost st = zadd_state(s, ns, user_key@, meta.version, flags, uv, i as nat);
        proof {
            assert(uv[i as int] == (u@[i as int].0@, u@[i as int].1));
            assert(u.len() == u@.len());
            lemma_state_counts(s, ns, user_key@, meta.version, flags, uv, (i + 1) as nat);
        }
        let mkey = ctx.sub_key(user_key, meta.version, &u[i].0);
        let prior = match read_score(ctx, &mkey) {
            Ok(b) => b,
            Err(e) => {
                proof {
                    assert(old_score(
                        s.subkey,
                        ns,
                        user_key@,
                        meta.version,
                        uv[i as int].0,
                    ) is Err);
                }
                return Err(e);
            },
        };
        match decide_member(flags, prior, u[i].1) {
            MemberAction::Skip => {},
            _ => {
                write_member(
                    ctx,
                    &mut batch,
                    user_key,
                    meta.version,
                    &u[i].0,
                    prior,
                    u[i].1,
                    Ghost(s),
                    Ghost(st),
                );
                if prior.is_none() {
                    added = added + 1;
                }
                changed = changed + 1;
            },
        }
        i = i + 1;
    }
    Ok((batch, added, changed))
}

fn write_one(
    ctx: &mut CommandContext,
    user_key: &[u8],
    meta: &Metadata,
    member: &[u8],
    prior: Option<u64>,
    new: u64,
)
    ensures
        final(ctx).storage@ == one_member_written(
            old(ctx).storage@,
            old(ctx).namespace@,
            user_key@,
            *meta,
            member@,
            prior,
            new,
        ),
        final(ctx).kept(*old(ctx)),
{
    let mut batch = WriteBatch::new();
    let ghost s = ctx.storage@;
    let ghost st = ZsetState {
        subkey: s.subkey,
        zset_score: s.zset_score,
        added: 0,
        changed: 0,
    };
    proof {
        assert((StoreView { subkey: st.subkey, zset_score: st.zset_score, ..s }) =~= s);
    }
    write_member(
        ctx,
        &mut batch,
        user_key,
        meta.version,
        member,
        prior,
        new,
        Ghost(s),
        Ghost(st),
    );
    let mut written = *meta;
    if prior.is_none() {
        written.size = written.size.wrapping_add(1);
    }
    let mk = ctx.meta_key(user_key);
    let mv = encoding::encode_metadata(&written);
    batch.put(Cf::Metadata, &mk, &mv);
    ctx.storage.write(batch);
}

fn zadd_incr(
    ctx: &mut CommandContext,
    user_key: &[u8],
    meta: &Metadata,
    flags: ZaddFlags,
    floats: &Floats,
    i: usize,
    member: &[u8],
) -> (r: KvdbResult<RespValue>)
    ensures
        cmd::outcome(r, final(ctx).storage@) == zadd_incr_outcome(
            old(ctx).storage@,
            old(ctx).namespace@,
            user_key@,
            *meta,
            flags,
            score_arg(floats.scores@, i as int),
            member@,
            floats.sum,
        ),
        final(ctx).kept(*old(ctx)),
{
    proof {
        ctx.storage.lemma_follows_self();
    }
    let increment: u64 = match parse_score(floats, i) {
        Ok(b) => b,
        Err(e) => return Err(e),
    };
    let mkey = ctx.sub_key(user_key, meta.version, member);
    let present = ctx.storage.contains_in(Cf::Subkey, &mkey);
    if (flags.nx && present) || (flags.xx && !present) {
        return Ok(RespValue::BulkString(None));
    }
    match read_score(ctx, &mkey) {
        Err(e) => Err(e),
        Ok(None) => {
            write_one(ctx, user_key, meta, member, None, increment);
            Ok(RespValue::Score(increment))
        },
        Ok(Some(prior)) => {
            let sum: u64 = floats.sum;
            if !score::finite(sum) {
                return Err(error::command_error("increment would produce NaN or Infinity"));
            }
            if flags.gt && (score::less(sum, prior) || score::equal(sum, prior)) {
                return Ok(RespValue::BulkString(None));
            }
            if flags.lt && (score::less(prior, sum) || score::equal(prior, sum)) {
                return Ok(RespValue::BulkString(None));
            }
            write_one(ctx, user_key, meta, member, Some(prior), sum);
            Ok(RespValue::Score(sum))
        },
    }
}

pub fn zadd(ctx: &mut CommandContext, args: &[Vec<u8>], at: Moment, floats: &Floats) -> (r:
    KvdbResult<RespValue>)
    ensures
        cmd::outcome(r, final(ctx).storage@) == zadd_outcome(
            old(ctx).storage@,
            old(ctx).namespace@,
            encoding::byte_seqs(args@),
            at,
            floats.scores@,
            floats.sum,
        ),
        final(ctx).kept(*old(ctx)),
{
    proof {
        ctx.storage.lemma_follows_self();
    }
    match expect_min_arg_count("ZADD", args, 3) {
        Ok(_) => {},
        Err(e) => return Err(e),
    }
    let ghost a = encoding::byte_seqs(args@);
    let (flags, from) = match parse_zadd_flags(args) {
        Ok(x) => x,
        Err(e) => return Err(e),
    };
    if from == args.len() || (args.len() - from) % 2 != 0 {
        return Err(KvdbError::WrongArgCount("ZADD"));
    }
    if flags.incr && args.len() - from != 2 {
        return Err(
            error::command_error("INCR option supports a single increment-element pair"),
        );
    }
    let mut meta = match read_zset_meta(ctx, &args[0], at.now_ms) {
        Ok(Some(m)) => m,
        Ok(None) => Metadata::new(DataType::ZSet, at.version),
        Err(e) => return Err(e),
    };
    if flags.incr {
        proof {
            assert(a[from + 1] == args@[from + 1]@);
        }
        return zadd_incr(ctx, &args[0], &meta, flags, floats, from, &args[from + 1]);
    }
    let u = match collect_updates(args, floats, from) {
        Ok(u) => u,
        Err(e) => return Err(e),
    };
    let (mut batch, added, changed) = match zadd_members(ctx, &args[0], &meta, flags, &u) {
        Ok(x) => x,
        Err(e) => return Err(e),
    };
    meta.size = meta.size.wrapping_add(added);
    let mk = ctx.meta_key(&args[0]);
    let mv = encoding::encode_metadata(&meta);
    batch.put(Cf::Metadata, &mk, &mv);
    ctx.storage.write(batch);
    Ok(
        RespValue::Integer(
            if flags.ch {
                changed as i64
            } else {
                added as i64
            },
        ),
    )
}

/// ZINCRBY key increment member: adds to the score of a member, or makes it a
/// member with the increment as its score.
pub open spec fn zincrby_outcome(
    s: StoreView,
    ns: Seq<u8>,
    a: Seq<Seq<u8>>,
    at: Moment,
    scores: Seq<Option<u64>>,
    sum: u64,
) -> Outcome {
    if a.len() != 3 {
        cmd::unchanged(Err(cmd::wrong_args("ZINCRBY"@)), s)
    } else {
        match score_arg(scores, 1) {
            None => cmd::unchanged(Err(ErrorView::NotInteger), s),
            Some(inc) => match zset_meta(s, ns, a[0], at.now_ms) {
                Err(e) => cmd::unchanged(Err(e), s),
                Ok(found) => {
                    let m = meta_or_new(found, at.version);
                    match old_score(s.subkey, ns, a[0], m.version, a[2]) {
                        Err(e) => cmd::unchanged(Err(e), s),
                        Ok(None) => Outcome {
                            reply: Ok(RespView::Score(inc)),
                            store: one_member_written(s, ns, a[0], m, a[2], None, inc),
                        },
                        Ok(Some(prior)) => if score::is_finite(sum) {
                            Outcome {
                                reply: Ok(RespView::Score(sum)),
                                store: one_member_written(s, ns, a[0], m, a[2], Some(prior), sum),
                            }
                        } else {
                            cmd::unchanged(Err(bad_increment()), s)
                        },
                    }
                },
            },
        }
    }
}

pub fn zincrby(ctx: &mut CommandContext, args: &[Vec<u8>], at: Moment, floats: &Floats) -> (r:
    KvdbResult<RespValue>)
    ensures
        cmd::outcome(r, final(ctx).storage@) == zincrby_outcome(
            old(ctx).storage@,
            old(ctx).namespace@,
            encoding::byte_seqs(args@),
            at,
            floats.scores@,
            floats.sum,
        ),
        final(ctx).kept(*old(ctx)),
{
    proof {
        ctx.storage.lemma_follows_self();
    }
    match expect_arg_count("ZINCRBY", args, 3) {
        Ok(_) => {},
        Err(e) => return Err(e),
    }
    let increment: u64 = match parse_score(floats, 1) {
        Ok(b) => b,
        Err(e) => return Err(e),
    };
    let meta = match read_zset_meta(ctx, &args[0], at.now_ms) {
        Ok(Some(m)) => m,
        Ok(None) => Metadata::new(DataType::ZSet, at.version),
        Err(e) => return Err(e),
    };
    let mkey = ctx.sub_key(&args[0], meta.version, &args[2]);
    match read_score(ctx, &mkey) {
        Err(e) => Err(e),
        Ok(None) => {
            write_one(ctx, &args[0], &meta, &args[2], None, increment);
            Ok(RespValue::Score(increment))
        },
        Ok(Some(prior)) => {
            if !score::finite(floats.sum) {
                return Err(error::command_error("increment would produce NaN or Infinity"));
            }
            write_one(ctx, &args[0], &meta, &args[2], Some(prior), floats.sum);
            Ok(RespValue::Score(floats.sum))
        },
    }
}

/// The score of a member, if it is one and its record can be read.
pub open spec fn current_score(
    s: StoreView,
    ns: Seq<u8>,
    key: Seq<u8>,
    member: Seq<u8>,
    now_ms: i64,
) -> Option<u64> {
    match zset_meta(s, ns, key, now_ms) {
        Ok(Some(m)) => match old_score(s.subkey, ns, key, m.version, member) {
            Ok(b) => b,
            Err(_) => None,
        },
        _ => None,
    }
}

/// The score that an increment will be added to: the present score of the
/// member that ZINCRBY, or ZADD with INCR, names.
fn increment_base(ctx: &CommandContext, user_key: &[u8], member: &[u8], now_ms: i64) -> (r:
    Option<u64>)
    ensures
        r == current_score(ctx.storage@, ctx.namespace@, user_key@, member@, now_ms),
{
    match read_zset_meta(ctx, user_key, now_ms) {
        Ok(Some(m)) => {
            let mkey = ctx.sub_key(user_key, m.version, member);
            match read_score(ctx, &mkey) {
                Ok(b) => b,
                Err(_) => None,
            }
        },
        _ => None,
    }
}

/// Two values, if both are there.
pub open spec fn both(x: Option<u64>, y: Option<u64>) -> Option<(u64, u64)> {
    match (x, y) {
        (Some(a), Some(b)) => Some((a, b)),
        _ => None,
    }
}

/// The score and the increment that a command adds up, if it adds up any: those
/// of ZINCRBY, and of ZADD with INCR, for a member that is there.
pub open spec fn addends(
    s: StoreView,
    ns: Seq<u8>,
    c: Seq<u8>,
    a: Seq<Seq<u8>>,
    scores: Seq<Option<u64>>,
    now_ms: i64,
) -> Option<(u64, u64)> {
    if text::is_word(c, "ZINCRBY"@) && a.len() == 3 {
        both(current_score(s, ns, a[0], a[2], now_ms), score_arg(scores, 1))
    } else if text::is_word(c, "ZADD"@) && a.len() >= 3 {
        let (f, from) = flags_from(a, 1, no_flags());
        if flags_error(f) is None && f.incr && a.len() - from == 2 {
            both(current_score(s, ns, a[0], a[from + 1], now_ms), score_arg(scores, from))
        } else {
            None
        }
    } else {
        None
    }
}

fn addends_at(
    ctx: &CommandContext,
    args: &[Vec<u8>],
    increment: usize,
    member: usize,
    floats: &Floats,
    now_ms: i64,
) -> (r: Option<(u64, u64)>)
    requires
        0 < args@.len(),
        member < args@.len(),
    ensures
        r == both(
            current_score(
                ctx.storage@,
                ctx.namespace@,
                args@[0]@,
                args@[member as int]@,
                now_ms,
            ),
            score_arg(floats.scores@, increment as int),
        ),
{
    match (
        increment_base(ctx, &args[0], &args[member], now_ms),
        parse_score(floats, increment),
    ) {
        (Some(a), Ok(b)) => Some((a, b)),
        _ => None,
    }
}

/// The score and the increment whose sum a command takes as given.
pub fn increment_addends(
    ctx: &CommandContext,
    c: &[u8],
    args: &[Vec<u8>],
    floats: &Floats,
    now_ms: i64,
) -> (r: Option<(u64, u64)>)
    ensures
        r == addends(
            ctx.storage@,
            ctx.namespace@,
            c@,
            encoding::byte_seqs(args@),
            floats.scores@,
            now_ms,
        ),
{
    let ghost a = encoding::byte_seqs(args@);
    let n: usize = args.len();
    if text::matches_word(c, "ZINCRBY") && n == 3 {
        proof {
            assert(a[0] == args@[0]@ && a[2] == args@[2]@);
        }
        return addends_at(ctx, args, 1, 2, floats, now_ms);
    }
    if text::matches_word(c, "ZADD") && n >= 3 {
        return match parse_zadd_flags(args) {
            Ok((flags, from)) => if flags.incr && n - from == 2 {
                proof {
                    assert(a[0] == args@[0]@ && a[from + 1] == args@[from + 1]@);
                }
                addends_at(ctx, args, from, from + 1, floats, now_ms)
            } else {
                None
            },
            Err(_) => None,
        };
    }
    None
}

/// ZSCORE key member.
pub open spec fn zscore_reply(s: StoreView, ns: Seq<u8>, a: Seq<Seq<u8>>, now_ms: i64) -> Result<
    RespView,
    ErrorView,
> {
    if a.len() != 2 {
        Err(cmd::wrong_args("ZSCORE"@))
    } else {
        match zset_meta(s, ns, a[0], now_ms) {
            Err(e) => Err(e),
            Ok(None) => Ok(cmd::bulk(None)),
            Ok(Some(m)) => match old_score(s.subkey, ns, a[0], m.version, a[1]) {
                Err(e) => Err(e),
                Ok(None) => Ok(cmd::bulk(None)),
                Ok(Some(b)) => Ok(RespView::Score(b)),
            },
        }
    }
}

pub fn zscore(ctx: &CommandContext, args: &[Vec<u8>], now_ms: i64) -> (r: KvdbResult<RespValue>)
    ensures
        cmd::reply_view(r) == zscore_reply(
            ctx.storage@,
            ctx.namespace@,
            encoding::byte_seqs(args@),
            now_ms,
        ),
{
    match expect_arg_count("ZSCORE", args, 2) {
        Ok(_) => {},
        Err(e) => return Err(e),
    }
    match read_zset_meta(ctx, &args[0], now_ms) {
        Err(e) => Err(e),
        Ok(None) => Ok(RespValue::BulkString(None)),
        Ok(Some(m)) => {
            let mkey = ctx.sub_key(&args[0], m.version, &args[1]);
            match read_score(ctx, &mkey) {
                Err(e) => Err(e),
                Ok(None) => Ok(RespValue::BulkString(None)),
                Ok(Some(b)) => Ok(RespValue::Score(b)),
            }
        },
    }
}

/// ZCARD key: the size in the metadata.
pub open spec fn zcard_reply(s: StoreView, ns: Seq<u8>, a: Seq<Seq<u8>>, now_ms: i64) -> Result<
    RespView,
    ErrorView,
> {
    if a.len() != 1 {
        Err(cmd::wrong_args("ZCARD"@))
    } else {
        match zset_meta(s, ns, a[0], now_ms) {
            Err(e) => Err(e),
            Ok(None) => Ok(RespView::Integer(0)),
            Ok(Some(m)) => Ok(cmd::count_reply(m.size)),
        }
    }
}

pub fn zcard(ctx: &CommandContext, args: &[Vec<u8>], now_ms: i64) -> (r: KvdbResult<RespValue>)
    ensures
        cmd::reply_view(r) == zcard_reply(
            ctx.storage@,
            ctx.namespace@,
            encoding::byte_seqs(args@),
            now_ms,
        ),
{
    match expect_arg_count("ZCARD", args, 1) {
        Ok(_) => {},
        Err(e) => return Err(e),
    }
    match read_zset_meta(ctx, &args[0], now_ms) {
        Err(e) => Err(e),
        Ok(None) => Ok(RespValue::Integer(0)),
        Ok(Some(m)) => Ok(count_value(m.size)),
    }
}

/// The families after the first `n` members among the arguments are removed,
/// and how many of them were members.
pub open spec fn zrem_state(
    s: StoreView,
    ns: Seq<u8>,
    a: Seq<Seq<u8>>,
    version: u64,
    n: nat,
) -> ZsetState
    decreases n,
{
    if n == 0 {
        ZsetState { subkey: s.subkey, zset_score: s.zset_score, added: 0, changed: 0 }
    } else {
        let st = zrem_state(s, ns, a, version, (n - 1) as nat);
        let member = a[n as int];
        match old_score(st.subkey, ns, a[0], version, member) {
            Ok(Some(prior)) => ZsetState {
                subkey: st.subkey.remove(encoding::subkey_of(a[0], version, member, ns)),
                zset_score: st.zset_score.remove(score_key(a[0], version, prior, member, ns)),
                added: 0,
                changed: st.changed + 1,
            },
            _ => st,
        }
    }
}

/// ZREM key member [member ...]: removes the members and replies how many of
/// them were members. A member that is named twice is removed, and counted,
/// once.
pub open spec fn zrem_outcome(
    s: StoreView,
    ns: Seq<u8>,
    a: Seq<Seq<u8>>,
    now_ms: i64,
) -> Outcome {
    if a.len() < 2 {
        cmd::unchanged(Err(cmd::wrong_args("ZREM"@)), s)
    } else {
        match zset_meta(s, ns, a[0], now_ms) {
            Err(e) => cmd::unchanged(Err(e), s),
            Ok(None) => cmd::unchanged(Ok(RespView::Integer(0)), s),
            Ok(Some(m)) => if exists|i: int|
                1 <= i < a.len() && old_score(
                    s.subkey,
                    ns,
                    a[0],
                    m.version,
                    #[trigger] a[i],
                ) is Err {
                cmd::unchanged(Err(bad_score()), s)
            } else {
                let st = zrem_state(s, ns, a, m.version, (a.len() - 1) as nat);
                Outcome {
                    reply: Ok(RespView::Integer(st.changed as i64)),
                    store: StoreView {
                        subkey: st.subkey,
                        zset_score: st.zset_score,
                        metadata: if st.changed > 0 {
                            s.metadata.insert(
                                encoding::meta_key_of(a[0], ns),
                                encoding::metadata_bytes(
                                    (Metadata { size: cmd::shrunk(m.size, st.changed), ..m }),
                                ),
                            )
                        } else {
                            s.metadata
                        },
                        ..s
                    },
                }
            },
        }
    }
}

proof fn lemma_zrem_none(s: StoreView, ns: Seq<u8>, a: Seq<Seq<u8>>, version: u64, n: nat)
    ensures
        zrem_state(s, ns, a, version, n).changed <= n,
        zrem_state(s, ns, a, version, n).changed == 0 ==> zrem_state(s, ns, a, version, n).subkey
            == s.subkey && zrem_state(s, ns, a, version, n).zset_score == s.zset_score,
    decreases n,
{
    if n > 0 {
        lemma_zrem_none(s, ns, a, version, (n - 1) as nat);
    }
}

pub fn zrem(ctx: &mut CommandContext, args: &[Vec<u8>], now_ms: i64) -> (r: KvdbResult<RespValue>)
    ensures
        cmd::outcome(r, final(ctx).storage@) == zrem_outcome(
            old(ctx).storage@,
            old(ctx).namespace@,
            encoding::byte_seqs(args@),
            now_ms,
        ),
        final(ctx).kept(*old(ctx)),
{
    proof {
        ctx.storage.lemma_follows_self();
    }
    match expect_min_arg_count("ZREM", args, 2) {
        Ok(_) => {},
        Err(e) => return Err(e),
    }
    let mut meta = match read_zset_meta(ctx, &args[0], now_ms) {
        Ok(Some(m)) => m,
        Ok(None) => return Ok(RespValue::Integer(0)),
        Err(e) => return Err(e),
    };
    let ghost a = encoding::byte_seqs(args@);
    let ghost s = ctx.storage@;
    let ghost ns = ctx.namespace@;
    let ghost first = meta;
    let none: Vec<u8> = Vec::new();
    let mut batch = WriteBatch::new();
    let mut seen = Table::new();
    let mut removed: u64 = 0;
    let mut i: usize = 1;
    while i < args.len()
        invariant
            1 <= i <= args@.len(),
            a == encoding::byte_seqs(args@),
            *ctx == *old(ctx),
            s == ctx.storage@,
            ns == ctx.namespace@,
            meta == (Metadata { size: cmd::shrunk(first.size, removed as nat), ..first }),
            forall|j: int|
                1 <= j < i ==> old_score(
                    s.subkey,
                    ns,
                    a[0],
                    first.version,
                    #[trigger] a[j],
                ) is Ok,
            zset_meta(s, ns, a[0], now_ms) == Ok::<_, ErrorView>(Some(first)),
            ({
                let st = zrem_state(s, ns, a, first.version, (i - 1) as nat);
                &&& storage::applied(s, batch@) == (StoreView {
                    subkey: st.subkey,
                    zset_score: st.zset_score,
                    ..s
                })
                &&& removed == st.changed
                &&& removed <= i
                &&& forall|k: Seq<u8>| #[trigger]
                    st.subkey.contains_key(k) == (s.subkey.contains_key(k) && !seen@.contains_key(
                        k,
                    ))
                &&& forall|k: Seq<u8>| #[trigger]
                    st.subkey.contains_key(k) ==> st.subkey[k] == s.subkey[k]
            }),
        decreases args.len() - i,
    {
        proof {
            assert(a[i as int] == args@[i as int]@);
            assert(a[0] == args@[0]@);
            lemma_zrem_none(s, ns, a, first.version, i as nat);
        }
        let mkey = ctx.sub_key(&args[0], meta.version, &args[i]);
        let gone = seen.contains(&mkey);
        seen.put(&mkey, &none);
        match read_score(ctx, &mkey) {
            Err(e) => {
                proof {
                    assert(old_score(s.subkey, ns, a[0], first.version, a[i as int]) is Err);
                    ctx.storage.lemma_follows_self();
                }
                return Err(e);
            },
            Ok(None) => {},
            Ok(Some(prior)) => if !gone {
                let skey = score_subkey(ctx, &args[0], meta.version, prior, &args[i]);
                batch.delete(Cf::Subkey, &mkey);
                batch.delete(Cf::ZsetScore, &skey);
                removed = removed + 1;
                meta.size = meta.size.saturating_sub(1);
            },
        }
        i = i + 1;
    }
    proof {
        lemma_zrem_none(s, ns, a, first.version, (a.len() - 1) as nat);
        assert((StoreView { subkey: s.subkey, zset_score: s.zset_score, ..s }) =~= s);
    }
    if removed > 0 {
        let mk = ctx.meta_key(&args[0]);
        let mv = encoding::encode_metadata(&meta);
        batch.put(Cf::Metadata, &mk, &mv);
        ctx.storage.write(batch);
    }
    Ok(RespValue::Integer(removed as i64))
}

/// The keys of a sorted set in the score family, from the smallest score up,
/// or from the greatest down.
pub open spec fn directed(m: Entries, prefix: Seq<u8>, reverse: bool) -> Seq<Seq<u8>> {
    if reverse {
        table::keys_with(m, prefix).reverse()
    } else {
        table::keys_with(m, prefix)
    }
}

/// Where a walk over these keys stands after `pos` of them.
pub open spec fn directed_mark(m: Entries, prefix: Seq<u8>, reverse: bool, pos: int) -> Seq<u8> {
    if reverse {
        table::backward_mark(m, prefix, pos)
    } else {
        table::forward_mark(m, prefix, pos)
    }
}

fn next_page(
    ctx: &CommandContext,
    prefix: &[u8],
    start_key: &[u8],
    reverse: bool,
    Ghost(pos): Ghost<int>,
) -> (r: table::Page)
    requires
        prefix@.len() > 0,
        0 <= pos <= directed(ctx.storage@.zset_score, prefix@, reverse).len(),
        start_key@ == directed_mark(ctx.storage@.zset_score, prefix@, reverse, pos),
    ensures
        ({
            let m = ctx.storage@.zset_score;
            let ks = directed(m, prefix@, reverse);
            let n = r.0@.len() as int;
            &&& pos + n <= ks.len() <= usize::MAX
            &&& forall|j: int| 0 <= j < n ==> (#[trigger] r.0@[j]).0@ == ks[pos + j]
            &&& r.1 is Some ==> pos + n < ks.len() && n > 0 && r.1->0@ == directed_mark(
                m,
                prefix@,
                reverse,
                pos + n,
            )
            &&& r.1 is None ==> pos + n == ks.len()
        }),
{
    let r = if reverse {
        ctx.storage.walk_back(Cf::ZsetScore, prefix, start_key, ZSET_PAGE_SIZE, Ghost(pos))
    } else {
        ctx.storage.walk(Cf::ZsetScore, prefix, start_key, ZSET_PAGE_SIZE, Ghost(pos))
    };
    proof {
        let m = ctx.storage@.zset_score;
        let ks = directed(m, prefix@, reverse);
        let n = r.0@.len() as int;
        assert forall|j: int| 0 <= j < n implies (#[trigger] r.0@[j]).0@ == ks[pos + j] by {
            assert(table::pairs_of(r.0@)[j].0 == r.0@[j].0@);
            assert(table::entries_at(m, ks.subrange(pos, pos + n))[j].0 == ks[pos + j]);
        }
    }
    r
}

/// A key that ends the search for a member: it cannot be read, or it is the
/// member's.
pub open spec fn ends_search(ns: Seq<u8>, bits: u64, member: Seq<u8>) -> spec_fn(Seq<u8>) -> bool {
    |k: Seq<u8>|
        score_parts(k, ns) is None || (score::score_eq(score_of(k, ns), bits) && member_of(k, ns)
            == member)
}

/// The place of a member among the keys of the set.
pub open spec fn rank_in(ks: Seq<Seq<u8>>, ns: Seq<u8>, bits: u64, member: Seq<u8>) -> Result<
    RespView,
    ErrorView,
> {
    let i = order::first_from(ks, ends_search(ns, bits, member), 0);
    if i == ks.len() {
        Ok(cmd::bulk(None))
    } else if score_parts(ks[i], ns) is None {
        Err(bad_score_key())
    } else {
        Ok(RespView::Integer(i as i64))
    }
}

fn find_rank(
    ctx: &CommandContext,
    user_key: &[u8],
    version: u64,
    bits: u64,
    member: &[u8],
    reverse: bool,
) -> (r: KvdbResult<RespValue>)
    ensures
        cmd::reply_view(r) == rank_in(
            directed(
                ctx.storage@.zset_score,
                encoding::sub_prefix(user_key@, version, ctx.namespace@),
                reverse,
            ),
            ctx.namespace@,
            bits,
            member@,
        ),
{
    let prefix = ctx.sub_prefix(user_key, version);
    let mut start_key: Vec<u8> = Vec::new();
    let ghost m = ctx.storage@.zset_score;
    let ghost ns = ctx.namespace@;
    let ghost ks = directed(m, prefix@, reverse);
    let ghost p = ends_search(ns, bits, member@);
    let mut rank: usize = 0;
    let ghost mut pos: int = 0;
    proof {
        assert(start_key@ =~= directed_mark(m, prefix@, reverse, 0));
    }
    loop
        invariant_except_break
            start_key@ == directed_mark(m, prefix@, reverse, pos),
            0 <= pos <= ks.len(),
            rank == pos,
            order::first_from(ks, p, 0) == order::first_from(ks, p, pos),
        invariant
            prefix@.len() > 0,
            m == ctx.storage@.zset_score,
            ns == ctx.namespace@,
            prefix@ == encoding::sub_prefix(user_key@, version, ns),
            ks == directed(m, prefix@, reverse),
            p == ends_search(ns, bits, member@),
        ensures
            order::first_from(ks, p, 0) == ks.len(),
        decreases ks.len() - pos,
    {
        let (items, next) = next_page(ctx, &prefix, &start_key, reverse, Ghost(pos));
        if items.len() == 0 {
            break;
        }
        let mut j: usize = 0;
        while j < items.len()
            invariant
                j <= items@.len(),
                0 <= pos,
                pos + items@.len() <= ks.len(),
                ns == ctx.namespace@,
                m == ctx.storage@.zset_score,
                prefix@ == encoding::sub_prefix(user_key@, version, ns),
                ks == directed(m, prefix@, reverse),
                p == ends_search(ns, bits, member@),
                forall|i: int| 0 <= i < items@.len() ==> (#[trigger] items@[i]).0@ == ks[pos + i],
                rank == pos + j,
                ks.len() <= usize::MAX,
                order::first_from(ks, p, 0) == order::first_from(ks, p, pos + j),
            decreases items.len() - j,
        {
            let ghost k = ks[pos + j];
            proof {
                assert(items@[j as int].0@ == k);
            }
            match parse_score_subkey(ctx, &items[j].0) {
                Err(e) => {
                    proof {
                        assert(p(k));
                    }
                    return Err(e);
                },
                Ok((b, found)) => {
                    if score::equal(b, bits) && order::same(&found, member) {
                        proof {
                            assert(p(k));
                        }
                        return Ok(RespValue::Integer(rank as i64));
                    }
                    proof {
                        assert(!p(k));
                    }
                },
            }
            rank = rank + 1;
            j = j + 1;
        }
        proof {
            pos = pos + items@.len();
        }
        match next {
            Some(k) => {
                start_key = k;
            },
            None => {
                break;
            },
        }
    }
    Ok(RespValue::BulkString(None))
}

/// ZRANK and ZREVRANK key member: the place of a member, counted from the
/// smallest score or from the greatest.
pub open spec fn zrank_reply(
    s: StoreView,
    ns: Seq<u8>,
    a: Seq<Seq<u8>>,
    now_ms: i64,
    reverse: bool,
) -> Result<RespView, ErrorView> {
    if a.len() != 2 {
        Err(
            cmd::wrong_args(
                if reverse {
                    "ZREVRANK"@
                } else {
                    "ZRANK"@
                },
            ),
        )
    } else {
        match zset_meta(s, ns, a[0], now_ms) {
            Err(e) => Err(e),
            Ok(None) => Ok(cmd::bulk(None)),
            Ok(Some(m)) => match old_score(s.subkey, ns, a[0], m.version, a[1]) {
                Err(e) => Err(e),
                Ok(None) => Ok(cmd::bulk(None)),
                Ok(Some(b)) => rank_in(
                    directed(
                        s.zset_score,
                        encoding::sub_prefix(a[0], m.version, ns),
                        reverse,
                    ),
                    ns,
                    b,
                    a[1],
                ),
            },
        }
    }
}

fn rank_command(
    ctx: &CommandContext,
    name: &'static str,
    args: &[Vec<u8>],
    now_ms: i64,
    reverse: bool,
) -> (r: KvdbResult<RespValue>)
    requires
        name@ == (if reverse {
            "ZREVRANK"@
        } else {
            "ZRANK"@
        }),
    ensures
        cmd::reply_view(r) == zrank_reply(
            ctx.storage@,
            ctx.namespace@,
            encoding::byte_seqs(args@),
            now_ms,
            reverse,
        ),
{
    match expect_arg_count(name, args, 2) {
        Ok(_) => {},
        Err(e) => return Err(e),
    }
    match read_zset_meta(ctx, &args[0], now_ms) {
        Err(e) => Err(e),
        Ok(None) => Ok(RespValue::BulkString(None)),
        Ok(Some(m)) => {
            let mkey = ctx.sub_key(&args[0], m.version, &args[1]);
            match read_score(ctx, &mkey) {
                Err(e) => Err(e),
                Ok(None) => Ok(RespValue::BulkString(None)),
                Ok(Some(b)) => find_rank(ctx, &args[0], m.version, b, &args[1], reverse),
            }
        },
    }
}

pub fn zrank(ctx: &CommandContext, args: &[Vec<u8>], now_ms: i64) -> (r: KvdbResult<RespValue>)
    ensures
        cmd::reply_view(r) == zrank_reply(
            ctx.storage@,
            ctx.namespace@,
            encoding::byte_seqs(args@),
            now_ms,
            false,
        ),
{
    rank_command(ctx, "ZRANK", args, now_ms, false)
}

pub fn zrevrank(ctx: &CommandContext, args: &[Vec<u8>], now_ms: i64) -> (r: KvdbResult<RespValue>)
    ensures
        cmd::reply_view(r) == zrank_reply(
            ctx.storage@,
            ctx.namespace@,
            encoding::byte_seqs(args@),
            now_ms,
            true,
        ),
{
    rank_command(ctx, "ZREVRANK", args, now_ms, true)
}

/// The scores and members in keys of the score family.
pub open spec fn items_of(ks: Seq<Seq<u8>>, ns: Seq<u8>) -> Seq<(u64, Seq<u8>)> {
    Seq::new(ks.len(), |i: int| (score_of(ks[i], ns), member_of(ks[i], ns)))
}

/// The scores and members of a list.
pub open spec fn items_view(v: Seq<(u64, Vec<u8>)>) -> Seq<(u64, Seq<u8>)> {
    Seq::new(v.len(), |i: int| (v[i].0, v[i].1@))
}

/// Members as replies, each with its score behind it if asked for.
pub open spec fn rendered(items: Seq<(u64, Seq<u8>)>, with_scores: bool) -> Seq<RespView> {
    if with_scores {
        Seq::new(
            2 * items.len(),
            |i: int|
                if i % 2 == 0 {
                    cmd::bulk(Some(items[i / 2].1))
                } else {
                    RespView::Score(items[i / 2].0)
                },
        )
    } else {
        Seq::new(items.len(), |i: int| cmd::bulk(Some(items[i].1)))
    }
}

fn render(items: &Vec<(u64, Vec<u8>)>, with_scores: bool) -> (r: RespValue)
    ensures
        r@ == RespView::Array(rendered(items_view(items@), with_scores)),
{
    let mut out: Vec<RespValue> = Vec::new();
    let ghost iv = items_view(items@);
    let mut i: usize = 0;
    proof {
        assert(protocol::views(out@) =~= rendered(iv.take(0), with_scores));
    }
    while i < items.len()
        invariant
            i <= items@.len(),
            iv == items_view(items@),
            protocol::views(out@) == rendered(iv.take(i as int), with_scores),
        decreases items.len() - i,
    {
        let ghost before = protocol::views(out@);
        push_reply(&mut out, RespValue::BulkString(Some(encoding::copy(&items[i].1))));
        if with_scores {
            push_reply(&mut out, RespValue::Score(items[i].0));
        }
        proof {
            assert(iv[i as int] == (items@[i as int].0, items@[i as int].1@));
            assert(protocol::views(out@) =~= rendered(iv.take(i + 1), with_scores));
        }
        i = i + 1;
    }
    proof {
        assert(iv.take(i as int) =~= iv);
    }
    array(out)
}

/// An index counted from the end if it is negative, but not before the start.
pub open spec fn from_start(i: int, len: int) -> int {
    if i < 0 {
        if len + i < 0 {
            0
        } else {
            len + i
        }
    } else {
        i
    }
}

/// The first place and the number of places that two indexes bound, both
/// ends included.
pub open spec fn rank_span(len: int, start: int, stop: int) -> (int, int) {
    let s = from_start(start, len);
    let e = from_start(stop, len);
    if s > e || s >= len {
        (0, 0)
    } else if e >= len {
        (s, len - s)
    } else {
        (s, e - s + 1)
    }
}

/// Turns the indexes of a range into a first place and a number of places.
pub fn rank_range(len: i64, start: i64, stop: i64) -> (r: (u64, u64))
    ensures
        (r.0 as int, r.1 as int) == rank_span(len as int, start as int, stop as int),
{
    if len < 0 {
        return (0, 0);
    }
    let s: i64 = normalize_index(start, len);
    let e: i64 = normalize_index(stop, len);
    if s > e || s >= len {
        return (0, 0);
    }
    if e >= len {
        (s as u64, (len - s) as u64)
    } else {
        (s as u64, (e - s + 1) as u64)
    }
}

fn normalize_index(i: i64, len: i64) -> (r: i64)
    requires
        len >= 0,
    ensures
        r == from_start(i as int, len as int),
{
    if i < 0 {
        if len + i < 0 {
            0
        } else {
            len + i
        }
    } else {
        i
    }
}

/// Where the places that begin at `start` end: `count` places on, or at the
/// end of the keys.
pub open spec fn span_end(len: int, start: int, count: int) -> int {
    if start + count < len {
        start + count
    } else {
        len
    }
}

/// The scores and members in `count` places from `start` on. The keys up to
/// there must be readable.
pub open spec fn ranged(ks: Seq<Seq<u8>>, ns: Seq<u8>, start: int, count: int) -> Result<
    Seq<(u64, Seq<u8>)>,
    ErrorView,
> {
    let end = span_end(ks.len() as int, start, count);
    if count == 0 {
        Ok(Seq::empty())
    } else if exists|i: int| 0 <= i < end && score_parts(#[trigger] ks[i], ns) is None {
        Err(bad_score_key())
    } else if start >= end {
        Ok(Seq::empty())
    } else {
        Ok(items_of(ks.subrange(start, end), ns))
    }
}

fn collect_rank_range_items(
    ctx: &CommandContext,
    user_key: &[u8],
    version: u64,
    start_rank: u64,
    count: u64,
    reverse: bool,
) -> (r: KvdbResult<Vec<(u64, Vec<u8>)>>)
    requires
        start_rank + count <= u64::MAX,
    ensures
        (match r {
            Ok(items) => Ok::<_, ErrorView>(items_view(items@)),
            Err(e) => Err(e@),
        }) == ranged(
            directed(
                ctx.storage@.zset_score,
                encoding::sub_prefix(user_key@, version, ctx.namespace@),
                reverse,
            ),
            ctx.namespace@,
            start_rank as int,
            count as int,
        ),
{
    let mut result: Vec<(u64, Vec<u8>)> = Vec::new();
    proof {
        assert(items_view(result@) =~= Seq::<(u64, Seq<u8>)>::empty());
    }
    if count == 0 {
        return Ok(result);
    }
    let prefix = ctx.sub_prefix(user_key, version);
    let mut start_key: Vec<u8> = Vec::new();
    let ghost m = ctx.storage@.zset_score;
    let ghost ns = ctx.namespace@;
    let ghost ks = directed(m, prefix@, reverse);
    let ghost first = start_rank as int;
    let ghost end = span_end(ks.len() as int, first, count as int);
    let mut place: u64 = 0;
    let ghost mut pos: int = 0;
    proof {
        assert(start_key@ =~= directed_mark(m, prefix@, reverse, 0));
    }
    loop
        invariant_except_break
            start_key@ == directed_mark(m, prefix@, reverse, pos),
            0 <= pos <= end,
            place == pos,
            forall|i: int| 0 <= i < pos ==> score_parts(#[trigger] ks[i], ns) is Some,
            items_view(result@) == (if pos <= first {
                Seq::empty()
            } else {
                items_of(ks.subrange(first, pos), ns)
            }),
        invariant
            prefix@.len() > 0,
            m == ctx.storage@.zset_score,
            ns == ctx.namespace@,
            prefix@ == encoding::sub_prefix(user_key@, version, ns),
            ks == directed(m, prefix@, reverse),
            first == start_rank,
            count > 0,
            start_rank + count <= u64::MAX,
            end == span_end(ks.len() as int, first, count as int),
        ensures
            forall|i: int| 0 <= i < end ==> score_parts(#[trigger] ks[i], ns) is Some,
            items_view(result@) == (if end <= first {
                Seq::empty()
            } else {
                items_of(ks.subrange(first, end), ns)
            }),
        decreases ks.len() - pos,
    {
        let (items, next) = next_page(ctx, &prefix, &start_key, reverse, Ghost(pos));
        if items.len() == 0 {
            proof {
                assert(pos == ks.len());
                assert(pos == end);
            }
            break;
        }
        let mut j: usize = 0;
        while j < items.len() && place < start_rank + count
            invariant
                j <= items@.len(),
                0 <= pos,
                pos + items@.len() <= ks.len() <= usize::MAX,
                m == ctx.storage@.zset_score,
                ns == ctx.namespace@,
                prefix@ == encoding::sub_prefix(user_key@, version, ns),
                ks == directed(m, prefix@, reverse),
                forall|i: int| 0 <= i < items@.len() ==> (#[trigger] items@[i]).0@ == ks[pos + i],
                first == start_rank,
                count > 0,
                start_rank + count <= u64::MAX,
                end == span_end(ks.len() as int, first, count as int),
                place == pos + j,
                place <= end,
                forall|i: int| 0 <= i < place ==> score_parts(#[trigger] ks[i], ns) is Some,
                items_view(result@) == (if place <= first {
                    Seq::empty()
                } else {
                    items_of(ks.subrange(first, place as int), ns)
                }),
            decreases items.len() - j,
        {
            let ghost k = ks[pos + j];
            proof {
                assert(items@[j as int].0@ == k);
            }
            match parse_score_subkey(ctx, &items[j].0) {
                Err(e) => {
                    proof {
                        assert(score_parts(ks[place as int], ns) is None);
                        assert(place < end);
                    }
                    return Err(e);
                },
                Ok((b, member)) => {
                    if place >= start_rank {
                        let ghost before = items_view(result@);
                        result.push((b, member));
                        proof {
                            assert(items_view(result@) =~= before.push((b, member@)));
                            assert(items_view(result@) =~= items_of(
                                ks.subrange(first, place + 1),
                                ns,
                            ));
                        }
                    }
                },
            }
            place = place + 1;
            j = j + 1;
        }
        proof {
            pos = pos + j;
        }
        if place >= start_rank + count {
            break;
        }
        match next {
            Some(k) => {
                start_key = k;
            },
            None => {
                break;
            },
        }
    }
    Ok(result)
}

/// ZRANGE and ZREVRANGE key start stop [WITHSCORES]: the members in a range of
/// places.
pub open spec fn zrange_reply(
    s: StoreView,
    ns: Seq<u8>,
    a: Seq<Seq<u8>>,
    now_ms: i64,
    reverse: bool,
) -> Result<RespView, ErrorView> {
    if a.len() != 3 && a.len() != 4 {
        Err(
            cmd::wrong_args(
                if reverse {
                    "ZREVRANGE"@
                } else {
                    "ZRANGE"@
                },
            ),
        )
    } else if a.len() == 4 && !text::is_word(a[3], "WITHSCORES"@) {
        Err(ErrorView::Command("syntax error"@))
    } else {
        match zset_meta(s, ns, a[0], now_ms) {
            Err(e) => Err(e),
            Ok(None) => Ok(cmd::no_items()),
            Ok(Some(m)) => match (text::i64_in(a[1]), text::i64_in(a[2])) {
                (Some(start), Some(stop)) => {
                    let (first, count) = rank_span(
                        crate::codec::from_bits(m.size as nat),
                        start as int,
                        stop as int,
                    );
                    match ranged(
                        directed(
                            s.zset_score,
                            encoding::sub_prefix(a[0], m.version, ns),
                            reverse,
                        ),
                        ns,
                        first,
                        count,
                    ) {
                        Err(e) => Err(e),
                        Ok(items) => Ok(RespView::Array(rendered(items, a.len() == 4))),
                    }
                },
                _ => Err(ErrorView::NotInteger),
            },
        }
    }
}

fn range_command(
    ctx: &CommandContext,
    name: &'static str,
    args: &[Vec<u8>],
    now_ms: i64,
    reverse: bool,
) -> (r: KvdbResult<RespValue>)
    requires
        name@ == (if reverse {
            "ZREVRANGE"@
        } else {
            "ZRANGE"@
        }),
    ensures
        cmd::reply_view(r) == zrange_reply(
            ctx.storage@,
            ctx.namespace@,
            encoding::byte_seqs(args@),
            now_ms,
            reverse,
        ),
{
    if args.len() != 3 && args.len() != 4 {
        return Err(KvdbError::WrongArgCount(name));
    }
    if args.len() == 4 && !text::matches_word(&args[3], "WITHSCORES") {
        return Err(error::command_error("syntax error"));
    }
    let meta = match read_zset_meta(ctx, &args[0], now_ms) {
        Ok(Some(m)) => m,
        Ok(None) => return Ok(empty_array()),
        Err(e) => return Err(e),
    };
    let start: i64 = match text::parse_i64(&args[1]) {
        Some(n) => n,
        None => return Err(KvdbError::NotInteger),
    };
    let stop: i64 = match text::parse_i64(&args[2]) {
        Some(n) => n,
        None => return Err(KvdbError::NotInteger),
    };
    let (first, count) = rank_range(crate::codec::signed_of(meta.size), start, stop);
    match collect_rank_range_items(ctx, &args[0], meta.version, first, count, reverse) {
        Ok(items) => Ok(render(&items, args.len() == 4)),
        Err(e) => Err(e),
    }
}

pub fn zrange(ctx: &CommandContext, args: &[Vec<u8>], now_ms: i64) -> (r: KvdbResult<RespValue>)
    ensures
        cmd::reply_view(r) == zrange_reply(
            ctx.storage@,
            ctx.namespace@,
            encoding::byte_seqs(args@),
            now_ms,
            false,
        ),
{
    range_command(ctx, "ZRANGE", args, now_ms, false)
}

pub fn zrevrange(ctx: &CommandContext, args: &[Vec<u8>], now_ms: i64) -> (r: KvdbResult<RespValue>)
    ensures
        cmd::reply_view(r) == zrange_reply(
            ctx.storage@,
            ctx.namespace@,
            encoding::byte_seqs(args@),
            now_ms,
            true,
        ),
{
    range_command(ctx, "ZREVRANGE", args, now_ms, true)
}

/// What LIMIT says: how many members to pass over and how many to return, 0
/// for all.
#[derive(Debug, Clone, Copy, PartialEq, Eq, Structural)]
pub struct Limit {
    pub offset: usize,
    pub count: usize,
}

/// WITHSCORES and LIMIT offset count, from the `i`th argument on. What comes
/// later counts.
pub open spec fn range_options(a: Seq<Seq<u8>>, i: int, with_scores: bool, limit: Limit) -> Result<
    (bool, Limit),
    ErrorView,
>
    decreases a.len() - i,
{
    if 0 <= i < a.len() {
        if text::is_word(a[i], "WITHSCORES"@) {
            range_options(a, i + 1, true, limit)
        } else if text::is_word(a[i], "LIMIT"@) {
            if i + 2 >= a.len() {
                Err(ErrorView::Command("syntax error"@))
            } else {
                match (text::usize_in(a[i + 1]), text::usize_in(a[i + 2])) {
                    (Some(offset), Some(count)) => range_options(
                        a,
                        i + 3,
                        with_scores,
                        Limit { offset, count },
                    ),
                    _ => Err(ErrorView::NotInteger),
                }
            }
        } else {
            Err(ErrorView::Command("syntax error"@))
        }
    } else {
        Ok((with_scores, limit))
    }
}

/// Reads the options from the fourth argument on.
pub fn parse_zrangebyscore_options(args: &[Vec<u8>]) -> (r: KvdbResult<(bool, Limit)>)
    requires
        args@.len() >= 3,
    ensures
        (match r {
            Ok(x) => Ok::<_, ErrorView>(x),
            Err(e) => Err(e@),
        }) == range_options(
            encoding::byte_seqs(args@),
            3,
            false,
            (Limit { offset: 0, count: 0 }),
        ),
{
    let ghost a = encoding::byte_seqs(args@);
    let mut with_scores = false;
    let mut limit = Limit { offset: 0, count: 0 };
    let ghost want = range_options(a, 3, false, limit);
    let mut i: usize = 3;
    while i < args.len()
        invariant
            3 <= i <= args@.len(),
            a == encoding::byte_seqs(args@),
            want == range_options(a, i as int, with_scores, limit),
            want == range_options(a, 3, false, (Limit { offset: 0, count: 0 })),
        decreases args.len() - i,
    {
        proof {
            assert(a[i as int] == args@[i as int]@);
        }
        if text::matches_word(&args[i], "WITHSCORES") {
            with_scores = true;
            i = i + 1;
        } else if text::matches_word(&args[i], "LIMIT") {
            if args.len() - i <= 2 {
                return Err(error::command_error("syntax error"));
            }
            proof {
                assert(a[i + 1] == args@[i + 1]@);
                assert(a[i + 2] == args@[i + 2]@);
            }
            match (text::parse_usize(&args[i + 1]), text::parse_usize(&args[i + 2])) {
                (Some(offset), Some(count)) => {
                    limit = Limit { offset, count };
                },
                _ => return Err(KvdbError::NotInteger),
            }
            i = i + 3;
        } else {
            return Err(error::command_error("syntax error"));
        }
    }
    Ok((with_scores, limit))
}

/// A key that ends a walk over a range of scores: it cannot be read, or its
/// score lies beyond the far end.
pub open spec fn ends_range(
    ns: Seq<u8>,
    min: u64,
    max: u64,
    reverse: bool,
) -> spec_fn(Seq<u8>) -> bool {
    |k: Seq<u8>|
        score_parts(k, ns) is None || (if reverse {
            score::score_lt(score_of(k, ns), min)
        } else {
            score::score_lt(max, score_of(k, ns))
        })
}

/// A key of the walk whose score does not lie before the near end.
pub open spec fn in_range(
    ns: Seq<u8>,
    min: u64,
    max: u64,
    reverse: bool,
) -> spec_fn(Seq<u8>) -> bool {
    |k: Seq<u8>|
        if reverse {
            !score::score_lt(max, score_of(k, ns))
        } else {
            !score::score_lt(score_of(k, ns), min)
        }
}

/// What is left of a list by LIMIT.
pub open spec fn limited(hits: Seq<Seq<u8>>, limit: Limit) -> Seq<Seq<u8>> {
    let rest = if limit.offset >= hits.len() {
        Seq::empty()
    } else {
        hits.skip(limit.offset as int)
    };
    if limit.count > 0 && rest.len() > limit.count {
        rest.take(limit.count as int)
    } else {
        rest
    }
}

/// The members whose scores lie between `min` and `max`, both included, in
/// the order of the keys. The keys are read up to the first one beyond the
/// range, or until LIMIT is reached.
pub open spec fn by_score(
    ks: Seq<Seq<u8>>,
    ns: Seq<u8>,
    min: u64,
    max: u64,
    limit: Limit,
    reverse: bool,
) -> Result<Seq<(u64, Seq<u8>)>, ErrorView> {
    let end = order::first_from(ks, ends_range(ns, min, max, reverse), 0);
    let hits = ks.take(end).filter(in_range(ns, min, max, reverse));
    if end < ks.len() && score_parts(ks[end], ns) is None && (limit.count == 0 || hits.len()
        < limit.offset + limit.count) {
        Err(bad_score_key())
    } else {
        Ok(items_of(limited(hits, limit), ns))
    }
}

proof fn lemma_limited_push(hits: Seq<Seq<u8>>, k: Seq<u8>, limit: Limit)
    requires
        limit.count == 0 || hits.len() < limit.offset + limit.count,
    ensures
        limited(hits.push(k), limit) == (if hits.len() < limit.offset {
            Seq::empty()
        } else {
            limited(hits, limit).push(k)
        }),
        hits.len() <= limit.offset ==> limited(hits, limit) == Seq::<Seq<u8>>::empty(),
        limited(hits, limit).len() == (if hits.len() < limit.offset {
            0
        } else {
            hits.len() - limit.offset
        }),
{
    let grown = hits.push(k);
    if hits.len() < limit.offset {
        assert(limited(hits, limit) =~= Seq::<Seq<u8>>::empty());
        if hits.len() + 1 == limit.offset {
            assert(limited(grown, limit) =~= Seq::<Seq<u8>>::empty());
        }
    } else {
        if hits.len() == limit.offset {
            assert(limited(hits, limit) =~= Seq::<Seq<u8>>::empty());
        }
        assert(limited(grown, limit) =~= limited(hits, limit).push(k));
    }
}

proof fn lemma_limit_reached(hits: Seq<Seq<u8>>, more: Seq<Seq<u8>>, limit: Limit)
    requires
        limit.count > 0,
        hits.len() >= limit.offset + limit.count,
    ensures
        limited(hits + more, limit) == limited(hits, limit),
{
    assert(limited(hits + more, limit) =~= limited(hits, limit));
}

fn collect_by_score(
    ctx: &CommandContext,
    user_key: &[u8],
    version: u64,
    min: u64,
    max: u64,
    limit: Limit,
    reverse: bool,
) -> (r: KvdbResult<Vec<(u64, Vec<u8>)>>)
    ensures
        (match r {
            Ok(items) => Ok::<_, ErrorView>(items_view(items@)),
            Err(e) => Err(e@),
        }) == by_score(
            directed(
                ctx.storage@.zset_score,
                encoding::sub_prefix(user_key@, version, ctx.namespace@),
                reverse,
            ),
            ctx.namespace@,
            min,
            max,
            limit,
            reverse,
        ),
{
    let prefix = ctx.sub_prefix(user_key, version);
    let mut result: Vec<(u64, Vec<u8>)> = Vec::new();
    let mut start_key: Vec<u8> = Vec::new();
    let mut seen: usize = 0;
    let mut done = false;
    let ghost m = ctx.storage@.zset_score;
    let ghost ns = ctx.namespace@;
    let ghost ks = directed(m, prefix@, reverse);
    let ghost stop = ends_range(ns, min, max, reverse);
    let ghost keep = in_range(ns, min, max, reverse);
    let ghost want = by_score(ks, ns, min, max, limit, reverse);
    let ghost mut pos: int = 0;
    proof {
        assert(start_key@ =~= directed_mark(m, prefix@, reverse, 0));
        assert(ks.take(0) =~= Seq::<Seq<u8>>::empty());
        assert(ks.take(0).filter(keep) =~= Seq::<Seq<u8>>::empty()) by {
            reveal(Seq::filter);
        }
        assert(items_view(result@) =~= items_of(limited(ks.take(0).filter(keep), limit), ns));
    }
    loop
        invariant_except_break
            !done,
            start_key@ == directed_mark(m, prefix@, reverse, pos),
            0 <= pos <= ks.len(),
            order::first_from(ks, stop, 0) == order::first_from(ks, stop, pos),
            ({
                let hits = ks.take(pos).filter(keep);
                &&& seen == hits.len()
                &&& limit.count == 0 || hits.len() < limit.offset + limit.count
                &&& items_view(result@) == items_of(limited(hits, limit), ns)
            }),
        invariant
            prefix@.len() > 0,
            m == ctx.storage@.zset_score,
            ns == ctx.namespace@,
            prefix@ == encoding::sub_prefix(user_key@, version, ns),
            ks == directed(m, prefix@, reverse),
            stop == ends_range(ns, min, max, reverse),
            keep == in_range(ns, min, max, reverse),
            want == by_score(ks, ns, min, max, limit, reverse),
        ensures
            want == Ok::<_, ErrorView>(items_view(result@)),
        decreases ks.len() - pos,
    {
        let (items, next) = next_page(ctx, &prefix, &start_key, reverse, Ghost(pos));
        if items.len() == 0 {
            proof {
                assert(ks.take(pos) =~= ks);
                assert(order::first_from(ks, stop, pos) == ks.len());
            }
            break;
        }
        let mut j: usize = 0;
        while j < items.len() && !done
            invariant
                j <= items@.len(),
                0 <= pos,
                pos + items@.len() <= ks.len() <= usize::MAX,
                m == ctx.storage@.zset_score,
                ns == ctx.namespace@,
                prefix@ == encoding::sub_prefix(user_key@, version, ns),
                ks == directed(m, prefix@, reverse),
                stop == ends_range(ns, min, max, reverse),
                keep == in_range(ns, min, max, reverse),
                want == by_score(ks, ns, min, max, limit, reverse),
                forall|i: int| 0 <= i < items@.len() ==> (#[trigger] items@[i]).0@ == ks[pos + i],
                done ==> want == Ok::<_, ErrorView>(items_view(result@)),
                !done ==> order::first_from(ks, stop, 0) == order::first_from(ks, stop, pos + j),
                !done ==> ({
                    let hits = ks.take(pos + j).filter(keep);
                    &&& seen == hits.len()
                    &&& seen <= pos + j
                    &&& limit.count == 0 || hits.len() < limit.offset + limit.count
                    &&& items_view(result@) == items_of(limited(hits, limit), ns)
                }),
            decreases items.len() - j,
        {
            let ghost x = pos + j;
            let ghost k = ks[x];
            let ghost hits = ks.take(x).filter(keep);
            proof {
                assert(items@[j as int].0@ == k);
                assert(ks.take(x + 1) =~= ks.take(x).push(k));
                ks.take(x).lemma_filter_push(k, keep);
            }
            match parse_score_subkey(ctx, &items[j].0) {
                Err(e) => {
                    proof {
                        assert(stop(k));
                        assert(order::first_from(ks, stop, x) == x);
                    }
                    return Err(e);
                },
                Ok((b, member)) => {
                    let beyond = if reverse {
                        score::less(b, min)
                    } else {
                        score::less(max, b)
                    };
                    let outside = if reverse {
                        score::less(max, b)
                    } else {
                        score::less(b, min)
                    };
                    proof {
                        assert(beyond == stop(k));
                        assert(outside == !keep(k));
                    }
                    if beyond {
                        proof {
                            assert(order::first_from(ks, stop, x) == x);
                        }
                        done = true;
                    } else {
                        proof {
                            assert(order::first_from(ks, stop, x) == order::first_from(ks, stop, x + 1));
                            order::lemma_first_bound(ks, stop, x + 1);
                        }
                        if !outside {
                            let ghost hits1 = hits.push(k);
                            let ghost before = items_view(result@);
                            proof {
                                lemma_limited_push(hits, k, limit);
                                assert(ks.take(x + 1).filter(keep) == hits1);
                            }
                            seen = seen + 1;
                            if seen > limit.offset {
                                result.push((b, member));
                                proof {
                                    assert(items_view(result@) =~= before.push((b, member@)));
                                    assert(items_of(limited(hits1, limit), ns) =~= before.push(
                                        (b, member@),
                                    ));
                                }
                                if limit.count > 0 && seen - limit.offset >= limit.count {
                                    proof {
                                        let end = order::first_from(ks, stop, 0);
                                        let rest = ks.subrange(x + 1, end);
                                        assert(ks.take(end) =~= ks.take(x + 1) + rest);
                                        Seq::filter_distributes_over_add(
                                            ks.take(x + 1),
                                            rest,
                                            keep,
                                        );
                                        lemma_limit_reached(hits1, rest.filter(keep), limit);
                                    }
                                    done = true;
                                }
                            } else {
                                proof {
                                    assert(limited(hits1, limit) =~= Seq::<Seq<u8>>::empty());
                                    assert(items_of(limited(hits1, limit), ns) =~= items_of(
                                        limited(hits, limit),
                                        ns,
                                    ));
                                }
                            }
                        }
                    }
                },
            }
            j = j + 1;
        }
        proof {
            pos = pos + j;
        }
        if done {
            break;
        }
        match next {
            Some(k) => {
                start_key = k;
            },
            None => {
                proof {
                    assert(ks.take(pos) =~= ks);
                    assert(order::first_from(ks, stop, pos) == ks.len());
                }
                break;
            },
        }
    }
    Ok(result)
}

/// ZRANGEBYSCORE key min max and ZREVRANGEBYSCORE key max min, with
/// [WITHSCORES] [LIMIT offset count].
pub open spec fn zrangebyscore_reply(
    s: StoreView,
    ns: Seq<u8>,
    a: Seq<Seq<u8>>,
    now_ms: i64,
    scores: Seq<Option<u64>>,
    reverse: bool,
) -> Result<RespView, ErrorView> {
    if a.len() < 3 {
        Err(
            cmd::wrong_args(
                if reverse {
                    "ZREVRANGEBYSCORE"@
                } else {
                    "ZRANGEBYSCORE"@
                },
            ),
        )
    } else {
        match zset_meta(s, ns, a[0], now_ms) {
            Err(e) => Err(e),
            Ok(None) => Ok(cmd::no_items()),
            Ok(Some(m)) => match (score_arg(scores, 1), score_arg(scores, 2)) {
                (Some(x), Some(y)) => match range_options(
                    a,
                    3,
                    false,
                    (Limit { offset: 0, count: 0 }),
                ) {
                    Err(e) => Err(e),
                    Ok((with_scores, limit)) => {
                        let min = if reverse {
                            y
                        } else {
                            x
                        };
                        let max = if reverse {
                            x
                        } else {
                            y
                        };
                        match by_score(
                            directed(
                                s.zset_score,
                                encoding::sub_prefix(a[0], m.version, ns),
                                reverse,
                            ),
                            ns,
                            min,
                            max,
                            limit,
                            reverse,
                        ) {
                            Err(e) => Err(e),
                            Ok(items) => Ok(RespView::Array(rendered(items, with_scores))),
                        }
                    },
                },
                _ => Err(ErrorView::NotInteger),
            },
        }
    }
}

fn score_range_command(
    ctx: &CommandContext,
    name: &'static str,
    args: &[Vec<u8>],
    now_ms: i64,
    floats: &Floats,
    reverse: bool,
) -> (r: KvdbResult<RespValue>)
    requires
        name@ == (if reverse {
            "ZREVRANGEBYSCORE"@
        } else {
            "ZRANGEBYSCORE"@
        }),
    ensures
        cmd::reply_view(r) == zrangebyscore_reply(
            ctx.storage@,
            ctx.namespace@,
            encoding::byte_seqs(args@),
            now_ms,
            floats.scores@,
            reverse,
        ),
{
    if args.len() < 3 {
        return Err(KvdbError::WrongArgCount(name));
    }
    let meta = match read_zset_meta(ctx, &args[0], now_ms) {
        Ok(Some(m)) => m,
        Ok(None) => return Ok(empty_array()),
        Err(e) => return Err(e),
    };
    let x: u64 = match parse_score(floats, 1) {
        Ok(b) => b,
        Err(e) => return Err(e),
    };
    let y: u64 = match parse_score(floats, 2) {
        Ok(b) => b,
        Err(e) => return Err(e),
    };
    let (with_scores, limit) = match parse_zrangebyscore_options(args) {
        Ok(o) => o,
        Err(e) => return Err(e),
    };
    let items = if reverse {
        collect_by_score(ctx, &args[0], meta.version, y, x, limit, reverse)
    } else {
        collect_by_score(ctx, &args[0], meta.version, x, y, limit, reverse)
    };
    match items {
        Ok(items) => Ok(render(&items, with_scores)),
        Err(e) => Err(e),
    }
}

pub fn zrangebyscore(ctx: &CommandContext, args: &[Vec<u8>], now_ms: i64, floats: &Floats) -> (r:
    KvdbResult<RespValue>)
    ensures
        cmd::reply_view(r) == zrangebyscore_reply(
            ctx.storage@,
            ctx.namespace@,
            encoding::byte_seqs(args@),
            now_ms,
            floats.scores@,
            false,
        ),
{
    score_range_command(ctx, "ZRANGEBYSCORE", args, now_ms, floats, false)
}

pub fn zrevrangebyscore(ctx: &CommandContext, args: &[Vec<u8>], now_ms: i64, floats: &Floats) -> (r:
    KvdbResult<RespValue>)
    ensures
        cmd::reply_view(r) == zrangebyscore_reply(
            ctx.storage@,
            ctx.namespace@,
            encoding::byte_seqs(args@),
            now_ms,
            floats.scores@,
            true,
        ),
{
    score_range_command(ctx, "ZREVRANGEBYSCORE", args, now_ms, floats, true)
}

} // verus!
