//! Publish and subscribe commands.

use super::{array, expect_min_arg_count, push_reply, CommandContext};
use crate::cmd;
use crate::encoding;
use crate::error::{ErrorView, KvdbResult};
use crate::protocol;
use crate::protocol::{RespValue, RespView};
use crate::pubsub;
use crate::pubsub::{EventView, HubView};
use crate::text;
use vstd::prelude::*;
use vstd::utf8;

verus! {

/// The texts of arguments.
pub open spec fn texts_in(a: Seq<Seq<u8>>) -> Seq<Seq<char>> {
    Seq::new(a.len(), |i: int| text::text_in(a[i]))
}

fn texts_of(args: &[Vec<u8>]) -> (r: Vec<String>)
    ensures
        pubsub::names_of(r@) == texts_in(encoding::byte_seqs(args@)),
{
    let ghost want = texts_in(encoding::byte_seqs(args@));
    let mut r: Vec<String> = Vec::new();
    let mut i: usize = 0;
    while i < args.len()
        invariant
            i <= args@.len(),
            want == texts_in(encoding::byte_seqs(args@)),
            r@.len() == i,
            pubsub::names_of(r@) =~= want.take(i as int),
        decreases args.len() - i,
    {
        let t = text::lossy(&args[i]);
        let ghost before = pubsub::names_of(r@);
        r.push(t);
        proof {
            assert(want[i as int] == t@);
            assert(pubsub::names_of(r@) =~= before.push(t@));
            assert(want.take(i + 1) =~= want.take(i as int).push(t@));
        }
        i = i + 1;
    }
    proof {
        assert(want.take(i as int) =~= want);
    }
    r
}

/// The confirmation of a subscription or of its end: what happened, on which
/// channel or pattern, and how many of both the client has now.
pub open spec fn confirmation(kind: Seq<char>, name: Seq<u8>, count: int) -> RespView {
    RespView::Array(
        seq![
            cmd::bulk(Some(utf8::encode_utf8(kind))),
            cmd::bulk(Some(name)),
            RespView::Integer(count as i64),
        ],
    )
}

/// The confirmations for channels.
pub open spec fn confirmations(kind: Seq<char>, chs: Seq<Seq<char>>, count: int) -> Seq<RespView> {
    Seq::new(chs.len(), |i: int| confirmation(kind, utf8::encode_utf8(chs[i]), count))
}

/// The confirmations for patterns.
pub open spec fn pattern_confirmations(kind: Seq<char>, pats: Seq<Seq<u8>>, count: int) -> Seq<
    RespView,
> {
    Seq::new(pats.len(), |i: int| confirmation(kind, pats[i], count))
}

/// How many channels and patterns a client has.
pub open spec fn total(h: HubView, id: u64) -> int {
    let n = pubsub::channels_of(h.channels, id).len() + pubsub::patterns_of(h.patterns, id).len();
    n as int
}

fn total_of(ctx: &CommandContext) -> (n: u128)
    ensures
        n == total(ctx.pubsub@, ctx.client_id),
{
    ctx.pubsub.subscription_count(ctx.client_id) as u128 + ctx.pubsub.pattern_count(
        ctx.client_id,
    ) as u128
}

fn confirm_one(kind: &str, name: Vec<u8>, count: u128) -> (r: RespValue)
    ensures
        r@ == confirmation(kind@, name@, count as int),
{
    let ghost want = confirmation(kind@, name@, count as int)->Array_0;
    let mut parts: Vec<RespValue> = Vec::new();
    push_reply(&mut parts, RespValue::BulkString(Some(text::bytes_of(kind))));
    push_reply(&mut parts, RespValue::BulkString(Some(name)));
    push_reply(&mut parts, RespValue::Integer(count as i64));
    proof {
        assert(protocol::views(parts@) =~= want);
    }
    array(parts)
}

fn confirm_patterns(kind: &str, patterns: &Vec<Vec<u8>>, count: u128) -> (r: RespValue)
    ensures
        r@ == RespView::Array(
            pattern_confirmations(kind@, encoding::byte_seqs(patterns@), count as int),
        ),
{
    let ghost pats = encoding::byte_seqs(patterns@);
    let ghost want = pattern_confirmations(kind@, pats, count as int);
    let mut items: Vec<RespValue> = Vec::new();
    let mut i: usize = 0;
    while i < patterns.len()
        invariant
            i <= patterns@.len(),
            pats == encoding::byte_seqs(patterns@),
            want == pattern_confirmations(kind@, pats, count as int),
            protocol::views(items@) =~= want.take(i as int),
        decreases patterns.len() - i,
    {
        push_reply(&mut items, confirm_one(kind, encoding::copy(&patterns[i]), count));
        proof {
            assert(pats[i as int] == patterns@[i as int]@);
            assert(want.take(i + 1) =~= want.take(i as int).push(want[i as int]));
        }
        i = i + 1;
    }
    proof {
        assert(want.take(i as int) =~= want);
    }
    array(items)
}

fn confirm(kind: &str, channels: &Vec<String>, count: u128) -> (r: RespValue)
    ensures
        r@ == RespView::Array(
            confirmations(kind@, pubsub::names_of(channels@), count as int),
        ),
{
    let ghost chs = pubsub::names_of(channels@);
    let ghost want = confirmations(kind@, chs, count as int);
    let mut items: Vec<RespValue> = Vec::new();
    let mut i: usize = 0;
    while i < channels.len()
        invariant
            i <= channels@.len(),
            chs == pubsub::names_of(channels@),
            want == confirmations(kind@, chs, count as int),
            protocol::views(items@) =~= want.take(i as int),
        decreases channels.len() - i,
    {
        push_reply(
            &mut items,
            confirm_one(kind, text::bytes_of(channels[i].as_str()), count),
        );
        proof {
            assert(chs[i as int] == channels@[i as int]@);
            assert(want.take(i + 1) =~= want.take(i as int).push(want[i as int]));
        }
        i = i + 1;
    }
    proof {
        assert(want.take(i as int) =~= want);
    }
    array(items)
}

/// SUBSCRIBE channel [channel ...]: the hub afterwards, and one confirmation
/// for every channel that was new to the client.
pub open spec fn subscribe_result(h: HubView, id: u64, a: Seq<Seq<u8>>) -> (
    HubView,
    Result<RespView, ErrorView>,
) {
    if a.len() < 1 {
        (h, Err(cmd::wrong_args("SUBSCRIBE"@)))
    } else {
        let (after, added) = pubsub::subscribed(h.channels, id, texts_in(a), a.len());
        let hub = HubView { channels: after, ..h };
        (hub, Ok(RespView::Array(confirmations("subscribe"@, added, total(hub, id)))))
    }
}

pub fn subscribe(ctx: &mut CommandContext, args: &[Vec<u8>]) -> (r: KvdbResult<RespValue>)
    ensures
        (final(ctx).pubsub@, cmd::reply_view(r)) == subscribe_result(
            old(ctx).pubsub@,
            old(ctx).client_id,
            encoding::byte_seqs(args@),
        ),
        *final(ctx) == (CommandContext { pubsub: final(ctx).pubsub, ..*old(ctx) }),
{
    match expect_min_arg_count("SUBSCRIBE", args, 1) {
        Ok(_) => {},
        Err(e) => return Err(e),
    }
    let channels = texts_of(args);
    let added = ctx.pubsub.subscribe(ctx.client_id, channels);
    let count: u128 = total_of(ctx);
    Ok(confirm("subscribe", &added, count))
}

/// UNSUBSCRIBE [channel ...]: the hub afterwards, and one confirmation for
/// every channel that the client leaves. Without arguments it leaves all of
/// them, in an order that is not stated.
pub open spec fn unsubscribe_allowed(
    h: HubView,
    id: u64,
    a: Seq<Seq<u8>>,
    after: HubView,
    reply: Result<RespView, ErrorView>,
) -> bool {
    if a.len() == 0 {
        &&& after == (HubView { channels: pubsub::all_left(h.channels, id), ..h })
        &&& exists|gone: Seq<Seq<char>>|
            gone.no_duplicates() && gone.to_set() == pubsub::channels_of(h.channels, id) && reply
                == Ok::<_, ErrorView>(
                RespView::Array(
                    #[trigger] confirmations("unsubscribe"@, gone, total(after, id)),
                ),
            )
    } else {
        let (channels, gone) = pubsub::unsubscribed(h.channels, id, texts_in(a), a.len());
        &&& after == (HubView { channels, ..h })
        &&& reply == Ok::<_, ErrorView>(
            RespView::Array(
                confirmations(
                    "unsubscribe"@,
                    gone,
                    total(after, id),
                ),
            ),
        )
    }
}

pub fn unsubscribe(ctx: &mut CommandContext, args: &[Vec<u8>]) -> (r: KvdbResult<RespValue>)
    ensures
        unsubscribe_allowed(
            old(ctx).pubsub@,
            old(ctx).client_id,
            encoding::byte_seqs(args@),
            final(ctx).pubsub@,
            cmd::reply_view(r),
        ),
        *final(ctx) == (CommandContext { pubsub: final(ctx).pubsub, ..*old(ctx) }),
{
    if args.len() == 0 {
        let removed = ctx.pubsub.unsubscribe_all(ctx.client_id);
        let count: u128 = total_of(ctx);
        return Ok(confirm("unsubscribe", &removed, count));
    }
    let channels = texts_of(args);
    let removed = ctx.pubsub.unsubscribe(ctx.client_id, &channels);
    let count: u128 = total_of(ctx);
    Ok(confirm("unsubscribe", &removed, count))
}

/// PSUBSCRIBE pattern [pattern ...]: the hub afterwards, and one confirmation
/// for every pattern that was new to the client.
pub open spec fn psubscribe_result(h: HubView, id: u64, a: Seq<Seq<u8>>) -> (
    HubView,
    Result<RespView, ErrorView>,
) {
    if a.len() < 1 {
        (h, Err(cmd::wrong_args("PSUBSCRIBE"@)))
    } else {
        let (patterns, added) = pubsub::patterns_added(h.patterns, id, a, a.len());
        let hub = HubView { patterns, ..h };
        (hub, Ok(RespView::Array(pattern_confirmations("psubscribe"@, added, total(hub, id)))))
    }
}

pub fn psubscribe(ctx: &mut CommandContext, args: &[Vec<u8>]) -> (r: KvdbResult<RespValue>)
    ensures
        (final(ctx).pubsub@, cmd::reply_view(r)) == psubscribe_result(
            old(ctx).pubsub@,
            old(ctx).client_id,
            encoding::byte_seqs(args@),
        ),
        *final(ctx) == (CommandContext { pubsub: final(ctx).pubsub, ..*old(ctx) }),
{
    match expect_min_arg_count("PSUBSCRIBE", args, 1) {
        Ok(_) => {},
        Err(e) => return Err(e),
    }
    let added = ctx.pubsub.psubscribe(ctx.client_id, args);
    let count: u128 = total_of(ctx);
    Ok(confirm_patterns("psubscribe", &added, count))
}

/// PUNSUBSCRIBE [pattern ...]: the hub afterwards, and one confirmation for
/// every pattern that the client leaves. Without arguments it leaves all of
/// them.
pub open spec fn punsubscribe_result(h: HubView, id: u64, a: Seq<Seq<u8>>) -> (
    HubView,
    RespView,
) {
    let (patterns, gone) = if a.len() == 0 {
        (
            h.patterns.filter(pubsub::by_others(id)),
            pubsub::patterns_of(h.patterns, id),
        )
    } else {
        pubsub::patterns_left(h.patterns, id, a, a.len())
    };
    let hub = HubView { patterns, ..h };
    (hub, RespView::Array(pattern_confirmations("punsubscribe"@, gone, total(hub, id))))
}

pub fn punsubscribe(ctx: &mut CommandContext, args: &[Vec<u8>]) -> (r: RespValue)
    ensures
        (final(ctx).pubsub@, r@) == punsubscribe_result(
            old(ctx).pubsub@,
            old(ctx).client_id,
            encoding::byte_seqs(args@),
        ),
        *final(ctx) == (CommandContext { pubsub: final(ctx).pubsub, ..*old(ctx) }),
{
    let removed = if args.len() == 0 {
        ctx.pubsub.punsubscribe_all(ctx.client_id)
    } else {
        ctx.pubsub.punsubscribe(ctx.client_id, args)
    };
    let count: u128 = total_of(ctx);
    confirm_patterns("punsubscribe", &removed, count)
}

/// PUBLISH channel message: the hub afterwards, and how many clients the
/// message goes to.
pub open spec fn publish_result(h: HubView, a: Seq<Seq<u8>>) -> (
    HubView,
    Result<RespView, ErrorView>,
) {
    if a.len() < 2 {
        (h, Err(cmd::wrong_args("PUBLISH"@)))
    } else {
        let e = EventView { channel: text::text_in(a[0]), message: a[1], pattern: None };
        (
            pubsub::published(h, e),
            Ok(RespView::Integer(pubsub::audience(h, e.channel) as i64)),
        )
    }
}

pub fn publish(ctx: &mut CommandContext, args: &[Vec<u8>]) -> (r: KvdbResult<RespValue>)
    ensures
        (final(ctx).pubsub@, cmd::reply_view(r)) == publish_result(
            old(ctx).pubsub@,
            encoding::byte_seqs(args@),
        ),
        *final(ctx) == (CommandContext { pubsub: final(ctx).pubsub, ..*old(ctx) }),
{
    match expect_min_arg_count("PUBLISH", args, 2) {
        Ok(_) => {},
        Err(e) => return Err(e),
    }
    let channel = text::lossy(&args[0]);
    let delivered: usize = ctx.pubsub.publish(channel.as_str(), &args[1]);
    Ok(RespValue::Integer(delivered as i64))
}

/// The message that PUBLISH sends.
pub open spec fn sent(channel: Seq<u8>, message: Seq<u8>, pattern: Option<Seq<u8>>) -> EventView {
    EventView { channel: text::text_in(channel), message, pattern }
}

/// One of some arguments is the name of a channel.
pub open spec fn names_channel(a: Seq<Seq<u8>>, channel: Seq<u8>) -> bool {
    exists|i: int| 0 <= i < a.len() && text::text_in(#[trigger] a[i]) == text::text_in(channel)
}

/// PUBLISH sends its message to every client that listens to the channel and to
/// every pattern of a client that stands for the channel, as far as the clients
/// take messages, and to no others. Its reply is how many messages that are.
/// Messages that waited before still wait, in front of the new ones.
pub proof fn law_publish(
    h: HubView,
    channel: Seq<u8>,
    message: Seq<u8>,
    client: u64,
    pattern: Seq<u8>,
)
    ensures
        ({
            let (after, r) = publish_result(h, seq![channel, message]);
            let old_len = h.outbox.len() as int;
            let new = after.outbox.skip(old_len);
            let bytes = utf8::encode_utf8(text::text_in(channel));
            &&& after.outbox.take(old_len) == h.outbox
            &&& r == Ok::<_, ErrorView>(RespView::Integer(new.len() as i64))
            &&& new.contains((client, sent(channel, message, None))) == (pubsub::listeners(
                h.channels,
                text::text_in(channel),
            ).contains(client) && !h.closed.contains(client))
            &&& new.contains((client, sent(channel, message, Some(pattern)))) == (
            h.patterns.contains((pattern, client)) && crate::glob::matches(pattern, bytes)
                && !h.closed.contains(client))
        }),
{
    let a = seq![channel, message];
    assert(a[0] == channel && a[1] == message);
    let e = sent(channel, message, None);
    pubsub::law_published_message_reaches_listeners(h, e, client);
    pubsub::law_published_message_reaches_patterns(h, e, pattern, client);
}

/// After SUBSCRIBE the client gets what is published on the named channels, as
/// long as it takes messages, and after UNSUBSCRIBE it no longer gets it. Other
/// clients get what they got, and so does the client on other channels.
#[verifier::rlimit(60)]
pub proof fn law_subscribers_get_messages(
    h: HubView,
    id: u64,
    a: Seq<Seq<u8>>,
    gone: HubView,
    gone_reply: Result<RespView, ErrorView>,
    channel: Seq<u8>,
    message: Seq<u8>,
    client: u64,
)
    requires
        a.len() > 0,
        unsubscribe_allowed(h, id, a, gone, gone_reply),
    ensures
        ({
            let on = subscribe_result(h, id, a).0;
            let m = (client, sent(channel, message, None));
            let named = client == id && names_channel(a, channel);
            let before = publish_result(h, seq![channel, message]).0.outbox.skip(
                h.outbox.len() as int,
            ).contains(m);
            let after = publish_result(on, seq![channel, message]).0.outbox.skip(
                on.outbox.len() as int,
            ).contains(m);
            let left = publish_result(gone, seq![channel, message]).0.outbox.skip(
                gone.outbox.len() as int,
            ).contains(m);
            &&& after == (before || (named && !h.closed.contains(client)))
            &&& left == (before && !named)
        }),
{
    let on = subscribe_result(h, id, a).0;
    let none = Seq::<u8>::empty();
    let chs = texts_in(a);
    let ch = text::text_in(channel);
    law_publish(h, channel, message, client, none);
    law_publish(on, channel, message, client, none);
    law_publish(gone, channel, message, client, none);
    pubsub::law_subscribers_hear(h.channels, id, chs, a.len(), ch, client);
    pubsub::law_leavers_do_not_hear(h.channels, id, chs, a.len(), ch, client);
    if names_channel(a, channel) {
        let i = choose|i: int|
            0 <= i < a.len() && text::text_in(#[trigger] a[i]) == text::text_in(channel);
        assert(chs[i] == ch);
    }
    if exists|i: int| 0 <= i < a.len() && #[trigger] chs[i] == ch {
        let i = choose|i: int| 0 <= i < a.len() && #[trigger] chs[i] == ch;
        assert(text::text_in(a[i]) == ch);
    }
}

/// What SUBSCRIBE replies: for each of the named channels that the client did not
/// hear, and for no other, one list of the word, the channel and how many channels
/// and patterns the client then has. The patterns stay as they are.
#[verifier::rlimit(60)]
pub proof fn law_subscribe_reply(h: HubView, id: u64, a: Seq<Seq<u8>>) -> (told: Seq<Seq<char>>)
    requires
        a.len() > 0,
    ensures
        ({
            let (after, r) = subscribe_result(h, id, a);
            let count = pubsub::channels_of(after.channels, id).len() + pubsub::patterns_of(
                h.patterns,
                id,
            ).len();
            &&& told.no_duplicates()
            &&& forall|ch: Seq<char>| #[trigger]
                told.contains(ch) <==> !pubsub::listeners(h.channels, ch).contains(id) && exists|
                    i: int,
                |
                    0 <= i < a.len() && text::text_in(#[trigger] a[i]) == ch
            &&& r == Ok::<_, ErrorView>(
                RespView::Array(
                    Seq::new(
                        told.len(),
                        |i: int|
                            RespView::Array(
                                seq![
                                    RespView::BulkString(Some(utf8::encode_utf8("subscribe"@))),
                                    RespView::BulkString(Some(utf8::encode_utf8(told[i]))),
                                    RespView::Integer(count as i64),
                                ],
                            ),
                    ),
                ),
            )
            &&& after == (HubView { channels: after.channels, ..h })
        }),
{
    let chs = texts_in(a);
    let (after, r) = subscribe_result(h, id, a);
    let told = pubsub::subscribed(h.channels, id, chs, a.len()).1;
    pubsub::law_new_channels_are_told(h.channels, id, chs, a.len(), Seq::empty());
    assert forall|ch: Seq<char>| #[trigger] told.contains(ch) <==> !pubsub::listeners(
        h.channels,
        ch,
    ).contains(id) && exists|i: int| 0 <= i < a.len() && text::text_in(#[trigger] a[i]) == ch by {
        pubsub::law_new_channels_are_told(h.channels, id, chs, a.len(), ch);
        if told.contains(ch) {
            let i = choose|i: int| 0 <= i < a.len() && #[trigger] chs[i] == ch;
            assert(text::text_in(a[i]) == ch);
        }
        if exists|i: int| 0 <= i < a.len() && text::text_in(#[trigger] a[i]) == ch {
            let i = choose|i: int| 0 <= i < a.len() && text::text_in(#[trigger] a[i]) == ch;
            assert(chs[i] == ch);
        }
    }
    let count = pubsub::channels_of(after.channels, id).len() + pubsub::patterns_of(
        h.patterns,
        id,
    ).len();
    let want = Seq::new(
        told.len(),
        |i: int|
            RespView::Array(
                seq![
                    RespView::BulkString(Some(utf8::encode_utf8("subscribe"@))),
                    RespView::BulkString(Some(utf8::encode_utf8(told[i]))),
                    RespView::Integer(count as i64),
                ],
            ),
    );
    assert(r->Ok_0->Array_0 =~= want);
    told
}

/// What UNSUBSCRIBE replies: for each of the named channels that the client heard,
/// or for each channel that it heard without arguments, and for no other, one list
/// of the word, the channel and how many channels and patterns the client still
/// has. Without arguments it hears no channel any more.
#[verifier::rlimit(60)]
pub proof fn law_unsubscribe_reply(
    h: HubView,
    id: u64,
    a: Seq<Seq<u8>>,
    after: HubView,
    r: Result<RespView, ErrorView>,
) -> (told: Seq<Seq<char>>)
    requires
        unsubscribe_allowed(h, id, a, after, r),
    ensures
        ({
            let count = pubsub::channels_of(after.channels, id).len() + pubsub::patterns_of(
                h.patterns,
                id,
            ).len();
            &&& told.no_duplicates()
            &&& forall|ch: Seq<char>| #[trigger]
                told.contains(ch) <==> pubsub::listeners(h.channels, ch).contains(id) && (a.len()
                    == 0 || exists|i: int|
                    0 <= i < a.len() && text::text_in(#[trigger] a[i]) == ch)
            &&& r == Ok::<_, ErrorView>(
                RespView::Array(
                    Seq::new(
                        told.len(),
                        |i: int|
                            RespView::Array(
                                seq![
                                    RespView::BulkString(Some(utf8::encode_utf8("unsubscribe"@))),
                                    RespView::BulkString(Some(utf8::encode_utf8(told[i]))),
                                    RespView::Integer(count as i64),
                                ],
                            ),
                    ),
                ),
            )
            &&& after == (HubView { channels: after.channels, ..h })
            &&& a.len() == 0 ==> forall|ch: Seq<char>|
                !(#[trigger] pubsub::listeners(after.channels, ch)).contains(id)
        }),
{
    let chs = texts_in(a);
    let told = if a.len() == 0 {
        choose|gone: Seq<Seq<char>>|
            gone.no_duplicates() && gone.to_set() == pubsub::channels_of(h.channels, id) && r
                == Ok::<_, ErrorView>(
                RespView::Array(
                    #[trigger] confirmations("unsubscribe"@, gone, total(after, id)),
                ),
            )
    } else {
        pubsub::unsubscribed(h.channels, id, chs, a.len()).1
    };
    if a.len() == 0 {
        pubsub::law_leaving_all_leaves_none(h.channels, id);
        assert forall|ch: Seq<char>| !(#[trigger] pubsub::listeners(after.channels, ch)).contains(
            id,
        ) by {
            assert(!pubsub::channels_of(after.channels, id).contains(ch));
        }
    } else {
        pubsub::law_leavers_do_not_hear(h.channels, id, chs, a.len(), Seq::empty(), id);
    }
    assert forall|ch: Seq<char>| #[trigger] told.contains(ch) <==> pubsub::listeners(
        h.channels,
        ch,
    ).contains(id) && (a.len() == 0 || exists|i: int|
        0 <= i < a.len() && text::text_in(#[trigger] a[i]) == ch) by {
        if a.len() == 0 {
            assert(told.to_set().contains(ch) == pubsub::channels_of(h.channels, id).contains(ch));
        } else {
            pubsub::law_leavers_do_not_hear(h.channels, id, chs, a.len(), ch, id);
            if told.contains(ch) {
                let i = choose|i: int| 0 <= i < a.len() && #[trigger] chs[i] == ch;
                assert(text::text_in(a[i]) == ch);
            }
            if exists|i: int| 0 <= i < a.len() && text::text_in(#[trigger] a[i]) == ch {
                let i = choose|i: int| 0 <= i < a.len() && text::text_in(#[trigger] a[i]) == ch;
                assert(chs[i] == ch);
            }
        }
    }
    let count = pubsub::channels_of(after.channels, id).len() + pubsub::patterns_of(
        h.patterns,
        id,
    ).len();
    let want = Seq::new(
        told.len(),
        |i: int|
            RespView::Array(
                seq![
                    RespView::BulkString(Some(utf8::encode_utf8("unsubscribe"@))),
                    RespView::BulkString(Some(utf8::encode_utf8(told[i]))),
                    RespView::Integer(count as i64),
                ],
            ),
    );
    assert(r->Ok_0->Array_0 =~= want);
    told
}

/// After PSUBSCRIBE a client gets what is published on channels for which one of
/// the named patterns stands, as long as it takes messages, and after PUNSUBSCRIBE
/// it no longer gets it by that pattern; without arguments it gets nothing by any
/// pattern. All other patterns of all clients stay.
#[verifier::rlimit(60)]
pub proof fn law_pattern_subscribers_get_messages(
    h: HubView,
    id: u64,
    a: Seq<Seq<u8>>,
    channel: Seq<u8>,
    message: Seq<u8>,
    pattern: Seq<u8>,
    client: u64,
)
    ensures
        ({
            let on = psubscribe_result(h, id, a).0;
            let off = punsubscribe_result(h, id, a).0;
            let m = (client, sent(channel, message, Some(pattern)));
            let named = client == id && a.contains(pattern);
            let stands = crate::glob::matches(pattern, utf8::encode_utf8(text::text_in(channel)));
            let before = publish_result(h, seq![channel, message]).0.outbox.skip(
                h.outbox.len() as int,
            ).contains(m);
            let after = publish_result(on, seq![channel, message]).0.outbox.skip(
                on.outbox.len() as int,
            ).contains(m);
            let left = publish_result(off, seq![channel, message]).0.outbox.skip(
                off.outbox.len() as int,
            ).contains(m);
            &&& after == (before || (named && stands && !h.closed.contains(client)))
            &&& left == (before && !named && !(client == id && a.len() == 0))
        }),
{
    let on = psubscribe_result(h, id, a).0;
    let off = punsubscribe_result(h, id, a).0;
    law_publish(h, channel, message, client, pattern);
    law_publish(on, channel, message, client, pattern);
    law_publish(off, channel, message, client, pattern);
    pubsub::law_pattern_subscriptions(h.patterns, id, a, a.len(), pattern, client);
    pubsub::law_leaving_all_patterns(h.patterns, id, pattern, client);
    if a.contains(pattern) {
        assert(a[a.index_of(pattern)] == pattern);
    }
}

} // verus!
