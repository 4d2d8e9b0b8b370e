//! Commands on the cluster.

use super::{array, push_reply, CommandContext};
use crate::cluster;
use crate::cluster::{slots_range_to_resp, ClusterState, ClusterView, NodeView};
use crate::cmd;
use crate::encoding;
use crate::error::{ErrorView, KvdbError, KvdbResult};
use crate::protocol;
use crate::protocol::{RespValue, RespView};
use crate::text;
use vstd::prelude::*;
use vstd::string::*;
use vstd::utf8;

verus! {

/// The line of a node in CLUSTER NODES.
pub open spec fn node_line(n: NodeView) -> Seq<char> {
    n.id + " "@ + n.addr + " "@ + n.role.name() + " - 0 0 0 connected\n"@
}

/// The lines of nodes.
pub open spec fn node_lines(ns: Seq<NodeView>) -> Seq<char>
    decreases ns.len(),
{
    if ns.len() == 0 {
        Seq::empty()
    } else {
        node_lines(ns.drop_last()) + node_line(ns.last())
    }
}

/// The text of CLUSTER NODES. Without known nodes it is the line of the local
/// one.
pub open spec fn nodes_text(ns: Seq<NodeView>) -> Seq<char> {
    if ns.len() == 0 {
        "0000000000000000000000000000000000000000 127.0.0.1:6379 myself,master - 0 0 0 connected 0-16383\n"@
    } else {
        node_lines(ns)
    }
}

/// The replies of ranges.
pub open spec fn range_replies(rs: Seq<cluster::SlotRange>) -> Seq<RespView> {
    Seq::new(rs.len(), |i: int| cluster::range_reply(rs[i]))
}

/// CLUSTER SLOTS, CLUSTER KEYSLOT key and CLUSTER NODES.
pub open spec fn cluster_reply(c: ClusterView, a: Seq<Seq<u8>>) -> Result<RespView, ErrorView> {
    if a.len() == 0 {
        Ok(RespView::Error("ERR wrong number of arguments for 'cluster' command"@))
    } else if text::is_word(a[0], "SLOTS"@) {
        Ok(RespView::Array(range_replies(cluster::ranges_of(c.slots))))
    } else if text::is_word(a[0], "KEYSLOT"@) {
        if a.len() != 2 {
            Err(cmd::wrong_args("CLUSTER KEYSLOT"@))
        } else {
            Ok(RespView::Integer((cluster::xmodem(cluster::hash_tag(a[1])) % 16384) as i64))
        }
    } else if text::is_word(a[0], "NODES"@) {
        Ok(cmd::bulk(Some(utf8::encode_utf8(nodes_text(c.nodes)))))
    } else {
        Ok(
            RespView::Error(
                "ERR unknown subcommand '"@ + text::upper_chars(text::text_in(a[0])) + "'"@,
            ),
        )
    }
}

fn cluster_slots(ctx: &CommandContext) -> (r: RespValue)
    ensures
        r@ == RespView::Array(range_replies(cluster::ranges_of(ctx.cluster@.slots))),
{
    let ranges = ctx.cluster.slots_ranges();
    let ghost rs = cluster::range_views(ranges@);
    let mut items: Vec<RespValue> = Vec::new();
    let mut i: usize = 0;
    while i < ranges.len()
        invariant
            i <= ranges@.len(),
            rs == cluster::range_views(ranges@),
            protocol::views(items@) =~= range_replies(rs).take(i as int),
        decreases ranges.len() - i,
    {
        let (start, end) = (ranges[i].0, ranges[i].1);
        push_reply(&mut items, slots_range_to_resp(start, end, ranges[i].2.as_str()));
        proof {
            assert(rs[i as int] == (start, end, ranges@[i as int].2@));
            assert(range_replies(rs).take(i + 1) =~= range_replies(rs).take(i as int).push(
                range_replies(rs)[i as int],
            ));
        }
        i = i + 1;
    }
    proof {
        assert(range_replies(rs).take(i as int) =~= range_replies(rs));
    }
    array(items)
}

fn cluster_nodes(ctx: &CommandContext) -> (r: RespValue)
    ensures
        r@ == cmd::bulk(Some(utf8::encode_utf8(nodes_text(ctx.cluster@.nodes)))),
{
    let nodes = ctx.cluster.nodes();
    let ghost ns = cluster::node_views(nodes@);
    if nodes.len() == 0 {
        return RespValue::BulkString(
            Some(
                text::bytes_of(
                    "0000000000000000000000000000000000000000 127.0.0.1:6379 myself,master - 0 0 0 connected 0-16383\n",
                ),
            ),
        );
    }
    let mut t = String::new();
    let mut i: usize = 0;
    proof {
        assert(t@ =~= node_lines(ns.take(0)));
    }
    while i < nodes.len()
        invariant
            i <= nodes@.len(),
            ns == cluster::node_views(nodes@),
            t@ == node_lines(ns.take(i as int)),
        decreases nodes.len() - i,
    {
        let ghost before = t@;
        t.append(nodes[i].id.as_str());
        t.append(" ");
        t.append(nodes[i].addr.as_str());
        t.append(" ");
        t.append(nodes[i].role.role_str());
        t.append(" - 0 0 0 connected\n");
        proof {
            let next = ns.take(i + 1);
            assert(next.drop_last() =~= ns.take(i as int));
            assert(next.last() == nodes@[i as int]@);
            assert(t@ =~= before + node_line(nodes@[i as int]@));
        }
        i = i + 1;
    }
    proof {
        assert(ns.take(i as int) =~= ns);
    }
    RespValue::BulkString(Some(text::bytes_of(t.as_str())))
}

pub fn cluster(ctx: &CommandContext, args: &[Vec<u8>]) -> (r: KvdbResult<RespValue>)
    ensures
        cmd::reply_view(r) == cluster_reply(ctx.cluster@, encoding::byte_seqs(args@)),
{
    if args.len() == 0 {
        return Ok(
            RespValue::Error("ERR wrong number of arguments for 'cluster' command".to_owned()),
        );
    }
    if text::matches_word(&args[0], "SLOTS") {
        return Ok(cluster_slots(ctx));
    }
    if text::matches_word(&args[0], "KEYSLOT") {
        if args.len() != 2 {
            return Err(KvdbError::WrongArgCount("CLUSTER KEYSLOT"));
        }
        let slot: u16 = ClusterState::key_slot(&args[1]);
        return Ok(RespValue::Integer(slot as i64));
    }
    if text::matches_word(&args[0], "NODES") {
        return Ok(cluster_nodes(ctx));
    }
    let shown = text::lossy(&args[0]);
    let mut t = "ERR unknown subcommand '".to_owned();
    t.append(text::uppercase(shown.as_str()).as_str());
    t.append("'");
    Ok(RespValue::Error(t))
}

/// CLUSTER KEYSLOT replies a slot below 16384 that depends on the tag of the key
/// alone: keys with the same tag in braces have the same slot, and so has the tag
/// itself.
pub proof fn law_keyslot(
    c: ClusterView,
    word: Seq<u8>,
    tag: Seq<u8>,
    before: Seq<u8>,
    rest: Seq<u8>,
)
    requires
        text::is_word(word, "KEYSLOT"@),
        tag.len() > 0,
        !tag.contains(125u8),
        !tag.contains(123u8),
        !before.contains(123u8),
    ensures
        ({
            let key = before + seq![123u8] + tag + seq![125u8] + rest;
            let r = cluster_reply(c, seq![word, key]);
            &&& r is Ok && r->Ok_0 is Integer
            &&& 0 <= (r->Ok_0)->Integer_0 < 16384
            &&& cluster_reply(c, seq![word, tag]) == r
            &&& r == Ok::<_, ErrorView>(
                RespView::Integer((cluster::xmodem(tag) % 16384) as i64),
            )
        }),
{
    reveal_strlit("KEYSLOT");
    reveal_strlit("SLOTS");
    let key = before + seq![123u8] + tag + seq![125u8] + rest;
    let (a, b) = (seq![word, key], seq![word, tag]);
    assert(a[0] == word && a[1] == key && b[0] == word && b[1] == tag);
    cluster::law_tagged_keys_share_a_slot(before, before, tag, rest, rest);
    cluster::law_keys_without_a_tag(tag, Seq::empty(), Seq::empty());
}

/// CLUSTER SLOTS replies one range after the other, in ascending order. Every
/// slot that is assigned lies in exactly one of them, and that has the address of
/// its node; no other slot lies in any. Without assigned slots there is one range
/// of all of them.
pub proof fn law_slots(c: ClusterView, word: Seq<u8>, slot: u16, node: Seq<char>)
    requires
        text::is_word(word, "SLOTS"@),
        cluster::slots_ascend(c.slots),
    ensures
        ({
            let r = cluster_reply(c, seq![word]);
            let items = (r->Ok_0)->Array_0;
            let ranges = cluster::ranges_of(c.slots);
            &&& r == Ok::<_, ErrorView>(RespView::Array(items))
            &&& items.len() == ranges.len()
            &&& forall|i: int|
                0 <= i < items.len() ==> #[trigger] items[i] == cluster::range_reply(ranges[i])
            &&& forall|i: int, j: int|
                0 <= i < j < ranges.len() ==> (#[trigger] ranges[i]).1 < (#[trigger] ranges[j]).0
            &&& c.slots.len() > 0 ==> c.slots.contains((slot, node)) == exists|i: int|
                0 <= i < ranges.len() && (#[trigger] ranges[i]).0 <= slot <= ranges[i].1
                    && ranges[i].2 == node
            &&& c.slots.len() == 0 ==> ranges.len() == 1 && ranges[0].0 == 0 && ranges[0].1 == 16383
        }),
{
    assert(seq![word][0] == word);
    cluster::law_ranges_cover_the_slots(c.slots);
    let ranges = cluster::ranges_of(c.slots);
    if c.slots.len() > 0 {
        if c.slots.contains((slot, node)) {
            let i = choose|i: int|
                0 <= i < ranges.len() && #[trigger] cluster::covers(ranges[i], slot, node);
            assert(ranges[i].0 <= slot <= ranges[i].1 && ranges[i].2 == node);
        }
        if exists|i: int|
            0 <= i < ranges.len() && (#[trigger] ranges[i]).0 <= slot <= ranges[i].1 && ranges[i].2
                == node {
            let i = choose|i: int|
                0 <= i < ranges.len() && (#[trigger] ranges[i]).0 <= slot <= ranges[i].1
                    && ranges[i].2 == node;
            assert(cluster::covers(ranges[i], slot, node));
        }
    }
}

} // verus!
