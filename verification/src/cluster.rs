//! The state of a cluster: which node serves which hash slot.

use crate::cmd;
use crate::cmd::{array, push_reply};
use crate::error;
use crate::protocol;
use crate::protocol::{RespValue, RespView};
use crate::text;
use vstd::prelude::*;
use vstd::utf8;

verus! {

/// The number of hash slots.
pub const CLUSTER_SLOT_COUNT: u16 = 16384;

/// The part of a node.
#[derive(Debug, Clone, Copy, PartialEq, Eq, Structural)]
pub enum ClusterNodeRole {
    Master,
    Replica,
}

impl ClusterNodeRole {
    /// The name of the role.
    pub open spec fn name(self) -> Seq<char> {
        match self {
            ClusterNodeRole::Master => "master"@,
            ClusterNodeRole::Replica => "replica"@,
        }
    }

    /// The name of the role.
    pub fn role_str(&self) -> (s: &'static str)
        ensures
            s@ == self.name(),
    {
        match self {
            ClusterNodeRole::Master => "master",
            ClusterNodeRole::Replica => "replica",
        }
    }
}

/// A node.
#[derive(Debug, PartialEq, Eq)]
pub struct ClusterNode {
    pub id: String,
    pub addr: String,
    pub role: ClusterNodeRole,
}

/// A node as contracts see it.
pub struct NodeView {
    pub id: Seq<char>,
    pub addr: Seq<char>,
    pub role: ClusterNodeRole,
}

impl View for ClusterNode {
    type V = NodeView;

    open spec fn view(&self) -> NodeView {
        NodeView { id: self.id@, addr: self.addr@, role: self.role }
    }
}

/// The nodes of a list.
pub open spec fn node_views(v: Seq<ClusterNode>) -> Seq<NodeView> {
    Seq::new(v.len(), |i: int| v[i]@)
}

/// The slots of a list with the nodes that serve them.
pub open spec fn slot_views(v: Seq<(u16, String)>) -> Seq<(u16, Seq<char>)> {
    Seq::new(v.len(), |i: int| (v[i].0, v[i].1@))
}

/// Slots come in ascending order.
pub open spec fn slots_ascend(v: Seq<(u16, Seq<char>)>) -> bool {
    forall|i: int, j: int| 0 <= i < j < v.len() ==> (#[trigger] v[i]).0 < (#[trigger] v[j]).0
}

/// The state of a cluster as contracts see it: the assigned slots in ascending
/// order, and the nodes.
pub struct ClusterView {
    pub slots: Seq<(u16, Seq<char>)>,
    pub nodes: Seq<NodeView>,
}

/// The state of a cluster.
pub struct ClusterState {
    slots: Vec<(u16, String)>,
    nodes: Vec<ClusterNode>,
}

impl View for ClusterState {
    type V = ClusterView;

    closed spec fn view(&self) -> ClusterView {
        ClusterView { slots: slot_views(self.slots@), nodes: node_views(self.nodes@) }
    }
}

/// The place of the first byte `b` from `i` on.
pub open spec fn byte_from(s: Seq<u8>, b: u8, i: int) -> int
    decreases s.len() - i,
{
    if i >= s.len() || s[i] == b {
        i
    } else {
        byte_from(s, b, i + 1)
    }
}

/// The part of a key that decides on its slot: what stands between the first
/// opening brace and the next closing one, if that is anything, and otherwise
/// the whole key.
pub open spec fn hash_tag(key: Seq<u8>) -> Seq<u8> {
    let start = byte_from(key, 123, 0);
    if start >= key.len() {
        key
    } else {
        let end = byte_from(key, 125, start);
        if end < key.len() && end > start + 1 {
            key.subrange(start + 1, end)
        } else {
            key
        }
    }
}

/// A checksum after one bit more: it is shifted to the left, and what falls out
/// is taken off with the polynomial.
pub open spec fn crc_shifted(crc: u16, n: nat) -> u16
    decreases n,
{
    if n == 0 {
        crc
    } else {
        let before = crc_shifted(crc, (n - 1) as nat);
        if before & 0x8000 == 0 {
            before << 1
        } else {
            (before << 1) ^ 0x1021
        }
    }
}

/// The XMODEM checksum: it starts at 0, and every byte goes into the upper half
/// before eight shifts.
pub open spec fn xmodem(data: Seq<u8>) -> u16
    decreases data.len(),
{
    if data.len() == 0 {
        0
    } else {
        crc_shifted(xmodem(data.drop_last()) ^ ((data.last() as u16) << 8), 8)
    }
}

/// Calculates a checksum with `crc16::State::<crc16::XMODEM>::calculate`: the
/// checksum with the polynomial 0x1021, with bits neither turned round nor
/// inverted.
#[verifier::external_body]
fn crc16_xmodem(data: &[u8]) -> (crc: u16)
    ensures
        crc == xmodem(data@),
{
    crc16::State::<crc16::XMODEM>::calculate(data)
}

/// The slot of a checksum.
pub fn slot_of_crc(crc: u16) -> (slot: u16)
    ensures
        slot == crc % 16384,
        slot < CLUSTER_SLOT_COUNT,
{
    crc % CLUSTER_SLOT_COUNT
}

fn find_byte(s: &[u8], b: u8, from: usize) -> (i: usize)
    requires
        from <= s@.len(),
    ensures
        i == byte_from(s@, b, from as int),
        from <= i <= s@.len(),
{
    let mut i: usize = from;
    while i < s.len() && s[i] != b
        invariant
            from <= i <= s@.len(),
            byte_from(s@, b, from as int) == byte_from(s@, b, i as int),
        decreases s.len() - i,
    {
        i = i + 1;
    }
    i
}

/// Finds the part of a key that decides on its slot.
pub fn tag_of<'a>(key: &'a [u8]) -> (tag: &'a [u8])
    ensures
        tag@ == hash_tag(key@),
{
    let start: usize = find_byte(key, 123, 0);
    if start >= key.len() {
        return key;
    }
    let end: usize = find_byte(key, 125, start);
    if end < key.len() && end - start > 1 {
        vstd::slice::slice_subrange(key, start + 1, end)
    } else {
        key
    }
}

/// Keys with the same tag in braces have the same slot, whatever stands around
/// the braces.
pub proof fn law_tagged_keys_share_a_slot(
    before1: Seq<u8>,
    before2: Seq<u8>,
    tag: Seq<u8>,
    after1: Seq<u8>,
    after2: Seq<u8>,
)
    requires
        tag.len() > 0,
        !tag.contains(125u8),
        !before1.contains(123u8),
        !before2.contains(123u8),
    ensures
        hash_tag(before1 + seq![123u8] + tag + seq![125u8] + after1) == tag,
        hash_tag(before1 + seq![123u8] + tag + seq![125u8] + after1) == hash_tag(
            before2 + seq![123u8] + tag + seq![125u8] + after2,
        ),
{
    lemma_tag_found(before1, tag, after1);
    lemma_tag_found(before2, tag, after2);
}

proof fn lemma_tag_found(before: Seq<u8>, tag: Seq<u8>, rest: Seq<u8>)
    requires
        tag.len() > 0,
        !tag.contains(125u8),
        !before.contains(123u8),
    ensures
        hash_tag(before + seq![123u8] + tag + seq![125u8] + rest) == tag,
{
    let key = before + seq![123u8] + tag + seq![125u8] + rest;
    let start = before.len() as int;
    let end = start + 1 + tag.len();
    assert forall|i: int| 0 <= i < start implies key[i] != 123 by {
        assert(key[i] == before[i]);
    }
    assert(key[start] == 123);
    lemma_byte_found(key, 123, 0, start);
    assert forall|i: int| start <= i < end implies key[i] != 125 by {
        if i > start {
            assert(key[i] == tag[i - start - 1]);
        }
    }
    assert(key[end] == 125);
    lemma_byte_found(key, 125, start, end);
    assert(key.subrange(start + 1, end) =~= tag);
}

proof fn lemma_byte_found(s: Seq<u8>, b: u8, i: int, at: int)
    requires
        0 <= i <= at < s.len(),
        s[at] == b,
        forall|j: int| i <= j < at ==> s[j] != b,
    ensures
        byte_from(s, b, i) == at,
    decreases at - i,
{
    if i < at {
        lemma_byte_found(s, b, i + 1, at);
    }
}

/// The slots with one of them assigned to a node.
pub open spec fn assigned(v: Seq<(u16, Seq<char>)>, slot: u16, node: Seq<char>) -> Seq<
    (u16, Seq<char>),
>
    decreases v.len(),
{
    if v.len() == 0 {
        seq![(slot, node)]
    } else if v.last().0 < slot {
        v.push((slot, node))
    } else if v.last().0 == slot {
        v.drop_last().push((slot, node))
    } else {
        assigned(v.drop_last(), slot, node).push(v.last())
    }
}

/// The nodes with one of them added, in the place of one with the same id or
/// behind the others.
pub open spec fn node_added(v: Seq<NodeView>, node: NodeView) -> Seq<NodeView>
    decreases v.len(),
{
    if v.len() == 0 {
        seq![node]
    } else if v[0].id == node.id {
        seq![node] + v.drop_first()
    } else {
        seq![v[0]] + node_added(v.drop_first(), node)
    }
}

/// A run of slots with the node that serves them.
pub type SlotRange = (u16, u16, Seq<char>);

/// The ranges that assigned slots make up: runs of consecutive slots of one
/// node.
pub open spec fn runs(v: Seq<(u16, Seq<char>)>) -> Seq<SlotRange>
    decreases v.len(),
{
    if v.len() == 0 {
        Seq::empty()
    } else {
        let before = runs(v.drop_last());
        let (slot, node) = v.last();
        if before.len() > 0 && slot == before.last().1 + 1 && node == before.last().2 {
            before.drop_last().push((before.last().0, slot, node))
        } else {
            before.push((slot, slot, node))
        }
    }
}

/// The ranges of a cluster. Without assigned slots the local node serves all
/// of them.
pub open spec fn ranges_of(v: Seq<(u16, Seq<char>)>) -> Seq<SlotRange> {
    if v.len() == 0 {
        seq![(0u16, 16383u16, "127.0.0.1:6379"@)]
    } else {
        runs(v)
    }
}

/// The ranges of a list.
pub open spec fn range_views(v: Seq<(u16, u16, String)>) -> Seq<SlotRange> {
    Seq::new(v.len(), |i: int| (v[i].0, v[i].1, v[i].2@))
}

/// A range covers a slot for a node.
pub open spec fn covers(r: SlotRange, slot: u16, node: Seq<char>) -> bool {
    r.0 <= slot <= r.1 && r.2 == node
}

/// The ranges cover exactly the assigned slots, each for its node, and come in
/// ascending order without overlapping.
pub proof fn law_ranges_cover_the_slots(v: Seq<(u16, Seq<char>)>)
    requires
        slots_ascend(v),
    ensures
        forall|slot: u16, node: Seq<char>|
            v.contains((slot, node)) == exists|i: int|
                0 <= i < runs(v).len() && #[trigger] covers(runs(v)[i], slot, node),
        forall|i: int, j: int|
            0 <= i < j < runs(v).len() ==> (#[trigger] runs(v)[i]).1 < (#[trigger] runs(v)[j]).0,
    decreases v.len(),
{
    lemma_runs(v);
}

proof fn lemma_runs(v: Seq<(u16, Seq<char>)>)
    requires
        slots_ascend(v),
    ensures
        (runs(v).len() > 0) == (v.len() > 0),
        v.len() > 0 ==> runs(v).last().1 == v.last().0,
        forall|i: int| 0 <= i < runs(v).len() ==> (#[trigger] runs(v)[i]).0 <= runs(v)[i].1,
        forall|slot: u16, node: Seq<char>|
            v.contains((slot, node)) == exists|i: int|
                0 <= i < runs(v).len() && #[trigger] covers(runs(v)[i], slot, node),
        forall|i: int, j: int|
            0 <= i < j < runs(v).len() ==> (#[trigger] runs(v)[i]).1 < (#[trigger] runs(v)[j]).0,
    decreases v.len(),
{
    if v.len() > 0 {
        let head = v.drop_last();
        lemma_runs(head);
        let before = runs(head);
        let after = runs(v);
        let n = before.len() as int;
        let (s, d) = v.last();
        let joined = n > 0 && s == before.last().1 + 1 && d == before.last().2;
        assert forall|i: int| 0 <= i < n - 1 implies after[i] == before[i] by {}
        assert(!joined ==> (n > 0 ==> after[n - 1] == before[n - 1]));
        assert(n > 0 ==> before.last().1 < s) by {
            if n > 0 {
                assert(before.last().1 == head.last().0);
                assert(v[head.len() - 1].0 < v[v.len() - 1].0);
            }
        }
        assert forall|slot: u16, node: Seq<char>|
            v.contains((slot, node)) == exists|i: int|
                0 <= i < after.len() && #[trigger] covers(after[i], slot, node) by {
            if v.contains((slot, node)) {
                let k = v.index_of((slot, node));
                if k < v.len() - 1 {
                    assert(head[k] == (slot, node));
                    assert(head.contains((slot, node)));
                    let i = choose|i: int|
                        0 <= i < before.len() && #[trigger] covers(before[i], slot, node);
                    assert(covers(after[i], slot, node));
                } else {
                    assert(covers(after[after.len() - 1], slot, node));
                }
            }
            if exists|i: int| 0 <= i < after.len() && #[trigger] covers(after[i], slot, node) {
                let i = choose|i: int|
                    0 <= i < after.len() && #[trigger] covers(after[i], slot, node);
                if i < after.len() - 1 {
                    assert(covers(before[i], slot, node));
                    assert(head.contains((slot, node)));
                    assert(v[head.index_of((slot, node))] == (slot, node));
                } else if slot == s {
                    assert(v[v.len() - 1] == (slot, node));
                } else {
                    assert(joined);
                    assert(covers(before[n - 1], slot, node));
                    assert(head.contains((slot, node)));
                    assert(v[head.index_of((slot, node))] == (slot, node));
                }
            }
        }
    }
}

/// The ranges are as long as they can be: two that follow on each other are of
/// different nodes, or a slot between them is not assigned.
pub proof fn law_ranges_are_maximal(v: Seq<(u16, Seq<char>)>, i: int)
    requires
        0 <= i < runs(v).len() - 1,
    ensures
        runs(v)[i].1 + 1 != runs(v)[i + 1].0 || runs(v)[i].2 != runs(v)[i + 1].2,
    decreases v.len(),
{
    let before = runs(v.drop_last());
    if i < before.len() - 1 {
        law_ranges_are_maximal(v.drop_last(), i);
    }
}

impl ClusterState {
    /// The slots are in ascending order.
    #[verifier::type_invariant]
    spec fn inv(&self) -> bool {
        slots_ascend(slot_views(self.slots@))
    }

    /// A cluster without assigned slots and known nodes.
    pub fn new() -> (s: ClusterState)
        ensures
            s@ == (ClusterView { slots: Seq::empty(), nodes: Seq::empty() }),
    {
        let s = ClusterState { slots: Vec::new(), nodes: Vec::new() };
        proof {
            assert(s@.slots =~= Seq::<(u16, Seq<char>)>::empty());
            assert(s@.nodes =~= Seq::<NodeView>::empty());
        }
        s
    }

    /// The hash slot of a key.
    pub fn key_slot(key: &[u8]) -> (slot: u16)
        ensures
            slot == xmodem(hash_tag(key@)) % 16384,
            slot < CLUSTER_SLOT_COUNT,
    {
        slot_of_crc(crc16_xmodem(tag_of(key)))
    }
}

/// Assigning a slot keeps the order, gives the slot to the node and leaves all
/// other slots as they are.
pub proof fn law_assigned_slot(v: Seq<(u16, Seq<char>)>, slot: u16, node: Seq<char>)
    requires
        slots_ascend(v),
    ensures
        slots_ascend(assigned(v, slot, node)),
        forall|s: u16, n: Seq<char>| #[trigger]
            assigned(v, slot, node).contains((s, n)) == if s == slot {
                n == node
            } else {
                v.contains((s, n))
            },
    decreases v.len(),
{
    let after = assigned(v, slot, node);
    if v.len() == 0 {
        assert(after[0] == (slot, node));
    } else if v.last().0 < slot {
        lemma_push_contains(v, (slot, node));
    } else if v.last().0 == slot {
        lemma_push_contains(v.drop_last(), (slot, node));
        assert(v =~= v.drop_last().push(v.last()));
        lemma_push_contains(v.drop_last(), v.last());
        assert forall|s: u16, n: Seq<char>| v.drop_last().contains((s, n)) implies s < slot by {
            let i = v.drop_last().index_of((s, n));
            assert(v[i] == (s, n));
            assert(v[i].0 < v[v.len() - 1].0);
        }
    } else {
        let head = v.drop_last();
        law_assigned_slot(head, slot, node);
        let mid = assigned(head, slot, node);
        lemma_push_contains(mid, v.last());
        assert(v =~= head.push(v.last()));
        lemma_push_contains(head, v.last());
        assert forall|i: int| 0 <= i < mid.len() implies (#[trigger] mid[i]).0 < v.last().0 by {
            let (s, n) = mid[i];
            assert(mid.contains((s, n)));
            if s != slot {
                assert(head.contains((s, n)));
                let j = head.index_of((s, n));
                assert(v[j].0 < v[v.len() - 1].0);
            }
        }
    }
}

proof fn lemma_push_contains(v: Seq<(u16, Seq<char>)>, x: (u16, Seq<char>))
    ensures
        forall|y: (u16, Seq<char>)| #[trigger] v.push(x).contains(y) == (v.contains(y) || y == x),
{
    assert forall|y: (u16, Seq<char>)| #[trigger]
        v.push(x).contains(y) == (v.contains(y) || y == x) by {
        if v.contains(y) {
            assert(v.push(x)[v.index_of(y)] == y);
        }
        assert(v.push(x)[v.len() as int] == x);
        if v.push(x).contains(y) && y != x {
            assert(v[v.push(x).index_of(y)] == y);
        }
    }
}

/// Slots behind the one that is assigned stay behind it.
proof fn lemma_assigned_skips(v: Seq<(u16, Seq<char>)>, slot: u16, node: Seq<char>, i: int)
    requires
        0 <= i <= v.len(),
        forall|j: int| i <= j < v.len() ==> (#[trigger] v[j]).0 > slot,
    ensures
        assigned(v, slot, node) == assigned(v.take(i), slot, node) + v.skip(i),
    decreases v.len() - i,
{
    if i == v.len() {
        assert(v.take(i) =~= v);
        assert(assigned(v, slot, node) =~= assigned(v.take(i), slot, node) + v.skip(i));
    } else {
        let head = v.drop_last();
        assert(v[v.len() - 1].0 > slot);
        assert forall|j: int| i <= j < head.len() implies (#[trigger] head[j]).0 > slot by {
            assert(head[j] == v[j]);
        }
        lemma_assigned_skips(head, slot, node, i);
        assert(head.take(i) =~= v.take(i));
        assert(assigned(v, slot, node) =~= assigned(v.take(i), slot, node) + v.skip(i));
    }
}

impl ClusterState {
    /// Assigns a slot to a node.
    pub fn assign_slot(&mut self, slot: u16, node_id: String)
        ensures
            final(self)@ == (ClusterView {
                slots: assigned(old(self)@.slots, slot, node_id@),
                ..old(self)@
            }),
            slots_ascend(final(self)@.slots),
    {
        proof {
            use_type_invariant(&*self);
        }
        let ghost v = slot_views(self.slots@);
        let ghost node = node_id@;
        let mut slots: Vec<(u16, String)> = Vec::new();
        std::mem::swap(&mut slots, &mut self.slots);
        let mut i: usize = slots.len();
        while i > 0 && slots[i - 1].0 > slot
            invariant
                i <= slots@.len(),
                v == slot_views(slots@),
                forall|j: int| i <= j < v.len() ==> (#[trigger] v[j]).0 > slot,
            decreases i,
        {
            i = i - 1;
            proof {
                assert(v[i as int].0 == slots@[i as int].0);
            }
        }
        proof {
            lemma_assigned_skips(v, slot, node, i as int);
            law_assigned_slot(v, slot, node);
        }
        if i > 0 && slots[i - 1].0 == slot {
            let ghost before = slots@;
            slots.set(i - 1, (slot, node_id));
            proof {
                let head = v.take(i as int);
                assert(head.last() == v[i - 1]);
                assert(v[i - 1].0 == before[i - 1].0);
                assert(slot_views(slots@) =~= head.drop_last().push((slot, node)) + v.skip(
                    i as int,
                ));
            }
        } else {
            slots.insert(i, (slot, node_id));
            proof {
                let head = v.take(i as int);
                if i > 0 {
                    assert(head.last() == v[i - 1]);
                    assert(head.last().0 < slot);
                }
                assert(assigned(head, slot, node) =~= head.push((slot, node)));
                assert(slot_views(slots@) =~= head.push((slot, node)) + v.skip(i as int));
            }
        }
        self.slots = slots;
    }

    /// The node that serves a slot, if it is assigned.
    pub fn slot_node(&self, slot: u16) -> (r: Option<String>)
        ensures
            match r {
                Some(node) => self@.slots.contains((slot, node@)),
                None => forall|node: Seq<char>| !self@.slots.contains((slot, node)),
            },
            slots_ascend(self@.slots),
    {
        proof {
            use_type_invariant(self);
        }
        let mut i: usize = 0;
        while i < self.slots.len()
            invariant
                i <= self.slots@.len(),
                slots_ascend(self@.slots),
                forall|j: int| 0 <= j < i ==> self.slots@[j].0 != slot,
            decreases self.slots.len() - i,
        {
            if self.slots[i].0 == slot {
                proof {
                    assert(self@.slots[i as int] == (slot, self.slots@[i as int].1@));
                }
                return Some(self.slots[i].1.clone());
            }
            i = i + 1;
        }
        proof {
            assert forall|node: Seq<char>| !self@.slots.contains((slot, node)) by {
                if self@.slots.contains((slot, node)) {
                    let j = self@.slots.index_of((slot, node));
                    assert(self@.slots[j].0 == self.slots@[j].0);
                }
            }
        }
        None
    }

    /// Adds a node, in the place of one with the same id.
    pub fn add_node(&mut self, node: ClusterNode)
        ensures
            final(self)@ == (ClusterView {
                nodes: node_added(old(self)@.nodes, node@),
                ..old(self)@
            }),
            slots_ascend(final(self)@.slots),
    {
        proof {
            use_type_invariant(&*self);
        }
        let ghost v = node_views(self.nodes@);
        let ghost new = node@;
        let mut nodes: Vec<ClusterNode> = Vec::new();
        std::mem::swap(&mut nodes, &mut self.nodes);
        let mut i: usize = 0;
        while i < nodes.len() && !error::same_text(nodes[i].id.as_str(), node.id.as_str())
            invariant
                i <= nodes@.len(),
                v == node_views(nodes@),
                new == node@,
                forall|j: int| 0 <= j < i ==> (#[trigger] v[j]).id != new.id,
            decreases nodes.len() - i,
        {
            proof {
                assert(v[i as int].id == nodes@[i as int].id@);
            }
            i = i + 1;
        }
        proof {
            if i < v.len() {
                assert(v[i as int].id == nodes@[i as int].id@);
            }
            lemma_node_added(v, new, i as int, 0);
            assert(v.skip(0) =~= v);
        }
        if i < nodes.len() {
            nodes.set(i, node);
            proof {
                assert(node_views(nodes@) =~= v.update(i as int, new).skip(0));
            }
        } else {
            nodes.push(node);
            proof {
                assert(node_views(nodes@) =~= v.push(new).skip(0));
            }
        }
        self.nodes = nodes;
    }

    /// The nodes.
    pub fn nodes(&self) -> (r: Vec<ClusterNode>)
        ensures
            node_views(r@) == self@.nodes,
    {
        let mut r: Vec<ClusterNode> = Vec::new();
        let mut i: usize = 0;
        while i < self.nodes.len()
            invariant
                i <= self.nodes@.len(),
                r@.len() == i,
                node_views(r@) =~= self@.nodes.take(i as int),
            decreases self.nodes.len() - i,
        {
            let n = &self.nodes[i];
            r.push(ClusterNode { id: n.id.clone(), addr: n.addr.clone(), role: n.role });
            proof {
                assert(r@[i as int]@ == self@.nodes[i as int]);
                assert(node_views(r@) =~= self@.nodes.take(i as int).push(self@.nodes[i as int]));
                assert(self@.nodes.take(i + 1) =~= self@.nodes.take(i as int).push(
                    self@.nodes[i as int],
                ));
            }
            i = i + 1;
        }
        proof {
            assert(self@.nodes.take(i as int) =~= self@.nodes);
        }
        r
    }

    /// The ranges of slots with the nodes that serve them.
    pub fn slots_ranges(&self) -> (r: Vec<(u16, u16, String)>)
        ensures
            range_views(r@) == ranges_of(self@.slots),
            slots_ascend(self@.slots),
    {
        proof {
            use_type_invariant(self);
        }
        let ghost v = self@.slots;
        let mut r: Vec<(u16, u16, String)> = Vec::new();
        if self.slots.len() == 0 {
            r.push((0, CLUSTER_SLOT_COUNT - 1, "127.0.0.1:6379".to_owned()));
            proof {
                assert(range_views(r@) =~= ranges_of(v));
            }
            return r;
        }
        let mut i: usize = 0;
        proof {
            assert(range_views(r@) =~= runs(v.take(0)));
        }
        while i < self.slots.len()
            invariant
                i <= self.slots@.len(),
                v == self@.slots,
                slots_ascend(v),
                range_views(r@) == runs(v.take(i as int)),
            decreases self.slots.len() - i,
        {
            let slot: u16 = self.slots[i].0;
            let ghost before = range_views(r@);
            let ghost node = self.slots@[i as int].1@;
            let n: usize = r.len();
            proof {
                assert(v.take(i + 1).drop_last() =~= v.take(i as int));
                assert(v.take(i + 1).last() == v[i as int]);
                assert(v[i as int] == (slot, node));
                lemma_runs(v.take(i as int));
                if n > 0 {
                    assert(before.last() == (r@[n - 1].0, r@[n - 1].1, r@[n - 1].2@));
                    assert(v[i - 1].0 < v[i as int].0);
                    assert(v.take(i as int).last() == v[i - 1]);
                }
            }
            if n > 0 && slot == r[n - 1].1 + 1 && error::same_text(
                self.slots[i].1.as_str(),
                r[n - 1].2.as_str(),
            ) {
                let start: u16 = r[n - 1].0;
                r.set(n - 1, (start, slot, self.slots[i].1.clone()));
                proof {
                    assert(range_views(r@) =~= before.drop_last().push((start, slot, node)));
                }
            } else {
                r.push((slot, slot, self.slots[i].1.clone()));
                proof {
                    assert(range_views(r@) =~= before.push((slot, slot, node)));
                }
            }
            i = i + 1;
        }
        proof {
            assert(v.take(i as int) =~= v);
        }
        r
    }
}

proof fn lemma_node_added(v: Seq<NodeView>, node: NodeView, at: int, i: int)
    requires
        0 <= i <= at <= v.len(),
        forall|j: int| 0 <= j < at ==> (#[trigger] v[j]).id != node.id,
        at < v.len() ==> v[at].id == node.id,
    ensures
        node_added(v.skip(i), node) == if at < v.len() {
            v.update(at, node).skip(i)
        } else {
            v.push(node).skip(i)
        },
    decreases at - i,
{
    let rest = v.skip(i);
    if i < at {
        lemma_node_added(v, node, at, i + 1);
        assert(rest[0] == v[i]);
        assert(rest.drop_first() =~= v.skip(i + 1));
        if at < v.len() {
            assert(v.update(at, node).skip(i) =~= seq![v[i]] + v.update(at, node).skip(i + 1));
        } else {
            assert(v.push(node).skip(i) =~= seq![v[i]] + v.push(node).skip(i + 1));
        }
    } else if at < v.len() {
        assert(rest[0] == v[at]);
        assert(v.update(at, node).skip(at) =~= seq![node] + rest.drop_first());
    } else {
        assert(v.push(node).skip(at) =~= seq![node]);
    }
}

/// The part of an address before the first colon.
pub open spec fn host_in(addr: Seq<u8>) -> Seq<u8> {
    addr.take(byte_from(addr, 58, 0))
}

/// The number between the first colon of an address and the next one; 6379
/// where there is none.
pub open spec fn port_in(addr: Seq<u8>) -> i64 {
    let c = byte_from(addr, 58, 0);
    if c >= addr.len() {
        6379
    } else {
        match text::i64_in(addr.subrange(c + 1, byte_from(addr, 58, c + 1))) {
            Some(n) => n,
            None => 6379,
        }
    }
}

/// The reply of a range: its first and last slot, and the node with its host,
/// port and id.
pub open spec fn range_reply(r: SlotRange) -> RespView {
    let addr = utf8::encode_utf8(r.2);
    RespView::Array(
        seq![
            RespView::Integer(r.0 as i64),
            RespView::Integer(r.1 as i64),
            RespView::Array(
                seq![
                    cmd::bulk(Some(host_in(addr))),
                    RespView::Integer(port_in(addr)),
                    cmd::bulk(
                        Some(utf8::encode_utf8("0000000000000000000000000000000000000000"@)),
                    ),
                ],
            ),
        ],
    )
}

/// Builds the reply of a range.
pub fn slots_range_to_resp(start: u16, end: u16, addr: &str) -> (r: RespValue)
    ensures
        r@ == range_reply((start, end, addr@)),
{
    let bytes = text::bytes_of(addr);
    let c: usize = find_byte(&bytes, 58, 0);
    let host = crate::encoding::copy(vstd::slice::slice_subrange(bytes.as_slice(), 0, c));
    proof {
        assert(host@ =~= host_in(bytes@));
    }
    let mut port: i64 = 6379;
    if c < bytes.len() {
        let d: usize = find_byte(&bytes, 58, c + 1);
        match text::parse_i64(vstd::slice::slice_subrange(bytes.as_slice(), c + 1, d)) {
            Some(n) => {
                port = n;
            },
            None => {},
        }
    }
    let mut node: Vec<RespValue> = Vec::new();
    push_reply(&mut node, RespValue::BulkString(Some(host)));
    push_reply(&mut node, RespValue::Integer(port));
    push_reply(
        &mut node,
        RespValue::BulkString(Some(text::bytes_of("0000000000000000000000000000000000000000"))),
    );
    let ghost want = range_reply((start, end, addr@))->Array_0;
    proof {
        assert(protocol::views(node@) =~= want[2]->Array_0);
    }
    let mut items: Vec<RespValue> = Vec::new();
    push_reply(&mut items, RespValue::Integer(start as i64));
    push_reply(&mut items, RespValue::Integer(end as i64));
    push_reply(&mut items, array(node));
    proof {
        assert(protocol::views(items@) =~= want);
    }
    array(items)
}

/// A key without a tag is its own tag: one without an opening brace, without a
/// closing brace behind the first opening one, or with the two next to each
/// other.
pub proof fn law_keys_without_a_tag(key: Seq<u8>, before: Seq<u8>, rest: Seq<u8>)
    requires
        !before.contains(123u8),
    ensures
        !key.contains(123u8) ==> hash_tag(key) == key,
        !rest.contains(125u8) ==> hash_tag(before + seq![123u8] + rest) == before + seq![123u8]
            + rest,
        hash_tag(before + seq![123u8, 125u8] + rest) == before + seq![123u8, 125u8] + rest,
{
    if !key.contains(123u8) {
        lemma_byte_missing(key, 123, 0);
    }
    let a = before + seq![123u8] + rest;
    let b = before + seq![123u8, 125u8] + rest;
    let start = before.len() as int;
    assert forall|i: int| 0 <= i < start implies a[i] != 123 && b[i] != 123 by {
        assert(a[i] == before[i] && b[i] == before[i]);
    }
    assert(a[start] == 123 && b[start] == 123);
    lemma_byte_found(a, 123, 0, start);
    lemma_byte_found(b, 123, 0, start);
    assert(b[start + 1] == 125);
    lemma_byte_found(b, 125, start, start + 1);
    if !rest.contains(125u8) {
        assert forall|i: int| start <= i < a.len() implies a[i] != 125 by {
            if i > start {
                assert(a[i] == rest[i - start - 1]);
            }
        }
        lemma_byte_missing(a, 125, start);
    }
}

proof fn lemma_byte_missing(s: Seq<u8>, b: u8, i: int)
    requires
        0 <= i <= s.len(),
        forall|j: int| i <= j < s.len() ==> s[j] != b,
    ensures
        byte_from(s, b, i) == s.len(),
    decreases s.len() - i,
{
    if i < s.len() {
        lemma_byte_missing(s, b, i + 1);
    }
}

/// Adding a node makes it known, in the place of one with the same id, and leaves
/// all others as they are; one with a new id comes behind all others.
#[verifier::rlimit(60)]
pub proof fn law_node_added(v: Seq<NodeView>, node: NodeView)
    ensures
        ({
            let after = node_added(v, node);
            let known = exists|i: int| 0 <= i < v.len() && (#[trigger] v[i]).id == node.id;
            &&& after.contains(node)
            &&& after.len() == if known {
                v.len()
            } else {
                v.len() + 1
            }
            &&& !known ==> after == v.push(node)
            &&& forall|i: int|
                0 <= i < v.len() && (#[trigger] v[i]).id != node.id ==> after[i] == v[i]
            &&& forall|i: int|
                0 <= i < v.len() && (#[trigger] v[i]).id == node.id && (forall|j: int|
                    0 <= j < i ==> (#[trigger] v[j]).id != node.id) ==> after[i] == node
        }),
{
    let at = lemma_first_node(v, node.id, 0);
    lemma_node_added(v, node, at, 0);
    assert(v.skip(0) =~= v);
    let after = node_added(v, node);
    if at < v.len() {
        assert(v.update(at, node).skip(0) =~= v.update(at, node));
        assert(after[at] == node);
    } else {
        assert(v.push(node).skip(0) =~= v.push(node));
        assert(after[v.len() as int] == node);
    }
}

proof fn lemma_first_node(v: Seq<NodeView>, id: Seq<char>, i: int) -> (at: int)
    requires
        0 <= i <= v.len(),
        forall|j: int| 0 <= j < i ==> (#[trigger] v[j]).id != id,
    ensures
        0 <= at <= v.len(),
        forall|j: int| 0 <= j < at ==> (#[trigger] v[j]).id != id,
        at < v.len() ==> v[at].id == id,
    decreases v.len() - i,
{
    if i < v.len() && v[i].id != id {
        lemma_first_node(v, id, i + 1)
    } else {
        i
    }
}

/// The reply of a range has its first and last slot, and of an address that is a
/// host, a colon and a port, the host and the port; without a colon the port is
/// 6379.
pub proof fn law_range_reply(first: u16, last: u16, addr: Seq<char>, host: Seq<u8>, port: u16)
    requires
        !host.contains(58u8),
        utf8::encode_utf8(addr) == host || utf8::encode_utf8(addr) == host + seq![58u8] + text::dec(
            port as nat,
        ),
    ensures
        ({
            let r = range_reply((first, last, addr));
            let node = (r->Array_0)[2];
            &&& (r->Array_0).len() == 3
            &&& (r->Array_0)[0] == RespView::Integer(first as i64)
            &&& (r->Array_0)[1] == RespView::Integer(last as i64)
            &&& (node->Array_0)[0] == RespView::BulkString(Some(host))
            &&& (node->Array_0)[1] == RespView::Integer(
                if utf8::encode_utf8(addr) == host {
                    6379
                } else {
                    port as i64
                },
            )
        }),
{
    let a = utf8::encode_utf8(addr);
    if a == host {
        lemma_byte_missing(a, 58, 0);
        assert(a.take(a.len() as int) =~= host);
    } else {
        let d = text::dec(port as nat);
        let c = host.len() as int;
        assert forall|i: int| 0 <= i < c implies a[i] != 58 by {
            assert(a[i] == host[i]);
        }
        assert(a[c] == 58);
        lemma_byte_found(a, 58, 0, c);
        assert(a.take(c) =~= host);
        text::lemma_dec(port as nat);
        text::law_decimal_round_trip(0, port as int);
        assert forall|i: int| c + 1 <= i < a.len() implies a[i] != 58 by {
            assert(a[i] == d[i - c - 1]);
            assert(text::is_digit(d[i - c - 1]));
        }
        lemma_byte_missing(a, 58, c + 1);
        assert(a.subrange(c + 1, a.len() as int) =~= d);
    }
}

} // verus!
