//! An ordered table of byte strings, the in-memory form of a column family.

use crate::encoding;
use crate::order;
use crate::order::Rel;
use vstd::prelude::*;

verus! {

/// The contents of a column family.
pub type Entries = Map<Seq<u8>, Seq<u8>>;

/// A page of a scan: the entries, and the key to continue from if there are
/// more.
pub struct PageView {
    pub items: Seq<(Seq<u8>, Seq<u8>)>,
    pub next: Option<Seq<u8>>,
}

pub type Page = (Vec<(Vec<u8>, Vec<u8>)>, Option<Vec<u8>>);

/// The byte strings of a list of pairs.
pub open spec fn pairs_of(v: Seq<(Vec<u8>, Vec<u8>)>) -> Seq<(Seq<u8>, Seq<u8>)> {
    Seq::new(v.len(), |i: int| (v[i].0@, v[i].1@))
}

/// The byte string inside an option.
pub open spec fn opt_bytes(v: Option<Vec<u8>>) -> Option<Seq<u8>> {
    match v {
        Some(b) => Some(b@),
        None => None,
    }
}

/// A page's contents.
pub open spec fn page_view(p: Page) -> PageView {
    PageView { items: pairs_of(p.0@), next: opt_bytes(p.1) }
}

/// The value of a key, if it has one.
pub open spec fn lookup(m: Entries, k: Seq<u8>) -> Option<Seq<u8>> {
    if m.contains_key(k) {
        Some(m[k])
    } else {
        None
    }
}

/// The keys that begin with `prefix`.
pub open spec fn with_prefix(m: Entries, prefix: Seq<u8>) -> Set<Seq<u8>> {
    Set::new(|k: Seq<u8>| m.contains_key(k) && order::has_prefix(k, prefix))
}

/// The keys with the prefix that a forward scan from `start` meets: all of
/// them for an empty `start`; otherwise those behind `start`, up to the first
/// key that lacks the prefix.
pub open spec fn run_after(m: Entries, prefix: Seq<u8>, start: Seq<u8>) -> Set<Seq<u8>> {
    if start.len() == 0 {
        with_prefix(m, prefix)
    } else {
        Set::new(
            |k: Seq<u8>|
                m.contains_key(k) && order::lt(start, k) && order::has_prefix(k, prefix) && (forall|
                    j: Seq<u8>,
                | #[trigger]
                    m.contains_key(j) && order::lt(start, j) && order::lt(j, k)
                        ==> order::has_prefix(j, prefix)),
        )
    }
}

/// The keys with the prefix that a backward scan from `start` meets: all of
/// them for an empty `start`; otherwise those before `start`, down to the
/// first key that lacks the prefix.
pub open spec fn run_before(m: Entries, prefix: Seq<u8>, start: Seq<u8>) -> Set<Seq<u8>> {
    if start.len() == 0 {
        with_prefix(m, prefix)
    } else {
        Set::new(
            |k: Seq<u8>|
                m.contains_key(k) && order::lt(k, start) && order::has_prefix(k, prefix) && (forall|
                    j: Seq<u8>,
                | #[trigger]
                    m.contains_key(j) && order::lt(j, start) && order::lt(k, j)
                        ==> order::has_prefix(j, prefix)),
        )
    }
}

/// The entries of the given keys.
pub open spec fn entries_at(m: Entries, ks: Seq<Seq<u8>>) -> Seq<(Seq<u8>, Seq<u8>)> {
    Seq::new(ks.len(), |i: int| (ks[i], m[ks[i]]))
}

/// How many of `len` entries a page takes: at most `limit`.
pub open spec fn page_len(len: nat, limit: nat) -> nat {
    if len < limit {
        len
    } else {
        limit
    }
}

/// The first page of the keys `ks`, and its last key if more follow. A page
/// with the limit 0 is empty and names no key to go on from.
pub open spec fn first_page(m: Entries, ks: Seq<Seq<u8>>, limit: nat) -> PageView {
    let n = page_len(ks.len(), limit);
    PageView {
        items: entries_at(m, ks.take(n as int)),
        next: if 0 < n < ks.len() {
            Some(ks[n - 1])
        } else {
            None
        },
    }
}

/// A page of a forward scan.
pub open spec fn forward_page(
    m: Entries,
    prefix: Seq<u8>,
    start: Seq<u8>,
    limit: nat,
) -> PageView {
    first_page(m, order::ordered(run_after(m, prefix, start)), limit)
}

/// A page of a backward scan.
pub open spec fn backward_page(
    m: Entries,
    prefix: Seq<u8>,
    start: Seq<u8>,
    limit: nat,
) -> PageView {
    first_page(m, order::ordered(run_before(m, prefix, start)).reverse(), limit)
}

/// All keys with the prefix, in order.
pub open spec fn keys_with(m: Entries, prefix: Seq<u8>) -> Seq<Seq<u8>> {
    order::ordered(with_prefix(m, prefix))
}

/// The run of a finite table has an ordered listing.
pub proof fn lemma_runs_listed(m: Entries, prefix: Seq<u8>, start: Seq<u8>)
    requires
        m.dom().finite(),
    ensures
        order::lists(order::ordered(run_after(m, prefix, start)), run_after(m, prefix, start)),
        order::lists(order::ordered(run_before(m, prefix, start)), run_before(m, prefix, start)),
        order::lists(keys_with(m, prefix), with_prefix(m, prefix)),
{
    vstd::set_lib::lemma_len_subset(run_after(m, prefix, start), m.dom());
    vstd::set_lib::lemma_len_subset(run_before(m, prefix, start), m.dom());
    vstd::set_lib::lemma_len_subset(with_prefix(m, prefix), m.dom());
    order::lemma_ordered_exists(run_after(m, prefix, start));
    order::lemma_ordered_exists(run_before(m, prefix, start));
    order::lemma_ordered_exists(with_prefix(m, prefix));
}

/// Pages follow on each other: a forward scan that continues from the `n`th
/// key of a run meets exactly the keys behind it, so that walking page by page
/// repeats nothing and skips nothing. The key must not be empty, for an empty
/// key means the start.
pub proof fn law_forward_pages_continue(m: Entries, prefix: Seq<u8>, start: Seq<u8>, n: int)
    requires
        m.dom().finite(),
        0 < n <= order::ordered(run_after(m, prefix, start)).len(),
        order::ordered(run_after(m, prefix, start))[n - 1].len() > 0,
    ensures
        order::ordered(
            run_after(m, prefix, order::ordered(run_after(m, prefix, start))[n - 1]),
        ) == order::ordered(run_after(m, prefix, start)).skip(n),
{
    let run = run_after(m, prefix, start);
    let ks = order::ordered(run);
    lemma_runs_listed(m, prefix, start);
    let p = ks[n - 1];
    let rest = run_after(m, prefix, p);
    let t = ks.skip(n);
    assert(run.contains(p));
    assert forall|i: int| 0 <= i < t.len() implies rest.contains(#[trigger] t[i]) by {
        let k = ks[n + i];
        assert(t[i] == k);
        assert(run.contains(k));
        assert(order::lt(p, k));
        assert forall|j: Seq<u8>| #[trigger]
            m.contains_key(j) && order::lt(p, j) && order::lt(j, k) implies order::has_prefix(
            j,
            prefix,
        ) by {
            order::lemma_prefix_contiguous(prefix, p, j, k);
        }
    }
    assert forall|k: Seq<u8>| #[trigger] rest.contains(k) implies t.contains(k) by {
        if start.len() > 0 {
            order::lemma_lt_transitive(start, p, k);
            assert forall|j: Seq<u8>| #[trigger]
                m.contains_key(j) && order::lt(start, j) && order::lt(j, k) implies
                order::has_prefix(j, prefix) by {
                order::lemma_lt_total(j, p);
            }
        }
        assert(run.contains(k));
        let i = choose|i: int| 0 <= i < ks.len() && ks[i] == k;
        if i < n {
            if i < n - 1 {
                assert(order::lt(ks[i], ks[n - 1]));
                order::lemma_lt_asymmetric(k, p);
            } else {
                order::lemma_lt_irreflexive(p);
            }
        }
        assert(t[i - n] == k);
    }
    assert(order::ascending(t)) by {
        assert forall|i: int, j: int| 0 <= i < j < t.len() implies order::lt(
            #[trigger] t[i],
            #[trigger] t[j],
        ) by {
            assert(order::lt(ks[n + i], ks[n + j]));
        }
    }
    order::lemma_ordered(t, rest);
}

/// A backward scan that continues from a key of a run meets exactly the keys
/// of the run before it.
pub proof fn law_backward_pages_continue(m: Entries, prefix: Seq<u8>, start: Seq<u8>, n: int)
    requires
        m.dom().finite(),
        0 <= n < order::ordered(run_before(m, prefix, start)).len(),
        order::ordered(run_before(m, prefix, start))[n].len() > 0,
    ensures
        order::ordered(
            run_before(m, prefix, order::ordered(run_before(m, prefix, start))[n]),
        ) == order::ordered(run_before(m, prefix, start)).take(n),
{
    let run = run_before(m, prefix, start);
    let ks = order::ordered(run);
    lemma_runs_listed(m, prefix, start);
    let p = ks[n];
    let rest = run_before(m, prefix, p);
    let t = ks.take(n);
    assert(run.contains(p));
    assert forall|i: int| 0 <= i < t.len() implies rest.contains(#[trigger] t[i]) by {
        let k = ks[i];
        assert(t[i] == k);
        assert(run.contains(k));
        assert(order::lt(k, p));
        assert forall|j: Seq<u8>| #[trigger]
            m.contains_key(j) && order::lt(j, p) && order::lt(k, j) implies order::has_prefix(
            j,
            prefix,
        ) by {
            order::lemma_prefix_contiguous(prefix, k, j, p);
        }
    }
    assert forall|k: Seq<u8>| #[trigger] rest.contains(k) implies t.contains(k) by {
        if start.len() > 0 {
            order::lemma_lt_transitive(k, p, start);
            assert forall|j: Seq<u8>| #[trigger]
                m.contains_key(j) && order::lt(j, start) && order::lt(k, j) implies
                order::has_prefix(j, prefix) by {
                order::lemma_lt_total(j, p);
            }
        }
        assert(run.contains(k));
        let i = choose|i: int| 0 <= i < ks.len() && ks[i] == k;
        if i >= n {
            if i > n {
                assert(order::lt(ks[n], ks[i]));
                order::lemma_lt_asymmetric(k, p);
            } else {
                order::lemma_lt_irreflexive(p);
            }
        }
        assert(t[i] == k);
    }
    assert(order::ascending(t)) by {
        assert forall|i: int, j: int| 0 <= i < j < t.len() implies order::lt(
            #[trigger] t[i],
            #[trigger] t[j],
        ) by {
            assert(order::lt(ks[i], ks[j]));
        }
    }
    order::lemma_ordered(t, rest);
}

/// Where a forward walk over all keys with the prefix stands after `pos` of
/// them.
pub open spec fn forward_mark(m: Entries, prefix: Seq<u8>, pos: int) -> Seq<u8> {
    if pos == 0 {
        Seq::empty()
    } else {
        keys_with(m, prefix)[pos - 1]
    }
}

/// Where a backward walk over all keys with the prefix stands after `pos` of
/// them.
pub open spec fn backward_mark(m: Entries, prefix: Seq<u8>, pos: int) -> Seq<u8> {
    if pos == 0 {
        Seq::empty()
    } else {
        keys_with(m, prefix).reverse()[pos - 1]
    }
}

/// The next page of a walk over all keys with a prefix.
pub proof fn lemma_walk(m: Entries, prefix: Seq<u8>, pos: int, limit: nat)
    requires
        m.dom().finite(),
        prefix.len() > 0,
        0 <= pos <= keys_with(m, prefix).len(),
    ensures
        forward_page(m, prefix, forward_mark(m, prefix, pos), limit) == first_page(
            m,
            keys_with(m, prefix).skip(pos),
            limit,
        ),
        backward_page(m, prefix, backward_mark(m, prefix, pos), limit) == first_page(
            m,
            keys_with(m, prefix).reverse().skip(pos),
            limit,
        ),
{
    let none = Seq::<u8>::empty();
    let ks = keys_with(m, prefix);
    lemma_runs_listed(m, prefix, none);
    if pos == 0 {
        assert(ks.skip(0) =~= ks);
        assert(ks.reverse().skip(0) =~= ks.reverse());
    } else {
        assert(with_prefix(m, prefix).contains(ks[pos - 1]));
        assert(with_prefix(m, prefix).contains(ks[ks.len() - pos]));
        law_forward_pages_continue(m, prefix, none, pos);
        law_backward_pages_continue(m, prefix, none, ks.len() - pos);
        assert(ks.reverse()[pos - 1] == ks[ks.len() - pos]);
        assert(ks.take(ks.len() - pos).reverse() =~= ks.reverse().skip(pos));
    }
}

/// What a forward scan from `at` takes before it meets a key without the
/// prefix.
spec fn run_end(keys: Seq<Seq<u8>>, prefix: Seq<u8>, at: int) -> int
    decreases keys.len() - at,
{
    if at < keys.len() && order::has_prefix(keys[at], prefix) {
        run_end(keys, prefix, at + 1)
    } else {
        at
    }
}

/// Where a backward scan from `at` stops.
spec fn run_start(keys: Seq<Seq<u8>>, prefix: Seq<u8>, at: int) -> int
    decreases at,
{
    if at > 0 && order::has_prefix(keys[at - 1], prefix) {
        run_start(keys, prefix, at - 1)
    } else {
        at
    }
}

proof fn lemma_run_end(keys: Seq<Seq<u8>>, prefix: Seq<u8>, at: int)
    requires
        0 <= at <= keys.len(),
    ensures
        at <= run_end(keys, prefix, at) <= keys.len(),
        forall|i: int|
            at <= i < run_end(keys, prefix, at) ==> order::has_prefix(#[trigger] keys[i], prefix),
        run_end(keys, prefix, at) < keys.len() ==> !order::has_prefix(
            keys[run_end(keys, prefix, at)],
            prefix,
        ),
    decreases keys.len() - at,
{
    if at < keys.len() && order::has_prefix(keys[at], prefix) {
        lemma_run_end(keys, prefix, at + 1);
    }
}

proof fn lemma_run_start(keys: Seq<Seq<u8>>, prefix: Seq<u8>, at: int)
    requires
        0 <= at <= keys.len(),
    ensures
        0 <= run_start(keys, prefix, at) <= at,
        forall|i: int|
            run_start(keys, prefix, at) <= i < at ==> order::has_prefix(#[trigger] keys[i], prefix),
        run_start(keys, prefix, at) > 0 ==> !order::has_prefix(
            keys[run_start(keys, prefix, at) - 1],
            prefix,
        ),
    decreases at,
{
    if at > 0 && order::has_prefix(keys[at - 1], prefix) {
        lemma_run_start(keys, prefix, at - 1);
    }
}

/// A table whose keys are kept in ascending order.
pub struct Table {
    entries: Vec<(Vec<u8>, Vec<u8>)>,
}

impl View for Table {
    type V = Entries;

    closed spec fn view(&self) -> Entries {
        Map::new(
            |k: Seq<u8>| self.keys().contains(k),
            |k: Seq<u8>| self.entries@[self.keys().index_of(k)].1@,
        )
    }
}

impl Table {
    spec fn keys(self) -> Seq<Seq<u8>> {
        Seq::new(self.entries@.len(), |i: int| self.entries@[i].0@)
    }

    #[verifier::type_invariant]
    spec fn sorted(self) -> bool {
        order::ascending(self.keys())
    }

    /// A table has finitely many entries, and their number fits in a machine
    /// word.
    pub proof fn lemma_finite(self)
        ensures
            self@.dom().finite(),
            self@.dom().len() <= usize::MAX,
    {
        assert(self@.dom() =~= self.keys().to_set());
        vstd::seq_lib::seq_to_set_is_finite(self.keys());
        self.keys().lemma_cardinality_of_set();
        assert(self.entries@.len() == self.entries.len());
    }

    proof fn lemma_entry(self, i: int)
        requires
            self.sorted(),
            0 <= i < self.entries@.len(),
        ensures
            self@.contains_key(self.keys()[i]),
            self@[self.keys()[i]] == self.entries@[i].1@,
    {
        let ks = self.keys();
        assert(ks.contains(ks[i]));
        order::lemma_ascending_injective(ks, i, ks.index_of(ks[i]));
    }

    proof fn lemma_key(self, k: Seq<u8>) -> (i: int)
        requires
            self@.contains_key(k),
        ensures
            0 <= i < self.entries@.len(),
            self.keys()[i] == k,
    {
        let ks = self.keys();
        assert(ks.contains(k));
        choose|i: int| 0 <= i < ks.len() && ks[i] == k
    }

    /// An empty table.
    pub fn new() -> (t: Table)
        ensures
            t@ == Map::<Seq<u8>, Seq<u8>>::empty(),
    {
        let t = Table { entries: Vec::new() };
        proof {
            assert(t@ =~= Map::<Seq<u8>, Seq<u8>>::empty());
        }
        t
    }

    /// The number of entries.
    pub fn len(&self) -> (n: usize)
        ensures
            n == self@.len(),
    {
        proof {
            use_type_invariant(self);
            let ks = self.keys();
            assert(ks.no_duplicates()) by {
                assert forall|i: int, j: int|
                    0 <= i < ks.len() && 0 <= j < ks.len() && i != j implies ks[i] != ks[j] by {
                    if ks[i] == ks[j] {
                        order::lemma_ascending_injective(ks, i, j);
                    }
                }
            }
            ks.unique_seq_to_set();
            assert(self@.dom() =~= ks.to_set());
        }
        self.entries.len()
    }

    /// Finds a key: its place and whether it is there. All keys before the
    /// place are smaller, all keys behind it greater.
    fn find(&self, key: &[u8]) -> (r: (usize, bool))
        requires
            self.sorted(),
        ensures
            r.0 <= self.entries@.len(),
            forall|i: int| 0 <= i < r.0 ==> order::lt(#[trigger] self.keys()[i], key@),
            r.1 ==> r.0 < self.entries@.len() && self.keys()[r.0 as int] == key@,
            forall|i: int|
                r.0 + (if r.1 { 1int } else { 0 }) <= i < self.entries@.len() ==> order::lt(
                    key@,
                    #[trigger] self.keys()[i],
                ),
    {
        let mut lo: usize = 0;
        let mut hi: usize = self.entries.len();
        let ghost ks = self.keys();
        while lo < hi
            invariant
                lo <= hi <= self.entries@.len(),
                ks == self.keys(),
                order::ascending(ks),
                forall|i: int| 0 <= i < lo ==> order::lt(#[trigger] ks[i], key@),
                forall|i: int| hi <= i < ks.len() ==> order::lt(key@, #[trigger] ks[i]),
            decreases hi - lo,
        {
            let mid: usize = lo + (hi - lo) / 2;
            let rel = order::relate(&self.entries[mid].0, key);
            proof {
                assert(ks[mid as int] == self.entries@[mid as int].0@);
            }
            match rel {
                Rel::Same => {
                    proof {
                        assert forall|i: int| 0 <= i < mid implies order::lt(
                            #[trigger] ks[i],
                            key@,
                        ) by {
                            assert(order::lt(ks[i], ks[mid as int]));
                        }
                        assert forall|i: int| mid + 1 <= i < ks.len() implies order::lt(
                            key@,
                            #[trigger] ks[i],
                        ) by {
                            assert(order::lt(ks[mid as int], ks[i]));
                        }
                    }
                    return (mid, true);
                },
                Rel::Before => {
                    proof {
                        assert forall|i: int| 0 <= i < mid + 1 implies order::lt(
                            #[trigger] ks[i],
                            key@,
                        ) by {
                            if i < mid {
                                assert(order::lt(ks[i], ks[mid as int]));
                                order::lemma_lt_transitive(ks[i], ks[mid as int], key@);
                            }
                        }
                    }
                    lo = mid + 1;
                },
                Rel::After => {
                    proof {
                        assert forall|i: int| mid <= i < ks.len() implies order::lt(
                            key@,
                            #[trigger] ks[i],
                        ) by {
                            if mid < i {
                                assert(order::lt(ks[mid as int], ks[i]));
                                order::lemma_lt_transitive(key@, ks[mid as int], ks[i]);
                            }
                        }
                    }
                    hi = mid;
                },
            }
        }
        (lo, false)
    }

    /// The value of a key.
    pub fn get(&self, key: &[u8]) -> (v: Option<Vec<u8>>)
        ensures
            opt_bytes(v) == lookup(self@, key@),
    {
        proof {
            use_type_invariant(self);
        }
        let (at, found) = self.find(key);
        if found {
            proof {
                self.lemma_entry(at as int);
            }
            Some(encoding::copy(&self.entries[at].1))
        } else {
            proof {
                if self@.contains_key(key@) {
                    let i = self.lemma_key(key@);
                    order::lemma_lt_irreflexive(key@);
                    assert(order::lt(self.keys()[i], key@) || order::lt(key@, self.keys()[i]));
                }
            }
            None
        }
    }

    /// Whether a key is there.
    pub fn contains(&self, key: &[u8]) -> (r: bool)
        ensures
            r == self@.contains_key(key@),
    {
        match self.get(key) {
            Some(_) => true,
            None => false,
        }
    }

    /// Sets the value of a key.
    pub fn put(&mut self, key: &[u8], value: &[u8])
        ensures
            final(self)@ == old(self)@.insert(key@, value@),
    {
        proof {
            use_type_invariant(&*self);
        }
        let ghost before = *self;
        let (at, found) = self.find(key);
        let mut entries: Vec<(Vec<u8>, Vec<u8>)> = Vec::new();
        std::mem::swap(&mut entries, &mut self.entries);
        let item = (encoding::copy(key), encoding::copy(value));
        let ghost ks = before.keys();
        if found {
            entries[at] = item;
        } else {
            entries.insert(at, item);
        }
        let ghost after = Table { entries };
        proof {
            let ns = after.keys();
            if found {
                assert(ns =~= ks);
            } else {
                assert(ns =~= ks.insert(at as int, key@));
                assert forall|i: int, j: int| 0 <= i < j < ns.len() implies order::lt(
                    #[trigger] ns[i],
                    #[trigger] ns[j],
                ) by {
                    let i2 = if i < at { i } else { i - 1 };
                    let j2 = if j < at { j } else { j - 1 };
                    if i != at && j != at {
                        assert(ns[i] == ks[i2] && ns[j] == ks[j2]);
                    } else if i == at {
                        assert(ns[j] == ks[j2]);
                    } else {
                        assert(ns[i] == ks[i2]);
                    }
                }
            }
            assert(after.sorted());
            let want = before@.insert(key@, value@);
            assert forall|k: Seq<u8>| after@.contains_key(k) implies want.contains_key(k)
                && after@[k] == want[k] by {
                let i = after.lemma_key(k);
                after.lemma_entry(i);
                if found {
                    before.lemma_entry(i);
                    if i != at && k == key@ {
                        order::lemma_ascending_injective(ks, i, at as int);
                    }
                } else if i < at {
                    before.lemma_entry(i);
                    order::lemma_lt_irreflexive(key@);
                } else if i > at {
                    before.lemma_entry(i - 1);
                    order::lemma_lt_irreflexive(key@);
                }
            }
            assert forall|k: Seq<u8>| want.contains_key(k) implies after@.contains_key(k) by {
                if k == key@ {
                    after.lemma_entry(at as int);
                } else {
                    let i = before.lemma_key(k);
                    if found || i < at {
                        assert(ns[i] == k);
                        after.lemma_entry(i);
                    } else {
                        assert(ns[i + 1] == k);
                        after.lemma_entry(i + 1);
                    }
                }
            }
            assert(after@ =~= want);
        }
        self.entries = entries;
    }

    /// Removes a key.
    pub fn delete(&mut self, key: &[u8])
        ensures
            final(self)@ == old(self)@.remove(key@),
    {
        proof {
            use_type_invariant(&*self);
        }
        let ghost before = *self;
        let (at, found) = self.find(key);
        let mut entries: Vec<(Vec<u8>, Vec<u8>)> = Vec::new();
        std::mem::swap(&mut entries, &mut self.entries);
        let ghost ks = before.keys();
        if found {
            let _gone = entries.remove(at);
        }
        let ghost after = Table { entries };
        proof {
            let ns = after.keys();
            let want = before@.remove(key@);
            order::lemma_lt_irreflexive(key@);
            if found {
                assert(ns =~= ks.remove(at as int));
                assert forall|i: int, j: int| 0 <= i < j < ns.len() implies order::lt(
                    #[trigger] ns[i],
                    #[trigger] ns[j],
                ) by {
                    let i2 = if i < at { i } else { i + 1 };
                    let j2 = if j < at { j } else { j + 1 };
                    assert(ns[i] == ks[i2] && ns[j] == ks[j2]);
                }
            } else {
                assert(ns =~= ks);
            }
            assert(after.sorted());
            assert forall|k: Seq<u8>| after@.contains_key(k) implies want.contains_key(k)
                && after@[k] == want[k] by {
                let i = after.lemma_key(k);
                after.lemma_entry(i);
                if found && i >= at {
                    before.lemma_entry(i + 1);
                } else {
                    before.lemma_entry(i);
                }
            }
            assert forall|k: Seq<u8>| want.contains_key(k) implies after@.contains_key(k) by {
                let i = before.lemma_key(k);
                if found && i > at {
                    assert(ns[i - 1] == k);
                    after.lemma_entry(i - 1);
                } else {
                    assert(ns[i] == k);
                    after.lemma_entry(i);
                }
            }
            assert(after@ =~= want);
        }
        self.entries = entries;
    }

    proof fn lemma_forward_run(self, prefix: Seq<u8>, start: Seq<u8>, at: int)
        requires
            self.sorted(),
            0 <= at <= self.entries@.len(),
            start.len() == 0 ==> (forall|i: int|
                0 <= i < at ==> order::lt(#[trigger] self.keys()[i], prefix)),
            start.len() == 0 ==> (forall|i: int|
                at <= i < self.entries@.len() ==> !order::lt(#[trigger] self.keys()[i], prefix)),
            start.len() > 0 ==> (forall|i: int|
                0 <= i < at ==> !order::lt(start, #[trigger] self.keys()[i])),
            start.len() > 0 ==> (forall|i: int|
                at <= i < self.entries@.len() ==> order::lt(start, #[trigger] self.keys()[i])),
        ensures
            order::ordered(run_after(self@, prefix, start)) == self.keys().subrange(
                at,
                run_end(self.keys(), prefix, at),
            ),
    {
        let ks = self.keys();
        let e = run_end(ks, prefix, at);
        lemma_run_end(ks, prefix, at);
        let run = ks.subrange(at, e);
        let want = run_after(self@, prefix, start);
        assert forall|i: int| 0 <= i < run.len() implies want.contains(#[trigger] run[i]) by {
            let k = ks[at + i];
            assert(run[i] == k);
            self.lemma_entry(at + i);
            if start.len() > 0 {
                assert forall|j: Seq<u8>| #[trigger]
                    self@.contains_key(j) && order::lt(start, j) && order::lt(j, k) implies
                    order::has_prefix(j, prefix) by {
                    let x = self.lemma_key(j);
                    if x >= at + i {
                        if x == at + i {
                            order::lemma_lt_irreflexive(j);
                        } else {
                            assert(order::lt(ks[at + i], ks[x]));
                            order::lemma_lt_asymmetric(j, k);
                        }
                    }
                    assert(at <= x);
                }
            }
        }
        assert forall|k: Seq<u8>| #[trigger] want.contains(k) implies run.contains(k) by {
            let x = self.lemma_key(k);
            if x < at {
                order::lemma_prefix_not_after(k, prefix);
            }
            if x >= e {
                let f = ks[e];
                if e < x {
                    assert(order::lt(f, k));
                    self.lemma_entry(e);
                    if start.len() == 0 {
                        order::lemma_lt_total(prefix, f);
                        assert(prefix.subrange(0, prefix.len() as int) =~= prefix);
                        order::lemma_prefix_contiguous(prefix, prefix, f, k);
                    }
                }
            }
            assert(run[x - at] == k);
        }
        assert(order::ascending(run)) by {
            assert forall|i: int, j: int| 0 <= i < j < run.len() implies order::lt(
                #[trigger] run[i],
                #[trigger] run[j],
            ) by {
                assert(order::lt(ks[at + i], ks[at + j]));
            }
        }
        order::lemma_ordered(run, want);
    }

    proof fn lemma_backward_run(self, prefix: Seq<u8>, start: Seq<u8>, at: int)
        requires
            self.sorted(),
            0 <= at <= self.entries@.len(),
            start.len() == 0 ==> (forall|i: int|
                0 <= i < at ==> order::lt(#[trigger] self.keys()[i], prefix) || order::has_prefix(
                    self.keys()[i],
                    prefix,
                )),
            start.len() == 0 ==> (forall|i: int|
                at <= i < self.entries@.len() ==> !order::has_prefix(
                    #[trigger] self.keys()[i],
                    prefix,
                )),
            start.len() > 0 ==> (forall|i: int|
                0 <= i < at ==> order::lt(#[trigger] self.keys()[i], start)),
            start.len() > 0 ==> (forall|i: int|
                at <= i < self.entries@.len() ==> !order::lt(#[trigger] self.keys()[i], start)),
        ensures
            order::ordered(run_before(self@, prefix, start)) == self.keys().subrange(
                run_start(self.keys(), prefix, at),
                at,
            ),
    {
        let ks = self.keys();
        let b = run_start(ks, prefix, at);
        lemma_run_start(ks, prefix, at);
        let run = ks.subrange(b, at);
        let want = run_before(self@, prefix, start);
        assert forall|i: int| 0 <= i < run.len() implies want.contains(#[trigger] run[i]) by {
            let k = ks[b + i];
            assert(run[i] == k);
            self.lemma_entry(b + i);
            if start.len() > 0 {
                assert forall|j: Seq<u8>| #[trigger]
                    self@.contains_key(j) && order::lt(j, start) && order::lt(k, j) implies
                    order::has_prefix(j, prefix) by {
                    let x = self.lemma_key(j);
                    if x <= b + i {
                        if x == b + i {
                            order::lemma_lt_irreflexive(j);
                        } else {
                            assert(order::lt(ks[x], ks[b + i]));
                            order::lemma_lt_asymmetric(k, j);
                        }
                    }
                    assert(x < at);
                }
            }
        }
        assert forall|k: Seq<u8>| #[trigger] want.contains(k) implies run.contains(k) by {
            let x = self.lemma_key(k);
            assert(x < at);
            if x < b {
                let f = ks[b - 1];
                if x < b - 1 {
                    assert(order::lt(k, f));
                    self.lemma_entry(b - 1);
                    if start.len() == 0 {
                        assert(order::lt(f, prefix));
                        order::lemma_lt_transitive(k, f, prefix);
                        order::lemma_prefix_not_after(k, prefix);
                    }
                }
            }
            assert(run[x - b] == k);
        }
        assert(order::ascending(run)) by {
            assert forall|i: int, j: int| 0 <= i < j < run.len() implies order::lt(
                #[trigger] run[i],
                #[trigger] run[j],
            ) by {
                assert(order::lt(ks[b + i], ks[b + j]));
            }
        }
        order::lemma_ordered(run, want);
    }

    /// A page of the keys behind `start_key` with the given prefix.
    pub fn page(&self, prefix: &[u8], start_key: &[u8], limit: usize) -> (r: Page)
        ensures
            page_view(r) == forward_page(self@, prefix@, start_key@, limit as nat),
    {
        proof {
            use_type_invariant(self);
        }
        let at: usize;
        if start_key.len() == 0 {
            let (place, _found) = self.find(prefix);
            at = place;
            proof {
                order::lemma_lt_irreflexive(prefix@);
                assert forall|i: int| at <= i < self.entries@.len() implies !order::lt(
                    #[trigger] self.keys()[i],
                    prefix@,
                ) by {
                    if order::lt(prefix@, self.keys()[i]) {
                        order::lemma_lt_asymmetric(prefix@, self.keys()[i]);
                    }
                }
            }
        } else {
            let (place, found) = self.find(start_key);
            if found {
                proof {
                    assert(place < self.entries.len());
                }
                at = place + 1;
            } else {
                at = place;
            }
            proof {
                order::lemma_lt_irreflexive(start_key@);
                assert forall|i: int| 0 <= i < at implies !order::lt(
                    start_key@,
                    #[trigger] self.keys()[i],
                ) by {
                    if i < place {
                        order::lemma_lt_asymmetric(self.keys()[i], start_key@);
                    }
                }
            }
        }
        let ghost ks = self.keys();
        let ghost e = run_end(ks, prefix@, at as int);
        let ghost run = ks.subrange(at as int, e);
        proof {
            self.lemma_forward_run(prefix@, start_key@, at as int);
            lemma_run_end(ks, prefix@, at as int);
        }
        let mut items: Vec<(Vec<u8>, Vec<u8>)> = Vec::new();
        let mut i: usize = at;
        while i < self.entries.len() && i - at < limit && order::begins_with(
            &self.entries[i].0,
            prefix,
        )
            invariant
                self.sorted(),
                ks == self.keys(),
                run == ks.subrange(at as int, e),
                at <= i <= e <= self.entries@.len(),
                e == run_end(ks, prefix@, at as int),
                forall|j: int| at <= j < e ==> order::has_prefix(#[trigger] ks[j], prefix@),
                e < ks.len() ==> !order::has_prefix(ks[e], prefix@),
                i - at <= limit,
                pairs_of(items@) =~= entries_at(self@, run.take(i - at)),
            decreases self.entries.len() - i,
        {
            proof {
                assert(ks[i as int] == self.entries@[i as int].0@);
                assert(i < e);
                self.lemma_entry(i as int);
            }
            let ghost done = items@;
            items.push((encoding::copy(&self.entries[i].0), encoding::copy(&self.entries[i].1)));
            proof {
                let next = (ks[i as int], self@[ks[i as int]]);
                assert(pairs_of(items@) =~= pairs_of(done).push(next));
                assert(run[i - at] == ks[i as int]);
                assert(entries_at(self@, run.take(i + 1 - at)) =~= entries_at(
                    self@,
                    run.take(i - at),
                ).push(next));
            }
            i = i + 1;
        }
        proof {
            if i < e && i < self.entries@.len() {
                assert(order::has_prefix(ks[i as int], prefix@));
            }
            assert(i == e || i - at == limit);
            assert(run.take(i - at).len() == i - at);
            assert(i - at == page_len(run.len(), limit as nat));
        }
        if i < self.entries.len() && order::begins_with(&self.entries[i].0, prefix) && i > at {
            proof {
                assert(ks[i as int] == self.entries@[i as int].0@);
                assert(i < e);
                assert(run[i - at - 1] == self.entries@[i - 1].0@);
            }
            let next = encoding::copy(&self.entries[i - 1].0);
            (items, Some(next))
        } else {
            proof {
                if i < e {
                    assert(order::has_prefix(ks[i as int], prefix@));
                }
            }
            (items, None)
        }
    }

    /// The place behind the last key that has the prefix or stands before it.
    fn behind_prefix(&self, prefix: &[u8]) -> (at: usize)
        requires
            self.sorted(),
        ensures
            at <= self.entries@.len(),
            forall|i: int|
                0 <= i < at ==> order::lt(#[trigger] self.keys()[i], prefix@) || order::has_prefix(
                    self.keys()[i],
                    prefix@,
                ),
            forall|i: int|
                at <= i < self.entries@.len() ==> !order::has_prefix(
                    #[trigger] self.keys()[i],
                    prefix@,
                ),
    {
        let mut lo: usize = 0;
        let mut hi: usize = self.entries.len();
        let ghost ks = self.keys();
        while lo < hi
            invariant
                lo <= hi <= self.entries@.len(),
                ks == self.keys(),
                order::ascending(ks),
                forall|i: int|
                    0 <= i < lo ==> order::lt(#[trigger] ks[i], prefix@) || order::has_prefix(
                        ks[i],
                        prefix@,
                    ),
                forall|i: int|
                    hi <= i < ks.len() ==> !order::has_prefix(#[trigger] ks[i], prefix@),
            decreases hi - lo,
        {
            let mid: usize = lo + (hi - lo) / 2;
            proof {
                assert(ks[mid as int] == self.entries@[mid as int].0@);
                assert(prefix@.subrange(0, prefix@.len() as int) =~= prefix@);
            }
            let low = match order::relate(&self.entries[mid].0, prefix) {
                Rel::Before => true,
                _ => order::begins_with(&self.entries[mid].0, prefix),
            };
            if low {
                proof {
                    assert forall|i: int| 0 <= i < mid + 1 implies order::lt(
                        #[trigger] ks[i],
                        prefix@,
                    ) || order::has_prefix(ks[i], prefix@) by {
                        if i < mid {
                            assert(order::lt(ks[i], ks[mid as int]));
                            if order::lt(ks[mid as int], prefix@) {
                                order::lemma_lt_transitive(ks[i], ks[mid as int], prefix@);
                            } else {
                                order::lemma_lt_total(ks[i], prefix@);
                                if order::lt(prefix@, ks[i]) {
                                    order::lemma_prefix_contiguous(
                                        prefix@,
                                        prefix@,
                                        ks[i],
                                        ks[mid as int],
                                    );
                                }
                            }
                        }
                    }
                }
                lo = mid + 1;
            } else {
                proof {
                    assert forall|i: int| mid <= i < ks.len() implies !order::has_prefix(
                        #[trigger] ks[i],
                        prefix@,
                    ) by {
                        if mid < i && order::has_prefix(ks[i], prefix@) {
                            assert(order::lt(ks[mid as int], ks[i]));
                            order::lemma_lt_total(ks[mid as int], prefix@);
                            order::lemma_prefix_contiguous(
                                prefix@,
                                prefix@,
                                ks[mid as int],
                                ks[i],
                            );
                        }
                    }
                }
                hi = mid;
            }
        }
        lo
    }

    /// A page of the keys before `start_key` with the given prefix, from the
    /// greatest down.
    pub fn page_reverse(&self, prefix: &[u8], start_key: &[u8], limit: usize) -> (r: Page)
        ensures
            page_view(r) == backward_page(self@, prefix@, start_key@, limit as nat),
    {
        proof {
            use_type_invariant(self);
        }
        let at: usize;
        if start_key.len() == 0 {
            at = self.behind_prefix(prefix);
        } else {
            let (place, _found) = self.find(start_key);
            at = place;
            proof {
                order::lemma_lt_irreflexive(start_key@);
                assert forall|i: int| at <= i < self.entries@.len() implies !order::lt(
                    #[trigger] self.keys()[i],
                    start_key@,
                ) by {
                    if order::lt(start_key@, self.keys()[i]) {
                        order::lemma_lt_asymmetric(start_key@, self.keys()[i]);
                    }
                }
            }
        }
        let ghost ks = self.keys();
        let ghost b = run_start(ks, prefix@, at as int);
        let ghost run = ks.subrange(b, at as int).reverse();
        proof {
            self.lemma_backward_run(prefix@, start_key@, at as int);
            lemma_run_start(ks, prefix@, at as int);
        }
        let mut items: Vec<(Vec<u8>, Vec<u8>)> = Vec::new();
        let mut i: usize = at;
        while i > 0 && at - i < limit && order::begins_with(&self.entries[i - 1].0, prefix)
            invariant
                self.sorted(),
                ks == self.keys(),
                run == ks.subrange(b, at as int).reverse(),
                0 <= b <= i <= at <= self.entries@.len(),
                forall|j: int| b <= j < at ==> order::has_prefix(#[trigger] ks[j], prefix@),
                b > 0 ==> !order::has_prefix(ks[b - 1], prefix@),
                at - i <= limit,
                pairs_of(items@) =~= entries_at(self@, run.take(at - i)),
            decreases i,
        {
            proof {
                assert(ks[i - 1] == self.entries@[i - 1].0@);
                assert(b < i);
                self.lemma_entry(i - 1);
                assert(run[at - i] == ks[i - 1]);
            }
            let ghost done = items@;
            items.push(
                (encoding::copy(&self.entries[i - 1].0), encoding::copy(&self.entries[i - 1].1)),
            );
            proof {
                let next = (ks[i - 1], self@[ks[i - 1]]);
                assert(pairs_of(items@) =~= pairs_of(done).push(next));
                assert(entries_at(self@, run.take(at - i + 1)) =~= entries_at(
                    self@,
                    run.take(at - i),
                ).push(next));
            }
            i = i - 1;
        }
        proof {
            if b < i {
                assert(order::has_prefix(ks[i - 1], prefix@));
                assert(ks[i - 1] == self.entries@[i - 1].0@);
            }
            assert(i == b || at - i == limit);
            assert(run.take(at - i).len() == at - i);
            assert(at - i == page_len(run.len(), limit as nat));
        }
        if i > 0 && order::begins_with(&self.entries[i - 1].0, prefix) && i < at {
            proof {
                assert(ks[i - 1] == self.entries@[i - 1].0@);
                assert(b < i);
                assert(run[at - i - 1] == self.entries@[i as int].0@);
            }
            let next = encoding::copy(&self.entries[i].0);
            (items, Some(next))
        } else {
            (items, None)
        }
    }
}

} // verus!
