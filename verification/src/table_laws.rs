//! What holds of scans: what a page shows, and that pages put together show
//! everything once.

use crate::order;
use crate::table;
use crate::table::{Entries, PageView};
use vstd::prelude::*;

verus! {

/// A key lies in a scan: it has the prefix, and it lies behind the place where
/// the scan begins, or before it in a backward scan. An empty place stands for
/// the end from which the scan comes.
pub open spec fn in_scan(
    m: Entries,
    prefix: Seq<u8>,
    start: Seq<u8>,
    forward: bool,
    k: Seq<u8>,
) -> bool {
    &&& m.contains_key(k)
    &&& order::has_prefix(k, prefix)
    &&& start.len() == 0 || if forward {
        order::lt(start, k)
    } else {
        order::lt(k, start)
    }
}

/// A page of a scan in one of the directions.
pub open spec fn page_of(
    m: Entries,
    prefix: Seq<u8>,
    start: Seq<u8>,
    limit: nat,
    forward: bool,
) -> PageView {
    if forward {
        table::forward_page(m, prefix, start, limit)
    } else {
        table::backward_page(m, prefix, start, limit)
    }
}

/// The first key comes before the second in the direction of a scan.
pub open spec fn comes_before(a: Seq<u8>, b: Seq<u8>, forward: bool) -> bool {
    if forward {
        order::lt(a, b)
    } else {
        order::lt(b, a)
    }
}

/// The keys of a scan in its direction.
spec fn scan_keys(m: Entries, prefix: Seq<u8>, start: Seq<u8>, forward: bool) -> Seq<Seq<u8>> {
    if forward {
        order::ordered(table::run_after(m, prefix, start))
    } else {
        order::ordered(table::run_before(m, prefix, start)).reverse()
    }
}

#[verifier::rlimit(60)]
proof fn lemma_scan_keys(m: Entries, prefix: Seq<u8>, start: Seq<u8>, forward: bool)
    requires
        m.dom().finite(),
        start.len() == 0 || order::has_prefix(start, prefix),
    ensures
        ({
            let ks = scan_keys(m, prefix, start, forward);
            &&& forall|i: int, j: int|
                0 <= i < j < ks.len() ==> comes_before(#[trigger] ks[i], #[trigger] ks[j], forward)
            &&& forall|k: Seq<u8>| #[trigger]
                ks.contains(k) <==> in_scan(m, prefix, start, forward, k)
        }),
{
    table::lemma_runs_listed(m, prefix, start);
    let run = if forward {
        table::run_after(m, prefix, start)
    } else {
        table::run_before(m, prefix, start)
    };
    let listed = order::ordered(run);
    let ks = scan_keys(m, prefix, start, forward);
    assert forall|k: Seq<u8>| run.contains(k) == in_scan(m, prefix, start, forward, k) by {
        if in_scan(m, prefix, start, forward, k) && start.len() > 0 {
            if forward {
                assert forall|j: Seq<u8>| #[trigger]
                    m.contains_key(j) && order::lt(start, j) && order::lt(j, k) implies
                    order::has_prefix(j, prefix) by {
                    order::lemma_prefix_contiguous(prefix, start, j, k);
                }
            } else {
                assert forall|j: Seq<u8>| #[trigger]
                    m.contains_key(j) && order::lt(j, start) && order::lt(k, j) implies
                    order::has_prefix(j, prefix) by {
                    order::lemma_prefix_contiguous(prefix, k, j, start);
                }
            }
        }
    }
    assert forall|k: Seq<u8>| #[trigger] ks.contains(k) <==> in_scan(
        m,
        prefix,
        start,
        forward,
        k,
    ) by {
        if forward {
            if ks.contains(k) {
                assert(run.contains(ks[ks.index_of(k)]));
            }
            if run.contains(k) {
                assert(listed.contains(k));
            }
        } else {
            if ks.contains(k) {
                let i = ks.index_of(k);
                assert(listed[listed.len() - 1 - i] == k);
                assert(run.contains(listed[listed.len() - 1 - i]));
            }
            if run.contains(k) {
                assert(listed.contains(k));
                let i = listed.index_of(k);
                assert(ks[listed.len() - 1 - i] == k);
            }
        }
    }
    assert forall|i: int, j: int| 0 <= i < j < ks.len() implies comes_before(
        #[trigger] ks[i],
        #[trigger] ks[j],
        forward,
    ) by {
        if !forward {
            let n = listed.len() as int;
            assert(order::lt(listed[n - 1 - j], listed[n - 1 - i]));
        }
    }
}

/// A page shows at most as many entries as it may, each with its value, in the
/// direction of the scan. They are those that come first in the scan: a key of
/// the scan that is not shown comes behind all that are, and it is left out only
/// if the page is full. The page tells to go on from its last key exactly if such
/// a key is left.
#[verifier::rlimit(60)]
pub proof fn law_page(m: Entries, prefix: Seq<u8>, start: Seq<u8>, limit: nat, forward: bool)
    requires
        m.dom().finite(),
        start.len() == 0 || order::has_prefix(start, prefix),
    ensures
        ({
            let page = page_of(m, prefix, start, limit, forward);
            let items = page.items;
            &&& items.len() <= limit
            &&& forall|i: int|
                0 <= i < items.len() ==> in_scan(m, prefix, start, forward, (#[trigger] items[i]).0)
                    && items[i].1 == m[items[i].0]
            &&& forall|i: int, j: int|
                0 <= i < j < items.len() ==> comes_before(
                    (#[trigger] items[i]).0,
                    (#[trigger] items[j]).0,
                    forward,
                )
            &&& forall|k: Seq<u8>| #[trigger]
                in_scan(m, prefix, start, forward, k) ==> (exists|i: int|
                    0 <= i < items.len() && (#[trigger] items[i]).0 == k) || (items.len() == limit
                    && forall|i: int|
                    0 <= i < items.len() ==> comes_before((#[trigger] items[i]).0, k, forward))
            &&& page.next is Some ==> items.len() > 0 && page.next == Some(items.last().0)
            &&& limit > 0 ==> (page.next is Some <==> exists|k: Seq<u8>| #[trigger]
                in_scan(m, prefix, start, forward, k) && forall|i: int|
                    0 <= i < items.len() ==> (#[trigger] items[i]).0 != k)
        }),
{
    let ks = scan_keys(m, prefix, start, forward);
    lemma_scan_keys(m, prefix, start, forward);
    let page = page_of(m, prefix, start, limit, forward);
    let items = page.items;
    let n = table::page_len(ks.len(), limit) as int;
    assert(items.len() == n);
    assert forall|i: int| 0 <= i < n implies (#[trigger] items[i]).0 == ks[i] && items[i].1
        == m[ks[i]] by {}
    assert forall|i: int| 0 <= i < items.len() implies in_scan(
        m,
        prefix,
        start,
        forward,
        (#[trigger] items[i]).0,
    ) by {
        assert(ks.contains(ks[i]));
    }
    assert forall|k: Seq<u8>| #[trigger] in_scan(m, prefix, start, forward, k) implies (exists|
        i: int,
    |
        0 <= i < items.len() && (#[trigger] items[i]).0 == k) || (items.len() == limit && forall|
        i: int,
    |
        0 <= i < items.len() ==> comes_before((#[trigger] items[i]).0, k, forward)) by {
        assert(ks.contains(k));
        let j = ks.index_of(k);
        if j < n {
            assert(items[j].0 == k);
        } else {
            assert forall|i: int| 0 <= i < items.len() implies comes_before(
                (#[trigger] items[i]).0,
                k,
                forward,
            ) by {
                assert(comes_before(ks[i], ks[j], forward));
            }
        }
    }
    if limit > 0 {
        if page.next is Some {
            let k = ks[n];
            assert(ks.contains(k));
            assert(in_scan(m, prefix, start, forward, k));
            assert forall|i: int| 0 <= i < items.len() implies (#[trigger] items[i]).0 != k by {
                assert(comes_before(ks[i], ks[n], forward));
                order::lemma_lt_irreflexive(k);
            }
        }
        if exists|k: Seq<u8>| #[trigger]
            in_scan(m, prefix, start, forward, k) && forall|i: int|
                0 <= i < items.len() ==> (#[trigger] items[i]).0 != k {
            let k = choose|k: Seq<u8>| #[trigger]
                in_scan(m, prefix, start, forward, k) && forall|i: int|
                    0 <= i < items.len() ==> (#[trigger] items[i]).0 != k;
            assert(ks.contains(k));
            let j = ks.index_of(k);
            if j < n {
                assert(items[j].0 == k);
            }
        }
    }
}

/// What is shown from a place on, page by page, each one from where the one
/// before tells to go on. Nothing if `pages` pages are not enough.
pub open spec fn pages_from(
    m: Entries,
    prefix: Seq<u8>,
    start: Seq<u8>,
    limit: nat,
    forward: bool,
    pages: nat,
) -> Option<Seq<(Seq<u8>, Seq<u8>)>>
    decreases pages,
{
    if pages == 0 {
        None
    } else {
        let page = page_of(m, prefix, start, limit, forward);
        match page.next {
            None => Some(page.items),
            Some(k) => match pages_from(m, prefix, k, limit, forward, (pages - 1) as nat) {
                Some(rest) => Some(page.items + rest),
                None => None,
            },
        }
    }
}

/// A scan page by page, with any number of entries on a page, shows every entry
/// with the prefix once, forward in ascending order of the keys and backward in
/// descending order. The prefix must not be empty, for an empty key stands for
/// the start.
pub proof fn law_pages_show_everything(
    m: Entries,
    prefix: Seq<u8>,
    limit: nat,
    forward: bool,
    pages: nat,
)
    requires
        m.dom().finite(),
        prefix.len() > 0,
        limit > 0,
        pages > table::keys_with(m, prefix).len(),
    ensures
        ({
            let all = if forward {
                table::keys_with(m, prefix)
            } else {
                table::keys_with(m, prefix).reverse()
            };
            &&& pages_from(m, prefix, Seq::empty(), limit, forward, pages) == Some(
                table::entries_at(m, all),
            )
            &&& order::lists(table::keys_with(m, prefix), table::with_prefix(m, prefix))
        }),
{
    let none = Seq::<u8>::empty();
    table::lemma_runs_listed(m, prefix, none);
    let all = scan_keys(m, prefix, none, forward);
    lemma_pages(m, prefix, limit, forward, 0, pages);
    assert(all.skip(0) =~= all);
}

#[verifier::rlimit(60)]
proof fn lemma_pages(
    m: Entries,
    prefix: Seq<u8>,
    limit: nat,
    forward: bool,
    pos: int,
    pages: nat,
)
    requires
        m.dom().finite(),
        prefix.len() > 0,
        limit > 0,
        0 <= pos <= scan_keys(m, prefix, Seq::empty(), forward).len(),
        pages > scan_keys(m, prefix, Seq::empty(), forward).len() - pos,
    ensures
        ({
            let all = scan_keys(m, prefix, Seq::empty(), forward);
            let start = if pos == 0 {
                Seq::empty()
            } else {
                all[pos - 1]
            };
            pages_from(m, prefix, start, limit, forward, pages) == Some(
                table::entries_at(m, all.skip(pos)),
            )
        }),
    decreases pages,
{
    let none = Seq::<u8>::empty();
    let all = scan_keys(m, prefix, none, forward);
    let start = if pos == 0 {
        none
    } else {
        all[pos - 1]
    };
    lemma_scan_keys(m, prefix, none, forward);
    if pos > 0 {
        assert(all.contains(all[pos - 1]));
        assert(in_scan(m, prefix, none, forward, start));
        if forward {
            table::law_forward_pages_continue(m, prefix, none, pos);
        } else {
            let listed = order::ordered(table::run_before(m, prefix, none));
            let n = listed.len() as int;
            assert(listed[n - pos] == start);
            table::law_backward_pages_continue(m, prefix, none, n - pos);
            assert(listed.take(n - pos).reverse() =~= all.skip(pos));
        }
    } else {
        assert(all.skip(0) =~= all);
    }
    let ks = scan_keys(m, prefix, start, forward);
    assert(ks == all.skip(pos));
    let n = table::page_len(ks.len(), limit) as int;
    let page = page_of(m, prefix, start, limit, forward);
    if page.next is Some {
        assert(page.next == Some(all[pos + n - 1]));
        lemma_pages(m, prefix, limit, forward, pos + n, (pages - 1) as nat);
        assert(page.items + table::entries_at(m, all.skip(pos + n)) =~= table::entries_at(
            m,
            all.skip(pos),
        ));
    } else {
        assert(ks.take(n) =~= ks);
    }
}

} // verus!
