//! The order of byte strings: bytewise, a proper prefix first.
//!
//! Every table keeps its keys in this order, and every scan returns keys in
//! it, so the definitions here are what the results of range commands are
//! stated in.

use vstd::prelude::*;

verus! {

/// `a` stands strictly before `b`.
pub open spec fn lt(a: Seq<u8>, b: Seq<u8>) -> bool
    decreases a.len(),
{
    if b.len() == 0 {
        false
    } else if a.len() == 0 {
        true
    } else if a[0] != b[0] {
        a[0] < b[0]
    } else {
        lt(a.drop_first(), b.drop_first())
    }
}

/// `k` begins with `prefix`.
pub open spec fn has_prefix(k: Seq<u8>, prefix: Seq<u8>) -> bool {
    prefix.len() <= k.len() && k.subrange(0, prefix.len() as int) == prefix
}

/// The keys of `s` come in strictly ascending order.
pub open spec fn ascending(s: Seq<Seq<u8>>) -> bool {
    forall|i: int, j: int| 0 <= i < j < s.len() ==> lt(#[trigger] s[i], #[trigger] s[j])
}

/// `s` names every key of `set` once, in ascending order.
pub open spec fn lists(s: Seq<Seq<u8>>, set: Set<Seq<u8>>) -> bool {
    &&& ascending(s)
    &&& forall|i: int| 0 <= i < s.len() ==> set.contains(#[trigger] s[i])
    &&& forall|k: Seq<u8>| #[trigger] set.contains(k) ==> s.contains(k)
}

/// The keys of a set in ascending order.
pub open spec fn ordered(set: Set<Seq<u8>>) -> Seq<Seq<u8>> {
    choose|s: Seq<Seq<u8>>| lists(s, set)
}

/// How two byte strings stand to each other.
#[derive(Debug, Clone, Copy, PartialEq, Eq, Structural)]
pub enum Rel {
    Before,
    Same,
    After,
}

/// No byte string stands before itself.
pub proof fn lemma_lt_irreflexive(a: Seq<u8>)
    ensures
        !lt(a, a),
    decreases a.len(),
{
    if a.len() > 0 {
        lemma_lt_irreflexive(a.drop_first());
    }
}

/// Of two different byte strings one stands before the other.
pub proof fn lemma_lt_total(a: Seq<u8>, b: Seq<u8>)
    ensures
        a == b || lt(a, b) || lt(b, a),
    decreases a.len(),
{
    if a.len() == 0 || b.len() == 0 {
        if a.len() == 0 && b.len() == 0 {
            assert(a =~= b);
        }
    } else if a[0] == b[0] {
        lemma_lt_total(a.drop_first(), b.drop_first());
        if a.drop_first() == b.drop_first() {
            assert(a =~= seq![a[0]] + a.drop_first());
            assert(b =~= seq![b[0]] + b.drop_first());
        }
    }
}

/// The order is transitive.
pub proof fn lemma_lt_transitive(a: Seq<u8>, b: Seq<u8>, c: Seq<u8>)
    requires
        lt(a, b),
        lt(b, c),
    ensures
        lt(a, c),
    decreases a.len(),
{
    if a.len() > 0 && a[0] == b[0] && b[0] == c[0] {
        lemma_lt_transitive(a.drop_first(), b.drop_first(), c.drop_first());
    }
}

/// Two byte strings cannot stand before each other.
pub proof fn lemma_lt_asymmetric(a: Seq<u8>, b: Seq<u8>)
    requires
        lt(a, b),
    ensures
        !lt(b, a),
        a != b,
{
    if lt(b, a) {
        lemma_lt_transitive(a, b, a);
    }
    lemma_lt_irreflexive(a);
}

/// A common prefix does not change how two byte strings are ordered.
pub proof fn lemma_lt_common_prefix(p: Seq<u8>, a: Seq<u8>, b: Seq<u8>)
    ensures
        lt(p + a, p + b) == lt(a, b),
    decreases p.len(),
{
    if p.len() == 0 {
        assert(p + a =~= a);
        assert(p + b =~= b);
    } else {
        assert((p + a).drop_first() =~= p.drop_first() + a);
        assert((p + b).drop_first() =~= p.drop_first() + b);
        lemma_lt_common_prefix(p.drop_first(), a, b);
    }
}

/// The keys with one prefix stand together: what lies between two of them has
/// the prefix too.
pub proof fn lemma_prefix_contiguous(p: Seq<u8>, a: Seq<u8>, b: Seq<u8>, c: Seq<u8>)
    requires
        has_prefix(a, p),
        has_prefix(c, p),
        lt(a, b),
        lt(b, c),
    ensures
        has_prefix(b, p),
    decreases p.len(),
{
    if p.len() == 0 {
        assert(b.subrange(0, 0) =~= p);
    } else {
        let pl = p.len() as int;
        assert(a[0] == p[0]) by {
            assert(a.subrange(0, pl)[0] == a[0]);
        }
        assert(c[0] == p[0]) by {
            assert(c.subrange(0, pl)[0] == c[0]);
        }
        assert(b.len() > 0);
        assert(b[0] == p[0]);
        assert(a.drop_first().subrange(0, pl - 1) =~= a.subrange(0, pl).drop_first());
        assert(c.drop_first().subrange(0, pl - 1) =~= c.subrange(0, pl).drop_first());
        lemma_prefix_contiguous(p.drop_first(), a.drop_first(), b.drop_first(), c.drop_first());
        assert(b.subrange(0, pl) =~= seq![b[0]] + b.drop_first().subrange(0, pl - 1));
        assert(p =~= seq![p[0]] + p.drop_first());
    }
}

/// A key with a prefix never stands before the prefix itself.
pub proof fn lemma_prefix_not_after(k: Seq<u8>, p: Seq<u8>)
    requires
        has_prefix(k, p),
    ensures
        !lt(k, p),
    decreases p.len(),
{
    if p.len() > 0 {
        let pl = p.len() as int;
        assert(k[0] == p[0]) by {
            assert(k.subrange(0, pl)[0] == k[0]);
        }
        assert(k.drop_first().subrange(0, pl - 1) =~= k.subrange(0, pl).drop_first());
        lemma_prefix_not_after(k.drop_first(), p.drop_first());
    }
}

/// Appending to a prefix and cutting the prefix off again.
pub proof fn lemma_prefix_append(p: Seq<u8>, x: Seq<u8>)
    ensures
        has_prefix(p + x, p),
        (p + x).skip(p.len() as int) == x,
{
    assert((p + x).subrange(0, p.len() as int) =~= p);
    assert((p + x).skip(p.len() as int) =~= x);
}

/// Cutting a prefix off and putting it back.
pub proof fn lemma_prefix_split(k: Seq<u8>, p: Seq<u8>)
    requires
        has_prefix(k, p),
    ensures
        p + k.skip(p.len() as int) == k,
{
    assert(p + k.skip(p.len() as int) =~= k);
}

/// A set has at most one ordered listing.
pub proof fn lemma_lists_unique(s: Seq<Seq<u8>>, t: Seq<Seq<u8>>, set: Set<Seq<u8>>)
    requires
        lists(s, set),
        lists(t, set),
    ensures
        s == t,
    decreases s.len(),
{
    if s.len() == 0 {
        if t.len() > 0 {
            assert(set.contains(t[0]));
            assert(s.contains(t[0]));
        }
        assert(s =~= t);
    } else {
        assert(set.contains(s[0]));
        assert(t.contains(s[0]));
        let m = s.last();
        let n = t.last();
        assert(set.contains(m) && set.contains(n));
        assert(s.contains(n) && t.contains(m));
        let i = choose|i: int| 0 <= i < s.len() && s[i] == n;
        let j = choose|j: int| 0 <= j < t.len() && t[j] == m;
        if m != n {
            assert(lt(s[i], s[s.len() - 1]));
            assert(lt(t[j], t[t.len() - 1]));
            lemma_lt_asymmetric(n, m);
        }
        let rest = set.remove(m);
        lemma_lists_drop_last(s, set);
        lemma_lists_drop_last(t, set);
        lemma_lists_unique(s.drop_last(), t.drop_last(), rest);
        assert(s =~= s.drop_last().push(m));
        assert(t =~= t.drop_last().push(m));
    }
}

proof fn lemma_lists_drop_last(s: Seq<Seq<u8>>, set: Set<Seq<u8>>)
    requires
        lists(s, set),
        s.len() > 0,
    ensures
        lists(s.drop_last(), set.remove(s.last())),
{
    let rest = set.remove(s.last());
    let u = s.drop_last();
    assert forall|i: int| 0 <= i < u.len() implies rest.contains(#[trigger] u[i]) by {
        assert(lt(s[i], s[s.len() - 1]));
        lemma_lt_asymmetric(s[i], s.last());
    }
    assert forall|k: Seq<u8>| #[trigger] rest.contains(k) implies u.contains(k) by {
        assert(s.contains(k));
        let i = choose|i: int| 0 <= i < s.len() && s[i] == k;
        assert(u[i] == k);
    }
}

/// A listing of a set is its `ordered` sequence.
pub proof fn lemma_ordered(s: Seq<Seq<u8>>, set: Set<Seq<u8>>)
    requires
        lists(s, set),
    ensures
        ordered(set) == s,
{
    lemma_lists_unique(ordered(set), s, set);
}

proof fn lemma_position(s: Seq<Seq<u8>>, x: Seq<u8>) -> (p: int)
    requires
        ascending(s),
        !s.contains(x),
    ensures
        0 <= p <= s.len(),
        forall|i: int| 0 <= i < p ==> lt(#[trigger] s[i], x),
        forall|i: int| p <= i < s.len() ==> lt(x, #[trigger] s[i]),
    decreases s.len(),
{
    if s.len() == 0 {
        0
    } else {
        let m = s.last();
        assert(s[s.len() - 1] == m);
        lemma_lt_total(x, m);
        if lt(m, x) {
            assert forall|i: int| 0 <= i < s.len() implies lt(#[trigger] s[i], x) by {
                if i < s.len() - 1 {
                    assert(lt(s[i], s[s.len() - 1]));
                    lemma_lt_transitive(s[i], m, x);
                }
            }
            s.len() as int
        } else {
            let t = s.drop_last();
            assert(!t.contains(x)) by {
                if t.contains(x) {
                    let i = choose|i: int| 0 <= i < t.len() && t[i] == x;
                    assert(s[i] == x);
                }
            }
            let p = lemma_position(t, x);
            assert forall|i: int| p <= i < s.len() implies lt(x, #[trigger] s[i]) by {
                if i < t.len() {
                    assert(lt(x, t[i]));
                }
            }
            assert forall|i: int| 0 <= i < p implies lt(#[trigger] s[i], x) by {
                assert(lt(t[i], x));
            }
            p
        }
    }
}

/// Every finite set has an ordered listing.
pub proof fn lemma_ordered_exists(set: Set<Seq<u8>>)
    requires
        set.finite(),
    ensures
        lists(ordered(set), set),
    decreases set.len(),
{
    if set.is_empty() {
        let e = Seq::<Seq<u8>>::empty();
        assert(lists(e, set)) by {
            assert forall|k: Seq<u8>| #[trigger] set.contains(k) implies e.contains(k) by {
                assert(set =~= Set::empty());
            }
        }
        lemma_ordered(e, set);
    } else {
        let x = set.choose();
        let rest = set.remove(x);
        lemma_ordered_exists(rest);
        let s = ordered(rest);
        assert(!s.contains(x)) by {
            if s.contains(x) {
                let i = choose|i: int| 0 <= i < s.len() && s[i] == x;
                assert(rest.contains(s[i]));
            }
        }
        let p = lemma_position(s, x);
        let t = s.insert(p, x);
        assert(lists(t, set)) by {
            assert forall|i: int, j: int| 0 <= i < j < t.len() implies lt(
                #[trigger] t[i],
                #[trigger] t[j],
            ) by {
                let i2 = if i < p { i } else { i - 1 };
                let j2 = if j < p { j } else { j - 1 };
                if i != p && j != p {
                    assert(t[i] == s[i2] && t[j] == s[j2]);
                } else if i == p {
                    assert(t[j] == s[j2]);
                } else {
                    assert(t[i] == s[i2]);
                }
            }
            assert forall|i: int| 0 <= i < t.len() implies set.contains(#[trigger] t[i]) by {
                if i < p {
                    assert(rest.contains(s[i]));
                } else if i > p {
                    assert(rest.contains(s[i - 1]));
                }
            }
            assert forall|k: Seq<u8>| #[trigger] set.contains(k) implies t.contains(k) by {
                if k == x {
                    assert(t[p] == x);
                } else {
                    assert(rest.contains(k));
                    assert(s.contains(k));
                    let i = choose|i: int| 0 <= i < s.len() && s[i] == k;
                    if i < p {
                        assert(t[i] == k);
                    } else {
                        assert(t[i + 1] == k);
                    }
                }
            }
        }
        lemma_ordered(t, set);
    }
}

/// A listing of a finite set is as long as the set is large.
pub proof fn lemma_lists_len(s: Seq<Seq<u8>>, set: Set<Seq<u8>>)
    requires
        lists(s, set),
    ensures
        set.finite(),
        s.len() == set.len(),
{
    assert(s.no_duplicates()) by {
        assert forall|i: int, j: int|
            0 <= i < s.len() && 0 <= j < s.len() && i != j implies s[i] != s[j] by {
            if s[i] == s[j] {
                lemma_ascending_injective(s, i, j);
            }
        }
    }
    assert(s.to_set() =~= set) by {
        assert forall|k: Seq<u8>| s.to_set().contains(k) implies set.contains(k) by {
            let i = choose|i: int| 0 <= i < s.len() && s[i] == k;
            assert(set.contains(s[i]));
        }
    }
    vstd::seq_lib::seq_to_set_is_finite(s);
    s.unique_seq_to_set();
}

/// The first place from `i` on whose key satisfies `p`; the length if none
/// does.
pub open spec fn first_from(ks: Seq<Seq<u8>>, p: spec_fn(Seq<u8>) -> bool, i: int) -> int
    decreases ks.len() - i,
{
    if 0 <= i < ks.len() && !p(ks[i]) {
        first_from(ks, p, i + 1)
    } else {
        i
    }
}

pub proof fn lemma_first_bound(ks: Seq<Seq<u8>>, p: spec_fn(Seq<u8>) -> bool, i: int)
    requires
        0 <= i <= ks.len(),
    ensures
        i <= first_from(ks, p, i) <= ks.len(),
    decreases ks.len() - i,
{
    if i < ks.len() && !p(ks[i]) {
        lemma_first_bound(ks, p, i + 1);
    }
}

/// What follows two strings of one length does not change their order.
pub proof fn lemma_lt_extends(a: Seq<u8>, b: Seq<u8>, x: Seq<u8>, y: Seq<u8>)
    requires
        a.len() == b.len(),
        lt(a, b),
    ensures
        lt(a + x, b + y),
    decreases a.len(),
{
    if a.len() > 0 {
        assert((a + x).drop_first() =~= a.drop_first() + x);
        assert((b + y).drop_first() =~= b.drop_first() + y);
        if a[0] == b[0] {
            lemma_lt_extends(a.drop_first(), b.drop_first(), x, y);
        }
    }
}

/// An ascending sequence never repeats a key.
pub proof fn lemma_ascending_injective(s: Seq<Seq<u8>>, i: int, j: int)
    requires
        ascending(s),
        0 <= i < s.len(),
        0 <= j < s.len(),
        s[i] == s[j],
    ensures
        i == j,
{
    if i < j {
        lemma_lt_asymmetric(s[i], s[j]);
    } else if j < i {
        lemma_lt_asymmetric(s[j], s[i]);
    }
}

/// How `a` stands to `b`.
pub fn relate(a: &[u8], b: &[u8]) -> (r: Rel)
    ensures
        r == Rel::Before <==> lt(a@, b@),
        r == Rel::Same <==> a@ == b@,
        r == Rel::After <==> lt(b@, a@),
{
    let mut i: usize = 0;
    proof {
        assert(a@.skip(0) =~= a@);
        assert(b@.skip(0) =~= b@);
    }
    while i < a.len() && i < b.len()
        invariant
            i <= a@.len(),
            i <= b@.len(),
            a@.subrange(0, i as int) == b@.subrange(0, i as int),
            lt(a@, b@) == lt(a@.skip(i as int), b@.skip(i as int)),
            lt(b@, a@) == lt(b@.skip(i as int), a@.skip(i as int)),
        decreases a.len() - i,
    {
        let ghost x = a@.skip(i as int);
        let ghost y = b@.skip(i as int);
        proof {
            assert(x[0] == a@[i as int] && y[0] == b@[i as int]);
            assert(x.drop_first() =~= a@.skip(i + 1));
            assert(y.drop_first() =~= b@.skip(i + 1));
        }
        if a[i] < b[i] {
            proof {
                assert(lt(a@, b@));
                lemma_lt_asymmetric(a@, b@);
            }
            return Rel::Before;
        }
        if b[i] < a[i] {
            proof {
                assert(lt(b@, a@));
                lemma_lt_asymmetric(b@, a@);
            }
            return Rel::After;
        }
        proof {
            assert(a@.subrange(0, i + 1) =~= a@.subrange(0, i as int).push(a@[i as int]));
            assert(b@.subrange(0, i + 1) =~= b@.subrange(0, i as int).push(b@[i as int]));
        }
        i = i + 1;
    }
    proof {
        lemma_lt_total(a@, b@);
        lemma_lt_irreflexive(a@);
        if a@ == b@ {
        } else if lt(a@, b@) {
            lemma_lt_asymmetric(a@, b@);
        } else {
            lemma_lt_asymmetric(b@, a@);
        }
        if a@.len() == b@.len() {
            assert(a@.subrange(0, i as int) =~= a@);
            assert(b@.subrange(0, i as int) =~= b@);
        }
    }
    if i < b.len() {
        Rel::Before
    } else if i < a.len() {
        Rel::After
    } else {
        Rel::Same
    }
}

/// Whether two byte strings are equal.
pub fn same(a: &[u8], b: &[u8]) -> (r: bool)
    ensures
        r == (a@ == b@),
{
    match relate(a, b) {
        Rel::Same => true,
        _ => false,
    }
}

/// Whether `k` begins with `prefix`.
pub fn begins_with(k: &[u8], prefix: &[u8]) -> (r: bool)
    ensures
        r == has_prefix(k@, prefix@),
{
    if k.len() < prefix.len() {
        return false;
    }
    let mut i: usize = 0;
    while i < prefix.len()
        invariant
            i <= prefix@.len() <= k@.len(),
            forall|j: int| 0 <= j < i ==> k@[j] == prefix@[j],
        decreases prefix.len() - i,
    {
        if k[i] != prefix[i] {
            proof {
                assert(k@.subrange(0, prefix@.len() as int)[i as int] == k@[i as int]);
            }
            return false;
        }
        i = i + 1;
    }
    proof {
        assert(k@.subrange(0, prefix@.len() as int) =~= prefix@);
    }
    true
}

} // verus!
