//! Patterns in which signs stand for any text.
//!
//! An asterisk stands for any bytes, a question mark for one byte, and a list
//! in square brackets for one of its bytes, or one that is not in it behind a
//! caret; a dash in a list makes a range. A backslash takes the next byte as it
//! is. All other bytes stand for themselves.

use vstd::prelude::*;

verus! {

/// A list in square brackets, read from the place `i` on: whether the byte is
/// in it, and the place behind it. A list that nothing closes goes on to the
/// end of the pattern.
pub open spec fn in_list(p: Seq<u8>, i: int, b: u8) -> (bool, int)
    decreases p.len() - i,
{
    if i >= p.len() {
        (false, i)
    } else if p[i] == 93 {
        (false, i + 1)
    } else if p[i] == 92 && i + 1 < p.len() {
        let (hit, end) = in_list(p, i + 2, b);
        (p[i + 1] == b || hit, end)
    } else if i + 2 < p.len() && p[i + 1] == 45 {
        let (hit, end) = in_list(p, i + 3, b);
        (p[i] <= b <= p[i + 2] || p[i + 2] <= b <= p[i] || hit, end)
    } else {
        let (hit, end) = in_list(p, i + 1, b);
        (p[i] == b || hit, end)
    }
}

/// What stands for one byte at the place `i`, which is no asterisk: whether it
/// stands for the byte, and the place behind it.
pub open spec fn one(p: Seq<u8>, i: int, b: u8) -> (bool, int) {
    if p[i] == 63 {
        (true, i + 1)
    } else if p[i] == 91 {
        if i + 1 < p.len() && p[i + 1] == 94 {
            let (hit, end) = in_list(p, i + 2, b);
            (!hit, end)
        } else {
            in_list(p, i + 1, b)
        }
    } else if p[i] == 92 && i + 1 < p.len() {
        (p[i + 1] == b, i + 2)
    } else {
        (p[i] == b, i + 1)
    }
}

/// The pattern from the place `i` on stands for the text from `j` on.
pub open spec fn matches_from(p: Seq<u8>, i: int, t: Seq<u8>, j: int) -> bool
    decreases p.len() - i, t.len() - j,
{
    if i >= p.len() {
        j >= t.len()
    } else if p[i] == 42 {
        matches_from(p, i + 1, t, j) || (j < t.len() && matches_from(p, i, t, j + 1))
    } else if j >= t.len() {
        false
    } else {
        let (hit, end) = one(p, i, t[j]);
        hit && i < end <= p.len() && matches_from(p, end, t, j + 1)
    }
}

/// The pattern stands for the text.
pub open spec fn matches(p: Seq<u8>, t: Seq<u8>) -> bool {
    matches_from(p, 0, t, 0)
}

proof fn lemma_list_end(p: Seq<u8>, i: int, b: u8)
    requires
        i <= p.len(),
    ensures
        i <= in_list(p, i, b).1 <= p.len(),
    decreases p.len() - i,
{
    if i < p.len() && p[i] != 93 {
        lemma_list_end(p, i + 1, b);
        if i + 2 <= p.len() {
            lemma_list_end(p, i + 2, b);
        }
        if i + 3 <= p.len() {
            lemma_list_end(p, i + 3, b);
        }
    }
}

fn find_in_list(p: &[u8], start: usize, b: u8) -> (r: (bool, usize))
    requires
        start <= p@.len(),
    ensures
        r.0 == in_list(p@, start as int, b).0,
        r.1 == in_list(p@, start as int, b).1,
        start <= r.1 <= p@.len(),
{
    let mut hit = false;
    let mut i: usize = start;
    proof {
        lemma_list_end(p@, start as int, b);
        assert(p.len() == p@.len());
    }
    while i < p.len()
        invariant
            start <= i <= p@.len(),
            in_list(p@, start as int, b) == (
                hit || in_list(p@, i as int, b).0,
                in_list(p@, i as int, b).1,
            ),
            start <= in_list(p@, start as int, b).1 <= p@.len(),
        decreases p.len() - i,
    {
        if p[i] == 93 {
            return (hit, i + 1);
        }
        let left: usize = p.len() - i;
        if p[i] == 92 && left > 1 {
            hit = hit || p[i + 1] == b;
            i = i + 2;
        } else if left > 2 && p[i + 1] == 45 {
            let (x, y) = (p[i], p[i + 2]);
            hit = hit || (x <= b && b <= y) || (y <= b && b <= x);
            i = i + 3;
        } else {
            hit = hit || p[i] == b;
            i = i + 1;
        }
    }
    (hit, i)
}

fn find_one(p: &[u8], i: usize, b: u8) -> (r: (bool, usize))
    requires
        i < p@.len(),
    ensures
        r.0 == one(p@, i as int, b).0,
        r.1 == one(p@, i as int, b).1,
        i < r.1 <= p@.len(),
{
    let left: usize = p.len() - i;
    if p[i] == 63 {
        (true, i + 1)
    } else if p[i] == 91 {
        if left > 1 && p[i + 1] == 94 {
            let (hit, end) = find_in_list(p, i + 2, b);
            (!hit, end)
        } else {
            find_in_list(p, i + 1, b)
        }
    } else if p[i] == 92 && left > 1 {
        (p[i + 1] == b, i + 2)
    } else {
        (p[i] == b, i + 1)
    }
}

/// For every place of a text, and for its end, whether a pattern stands for the
/// text from there on.
struct Row {
    places: Vec<bool>,
    end: bool,
}

impl Row {
    spec fn tells(self, p: Seq<u8>, i: int, t: Seq<u8>) -> bool {
        &&& self.places@.len() == t.len()
        &&& forall|j: int|
            0 <= j < t.len() ==> #[trigger] self.places@[j] == matches_from(p, i, t, j)
        &&& self.end == matches_from(p, i, t, t.len() as int)
    }

    fn at(&self, j: usize) -> (r: bool)
        requires
            j <= self.places@.len(),
        ensures
            r == if j < self.places@.len() {
                self.places@[j as int]
            } else {
                self.end
            },
    {
        if j < self.places.len() {
            self.places[j]
        } else {
            self.end
        }
    }
}

/// The row of a place, by the rows of all places behind it, the last one
/// first.
fn next_row(p: &[u8], i: usize, t: &[u8], rows: &Vec<Row>) -> (row: Row)
    requires
        i < p@.len(),
        rows@.len() == p@.len() - i,
        forall|k: int| 0 <= k < rows@.len() ==> (#[trigger] rows@[k]).tells(p@, p@.len() - k, t@),
    ensures
        row.tells(p@, i as int, t@),
{
    let n: usize = t.len();
    let last: usize = p.len() - i - 1;
    proof {
        assert(rows@[last as int].tells(p@, i + 1, t@));
    }
    let end: bool = p[i] == 42 && rows[last].end;
    let mut row = Row { places: vec![false; n], end };
    let mut j: usize = n;
    while j > 0
        invariant
            i < p@.len(),
            n == t@.len(),
            j <= n,
            last == p@.len() - i - 1,
            row.places@.len() == n,
            row.end == matches_from(p@, i as int, t@, n as int),
            rows@.len() == p@.len() - i,
            forall|k: int|
                0 <= k < rows@.len() ==> (#[trigger] rows@[k]).tells(p@, p@.len() - k, t@),
            forall|x: int|
                j <= x < n ==> #[trigger] row.places@[x] == matches_from(p@, i as int, t@, x),
        decreases j,
    {
        j = j - 1;
        let ghost before = row.places@;
        let v: bool;
        if p[i] == 42 {
            proof {
                assert(rows@[last as int].tells(p@, i + 1, t@));
            }
            let skipped: bool = rows[last].at(j);
            v = skipped || row.at(j + 1);
        } else {
            let (hit, behind) = find_one(p, i, t[j]);
            let at: usize = p.len() - behind;
            proof {
                assert(rows@[at as int].tells(p@, behind as int, t@));
            }
            let rest: bool = rows[at].at(j + 1);
            v = hit && rest;
        }
        row.places.set(j, v);
        proof {
            assert(v == matches_from(p@, i as int, t@, j as int));
            assert forall|x: int| j <= x < n implies #[trigger] row.places@[x] == matches_from(
                p@,
                i as int,
                t@,
                x,
            ) by {
                if x > j {
                    assert(row.places@[x] == before[x]);
                }
            }
        }
    }
    row
}

/// Tells whether a pattern stands for a text.
pub fn glob(p: &[u8], t: &[u8]) -> (r: bool)
    ensures
        r == matches(p@, t@),
{
    let mut rows: Vec<Row> = Vec::new();
    let mut row = Row { places: vec![false; t.len()], end: true };
    let mut i: usize = p.len();
    proof {
        assert(p.len() == p@.len());
        assert(row.tells(p@, p@.len() as int, t@));
    }
    while i > 0
        invariant
            i <= p@.len(),
            rows@.len() == p@.len() - i,
            row.tells(p@, i as int, t@),
            forall|k: int|
                0 <= k < rows@.len() ==> (#[trigger] rows@[k]).tells(p@, p@.len() - k, t@),
        decreases i,
    {
        i = i - 1;
        rows.push(row);
        row = next_row(p, i, t, &rows);
    }
    row.at(0)
}

/// A pattern without signs stands for itself alone.
pub proof fn law_plain_patterns(p: Seq<u8>, t: Seq<u8>)
    requires
        forall|i: int|
            0 <= i < p.len() ==> (#[trigger] p[i]) != 42 && p[i] != 63 && p[i] != 91 && p[i] != 92,
    ensures
        matches(p, t) == (p == t),
{
    lemma_plain_from(p, t, 0);
    assert(p.skip(0) =~= p && t.skip(0) =~= t);
}

proof fn lemma_plain_from(p: Seq<u8>, t: Seq<u8>, i: int)
    requires
        0 <= i <= p.len(),
        i <= t.len(),
        forall|k: int|
            0 <= k < p.len() ==> (#[trigger] p[k]) != 42 && p[k] != 63 && p[k] != 91 && p[k] != 92,
    ensures
        matches_from(p, i, t, i) == (p.skip(i) == t.skip(i)),
    decreases p.len() - i,
{
    if i == p.len() || i == t.len() {
        assert((p.skip(i) == t.skip(i)) == (p.len() == t.len())) by {
            if p.len() == t.len() {
                assert(p.skip(i) =~= t.skip(i));
            } else {
                assert(p.skip(i).len() != t.skip(i).len());
            }
        }
    } else {
        lemma_plain_from(p, t, i + 1);
        if p.skip(i) == t.skip(i) {
            assert(p.skip(i)[0] == t.skip(i)[0]);
            assert(p.skip(i + 1) =~= p.skip(i).skip(1));
            assert(t.skip(i + 1) =~= t.skip(i).skip(1));
        }
        if p[i] == t[i] && p.skip(i + 1) == t.skip(i + 1) {
            assert(p.skip(i) =~= seq![p[i]] + p.skip(i + 1));
            assert(t.skip(i) =~= seq![t[i]] + t.skip(i + 1));
        }
    }
}

/// An asterisk stands for any text, the empty one, too.
pub proof fn law_asterisk(t: Seq<u8>)
    ensures
        matches(seq![42u8], t),
{
    lemma_asterisk_from(t, t.len());
}

proof fn lemma_asterisk_from(t: Seq<u8>, n: nat)
    requires
        n <= t.len(),
    ensures
        matches_from(seq![42u8], 0, t, t.len() - n),
    decreases n,
{
    reveal_with_fuel(matches_from, 2);
    if n > 0 {
        lemma_asterisk_from(t, (n - 1) as nat);
    }
}

proof fn lemma_list_shift(q: Seq<u8>, p: Seq<u8>, i: int, b: u8)
    requires
        0 <= i <= p.len(),
    ensures
        in_list(q + p, q.len() + i, b) == (in_list(p, i, b).0, q.len() + in_list(p, i, b).1),
    decreases p.len() - i,
{
    let w = q + p;
    let n = q.len() as int;
    if i < p.len() {
        assert(w[n + i] == p[i]);
        if i + 1 < p.len() {
            assert(w[n + i + 1] == p[i + 1]);
            lemma_list_shift(q, p, i + 2, b);
        }
        if i + 2 < p.len() {
            assert(w[n + i + 2] == p[i + 2]);
            lemma_list_shift(q, p, i + 3, b);
        }
        lemma_list_shift(q, p, i + 1, b);
    }
}

/// What stands behind something in a pattern and in a text does not depend on it.
#[verifier::rlimit(60)]
proof fn lemma_shift(q: Seq<u8>, p: Seq<u8>, i: int, u: Seq<u8>, t: Seq<u8>, j: int)
    requires
        0 <= i <= p.len(),
        0 <= j <= t.len(),
    ensures
        matches_from(q + p, q.len() + i, u + t, u.len() + j) == matches_from(p, i, t, j),
    decreases p.len() - i, t.len() - j,
{
    let (w, x) = (q + p, u + t);
    let (n, m) = (q.len() as int, u.len() as int);
    if i < p.len() {
        assert(w[n + i] == p[i]);
        if p[i] == 42 {
            lemma_shift(q, p, i + 1, u, t, j);
            if j < t.len() {
                lemma_shift(q, p, i, u, t, j + 1);
            }
        } else if j < t.len() {
            assert(x[m + j] == t[j]);
            if i + 1 < p.len() {
                assert(w[n + i + 1] == p[i + 1]);
                lemma_list_shift(q, p, i + 2, t[j]);
            }
            lemma_list_shift(q, p, i + 1, t[j]);
            lemma_list_end(p, i + 1, t[j]);
            let (hit, end) = one(p, i, t[j]);
            assert(one(w, n + i, x[m + j]) == (hit, n + end));
            if i < end <= p.len() {
                lemma_shift(q, p, end, u, t, j + 1);
            }
        }
    }
}

/// A pattern whose first sign, `q`, stands for one byte.
proof fn lemma_first_sign(q: Seq<u8>, p: Seq<u8>, t: Seq<u8>)
    requires
        q.len() > 0,
        q[0] != 42,
        t.len() > 0,
        one(q + p, 0, t[0]).1 == q.len(),
    ensures
        matches(q + p, t) == (one(q + p, 0, t[0]).0 && matches(p, t.skip(1))),
{
    let u = t.take(1);
    assert(u + t.skip(1) =~= t);
    lemma_shift(q, p, 0, u, t.skip(1), 0);
    assert((q + p)[0] == q[0]);
}

/// A question mark stands for any one byte, a backslash with a byte behind it for
/// that byte, and a byte that is no sign for itself. What follows in the pattern
/// stands for what follows in the text. None of them stands for no byte at all.
pub proof fn law_signs_for_one_byte(c: u8, p: Seq<u8>, t: Seq<u8>)
    ensures
        matches(seq![63u8] + p, t) == (t.len() > 0 && matches(p, t.skip(1))),
        matches(seq![92u8, c] + p, t) == (t.len() > 0 && t[0] == c && matches(p, t.skip(1))),
        c != 42 && c != 63 && c != 91 && c != 92 ==> matches(seq![c] + p, t) == (t.len() > 0 && t[0]
            == c && matches(p, t.skip(1))),
{
    let (x, y, z) = (seq![63u8], seq![92u8, c], seq![c]);
    assert((x + p)[0] == 63);
    assert((y + p)[0] == 92 && (y + p)[1] == c);
    assert((z + p)[0] == c);
    if t.len() > 0 {
        lemma_first_sign(x, p, t);
        lemma_first_sign(y, p, t);
        if c != 42 && c != 63 && c != 91 && c != 92 {
            lemma_first_sign(z, p, t);
        }
    }
}

/// An asterisk stands for any number of bytes, none among them: what follows in
/// the pattern must stand for the rest of the text behind some of its bytes.
pub proof fn law_asterisk_takes_any_bytes(p: Seq<u8>, t: Seq<u8>)
    ensures
        matches(seq![42u8] + p, t) <==> exists|k: int|
            0 <= k <= t.len() && #[trigger] matches(p, t.skip(k)),
{
    lemma_any_bytes(p, t, 0);
    if matches(seq![42u8] + p, t) {
        let k = choose|k: int| 0 <= k <= t.len() && #[trigger] matches(p, t.skip(k));
        assert(matches(p, t.skip(k)));
    }
}

proof fn lemma_any_bytes(p: Seq<u8>, t: Seq<u8>, j: int)
    requires
        0 <= j <= t.len(),
    ensures
        matches_from(seq![42u8] + p, 0, t, j) <==> exists|k: int|
            j <= k <= t.len() && #[trigger] matches(p, t.skip(k)),
    decreases t.len() - j,
{
    let w = seq![42u8] + p;
    assert(w[0] == 42);
    let u = t.take(j);
    assert(u + t.skip(j) =~= t);
    lemma_shift(seq![42u8], p, 0, u, t.skip(j), 0);
    assert(matches_from(w, 1, t, j) == matches(p, t.skip(j)));
    if j < t.len() {
        lemma_any_bytes(p, t, j + 1);
        if exists|k: int| j <= k <= t.len() && #[trigger] matches(p, t.skip(k)) {
            let k = choose|k: int| j <= k <= t.len() && #[trigger] matches(p, t.skip(k));
            if k > j {
                assert(matches(p, t.skip(k)));
            }
        }
        if matches_from(w, 0, t, j + 1) {
            let k = choose|k: int| j + 1 <= k <= t.len() && #[trigger] matches(p, t.skip(k));
            assert(j <= k <= t.len() && matches(p, t.skip(k)));
        }
    } else if matches(p, t.skip(j)) {
        assert(j <= j <= t.len() && matches(p, t.skip(j)));
    }
}

/// The bytes of a list are no signs of lists.
pub open spec fn plain_list(l: Seq<u8>) -> bool {
    forall|i: int|
        0 <= i < l.len() ==> (#[trigger] l[i]) != 93 && l[i] != 92 && l[i] != 45 && l[i] != 94
}

#[verifier::rlimit(60)]
proof fn lemma_plain_list(q: Seq<u8>, l: Seq<u8>, p: Seq<u8>, i: int, b: u8)
    requires
        plain_list(l),
        0 <= i <= l.len(),
    ensures
        in_list(q + l + seq![93u8] + p, q.len() + i, b) == (
            l.skip(i).contains(b),
            q.len() + l.len() as int + 1,
        ),
    decreases l.len() - i,
{
    let w = q + l + seq![93u8] + p;
    let n = q.len() as int;
    if i == l.len() {
        assert(w[n + i] == 93);
        assert(l.skip(i) =~= Seq::<u8>::empty());
    } else {
        assert(w[n + i] == l[i]);
        if i + 1 < l.len() {
            assert(w[n + i + 1] == l[i + 1]);
        } else {
            assert(w[n + i + 1] == 93);
        }
        lemma_plain_list(q, l, p, i + 1, b);
        assert(l.skip(i) =~= seq![l[i]] + l.skip(i + 1));
        let rest = l.skip(i + 1);
        let all = l.skip(i);
        if rest.contains(b) {
            assert(all[1 + rest.index_of(b)] == b);
        }
        if l[i] == b {
            assert(all[0] == b);
        }
        if all.contains(b) {
            let k = all.index_of(b);
            if k > 0 {
                assert(rest[k - 1] == b);
            }
        }
    }
}

/// A list in square brackets stands for one byte that is in it, with a caret
/// before its bytes for one that is not in it, and with a dash between two bytes
/// for one from the one to the other.
#[verifier::rlimit(60)]
pub proof fn law_lists(l: Seq<u8>, lo: u8, hi: u8, p: Seq<u8>, t: Seq<u8>)
    requires
        plain_list(l),
        lo != 93 && lo != 92 && lo != 94,
    ensures
        matches(seq![91u8] + l + seq![93u8] + p, t) == (t.len() > 0 && l.contains(t[0]) && matches(
            p,
            t.skip(1),
        )),
        matches(seq![91u8, 94u8] + l + seq![93u8] + p, t) == (t.len() > 0 && !l.contains(t[0])
            && matches(p, t.skip(1))),
        matches(seq![91u8, lo, 45u8, hi, 93u8] + p, t) == (t.len() > 0 && (lo <= t[0] <= hi || hi
            <= t[0] <= lo) && matches(p, t.skip(1))),
{
    let x = seq![91u8] + l + seq![93u8];
    let y = seq![91u8, 94u8] + l + seq![93u8];
    let z = seq![91u8, lo, 45u8, hi, 93u8];
    let (a, b, c) = (x + p, y + p, z + p);
    assert(a =~= seq![91u8] + l + seq![93u8] + p);
    assert(b =~= seq![91u8, 94u8] + l + seq![93u8] + p);
    assert(a[0] == 91 && b[0] == 91 && b[1] == 94);
    assert(c[0] == 91 && c[1] == lo && c[2] == 45 && c[3] == hi && c[4] == 93);
    if l.len() > 0 {
        assert(a[1] == l[0]);
    } else {
        assert(a[1] == 93);
    }
    if t.len() > 0 {
        assert(l.skip(0) =~= l);
        lemma_plain_list(seq![91u8], l, p, 0, t[0]);
        lemma_plain_list(seq![91u8, 94u8], l, p, 0, t[0]);
        reveal_with_fuel(in_list, 3);
        lemma_first_sign(x, p, t);
        lemma_first_sign(y, p, t);
        lemma_first_sign(z, p, t);
    }
}

} // verus!
