//! What holds of strings and of keys of any type, told by the replies of several
//! commands: how lists of keys are read and removed, what the options of SET do,
//! and how long a key lives.

use super::string;
use crate::cmd;
use crate::codec;
use crate::encoding;
use crate::error::ErrorView;
use crate::protocol::RespView;
use crate::storage::{Cf, StoreView};
use crate::text;
use vstd::prelude::*;

verus! {

/// The number that EXISTS replies.
pub open spec fn there(s: StoreView, ns: Seq<u8>, keys: Seq<Seq<u8>>, now_ms: i64) -> int {
    (string::exists_reply(s, ns, keys, now_ms)->Ok_0)->Integer_0 as int
}

/// The number that DEL replies.
pub open spec fn removed(s: StoreView, ns: Seq<u8>, keys: Seq<Seq<u8>>, now_ms: i64) -> int {
    (string::del_outcome(s, ns, keys, now_ms).reply->Ok_0)->Integer_0 as int
}

/// What GET replies.
pub open spec fn got(s: StoreView, ns: Seq<u8>, key: Seq<u8>, now_ms: i64) -> Result<
    RespView,
    ErrorView,
> {
    string::get_reply(s, ns, seq![key], now_ms)
}

/// The number that PTTL replies.
pub open spec fn millis_left(s: StoreView, ns: Seq<u8>, key: Seq<u8>, now_ms: i64) -> int {
    (string::ttl_reply(s, ns, seq![key], now_ms, "PTTL"@, false)->Ok_0)->Integer_0 as int
}

/// The number that TTL replies.
pub open spec fn seconds_left(s: StoreView, ns: Seq<u8>, key: Seq<u8>, now_ms: i64) -> int {
    (string::ttl_reply(s, ns, seq![key], now_ms, "TTL"@, true)->Ok_0)->Integer_0 as int
}

proof fn lemma_there(
    s: StoreView,
    ns: Seq<u8>,
    a: Seq<Seq<u8>>,
    b: Seq<Seq<u8>>,
    now_ms: i64,
    n: nat,
)
    requires
        n <= b.len(),
    ensures
        string::keys_there(s, ns, a + b, now_ms, a.len() + n) == string::keys_there(
            s,
            ns,
            a,
            now_ms,
            a.len(),
        ) + string::keys_there(s, ns, b, now_ms, n),
    decreases n,
{
    if n == 0 {
        lemma_there_same(s, ns, a, a + b, now_ms, a.len());
    } else {
        lemma_there(s, ns, a, b, now_ms, (n - 1) as nat);
        assert((a + b)[a.len() + n - 1] == b[n - 1]);
    }
}

proof fn lemma_there_same(
    s: StoreView,
    ns: Seq<u8>,
    a: Seq<Seq<u8>>,
    b: Seq<Seq<u8>>,
    now_ms: i64,
    n: nat,
)
    requires
        n <= a.len(),
        n <= b.len(),
        forall|i: int| 0 <= i < n ==> a[i] == b[i],
    ensures
        string::keys_there(s, ns, a, now_ms, n) == string::keys_there(s, ns, b, now_ms, n),
        string::keys_there(s, ns, a, now_ms, n) <= n,
    decreases n,
{
    if n > 0 {
        lemma_there_same(s, ns, a, b, now_ms, (n - 1) as nat);
    }
}

/// EXISTS of a list of keys replies the sum of what it replies for the parts of
/// the list, and so of what it replies for each key alone.
pub proof fn law_exists_is_a_sum(
    s: StoreView,
    ns: Seq<u8>,
    a: Seq<Seq<u8>>,
    b: Seq<Seq<u8>>,
    now_ms: i64,
)
    requires
        a.len() > 0,
        b.len() > 0,
        a.len() + b.len() <= i64::MAX,
    ensures
        string::exists_reply(s, ns, a + b, now_ms) == Ok::<_, ErrorView>(
            RespView::Integer((there(s, ns, a, now_ms) + there(s, ns, b, now_ms)) as i64),
        ),
        0 <= there(s, ns, a, now_ms) <= a.len(),
        0 <= there(s, ns, b, now_ms) <= b.len(),
{
    lemma_there(s, ns, a, b, now_ms, b.len());
    lemma_there_same(s, ns, a, a, now_ms, a.len());
    lemma_there_same(s, ns, b, b, now_ms, b.len());
}

/// The sum of what EXISTS replies for each of some keys alone.
pub open spec fn there_one_by_one(
    s: StoreView,
    ns: Seq<u8>,
    keys: Seq<Seq<u8>>,
    now_ms: i64,
) -> int
    decreases keys.len(),
{
    if keys.len() == 0 {
        0
    } else {
        there_one_by_one(s, ns, keys.drop_last(), now_ms) + there(
            s,
            ns,
            seq![keys.last()],
            now_ms,
        )
    }
}

/// EXISTS counts every key for itself, one that is named twice twice.
pub proof fn law_exists_counts_each_key(
    s: StoreView,
    ns: Seq<u8>,
    keys: Seq<Seq<u8>>,
    now_ms: i64,
)
    requires
        0 < keys.len() <= i64::MAX,
    ensures
        string::exists_reply(s, ns, keys, now_ms) == Ok::<_, ErrorView>(
            RespView::Integer(there_one_by_one(s, ns, keys, now_ms) as i64),
        ),
        0 <= there_one_by_one(s, ns, keys, now_ms) <= keys.len(),
    decreases keys.len(),
{
    let last = seq![keys.last()];
    let before = keys.drop_last();
    reveal_with_fuel(string::keys_there, 2);
    reveal_with_fuel(there_one_by_one, 2);
    lemma_there_same(s, ns, last, last, now_ms, 1);
    if keys.len() == 1 {
        assert(keys =~= last);
    } else {
        law_exists_counts_each_key(s, ns, before, now_ms);
        law_exists_is_a_sum(s, ns, before, last, now_ms);
        assert(keys =~= before + last);
    }
}

/// EXISTS of one key replies 1 if the key has a record, its own or else that of
/// the default namespace, without an expiry time or with one that is still to
/// come, and 0 otherwise. TTL and PTTL reply -2 for the keys that are not there
/// and for no others.
pub proof fn law_exists_tells_whether_a_key_lives(
    s: StoreView,
    ns: Seq<u8>,
    key: Seq<u8>,
    now_ms: i64,
)
    ensures
        ({
            let own = encoding::meta_key_of(key, ns);
            let plain = encoding::meta_key_of(key, Seq::empty());
            let has = s.metadata.contains_key(own) || s.metadata.contains_key(plain);
            let v = if s.metadata.contains_key(own) {
                s.metadata[own]
            } else {
                s.metadata[plain]
            };
            let lives = has && (v.len() < 9 || encoding::i64_at(v, 1) <= 0 || now_ms
                < encoding::i64_at(v, 1));
            &&& string::exists_reply(s, ns, seq![key], now_ms) == Ok::<_, ErrorView>(
                RespView::Integer(
                    if lives {
                        1
                    } else {
                        0
                    },
                ),
            )
            &&& lives == (millis_left(s, ns, key, now_ms) != -2)
            &&& lives == (seconds_left(s, ns, key, now_ms) != -2)
        }),
{
    reveal_with_fuel(string::keys_there, 2);
    let a = seq![key];
    assert(a[0] == key);
    if ns.len() == 0 {
        assert(ns =~= Seq::<u8>::empty());
    }
}

/// TTL replies the time that PTTL replies in seconds, to the nearest one and up
/// from a half, and both reply -1 for a key that lives without an expiry time.
pub proof fn law_ttl_rounds_pttl(s: StoreView, ns: Seq<u8>, key: Seq<u8>, now_ms: i64)
    ensures
        ({
            let ms = millis_left(s, ns, key, now_ms);
            let secs = seconds_left(s, ns, key, now_ms);
            &&& string::ttl_reply(s, ns, seq![key], now_ms, "TTL"@, true) is Ok
            &&& string::ttl_reply(s, ns, seq![key], now_ms, "PTTL"@, false) is Ok
            &&& ms < 0 ==> secs == ms && (ms == -1 || ms == -2)
            &&& ms >= 0 ==> ms > 0 && 2 * ms - 1000 < 2000 * secs <= 2 * ms + 1000
        }),
{
    assert(seq![key][0] == key);
    match string::live_record(s, ns, key, now_ms) {
        None => {},
        Some(v) => {
            if v.len() >= 9 && encoding::i64_at(v, 1) > 0 {
                assert(encoding::i64_at(v, 1) > now_ms);
            }
        },
    }
}

/// MGET replies for every key what GET replies for it alone, in the order of the
/// keys.
pub proof fn law_mget_is_many_gets(s: StoreView, ns: Seq<u8>, keys: Seq<Seq<u8>>, now_ms: i64)
    requires
        keys.len() > 0,
        forall|i: int| 0 <= i < keys.len() ==> got(s, ns, #[trigger] keys[i], now_ms) is Ok,
    ensures
        string::mget_reply(s, ns, keys, now_ms) == Ok::<_, ErrorView>(
            RespView::Array(
                Seq::new(keys.len(), |i: int| got(s, ns, keys[i], now_ms)->Ok_0),
            ),
        ),
{
    lemma_values(s, ns, keys, now_ms, keys.len());
    let want = Seq::new(keys.len(), |i: int| got(s, ns, keys[i], now_ms)->Ok_0);
    assert(string::values_of(s, ns, keys, now_ms, keys.len())->Ok_0 =~= want);
}

proof fn lemma_values(s: StoreView, ns: Seq<u8>, keys: Seq<Seq<u8>>, now_ms: i64, n: nat)
    requires
        n <= keys.len(),
        forall|i: int| 0 <= i < n ==> got(s, ns, #[trigger] keys[i], now_ms) is Ok,
    ensures
        string::values_of(s, ns, keys, now_ms, n) is Ok,
        (string::values_of(s, ns, keys, now_ms, n)->Ok_0).len() == n,
        forall|i: int|
            0 <= i < n ==> #[trigger] string::values_of(s, ns, keys, now_ms, n)->Ok_0[i] == got(
                s,
                ns,
                keys[i],
                now_ms,
            )->Ok_0,
    decreases n,
{
    if n > 0 {
        lemma_values(s, ns, keys, now_ms, (n - 1) as nat);
        assert(got(s, ns, keys[n - 1], now_ms) is Ok);
        assert(seq![keys[n - 1]][0] == keys[n - 1]);
    }
}

/// MGET fails as GET fails for the first key for which that fails.
pub proof fn law_mget_reports_the_first_fault(
    s: StoreView,
    ns: Seq<u8>,
    keys: Seq<Seq<u8>>,
    now_ms: i64,
    n: int,
)
    requires
        0 <= n < keys.len(),
        got(s, ns, keys[n], now_ms) is Err,
        forall|i: int| 0 <= i < n ==> got(s, ns, #[trigger] keys[i], now_ms) is Ok,
    ensures
        string::mget_reply(s, ns, keys, now_ms) == got(s, ns, keys[n], now_ms),
{
    lemma_values(s, ns, keys, now_ms, n as nat);
    assert(seq![keys[n]][0] == keys[n]);
    lemma_values_stay(s, ns, keys, now_ms, (n + 1) as nat, keys.len());
}

proof fn lemma_values_stay(
    s: StoreView,
    ns: Seq<u8>,
    keys: Seq<Seq<u8>>,
    now_ms: i64,
    n: nat,
    m: nat,
)
    requires
        n <= m,
        string::values_of(s, ns, keys, now_ms, n) is Err,
    ensures
        string::values_of(s, ns, keys, now_ms, m) == string::values_of(s, ns, keys, now_ms, n),
    decreases m,
{
    if n < m {
        lemma_values_stay(s, ns, keys, now_ms, n, (m - 1) as nat);
    }
}

proof fn lemma_deleted(
    s: StoreView,
    ns: Seq<u8>,
    a: Seq<Seq<u8>>,
    b: Seq<Seq<u8>>,
    now_ms: i64,
    n: nat,
)
    requires
        n <= b.len(),
    ensures
        ({
            let (mid, x) = string::keys_deleted(s, ns, a, now_ms, a.len());
            let (after, y) = string::keys_deleted(mid, ns, b, now_ms, n);
            string::keys_deleted(s, ns, a + b, now_ms, a.len() + n) == (after, x + y)
        }),
    decreases n,
{
    if n == 0 {
        lemma_deleted_same(s, ns, a, a + b, now_ms, a.len());
    } else {
        lemma_deleted(s, ns, a, b, now_ms, (n - 1) as nat);
        assert((a + b)[a.len() + n - 1] == b[n - 1]);
    }
}

proof fn lemma_deleted_same(
    s: StoreView,
    ns: Seq<u8>,
    a: Seq<Seq<u8>>,
    b: Seq<Seq<u8>>,
    now_ms: i64,
    n: nat,
)
    requires
        n <= a.len(),
        n <= b.len(),
        forall|i: int| 0 <= i < n ==> a[i] == b[i],
    ensures
        string::keys_deleted(s, ns, a, now_ms, n) == string::keys_deleted(s, ns, b, now_ms, n),
        string::keys_deleted(s, ns, a, now_ms, n).1 <= n,
    decreases n,
{
    if n > 0 {
        lemma_deleted_same(s, ns, a, b, now_ms, (n - 1) as nat);
    }
}

/// DEL of a list of keys does what DEL of its parts does one after the other, and
/// replies the sum of what they reply.
pub proof fn law_del_goes_key_by_key(
    s: StoreView,
    ns: Seq<u8>,
    a: Seq<Seq<u8>>,
    b: Seq<Seq<u8>>,
    now_ms: i64,
)
    requires
        a.len() > 0,
        b.len() > 0,
        a.len() + b.len() <= i64::MAX,
    ensures
        ({
            let first = string::del_outcome(s, ns, a, now_ms);
            let second = string::del_outcome(first.store, ns, b, now_ms);
            let both = string::del_outcome(s, ns, a + b, now_ms);
            &&& both.store == second.store
            &&& both.reply == Ok::<_, ErrorView>(
                RespView::Integer(
                    (removed(s, ns, a, now_ms) + removed(first.store, ns, b, now_ms)) as i64,
                ),
            )
            &&& 0 <= removed(s, ns, a, now_ms) <= a.len()
            &&& 0 <= removed(first.store, ns, b, now_ms) <= b.len()
        }),
{
    let first = string::del_outcome(s, ns, a, now_ms);
    lemma_deleted(s, ns, a, b, now_ms, b.len());
    lemma_deleted_same(s, ns, a, a, now_ms, a.len());
    lemma_deleted_same(first.store, ns, b, b, now_ms, b.len());
}

/// DEL of one key replies what EXISTS replies for it. It removes the record of
/// the key, and nothing else; of a key that is not there it removes nothing.
pub proof fn law_del_removes_what_exists(s: StoreView, ns: Seq<u8>, key: Seq<u8>, now_ms: i64)
    ensures
        ({
            let o = string::del_outcome(s, ns, seq![key], now_ms);
            let k = encoding::meta_key_of(key, ns);
            &&& o.reply == string::exists_reply(s, ns, seq![key], now_ms)
            &&& there(s, ns, seq![key], now_ms) == 0 ==> o.store == s
            &&& there(s, ns, seq![key], now_ms) != 0 ==> o.store == (StoreView {
                metadata: s.metadata.remove(k),
                ..s
            })
        }),
{
    reveal_with_fuel(string::keys_there, 2);
    reveal_with_fuel(string::keys_deleted, 2);
    let a = seq![key];
    assert(a[0] == key);
    assert(string::keys_deleted(s, ns, a, now_ms, 0) == (s, 0nat));
}

/// SET without options works, GET gives the value from then on, and it does not
/// expire.
pub proof fn law_plain_set(
    s: StoreView,
    ns: Seq<u8>,
    key: Seq<u8>,
    value: Seq<u8>,
    at_ms: i64,
    now_ms: i64,
)
    ensures
        ({
            let o = string::set_outcome(s, ns, seq![key, value], at_ms);
            &&& o.reply == Ok::<_, ErrorView>(RespView::SimpleString("OK"@))
            &&& got(o.store, ns, key, now_ms) == Ok::<_, ErrorView>(
                RespView::BulkString(Some(value)),
            )
            &&& millis_left(o.store, ns, key, now_ms) == -1
            &&& there(o.store, ns, seq![key], now_ms) == 1
        }),
{
    let a = seq![key, value];
    assert(a[0] == key && a[1] == value);
    lemma_record(s, ns, key, value, 0, now_ms);
}

/// A string that was written: what GET, EXISTS and PTTL tell of it.
proof fn lemma_record(
    s: StoreView,
    ns: Seq<u8>,
    key: Seq<u8>,
    value: Seq<u8>,
    expire: i64,
    now_ms: i64,
)
    requires
        expire >= 0,
        now_ms >= 0 || expire == 0,
    ensures
        ({
            let t = string::with_string(s, ns, key, value, expire);
            let gone = expire > 0 && expire <= now_ms;
            &&& got(t, ns, key, now_ms) == Ok::<_, ErrorView>(
                RespView::BulkString(
                    if gone {
                        None
                    } else {
                        Some(value)
                    },
                ),
            )
            &&& there(t, ns, seq![key], now_ms) == if gone {
                0int
            } else {
                1int
            }
            &&& millis_left(t, ns, key, now_ms) == if gone {
                -2
            } else if expire == 0 {
                -1
            } else {
                expire - now_ms
            }
        }),
{
    let v = string::string_record(value, expire);
    string::law_string_is_read_back(s, ns, key, value, expire, key, now_ms);
    cmd::law_records_are_separate(s, ns, key, v, key);
    reveal_with_fuel(string::keys_there, 2);
    assert(seq![key][0] == key);
    codec::lemma_pow256_values();
    codec::lemma_bits_round_trip(expire);
    codec::lemma_be_round_trip(codec::to_bits(expire as int), 8);
    codec::lemma_be_len(codec::to_bits(expire as int), 8);
    assert(v.subrange(1, 9) =~= codec::be_i64(expire as int));
}

proof fn lemma_option_words(w: Seq<u8>)
    ensures
        text::is_word(w, "NX"@) ==> !text::is_word(w, "XX"@) && !text::is_word(w, "EX"@)
            && !text::is_word(w, "PX"@),
        text::is_word(w, "XX"@) ==> !text::is_word(w, "EX"@) && !text::is_word(w, "PX"@),
        text::is_word(w, "EX"@) ==> !text::is_word(w, "PX"@),
{
    reveal_strlit("NX");
    reveal_strlit("XX");
    reveal_strlit("EX");
    reveal_strlit("PX");
    if w.len() == 2 {
        let c = text::upper(w[0]) as int;
        assert(text::is_word(w, "NX"@) ==> c == 'N' as int);
        assert(text::is_word(w, "XX"@) ==> c == 'X' as int);
        assert(text::is_word(w, "EX"@) ==> c == 'E' as int);
        assert(text::is_word(w, "PX"@) ==> c == 'P' as int);
    }
}

/// Options that are read stay as they are when others follow.
proof fn lemma_options(
    a: Seq<Seq<u8>>,
    tail: Seq<Seq<u8>>,
    i: int,
    o: string::SetOptions,
    now_ms: i64,
)
    requires
        0 <= i <= a.len(),
        string::options_from(a, i, o, now_ms) is Ok,
    ensures
        string::options_from(a + tail, i, o, now_ms) == string::options_from(
            a + tail,
            a.len() as int,
            string::options_from(a, i, o, now_ms)->Ok_0,
            now_ms,
        ),
    decreases a.len() - i,
{
    if i < a.len() {
        let b = a + tail;
        assert(b[i] == a[i]);
        if text::is_word(a[i], "NX"@) {
            lemma_options(a, tail, i + 1, string::SetOptions { nx: true, ..o }, now_ms);
        } else if text::is_word(a[i], "XX"@) {
            lemma_options(a, tail, i + 1, string::SetOptions { xx: true, ..o }, now_ms);
        } else if text::is_word(a[i], "EX"@) || text::is_word(a[i], "PX"@) {
            assert(b[i + 1] == a[i + 1]);
            let unit = if text::is_word(a[i], "EX"@) {
                1000
            } else {
                1int
            };
            let x = string::expire_after(now_ms, text::i64_in(a[i + 1])->0 * unit)->0;
            lemma_options(a, tail, i + 2, string::SetOptions { expire: x, ..o }, now_ms);
        } else {
            lemma_options(a, tail, i + 1, o, now_ms);
        }
    }
}

spec fn no_options() -> string::SetOptions {
    string::SetOptions { nx: false, xx: false, expire: 0 }
}

/// NX among the options of SET, whatever the others are: where EXISTS counts the
/// key, SET replies nothing and changes nothing; otherwise it does what it does
/// without NX.
#[verifier::rlimit(60)]
pub proof fn law_set_nx(s: StoreView, ns: Seq<u8>, a: Seq<Seq<u8>>, word: Seq<u8>, now_ms: i64)
    requires
        a.len() >= 2,
        text::is_word(word, "NX"@),
        string::set_outcome(s, ns, a, now_ms).reply is Ok,
    ensures
        ({
            let o = string::set_outcome(s, ns, a.push(word), now_ms);
            if there(s, ns, seq![a[0]], now_ms) == 1 {
                o.reply == Ok::<_, ErrorView>(RespView::BulkString(None)) && o.store == s
            } else {
                o == string::set_outcome(s, ns, a, now_ms)
            }
        }),
{
    let tail = seq![word];
    let b = a.push(word);
    assert(b =~= a + tail);
    assert(b[a.len() as int] == word);
    lemma_options(a, tail, 2, no_options(), now_ms);
    reveal_with_fuel(string::options_from, 2);
    reveal_with_fuel(string::keys_there, 2);
    assert(b[0] == a[0] && b[1] == a[1]);
    assert(seq![a[0]][0] == a[0]);
}

/// XX among the options of SET, whatever the others are: where EXISTS does not
/// count the key, SET replies nothing and changes nothing; otherwise it does what
/// it does without XX.
#[verifier::rlimit(60)]
pub proof fn law_set_xx(s: StoreView, ns: Seq<u8>, a: Seq<Seq<u8>>, word: Seq<u8>, now_ms: i64)
    requires
        a.len() >= 2,
        text::is_word(word, "XX"@),
        string::set_outcome(s, ns, a, now_ms).reply is Ok,
    ensures
        ({
            let o = string::set_outcome(s, ns, a.push(word), now_ms);
            if there(s, ns, seq![a[0]], now_ms) == 0 {
                o.reply == Ok::<_, ErrorView>(RespView::BulkString(None)) && o.store == s
            } else {
                o == string::set_outcome(s, ns, a, now_ms)
            }
        }),
{
    let tail = seq![word];
    let b = a.push(word);
    assert(b =~= a + tail);
    assert(b[a.len() as int] == word);
    lemma_option_words(word);
    lemma_options(a, tail, 2, no_options(), now_ms);
    reveal_with_fuel(string::options_from, 2);
    reveal_with_fuel(string::keys_there, 2);
    assert(b[0] == a[0] && b[1] == a[1]);
    assert(seq![a[0]][0] == a[0]);
}

/// EX and PX at the end of the options of SET, whatever the others are: the reply
/// is the one without it. If the value is set, GET gives it for exactly the time
/// that was asked for, in seconds for EX and in milliseconds for PX, and PTTL
/// tells how much of it is left. A time that is not positive, or that ends behind
/// all times, is refused, and one that is no number.
#[verifier::rlimit(60)]
pub proof fn law_set_for_a_time(
    s: StoreView,
    ns: Seq<u8>,
    a: Seq<Seq<u8>>,
    word: Seq<u8>,
    time: Seq<u8>,
    at_ms: i64,
    now_ms: i64,
)
    requires
        a.len() >= 2,
        text::is_word(word, "EX"@) || text::is_word(word, "PX"@),
        string::set_outcome(s, ns, a, at_ms).reply is Ok,
        0 <= at_ms <= now_ms,
    ensures
        ({
            let before = string::set_outcome(s, ns, a, at_ms);
            let o = string::set_outcome(s, ns, a + seq![word, time], at_ms);
            let key = a[0];
            let n = text::i64_in(time)->0;
            let end = at_ms + (if text::is_word(word, "EX"@) {
                1000 * n
            } else {
                n as int
            });
            &&& text::i64_in(time) is None ==> o.reply == Err::<RespView, _>(
                ErrorView::NotInteger,
            ) && o.store == s
            &&& text::i64_in(time) is Some && (n <= 0 || end > i64::MAX) ==> o.reply == Err::<
                RespView,
                _,
            >(ErrorView::Command("invalid expire time in 'set' command"@)) && o.store == s
            &&& text::i64_in(time) is Some && n > 0 && end <= i64::MAX ==> {
                &&& o.reply == before.reply
                &&& o.reply == Ok::<_, ErrorView>(RespView::BulkString(None)) ==> o.store == s
                &&& o.reply != Ok::<_, ErrorView>(RespView::BulkString(None)) ==> {
                    &&& o.reply == Ok::<_, ErrorView>(RespView::SimpleString("OK"@))
                    &&& now_ms < end ==> got(o.store, ns, key, now_ms) == Ok::<_, ErrorView>(
                        RespView::BulkString(Some(a[1])),
                    ) && millis_left(o.store, ns, key, now_ms) == end - now_ms
                    &&& now_ms >= end ==> got(o.store, ns, key, now_ms) == Ok::<_, ErrorView>(
                        RespView::BulkString(None),
                    ) && there(o.store, ns, seq![key], now_ms) == 0
                }
            }
        }),
{
    let tail = seq![word, time];
    let b = a + tail;
    let at = a.len() as int;
    assert(b[at] == word && b[at + 1] == time);
    lemma_option_words(word);
    lemma_options(a, tail, 2, no_options(), at_ms);
    let p = string::options_from(a, 2, no_options(), at_ms)->Ok_0;
    reveal_with_fuel(string::options_from, 2);
    assert(b[0] == a[0] && b[1] == a[1]);
    let n = text::i64_in(time)->0;
    let unit = if text::is_word(word, "EX"@) {
        1000
    } else {
        1int
    };
    assert(n * 1000 == 1000 * n);
    match string::expire_after(at_ms, n * unit) {
        Some(end) => if text::i64_in(time) is Some {
            let q = string::SetOptions { expire: end, ..p };
            lemma_record(s, ns, a[0], a[1], end, now_ms);
            assert(string::options_from(b, at + 2, q, at_ms) == Ok::<_, ErrorView>(q));
            assert(string::options_from(b, at, p, at_ms) == string::options_from(
                b,
                at + 2,
                q,
                at_ms,
            ));
        },
        None => {},
    }
}

/// MSET sets each of its keys to the last value that it gives it, for good, and
/// replies that it worked. All other keys stay as they are. A key without a value
/// is refused.
#[verifier::rlimit(60)]
pub proof fn law_mset_is_many_sets(
    s: StoreView,
    ns: Seq<u8>,
    a: Seq<Seq<u8>>,
    i: int,
    other: Seq<u8>,
    now_ms: i64,
)
    ensures
        ({
            let o = string::mset_outcome(s, ns, a);
            &&& a.len() % 2 != 0 ==> o.reply == Err::<RespView, _>(
                ErrorView::WrongArgCount("MSET"@),
            ) && o.store == s
            &&& a.len() % 2 == 0 ==> o.reply == Ok::<_, ErrorView>(RespView::SimpleString("OK"@))
            &&& a.len() % 2 == 0 && 0 <= i < a.len() / 2 && (forall|j: int|
                i < j < a.len() / 2 ==> cmd::kept_apart(#[trigger] a[2 * j], a[2 * i], ns))
                ==> got(o.store, ns, a[2 * i], now_ms) == Ok::<_, ErrorView>(
                RespView::BulkString(Some(a[2 * i + 1])),
            ) && millis_left(o.store, ns, a[2 * i], now_ms) == -1
            &&& (forall|j: int|
                0 <= j < a.len() / 2 ==> cmd::kept_apart(#[trigger] a[2 * j], other, ns))
                ==> got(o.store, ns, other, now_ms) == got(s, ns, other, now_ms) && there(
                o.store,
                ns,
                seq![other],
                now_ms,
            ) == there(s, ns, seq![other], now_ms)
        }),
{
    let n = (a.len() / 2) as nat;
    if a.len() % 2 == 0 {
        if 0 <= i < n && (forall|j: int|
            i < j < n ==> cmd::kept_apart(#[trigger] a[2 * j], a[2 * i], ns)) {
            lemma_pair_set(s, ns, a, n, i, now_ms);
        }
        if forall|j: int| 0 <= j < n ==> cmd::kept_apart(#[trigger] a[2 * j], other, ns) {
            lemma_pairs_elsewhere(s, ns, a, n, other, now_ms);
            assert(seq![other][0] == other);
            reveal_with_fuel(string::keys_there, 2);
        }
    }
}

proof fn lemma_pair_set(
    s: StoreView,
    ns: Seq<u8>,
    a: Seq<Seq<u8>>,
    n: nat,
    i: int,
    now_ms: i64,
)
    requires
        2 * n <= a.len(),
        0 <= i < n,
        forall|j: int| i < j < n ==> cmd::kept_apart(#[trigger] a[2 * j], a[2 * i], ns),
    ensures
        got(string::pairs_set(s, ns, a, n), ns, a[2 * i], now_ms) == Ok::<_, ErrorView>(
            RespView::BulkString(Some(a[2 * i + 1])),
        ),
        millis_left(string::pairs_set(s, ns, a, n), ns, a[2 * i], now_ms) == -1,
    decreases n,
{
    let before = string::pairs_set(s, ns, a, (n - 1) as nat);
    let (key, value) = (a[2 * n - 2], a[2 * n - 1]);
    if i < n - 1 {
        assert(cmd::kept_apart(a[2 * (n - 1)], a[2 * i], ns));
        lemma_pair_set(s, ns, a, (n - 1) as nat, i, now_ms);
        string::law_string_is_read_back(before, ns, key, value, 0, a[2 * i], now_ms);
        assert(seq![a[2 * i]][0] == a[2 * i]);
    } else {
        lemma_record(before, ns, key, value, 0, now_ms);
    }
}

proof fn lemma_pairs_elsewhere(
    s: StoreView,
    ns: Seq<u8>,
    a: Seq<Seq<u8>>,
    n: nat,
    other: Seq<u8>,
    now_ms: i64,
)
    requires
        2 * n <= a.len(),
        forall|j: int| 0 <= j < n ==> cmd::kept_apart(#[trigger] a[2 * j], other, ns),
    ensures
        ({
            let t = string::pairs_set(s, ns, a, n);
            &&& string::string_value(t, ns, other, now_ms) == string::string_value(
                s,
                ns,
                other,
                now_ms,
            )
            &&& string::live_record(t, ns, other, now_ms) == string::live_record(
                s,
                ns,
                other,
                now_ms,
            )
        }),
    decreases n,
{
    if n > 0 {
        let before = string::pairs_set(s, ns, a, (n - 1) as nat);
        assert(cmd::kept_apart(a[2 * (n - 1)], other, ns));
        lemma_pairs_elsewhere(s, ns, a, (n - 1) as nat, other, now_ms);
        string::law_string_is_read_back(before, ns, a[2 * n - 2], a[2 * n - 1], 0, other, now_ms);
    }
}

/// INCR and DECR of a key: what GET gave must write a number, and a key that is
/// not there counts as 0. The number with one added or taken away is replied, and
/// GET then gives it in decimal digits, for good. A text that is no number is
/// refused, and a number that would leave 64 bits, and nothing changes.
pub proof fn law_incr_and_decr_step_by_one(
    s: StoreView,
    ns: Seq<u8>,
    key: Seq<u8>,
    at_ms: i64,
    now_ms: i64,
    up: bool,
)
    requires
        got(s, ns, key, at_ms) is Ok,
    ensures
        ({
            let held = got(s, ns, key, at_ms)->Ok_0;
            let number = match held->BulkString_0 {
                Some(t) => text::i64_in(t),
                None => Some(0i64),
            };
            let o = if up {
                string::step_outcome(s, ns, seq![key], at_ms, "INCR"@, 1)
            } else {
                string::step_outcome(s, ns, seq![key], at_ms, "DECR"@, -1)
            };
            match number {
                None => o.reply == Err::<RespView, _>(ErrorView::NotInteger) && o.store == s,
                Some(n) => {
                    let next = if up {
                        n + 1
                    } else {
                        n - 1
                    };
                    if next > i64::MAX || next < i64::MIN {
                        o.reply == Err::<RespView, _>(ErrorView::OutOfRange) && o.store == s
                    } else {
                        &&& o.reply == Ok::<_, ErrorView>(RespView::Integer(next as i64))
                        &&& got(o.store, ns, key, now_ms) == Ok::<_, ErrorView>(
                            RespView::BulkString(Some(text::dec_signed(next))),
                        )
                        &&& text::i64_in(text::dec_signed(next)) == Some(next as i64)
                        &&& millis_left(o.store, ns, key, now_ms) == -1
                    }
                },
            }
        }),
{
    let a = seq![key];
    assert(a[0] == key);
    let held = got(s, ns, key, at_ms)->Ok_0;
    let number = match held->BulkString_0 {
        Some(t) => text::i64_in(t),
        None => Some(0i64),
    };
    if number is Some {
        let next = if up {
            number->0 + 1
        } else {
            number->0 - 1
        };
        if i64::MIN <= next <= i64::MAX {
            text::law_decimal_round_trip(0, next);
            lemma_record(s, ns, key, text::dec_signed(next), 0, now_ms);
        }
    }
}

/// APPEND puts a value behind what GET gave, nothing for a key that is not there.
/// GET then gives the whole, for good, and its length is replied.
pub proof fn law_append(
    s: StoreView,
    ns: Seq<u8>,
    key: Seq<u8>,
    value: Seq<u8>,
    at_ms: i64,
    now_ms: i64,
)
    requires
        got(s, ns, key, at_ms) is Ok,
    ensures
        ({
            let held = match (got(s, ns, key, at_ms)->Ok_0)->BulkString_0 {
                Some(t) => t,
                None => Seq::empty(),
            };
            let o = string::append_outcome(s, ns, seq![key, value], at_ms);
            &&& held.len() + value.len() <= i64::MAX ==> o.reply == Ok::<_, ErrorView>(
                RespView::Integer((held.len() + value.len()) as i64),
            )
            &&& got(o.store, ns, key, now_ms) == Ok::<_, ErrorView>(
                RespView::BulkString(Some(held + value)),
            )
            &&& millis_left(o.store, ns, key, now_ms) == -1
        }),
{
    let a = seq![key, value];
    assert(a[0] == key && a[1] == value);
    assert(seq![key][0] == key);
    let held = match (got(s, ns, key, at_ms)->Ok_0)->BulkString_0 {
        Some(t) => t,
        None => Seq::empty(),
    };
    assert(Seq::<u8>::empty() + value =~= value);
    lemma_record(s, ns, key, held + value, 0, now_ms);
}

/// EXPIRE of a key that is there replies 1, and PTTL tells from then on how much
/// of the time is left, until EXISTS no longer counts the key. Without a positive
/// time the key is gone at once. PERSIST before the end replies 1 and the key
/// stays for good; PERSIST of a key that does not expire replies 0 and changes
/// nothing. For a key that is not there both reply 0 and change nothing. The
/// default namespace must not have a record for the key.
#[verifier::rlimit(60)]
pub proof fn law_a_key_lives_as_long_as_it_is_given(
    s: StoreView,
    ns: Seq<u8>,
    key: Seq<u8>,
    time: Seq<u8>,
    at_ms: i64,
    now_ms: i64,
    later_ms: i64,
)
    requires
        ns.len() > 0 ==> !s.metadata.contains_key(encoding::meta_key_of(key, Seq::empty())),
        s.metadata.contains_key(encoding::meta_key_of(key, ns))
            ==> s.metadata[encoding::meta_key_of(key, ns)].len() >= 9,
        text::i64_in(time) is Some,
        0 <= at_ms <= now_ms <= later_ms,
    ensures
        ({
            let n = text::i64_in(time)->0;
            let end = at_ms + 1000 * n;
            let o = string::expire_outcome(s, ns, seq![key, time], at_ms);
            let p = string::persist_outcome(s, ns, seq![key], at_ms);
            let q = string::persist_outcome(o.store, ns, seq![key], now_ms);
            &&& there(s, ns, seq![key], at_ms) == 0 ==> {
                &&& o.reply == Ok::<_, ErrorView>(RespView::Integer(0)) && o.store == s
                &&& p.reply == Ok::<_, ErrorView>(RespView::Integer(0)) && p.store == s
            }
            &&& millis_left(s, ns, key, at_ms) == -1 ==> p.reply == Ok::<_, ErrorView>(
                RespView::Integer(0),
            ) && p.store == s
            &&& there(s, ns, seq![key], at_ms) == 1 && n <= 0 ==> o.reply == Ok::<_, ErrorView>(
                RespView::Integer(1),
            ) && there(o.store, ns, seq![key], now_ms) == 0
            &&& there(s, ns, seq![key], at_ms) == 1 && n > 0 && end > i64::MAX ==> o.reply
                == Err::<RespView, _>(
                ErrorView::Command("invalid expire time in 'expire' command"@),
            ) && o.store == s
            &&& there(s, ns, seq![key], at_ms) == 1 && n > 0 && end <= i64::MAX ==> {
                &&& o.reply == Ok::<_, ErrorView>(RespView::Integer(1))
                &&& now_ms < end ==> millis_left(o.store, ns, key, now_ms) == end - now_ms
                &&& now_ms < end ==> q.reply == Ok::<_, ErrorView>(RespView::Integer(1))
                    && millis_left(q.store, ns, key, later_ms) == -1
                &&& now_ms >= end ==> there(o.store, ns, seq![key], now_ms) == 0 && q.reply == Ok::<
                    _,
                    ErrorView,
                >(RespView::Integer(0)) && q.store == o.store
            }
        }),
{
    let a = seq![key, time];
    let b = seq![key];
    assert(a[0] == key && a[1] == time && b[0] == key);
    reveal_with_fuel(string::keys_there, 2);
    let k = encoding::meta_key_of(key, ns);
    let n = text::i64_in(time)->0;
    assert(n * 1000 == 1000 * n);
    cmd::law_records_are_separate(s, ns, key, Seq::empty(), key);
    if s.metadata.contains_key(k) {
        let v = s.metadata[k];
        match string::expire_after(at_ms, n * 1000) {
            Some(end) => {
                let w = string::with_expire(v, end);
                cmd::law_records_are_separate(s, ns, key, w, key);
                string::lemma_expire_read_back(v, end);
                string::lemma_expire_read_back(w, 0);
                let t = s.put(Cf::Metadata, k, w);
                cmd::law_records_are_separate(t, ns, key, string::with_expire(w, 0), key);
            },
            None => {},
        }
    }
}

/// EXPIRE and PERSIST change nothing of a key but how long it lives: GET gives
/// what it gave.
#[verifier::rlimit(60)]
pub proof fn law_expiry_leaves_the_value(
    s: StoreView,
    ns: Seq<u8>,
    key: Seq<u8>,
    time: Seq<u8>,
    now_ms: i64,
)
    requires
        got(s, ns, key, now_ms) is Ok,
        text::i64_in(time) is Some,
        text::i64_in(time)->0 > 0,
        0 <= now_ms,
    ensures
        ({
            let o = string::expire_outcome(s, ns, seq![key, time], now_ms);
            let p = string::persist_outcome(s, ns, seq![key], now_ms);
            &&& got(o.store, ns, key, now_ms) == got(s, ns, key, now_ms)
            &&& got(p.store, ns, key, now_ms) == got(s, ns, key, now_ms)
        }),
{
    let a = seq![key, time];
    let b = seq![key];
    assert(a[0] == key && a[1] == time && b[0] == key);
    let k = encoding::meta_key_of(key, ns);
    match string::live_record(s, ns, key, now_ms) {
        Some(v) => if v.len() >= 9 {
            let n = text::i64_in(time)->0;
            cmd::law_records_are_separate(s, ns, key, string::with_expire(v, 0), key);
            string::lemma_expire_read_back(v, 0);
            assert(string::with_expire(v, 0).skip(9) =~= v.skip(9));
            assert(string::with_expire(v, 0)[0] == v[0]);
            match string::expire_after(now_ms, n * 1000) {
                Some(end) => {
                    let w = string::with_expire(v, end);
                    cmd::law_records_are_separate(s, ns, key, w, key);
                    string::lemma_expire_read_back(v, end);
                    assert(w.skip(9) =~= v.skip(9));
                    assert(w[0] == v[0]);
                },
                None => {},
            }
        },
        None => {},
    }
}

} // verus!
