//! The wire protocol: values, parser and serializer.

use crate::encoding;
use crate::text;
use vstd::prelude::*;
use vstd::string::*;
use vstd::utf8;

verus! {

/// A protocol value.
#[derive(Debug, PartialEq)]
pub enum RespValue {
    SimpleString(String),
    Error(String),
    Integer(i64),
    BulkString(Option<Vec<u8>>),
    Array(Vec<RespValue>),
    Null,
    Boolean(bool),
    /// A floating point number, as the decimal text that was read. The text is
    /// kept as it is, so that a number is sent on with the digits that it came
    /// with, `1.50` as `1.50`.
    Double(Vec<u8>),
    MapReply(Vec<(RespValue, RespValue)>),
    SetReply(Vec<RespValue>),
    /// A sorted set score, as the bits of the floating point number. A client
    /// is owed the decimal text of the number, which is floating point work:
    /// whoever sends a reply puts that text, as a bulk string, in the place of
    /// every score first. A score that is serialized or handed to a script all
    /// the same shows the decimal text of its bits.
    Score(u64),
}

/// A protocol value over mathematical sequences.
pub enum RespView {
    SimpleString(Seq<char>),
    Error(Seq<char>),
    Integer(i64),
    BulkString(Option<Seq<u8>>),
    Array(Seq<RespView>),
    Null,
    Boolean(bool),
    Double(Seq<u8>),
    MapReply(Seq<(RespView, RespView)>),
    SetReply(Seq<RespView>),
    Score(u64),
}

/// The mathematical form of a value.
pub open spec fn view_of(v: RespValue) -> RespView
    decreases v,
{
    match v {
        RespValue::SimpleString(s) => RespView::SimpleString(s@),
        RespValue::Error(s) => RespView::Error(s@),
        RespValue::Integer(n) => RespView::Integer(n),
        RespValue::BulkString(b) => RespView::BulkString(
            match b {
                Some(b) => Some(b@),
                None => None,
            },
        ),
        RespValue::Array(items) => RespView::Array(
            Seq::new(
                items@.len(),
                |i: int|
                    if 0 <= i < items@.len() {
                        view_of(items@[i])
                    } else {
                        RespView::Null
                    },
            ),
        ),
        RespValue::Null => RespView::Null,
        RespValue::Boolean(b) => RespView::Boolean(b),
        RespValue::Double(t) => RespView::Double(t@),
        RespValue::MapReply(items) => RespView::MapReply(
            Seq::new(
                items@.len(),
                |i: int|
                    if 0 <= i < items@.len() {
                        (view_of(items@[i].0), view_of(items@[i].1))
                    } else {
                        (RespView::Null, RespView::Null)
                    },
            ),
        ),
        RespValue::SetReply(items) => RespView::SetReply(
            Seq::new(
                items@.len(),
                |i: int|
                    if 0 <= i < items@.len() {
                        view_of(items@[i])
                    } else {
                        RespView::Null
                    },
            ),
        ),
        RespValue::Score(b) => RespView::Score(b),
    }
}

impl View for RespValue {
    type V = RespView;

    open spec fn view(&self) -> RespView {
        view_of(*self)
    }
}

/// The mathematical form of a list of values.
pub open spec fn views(items: Seq<RespValue>) -> Seq<RespView> {
    Seq::new(items.len(), |i: int| items[i]@)
}

/// A list of pairs of values.
pub open spec fn pair_views(items: Seq<(RespValue, RespValue)>) -> Seq<(RespView, RespView)> {
    Seq::new(items.len(), |i: int| (items[i].0@, items[i].1@))
}

pub proof fn lemma_array_view(items: Vec<RespValue>)
    ensures
        RespValue::Array(items)@ == RespView::Array(views(items@)),
        RespValue::SetReply(items)@ == RespView::SetReply(views(items@)),
{
    assert(RespValue::Array(items)@->Array_0 =~= views(items@));
    assert(RespValue::SetReply(items)@->SetReply_0 =~= views(items@));
}

/// The end of a line.
pub open spec fn crlf() -> Seq<u8> {
    seq![13u8, 10u8]
}

/// A line of a type byte and text.
pub open spec fn line(kind: u8, body: Seq<u8>) -> Seq<u8> {
    seq![kind] + body + crlf()
}

/// A value as it goes over the wire.
pub open spec fn wire(v: RespView) -> Seq<u8>
    decreases v,
{
    match v {
        RespView::SimpleString(s) => line(43, utf8::encode_utf8(s)),
        RespView::Error(s) => line(45, utf8::encode_utf8(s)),
        RespView::Integer(n) => line(58, text::dec_signed(n as int)),
        RespView::BulkString(b) => match b {
            None => line(36, seq![45u8, 49u8]),
            Some(b) => line(36, text::dec(b.len())) + b + crlf(),
        },
        RespView::Array(items) => line(42, text::dec(items.len())) + wire_all(items),
        RespView::Null => line(95, Seq::empty()),
        RespView::Boolean(b) => line(
            35,
            if b {
                seq![116u8]
            } else {
                seq![102u8]
            },
        ),
        RespView::Double(t) => line(44, t),
        RespView::MapReply(items) => line(37, text::dec(items.len())) + wire_pairs(items),
        RespView::SetReply(items) => line(126, text::dec(items.len())) + wire_all(items),
        RespView::Score(b) => line(36, text::dec(text::dec(b as nat).len())) + text::dec(b as nat)
            + crlf(),
    }
}

/// Values one after another.
pub open spec fn wire_all(items: Seq<RespView>) -> Seq<u8>
    decreases items,
{
    if items.len() == 0 {
        Seq::empty()
    } else {
        wire_all(items.drop_last()) + wire(items.last())
    }
}

/// Pairs of values one after another.
pub open spec fn wire_pairs(items: Seq<(RespView, RespView)>) -> Seq<u8>
    decreases items,
{
    if items.len() == 0 {
        Seq::empty()
    } else {
        wire_pairs(items.drop_last()) + (wire(items.last().0) + wire(items.last().1))
    }
}

fn push_line(buf: &mut Vec<u8>, kind: u8, body: &[u8])
    ensures
        final(buf)@ == old(buf)@ + line(kind, body@),
{
    buf.push(kind);
    encoding::extend(buf, body);
    buf.push(13);
    buf.push(10);
    proof {
        assert(buf@ =~= old(buf)@ + line(kind, body@));
    }
}

fn push_count(buf: &mut Vec<u8>, kind: u8, n: usize)
    ensures
        final(buf)@ == old(buf)@ + line(kind, text::dec(n as nat)),
{
    let mut digits: Vec<u8> = Vec::new();
    text::push_dec(&mut digits, n as u64);
    proof {
        assert(digits@ =~= text::dec(n as nat));
    }
    push_line(buf, kind, &digits);
}

fn push_bulk(buf: &mut Vec<u8>, body: &[u8])
    ensures
        final(buf)@ == old(buf)@ + (line(36, text::dec(body@.len())) + body@ + crlf()),
{
    push_count(buf, 36, body.len());
    encoding::extend(buf, body);
    buf.push(13);
    buf.push(10);
    proof {
        assert(buf@ =~= old(buf)@ + (line(36, text::dec(body@.len())) + body@ + crlf()));
    }
}

/// Writes protocol values.
pub struct RespSerializer;

impl RespSerializer {
    /// The bytes of a value.
    pub fn serialize(value: &RespValue) -> (v: Vec<u8>)
        ensures
            v@ == wire(value@),
    {
        let mut buf: Vec<u8> = Vec::new();
        RespSerializer::serialize_into(value, &mut buf);
        proof {
            assert(buf@ =~= wire(value@));
        }
        buf
    }

    fn serialize_all(items: &Vec<RespValue>, buf: &mut Vec<u8>)
        ensures
            final(buf)@ == old(buf)@ + wire_all(views(items@)),
        decreases items,
    {
        let ghost vs = views(items@);
        let mut i: usize = 0;
        proof {
            assert(vs.take(0) =~= Seq::<RespView>::empty());
            assert(buf@ + wire_all(vs.take(0)) =~= buf@);
        }
        while i < items.len()
            invariant
                i <= items@.len(),
                vs == views(items@),
                buf@ == old(buf)@ + wire_all(vs.take(i as int)),
            decreases items.len() - i,
        {
            RespSerializer::serialize_into(&items[i], buf);
            proof {
                assert(vs.take(i + 1).drop_last() =~= vs.take(i as int));
                assert(vs.take(i + 1).last() == items@[i as int]@);
                assert(buf@ =~= old(buf)@ + wire_all(vs.take(i + 1)));
            }
            i = i + 1;
        }
        proof {
            assert(vs.take(i as int) =~= vs);
        }
    }

    /// Appends the bytes of a value.
    pub fn serialize_into(value: &RespValue, buf: &mut Vec<u8>)
        ensures
            final(buf)@ == old(buf)@ + wire(value@),
        decreases value,
    {
        match value {
            RespValue::SimpleString(s) => push_line(buf, 43, s.as_str().as_bytes()),
            RespValue::Error(s) => push_line(buf, 45, s.as_str().as_bytes()),
            RespValue::Integer(n) => {
                let digits = text::signed_text(*n);
                push_line(buf, 58, &digits);
            },
            RespValue::BulkString(b) => match b {
                None => {
                    let minus_one = text::signed_text(-1);
                    proof {
                        reveal_with_fuel(text::dec, 2);
                        assert(minus_one@ =~= seq![45u8, 49u8]);
                    }
                    push_line(buf, 36, &minus_one);
                },
                Some(b) => push_bulk(buf, b),
            },
            RespValue::Array(items) => {
                push_count(buf, 42, items.len());
                RespSerializer::serialize_all(items, buf);
                proof {
                    lemma_array_view(*items);
                    assert(buf@ =~= old(buf)@ + wire(value@));
                }
            },
            RespValue::Null => {
                let none: Vec<u8> = Vec::new();
                proof {
                    assert(none@ =~= Seq::<u8>::empty());
                }
                push_line(buf, 95, &none);
            },
            RespValue::Boolean(b) => {
                let mut letter: Vec<u8> = Vec::new();
                letter.push(
                    if *b {
                        116
                    } else {
                        102
                    },
                );
                proof {
                    assert(*b ==> letter@ =~= seq![116u8]);
                    assert(!*b ==> letter@ =~= seq![102u8]);
                }
                push_line(buf, 35, &letter);
            },
            RespValue::Double(t) => push_line(buf, 44, t),
            RespValue::MapReply(items) => {
                push_count(buf, 37, items.len());
                let ghost head = buf@;
                let ghost vs = pair_views(items@);
                let mut i: usize = 0;
                proof {
                    assert(vs.take(0) =~= Seq::<(RespView, RespView)>::empty());
                    assert(buf@ + wire_pairs(vs.take(0)) =~= buf@);
                }
                while i < items.len()
                    invariant
                        i <= items@.len(),
                        *value == RespValue::MapReply(*items),
                        vs == pair_views(items@),
                        buf@ == head + wire_pairs(vs.take(i as int)),
                    decreases items.len() - i,
                {
                    proof {
                        assert(decreases_to!(*value => value->MapReply_0));
                        assert(decreases_to!(*items => items@[i as int]));
                        assert(decreases_to!(items@[i as int] => items@[i as int].0));
                        assert(decreases_to!(items@[i as int] => items@[i as int].1));
                    }
                    RespSerializer::serialize_into(&items[i].0, buf);
                    RespSerializer::serialize_into(&items[i].1, buf);
                    proof {
                        assert(vs.take(i + 1).drop_last() =~= vs.take(i as int));
                        assert(vs.take(i + 1).last() == (
                            items@[i as int].0@,
                            items@[i as int].1@,
                        ));
                        assert(buf@ =~= head + wire_pairs(vs.take(i + 1)));
                    }
                    i = i + 1;
                }
                proof {
                    assert(vs.take(i as int) =~= vs);
                    assert(value@->MapReply_0 =~= vs);
                    assert(buf@ =~= old(buf)@ + wire(value@));
                }
            },
            RespValue::SetReply(items) => {
                push_count(buf, 126, items.len());
                RespSerializer::serialize_all(items, buf);
                proof {
                    lemma_array_view(*items);
                    assert(buf@ =~= old(buf)@ + wire(value@));
                }
            },
            RespValue::Score(b) => {
                let mut digits: Vec<u8> = Vec::new();
                text::push_dec(&mut digits, *b);
                proof {
                    assert(digits@ =~= text::dec(*b as nat));
                }
                push_bulk(buf, &digits);
            },
        }
    }
}

/// A line ends at `p`.
pub open spec fn ends_at(d: Seq<u8>, p: int) -> bool {
    0 <= p && p + 1 < d.len() && d[p] == 13 && d[p + 1] == 10
}

/// The first line ends at `p`.
pub open spec fn first_end(d: Seq<u8>, p: int) -> bool {
    ends_at(d, p) && forall|q: int| 0 <= q < p ==> !(#[trigger] ends_at(d, q))
}

/// The value that the bytes begin with and how many bytes it takes; nothing
/// while bytes are missing, or if they hold no value.
pub open spec fn parsed(d: Seq<u8>) -> Option<(RespView, nat)>
    decreases d.len(), 0nat,
{
    if d.len() == 0 || !(exists|p: int| first_end(d, p)) {
        None
    } else {
        let p = choose|p: int| first_end(d, p);
        let body = d.subrange(1, p);
        let head = (p + 2) as nat;
        if d[0] == 43 {
            Some((RespView::SimpleString(text::text_in(body)), head))
        } else if d[0] == 45 {
            Some((RespView::Error(text::text_in(body)), head))
        } else if d[0] == 58 {
            match text::i64_in(body) {
                Some(n) => Some((RespView::Integer(n), head)),
                None => None,
            }
        } else if d[0] == 36 {
            match text::i64_in(body) {
                Some(n) => if n < 0 {
                    Some((RespView::BulkString(None), head))
                } else if d.len() < head + n + 2 {
                    None
                } else {
                    Some(
                        (
                            RespView::BulkString(Some(d.subrange(head as int, head + n))),
                            (head + n + 2) as nat,
                        ),
                    )
                },
                None => None,
            }
        } else if d[0] == 95 {
            Some((RespView::Null, head))
        } else if d[0] == 35 {
            if body == seq![116u8] {
                Some((RespView::Boolean(true), head))
            } else if body == seq![102u8] {
                Some((RespView::Boolean(false), head))
            } else {
                None
            }
        } else if d[0] == 44 {
            if text::is_float_text(body) {
                Some((RespView::Double(body), head))
            } else {
                None
            }
        } else if d[0] == 42 || d[0] == 37 || d[0] == 126 {
            match text::i64_in(body) {
                None => None,
                Some(n) => if d[0] == 42 && n < 0 {
                    Some((RespView::Null, head))
                } else {
                    let count = if n < 0 {
                        0
                    } else if d[0] == 37 {
                        (2 * n) as nat
                    } else {
                        n as nat
                    };
                    match parsed_items(d.skip(head as int), count) {
                        None => None,
                        Some((items, used)) => Some(
                            (
                                if d[0] == 42 {
                                    RespView::Array(items)
                                } else if d[0] == 37 {
                                    RespView::MapReply(paired(items))
                                } else {
                                    RespView::SetReply(items)
                                },
                                head + used,
                            ),
                        ),
                    }
                },
            }
        } else {
            None
        }
    }
}

/// The `n` values that the bytes begin with and how many bytes they take.
pub open spec fn parsed_items(d: Seq<u8>, n: nat) -> Option<(Seq<RespView>, nat)>
    decreases d.len(), n,
{
    if n == 0 {
        Some((Seq::empty(), 0))
    } else {
        match parsed_items(d, (n - 1) as nat) {
            None => None,
            Some((items, used)) => if used > d.len() {
                None
            } else {
                match parsed(d.skip(used as int)) {
                    None => None,
                    Some((v, more)) => Some((items.push(v), used + more)),
                }
            },
        }
    }
}

/// Values taken two by two.
pub open spec fn paired(items: Seq<RespView>) -> Seq<(RespView, RespView)> {
    Seq::new(items.len() / 2, |i: int| (items[2 * i], items[2 * i + 1]))
}

proof fn lemma_items_fail(d: Seq<u8>, i: nat, n: nat)
    requires
        i <= n,
        parsed_items(d, i) is None,
    ensures
        parsed_items(d, n) is None,
    decreases n - i,
{
    if i < n {
        lemma_items_fail(d, i, (n - 1) as nat);
    }
}

proof fn lemma_items_len(d: Seq<u8>, n: nat)
    ensures
        parsed_items(d, n) matches Some((items, used)) ==> items.len() == n,
    decreases n,
{
    if n > 0 {
        lemma_items_len(d, (n - 1) as nat);
    }
}

/// Finds the end of the first line.
fn find_crlf(data: &[u8]) -> (r: Option<usize>)
    ensures
        match r {
            Some(p) => first_end(data@, p as int),
            None => forall|p: int| !(#[trigger] ends_at(data@, p)),
        },
{
    let mut i: usize = 0;
    while i < data.len() && data.len() - i > 1
        invariant
            i <= data@.len(),
            forall|q: int| 0 <= q < i ==> !(#[trigger] ends_at(data@, q)),
        decreases data.len() - i,
    {
        if data[i] == 13 && data[i + 1] == 10 {
            proof {
                assert(ends_at(data@, i as int));
            }
            return Some(i);
        }
        i = i + 1;
    }
    None
}

/// The text of the first line, behind its type byte, and the line's length.
fn parse_line(data: &[u8]) -> (r: Option<(&[u8], usize)>)
    requires
        data@.len() > 0,
        data@[0] != 13,
    ensures
        match r {
            Some((body, head)) => {
                let p = choose|p: int| first_end(data@, p);
                &&& exists|p: int| first_end(data@, p)
                &&& body@ == data@.subrange(1, p)
                &&& head == p + 2
                &&& head <= data@.len()
            },
            None => !(exists|p: int| first_end(data@, p)),
        },
{
    match find_crlf(data) {
        Some(p) => {
            proof {
                assert(first_end(data@, p as int));
                assert(p + 1 < data.len());
                let c = choose|c: int| first_end(data@, c);
                assert(first_end(data@, c));
                if c < p {
                    assert(!ends_at(data@, c));
                }
                if p < c {
                    assert(!ends_at(data@, p as int));
                }
            }
            Some((vstd::slice::slice_subrange(data, 1, p), p + 2))
        },
        None => None,
    }
}

/// Reads protocol values.
pub struct RespParser;

impl RespParser {
    /// Reads the value that the bytes begin with, and returns how many bytes
    /// it takes. `None` means that bytes are missing, or that there is no
    /// value.
    pub fn parse_one(data: &[u8]) -> (r: Option<(RespValue, usize)>)
        ensures
            match r {
                Some((v, n)) => parsed(data@) == Some((v@, n as nat)) && 0 < n <= data@.len(),
                None => parsed(data@) is None,
            },
        decreases data@.len(), 2nat,
    {
        if data.len() == 0 {
            return None;
        }
        let kind: u8 = data[0];
        if kind == 43 {
            parse_simple(data)
        } else if kind == 45 {
            parse_error(data)
        } else if kind == 58 {
            parse_int(data)
        } else if kind == 36 {
            parse_bulk(data)
        } else if kind == 42 {
            RespParser::parse_array(data)
        } else if kind == 95 {
            parse_null(data)
        } else if kind == 35 {
            parse_bool(data)
        } else if kind == 44 {
            parse_double(data)
        } else if kind == 37 {
            RespParser::parse_map(data)
        } else if kind == 126 {
            RespParser::parse_set(data)
        } else {
            None
        }
    }

    fn parse_items(data: &[u8], n: u64) -> (r: Option<(Vec<RespValue>, usize)>)
        ensures
            match r {
                Some((items, used)) => parsed_items(data@, n as nat) == Some(
                    (views(items@), used as nat),
                ) && used <= data@.len(),
                None => parsed_items(data@, n as nat) is None,
            },
        decreases data@.len(), 3nat,
    {
        let mut items: Vec<RespValue> = Vec::new();
        let mut used: usize = 0;
        let mut i: u64 = 0;
        proof {
            assert(views(items@) =~= Seq::<RespView>::empty());
        }
        while i < n
            invariant
                i <= n,
                used <= data@.len(),
                parsed_items(data@, i as nat) == Some((views(items@), used as nat)),
            decreases n - i,
        {
            let rest = vstd::slice::slice_subrange(data, used, data.len());
            proof {
                assert(rest@ =~= data@.skip(used as int));
            }
            match RespParser::parse_one(rest) {
                Some((v, more)) => {
                    let ghost done = views(items@);
                    items.push(v);
                    proof {
                        assert(views(items@) =~= done.push(v@));
                    }
                    used = used + more;
                },
                None => {
                    proof {
                        assert(parsed_items(data@, (i + 1) as nat) is None);
                        lemma_items_fail(data@, (i + 1) as nat, n as nat);
                    }
                    return None;
                },
            }
            i = i + 1;
        }
        Some((items, used))
    }

    fn parse_array(data: &[u8]) -> (r: Option<(RespValue, usize)>)
        requires
            data@.len() > 0,
            data@[0] == 42,
        ensures
            match r {
                Some((v, n)) => parsed(data@) == Some((v@, n as nat)) && 0 < n <= data@.len(),
                None => parsed(data@) is None,
            },
        decreases data@.len(), 1nat,
    {
        let (body, head) = match parse_line(data) {
            Some(l) => l,
            None => return None,
        };
        let count: i64 = match text::parse_i64(body) {
            Some(n) => n,
            None => return None,
        };
        if count < 0 {
            return Some((RespValue::Null, head));
        }
        let rest = vstd::slice::slice_subrange(data, head, data.len());
        proof {
            assert(rest@ =~= data@.skip(head as int));
        }
        match RespParser::parse_items(rest, count as u64) {
            Some((items, used)) => {
                proof {
                    lemma_array_view(items);
                }
                Some((RespValue::Array(items), head + used))
            },
            None => None,
        }
    }

    fn parse_set(data: &[u8]) -> (r: Option<(RespValue, usize)>)
        requires
            data@.len() > 0,
            data@[0] == 126,
        ensures
            match r {
                Some((v, n)) => parsed(data@) == Some((v@, n as nat)) && 0 < n <= data@.len(),
                None => parsed(data@) is None,
            },
        decreases data@.len(), 1nat,
    {
        let (body, head) = match parse_line(data) {
            Some(l) => l,
            None => return None,
        };
        let count: u64 = match text::parse_i64(body) {
            Some(n) => if n < 0 {
                0
            } else {
                n as u64
            },
            None => return None,
        };
        let rest = vstd::slice::slice_subrange(data, head, data.len());
        proof {
            assert(rest@ =~= data@.skip(head as int));
        }
        match RespParser::parse_items(rest, count) {
            Some((items, used)) => {
                proof {
                    lemma_array_view(items);
                }
                Some((RespValue::SetReply(items), head + used))
            },
            None => None,
        }
    }

    fn parse_map(data: &[u8]) -> (r: Option<(RespValue, usize)>)
        requires
            data@.len() > 0,
            data@[0] == 37,
        ensures
            match r {
                Some((v, n)) => parsed(data@) == Some((v@, n as nat)) && 0 < n <= data@.len(),
                None => parsed(data@) is None,
            },
        decreases data@.len(), 1nat,
    {
        let (body, head) = match parse_line(data) {
            Some(l) => l,
            None => return None,
        };
        let count: u64 = match text::parse_i64(body) {
            Some(n) => if n < 0 {
                0
            } else {
                n as u64
            },
            None => return None,
        };
        let rest = vstd::slice::slice_subrange(data, head, data.len());
        proof {
            assert(rest@ =~= data@.skip(head as int));
        }
        match RespParser::parse_items(rest, 2 * count) {
            Some((mut items, used)) => {
                let ghost vs = views(items@);
                proof {
                    lemma_items_len(rest@, (2 * count) as nat);
                }
                let mut pairs: Vec<(RespValue, RespValue)> = Vec::new();
                let ghost want = paired(vs);
                while items.len() > 0
                    invariant
                        vs.len() == 2 * count,
                        want == paired(vs),
                        want.len() == count,
                        items@.len() + 2 * pairs@.len() == vs.len(),
                        items@.len() % 2 == 0,
                        forall|i: int|
                            0 <= i < items@.len() ==> (#[trigger] items@[i])@ == vs[i],
                        forall|i: int|
                            0 <= i < pairs@.len() ==> (
                            (#[trigger] pairs@[i]).0@,
                            pairs@[i].1@,
                        ) == want[count - 1 - i],
                    decreases items.len(),
                {
                    let ghost before = items@;
                    let v = items.pop();
                    let k = items.pop();
                    match (k, v) {
                        (Some(k), Some(v)) => {
                            proof {
                                assert(v@ == vs[before.len() - 1]);
                                assert(k@ == vs[before.len() - 2]);
                            }
                            pairs.push((k, v));
                        },
                        _ => {
                            proof {
                                assert(false);
                            }
                        },
                    }
                }
                let mut ordered: Vec<(RespValue, RespValue)> = Vec::new();
                while pairs.len() > 0
                    invariant
                        want.len() == count,
                        pairs@.len() + ordered@.len() == count,
                        forall|i: int|
                            0 <= i < pairs@.len() ==> (
                            (#[trigger] pairs@[i]).0@,
                            pairs@[i].1@,
                        ) == want[count - 1 - i],
                        forall|i: int|
                            0 <= i < ordered@.len() ==> (
                            (#[trigger] ordered@[i]).0@,
                            ordered@[i].1@,
                        ) == want[i],
                    decreases pairs.len(),
                {
                    let ghost before = pairs@;
                    match pairs.pop() {
                        Some(p) => {
                            proof {
                                assert(before[before.len() - 1] == p);
                            }
                            ordered.push(p);
                        },
                        None => {},
                    }
                }
                let value = RespValue::MapReply(ordered);
                proof {
                    assert(value@->MapReply_0 =~= want);
                }
                Some((value, head + used))
            },
            None => None,
        }
    }

    /// Reads a client command: its arguments and how many bytes it takes.
    pub fn parse_cmd(buf: &[u8]) -> (r: Option<(Vec<Vec<u8>>, usize)>)
        ensures
            match r {
                Some((args, n)) => cmd_in(buf@) == Some((encoding::byte_seqs(args@), n as nat))
                    && 0 < n <= buf@.len(),
                None => cmd_in(buf@) is None,
            },
    {
        let (val, consumed) = match RespParser::parse_one(buf) {
            Some(x) => x,
            None => return None,
        };
        let mut args: Vec<Vec<u8>> = Vec::new();
        match val {
            RespValue::Array(arr) => {
                let mut i: usize = 0;
                let ghost vs = views(arr@);
                proof {
                    lemma_array_view(arr);
                }
                while i < arr.len()
                    invariant
                        i <= arr@.len(),
                        vs == views(arr@),
                        args@.len() == i,
                        forall|j: int| 0 <= j < i ==> (#[trigger] args@[j])@ == arg_of(vs[j]),
                    decreases arr.len() - i,
                {
                    let a = match &arr[i] {
                        RespValue::BulkString(b) => match b {
                            Some(b) => encoding::copy(b),
                            None => Vec::new(),
                        },
                        RespValue::SimpleString(s) => text::bytes_of(s.as_str()),
                        _ => Vec::new(),
                    };
                    proof {
                        assert(vs[i as int] == arr@[i as int]@);
                        assert(a@ =~= arg_of(vs[i as int]));
                    }
                    args.push(a);
                    i = i + 1;
                }
                proof {
                    assert(encoding::byte_seqs(args@) =~= Seq::new(
                        vs.len(),
                        |i: int| arg_of(vs[i]),
                    ));
                }
            },
            RespValue::BulkString(b) => match b {
                Some(b) => {
                    args.push(b);
                    proof {
                        assert(encoding::byte_seqs(args@) =~= seq![b@]);
                    }
                },
                None => return None,
            },
            RespValue::SimpleString(s) => {
                args.push(text::bytes_of(s.as_str()));
                proof {
                    assert(encoding::byte_seqs(args@) =~= seq![utf8::encode_utf8(s@)]);
                }
            },
            _ => return None,
        }
        Some((args, consumed))
    }
}

/// A value as a command argument.
pub open spec fn arg_of(v: RespView) -> Seq<u8> {
    match v {
        RespView::BulkString(Some(b)) => b,
        RespView::SimpleString(s) => utf8::encode_utf8(s),
        _ => Seq::empty(),
    }
}

/// The command that the bytes begin with: an array of arguments, or a single
/// string.
pub open spec fn cmd_in(d: Seq<u8>) -> Option<(Seq<Seq<u8>>, nat)> {
    match parsed(d) {
        Some((RespView::Array(items), n)) => Some(
            (Seq::new(items.len(), |i: int| arg_of(items[i])), n),
        ),
        Some((RespView::BulkString(Some(b)), n)) => Some((seq![b], n)),
        Some((RespView::SimpleString(s), n)) => Some((seq![utf8::encode_utf8(s)], n)),
        _ => None,
    }
}

fn parse_simple(data: &[u8]) -> (r: Option<(RespValue, usize)>)
    requires
        data@.len() > 0,
        data@[0] == 43,
    ensures
        match r {
            Some((v, n)) => parsed(data@) == Some((v@, n as nat)) && 0 < n <= data@.len(),
            None => parsed(data@) is None,
        },
{
    match parse_line(data) {
        Some((body, head)) => Some((RespValue::SimpleString(text::lossy(body)), head)),
        None => None,
    }
}

fn parse_error(data: &[u8]) -> (r: Option<(RespValue, usize)>)
    requires
        data@.len() > 0,
        data@[0] == 45,
    ensures
        match r {
            Some((v, n)) => parsed(data@) == Some((v@, n as nat)) && 0 < n <= data@.len(),
            None => parsed(data@) is None,
        },
{
    match parse_line(data) {
        Some((body, head)) => Some((RespValue::Error(text::lossy(body)), head)),
        None => None,
    }
}

fn parse_int(data: &[u8]) -> (r: Option<(RespValue, usize)>)
    requires
        data@.len() > 0,
        data@[0] == 58,
    ensures
        match r {
            Some((v, n)) => parsed(data@) == Some((v@, n as nat)) && 0 < n <= data@.len(),
            None => parsed(data@) is None,
        },
{
    match parse_line(data) {
        Some((body, head)) => match text::parse_i64(body) {
            Some(n) => Some((RespValue::Integer(n), head)),
            None => None,
        },
        None => None,
    }
}

fn parse_bulk(data: &[u8]) -> (r: Option<(RespValue, usize)>)
    requires
        data@.len() > 0,
        data@[0] == 36,
    ensures
        match r {
            Some((v, n)) => parsed(data@) == Some((v@, n as nat)) && 0 < n <= data@.len(),
            None => parsed(data@) is None,
        },
{
    let (body, head) = match parse_line(data) {
        Some(l) => l,
        None => return None,
    };
    let len: i64 = match text::parse_i64(body) {
        Some(n) => n,
        None => return None,
    };
    if len < 0 {
        return Some((RespValue::BulkString(None), head));
    }
    if data.len() - head < 2 || ((data.len() - head - 2) as u64) < len as u64 {
        return None;
    }
    let n: usize = len as usize;
    let bytes = encoding::copy(vstd::slice::slice_subrange(data, head, head + n));
    Some((RespValue::BulkString(Some(bytes)), head + n + 2))
}

fn parse_null(data: &[u8]) -> (r: Option<(RespValue, usize)>)
    requires
        data@.len() > 0,
        data@[0] == 95,
    ensures
        match r {
            Some((v, n)) => parsed(data@) == Some((v@, n as nat)) && 0 < n <= data@.len(),
            None => parsed(data@) is None,
        },
{
    match parse_line(data) {
        Some((_body, head)) => Some((RespValue::Null, head)),
        None => None,
    }
}

fn parse_bool(data: &[u8]) -> (r: Option<(RespValue, usize)>)
    requires
        data@.len() > 0,
        data@[0] == 35,
    ensures
        match r {
            Some((v, n)) => parsed(data@) == Some((v@, n as nat)) && 0 < n <= data@.len(),
            None => parsed(data@) is None,
        },
{
    match parse_line(data) {
        Some((body, head)) => if body.len() == 1 && body[0] == 116 {
            proof {
                assert(body@ =~= seq![116u8]);
            }
            Some((RespValue::Boolean(true), head))
        } else if body.len() == 1 && body[0] == 102 {
            proof {
                assert(body@ =~= seq![102u8]);
                assert(seq![116u8][0] == 116);
            }
            Some((RespValue::Boolean(false), head))
        } else {
            None
        },
        None => None,
    }
}

fn parse_double(data: &[u8]) -> (r: Option<(RespValue, usize)>)
    requires
        data@.len() > 0,
        data@[0] == 44,
    ensures
        match r {
            Some((v, n)) => parsed(data@) == Some((v@, n as nat)) && 0 < n <= data@.len(),
            None => parsed(data@) is None,
        },
{
    match parse_line(data) {
        Some((body, head)) => if text::float_text(body) {
            Some((RespValue::Double(encoding::copy(body)), head))
        } else {
            None
        },
        None => None,
    }
}

/// No line ends inside the bytes.
pub open spec fn one_line(s: Seq<u8>) -> bool {
    forall|q: int| !(#[trigger] ends_at(s, q))
}

/// A value that survives the wire: texts do not hold the end of a line,
/// doubles hold a number, and lengths fit in 64 bits. A score has no form of
/// its own on the wire.
pub open spec fn sendable(v: RespView) -> bool
    decreases v,
{
    match v {
        RespView::SimpleString(s) => one_line(utf8::encode_utf8(s)),
        RespView::Error(s) => one_line(utf8::encode_utf8(s)),
        RespView::Integer(_) => true,
        RespView::BulkString(b) => match b {
            None => true,
            Some(b) => b.len() <= i64::MAX,
        },
        RespView::Array(items) => items.len() <= i64::MAX && forall|i: int|
            0 <= i < items.len() ==> sendable(#[trigger] items[i]),
        RespView::Null => true,
        RespView::Boolean(_) => true,
        RespView::Double(t) => one_line(t) && text::is_float_text(t),
        RespView::MapReply(items) => items.len() <= i64::MAX && forall|i: int|
            0 <= i < items.len() ==> sendable((#[trigger] items[i]).0) && sendable(items[i].1),
        RespView::SetReply(items) => items.len() <= i64::MAX && forall|i: int|
            0 <= i < items.len() ==> sendable(#[trigger] items[i]),
        RespView::Score(_) => false,
    }
}

proof fn lemma_digits_one_line(n: nat)
    ensures
        one_line(text::dec(n)),
        text::signed_in(text::dec(n)) == Some(n as int),
{
    text::law_decimal_round_trip(n, n as int);
    text::lemma_dec(n);
    assert forall|q: int| !(#[trigger] ends_at(text::dec(n), q)) by {
        if ends_at(text::dec(n), q) {
            assert(text::is_digit(text::dec(n)[q]));
        }
    }
}

proof fn lemma_line(kind: u8, body: Seq<u8>, tail: Seq<u8>)
    requires
        kind != 13,
        one_line(body),
    ensures
        ({
            let d = line(kind, body) + tail;
            let p = choose|p: int| first_end(d, p);
            &&& exists|p: int| first_end(d, p)
            &&& p == 1 + body.len()
            &&& d.subrange(1, p) == body
            &&& d.len() == body.len() + 3 + tail.len()
            &&& d[0] == kind
            &&& d.skip(p + 2) == tail
        }),
{
    let d = line(kind, body) + tail;
    let e = 1 + body.len() as int;
    assert(d[e] == 13 && d[e + 1] == 10);
    assert forall|q: int| 0 <= q < e implies !(#[trigger] ends_at(d, q)) by {
        if ends_at(d, q) {
            if q > 0 {
                assert(d[q] == body[q - 1]);
                if q < e - 1 {
                    assert(d[q + 1] == body[q]);
                    assert(ends_at(body, q - 1));
                } else {
                    assert(d[q + 1] == 13);
                }
            }
        }
    }
    assert(first_end(d, e));
    let p = choose|p: int| first_end(d, p);
    assert(first_end(d, p));
    if p < e {
        assert(!ends_at(d, p));
    }
    if e < p {
        assert(!ends_at(d, e));
    }
    assert(d.subrange(1, e) =~= body);
    assert(d.skip(e + 2) =~= tail);
}

/// Every value that can be sent comes back: the parser finds the value that
/// was serialized, and takes exactly its bytes, whatever follows.
pub proof fn law_wire_round_trip(v: RespView, rest: Seq<u8>)
    requires
        sendable(v),
    ensures
        parsed(wire(v) + rest) == Some((v, wire(v).len())),
    decreases v,
{
    let d = wire(v) + rest;
    match v {
        RespView::SimpleString(s) => {
            lemma_line(43, utf8::encode_utf8(s), rest);
            utf8::encode_utf8_valid_utf8(s);
            utf8::encode_utf8_decode_utf8(s);
        },
        RespView::Error(s) => {
            lemma_line(45, utf8::encode_utf8(s), rest);
            utf8::encode_utf8_valid_utf8(s);
            utf8::encode_utf8_decode_utf8(s);
        },
        RespView::Integer(n) => {
            text::law_decimal_round_trip(0, n as int);
            let body = text::dec_signed(n as int);
            assert(one_line(body)) by {
                if n < 0 {
                    lemma_digits_one_line((-n) as nat);
                    assert forall|q: int| !(#[trigger] ends_at(body, q)) by {
                        if ends_at(body, q) && q > 0 {
                            assert(ends_at(text::dec((-n) as nat), q - 1));
                        }
                    }
                } else {
                    lemma_digits_one_line(n as nat);
                }
            }
            lemma_line(58, body, rest);
        },
        RespView::BulkString(b) => match b {
            None => {
                text::law_decimal_round_trip(0, -1);
                reveal_with_fuel(text::dec, 2);
                let body = seq![45u8, 49u8];
                assert(text::dec_signed(-1) =~= body);
                lemma_line(36, body, rest);
            },
            Some(b) => {
                lemma_digits_one_line(b.len());
                let tail = b + crlf() + rest;
                assert(d =~= line(36, text::dec(b.len())) + tail);
                lemma_line(36, text::dec(b.len()), tail);
                let head = text::dec(b.len()).len() + 3;
                assert(d.subrange(head as int, (head + b.len()) as int) =~= b);
            },
        },
        RespView::Array(items) => {
            lemma_digits_one_line(items.len());
            let tail = wire_all(items) + rest;
            assert(d =~= line(42, text::dec(items.len())) + tail);
            lemma_line(42, text::dec(items.len()), tail);
            lemma_items_round_trip(items, rest);
        },
        RespView::Null => {
            let body = Seq::<u8>::empty();
            assert(one_line(body));
            lemma_line(95, body, rest);
        },
        RespView::Boolean(b) => {
            let body = if b {
                seq![116u8]
            } else {
                seq![102u8]
            };
            assert(one_line(body));
            assert(seq![116u8][0] != seq![102u8][0]);
            lemma_line(35, body, rest);
        },
        RespView::Double(t) => {
            lemma_line(44, t, rest);
        },
        RespView::MapReply(items) => {
            lemma_digits_one_line(items.len());
            let tail = wire_pairs(items) + rest;
            assert(d =~= line(37, text::dec(items.len())) + tail);
            lemma_line(37, text::dec(items.len()), tail);
            lemma_pairs_round_trip(items, rest);
            assert(paired(flat(items)) =~= items);
        },
        RespView::SetReply(items) => {
            lemma_digits_one_line(items.len());
            let tail = wire_all(items) + rest;
            assert(d =~= line(126, text::dec(items.len())) + tail);
            lemma_line(126, text::dec(items.len()), tail);
            lemma_items_round_trip(items, rest);
        },
        RespView::Score(_) => {},
    }
}

proof fn lemma_items_round_trip(items: Seq<RespView>, rest: Seq<u8>)
    requires
        forall|i: int| 0 <= i < items.len() ==> sendable(#[trigger] items[i]),
    ensures
        parsed_items(wire_all(items) + rest, items.len()) == Some((items, wire_all(items).len())),
    decreases items,
{
    if items.len() == 0 {
        assert(items =~= Seq::<RespView>::empty());
    } else {
        let front = items.drop_last();
        let v = items.last();
        let d = wire_all(items) + rest;
        assert forall|i: int| 0 <= i < front.len() implies sendable(#[trigger] front[i]) by {
            assert(sendable(items[i]));
        }
        lemma_items_round_trip(front, wire(v) + rest);
        assert(d =~= wire_all(front) + (wire(v) + rest));
        assert(d.skip(wire_all(front).len() as int) =~= wire(v) + rest);
        assert(sendable(items[items.len() - 1]));
        law_wire_round_trip(v, rest);
        assert(front.push(v) =~= items);
    }
}

spec fn flat(items: Seq<(RespView, RespView)>) -> Seq<RespView> {
    Seq::new(
        2 * items.len(),
        |i: int|
            if i % 2 == 0 {
                items[i / 2].0
            } else {
                items[i / 2].1
            },
    )
}

proof fn lemma_items_step(
    d: Seq<u8>,
    n: nat,
    items: Seq<RespView>,
    used: nat,
    v: RespView,
    more: nat,
)
    requires
        parsed_items(d, n) == Some((items, used)),
        used <= d.len(),
        parsed(d.skip(used as int)) == Some((v, more)),
    ensures
        parsed_items(d, n + 1) == Some((items.push(v), used + more)),
{
}

proof fn lemma_flat_push(front: Seq<(RespView, RespView)>, a: RespView, b: RespView)
    ensures
        flat(front.push((a, b))) == flat(front).push(a).push(b),
{
    assert(flat(front).push(a).push(b) =~= flat(front.push((a, b))));
}

proof fn lemma_regroup(w: Seq<u8>, a: Seq<u8>, b: Seq<u8>, r: Seq<u8>)
    ensures
        (w + (a + b)) + r == w + (a + (b + r)),
        ((w + (a + b)) + r).skip(w.len() as int) == a + (b + r),
        ((w + (a + b)) + r).skip((w.len() + a.len()) as int) == b + r,
{
    let d = (w + (a + b)) + r;
    assert(d =~= w + (a + (b + r)));
    assert(d.skip(w.len() as int) =~= a + (b + r));
    assert(d.skip((w.len() + a.len()) as int) =~= b + r);
}

#[verifier::spinoff_prover]
#[verifier::rlimit(60)]
proof fn lemma_pairs_round_trip(items: Seq<(RespView, RespView)>, rest: Seq<u8>)
    requires
        forall|i: int|
            0 <= i < items.len() ==> sendable((#[trigger] items[i]).0) && sendable(items[i].1),
    ensures
        parsed_items(wire_pairs(items) + rest, 2 * items.len()) == Some(
            (flat(items), wire_pairs(items).len()),
        ),
    decreases items,
{
    if items.len() == 0 {
        assert(flat(items) =~= Seq::<RespView>::empty());
    } else {
        let front = items.drop_last();
        let last = items[items.len() - 1];
        let a = last.0;
        let b = last.1;
        assert(decreases_to!(items => items[items.len() - 1]));
        assert(decreases_to!(last => last.0));
        assert(decreases_to!(last => last.1));
        assert(sendable(a) && sendable(b));
        assert forall|i: int| 0 <= i < front.len() implies sendable((#[trigger] front[i]).0)
            && sendable(front[i].1) by {
            assert(sendable(items[i].0));
        }
        let w = wire_pairs(front);
        let d = wire_pairs(items) + rest;
        lemma_pairs_round_trip(front, wire(a) + (wire(b) + rest));
        law_wire_round_trip(a, wire(b) + rest);
        law_wire_round_trip(b, rest);
        lemma_regroup(w, wire(a), wire(b), rest);
        lemma_items_step(d, 2 * front.len(), flat(front), w.len(), a, wire(a).len());
        lemma_items_step(
            d,
            2 * front.len() + 1,
            flat(front).push(a),
            w.len() + wire(a).len(),
            b,
            wire(b).len(),
        );
        lemma_flat_push(front, a, b);
        assert(front.push((a, b)) =~= items);
    }
}

/// A line that ends in the bytes ends at the same place if more bytes follow.
proof fn lemma_end_stays(d: Seq<u8>, more: Seq<u8>)
    requires
        exists|p: int| first_end(d, p),
    ensures
        exists|p: int| first_end(d + more, p),
        (choose|p: int| first_end(d + more, p)) == (choose|p: int| first_end(d, p)),
        first_end(d, choose|p: int| first_end(d, p)),
{
    let e = d + more;
    let p = choose|p: int| first_end(d, p);
    assert(ends_at(e, p));
    assert forall|q: int| 0 <= q < p implies !(#[trigger] ends_at(e, q)) by {
        if ends_at(e, q) {
            assert(ends_at(d, q));
        }
    }
    assert(first_end(e, p));
    let x = choose|x: int| first_end(e, x);
    if x < p {
        assert(!ends_at(e, x));
    }
    if p < x {
        assert(!ends_at(e, p));
    }
}

/// A value that was read takes some of the bytes that there are, and is read
/// the same if more bytes follow.
pub proof fn law_more_input_changes_nothing(d: Seq<u8>, more: Seq<u8>)
    requires
        parsed(d) is Some,
    ensures
        parsed(d + more) == parsed(d),
        0 < (parsed(d)->0).1 <= d.len(),
    decreases d.len(), 0nat,
{
    let e = d + more;
    lemma_end_stays(d, more);
    let p = choose|p: int| first_end(d, p);
    let head = p + 2;
    assert(e[0] == d[0]);
    assert(p > 0 || d[0] == 13);
    assert(e.subrange(1, p) =~= d.subrange(1, p));
    if d[0] == 36 {
        let n = text::i64_in(d.subrange(1, p))->0;
        if n >= 0 {
            assert(e.subrange(head, head + n) =~= d.subrange(head, head + n));
        }
    }
    if d[0] == 42 || d[0] == 37 || d[0] == 126 {
        let n = text::i64_in(d.subrange(1, p))->0;
        let count = if n < 0 {
            0
        } else if d[0] == 37 {
            (2 * n) as nat
        } else {
            n as nat
        };
        assert(e.skip(head) =~= d.skip(head) + more);
        if !(d[0] == 42 && n < 0) {
            lemma_items_more(d.skip(head), count, more);
        }
    }
}

proof fn lemma_items_more(d: Seq<u8>, n: nat, more: Seq<u8>)
    requires
        parsed_items(d, n) is Some,
    ensures
        parsed_items(d + more, n) == parsed_items(d, n),
        (parsed_items(d, n)->0).1 <= d.len(),
    decreases d.len(), n,
{
    if n > 0 {
        lemma_items_more(d, (n - 1) as nat, more);
        let used = (parsed_items(d, (n - 1) as nat)->0).1 as int;
        assert((d + more).skip(used) =~= d.skip(used) + more);
        law_more_input_changes_nothing(d.skip(used), more);
    }
}

/// A line that ends within the first bytes ends at the same place if they alone
/// are there.
proof fn lemma_end_within(d: Seq<u8>, cut: int)
    requires
        exists|p: int| first_end(d, p),
        (choose|p: int| first_end(d, p)) + 2 <= cut <= d.len(),
    ensures
        exists|p: int| first_end(d.take(cut), p),
        (choose|p: int| first_end(d.take(cut), p)) == (choose|p: int| first_end(d, p)),
        first_end(d, choose|p: int| first_end(d, p)),
{
    let e = d.take(cut);
    let p = choose|p: int| first_end(d, p);
    assert(ends_at(e, p));
    assert forall|q: int| 0 <= q < p implies !(#[trigger] ends_at(e, q)) by {
        assert(!ends_at(d, q));
    }
    assert(first_end(e, p));
    assert(e + d.skip(cut) =~= d);
    lemma_end_stays(e, d.skip(cut));
}

/// A value that was read is read the same from its own bytes alone, and from
/// these with any others behind them.
pub proof fn law_value_is_in_its_bytes(d: Seq<u8>, more: Seq<u8>)
    requires
        parsed(d) is Some,
    ensures
        0 < (parsed(d)->0).1 <= d.len(),
        parsed(d.take((parsed(d)->0).1 as int)) == parsed(d),
        parsed(d.take((parsed(d)->0).1 as int) + more) == parsed(d),
{
    let own = d.take((parsed(d)->0).1 as int);
    law_more_input_changes_nothing(d, Seq::empty());
    lemma_value_within(d, own.len() as int);
    law_more_input_changes_nothing(own, more);
}

proof fn lemma_value_within(d: Seq<u8>, cut: int)
    requires
        parsed(d) is Some,
        (parsed(d)->0).1 <= cut <= d.len(),
    ensures
        parsed(d.take(cut)) == parsed(d),
    decreases d.len(), 0nat,
{
    let e = d.take(cut);
    let p = choose|p: int| first_end(d, p);
    let head = p + 2;
    if d[0] == 42 || d[0] == 37 || d[0] == 126 {
        let n = text::i64_in(d.subrange(1, p))->0;
        let count = if n < 0 {
            0
        } else if d[0] == 37 {
            (2 * n) as nat
        } else {
            n as nat
        };
        lemma_end_within(d, cut);
        assert(e.subrange(1, p) =~= d.subrange(1, p));
        assert(e.skip(head) =~= d.skip(head).take(cut - head));
        if !(d[0] == 42 && n < 0) {
            lemma_items_within(d.skip(head), count, cut - head);
        }
    } else {
        lemma_end_within(d, cut);
        assert(e.subrange(1, p) =~= d.subrange(1, p));
        if d[0] == 36 {
            let n = text::i64_in(d.subrange(1, p))->0;
            if n >= 0 {
                assert(e.subrange(head, head + n) =~= d.subrange(head, head + n));
            }
        }
    }
}

proof fn lemma_items_within(d: Seq<u8>, n: nat, cut: int)
    requires
        parsed_items(d, n) is Some,
        (parsed_items(d, n)->0).1 <= cut <= d.len(),
    ensures
        parsed_items(d.take(cut), n) == parsed_items(d, n),
    decreases d.len(), n,
{
    if n > 0 {
        let used = (parsed_items(d, (n - 1) as nat)->0).1 as int;
        let rest = d.skip(used);
        law_more_input_changes_nothing(rest, Seq::empty());
        lemma_items_within(d, (n - 1) as nat, cut);
        assert(d.take(cut).skip(used) =~= rest.take(cut - used));
        lemma_value_within(rest, cut - used);
    }
}

/// Nothing is read while bytes of a value are missing.
pub proof fn law_partial_input_waits(v: RespView, n: int)
    requires
        sendable(v),
        0 <= n < wire(v).len(),
    ensures
        parsed(wire(v).take(n)) is None,
        cmd_in(wire(v).take(n)) is None,
{
    let d = wire(v).take(n);
    let rest = wire(v).skip(n);
    if parsed(d) is Some {
        law_more_input_changes_nothing(d, rest);
        assert(d + rest =~= wire(v) + Seq::<u8>::empty());
        law_wire_round_trip(v, Seq::empty());
    }
}

/// Values that follow on each other are read in their order, and take exactly
/// their bytes.
pub proof fn law_pipelined_values(items: Seq<RespView>, rest: Seq<u8>)
    requires
        forall|i: int| 0 <= i < items.len() ==> sendable(#[trigger] items[i]),
    ensures
        parsed_items(wire_all(items) + rest, items.len()) == Some((items, wire_all(items).len())),
{
    lemma_items_round_trip(items, rest);
}

/// A command as clients send it.
pub open spec fn command_value(args: Seq<Seq<u8>>) -> RespView {
    RespView::Array(Seq::new(args.len(), |i: int| RespView::BulkString(Some(args[i]))))
}

/// The lengths of a command and of its arguments can be written.
pub open spec fn command_fits(args: Seq<Seq<u8>>) -> bool {
    args.len() <= i64::MAX && forall|i: int|
        0 <= i < args.len() ==> (#[trigger] args[i]).len() <= i64::MAX
}

/// A command that a client sends is read with all its arguments, whatever
/// follows.
pub proof fn law_command_round_trip(args: Seq<Seq<u8>>, rest: Seq<u8>)
    requires
        command_fits(args),
    ensures
        sendable(command_value(args)),
        cmd_in(wire(command_value(args)) + rest) == Some((args, wire(command_value(args)).len())),
{
    let v = command_value(args);
    let items = v->Array_0;
    assert forall|i: int| 0 <= i < items.len() implies sendable(#[trigger] items[i]) by {
        assert(args[i].len() <= i64::MAX);
    }
    law_wire_round_trip(v, rest);
    assert(Seq::new(items.len(), |i: int| arg_of(items[i])) =~= args);
}

/// The bytes of commands that are sent one behind the other.
pub open spec fn pipeline(lines: Seq<Seq<Seq<u8>>>) -> Seq<u8>
    decreases lines.len(),
{
    if lines.len() == 0 {
        Seq::empty()
    } else {
        pipeline(lines.drop_last()) + wire(command_value(lines.last()))
    }
}

/// The first `n` commands in the bytes, read one after the other, and how many
/// bytes they take.
pub open spec fn commands_in(d: Seq<u8>, n: nat) -> Option<(Seq<Seq<Seq<u8>>>, nat)>
    decreases n,
{
    if n == 0 {
        Some((Seq::empty(), 0))
    } else {
        match commands_in(d, (n - 1) as nat) {
            None => None,
            Some((lines, used)) => match cmd_in(d.skip(used as int)) {
                None => None,
                Some((args, more)) => Some((lines.push(args), used + more)),
            },
        }
    }
}

/// Commands that are sent without waiting for replies are read in their order,
/// each with its arguments.
pub proof fn law_pipelined_commands(lines: Seq<Seq<Seq<u8>>>, rest: Seq<u8>)
    requires
        forall|i: int| 0 <= i < lines.len() ==> command_fits(#[trigger] lines[i]),
    ensures
        commands_in(pipeline(lines) + rest, lines.len()) == Some((lines, pipeline(lines).len())),
    decreases lines.len(),
{
    if lines.len() == 0 {
        assert(lines =~= Seq::<Seq<Seq<u8>>>::empty());
    } else {
        let front = lines.drop_last();
        let w = wire(command_value(lines.last()));
        assert forall|i: int| 0 <= i < front.len() implies command_fits(#[trigger] front[i]) by {
            assert(command_fits(lines[i]));
        }
        assert(command_fits(lines[lines.len() - 1]));
        law_pipelined_commands(front, w + rest);
        let d = pipeline(lines) + rest;
        assert(d =~= pipeline(front) + (w + rest));
        assert(d.skip(pipeline(front).len() as int) =~= w + rest);
        law_command_round_trip(lines.last(), rest);
        assert(front.push(lines.last()) =~= lines);
    }
}

} // verus!
