//! Stream commands. The entries of a stream are subkeys of its key, named by
//! their ids, so that they stand in the order of the ids.

use super::{
    array, count_value, empty_array, expect_min_arg_count, push_reply, wrong_type_error,
    CommandContext, Moment, Outcome,
};
use crate::cmd;
use crate::codec;
use crate::encoding;
use crate::error;
use crate::error::{ErrorView, KvdbError, KvdbResult};
use crate::order;
use crate::protocol;
use crate::protocol::{RespValue, RespView};
use crate::storage;
use crate::storage::{Cf, StoreView, WriteBatch};
use crate::table;
use crate::table::Entries;
use crate::text;
use crate::types;
use crate::types::DataType;
use vstd::prelude::*;

verus! {

/// Entries read at a time.
pub const STREAM_PAGE_LIMIT: usize = 1000;

/// The metadata of a stream: that of any value, and the last id.
#[derive(Debug, Clone, Copy)]
pub struct StreamMeta {
    pub flags: u8,
    pub expire: i64,
    pub version: u64,
    pub size: u64,
    pub last_ms: u64,
    pub last_seq: u64,
}

/// The stored form of a stream's metadata.
pub open spec fn stream_meta_bytes(m: StreamMeta) -> Seq<u8> {
    seq![m.flags] + codec::be_i64(m.expire as int) + codec::be(m.version as nat, 8) + codec::be(
        m.size as nat,
        8,
    ) + codec::be(m.last_ms as nat, 8) + codec::be(m.last_seq as nat, 8)
}

/// The stream metadata that stored bytes hold.
pub open spec fn stream_meta_in(data: Seq<u8>) -> Option<StreamMeta> {
    if data.len() < 41 {
        None
    } else {
        Some(
            StreamMeta {
                flags: data[0],
                expire: encoding::i64_at(data, 1),
                version: encoding::u64_at(data, 9),
                size: encoding::u64_at(data, 17),
                last_ms: encoding::u64_at(data, 25),
                last_seq: encoding::u64_at(data, 33),
            },
        )
    }
}

/// Reading a stored stream's metadata gives it back.
pub proof fn law_stream_meta_round_trip(m: StreamMeta)
    ensures
        stream_meta_in(stream_meta_bytes(m)) == Some(m),
{
    let d = stream_meta_bytes(m);
    codec::lemma_pow256_values();
    codec::lemma_bits_round_trip(m.expire);
    codec::lemma_be_round_trip(codec::to_bits(m.expire as int), 8);
    codec::lemma_be_round_trip(m.version as nat, 8);
    codec::lemma_be_round_trip(m.size as nat, 8);
    codec::lemma_be_round_trip(m.last_ms as nat, 8);
    codec::lemma_be_round_trip(m.last_seq as nat, 8);
    assert(d.subrange(1, 9) =~= codec::be_i64(m.expire as int));
    assert(d.subrange(9, 17) =~= codec::be(m.version as nat, 8));
    assert(d.subrange(17, 25) =~= codec::be(m.size as nat, 8));
    assert(d.subrange(25, 33) =~= codec::be(m.last_ms as nat, 8));
    assert(d.subrange(33, 41) =~= codec::be(m.last_seq as nat, 8));
}

/// The metadata of a new stream.
pub open spec fn fresh_stream(version: u64) -> StreamMeta {
    StreamMeta {
        flags: types::flags_of(DataType::Stream),
        expire: 0,
        version,
        size: 0,
        last_ms: 0,
        last_seq: 0,
    }
}

impl StreamMeta {
    /// The metadata of a new stream.
    pub fn new(version: u64) -> (m: StreamMeta)
        ensures
            m == fresh_stream(version),
    {
        StreamMeta {
            flags: types::build_flags(DataType::Stream),
            expire: 0,
            version,
            size: 0,
            last_ms: 0,
            last_seq: 0,
        }
    }

    /// Tells whether the stream has expired.
    pub fn is_expired(&self, now_ms: i64) -> (r: bool)
        ensures
            r == types::expired(self.expire, now_ms),
    {
        self.expire > 0 && self.expire <= now_ms
    }

    /// Stores the metadata.
    pub fn encode(&self) -> (buf: Vec<u8>)
        ensures
            buf@ == stream_meta_bytes(*self),
    {
        let mut buf: Vec<u8> = Vec::new();
        buf.push(self.flags);
        codec::push_be(&mut buf, codec::bits_of(self.expire), 8);
        codec::push_be(&mut buf, self.version, 8);
        codec::push_be(&mut buf, self.size, 8);
        codec::push_be(&mut buf, self.last_ms, 8);
        codec::push_be(&mut buf, self.last_seq, 8);
        proof {
            assert(buf@ =~= stream_meta_bytes(*self));
        }
        buf
    }
}

/// Reads stored stream metadata.
pub fn decode_stream_meta(data: &[u8]) -> (r: Option<StreamMeta>)
    ensures
        r == stream_meta_in(data@),
{
    if data.len() < 41 {
        return None;
    }
    Some(
        StreamMeta {
            flags: data[0],
            expire: encoding::read_i64(data, 1),
            version: encoding::read_u64(data, 9),
            size: encoding::read_u64(data, 17),
            last_ms: encoding::read_u64(data, 25),
            last_seq: encoding::read_u64(data, 33),
        },
    )
}

/// The metadata of the stream of a key: nothing if there is none or it has
/// expired, an error if the value is of another type or cannot be read. A
/// record without the last id is that of a stream without entries.
pub open spec fn stream_meta(s: StoreView, ns: Seq<u8>, key: Seq<u8>, now_ms: i64) -> Result<
    Option<StreamMeta>,
    ErrorView,
> {
    match cmd::stored_meta(s, ns, key) {
        None => Ok(None),
        Some(v) => if v.len() == 0 {
            Err(ErrorView::Protocol("invalid stream metadata encoding"@))
        } else if types::type_of_flags(v[0]) == Some(DataType::String) {
            Err(cmd::wrong_type())
        } else {
            let found = match stream_meta_in(v) {
                Some(m) => Some(m),
                None => match encoding::metadata_in(v) {
                    Some(m) => Some(
                        StreamMeta {
                            flags: m.flags,
                            expire: m.expire,
                            version: m.version,
                            size: m.size,
                            last_ms: 0,
                            last_seq: 0,
                        },
                    ),
                    None => None,
                },
            };
            match found {
                None => Err(ErrorView::Protocol("invalid stream metadata encoding"@)),
                Some(m) => if types::type_of_flags(m.flags) != Some(DataType::Stream) {
                    Err(cmd::wrong_type())
                } else if types::expired(m.expire, now_ms) {
                    Ok(None)
                } else {
                    Ok(Some(m))
                },
            }
        },
    }
}

fn read_stream_meta(ctx: &CommandContext, user_key: &[u8], now_ms: i64) -> (r: KvdbResult<
    Option<StreamMeta>,
>)
    ensures
        match r {
            Ok(m) => stream_meta(ctx.storage@, ctx.namespace@, user_key@, now_ms) == Ok::<
                _,
                ErrorView,
            >(m),
            Err(e) => stream_meta(ctx.storage@, ctx.namespace@, user_key@, now_ms) == Err::<
                Option<StreamMeta>,
                _,
            >(e@),
        },
{
    let v = match ctx.get_meta(user_key) {
        Some(v) => v,
        None => return Ok(None),
    };
    if v.len() == 0 {
        return Err(error::protocol_error("invalid stream metadata encoding"));
    }
    match types::data_type_from_flags(v[0]) {
        Some(DataType::String) => return Err(wrong_type_error()),
        _ => {},
    }
    let meta = match decode_stream_meta(&v) {
        Some(m) => m,
        None => match encoding::decode_metadata(&v) {
            Some(m) => StreamMeta {
                flags: m.flags,
                expire: m.expire,
                version: m.version,
                size: m.size,
                last_ms: 0,
                last_seq: 0,
            },
            None => return Err(error::protocol_error("invalid stream metadata encoding")),
        },
    };
    match types::data_type_from_flags(meta.flags) {
        Some(DataType::Stream) => {},
        _ => return Err(wrong_type_error()),
    }
    if meta.is_expired(now_ms) {
        return Ok(None);
    }
    Ok(Some(meta))
}

/// The id of an entry: milliseconds and a number within them.
#[derive(Debug, Clone, Copy, PartialEq, Eq, Structural)]
pub struct EntryId(pub u64, pub u64);

/// The first id comes before the second one.
pub open spec fn id_lt(a: EntryId, b: EntryId) -> bool {
    a.0 < b.0 || (a.0 == b.0 && a.1 < b.1)
}

/// The bytes of an id.
pub open spec fn id_bytes(id: EntryId) -> Seq<u8> {
    codec::be(id.0 as nat, 8) + codec::be(id.1 as nat, 8)
}

/// The id that sixteen bytes hold.
pub open spec fn id_in_bytes(b: Seq<u8>) -> EntryId {
    EntryId(encoding::u64_at(b, 0), encoding::u64_at(b, 8))
}

/// The text of an id.
pub open spec fn id_text(id: EntryId) -> Seq<u8> {
    text::dec(id.0 as nat) + seq![45u8] + text::dec(id.1 as nat)
}

/// The place of the first dash from `i` on.
pub open spec fn dash_from(s: Seq<u8>, i: int) -> int
    decreases s.len() - i,
{
    if i >= s.len() || s[i] == 45 {
        i
    } else {
        dash_from(s, i + 1)
    }
}

/// The id that a text writes: two numbers with a dash between them, a dash
/// alone for the least id, a plus sign alone for the greatest.
pub open spec fn id_in(s: Seq<u8>) -> Option<EntryId> {
    if s == seq![45u8] {
        Some(EntryId(0, 0))
    } else if s == seq![43u8] {
        Some(EntryId(u64::MAX, u64::MAX))
    } else {
        let d = dash_from(s, 0);
        if d >= s.len() {
            None
        } else {
            match (text::u64_in(s.take(d)), text::u64_in(s.skip(d + 1))) {
                (Some(ms), Some(seq)) => Some(EntryId(ms, seq)),
                _ => None,
            }
        }
    }
}

/// The error for a text that is no id.
pub open spec fn bad_id() -> ErrorView {
    ErrorView::Command("invalid stream ID"@)
}

fn bad_id_error() -> (e: KvdbError)
    ensures
        e@ == bad_id(),
{
    error::command_error("invalid stream ID")
}

/// Whether the bytes are just the one given.
fn is_sign(s: &[u8], sign: u8) -> (r: bool)
    ensures
        r == (s@ == seq![sign]),
{
    if s.len() == 1 && s[0] == sign {
        proof {
            assert(s@ =~= seq![sign]);
        }
        true
    } else {
        proof {
            assert(s@ == seq![sign] ==> s@[0] == sign);
        }
        false
    }
}

/// The ids are ordered as their bytes are, and an id survives the trip through
/// its bytes.
pub proof fn law_id_bytes(a: EntryId, b: EntryId)
    ensures
        id_bytes(a).len() == 16,
        id_in_bytes(id_bytes(a)) == a,
        order::lt(id_bytes(a), id_bytes(b)) == id_lt(a, b),
{
    codec::lemma_pow256_values();
    codec::lemma_be_round_trip(a.0 as nat, 8);
    codec::lemma_be_round_trip(a.1 as nat, 8);
    codec::lemma_be_len(b.0 as nat, 8);
    codec::lemma_be_len(b.1 as nat, 8);
    let (x, y) = (codec::be(a.0 as nat, 8), codec::be(a.1 as nat, 8));
    let (u, v) = (codec::be(b.0 as nat, 8), codec::be(b.1 as nat, 8));
    assert(id_bytes(a).subrange(0, 8) =~= x);
    assert(id_bytes(a).subrange(8, 16) =~= y);
    codec::lemma_be_order(a.0 as nat, b.0 as nat, 8);
    codec::lemma_be_order(b.0 as nat, a.0 as nat, 8);
    codec::lemma_be_order(a.1 as nat, b.1 as nat, 8);
    if a.0 == b.0 {
        order::lemma_lt_common_prefix(x, y, v);
    } else if a.0 < b.0 {
        order::lemma_lt_extends(x, u, y, v);
    } else {
        order::lemma_lt_extends(u, x, v, y);
        order::lemma_lt_asymmetric(id_bytes(b), id_bytes(a));
    }
}

impl EntryId {
    /// Tells whether the id comes before another.
    pub fn before(&self, other: &EntryId) -> (r: bool)
        ensures
            r == id_lt(*self, *other),
    {
        self.0 < other.0 || (self.0 == other.0 && self.1 < other.1)
    }

    /// The bytes of the id.
    pub fn encode(&self) -> (b: Vec<u8>)
        ensures
            b@ == id_bytes(*self),
    {
        let mut b: Vec<u8> = Vec::new();
        codec::push_be(&mut b, self.0, 8);
        codec::push_be(&mut b, self.1, 8);
        proof {
            assert(b@ =~= id_bytes(*self));
        }
        b
    }

    /// The text of the id.
    pub fn format_id(&self) -> (t: Vec<u8>)
        ensures
            t@ == id_text(*self),
    {
        let mut t: Vec<u8> = Vec::new();
        text::push_dec(&mut t, self.0);
        t.push(45);
        text::push_dec(&mut t, self.1);
        proof {
            assert(t@ =~= id_text(*self));
        }
        t
    }

    /// Reads an id.
    pub fn parse(s: &[u8]) -> (r: KvdbResult<EntryId>)
        ensures
            match r {
                Ok(id) => id_in(s@) == Some(id),
                Err(e) => id_in(s@) is None && e@ == bad_id(),
            },
    {
        if is_sign(s, 45) {
            return Ok(EntryId(0, 0));
        }
        if is_sign(s, 43) {
            return Ok(EntryId(u64::MAX, u64::MAX));
        }
        let mut d: usize = 0;
        while d < s.len() && s[d] != 45
            invariant
                d <= s@.len(),
                dash_from(s@, 0) == dash_from(s@, d as int),
            decreases s.len() - d,
        {
            d = d + 1;
        }
        if d >= s.len() {
            return Err(bad_id_error());
        }
        let left = vstd::slice::slice_subrange(s, 0, d);
        let right = vstd::slice::slice_subrange(s, d + 1, s.len());
        proof {
            assert(left@ =~= s@.take(d as int));
            assert(right@ =~= s@.skip(d + 1));
        }
        match (text::parse_u64(left), text::parse_u64(right)) {
            (Some(ms), Some(seq)) => Ok(EntryId(ms, seq)),
            _ => Err(bad_id_error()),
        }
    }
}

/// A field with its value.
pub type FieldView = (Seq<u8>, Seq<u8>);

/// The fields of a list of pairs.
pub open spec fn field_views(v: Seq<(Vec<u8>, Vec<u8>)>) -> Seq<FieldView> {
    table::pairs_of(v)
}

/// The stored form of one field: name and value, each behind its length.
pub open spec fn field_bytes(f: FieldView) -> Seq<u8> {
    codec::be(f.0.len() % 0x1_0000_0000, 4) + f.0 + codec::be(f.1.len() % 0x1_0000_0000, 4) + f.1
}

/// The stored form of an entry's fields.
pub open spec fn fields_bytes(fs: Seq<FieldView>) -> Seq<u8>
    decreases fs.len(),
{
    if fs.len() == 0 {
        Seq::empty()
    } else {
        fields_bytes(fs.drop_last()) + field_bytes(fs.last())
    }
}

/// The four-byte length at a place.
pub open spec fn len_at(data: Seq<u8>, at: int) -> int {
    codec::from_be(data.subrange(at, at + 4)) as int
}

/// The fields that stored bytes hold, from a place on.
pub open spec fn fields_from(data: Seq<u8>, at: int) -> Option<Seq<FieldView>>
    decreases data.len() - at,
{
    if at >= data.len() {
        Some(Seq::empty())
    } else if at < 0 || at + 4 > data.len() {
        None
    } else {
        let k = len_at(data, at);
        let mid = at + 4 + k;
        if mid + 4 > data.len() {
            None
        } else {
            let v = len_at(data, mid);
            let end = mid + 4 + v;
            if k < 0 || v < 0 || end > data.len() {
                None
            } else {
                match fields_from(data, end) {
                    Some(rest) => Some(
                        seq![(data.subrange(at + 4, mid), data.subrange(mid + 4, end))] + rest,
                    ),
                    None => None,
                }
            }
        }
    }
}

/// The fields that stored bytes hold.
pub open spec fn fields_in(data: Seq<u8>) -> Option<Seq<FieldView>> {
    fields_from(data, 0)
}

/// Stores the fields of an entry.
pub fn encode_fields(fields: &Vec<(Vec<u8>, Vec<u8>)>) -> (buf: Vec<u8>)
    ensures
        buf@ == fields_bytes(field_views(fields@)),
{
    let mut buf: Vec<u8> = Vec::new();
    let ghost fs = field_views(fields@);
    let mut i: usize = 0;
    proof {
        assert(buf@ =~= fields_bytes(fs.take(0)));
    }
    while i < fields.len()
        invariant
            i <= fields@.len(),
            fs == field_views(fields@),
            buf@ == fields_bytes(fs.take(i as int)),
        decreases fields.len() - i,
    {
        let ghost before = buf@;
        codec::push_be(&mut buf, fields[i].0.len() as u64 % 0x1_0000_0000, 4);
        encoding::extend(&mut buf, &fields[i].0);
        codec::push_be(&mut buf, fields[i].1.len() as u64 % 0x1_0000_0000, 4);
        encoding::extend(&mut buf, &fields[i].1);
        proof {
            let next = fs.take(i + 1);
            assert(next.drop_last() =~= fs.take(i as int));
            assert(next.last() == (fields@[i as int].0@, fields@[i as int].1@));
            assert(buf@ =~= before + field_bytes(next.last()));
        }
        i = i + 1;
    }
    proof {
        assert(fs.take(i as int) =~= fs);
    }
    buf
}

/// Reads the fields of an entry.
pub fn decode_fields(data: &[u8]) -> (r: Option<Vec<(Vec<u8>, Vec<u8>)>>)
    ensures
        match r {
            Some(fs) => fields_in(data@) == Some(field_views(fs@)),
            None => fields_in(data@) is None,
        },
{
    let mut result: Vec<(Vec<u8>, Vec<u8>)> = Vec::new();
    let mut pos: usize = 0;
    while pos < data.len()
        invariant
            pos <= data@.len(),
            match fields_from(data@, pos as int) {
                Some(rest) => fields_in(data@) == Some(field_views(result@) + rest),
                None => fields_in(data@) is None,
            },
        decreases data.len() - pos,
    {
        let ghost d = data@;
        proof {
            assert(data.len() == d.len());
        }
        if data.len() - pos < 4 {
            return None;
        }
        let k: u64 = codec::read_be(data, pos, 4);
        if ((data.len() - pos - 4) as u64) < k || data.len() - pos - 4 - (k as usize) < 4 {
            return None;
        }
        let mid: usize = pos + 4 + k as usize;
        let v: u64 = codec::read_be(data, mid, 4);
        if ((data.len() - mid - 4) as u64) < v {
            return None;
        }
        let end: usize = mid + 4 + v as usize;
        let name = encoding::copy(vstd::slice::slice_subrange(data, pos + 4, mid));
        let value = encoding::copy(vstd::slice::slice_subrange(data, mid + 4, end));
        let ghost before = field_views(result@);
        let ghost item = (name@, value@);
        result.push((name, value));
        proof {
            assert(field_views(result@) =~= before.push(item));
            match fields_from(d, end as int) {
                Some(rest) => {
                    assert(fields_from(d, pos as int) == Some(seq![item] + rest));
                    assert(before + (seq![item] + rest) =~= before.push(item) + rest);
                },
                None => {},
            }
        }
        pos = end;
    }
    proof {
        assert(field_views(result@) + Seq::<FieldView>::empty() =~= field_views(result@));
    }
    Some(result)
}

/// The lengths of names and values can be written.
pub open spec fn fields_fit(fs: Seq<FieldView>) -> bool {
    forall|i: int|
        0 <= i < fs.len() ==> (#[trigger] fs[i]).0.len() < 0x1_0000_0000 && fs[i].1.len()
            < 0x1_0000_0000
}

/// Reading the stored fields of an entry gives them back, if all of them are
/// shorter than 4 GiB.
pub proof fn law_fields_round_trip(fs: Seq<FieldView>)
    requires
        fields_fit(fs),
    ensures
        fields_in(fields_bytes(fs)) == Some(fs),
{
    lemma_fields_suffix(fs, fs.len());
    assert(fs.take(0) =~= Seq::<FieldView>::empty());
    assert(fs.skip(0) =~= fs);
}

proof fn lemma_fields_suffix(fs: Seq<FieldView>, n: nat)
    requires
        fields_fit(fs),
        n <= fs.len(),
    ensures
        fields_from(fields_bytes(fs), fields_bytes(fs.take(fs.len() - n)).len() as int) == Some(
            fs.skip(fs.len() - n),
        ),
    decreases n,
{
    let d = fields_bytes(fs);
    let i = fs.len() - n;
    if n == 0 {
        assert(fs.take(i) =~= fs);
        assert(fs.skip(i) =~= Seq::<FieldView>::empty());
    } else {
        lemma_fields_suffix(fs, (n - 1) as nat);
        lemma_fields_prefix(fs, i + 1);
        let f = fs[i];
        let head = fields_bytes(fs.take(i));
        let next = fields_bytes(fs.take(i + 1));
        assert(fs.take(i + 1).drop_last() =~= fs.take(i));
        assert(next == head + field_bytes(f));
        let at = head.len() as int;
        let end = next.len() as int;
        assert(d.subrange(at, end) =~= field_bytes(f)) by {
            assert(d.take(end).subrange(at, end) =~= d.subrange(at, end));
            assert(next.subrange(at, end) =~= field_bytes(f));
        }
        lemma_field_at(d, at, f, fs.skip(i + 1));
        assert(seq![f] + fs.skip(i + 1) =~= fs.skip(i));
    }
}

/// A stored field is read where it stands.
proof fn lemma_field_at(d: Seq<u8>, at: int, f: FieldView, rest: Seq<FieldView>)
    requires
        0 <= at,
        at + field_bytes(f).len() <= d.len(),
        d.subrange(at, at + field_bytes(f).len()) == field_bytes(f),
        f.0.len() < 0x1_0000_0000,
        f.1.len() < 0x1_0000_0000,
        fields_from(d, at + field_bytes(f).len()) == Some(rest),
    ensures
        fields_from(d, at) == Some(seq![f] + rest),
{
    let b = field_bytes(f);
    let (k, v) = (codec::be(f.0.len(), 4), codec::be(f.1.len(), 4));
    codec::lemma_pow256_values();
    codec::lemma_be_round_trip(f.0.len(), 4);
    codec::lemma_be_round_trip(f.1.len(), 4);
    codec::lemma_be_len(f.0.len(), 4);
    codec::lemma_be_len(f.1.len(), 4);
    let n = f.0.len() as int;
    let m = f.1.len() as int;
    assert(b == k + f.0 + v + f.1);
    assert(b.len() == 8 + n + m);
    assert(d.subrange(at, at + 4) =~= k) by {
        assert(b.subrange(0, 4) =~= k);
        assert(d.subrange(at, at + b.len()).subrange(0, 4) =~= d.subrange(at, at + 4));
    }
    assert(d.subrange(at + 4, at + 4 + n) =~= f.0) by {
        assert(b.subrange(4, 4 + n) =~= f.0);
        assert(d.subrange(at, at + b.len()).subrange(4, 4 + n) =~= d.subrange(
            at + 4,
            at + 4 + n,
        ));
    }
    assert(d.subrange(at + 4 + n, at + 8 + n) =~= v) by {
        assert(b.subrange(4 + n, 8 + n) =~= v);
        assert(d.subrange(at, at + b.len()).subrange(4 + n, 8 + n) =~= d.subrange(
            at + 4 + n,
            at + 8 + n,
        ));
    }
    assert(d.subrange(at + 8 + n, at + 8 + n + m) =~= f.1) by {
        assert(b.subrange(8 + n, 8 + n + m) =~= f.1);
        assert(d.subrange(at, at + b.len()).subrange(8 + n, 8 + n + m) =~= d.subrange(
            at + 8 + n,
            at + 8 + n + m,
        ));
    }
}

proof fn lemma_fields_prefix(fs: Seq<FieldView>, i: int)
    requires
        0 <= i <= fs.len(),
    ensures
        fields_bytes(fs.take(i)).len() <= fields_bytes(fs).len(),
        fields_bytes(fs).take(fields_bytes(fs.take(i)).len() as int) == fields_bytes(fs.take(i)),
    decreases fs.len() - i,
{
    let d = fields_bytes(fs);
    if i == fs.len() {
        assert(fs.take(i) =~= fs);
        assert(d.take(d.len() as int) =~= d);
    } else {
        lemma_fields_prefix(fs, i + 1);
        assert(fs.take(i + 1).drop_last() =~= fs.take(i));
        let a = fields_bytes(fs.take(i));
        let b = fields_bytes(fs.take(i + 1));
        assert(d.take(a.len() as int) =~= a) by {
            assert forall|x: int| 0 <= x < a.len() implies d[x] == a[x] by {
                assert(d.take(b.len() as int)[x] == d[x]);
                assert(b[x] == a[x]);
            }
        }
    }
}

/// What the keys of a stream's entries in one millisecond begin with.
pub open spec fn ms_prefix(key: Seq<u8>, version: u64, ns: Seq<u8>, ms: u64) -> Seq<u8> {
    encoding::sub_prefix(key, version, ns) + codec::be(ms as nat, 8)
}

/// The number behind the greatest one that an entry has in a millisecond.
pub open spec fn unused_seq(e: Entries, ns: Seq<u8>, key: Seq<u8>, version: u64, ms: u64) -> int {
    let used = table::keys_with(e, ms_prefix(key, version, ns, ms));
    if used.len() == 0 {
        0
    } else {
        match id_of_key(used.last(), ns) {
            Some(id) => id.1 + 1,
            None => 0,
        }
    }
}

/// The number of a new entry in the given millisecond: behind all numbers that
/// entries have there, and behind the last entry's if that has the same
/// millisecond.
pub open spec fn next_seq(e: Entries, ns: Seq<u8>, key: Seq<u8>, m: StreamMeta, ms: u64) -> int {
    let unused = unused_seq(e, ns, key, m.version, ms);
    if m.last_ms == ms && m.last_seq >= unused {
        m.last_seq + 1
    } else {
        unused
    }
}

/// The error for an id that would not come behind the last one.
pub open spec fn stale_id() -> ErrorView {
    ErrorView::Command("The ID specified in XADD must be greater than 0-0"@)
}

/// An id in the given millisecond. There is none behind the last number.
pub open spec fn id_within(e: Entries, ns: Seq<u8>, key: Seq<u8>, m: StreamMeta, ms: u64) -> Result<
    EntryId,
    ErrorView,
> {
    let n = next_seq(e, ns, key, m, ms);
    if n > u64::MAX {
        Err(stale_id())
    } else {
        Ok(EntryId(ms, n as u64))
    }
}

/// The millisecond in which the id is left to the server, by the clock for an
/// asterisk and as written for milliseconds, a dash and an asterisk.
pub open spec fn left_open(spec_text: Seq<u8>, now_ms: u64) -> Option<Option<u64>> {
    let n = spec_text.len() as int;
    if spec_text == seq![42u8] {
        Some(Some(now_ms))
    } else if n >= 2 && spec_text[n - 2] == 45 && spec_text[n - 1] == 42 {
        Some(text::u64_in(spec_text.take(n - 2)))
    } else {
        None
    }
}

/// The id that an entry gets: one in the millisecond in which it is left open,
/// and otherwise the one that is written, which must come behind the last one.
pub open spec fn new_id(
    e: Entries,
    ns: Seq<u8>,
    key: Seq<u8>,
    spec_text: Seq<u8>,
    m: StreamMeta,
    now_ms: u64,
) -> Result<EntryId, ErrorView> {
    match left_open(spec_text, now_ms) {
        Some(Some(ms)) => id_within(e, ns, key, m, ms),
        Some(None) => Err(bad_id()),
        None => match id_in(spec_text) {
            None => Err(bad_id()),
            Some(id) => if m.size > 0 && !id_lt(EntryId(m.last_ms, m.last_seq), id) {
                Err(stale_id())
            } else {
                Ok(id)
            },
        },
    }
}

/// A new id comes behind the last one, unless it is taken from a millisecond
/// before the last one's.
pub proof fn law_new_ids_ascend(
    e: Entries,
    ns: Seq<u8>,
    key: Seq<u8>,
    spec_text: Seq<u8>,
    m: StreamMeta,
    now_ms: u64,
)
    requires
        m.size > 0,
        new_id(e, ns, key, spec_text, m, now_ms) is Ok,
        (new_id(e, ns, key, spec_text, m, now_ms)->Ok_0).0 >= m.last_ms,
    ensures
        id_lt(EntryId(m.last_ms, m.last_seq), new_id(e, ns, key, spec_text, m, now_ms)->Ok_0),
{
}

/// The greatest number that an entry has in a millisecond, if it can be read.
fn greatest_seq(ctx: &CommandContext, key: &[u8], version: u64, ms: u64) -> (r: Option<u64>)
    ensures
        unused_seq(ctx.storage@.subkey, ctx.namespace@, key@, version, ms) == match r {
            Some(n) => n + 1,
            None => 0,
        },
{
    let mut prefix = ctx.sub_prefix(key, version);
    codec::push_be(&mut prefix, ms, 8);
    let none: Vec<u8> = Vec::new();
    let ghost e = ctx.storage@.subkey;
    let ghost p = ms_prefix(key@, version, ctx.namespace@, ms);
    let ghost used = table::keys_with(e, p);
    proof {
        assert(prefix@ =~= p);
        assert(none@ =~= table::backward_mark(e, p, 0));
    }
    let (items, _next) = ctx.storage.walk_back(Cf::Subkey, &prefix, &none, 1, Ghost(0));
    proof {
        assert(table::pairs_of(items@).len() == items@.len());
        if used.len() > 0 {
            assert(used.reverse().subrange(0, 1)[0] == used.last());
            assert(table::pairs_of(items@)[0] == table::entries_at(
                e,
                used.reverse().subrange(0, 1),
            )[0]);
        }
    }
    if items.len() == 0 {
        return None;
    }
    match parse_entry_id_from_subkey(ctx, &items[0].0) {
        Some(id) => Some(id.1),
        None => None,
    }
}

fn id_in_ms(ctx: &CommandContext, key: &[u8], meta: &StreamMeta, ms: u64) -> (r: KvdbResult<
    EntryId,
>)
    ensures
        match r {
            Ok(id) => id_within(ctx.storage@.subkey, ctx.namespace@, key@, *meta, ms) == Ok::<
                _,
                ErrorView,
            >(id),
            Err(e) => id_within(ctx.storage@.subkey, ctx.namespace@, key@, *meta, ms) == Err::<
                EntryId,
                _,
            >(e@),
        },
{
    let mut last = greatest_seq(ctx, key, meta.version, ms);
    if meta.last_ms == ms {
        last = match last {
            Some(n) => if meta.last_seq > n {
                Some(meta.last_seq)
            } else {
                Some(n)
            },
            None => Some(meta.last_seq),
        };
    }
    match last {
        None => Ok(EntryId(ms, 0)),
        Some(n) => if n == u64::MAX {
            Err(error::command_error("The ID specified in XADD must be greater than 0-0"))
        } else {
            Ok(EntryId(ms, n + 1))
        },
    }
}

/// Finds the id of a new entry.
fn generate_id(ctx: &CommandContext, key: &[u8], spec_text: &[u8], meta: &StreamMeta, now_ms: u64) -> (r:
    KvdbResult<EntryId>)
    ensures
        ({
            let want = new_id(
                ctx.storage@.subkey,
                ctx.namespace@,
                key@,
                spec_text@,
                *meta,
                now_ms,
            );
            match r {
                Ok(id) => want == Ok::<_, ErrorView>(id),
                Err(e) => want == Err::<EntryId, _>(e@),
            }
        }),
{
    if is_sign(spec_text, 42) {
        return id_in_ms(ctx, key, meta, now_ms);
    }
    let n: usize = spec_text.len();
    if n >= 2 && spec_text[n - 2] == 45 && spec_text[n - 1] == 42 {
        let digits = vstd::slice::slice_subrange(spec_text, 0, n - 2);
        proof {
            assert(digits@ =~= spec_text@.take(n - 2));
        }
        return match text::parse_u64(digits) {
            Some(ms) => id_in_ms(ctx, key, meta, ms),
            None => Err(bad_id_error()),
        };
    }
    let id = match EntryId::parse(spec_text) {
        Ok(id) => id,
        Err(e) => return Err(e),
    };
    let last = EntryId(meta.last_ms, meta.last_seq);
    if meta.size > 0 && !last.before(&id) {
        return Err(error::command_error("The ID specified in XADD must be greater than 0-0"));
    }
    Ok(id)
}

/// The fields among the arguments.
pub open spec fn fields_of(a: Seq<Seq<u8>>) -> Seq<FieldView> {
    Seq::new(((a.len() - 2) / 2) as nat, |i: int| (a[2 * i + 2], a[2 * i + 3]))
}

/// A clock reading as the milliseconds of an id.
pub open spec fn clock(now_ms: i64) -> u64 {
    codec::to_bits(now_ms as int) as u64
}

/// XADD key id field value [field value ...]: adds an entry and replies its
/// id.
pub open spec fn xadd_outcome(s: StoreView, ns: Seq<u8>, a: Seq<Seq<u8>>, at: Moment) -> Outcome {
    if a.len() < 3 || (a.len() - 2) % 2 != 0 {
        cmd::unchanged(Err(cmd::wrong_args("XADD"@)), s)
    } else {
        match stream_meta(s, ns, a[0], at.now_ms) {
            Err(e) => cmd::unchanged(Err(e), s),
            Ok(found) => {
                let m = match found {
                    Some(m) => m,
                    None => fresh_stream(at.version),
                };
                match new_id(s.subkey, ns, a[0], a[1], m, clock(at.now_ms)) {
                    Err(e) => cmd::unchanged(Err(e), s),
                    Ok(id) => Outcome {
                        reply: Ok(cmd::bulk(Some(id_text(id)))),
                        store: StoreView {
                            subkey: s.subkey.insert(
                                encoding::subkey_of(a[0], m.version, id_bytes(id), ns),
                                fields_bytes(fields_of(a)),
                            ),
                            metadata: s.metadata.insert(
                                encoding::meta_key_of(a[0], ns),
                                stream_meta_bytes(
                                    (StreamMeta {
                                        size: cmd::grown(m.size, 1),
                                        last_ms: id.0,
                                        last_seq: id.1,
                                        ..m
                                    }),
                                ),
                            ),
                            ..s
                        },
                    },
                }
            },
        }
    }
}

pub fn xadd(ctx: &mut CommandContext, args: &[Vec<u8>], at: Moment) -> (r: KvdbResult<RespValue>)
    ensures
        cmd::outcome(r, final(ctx).storage@) == xadd_outcome(
            old(ctx).storage@,
            old(ctx).namespace@,
            encoding::byte_seqs(args@),
            at,
        ),
        final(ctx).kept(*old(ctx)),
{
    proof {
        ctx.storage.lemma_follows_self();
    }
    match expect_min_arg_count("XADD", args, 3) {
        Ok(_) => {},
        Err(e) => return Err(e),
    }
    if (args.len() - 2) % 2 != 0 {
        return Err(KvdbError::WrongArgCount("XADD"));
    }
    let mut meta = match read_stream_meta(ctx, &args[0], at.now_ms) {
        Ok(Some(m)) => m,
        Ok(None) => StreamMeta::new(at.version),
        Err(e) => return Err(e),
    };
    let id = match generate_id(ctx, &args[0], &args[1], &meta, codec::bits_of(at.now_ms)) {
        Ok(id) => id,
        Err(e) => return Err(e),
    };
    let ghost a = encoding::byte_seqs(args@);
    let mut fields: Vec<(Vec<u8>, Vec<u8>)> = Vec::new();
    let mut i: usize = 2;
    proof {
        assert(field_views(fields@) =~= fields_of(a).take(0));
    }
    while i < args.len()
        invariant
            2 <= i <= args@.len(),
            args@.len() % 2 == 0,
            i % 2 == 0,
            a == encoding::byte_seqs(args@),
            field_views(fields@) =~= fields_of(a).take((i - 2) / 2),
        decreases args.len() - i,
    {
        let ghost before = field_views(fields@);
        fields.push((encoding::copy(&args[i]), encoding::copy(&args[i + 1])));
        proof {
            let j = (i - 2) / 2;
            assert(fields_of(a)[j] == (args@[i as int]@, args@[i + 1]@));
            assert(field_views(fields@) =~= before.push(fields_of(a)[j]));
            assert(fields_of(a).take(j + 1) =~= fields_of(a).take(j).push(fields_of(a)[j]));
        }
        i = i + 2;
    }
    proof {
        assert(fields_of(a).take((i - 2) / 2) =~= fields_of(a));
    }
    let sub = id.encode();
    let sk = ctx.sub_key(&args[0], meta.version, &sub);
    let value = encode_fields(&fields);
    let mut batch = WriteBatch::new();
    batch.put(Cf::Subkey, &sk, &value);
    meta.size = meta.size.wrapping_add(1);
    meta.last_ms = id.0;
    meta.last_seq = id.1;
    let mk = ctx.meta_key(&args[0]);
    let mv = meta.encode();
    batch.put(Cf::Metadata, &mk, &mv);
    ctx.storage.write(batch);
    Ok(RespValue::BulkString(Some(id.format_id())))
}

/// XLEN key: the size in the metadata.
pub open spec fn xlen_reply(s: StoreView, ns: Seq<u8>, a: Seq<Seq<u8>>, now_ms: i64) -> Result<
    RespView,
    ErrorView,
> {
    if a.len() != 1 {
        Err(cmd::wrong_args("XLEN"@))
    } else {
        match stream_meta(s, ns, a[0], now_ms) {
            Err(e) => Err(e),
            Ok(None) => Ok(RespView::Integer(0)),
            Ok(Some(m)) => Ok(cmd::count_reply(m.size)),
        }
    }
}

pub fn xlen(ctx: &CommandContext, args: &[Vec<u8>], now_ms: i64) -> (r: KvdbResult<RespValue>)
    ensures
        cmd::reply_view(r) == xlen_reply(
            ctx.storage@,
            ctx.namespace@,
            encoding::byte_seqs(args@),
            now_ms,
        ),
{
    if args.len() != 1 {
        return Err(KvdbError::WrongArgCount("XLEN"));
    }
    match read_stream_meta(ctx, &args[0], now_ms) {
        Ok(Some(m)) => Ok(count_value(m.size)),
        Ok(None) => Ok(RespValue::Integer(0)),
        Err(e) => Err(e),
    }
}

/// The bound of a range that a text writes: an id, or milliseconds with a dash
/// behind them.
pub open spec fn bound_in(s: Seq<u8>) -> Option<EntryId> {
    if s.len() > 1 && s.last() == 45 {
        match text::u64_in(s.drop_last()) {
            Some(ms) => Some(EntryId(ms, 0)),
            None => None,
        }
    } else {
        id_in(s)
    }
}

/// Reads the bound of a range.
pub fn parse_range_bound(s: &[u8]) -> (r: KvdbResult<EntryId>)
    ensures
        match r {
            Ok(id) => bound_in(s@) == Some(id),
            Err(e) => bound_in(s@) is None && e@ == bad_id(),
        },
{
    let n: usize = s.len();
    if n > 1 && s[n - 1] == 45 {
        let digits = vstd::slice::slice_subrange(s, 0, n - 1);
        proof {
            assert(digits@ =~= s@.drop_last());
        }
        return match text::parse_u64(digits) {
            Some(ms) => Ok(EntryId(ms, 0)),
            None => Err(bad_id_error()),
        };
    }
    EntryId::parse(s)
}

/// The id in an entry's subkey.
pub open spec fn id_of_key(k: Seq<u8>, ns: Seq<u8>) -> Option<EntryId> {
    match encoding::subkey_parts(k, ns) {
        Some((_, _, sub)) => if sub.len() < 16 {
            None
        } else {
            Some(id_in_bytes(sub))
        },
        None => None,
    }
}

/// Reads the id out of an entry's subkey.
fn parse_entry_id_from_subkey(ctx: &CommandContext, key: &[u8]) -> (r: Option<EntryId>)
    ensures
        r == id_of_key(key@, ctx.namespace@),
{
    match ctx.parse_subkey(key) {
        Some((_key, _version, sub)) => {
            if sub.len() < 16 {
                return None;
            }
            Some(EntryId(encoding::read_u64(sub, 0), encoding::read_u64(sub, 8)))
        },
        None => None,
    }
}

/// An entry that cannot be read.
pub open spec fn unreadable(e: Entries, ns: Seq<u8>) -> spec_fn(Seq<u8>) -> bool {
    |k: Seq<u8>| id_of_key(k, ns) is None || fields_in(e[k]) is None
}

/// The error for an entry that cannot be read.
pub open spec fn entry_error(k: Seq<u8>, ns: Seq<u8>) -> ErrorView {
    if id_of_key(k, ns) is None {
        ErrorView::Protocol("invalid stream subkey encoding"@)
    } else {
        ErrorView::Protocol("invalid stream entry encoding"@)
    }
}

/// Name, value, name, value and so on.
pub open spec fn fields_reply(fs: Seq<FieldView>) -> Seq<RespView> {
    Seq::new(
        2 * fs.len(),
        |i: int|
            if i % 2 == 0 {
                cmd::bulk(Some(fs[i / 2].0))
            } else {
                cmd::bulk(Some(fs[i / 2].1))
            },
    )
}

/// The reply of an entry: its id and its fields.
pub open spec fn entry_reply(e: Entries, ns: Seq<u8>, k: Seq<u8>) -> RespView {
    RespView::Array(
        seq![
            cmd::bulk(Some(id_text(id_of_key(k, ns)->0))),
            RespView::Array(fields_reply(fields_in(e[k])->0)),
        ],
    )
}

/// The replies of entries.
pub open spec fn entry_replies(e: Entries, ns: Seq<u8>, ks: Seq<Seq<u8>>) -> Seq<RespView> {
    Seq::new(ks.len(), |i: int| entry_reply(e, ns, ks[i]))
}

fn build_entry_resp(id: EntryId, fields: &Vec<(Vec<u8>, Vec<u8>)>) -> (r: RespValue)
    ensures
        r@ == RespView::Array(
            seq![
                cmd::bulk(Some(id_text(id))),
                RespView::Array(fields_reply(field_views(fields@))),
            ],
        ),
{
    let ghost fs = field_views(fields@);
    let mut flat: Vec<RespValue> = Vec::new();
    let mut i: usize = 0;
    proof {
        assert(protocol::views(flat@) =~= fields_reply(fs.take(0)));
    }
    while i < fields.len()
        invariant
            i <= fields@.len(),
            fs == field_views(fields@),
            protocol::views(flat@) == fields_reply(fs.take(i as int)),
        decreases fields.len() - i,
    {
        let ghost before = protocol::views(flat@);
        push_reply(&mut flat, RespValue::BulkString(Some(encoding::copy(&fields[i].0))));
        push_reply(&mut flat, RespValue::BulkString(Some(encoding::copy(&fields[i].1))));
        proof {
            assert(fs[i as int] == (fields@[i as int].0@, fields@[i as int].1@));
            assert(fields_reply(fs.take(i + 1)) =~= before.push(
                cmd::bulk(Some(fs[i as int].0)),
            ).push(cmd::bulk(Some(fs[i as int].1))));
        }
        i = i + 1;
    }
    let mut entry: Vec<RespValue> = Vec::new();
    push_reply(&mut entry, RespValue::BulkString(Some(id.format_id())));
    push_reply(&mut entry, array(flat));
    proof {
        assert(fs.take(i as int) =~= fs);
        assert(protocol::views(entry@) =~= seq![
            cmd::bulk(Some(id_text(id))),
            RespView::Array(fields_reply(fs)),
        ]);
    }
    array(entry)
}

/// Entries that were read.
pub type EntryPage = Vec<(EntryId, Vec<(Vec<u8>, Vec<u8>)>)>;

/// The entries are those of the given subkeys.
spec fn page_holds(page: Seq<(EntryId, Vec<(Vec<u8>, Vec<u8>)>)>, e: Entries, ns: Seq<u8>, ks: Seq<
    Seq<u8>,
>) -> bool {
    &&& page.len() == ks.len()
    &&& forall|i: int|
        0 <= i < page.len() ==> id_of_key(ks[i], ns) == Some((#[trigger] page[i]).0) && fields_in(
            e[ks[i]],
        ) == Some(field_views(page[i].1@))
}

/// Reads the entries of a page, all of them or none.
fn read_entries(
    ctx: &CommandContext,
    items: &Vec<(Vec<u8>, Vec<u8>)>,
    Ghost(e): Ghost<Entries>,
    Ghost(ks): Ghost<Seq<Seq<u8>>>,
) -> (r: KvdbResult<EntryPage>)
    requires
        table::pairs_of(items@) == table::entries_at(e, ks),
    ensures
        ({
            let bad = unreadable(e, ctx.namespace@);
            let first = order::first_from(ks, bad, 0);
            match r {
                Ok(page) => first == ks.len() && page_holds(page@, e, ctx.namespace@, ks),
                Err(err) => 0 <= first < ks.len() && bad(ks[first]) && err@ == entry_error(
                    ks[first],
                    ctx.namespace@,
                ),
            }
        }),
{
    let ghost ns = ctx.namespace@;
    let ghost bad = unreadable(e, ns);
    let mut page: EntryPage = Vec::new();
    let mut i: usize = 0;
    proof {
        assert(table::pairs_of(items@).len() == items@.len());
        assert(table::entries_at(e, ks).len() == ks.len());
    }
    while i < items.len()
        invariant
            i <= items@.len(),
            items@.len() == ks.len(),
            ns == ctx.namespace@,
            bad == unreadable(e, ns),
            table::pairs_of(items@) == table::entries_at(e, ks),
            order::first_from(ks, bad, 0) == order::first_from(ks, bad, i as int),
            page_holds(page@, e, ns, ks.take(i as int)),
        decreases items.len() - i,
    {
        let ghost k = ks[i as int];
        proof {
            assert(table::pairs_of(items@)[i as int] == table::entries_at(e, ks)[i as int]);
            assert(items@[i as int].0@ == k);
            assert(items@[i as int].1@ == e[k]);
        }
        let id = match parse_entry_id_from_subkey(ctx, &items[i].0) {
            Some(id) => id,
            None => {
                proof {
                    assert(bad(k));
                    assert(order::first_from(ks, bad, i as int) == i);
                }
                return Err(error::protocol_error("invalid stream subkey encoding"));
            },
        };
        let fields = match decode_fields(&items[i].1) {
            Some(f) => f,
            None => {
                proof {
                    assert(bad(k));
                    assert(order::first_from(ks, bad, i as int) == i);
                }
                return Err(error::protocol_error("invalid stream entry encoding"));
            },
        };
        proof {
            assert(!bad(k));
            assert(order::first_from(ks, bad, i as int) == order::first_from(ks, bad, i + 1));
        }
        let ghost before = page@;
        page.push((id, fields));
        proof {
            assert forall|j: int| 0 <= j < page@.len() implies id_of_key(ks.take(i + 1)[j], ns)
                == Some((#[trigger] page@[j]).0) && fields_in(e[ks.take(i + 1)[j]]) == Some(
                field_views(page@[j].1@),
            ) by {
                if j < i {
                    assert(page@[j] == before[j]);
                    assert(ks.take(i as int)[j] == ks.take(i + 1)[j]);
                }
            }
        }
        i = i + 1;
    }
    proof {
        assert(ks.take(i as int) =~= ks);
    }
    Ok(page)
}

/// An entry behind the end of a range.
pub open spec fn behind(ns: Seq<u8>, end: EntryId) -> spec_fn(Seq<u8>) -> bool {
    |k: Seq<u8>|
        match id_of_key(k, ns) {
            Some(id) => id_lt(end, id),
            None => false,
        }
}

/// An entry in a range.
pub open spec fn within(ns: Seq<u8>, start: EntryId, end: EntryId) -> spec_fn(Seq<u8>) -> bool {
    |k: Seq<u8>|
        match id_of_key(k, ns) {
            Some(id) => !id_lt(id, start) && !id_lt(end, id),
            None => false,
        }
}

/// The place of the entry that ends the reading of a range, from `i` on with
/// `hits` entries found: the first one behind the range, or the one that
/// makes up the count.
pub open spec fn stops_at(
    ks: Seq<Seq<u8>>,
    out: spec_fn(Seq<u8>) -> bool,
    hit: spec_fn(Seq<u8>) -> bool,
    count: Option<usize>,
    i: int,
    hits: nat,
) -> int
    decreases ks.len() - i,
{
    if i >= ks.len() || out(ks[i]) {
        i
    } else if hit(ks[i]) {
        if count is Some && hits + 1 >= count->0 {
            i
        } else {
            stops_at(ks, out, hit, count, i + 1, hits + 1)
        }
    } else {
        stops_at(ks, out, hit, count, i + 1, hits)
    }
}

/// The entries from `start` to `end`, at most `count` of them. Entries are
/// read in pages; one that cannot be read is an error if its page is reached.
pub open spec fn range_reply(
    e: Entries,
    ks: Seq<Seq<u8>>,
    ns: Seq<u8>,
    start: EntryId,
    end: EntryId,
    count: Option<usize>,
) -> Result<RespView, ErrorView> {
    let first_bad = order::first_from(ks, unreadable(e, ns), 0);
    let hit = within(ns, start, end);
    let stop = stops_at(ks, behind(ns, end), hit, count, 0, 0);
    if first_bad < ks.len() && first_bad / 1000 <= stop / 1000 {
        Err(entry_error(ks[first_bad], ns))
    } else {
        let read = if stop < ks.len() {
            ks.take(stop + 1)
        } else {
            ks
        };
        Ok(RespView::Array(entry_replies(e, ns, read.filter(hit))))
    }
}

/// XRANGE key start end [COUNT count].
pub open spec fn xrange_reply(s: StoreView, ns: Seq<u8>, a: Seq<Seq<u8>>, now_ms: i64) -> Result<
    RespView,
    ErrorView,
> {
    if a.len() < 3 || a.len() > 5 {
        Err(cmd::wrong_args("XRANGE"@))
    } else {
        match (bound_in(a[1]), bound_in(a[2])) {
            (Some(start), Some(end)) => if a.len() == 5 && !text::is_word(a[3], "COUNT"@) {
                Err(ErrorView::Command("syntax error"@))
            } else if a.len() == 5 && text::usize_in(a[4]) is None {
                Err(ErrorView::NotInteger)
            } else {
                let count = if a.len() == 5 {
                    text::usize_in(a[4])
                } else {
                    None
                };
                match stream_meta(s, ns, a[0], now_ms) {
                    Err(e) => Err(e),
                    Ok(None) => Ok(cmd::no_items()),
                    Ok(Some(m)) => if count == Some(0usize) {
                        Ok(cmd::no_items())
                    } else {
                        range_reply(
                            s.subkey,
                            table::keys_with(
                                s.subkey,
                                encoding::sub_prefix(a[0], m.version, ns),
                            ),
                            ns,
                            start,
                            end,
                            count,
                        )
                    },
                }
            },
            _ => Err(bad_id()),
        }
    }
}

proof fn lemma_stops_behind(
    ks: Seq<Seq<u8>>,
    out: spec_fn(Seq<u8>) -> bool,
    hit: spec_fn(Seq<u8>) -> bool,
    count: Option<usize>,
    i: int,
    hits: nat,
)
    requires
        i <= ks.len(),
    ensures
        i <= stops_at(ks, out, hit, count, i, hits) <= ks.len(),
    decreases ks.len() - i,
{
    if i < ks.len() && !out(ks[i]) {
        lemma_stops_behind(ks, out, hit, count, i + 1, hits + 1);
        lemma_stops_behind(ks, out, hit, count, i + 1, hits);
    }
}

/// The first place from 0 on is the first one from `i` on, if there is none
/// before.
proof fn lemma_first_skips(ks: Seq<Seq<u8>>, p: spec_fn(Seq<u8>) -> bool, i: int, n: int)
    requires
        0 <= i,
        0 <= n,
        i + n <= ks.len(),
    ensures
        ({
            let f = order::first_from(ks.subrange(i, i + n), p, 0);
            if f < n {
                order::first_from(ks, p, i) == i + f
            } else {
                order::first_from(ks, p, i) == order::first_from(ks, p, i + n)
            }
        }),
{
    lemma_first_skips_from(ks, p, i, n, 0);
}

proof fn lemma_first_skips_from(
    ks: Seq<Seq<u8>>,
    p: spec_fn(Seq<u8>) -> bool,
    i: int,
    n: int,
    j: int,
)
    requires
        0 <= i,
        0 <= j <= n,
        i + n <= ks.len(),
    ensures
        ({
            let f = order::first_from(ks.subrange(i, i + n), p, j);
            if f < n {
                order::first_from(ks, p, i + j) == i + f
            } else {
                order::first_from(ks, p, i + j) == order::first_from(ks, p, i + n)
            }
        }),
    decreases n - j,
{
    if j < n {
        assert(ks.subrange(i, i + n)[j] == ks[i + j]);
        if !p(ks[i + j]) {
            lemma_first_skips_from(ks, p, i, n, j + 1);
        }
    }
}

fn collect_range(
    ctx: &CommandContext,
    prefix: &[u8],
    start: EntryId,
    end: EntryId,
    count: Option<usize>,
) -> (r: KvdbResult<RespValue>)
    requires
        prefix@.len() > 0,
        count != Some(0usize),
    ensures
        cmd::reply_view(r) == range_reply(
            ctx.storage@.subkey,
            table::keys_with(ctx.storage@.subkey, prefix@),
            ctx.namespace@,
            start,
            end,
            count,
        ),
{
    let mut result: Vec<RespValue> = Vec::new();
    let mut start_key: Vec<u8> = Vec::new();
    let ghost e = ctx.storage@.subkey;
    let ghost ns = ctx.namespace@;
    let ghost ks = table::keys_with(e, prefix@);
    let ghost bad = unreadable(e, ns);
    let ghost out = behind(ns, end);
    let ghost hit = within(ns, start, end);
    let ghost want = range_reply(e, ks, ns, start, end, count);
    let ghost stop = stops_at(ks, out, hit, count, 0, 0);
    let ghost mut pos: int = 0;
    proof {
        assert(start_key@ =~= table::forward_mark(e, prefix@, 0));
        assert(ks.take(0).filter(hit) =~= Seq::<Seq<u8>>::empty()) by {
            reveal(Seq::filter);
        }
        assert(protocol::views(result@) =~= entry_replies(e, ns, ks.take(0).filter(hit)));
    }
    loop
        invariant_except_break
            start_key@ == table::forward_mark(e, prefix@, pos),
            0 <= pos <= ks.len(),
            pos % 1000 == 0,
            order::first_from(ks, bad, 0) == order::first_from(ks, bad, pos),
            stop == stops_at(ks, out, hit, count, pos, ks.take(pos).filter(hit).len()),
            protocol::views(result@) == entry_replies(e, ns, ks.take(pos).filter(hit)),
            count is Some ==> ks.take(pos).filter(hit).len() < count->0,
        invariant
            prefix@.len() > 0,
            count != Some(0usize),
            e == ctx.storage@.subkey,
            ns == ctx.namespace@,
            ks == table::keys_with(e, prefix@),
            bad == unreadable(e, ns),
            out == behind(ns, end),
            hit == within(ns, start, end),
            stop == stops_at(ks, out, hit, count, 0, 0),
            want == range_reply(e, ks, ns, start, end, count),
        ensures
            want == Ok::<_, ErrorView>(RespView::Array(protocol::views(result@))),
        decreases ks.len() - pos,
    {
        let (items, next) = ctx.storage.walk(
            Cf::Subkey,
            prefix,
            &start_key,
            STREAM_PAGE_LIMIT,
            Ghost(pos),
        );
        if items.len() == 0 {
            proof {
                assert(ks.take(pos) =~= ks);
                assert(order::first_from(ks, bad, pos) == ks.len());
            }
            break;
        }
        let ghost n = items@.len() as int;
        let ghost part = ks.subrange(pos, pos + n);
        proof {
            lemma_first_skips(ks, bad, pos, n);
            lemma_stops_behind(ks, out, hit, count, pos, ks.take(pos).filter(hit).len());
        }
        let page = match read_entries(ctx, &items, Ghost(e), Ghost(part)) {
            Ok(page) => page,
            Err(err) => {
                proof {
                    let f = order::first_from(part, bad, 0);
                    assert(part[f] == ks[pos + f]);
                    assert(order::first_from(ks, bad, 0) == pos + f);
                    assert((pos + f) / 1000 <= stop / 1000);
                }
                return Err(err);
            },
        };
        proof {
            order::lemma_first_bound(ks, bad, pos + n);
        }
        let mut j: usize = 0;
        while j < page.len()
            invariant
                j <= page@.len(),
                page@.len() == n,
                0 <= pos,
                pos % 1000 == 0,
                pos + n <= ks.len(),
                n <= 1000,
                n < 1000 ==> pos + n == ks.len(),
                part == ks.subrange(pos, pos + n),
                page_holds(page@, e, ns, part),
                count != Some(0usize),
                e == ctx.storage@.subkey,
                ns == ctx.namespace@,
                ks == table::keys_with(e, prefix@),
                out == behind(ns, end),
                hit == within(ns, start, end),
                bad == unreadable(e, ns),
                order::first_from(ks, bad, 0) >= pos + n,
                stop == stops_at(ks, out, hit, count, 0, 0),
                want == range_reply(e, ks, ns, start, end, count),
                stop == stops_at(ks, out, hit, count, pos + j, ks.take(pos + j).filter(hit).len()),
                protocol::views(result@) == entry_replies(e, ns, ks.take(pos + j).filter(hit)),
                count is Some ==> ks.take(pos + j).filter(hit).len() < count->0,
            decreases page.len() - j,
        {
            let ghost x = pos + j;
            let ghost k = ks[x];
            let ghost hits = ks.take(x).filter(hit);
            proof {
                assert(part[j as int] == k);
                assert(id_of_key(part[j as int], ns) == Some(page@[j as int].0));
                assert(ks.take(x + 1) =~= ks.take(x).push(k));
                ks.take(x).lemma_filter_push(k, hit);
                assert(protocol::views(result@).len() == hits.len());
            }
            let id = page[j].0;
            if end.before(&id) {
                proof {
                    assert(stop == x);
                    assert(!hit(k));
                }
                return Ok(array(result));
            }
            if !id.before(&start) {
                proof {
                    assert(hit(k));
                }
                push_reply(&mut result, build_entry_resp(id, &page[j].1));
                proof {
                    assert(fields_in(e[part[j as int]]) == Some(field_views(page@[j as int].1@)));
                    assert(protocol::views(result@) =~= entry_replies(e, ns, hits.push(k)));
                    assert(result@.len() == protocol::views(result@).len());
                }
                match count {
                    Some(c) => if result.len() >= c {
                        proof {
                            assert(stop == x);
                        }
                        return Ok(array(result));
                    },
                    None => {},
                }
            } else {
                proof {
                    assert(!hit(k));
                }
            }
            j = j + 1;
        }
        proof {
            pos = pos + n;
        }
        match next {
            Some(k) => {
                start_key = k;
            },
            None => {
                proof {
                    assert(ks.take(pos) =~= ks);
                    assert(order::first_from(ks, bad, pos) == ks.len());
                }
                break;
            },
        }
    }
    Ok(array(result))
}

pub fn xrange(ctx: &CommandContext, args: &[Vec<u8>], now_ms: i64) -> (r: KvdbResult<RespValue>)
    ensures
        cmd::reply_view(r) == xrange_reply(
            ctx.storage@,
            ctx.namespace@,
            encoding::byte_seqs(args@),
            now_ms,
        ),
{
    if args.len() < 3 || args.len() > 5 {
        return Err(KvdbError::WrongArgCount("XRANGE"));
    }
    let start = match parse_range_bound(&args[1]) {
        Ok(id) => id,
        Err(e) => return Err(e),
    };
    let end = match parse_range_bound(&args[2]) {
        Ok(id) => id,
        Err(e) => return Err(e),
    };
    let mut count: Option<usize> = None;
    if args.len() == 5 {
        if !text::matches_word(&args[3], "COUNT") {
            return Err(error::command_error("syntax error"));
        }
        match text::parse_usize(&args[4]) {
            Some(n) => {
                count = Some(n);
            },
            None => return Err(KvdbError::NotInteger),
        }
    }
    let meta = match read_stream_meta(ctx, &args[0], now_ms) {
        Ok(Some(m)) => m,
        Ok(None) => return Ok(empty_array()),
        Err(e) => return Err(e),
    };
    match count {
        Some(0) => return Ok(empty_array()),
        _ => {},
    }
    let prefix = ctx.sub_prefix(&args[0], meta.version);
    collect_range(ctx, &prefix, start, end, count)
}

/// The id from which XREAD reads. The signs for the least and the greatest id
/// are not taken.
pub open spec fn read_id_in(s: Seq<u8>) -> Option<EntryId> {
    if s == seq![45u8] || s == seq![43u8] {
        None
    } else {
        id_in(s)
    }
}

/// Reads the id from which XREAD reads.
pub fn parse_xread_id(s: &[u8]) -> (r: KvdbResult<EntryId>)
    ensures
        match r {
            Ok(id) => read_id_in(s@) == Some(id),
            Err(e) => read_id_in(s@) is None && e@ == bad_id(),
        },
{
    if is_sign(s, 45) || is_sign(s, 43) {
        return Err(bad_id_error());
    }
    EntryId::parse(s)
}

/// An entry behind the given id.
pub open spec fn after(ns: Seq<u8>, start: EntryId) -> spec_fn(Seq<u8>) -> bool {
    |k: Seq<u8>|
        match id_of_key(k, ns) {
            Some(id) => id_lt(start, id),
            None => false,
        }
}

/// The entries of a stream behind an id.
pub open spec fn entries_after(e: Entries, ns: Seq<u8>, ks: Seq<Seq<u8>>, start: EntryId) -> Result<
    Seq<RespView>,
    ErrorView,
> {
    let first_bad = order::first_from(ks, unreadable(e, ns), 0);
    if first_bad < ks.len() {
        Err(entry_error(ks[first_bad], ns))
    } else {
        Ok(entry_replies(e, ns, ks.filter(after(ns, start))))
    }
}

/// At most `count` of some replies, the first ones.
pub open spec fn limited(found: Seq<RespView>, count: Option<usize>) -> Seq<RespView> {
    if count is Some && count->0 < found.len() {
        found.take(count->0 as int)
    } else {
        found
    }
}

/// The replies of the first `n` of `half` streams among the arguments: key and
/// entries of every stream that has entries behind its id, at most `count` of
/// each.
pub open spec fn streams_read(
    s: StoreView,
    ns: Seq<u8>,
    a: Seq<Seq<u8>>,
    now_ms: i64,
    count: Option<usize>,
    half: int,
    n: nat,
) -> Result<Seq<RespView>, ErrorView>
    decreases n,
{
    if n == 0 {
        Ok(Seq::empty())
    } else {
        let key = a[n as int];
        match streams_read(s, ns, a, now_ms, count, half, (n - 1) as nat) {
            Err(e) => Err(e),
            Ok(before) => match read_id_in(a[half + n]) {
                None => Err(bad_id()),
                Some(start) => match stream_meta(s, ns, key, now_ms) {
                    Err(e) => Err(e),
                    Ok(None) => Ok(before),
                    Ok(Some(m)) => match entries_after(
                        s.subkey,
                        ns,
                        table::keys_with(s.subkey, encoding::sub_prefix(key, m.version, ns)),
                        start,
                    ) {
                        Err(e) => Err(e),
                        Ok(found) => if limited(found, count).len() == 0 {
                            Ok(before)
                        } else {
                            Ok(
                                before.push(
                                    RespView::Array(
                                        seq![
                                            cmd::bulk(Some(key)),
                                            RespView::Array(limited(found, count)),
                                        ],
                                    ),
                                ),
                            )
                        },
                    },
                },
            },
        }
    }
}

/// What XREAD replies for STREAMS key [key ...] id [id ...].
pub open spec fn streams_reply(
    s: StoreView,
    ns: Seq<u8>,
    a: Seq<Seq<u8>>,
    now_ms: i64,
    count: Option<usize>,
) -> Result<RespView, ErrorView> {
    if a.len() < 3 {
        Err(cmd::wrong_args("XREAD"@))
    } else if !text::is_word(a[0], "STREAMS"@) {
        Err(ErrorView::Command("syntax error"@))
    } else if (a.len() - 1) % 2 != 0 {
        Err(cmd::wrong_args("XREAD"@))
    } else {
        let half = (a.len() - 1) / 2;
        match streams_read(s, ns, a, now_ms, count, half, half as nat) {
            Err(e) => Err(e),
            Ok(found) => Ok(RespView::Array(found)),
        }
    }
}

/// XREAD [COUNT count] STREAMS key [key ...] id [id ...].
pub open spec fn xread_reply(s: StoreView, ns: Seq<u8>, a: Seq<Seq<u8>>, now_ms: i64) -> Result<
    RespView,
    ErrorView,
> {
    if a.len() >= 3 && text::is_word(a[0], "COUNT"@) {
        match text::usize_in(a[1]) {
            None => Err(ErrorView::NotInteger),
            Some(n) => streams_reply(s, ns, a.skip(2), now_ms, Some(n)),
        }
    } else {
        streams_reply(s, ns, a, now_ms, None)
    }
}

proof fn lemma_streams_error(
    s: StoreView,
    ns: Seq<u8>,
    a: Seq<Seq<u8>>,
    now_ms: i64,
    count: Option<usize>,
    half: int,
    n: nat,
    m: nat,
)
    requires
        n <= m,
        streams_read(s, ns, a, now_ms, count, half, n) is Err,
    ensures
        streams_read(s, ns, a, now_ms, count, half, m) == streams_read(s, ns, a, now_ms, count, half, n),
    decreases m,
{
    if n < m {
        lemma_streams_error(s, ns, a, now_ms, count, half, n, (m - 1) as nat);
    }
}

fn collect_after(ctx: &CommandContext, prefix: &[u8], start: EntryId) -> (r: KvdbResult<
    Vec<RespValue>,
>)
    requires
        prefix@.len() > 0,
    ensures
        ({
            let want = entries_after(
                ctx.storage@.subkey,
                ctx.namespace@,
                table::keys_with(ctx.storage@.subkey, prefix@),
                start,
            );
            match r {
                Ok(v) => want == Ok::<_, ErrorView>(protocol::views(v@)),
                Err(e) => want == Err::<Seq<RespView>, _>(e@),
            }
        }),
{
    let mut result: Vec<RespValue> = Vec::new();
    let mut start_key: Vec<u8> = Vec::new();
    let ghost e = ctx.storage@.subkey;
    let ghost ns = ctx.namespace@;
    let ghost ks = table::keys_with(e, prefix@);
    let ghost bad = unreadable(e, ns);
    let ghost hit = after(ns, start);
    let ghost mut pos: int = 0;
    proof {
        assert(start_key@ =~= table::forward_mark(e, prefix@, 0));
        assert(ks.take(0).filter(hit) =~= Seq::<Seq<u8>>::empty()) by {
            reveal(Seq::filter);
        }
        assert(protocol::views(result@) =~= entry_replies(e, ns, ks.take(0).filter(hit)));
    }
    loop
        invariant_except_break
            start_key@ == table::forward_mark(e, prefix@, pos),
            0 <= pos <= ks.len(),
            order::first_from(ks, bad, 0) == order::first_from(ks, bad, pos),
            protocol::views(result@) == entry_replies(e, ns, ks.take(pos).filter(hit)),
        invariant
            prefix@.len() > 0,
            e == ctx.storage@.subkey,
            ns == ctx.namespace@,
            ks == table::keys_with(e, prefix@),
            bad == unreadable(e, ns),
            hit == after(ns, start),
        ensures
            order::first_from(ks, bad, 0) == ks.len(),
            protocol::views(result@) == entry_replies(e, ns, ks.filter(hit)),
        decreases ks.len() - pos,
    {
        let (items, next) = ctx.storage.walk(
            Cf::Subkey,
            prefix,
            &start_key,
            STREAM_PAGE_LIMIT,
            Ghost(pos),
        );
        if items.len() == 0 {
            proof {
                assert(ks.take(pos) =~= ks);
            }
            break;
        }
        let ghost n = items@.len() as int;
        let ghost part = ks.subrange(pos, pos + n);
        proof {
            lemma_first_skips(ks, bad, pos, n);
        }
        let page = match read_entries(ctx, &items, Ghost(e), Ghost(part)) {
            Ok(page) => page,
            Err(err) => {
                proof {
                    let f = order::first_from(part, bad, 0);
                    assert(part[f] == ks[pos + f]);
                }
                return Err(err);
            },
        };
        let mut j: usize = 0;
        while j < page.len()
            invariant
                j <= page@.len(),
                page@.len() == n,
                0 <= pos,
                pos + n <= ks.len(),
                part == ks.subrange(pos, pos + n),
                page_holds(page@, e, ns, part),
                ns == ctx.namespace@,
                hit == after(ns, start),
                protocol::views(result@) == entry_replies(e, ns, ks.take(pos + j).filter(hit)),
            decreases page.len() - j,
        {
            let ghost x = pos + j;
            let ghost k = ks[x];
            let ghost hits = ks.take(x).filter(hit);
            proof {
                assert(part[j as int] == k);
                assert(id_of_key(part[j as int], ns) == Some(page@[j as int].0));
                assert(ks.take(x + 1) =~= ks.take(x).push(k));
                ks.take(x).lemma_filter_push(k, hit);
            }
            let id = page[j].0;
            if start.before(&id) {
                push_reply(&mut result, build_entry_resp(id, &page[j].1));
                proof {
                    assert(fields_in(e[part[j as int]]) == Some(field_views(page@[j as int].1@)));
                    assert(protocol::views(result@) =~= entry_replies(e, ns, hits.push(k)));
                }
            }
            j = j + 1;
        }
        proof {
            pos = pos + n;
        }
        match next {
            Some(k) => {
                start_key = k;
            },
            None => {
                proof {
                    assert(ks.take(pos) =~= ks);
                }
                break;
            },
        }
    }
    Ok(result)
}

pub fn xread(ctx: &CommandContext, args: &[Vec<u8>], now_ms: i64) -> (r: KvdbResult<RespValue>)
    ensures
        cmd::reply_view(r) == xread_reply(
            ctx.storage@,
            ctx.namespace@,
            encoding::byte_seqs(args@),
            now_ms,
        ),
{
    proof {
        assert(args.len() == args@.len());
    }
    if args.len() >= 3 && text::matches_word(&args[0], "COUNT") {
        let n: usize = match text::parse_usize(&args[1]) {
            Some(n) => n,
            None => return Err(KvdbError::NotInteger),
        };
        let rest = vstd::slice::slice_subrange(args, 2, args.len());
        proof {
            assert(encoding::byte_seqs(rest@) =~= encoding::byte_seqs(args@).skip(2));
        }
        return read_streams(ctx, rest, now_ms, Some(n));
    }
    read_streams(ctx, args, now_ms, None)
}

fn read_streams(ctx: &CommandContext, args: &[Vec<u8>], now_ms: i64, count: Option<usize>) -> (r:
    KvdbResult<RespValue>)
    ensures
        cmd::reply_view(r) == streams_reply(
            ctx.storage@,
            ctx.namespace@,
            encoding::byte_seqs(args@),
            now_ms,
            count,
        ),
{
    if args.len() < 3 {
        return Err(KvdbError::WrongArgCount("XREAD"));
    }
    if !text::matches_word(&args[0], "STREAMS") {
        return Err(error::command_error("syntax error"));
    }
    if (args.len() - 1) % 2 != 0 {
        return Err(KvdbError::WrongArgCount("XREAD"));
    }
    let half: usize = (args.len() - 1) / 2;
    let ghost s = ctx.storage@;
    let ghost ns = ctx.namespace@;
    let ghost a = encoding::byte_seqs(args@);
    let mut streams: Vec<RespValue> = Vec::new();
    let mut i: usize = 1;
    proof {
        assert(protocol::views(streams@) =~= Seq::<RespView>::empty());
    }
    while i <= half
        invariant
            1 <= i <= half + 1,
            half == (args@.len() - 1) / 2,
            args@.len() % 2 == 1,
            args@.len() >= 3,
            s == ctx.storage@,
            ns == ctx.namespace@,
            a == encoding::byte_seqs(args@),
            text::is_word(a[0], "STREAMS"@),
            streams_read(s, ns, a, now_ms, count, half as int, (i - 1) as nat) == Ok::<_, ErrorView>(
                protocol::views(streams@),
            ),
        decreases half + 1 - i,
    {
        proof {
            assert(args.len() == args@.len());
            assert(a[i as int] == args@[i as int]@);
            assert(a[half + i] == args@[half + i]@);
            if streams_read(s, ns, a, now_ms, count, half as int, i as nat) is Err {
                lemma_streams_error(s, ns, a, now_ms, count, half as int, i as nat, half as nat);
            }
        }
        let start = match parse_xread_id(&args[half + i]) {
            Ok(id) => id,
            Err(e) => return Err(e),
        };
        let meta = match read_stream_meta(ctx, &args[i], now_ms) {
            Ok(m) => m,
            Err(e) => return Err(e),
        };
        match meta {
            None => {},
            Some(m) => {
                let prefix = ctx.sub_prefix(&args[i], m.version);
                let mut found = match collect_after(ctx, &prefix, start) {
                    Ok(v) => v,
                    Err(e) => return Err(e),
                };
                let ghost all = protocol::views(found@);
                match count {
                    Some(n) => if n < found.len() {
                        found.truncate(n);
                    },
                    None => {},
                }
                proof {
                    assert(protocol::views(found@) =~= limited(all, count));
                    assert(protocol::views(found@).len() == found@.len());
                }
                if found.len() > 0 {
                    let ghost entries = protocol::views(found@);
                    let mut pair: Vec<RespValue> = Vec::new();
                    push_reply(&mut pair, RespValue::BulkString(Some(encoding::copy(&args[i]))));
                    push_reply(&mut pair, array(found));
                    proof {
                        assert(protocol::views(pair@) =~= seq![
                            cmd::bulk(Some(args@[i as int]@)),
                            RespView::Array(entries),
                        ]);
                    }
                    push_reply(&mut streams, array(pair));
                }
            },
        }
        i = i + 1;
    }
    Ok(array(streams))
}

} // verus!
