//! Keys and values as they are laid out in the column families.
//!
//! A metadata key is the user key behind its length, and behind the namespace
//! and the namespace's length where there is a namespace. A subkey is the
//! metadata key, the version of the value and the element's own bytes.

use crate::codec;
use crate::order;
use crate::types;
use crate::types::{DataType, Metadata};
use vstd::prelude::*;

verus! {

/// The bytes before the user key's length: nothing in the default namespace,
/// the namespace behind its length otherwise.
pub open spec fn ns_prefix(ns: Seq<u8>) -> Seq<u8> {
    if ns.len() == 0 {
        Seq::empty()
    } else {
        seq![(ns.len() % 256) as u8] + ns
    }
}

/// The metadata key of `key` in the namespace `ns`.
pub open spec fn meta_key_of(key: Seq<u8>, ns: Seq<u8>) -> Seq<u8> {
    ns_prefix(ns) + codec::be(key.len() % 0x1_0000_0000, 4) + key
}

/// What all subkeys of one version of a value begin with.
pub open spec fn sub_prefix(key: Seq<u8>, version: u64, ns: Seq<u8>) -> Seq<u8> {
    meta_key_of(key, ns) + codec::be(version as nat, 8)
}

/// The subkey of the element `sub`.
pub open spec fn subkey_of(key: Seq<u8>, version: u64, sub: Seq<u8>, ns: Seq<u8>) -> Seq<u8> {
    sub_prefix(key, version, ns) + sub
}

/// Where the user key's length stands in a key of the namespace `ns`: at the
/// start in the default namespace, behind the namespace otherwise. Nothing if
/// the bytes there are not those of the namespace.
pub open spec fn key_offset(data: Seq<u8>, ns: Seq<u8>) -> Option<int> {
    if ns.len() == 0 {
        Some(0)
    } else if data.len() < 1 + ns.len() + 4 || data[0] != ns.len() || data.subrange(
        1,
        1 + ns.len() as int,
    ) != ns {
        None
    } else {
        Some(1 + ns.len() as int)
    }
}

/// The user key that a metadata key holds.
pub open spec fn user_key_in(data: Seq<u8>, ns: Seq<u8>) -> Option<Seq<u8>> {
    match key_offset(data, ns) {
        None => None,
        Some(at) => if data.len() < at + 4 {
            None
        } else {
            let len = codec::from_be(data.subrange(at, at + 4));
            if data.len() < at + 4 + len {
                None
            } else {
                Some(data.subrange(at + 4, at + 4 + len))
            }
        },
    }
}

/// The user key, the version and the element that a subkey holds.
pub open spec fn subkey_parts(data: Seq<u8>, ns: Seq<u8>) -> Option<(Seq<u8>, u64, Seq<u8>)> {
    match user_key_in(data, ns) {
        None => None,
        Some(key) => {
            let at = key_offset(data, ns)->0 + 4 + key.len();
            if data.len() < at + 8 {
                None
            } else {
                Some(
                    (
                        key,
                        codec::from_be(data.subrange(at, at + 8)) as u64,
                        data.skip(at + 8),
                    ),
                )
            }
        },
    }
}

/// The element that a subkey holds.
pub open spec fn element_in(k: Seq<u8>, ns: Seq<u8>) -> Seq<u8> {
    (subkey_parts(k, ns)->0).2
}

/// The stored form of a composite value's metadata. Only a list keeps its
/// head and tail.
pub open spec fn metadata_bytes(m: Metadata) -> Seq<u8> {
    let common = seq![m.flags] + codec::be_i64(m.expire as int) + codec::be(m.version as nat, 8)
        + codec::be(m.size as nat, 8);
    if types::type_of_flags(m.flags) == Some(DataType::List) {
        common + codec::be_i64(m.head as int) + codec::be_i64(m.tail as int)
    } else {
        common
    }
}

/// The unsigned number at bytes `at .. at + 8`.
pub open spec fn u64_at(data: Seq<u8>, at: int) -> u64 {
    codec::from_be(data.subrange(at, at + 8)) as u64
}

/// The signed number at bytes `at .. at + 8`.
pub open spec fn i64_at(data: Seq<u8>, at: int) -> i64 {
    codec::from_bits(codec::from_be(data.subrange(at, at + 8))) as i64
}

/// The metadata that stored bytes hold: none if they are too short for their
/// data type or name no data type.
pub open spec fn metadata_in(data: Seq<u8>) -> Option<Metadata> {
    if data.len() < 25 {
        None
    } else {
        match types::type_of_flags(data[0]) {
            None => None,
            Some(DataType::List) => if data.len() < 41 {
                None
            } else {
                Some(
                    Metadata {
                        flags: data[0],
                        expire: i64_at(data, 1),
                        version: u64_at(data, 9),
                        size: u64_at(data, 17),
                        head: i64_at(data, 25),
                        tail: i64_at(data, 33),
                    },
                )
            },
            Some(_) => Some(
                Metadata {
                    flags: data[0],
                    expire: i64_at(data, 1),
                    version: u64_at(data, 9),
                    size: u64_at(data, 17),
                    head: 0,
                    tail: -1i64,
                },
            ),
        }
    }
}

/// The stored form of a string value.
pub open spec fn string_bytes(flags: u8, expire: i64, payload: Seq<u8>) -> Seq<u8> {
    seq![flags] + codec::be_i64(expire as int) + payload
}

/// `flags`, the expiry time and the payload of a stored string value.
pub open spec fn string_in(data: Seq<u8>) -> Option<(u8, i64, Seq<u8>)> {
    if data.len() < 9 {
        None
    } else {
        Some((data[0], i64_at(data, 1), data.skip(9)))
    }
}

/// A version: the upper 48 bits count milliseconds, the lower 16 are random.
pub open spec fn version_of(now_ms: u64, random: u16) -> int {
    (now_ms % 0x1_0000_0000_0000) * 0x1_0000 + random
}

/// Composes a version out of a clock reading in milliseconds and a random
/// number.
pub fn compose_version(now_ms: u64, random: u16) -> (v: u64)
    ensures
        v == version_of(now_ms, random),
{
    proof {
        let r = random as u64;
        assert(r < 0x1_0000 ==> (now_ms << 16u64) | (r & 0xFFFF) == (now_ms % 0x1_0000_0000_0000)
            * 0x1_0000 + r) by (bit_vector);
    }
    (now_ms << 16) | (random as u64 & 0xFFFF)
}

/// A version composed at a later millisecond is greater, whatever the random
/// parts are, as long as the clock fits in 48 bits.
pub proof fn law_versions_grow_with_time(t1: u64, r1: u16, t2: u64, r2: u16)
    requires
        t1 < t2 < 0x1_0000_0000_0000,
    ensures
        version_of(t1, r1) < version_of(t2, r2),
{
}

/// The byte strings of a list.
pub open spec fn byte_seqs(v: Seq<Vec<u8>>) -> Seq<Seq<u8>> {
    Seq::new(v.len(), |i: int| v[i]@)
}

/// Appends a byte string.
pub fn extend(buf: &mut Vec<u8>, tail: &[u8])
    ensures
        final(buf)@ == old(buf)@ + tail@,
{
    buf.extend_from_slice(tail);
    proof {
        assert(buf@ =~= old(buf)@ + tail@);
    }
}

/// A copy of a byte string.
pub fn copy(data: &[u8]) -> (v: Vec<u8>)
    ensures
        v@ == data@,
{
    vstd::slice::slice_to_vec(data)
}

/// Builds the metadata key of a user key.
pub fn metadata_key(user_key: &[u8], namespace: &[u8]) -> (k: Vec<u8>)
    ensures
        k@ == meta_key_of(user_key@, namespace@),
{
    let mut buf: Vec<u8> = Vec::new();
    if namespace.len() > 0 {
        buf.push((namespace.len() % 256) as u8);
        extend(&mut buf, namespace);
    }
    proof {
        assert(buf@ =~= ns_prefix(namespace@));
    }
    codec::push_be(&mut buf, user_key.len() as u64 % 0x1_0000_0000, 4);
    extend(&mut buf, user_key);
    buf
}

/// Reads the user key out of a metadata key.
pub fn parse_metadata_key<'a>(data: &'a [u8], namespace: &'a [u8]) -> (r: Option<&'a [u8]>)
    ensures
        match r {
            Some(k) => user_key_in(data@, namespace@) == Some(k@),
            None => user_key_in(data@, namespace@) is None,
        },
{
    let at: usize = match parse_offset(data, namespace) {
        Some(at) => at,
        None => return None,
    };
    if data.len() - at < 4 {
        return None;
    }
    let len: u64 = codec::read_be(data, at, 4);
    if ((data.len() - at - 4) as u64) < len {
        return None;
    }
    Some(vstd::slice::slice_subrange(data, at + 4, at + 4 + len as usize))
}

/// Finds where the user key's length stands.
fn parse_offset(data: &[u8], namespace: &[u8]) -> (r: Option<usize>)
    ensures
        match r {
            Some(at) => key_offset(data@, namespace@) == Some(at as int) && at <= data@.len(),
            None => key_offset(data@, namespace@) is None,
        },
{
    if namespace.len() == 0 {
        return Some(0);
    }
    if data.len() < 5 || data.len() - 5 < namespace.len() {
        return None;
    }
    if data[0] as usize != namespace.len() {
        return None;
    }
    if !order::same(vstd::slice::slice_subrange(data, 1, 1 + namespace.len()), namespace) {
        return None;
    }
    Some(1 + namespace.len())
}

/// Builds the subkey of an element.
pub fn subkey(user_key: &[u8], version: u64, sub: &[u8], namespace: &[u8]) -> (k: Vec<u8>)
    ensures
        k@ == subkey_of(user_key@, version, sub@, namespace@),
{
    let mut buf = metadata_key(user_key, namespace);
    codec::push_be(&mut buf, version, 8);
    extend(&mut buf, sub);
    buf
}

/// Reads the user key, the version and the element out of a subkey.
pub fn parse_subkey<'a>(data: &'a [u8], namespace: &'a [u8]) -> (r: Option<
    (&'a [u8], u64, &'a [u8]),
>)
    ensures
        match r {
            Some((k, v, s)) => subkey_parts(data@, namespace@) == Some((k@, v, s@)),
            None => subkey_parts(data@, namespace@) is None,
        },
{
    let user_key = match parse_metadata_key(data, namespace) {
        Some(k) => k,
        None => return None,
    };
    let at: usize = match parse_offset(data, namespace) {
        Some(at) => at,
        None => return None,
    };
    proof {
        assert(at + 4 + user_key.len() <= data.len());
    }
    let pos: usize = at + 4 + user_key.len();
    if data.len() - pos < 8 {
        return None;
    }
    let version: u64 = codec::read_be(data, pos, 8);
    let sub = vstd::slice::slice_subrange(data, pos + 8, data.len());
    proof {
        assert(sub@ =~= data@.skip(pos + 8));
    }
    Some((user_key, version, sub))
}

/// Stores the metadata of a composite value.
pub fn encode_metadata(meta: &Metadata) -> (buf: Vec<u8>)
    ensures
        buf@ == metadata_bytes(*meta),
{
    let is_list = match meta.data_type() {
        Some(DataType::List) => true,
        _ => false,
    };
    let mut buf: Vec<u8> = Vec::new();
    buf.push(meta.flags);
    proof {
        assert(buf@ =~= seq![meta.flags]);
    }
    codec::push_be(&mut buf, codec::bits_of(meta.expire), 8);
    codec::push_be(&mut buf, meta.version, 8);
    codec::push_be(&mut buf, meta.size, 8);
    if is_list {
        codec::push_be(&mut buf, codec::bits_of(meta.head), 8);
        codec::push_be(&mut buf, codec::bits_of(meta.tail), 8);
    }
    buf
}

/// Reads the number at bytes `at .. at + 8`.
pub fn read_u64(data: &[u8], at: usize) -> (x: u64)
    requires
        at + 8 <= data@.len(),
    ensures
        x == u64_at(data@, at as int),
{
    codec::read_be(data, at, 8)
}

/// Reads the signed number at bytes `at .. at + 8`.
pub fn read_i64(data: &[u8], at: usize) -> (x: i64)
    requires
        at + 8 <= data@.len(),
    ensures
        x == i64_at(data@, at as int),
{
    codec::signed_of(codec::read_be(data, at, 8))
}

/// Reads the metadata of a composite value.
pub fn decode_metadata(data: &[u8]) -> (r: Option<Metadata>)
    ensures
        r == metadata_in(data@),
{
    if data.len() < 25 {
        return None;
    }
    let flags: u8 = data[0];
    let data_type = match types::data_type_from_flags(flags) {
        Some(t) => t,
        None => return None,
    };
    let expire: i64 = read_i64(data, 1);
    let version: u64 = read_u64(data, 9);
    let size: u64 = read_u64(data, 17);
    let mut head: i64 = 0;
    let mut tail: i64 = -1;
    if data_type == DataType::List {
        if data.len() < 41 {
            return None;
        }
        head = read_i64(data, 25);
        tail = read_i64(data, 33);
    }
    Some(Metadata { flags, expire, version, size, head, tail })
}

/// Stores a string value: flags, expiry time, payload.
pub fn encode_string(flags: u8, expire: i64, payload: &[u8]) -> (buf: Vec<u8>)
    ensures
        buf@ == string_bytes(flags, expire, payload@),
{
    let mut buf: Vec<u8> = Vec::new();
    buf.push(flags);
    proof {
        assert(buf@ =~= seq![flags]);
    }
    codec::push_be(&mut buf, codec::bits_of(expire), 8);
    extend(&mut buf, payload);
    buf
}

/// Reads a string value: flags, expiry time, payload.
pub fn decode_string(data: &[u8]) -> (r: Option<(u8, i64, &[u8])>)
    ensures
        match r {
            Some((flags, expire, payload)) => string_in(data@) == Some((flags, expire, payload@)),
            None => string_in(data@) is None,
        },
{
    if data.len() < 9 {
        return None;
    }
    let payload = vstd::slice::slice_subrange(data, 9, data.len());
    proof {
        assert(payload@ =~= data@.skip(9));
    }
    Some((data[0], read_i64(data, 1), payload))
}

/// The lengths of the fixed parts of keys.
pub proof fn lemma_key_lengths(key: Seq<u8>, version: u64, ns: Seq<u8>)
    ensures
        meta_key_of(key, ns).len() == ns_prefix(ns).len() + 4 + key.len(),
        sub_prefix(key, version, ns).len() == ns_prefix(ns).len() + 12 + key.len(),
{
    codec::lemma_be_len(key.len() % 0x1_0000_0000, 4);
    codec::lemma_be_len(version as nat, 8);
}

/// Parsing a metadata key gives the user key back, and parsing a subkey gives
/// the user key, the version and the element back. The user key's length must
/// fit in four bytes and the namespace's in one.
pub proof fn law_keys_round_trip(key: Seq<u8>, version: u64, sub: Seq<u8>, ns: Seq<u8>)
    requires
        key.len() < 0x1_0000_0000,
        ns.len() <= 255,
    ensures
        user_key_in(meta_key_of(key, ns), ns) == Some(key),
        subkey_parts(subkey_of(key, version, sub, ns), ns) == Some((key, version, sub)),
{
    let n = ns_prefix(ns).len() as int;
    let kl = key.len() as int;
    codec::lemma_pow256_values();
    codec::lemma_be_round_trip(key.len(), 4);
    codec::lemma_be_round_trip(version as nat, 8);
    lemma_key_lengths(key, version, ns);
    let m = meta_key_of(key, ns);
    let d = subkey_of(key, version, sub, ns);
    assert(m.subrange(n, n + 4) =~= codec::be(key.len(), 4));
    assert(d.subrange(n, n + 4) =~= codec::be(key.len(), 4));
    assert(m.subrange(n + 4, n + 4 + kl) =~= key);
    assert(d.subrange(n + 4, n + 4 + kl) =~= key);
    assert(d.subrange(n + 4 + kl, n + 12 + kl) =~= codec::be(version as nat, 8));
    assert(d.skip(n + 12 + kl) =~= sub);
    if ns.len() > 0 {
        assert(m.subrange(1, 1 + ns.len() as int) =~= ns);
        assert(d.subrange(1, 1 + ns.len() as int) =~= ns);
    }
}

/// Whatever can be taken apart as a subkey is the subkey of its parts.
pub proof fn law_parts_make_the_key(data: Seq<u8>, ns: Seq<u8>)
    requires
        subkey_parts(data, ns) is Some,
    ensures
        ({
            let (key, version, sub) = subkey_parts(data, ns)->0;
            data == subkey_of(key, version, sub, ns)
        }),
{
    let (key, version, sub) = subkey_parts(data, ns)->0;
    let n = key_offset(data, ns)->0;
    let kl = key.len() as int;
    codec::lemma_pow256_values();
    codec::lemma_from_be_round_trip(data.subrange(n, n + 4));
    codec::lemma_from_be_bound(data.subrange(n, n + 4));
    codec::lemma_from_be_round_trip(data.subrange(n + 4 + kl, n + 12 + kl));
    codec::lemma_from_be_bound(data.subrange(n + 4 + kl, n + 12 + kl));
    assert(data.take(n) =~= ns_prefix(ns)) by {
        if ns.len() > 0 {
            assert(data.subrange(1, 1 + ns.len() as int) == ns);
            assert forall|i: int| 0 <= i < n implies data[i] == ns_prefix(ns)[i] by {
                if i > 0 {
                    assert(data.subrange(1, 1 + ns.len() as int)[i - 1] == data[i]);
                }
            }
        }
    }
    assert(data =~= data.take(n) + data.subrange(n, n + 4) + key + data.subrange(
        n + 4 + kl,
        n + 12 + kl,
    ) + sub);
}

/// Elements of one value have different subkeys.
pub proof fn lemma_subkey_injective(key: Seq<u8>, version: u64, a: Seq<u8>, b: Seq<u8>, ns: Seq<u8>)
    ensures
        (subkey_of(key, version, a, ns) == subkey_of(key, version, b, ns)) == (a == b),
{
    let p = sub_prefix(key, version, ns);
    if p + a == p + b {
        assert((p + a).skip(p.len() as int) =~= a);
        assert((p + b).skip(p.len() as int) =~= b);
    }
}

/// The elements that a table holds for one version of a value.
pub open spec fn elements_of(
    e: Map<Seq<u8>, Seq<u8>>,
    key: Seq<u8>,
    version: u64,
    ns: Seq<u8>,
) -> Set<Seq<u8>> {
    Set::new(|sub: Seq<u8>| e.contains_key(subkey_of(key, version, sub, ns)))
}

/// A finite table holds finitely many elements, and setting or removing one
/// element changes the elements of its value by that one.
pub proof fn lemma_elements(
    e: Map<Seq<u8>, Seq<u8>>,
    key: Seq<u8>,
    version: u64,
    ns: Seq<u8>,
    sub: Seq<u8>,
    v: Seq<u8>,
)
    ensures
        e.dom().finite() ==> elements_of(e, key, version, ns).finite(),
        elements_of(e.insert(subkey_of(key, version, sub, ns), v), key, version, ns)
            == elements_of(e, key, version, ns).insert(sub),
        elements_of(e.remove(subkey_of(key, version, sub, ns)), key, version, ns) == elements_of(
            e,
            key,
            version,
            ns,
        ).remove(sub),
{
    let k = subkey_of(key, version, sub, ns);
    let s = elements_of(e, key, version, ns);
    assert forall|x: Seq<u8>|
        (subkey_of(key, version, x, ns) == k) == (x == sub) by {
        lemma_subkey_injective(key, version, x, sub, ns);
    }
    assert(elements_of(e.insert(k, v), key, version, ns) =~= s.insert(sub));
    assert(elements_of(e.remove(k), key, version, ns) =~= s.remove(sub));
    if e.dom().finite() {
        let p = sub_prefix(key, version, ns);
        let cut = |x: Seq<u8>| x.skip(p.len() as int);
        let image = e.dom().map(cut);
        e.dom().lemma_map_finite(cut);
        assert(s.subset_of(image)) by {
            assert forall|x: Seq<u8>| s.contains(x) implies image.contains(x) by {
                let k = subkey_of(key, version, x, ns);
                assert(cut(k) =~= x);
                assert(e.dom().contains(k));
            }
        }
        vstd::set_lib::lemma_set_subset_finite(image, s);
    }
}

/// Reading stored metadata gives the metadata back, and reading a stored
/// string value gives its three parts back. Metadata of other types than a
/// list must hold the head and tail of an empty one, which are not stored.
pub proof fn law_values_round_trip(m: Metadata, flags: u8, expire: i64, payload: Seq<u8>)
    requires
        types::type_of_flags(m.flags) is Some,
        types::type_of_flags(m.flags) != Some(DataType::List) ==> m.head == 0 && m.tail == -1,
    ensures
        metadata_in(metadata_bytes(m)) == Some(m),
        string_in(string_bytes(flags, expire, payload)) == Some((flags, expire, payload)),
{
    codec::lemma_pow256_values();
    codec::lemma_be_round_trip(codec::to_bits(m.expire as int), 8);
    codec::lemma_be_round_trip(m.version as nat, 8);
    codec::lemma_be_round_trip(m.size as nat, 8);
    codec::lemma_be_round_trip(codec::to_bits(m.head as int), 8);
    codec::lemma_be_round_trip(codec::to_bits(m.tail as int), 8);
    codec::lemma_be_round_trip(codec::to_bits(expire as int), 8);
    let d = metadata_bytes(m);
    assert(d.subrange(1, 9) =~= codec::be_i64(m.expire as int));
    assert(d.subrange(9, 17) =~= codec::be(m.version as nat, 8));
    assert(d.subrange(17, 25) =~= codec::be(m.size as nat, 8));
    if types::type_of_flags(m.flags) == Some(DataType::List) {
        assert(d.subrange(25, 33) =~= codec::be_i64(m.head as int));
        assert(d.subrange(33, 41) =~= codec::be_i64(m.tail as int));
    }
    let s = string_bytes(flags, expire, payload);
    assert(s.subrange(1, 9) =~= codec::be_i64(expire as int));
    assert(s.skip(9) =~= payload);
}

/// The prefixes of two keys of one namespace do not mix: a subkey of one key
/// and version never begins with the prefix of another key or version.
pub proof fn law_values_do_not_mix(
    k1: Seq<u8>,
    v1: u64,
    s1: Seq<u8>,
    k2: Seq<u8>,
    v2: u64,
    ns: Seq<u8>,
)
    requires
        k1.len() < 0x1_0000_0000,
        k2.len() < 0x1_0000_0000,
        ns.len() <= 255,
        order::has_prefix(subkey_of(k1, v1, s1, ns), sub_prefix(k2, v2, ns)),
    ensures
        k1 == k2,
        v1 == v2,
{
    let d = subkey_of(k1, v1, s1, ns);
    let p = sub_prefix(k2, v2, ns);
    let rest = d.skip(p.len() as int);
    order::lemma_prefix_split(d, p);
    assert(d == subkey_of(k2, v2, rest, ns));
    law_keys_round_trip(k1, v1, s1, ns);
    law_keys_round_trip(k2, v2, rest, ns);
}

/// Namespaces are isolated: no key of one namespace begins as a key of
/// another one does. Both names must fit in 255 bytes; where one of the two
/// is the default namespace, its user key must be shorter than 16 MiB, so
/// that its length begins with a zero byte.
pub proof fn law_namespaces_do_not_mix(k1: Seq<u8>, t1: Seq<u8>, ns1: Seq<u8>, ns2: Seq<u8>)
    requires
        ns1 != ns2,
        ns2.len() > 0,
        ns1.len() <= 255,
        ns2.len() <= 255,
        ns1.len() == 0 ==> k1.len() < 0x100_0000,
    ensures
        !order::has_prefix(meta_key_of(k1, ns1) + t1, ns_prefix(ns2)),
{
    let d = meta_key_of(k1, ns1) + t1;
    let p = ns_prefix(ns2);
    lemma_key_lengths(k1, 0, ns1);
    if order::has_prefix(d, p) {
        assert(d[0] == p[0]) by {
            assert(d.subrange(0, p.len() as int)[0] == d[0]);
        }
        if ns1.len() == 0 {
            let x = k1.len() % 0x1_0000_0000;
            reveal_with_fuel(codec::be, 5);
            codec::lemma_be_len(x, 4);
            assert(d[0] == codec::be(x, 4)[0]);
            assert(codec::be(x, 4)[0] == 0);
        } else {
            assert(d[0] == ns1.len());
            assert(ns1 =~= ns2) by {
                assert forall|i: int| 0 <= i < ns1.len() implies ns1[i] == ns2[i] by {
                    assert(d.subrange(0, p.len() as int)[i + 1] == d[i + 1]);
                    assert(d[i + 1] == ns1[i]);
                    assert(p[i + 1] == ns2[i]);
                }
            }
        }
    }
}

} // verus!
