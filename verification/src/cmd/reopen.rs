//! A store that was written before is opened again: the versions in it are not
//! handed out a second time.

use super::laws;
use super::CommandContext;
use crate::clock::Versions;
use crate::codec;
use crate::config::Config;
use crate::encoding;
use crate::storage::{Cf, StorageEngine, StoreView};
use crate::table;
use crate::table::Entries;
use crate::types;
use crate::types::DataType;
use vstd::prelude::*;

verus! {

/// Where the length of the user key stands in a key of a store. The first byte
/// is the length of the namespace, or 0 in the default one, where it is the
/// first byte of the user key's length already.
pub open spec fn length_at(k: Seq<u8>) -> int {
    if k[0] == 0 {
        0
    } else {
        1 + k[0]
    }
}

/// The version in the key of an element.
pub open spec fn key_version(k: Seq<u8>) -> Option<u64> {
    let at = length_at(k);
    if k.len() == 0 || k.len() < at + 4 {
        None
    } else {
        let end = at + 4 + codec::from_be(k.subrange(at, at + 4));
        if k.len() < end + 8 {
            None
        } else {
            Some(encoding::u64_at(k, end))
        }
    }
}

/// The version in the record of a value; a string has none.
pub open spec fn record_version(v: Seq<u8>) -> Option<u64> {
    if v.len() >= 17 && types::type_of_flags(v[0]) != Some(DataType::String) {
        Some(encoding::u64_at(v, 9))
    } else {
        None
    }
}

/// The version of an entry of a family, which stands in the record of a value
/// and otherwise in the key.
pub open spec fn entry_version(cf: Cf, k: Seq<u8>, v: Seq<u8>) -> Option<u64> {
    if cf == Cf::Metadata {
        record_version(v)
    } else {
        key_version(k)
    }
}

/// A family has an entry with the version.
pub open spec fn version_in(cf: Cf, e: Entries, version: u64) -> bool {
    exists|k: Seq<u8>| #[trigger]
        e.contains_key(k) && entry_version(cf, k, e[k]) == Some(version)
}

/// A value or an element in the store has the version.
pub open spec fn version_stored(s: StoreView, version: u64) -> bool {
    ||| version_in(Cf::Metadata, s.metadata, version)
    ||| version_in(Cf::Subkey, s.subkey, version)
    ||| version_in(Cf::ZsetScore, s.zset_score, version)
}

/// The greatest version in the store is `last`, or there is none and `last`
/// is 0.
pub open spec fn newest_stored(s: StoreView, last: u64) -> bool {
    &&& last == 0 || version_stored(s, last)
    &&& forall|version: u64| #[trigger] version_stored(s, version) ==> version <= last
}

proof fn lemma_key_version(ns: Seq<u8>, key: Seq<u8>, version: u64, sub: Seq<u8>)
    requires
        laws::proper_key(ns, key),
    ensures
        key_version(encoding::subkey_of(key, version, sub, ns)) == Some(version),
{
    let k = encoding::subkey_of(key, version, sub, ns);
    let p = encoding::ns_prefix(ns);
    let at = p.len() as int;
    let n = key.len();
    codec::lemma_be_len(n, 4);
    codec::lemma_be_len(version as nat, 8);
    codec::lemma_pow256_values();
    codec::lemma_be_round_trip(n, 4);
    codec::lemma_be_round_trip(version as nat, 8);
    assert(k.subrange(at, at + 4) =~= codec::be(n, 4));
    assert(k.subrange(at + 4 + n, at + 12 + n) =~= codec::be(version as nat, 8));
    if ns.len() == 0 {
        let first = codec::be(n / 256, 3);
        assert(codec::be(n, 4)[0] == first[0]);
        assert(k[0] == codec::be(n, 4)[0]);
        reveal_with_fuel(codec::be, 5);
        assert(k[0] == 0);
    } else {
        assert(k[0] == ns.len());
    }
}

/// Where the greatest version in a store is `last`, nothing in any namespace has
/// a version behind it.
pub proof fn law_nothing_is_newer(s: StoreView, last: u64)
    requires
        newest_stored(s, last),
    ensures
        laws::store_upto(s, last),
{
    assert forall|ns: Seq<u8>, key: Seq<u8>| laws::proper_key(ns, key) implies #[trigger]
        laws::versions_upto(s, ns, key, last) by {
        assert forall|v: u64, sub: Seq<u8>| #[trigger]
            s.subkey.contains_key(encoding::subkey_of(key, v, sub, ns)) implies v <= last by {
            lemma_key_version(ns, key, v, sub);
            assert(version_in(Cf::Subkey, s.subkey, v));
            assert(version_stored(s, v));
        }
        assert forall|v: u64, sub: Seq<u8>| #[trigger]
            s.zset_score.contains_key(encoding::subkey_of(key, v, sub, ns)) implies v <= last by {
            lemma_key_version(ns, key, v, sub);
            assert(version_in(Cf::ZsetScore, s.zset_score, v));
            assert(version_stored(s, v));
        }
        assert forall|k: Seq<u8>| #[trigger] s.metadata.contains_key(k) implies laws::record_upto(
            s.metadata[k],
            last,
        ) by {
            match record_version(s.metadata[k]) {
                Some(v) => {
                    assert(version_in(Cf::Metadata, s.metadata, v));
                    assert(version_stored(s, v));
                },
                None => {},
            }
        }
        assert(laws::records_upto(s, ns, key, last));
    }
}

/// The version in the key of an element.
fn version_of_key(k: &[u8]) -> (v: Option<u64>)
    ensures
        v == key_version(k@),
{
    if k.len() == 0 {
        return None;
    }
    let at: usize = if k[0] == 0 {
        0
    } else {
        1 + k[0] as usize
    };
    if k.len() < at + 4 {
        return None;
    }
    let n: u64 = codec::read_be(k, at, 4);
    let left: u64 = (k.len() - at - 4) as u64;
    if left < 8 || left - 8 < n {
        return None;
    }
    Some(encoding::read_u64(k, at + 4 + n as usize))
}

/// The version in the record of a value.
fn version_of_record(v: &[u8]) -> (r: Option<u64>)
    ensures
        r == record_version(v@),
{
    if v.len() < 17 {
        return None;
    }
    match types::data_type_from_flags(v[0]) {
        Some(DataType::String) => None,
        _ => Some(encoding::read_u64(v, 9)),
    }
}

/// The greatest of `least` and the versions in a family.
fn newest_in(storage: &StorageEngine, cf: Cf, least: u64) -> (last: u64)
    ensures
        last >= least,
        last == least || version_in(cf, storage@.at(cf), last),
        forall|version: u64| #[trigger]
            version_in(cf, storage@.at(cf), version) ==> version <= last,
{
    let none: Vec<u8> = Vec::new();
    let all = storage.scan_in(cf, &none);
    let ghost e = storage@.at(cf);
    let ghost ks = table::keys_with(e, none@);
    let mut last: u64 = least;
    let mut i: usize = 0;
    proof {
        storage.lemma_finite();
        assert(e.dom().finite());
        table::lemma_runs_listed(e, none@, Seq::empty());
        assert(table::pairs_of(all@).len() == ks.len());
    }
    while i < all.len()
        invariant
            i <= all@.len(),
            e == storage@.at(cf),
            all@.len() == ks.len(),
            table::pairs_of(all@) == table::entries_at(e, ks),
            forall|j: int| 0 <= j < ks.len() ==> e.contains_key(#[trigger] ks[j]),
            last >= least,
            last == least || version_in(cf, e, last),
            forall|j: int|
                0 <= j < i ==> match entry_version(cf, #[trigger] ks[j], e[ks[j]]) {
                    Some(v) => v <= last,
                    None => true,
                },
        decreases all.len() - i,
    {
        proof {
            assert(table::pairs_of(all@)[i as int] == (ks[i as int], e[ks[i as int]]));
        }
        let v: Option<u64> = match cf {
            Cf::Metadata => version_of_record(&all[i].1),
            _ => version_of_key(&all[i].0),
        };
        match v {
            Some(x) => if x > last {
                last = x;
                proof {
                    assert(e.contains_key(ks[i as int]));
                }
            },
            None => {},
        }
        i = i + 1;
    }
    proof {
        assert forall|version: u64| #[trigger] version_in(cf, e, version) implies version <= last by {
            let k = choose|k: Seq<u8>| #[trigger]
                e.contains_key(k) && entry_version(cf, k, e[k]) == Some(version);
            assert(table::with_prefix(e, none@).contains(k)) by {
                assert(k.subrange(0, 0) =~= none@);
            }
            let j = ks.index_of(k);
            assert(ks[j] == k);
        }
    }
    last
}

/// The greatest version in a store, or 0.
pub fn newest_version(storage: &StorageEngine) -> (last: u64)
    ensures
        newest_stored(storage@, last),
{
    let a: u64 = newest_in(storage, Cf::Metadata, 0);
    let b: u64 = newest_in(storage, Cf::Subkey, a);
    newest_in(storage, Cf::ZsetScore, b)
}

impl CommandContext {
    /// The context of a server that starts with a configuration and the data of
    /// a store. Its versions go on behind those in the store.
    pub fn reopened(config: Config, storage: StorageEngine) -> (ctx: CommandContext)
        ensures
            super::starts(ctx, config),
            ctx.storage == storage,
            newest_stored(storage@, ctx.versions.spec_last()),
            laws::store_upto(storage@, ctx.versions.spec_last()),
    {
        let last: u64 = newest_version(&storage);
        proof {
            law_nothing_is_newer(storage@, last);
        }
        let fresh = CommandContext::new(config);
        CommandContext {
            storage,
            versions: Versions::behind(last),
            config: fresh.config,
            client: fresh.client,
            pubsub: fresh.pubsub,
            client_id: fresh.client_id,
            lua: fresh.lua,
            replication: fresh.replication,
            cluster: fresh.cluster,
            namespace: fresh.namespace,
        }
    }
}

} // verus!
