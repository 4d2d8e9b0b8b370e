//! Commands: the context they run in and what they have in common.

use crate::clock::Versions;
use crate::cluster::{ClusterState, ClusterView};
use crate::codec;
use crate::config::{Config, ConfigManager};
use crate::encoding;
use crate::error;
use crate::error::{ErrorView, KvdbError, KvdbResult};
use crate::lua::LuaEngine;
use crate::protocol;
use crate::protocol::{RespValue, RespView};
use crate::pubsub::{HubView, PubSubHub};
use crate::replication::{ReplicationState, ReplicationView, RoleView};
use crate::storage::{Cf, StorageEngine, StoreView};
use crate::table;
use crate::text;
use crate::types;
use crate::types::{DataType, Metadata};
use vstd::prelude::*;
use vstd::string::*;
use vstd::utf8;

pub mod admin;
pub mod bitmap;
pub mod bitmap_count_laws;
pub mod bitmap_laws;
pub mod cluster;
pub mod dispatch;
pub mod hash;
pub mod hash_laws;
pub mod key_laws;
pub mod laws;
pub mod list;
pub mod lua;
pub mod name_laws;
pub mod pubsub;
pub mod reopen;
pub mod set;
pub mod set_laws;
pub mod settings;
pub mod stream;
pub mod stream_laws;
pub mod stream_range_laws;
pub mod string;
pub mod string_laws;
pub mod value_laws;
pub mod zset;
pub mod zset_laws;
pub mod zset_range_laws;
pub mod zset_write_laws;

pub use dispatch::CommandTable;

verus! {

/// The text of the error for a command on a value of another type.
pub const WRONGTYPE: &'static str =
    "WRONGTYPE Operation against a key holding the wrong kind of value";

/// The error for a command on a value of another type.
pub open spec fn wrong_type() -> ErrorView {
    ErrorView::Command("WRONGTYPE Operation against a key holding the wrong kind of value"@)
}

/// Builds the error for a command on a value of another type.
pub fn wrong_type_error() -> (e: KvdbError)
    ensures
        e@ == wrong_type(),
{
    error::command_error(WRONGTYPE)
}

/// When a command runs: the clock, and the version that a value made by the
/// command gets.
#[derive(Debug, Clone, Copy)]
pub struct Moment {
    pub now_ms: i64,
    pub version: u64,
}

/// What a command replies and the store it leaves.
#[verifier::ext_equal]
pub struct Outcome {
    pub reply: Result<RespView, ErrorView>,
    pub store: StoreView,
}

/// A reply that changes nothing.
pub open spec fn unchanged(reply: Result<RespView, ErrorView>, s: StoreView) -> Outcome {
    Outcome { reply, store: s }
}

/// A result with its value and error as views.
pub open spec fn reply_view(r: KvdbResult<RespValue>) -> Result<RespView, ErrorView> {
    match r {
        Ok(v) => Ok(v@),
        Err(e) => Err(e@),
    }
}

/// What a command call did.
pub open spec fn outcome(r: KvdbResult<RespValue>, s: StoreView) -> Outcome {
    Outcome { reply: reply_view(r), store: s }
}

/// The error for a wrong number of arguments.
pub open spec fn wrong_args(name: Seq<char>) -> ErrorView {
    ErrorView::WrongArgCount(name)
}

/// A bulk string reply; a null one for nothing.
pub open spec fn bulk(b: Option<Seq<u8>>) -> RespView {
    RespView::BulkString(b)
}

/// The reply of a command that has nothing to say but that it worked.
pub open spec fn ok_reply() -> RespView {
    RespView::SimpleString("OK"@)
}

/// The empty array reply.
pub open spec fn no_items() -> RespView {
    RespView::Array(Seq::empty())
}

/// A 64-bit count as the signed number that a reply carries.
pub open spec fn count_reply(n: u64) -> RespView {
    RespView::Integer(codec::from_bits(n as nat) as i64)
}

/// A counter that went up by `n`, modulo its width.
pub open spec fn grown(size: u64, n: nat) -> u64 {
    ((size + n) % 0x1_0000_0000_0000_0000) as u64
}

/// A counter that went down by `n`, but not below zero.
pub open spec fn shrunk(size: u64, n: nat) -> u64 {
    if size < n {
        0
    } else {
        (size - n) as u64
    }
}

/// The metadata record of a key: the one of the namespace, or else the one of
/// the default namespace.
pub open spec fn stored_meta(s: StoreView, ns: Seq<u8>, key: Seq<u8>) -> Option<Seq<u8>> {
    let own = table::lookup(s.metadata, encoding::meta_key_of(key, ns));
    if own is Some || ns.len() == 0 {
        own
    } else {
        table::lookup(s.metadata, encoding::meta_key_of(key, Seq::empty()))
    }
}

/// The metadata of a key that must hold a value of the type `t`: nothing if
/// there is none or it has expired, an error if the value is of another type
/// or cannot be read. `unreadable` is the text for the latter.
pub open spec fn typed_meta(
    s: StoreView,
    ns: Seq<u8>,
    key: Seq<u8>,
    now_ms: i64,
    t: DataType,
    unreadable: Seq<char>,
) -> Result<Option<Metadata>, ErrorView> {
    match stored_meta(s, ns, key) {
        None => Ok(None),
        Some(v) => if v.len() == 0 {
            Err(ErrorView::Protocol("empty metadata value"@))
        } else if types::type_of_flags(v[0]) == Some(DataType::String) {
            Err(wrong_type())
        } else {
            match encoding::metadata_in(v) {
                None => Err(ErrorView::Protocol(unreadable)),
                Some(m) => if types::type_of_flags(m.flags) != Some(t) {
                    Err(wrong_type())
                } else if types::expired(m.expire, now_ms) {
                    Ok(None)
                } else {
                    Ok(Some(m))
                },
            }
        },
    }
}

/// A metadata result with its error as a view.
pub open spec fn meta_view(r: KvdbResult<Option<Metadata>>) -> Result<
    Option<Metadata>,
    ErrorView,
> {
    match r {
        Ok(m) => Ok(m),
        Err(e) => Err(e@),
    }
}

/// What is known of a client.
#[derive(Debug)]
pub struct ClientState {
    pub db_index: usize,
    pub subscribed_channels: Vec<String>,
}

impl Default for ClientState {
    fn default() -> (c: ClientState)
        ensures
            c.db_index == 0,
            c.subscribed_channels@.len() == 0,
    {
        ClientState { db_index: 0, subscribed_channels: Vec::new() }
    }
}

/// What commands run in.
pub struct CommandContext {
    pub storage: StorageEngine,
    pub config: ConfigManager,
    pub client: ClientState,
    pub pubsub: PubSubHub,
    pub client_id: u64,
    pub lua: LuaEngine,
    pub replication: ReplicationState,
    pub cluster: ClusterState,
    /// The namespace of all keys; empty for the default one.
    pub namespace: Vec<u8>,
    /// The versions that were handed out.
    pub versions: Versions,
}

/// The context of a server that starts with a configuration: without channels,
/// scripts, slots and nodes, as a master, in the configured namespace.
pub open spec fn starts(ctx: CommandContext, config: Config) -> bool {
    &&& ctx.config@ == config@
    &&& ctx.client.db_index == 0
    &&& ctx.client.subscribed_channels@.len() == 0
    &&& ctx.pubsub@ == (HubView {
        next_id: 0,
        channels: crate::pubsub::no_channels(),
        patterns: Seq::empty(),
        closed: Set::empty(),
        outbox: Seq::empty(),
    })
    &&& ctx.lua@ == crate::lua::no_scripts()
    &&& ctx.replication@ == (ReplicationView {
        role: RoleView::Master,
        master_replid: Seq::empty(),
        master_repl_offset: 0,
        local_offset: 0,
    })
    &&& ctx.cluster@ == (ClusterView { slots: Seq::empty(), nodes: Seq::empty() })
    &&& ctx.client_id == 0
    &&& ctx.namespace@ == utf8::encode_utf8(config@.server.namespace)
}

impl CommandContext {
    /// The context of a server that starts with a configuration and without
    /// data.
    pub fn new(config: Config) -> (ctx: CommandContext)
        ensures
            starts(ctx, config),
            ctx.storage@ == StoreView::empty(),
            ctx.storage.pending().len() == 0,
            ctx.versions.spec_last() == 0,
    {
        let namespace = text::bytes_of(config.server.namespace.as_str());
        CommandContext {
            storage: StorageEngine::new(),
            config: ConfigManager::new(config),
            client: ClientState::default(),
            pubsub: PubSubHub::new(),
            client_id: 0,
            lua: LuaEngine::new(),
            replication: ReplicationState::new(),
            cluster: ClusterState::new(),
            namespace,
            versions: Versions::new(),
        }
    }

    /// Everything but the store is as it was.
    pub open spec fn same_rest(self, earlier: CommandContext) -> bool {
        &&& self.config == earlier.config
        &&& self.client == earlier.client
        &&& self.pubsub == earlier.pubsub
        &&& self.client_id == earlier.client_id
        &&& self.lua == earlier.lua
        &&& self.replication == earlier.replication
        &&& self.cluster == earlier.cluster
        &&& self.namespace == earlier.namespace
        &&& self.versions == earlier.versions
    }

    /// A command left everything but the store as it was, and the journal
    /// tells how the store changed.
    pub open spec fn kept(self, earlier: CommandContext) -> bool {
        self.same_rest(earlier) && self.storage.follows(earlier.storage)
    }

    /// The metadata key of a user key.
    pub fn meta_key(&self, user_key: &[u8]) -> (k: Vec<u8>)
        ensures
            k@ == encoding::meta_key_of(user_key@, self.namespace@),
    {
        encoding::metadata_key(user_key, &self.namespace)
    }

    /// The subkey of an element.
    pub fn sub_key(&self, user_key: &[u8], version: u64, sub: &[u8]) -> (k: Vec<u8>)
        ensures
            k@ == encoding::subkey_of(user_key@, version, sub@, self.namespace@),
    {
        encoding::subkey(user_key, version, sub, &self.namespace)
    }

    /// What all subkeys of a value begin with.
    pub fn sub_prefix(&self, user_key: &[u8], version: u64) -> (k: Vec<u8>)
        ensures
            k@ == encoding::sub_prefix(user_key@, version, self.namespace@),
            k@.len() > 0,
    {
        let none: Vec<u8> = Vec::new();
        let k = self.sub_key(user_key, version, &none);
        proof {
            assert(k@ =~= encoding::sub_prefix(user_key@, version, self.namespace@));
            encoding::lemma_key_lengths(user_key@, version, self.namespace@);
        }
        k
    }

    /// The user key in a metadata key.
    pub fn parse_meta_key<'a>(&'a self, data: &'a [u8]) -> (r: Option<&'a [u8]>)
        ensures
            match r {
                Some(k) => encoding::user_key_in(data@, self.namespace@) == Some(k@),
                None => encoding::user_key_in(data@, self.namespace@) is None,
            },
    {
        encoding::parse_metadata_key(data, &self.namespace)
    }

    /// The user key, the version and the element in a subkey.
    pub fn parse_subkey<'a>(&'a self, data: &'a [u8]) -> (r: Option<(&'a [u8], u64, &'a [u8])>)
        ensures
            match r {
                Some((k, v, s)) => encoding::subkey_parts(data@, self.namespace@) == Some(
                    (k@, v, s@),
                ),
                None => encoding::subkey_parts(data@, self.namespace@) is None,
            },
    {
        encoding::parse_subkey(data, &self.namespace)
    }

    /// The metadata record of a key. A key without one in its namespace is
    /// looked up in the default namespace.
    pub fn get_meta(&self, user_key: &[u8]) -> (r: Option<Vec<u8>>)
        ensures
            table::opt_bytes(r) == stored_meta(self.storage@, self.namespace@, user_key@),
    {
        let key = self.meta_key(user_key);
        match self.storage.get_in(Cf::Metadata, &key) {
            Some(v) => Some(v),
            None => {
                if self.namespace.len() == 0 {
                    None
                } else {
                    let none: Vec<u8> = Vec::new();
                    proof {
                        assert(none@ =~= Seq::<u8>::empty());
                    }
                    let legacy = encoding::metadata_key(user_key, &none);
                    self.storage.get_in(Cf::Metadata, &legacy)
                }
            },
        }
    }

    /// The metadata of a key that must hold a value of the type `t`.
    pub fn load_typed(&self, user_key: &[u8], now_ms: i64, t: DataType, unreadable: &str) -> (r:
        KvdbResult<Option<Metadata>>)
        ensures
            meta_view(r) == typed_meta(
                self.storage@,
                self.namespace@,
                user_key@,
                now_ms,
                t,
                unreadable@,
            ),
    {
        let v = match self.get_meta(user_key) {
            Some(v) => v,
            None => return Ok(None),
        };
        if v.len() == 0 {
            return Err(error::protocol_error("empty metadata value"));
        }
        match types::data_type_from_flags(v[0]) {
            Some(DataType::String) => return Err(wrong_type_error()),
            _ => {},
        }
        let meta = match encoding::decode_metadata(&v) {
            Some(m) => m,
            None => return Err(error::protocol_error(unreadable)),
        };
        match meta.data_type() {
            Some(u) => if u != t {
                return Err(wrong_type_error());
            },
            None => return Err(wrong_type_error()),
        }
        if meta.is_expired(now_ms) {
            return Ok(None);
        }
        Ok(Some(meta))
    }
}

/// An array reply.
pub fn array(items: Vec<RespValue>) -> (r: RespValue)
    ensures
        r@ == RespView::Array(protocol::views(items@)),
{
    proof {
        protocol::lemma_array_view(items);
    }
    RespValue::Array(items)
}

/// The empty array reply.
pub fn empty_array() -> (r: RespValue)
    ensures
        r@ == no_items(),
{
    let r = array(Vec::new());
    proof {
        assert(r@->Array_0 =~= Seq::<RespView>::empty());
    }
    r
}

/// The reply of a command that has nothing to say but that it worked.
pub fn ok() -> (r: RespValue)
    ensures
        r@ == ok_reply(),
{
    RespValue::SimpleString("OK".to_owned())
}

/// Adds a value to a list of replies.
pub fn push_reply(items: &mut Vec<RespValue>, v: RespValue)
    ensures
        protocol::views(final(items)@) == protocol::views(old(items)@).push(v@),
{
    items.push(v);
    proof {
        assert(protocol::views(items@) =~= protocol::views(old(items)@).push(v@));
    }
}

/// The reply of a count.
pub fn count_value(n: u64) -> (r: RespValue)
    ensures
        r@ == count_reply(n),
{
    RespValue::Integer(codec::signed_of(n))
}

/// Demands an exact number of arguments.
pub fn expect_arg_count(name: &'static str, args: &[Vec<u8>], expected: usize) -> (r: KvdbResult<
    (),
>)
    ensures
        match r {
            Ok(_) => args@.len() == expected,
            Err(e) => args@.len() != expected && e@ == wrong_args(name@),
        },
{
    if args.len() != expected {
        return Err(KvdbError::WrongArgCount(name));
    }
    Ok(())
}

/// Demands a least number of arguments.
pub fn expect_min_arg_count(name: &'static str, args: &[Vec<u8>], min: usize) -> (r: KvdbResult<
    (),
>)
    ensures
        match r {
            Ok(_) => args@.len() >= min,
            Err(e) => args@.len() < min && e@ == wrong_args(name@),
        },
{
    if args.len() < min {
        return Err(KvdbError::WrongArgCount(name));
    }
    Ok(())
}

/// The records of two keys of a namespace are kept apart: the lengths of the
/// keys and of the namespace can be written, and behind a namespace the other
/// key is shorter than 16 MiB, so that its record in the default namespace does
/// not begin as the namespace does.
pub open spec fn kept_apart(key: Seq<u8>, other: Seq<u8>, ns: Seq<u8>) -> bool {
    &&& key != other
    &&& key.len() < 0x1_0000_0000
    &&& other.len() < 0x1_0000_0000
    &&& ns.len() <= 255
    &&& ns.len() > 0 ==> other.len() < 0x100_0000
}

/// A record that is written for a key is the key's record, and one that is
/// removed is gone, unless the default namespace has one for the key; the
/// records of all other keys stay as they are.
pub proof fn law_records_are_separate(
    s: StoreView,
    ns: Seq<u8>,
    key: Seq<u8>,
    v: Seq<u8>,
    other: Seq<u8>,
)
    ensures
        ({
            let k = encoding::meta_key_of(key, ns);
            let written = s.put(Cf::Metadata, k, v);
            let removed = s.del(Cf::Metadata, k);
            &&& stored_meta(written, ns, key) == Some(v)
            &&& (ns.len() == 0 || !s.metadata.contains_key(
                encoding::meta_key_of(key, Seq::empty()),
            )) ==> stored_meta(removed, ns, key) is None
            &&& kept_apart(key, other, ns) ==> stored_meta(written, ns, other) == stored_meta(
                s,
                ns,
                other,
            )
            &&& kept_apart(key, other, ns) ==> stored_meta(removed, ns, other) == stored_meta(
                s,
                ns,
                other,
            )
        }),
{
    if ns.len() == 0 {
        assert(ns =~= Seq::<u8>::empty());
    }
    if kept_apart(key, other, ns) {
        lemma_meta_keys_differ(key, other, ns);
        if ns.len() > 0 {
            lemma_default_key_differs(key, ns, other);
        }
    }
}

/// Different keys have different records.
pub proof fn lemma_meta_keys_differ(a: Seq<u8>, b: Seq<u8>, ns: Seq<u8>)
    requires
        a != b,
        a.len() < 0x1_0000_0000,
        b.len() < 0x1_0000_0000,
        ns.len() <= 255,
    ensures
        encoding::meta_key_of(a, ns) != encoding::meta_key_of(b, ns),
{
    encoding::law_keys_round_trip(a, 0, Seq::empty(), ns);
    encoding::law_keys_round_trip(b, 0, Seq::empty(), ns);
}

/// A key of a namespace is none of the default one.
pub proof fn lemma_default_key_differs(key: Seq<u8>, ns: Seq<u8>, other: Seq<u8>)
    requires
        0 < ns.len() <= 255,
        other.len() < 0x100_0000,
    ensures
        encoding::meta_key_of(key, ns) != encoding::meta_key_of(other, Seq::empty()),
{
    let none = Seq::<u8>::empty();
    let p = encoding::ns_prefix(ns);
    encoding::law_namespaces_do_not_mix(other, none, none, ns);
    let k = encoding::meta_key_of(key, ns);
    assert(encoding::meta_key_of(other, none) + none =~= encoding::meta_key_of(other, none));
    assert(k.subrange(0, p.len() as int) =~= p);
}

/// What the metadata of a type looks like.
pub open spec fn well_formed_meta(m: Metadata, t: DataType) -> bool {
    types::type_of_flags(m.flags) == Some(t) && (t != DataType::List ==> m.head == 0 && m.tail
        == -1)
}

/// Metadata that is read is that of its type and has not expired.
pub proof fn lemma_typed_meta_read(
    s: StoreView,
    ns: Seq<u8>,
    key: Seq<u8>,
    now_ms: i64,
    t: DataType,
    unreadable: Seq<char>,
)
    requires
        t != DataType::String,
        typed_meta(s, ns, key, now_ms, t, unreadable) is Ok,
        typed_meta(s, ns, key, now_ms, t, unreadable)->Ok_0 is Some,
    ensures
        ({
            let m = typed_meta(s, ns, key, now_ms, t, unreadable)->Ok_0->0;
            well_formed_meta(m, t) && !types::expired(m.expire, now_ms)
        }),
{
}

/// The metadata of a new value is that of its type.
pub proof fn lemma_fresh_meta(t: DataType, version: u64)
    ensures
        well_formed_meta(types::fresh_metadata(t, version), t),
        types::fresh_metadata(t, version).expire == 0,
        types::fresh_metadata(t, version).size == 0,
        types::fresh_metadata(t, version).version == version,
{
    types::law_flags_round_trip(t);
}

/// Metadata that was written is read back until it expires.
pub proof fn lemma_typed_meta_written(
    s: StoreView,
    ns: Seq<u8>,
    key: Seq<u8>,
    m: Metadata,
    now_ms: i64,
    t: DataType,
    unreadable: Seq<char>,
)
    requires
        t != DataType::String,
        well_formed_meta(m, t),
        s.metadata.contains_key(encoding::meta_key_of(key, ns)),
        s.metadata[encoding::meta_key_of(key, ns)] == encoding::metadata_bytes(m),
    ensures
        typed_meta(s, ns, key, now_ms, t, unreadable) == Ok::<_, ErrorView>(
            if types::expired(m.expire, now_ms) {
                None
            } else {
                Some(m)
            },
        ),
{
    encoding::law_values_round_trip(m, 0, 0, Seq::empty());
    assert(encoding::metadata_bytes(m)[0] == m.flags);
}

/// A value of one type is an error for the commands of every other type, and
/// the error is sent under its own code. For sorted set commands a value that
/// has expired is none.
pub proof fn law_wrong_type(
    s: StoreView,
    ns: Seq<u8>,
    key: Seq<u8>,
    now_ms: i64,
    t: DataType,
    unreadable: Seq<char>,
)
    requires
        record_type(s, ns, key) is Some,
        record_type(s, ns, key) != Some(t),
        t != DataType::String,
    ensures
        typed_meta(s, ns, key, now_ms, t, unreadable) == Err::<Option<Metadata>, _>(wrong_type()),
        record_type(s, ns, key) != Some(DataType::String) ==> string::string_value(
            s,
            ns,
            key,
            now_ms,
        ) == Err::<Option<Seq<u8>>, _>(wrong_type()),
        record_type(s, ns, key) != Some(DataType::Stream) ==> stream::stream_meta(
            s,
            ns,
            key,
            now_ms,
        ) == Err::<Option<stream::StreamMeta>, _>(wrong_type()),
        record_type(s, ns, key) != Some(DataType::ZSet) ==> zset::zset_meta(
            s,
            ns,
            key,
            now_ms,
        ) == if record_type(s, ns, key) != Some(DataType::String) && types::expired(
            encoding::i64_at(stored_meta(s, ns, key)->0, 1),
            now_ms,
        ) {
            Ok::<Option<Metadata>, _>(None)
        } else {
            Err(wrong_type())
        },
        error::wire_text(wrong_type())
            == "WRONGTYPE Operation against a key holding the wrong kind of value"@,
{
    let w = "WRONGTYPE Operation against a key holding the wrong kind of value"@;
    reveal_strlit("WRONGTYPE Operation against a key holding the wrong kind of value");
    assert(w[9] == ' ');
    assert(forall|i: int| 0 <= i < 9 ==> error::is_upper(#[trigger] w[i]));
    assert(error::has_code(w));
}

/// The type of the value that a key holds, if its record can be read.
pub open spec fn record_type(s: StoreView, ns: Seq<u8>, key: Seq<u8>) -> Option<DataType> {
    match stored_meta(s, ns, key) {
        None => None,
        Some(v) => if v.len() < 9 {
            None
        } else {
            match types::type_of_flags(v[0]) {
                Some(DataType::String) => Some(DataType::String),
                Some(t) => if encoding::metadata_in(v) is Some {
                    Some(t)
                } else {
                    None
                },
                None => None,
            }
        },
    }
}

} // verus!
