//! Scripts: the cache of scripts by their checksums, and how values pass
//! between commands and scripts.

use crate::encoding;
use crate::error;
use crate::error::{ErrorView, KvdbError, KvdbResult};
use crate::protocol;
use crate::protocol::{RespValue, RespView};
use crate::pubsub;
use crate::text;
use dashmap::DashMap;
use sha1::Digest;
use vstd::prelude::*;
use vstd::utf8;

verus! {

/// The checksum that `sha1::Sha1::digest` returns.
pub uninterp spec fn sha1_of(data: Seq<u8>) -> Seq<u8>;

/// Calculates a checksum with `sha1::Sha1::digest`. Its value is only named;
/// it has twenty bytes.
#[verifier::external_body]
fn sha1_digest(data: &[u8]) -> (d: Vec<u8>)
    ensures
        d@ == sha1_of(data@),
        d@.len() == 20,
{
    sha1::Sha1::digest(data).to_vec()
}

/// The name of a script in the cache: its checksum in hexadecimal digits.
pub open spec fn sha1_text(script: Seq<char>) -> Seq<char> {
    text::text_in(text::hex(sha1_of(utf8::encode_utf8(script))))
}

/// A checksum in hexadecimal digits.
pub fn hex_text(digest: &[u8]) -> (t: String)
    ensures
        t@ == text::text_in(text::hex(digest@)),
{
    let digits = text::to_hex(digest);
    text::lossy(&digits)
}

/// The name of a script in the cache.
pub fn sha1_hex(script: &str) -> (t: String)
    ensures
        t@ == sha1_text(script@),
{
    let bytes = text::bytes_of(script);
    let digest = sha1_digest(&bytes);
    hex_text(&digest)
}

/// The scripts that a table holds by their names.
pub uninterp spec fn scripts_in(m: DashMap<String, String>) -> Map<Seq<char>, Seq<char>>;

/// No script.
pub open spec fn no_scripts() -> Map<Seq<char>, Seq<char>> {
    Map::empty()
}

/// Makes an empty table with `DashMap::new`.
#[verifier::external_body]
fn new_scripts() -> (m: DashMap<String, String>)
    ensures
        scripts_in(m) == no_scripts(),
{
    DashMap::new()
}

/// Looks a script up with `DashMap::get` and copies it.
#[verifier::external_body]
fn script_named(m: &DashMap<String, String>, name: &str) -> (r: Option<String>)
    ensures
        match r {
            Some(s) => scripts_in(*m).contains_key(name@) && scripts_in(*m)[name@] == s@,
            None => !scripts_in(*m).contains_key(name@),
        },
{
    m.get(name).map(|entry| entry.value().clone())
}

/// Stores a script with `DashMap::insert`.
#[verifier::external_body]
fn put_script(m: &mut DashMap<String, String>, name: String, script: String)
    ensures
        scripts_in(*final(m)) == scripts_in(*old(m)).insert(name@, script@),
{
    m.insert(name, script);
}

/// The error for a script that is not in the cache.
pub open spec fn no_script() -> ErrorView {
    ErrorView::Command("NOSCRIPT No matching script. Please use EVAL."@)
}

/// A script that is to be run, with what it sees as KEYS and ARGV.
#[derive(Debug)]
pub struct ScriptCall {
    pub script: String,
    pub keys: Vec<String>,
    pub args: Vec<String>,
}

/// A script call as contracts see it.
#[verifier::ext_equal]
pub struct CallView {
    pub script: Seq<char>,
    pub keys: Seq<Seq<char>>,
    pub args: Seq<Seq<char>>,
}

impl View for ScriptCall {
    type V = CallView;

    open spec fn view(&self) -> CallView {
        CallView {
            script: self.script@,
            keys: pubsub::names_of(self.keys@),
            args: pubsub::names_of(self.args@),
        }
    }
}

/// The cache of scripts.
pub struct LuaEngine {
    scripts: DashMap<String, String>,
}

impl View for LuaEngine {
    type V = Map<Seq<char>, Seq<char>>;

    closed spec fn view(&self) -> Map<Seq<char>, Seq<char>> {
        scripts_in(self.scripts)
    }
}

impl LuaEngine {
    /// An empty cache.
    pub fn new() -> (e: LuaEngine)
        ensures
            e@ == no_scripts(),
    {
        LuaEngine { scripts: new_scripts() }
    }

    /// Calls a script, which from now on is in the cache.
    pub fn eval(&mut self, script: &str, keys: Vec<String>, args: Vec<String>) -> (c: ScriptCall)
        ensures
            c@ == (CallView {
                script: script@,
                keys: pubsub::names_of(keys@),
                args: pubsub::names_of(args@),
            }),
            final(self)@ == old(self)@.insert(sha1_text(script@), script@),
    {
        let name = sha1_hex(script);
        put_script(&mut self.scripts, name, script.to_owned());
        ScriptCall { script: script.to_owned(), keys, args }
    }

    /// Calls the script in the cache that has a checksum.
    pub fn evalsha(&self, sha1: &str, keys: Vec<String>, args: Vec<String>) -> (r: KvdbResult<
        ScriptCall,
    >)
        ensures
            match r {
                Ok(c) => self@.contains_key(sha1@) && c@ == (CallView {
                    script: self@[sha1@],
                    keys: pubsub::names_of(keys@),
                    args: pubsub::names_of(args@),
                }),
                Err(e) => !self@.contains_key(sha1@) && e@ == no_script(),
            },
    {
        match script_named(&self.scripts, sha1) {
            Some(script) => Ok(ScriptCall { script, keys, args }),
            None => Err(error::command_error("NOSCRIPT No matching script. Please use EVAL.")),
        }
    }
}

/// A script that was cached is found under its name, and under another name
/// what was there before.
pub proof fn law_cached_script_is_found(
    cache: Map<Seq<char>, Seq<char>>,
    script: Seq<char>,
    name: Seq<char>,
)
    ensures
        cache.insert(sha1_text(script), script).contains_key(sha1_text(script)),
        cache.insert(sha1_text(script), script)[sha1_text(script)] == script,
        name != sha1_text(script) ==> cache.insert(sha1_text(script), script).contains_key(name)
            == cache.contains_key(name),
{
}

/// A value of the script language.
#[derive(Debug, PartialEq)]
pub enum LuaValue {
    Nil,
    Boolean(bool),
    Integer(i64),
    /// A floating point number, as decimal text.
    Number(Vec<u8>),
    Text(Vec<u8>),
    /// The pairs of a table, in the order in which it is walked.
    Table(Vec<(LuaValue, LuaValue)>),
    /// A value that has no counterpart outside: a function, say.
    Other,
}

/// A value of the script language over mathematical sequences.
pub enum LuaView {
    Nil,
    Boolean(bool),
    Integer(i64),
    Number(Seq<u8>),
    Text(Seq<u8>),
    Table(Seq<(LuaView, LuaView)>),
    Other,
}

/// The mathematical form of a value.
pub open spec fn lua_view_of(v: LuaValue) -> LuaView
    decreases v,
{
    match v {
        LuaValue::Nil => LuaView::Nil,
        LuaValue::Boolean(b) => LuaView::Boolean(b),
        LuaValue::Integer(n) => LuaView::Integer(n),
        LuaValue::Number(t) => LuaView::Number(t@),
        LuaValue::Text(t) => LuaView::Text(t@),
        LuaValue::Table(items) => LuaView::Table(
            Seq::new(
                items@.len(),
                |i: int|
                    if 0 <= i < items@.len() {
                        (lua_view_of(items@[i].0), lua_view_of(items@[i].1))
                    } else {
                        (LuaView::Nil, LuaView::Nil)
                    },
            ),
        ),
        LuaValue::Other => LuaView::Other,
    }
}

impl View for LuaValue {
    type V = LuaView;

    open spec fn view(&self) -> LuaView {
        lua_view_of(*self)
    }
}

/// The pairs of a table.
pub open spec fn lua_pairs(items: Seq<(LuaValue, LuaValue)>) -> Seq<(LuaView, LuaView)> {
    Seq::new(items.len(), |i: int| (items[i].0@, items[i].1@))
}

proof fn lemma_table_view(items: Vec<(LuaValue, LuaValue)>)
    ensures
        LuaValue::Table(items)@ == LuaView::Table(lua_pairs(items@)),
{
    assert(LuaValue::Table(items)@->Table_0 =~= lua_pairs(items@));
}

/// A reply as a script sees it: lists become tables with the keys 1, 2 and so
/// on, and nothing becomes nil.
pub open spec fn to_lua(v: RespView) -> LuaView
    decreases v,
{
    match v {
        RespView::SimpleString(s) => LuaView::Text(utf8::encode_utf8(s)),
        RespView::Error(s) => LuaView::Text(utf8::encode_utf8(s)),
        RespView::Integer(n) => LuaView::Integer(n),
        RespView::BulkString(b) => match b {
            None => LuaView::Nil,
            Some(b) => LuaView::Text(b),
        },
        RespView::Null => LuaView::Nil,
        RespView::Boolean(b) => LuaView::Boolean(b),
        RespView::Double(t) => LuaView::Number(t),
        RespView::Array(items) => LuaView::Table(numbered(items)),
        RespView::SetReply(items) => LuaView::Table(numbered(items)),
        RespView::MapReply(items) => LuaView::Table(keyed(items)),
        RespView::Score(b) => LuaView::Text(text::dec(b as nat)),
    }
}

/// The pairs of a list: its places, from 1, with its values.
pub open spec fn numbered(items: Seq<RespView>) -> Seq<(LuaView, LuaView)>
    decreases items,
{
    if items.len() == 0 {
        Seq::empty()
    } else {
        numbered(items.drop_last()).push(
            (LuaView::Integer(items.len() as i64), to_lua(items.last())),
        )
    }
}

/// The pairs of a map.
pub open spec fn keyed(items: Seq<(RespView, RespView)>) -> Seq<(LuaView, LuaView)>
    decreases items,
{
    if items.len() == 0 {
        Seq::empty()
    } else {
        keyed(items.drop_last()).push((to_lua(items.last().0), to_lua(items.last().1)))
    }
}

fn numbered_table(items: &Vec<RespValue>) -> (r: Vec<(LuaValue, LuaValue)>)
    ensures
        lua_pairs(r@) == numbered(protocol::views(items@)),
    decreases items,
{
    let ghost vs = protocol::views(items@);
    let mut r: Vec<(LuaValue, LuaValue)> = Vec::new();
    let mut i: usize = 0;
    proof {
        assert(vs.take(0) =~= Seq::<RespView>::empty());
        assert(lua_pairs(r@) =~= numbered(vs.take(0)));
    }
    while i < items.len()
        invariant
            i <= items@.len(),
            vs == protocol::views(items@),
            lua_pairs(r@) == numbered(vs.take(i as int)),
        decreases items.len() - i,
    {
        let ghost before = r@;
        let v = lua_value_from_resp(&items[i]);
        r.push((LuaValue::Integer((i + 1) as i64), v));
        proof {
            let next = vs.take(i + 1);
            assert(next.drop_last() =~= vs.take(i as int));
            assert(next.last() == items@[i as int]@);
            assert(lua_pairs(r@) =~= lua_pairs(before).push(
                (LuaView::Integer((i + 1) as i64), to_lua(items@[i as int]@)),
            ));
        }
        i = i + 1;
    }
    proof {
        assert(vs.take(i as int) =~= vs);
    }
    r
}

/// Gives a reply to a script.
pub fn lua_value_from_resp(value: &RespValue) -> (r: LuaValue)
    ensures
        r@ == to_lua(value@),
    decreases value,
{
    match value {
        RespValue::SimpleString(s) => LuaValue::Text(text::bytes_of(s.as_str())),
        RespValue::Error(s) => LuaValue::Text(text::bytes_of(s.as_str())),
        RespValue::Integer(n) => LuaValue::Integer(*n),
        RespValue::BulkString(b) => match b {
            None => LuaValue::Nil,
            Some(b) => LuaValue::Text(encoding::copy(b)),
        },
        RespValue::Null => LuaValue::Nil,
        RespValue::Boolean(b) => LuaValue::Boolean(*b),
        RespValue::Double(t) => LuaValue::Number(encoding::copy(t)),
        RespValue::Array(items) => {
            let pairs = numbered_table(items);
            proof {
                protocol::lemma_array_view(*items);
                lemma_table_view(pairs);
            }
            LuaValue::Table(pairs)
        },
        RespValue::SetReply(items) => {
            let pairs = numbered_table(items);
            proof {
                protocol::lemma_array_view(*items);
                lemma_table_view(pairs);
            }
            LuaValue::Table(pairs)
        },
        RespValue::MapReply(items) => {
            let ghost vs = protocol::pair_views(items@);
            let mut r: Vec<(LuaValue, LuaValue)> = Vec::new();
            let mut i: usize = 0;
            proof {
                assert(vs.take(0) =~= Seq::<(RespView, RespView)>::empty());
                assert(lua_pairs(r@) =~= keyed(vs.take(0)));
            }
            while i < items.len()
                invariant
                    i <= items@.len(),
                    *value == RespValue::MapReply(*items),
                    vs == protocol::pair_views(items@),
                    lua_pairs(r@) == keyed(vs.take(i as int)),
                decreases items.len() - i,
            {
                proof {
                    assert(decreases_to!(*value => value->MapReply_0));
                    assert(decreases_to!(*items => items@[i as int]));
                    assert(decreases_to!(items@[i as int] => items@[i as int].0));
                    assert(decreases_to!(items@[i as int] => items@[i as int].1));
                }
                let ghost before = r@;
                let k = lua_value_from_resp(&items[i].0);
                let v = lua_value_from_resp(&items[i].1);
                r.push((k, v));
                proof {
                    let next = vs.take(i + 1);
                    assert(next.drop_last() =~= vs.take(i as int));
                    assert(next.last() == (items@[i as int].0@, items@[i as int].1@));
                    assert(lua_pairs(r@) =~= lua_pairs(before).push(
                        (to_lua(items@[i as int].0@), to_lua(items@[i as int].1@)),
                    ));
                }
                i = i + 1;
            }
            proof {
                assert(vs.take(i as int) =~= vs);
                assert(value@->MapReply_0 =~= vs);
                lemma_table_view(r);
            }
            LuaValue::Table(r)
        },
        RespValue::Score(b) => {
            let mut digits: Vec<u8> = Vec::new();
            text::push_dec(&mut digits, *b);
            proof {
                assert(digits@ =~= text::dec(*b as nat));
            }
            LuaValue::Text(digits)
        },
    }
}

/// A list with nulls behind it, so that it has at least `n` items.
pub open spec fn filled(items: Seq<RespView>, n: int) -> Seq<RespView> {
    Seq::new(
        if items.len() < n {
            n as nat
        } else {
            items.len()
        },
        |i: int|
            if i < items.len() {
                items[i]
            } else {
                RespView::Null
            },
    )
}

/// A pair of a table that makes up a list: its key is a place.
pub open spec fn is_place(k: LuaView) -> bool {
    k is Integer && k->Integer_0 > 0
}

/// What a script returns as a reply. A table whose keys are all places is a
/// list, with nulls in its gaps; any other table is a map of the pairs whose
/// keys are not.
pub open spec fn to_reply(v: LuaView) -> RespView
    decreases v,
{
    match v {
        LuaView::Nil => RespView::Null,
        LuaView::Boolean(b) => RespView::Boolean(b),
        LuaView::Integer(n) => RespView::Integer(n),
        LuaView::Number(t) => RespView::Double(t),
        LuaView::Text(t) => RespView::BulkString(Some(utf8::encode_utf8(text::text_in(t)))),
        LuaView::Table(items) => if map_part(items).len() > 0 {
            RespView::MapReply(map_part(items))
        } else {
            RespView::Array(list_part(items))
        },
        LuaView::Other => RespView::Null,
    }
}

/// The values of a table at their places.
pub open spec fn list_part(items: Seq<(LuaView, LuaView)>) -> Seq<RespView>
    decreases items,
{
    if items.len() == 0 {
        Seq::empty()
    } else {
        let before = list_part(items.drop_last());
        if is_place(items.last().0) {
            let at = items.last().0->Integer_0;
            filled(before, at as int).update(at - 1, to_reply(items.last().1))
        } else {
            before
        }
    }
}

/// The pairs of a table whose keys are no places.
pub open spec fn map_part(items: Seq<(LuaView, LuaView)>) -> Seq<(RespView, RespView)>
    decreases items,
{
    if items.len() == 0 {
        Seq::empty()
    } else {
        let before = map_part(items.drop_last());
        if is_place(items.last().0) {
            before
        } else {
            before.push((to_reply(items.last().0), to_reply(items.last().1)))
        }
    }
}

fn fill(arr: &mut Vec<RespValue>, n: u64)
    ensures
        protocol::views(final(arr)@) == filled(protocol::views(old(arr)@), n as int),
        final(arr)@.len() >= n,
{
    let ghost first = protocol::views(arr@);
    proof {
        assert(first =~= filled(first, first.len() as int));
    }
    while (arr.len() as u64) < n
        invariant
            arr@.len() >= first.len(),
            arr@.len() > first.len() ==> arr@.len() <= n,
            protocol::views(arr@) =~= filled(first, arr@.len() as int),
        decreases n - arr.len(),
    {
        let ghost before = protocol::views(arr@);
        arr.push(RespValue::Null);
        proof {
            assert(protocol::views(arr@) =~= before.push(RespView::Null));
        }
    }
    proof {
        assert(protocol::views(arr@) =~= filled(first, n as int));
    }
}

/// Makes a reply of what a script returns.
pub fn resp_value_from_lua(value: &LuaValue) -> (r: RespValue)
    ensures
        r@ == to_reply(value@),
    decreases value,
{
    match value {
        LuaValue::Nil => RespValue::Null,
        LuaValue::Boolean(b) => RespValue::Boolean(*b),
        LuaValue::Integer(n) => RespValue::Integer(*n),
        LuaValue::Number(t) => RespValue::Double(encoding::copy(t)),
        LuaValue::Text(t) => {
            let shown = text::lossy(t);
            RespValue::BulkString(Some(text::bytes_of(shown.as_str())))
        },
        LuaValue::Table(items) => {
            let ghost vs = lua_pairs(items@);
            let mut arr: Vec<RespValue> = Vec::new();
            let mut map: Vec<(RespValue, RespValue)> = Vec::new();
            let mut i: usize = 0;
            proof {
                assert(vs.take(0) =~= Seq::<(LuaView, LuaView)>::empty());
                assert(protocol::views(arr@) =~= list_part(vs.take(0)));
                assert(protocol::pair_views(map@) =~= map_part(vs.take(0)));
            }
            while i < items.len()
                invariant
                    i <= items@.len(),
                    *value == LuaValue::Table(*items),
                    vs == lua_pairs(items@),
                    protocol::views(arr@) == list_part(vs.take(i as int)),
                    protocol::pair_views(map@) == map_part(vs.take(i as int)),
                decreases items.len() - i,
            {
                proof {
                    assert(decreases_to!(*value => value->Table_0));
                    assert(decreases_to!(*items => items@[i as int]));
                    assert(decreases_to!(items@[i as int] => items@[i as int].0));
                    assert(decreases_to!(items@[i as int] => items@[i as int].1));
                    let next = vs.take(i + 1);
                    assert(next.drop_last() =~= vs.take(i as int));
                    assert(next.last() == (items@[i as int].0@, items@[i as int].1@));
                }
                let ghost k = items@[i as int].0@;
                let ghost v = items@[i as int].1@;
                let place: i64 = match &items[i].0 {
                    LuaValue::Integer(n) => if *n > 0 {
                        *n
                    } else {
                        0
                    },
                    _ => 0,
                };
                proof {
                    assert(is_place(k) == (place > 0));
                }
                let ghost map_before = map@;
                if place > 0 {
                    let at: u64 = place as u64;
                    let ghost arr_before = protocol::views(arr@);
                    fill(&mut arr, at);
                    let item = resp_value_from_lua(&items[i].1);
                    let ghost filled_arr = arr@;
                    proof {
                        assert(arr.len() == arr@.len());
                    }
                    arr.set((at - 1) as usize, item);
                    proof {
                        assert(protocol::views(arr@) =~= protocol::views(filled_arr).update(
                            place - 1,
                            to_reply(v),
                        ));
                    }
                } else {
                    let a = resp_value_from_lua(&items[i].0);
                    let b = resp_value_from_lua(&items[i].1);
                    map.push((a, b));
                    proof {
                        assert(protocol::pair_views(map@) =~= protocol::pair_views(
                            map_before,
                        ).push((to_reply(k), to_reply(v))));
                    }
                }
                i = i + 1;
            }
            proof {
                assert(vs.take(i as int) =~= vs);
                lemma_table_view(*items);
                assert(protocol::pair_views(map@).len() == map@.len());
            }
            if map.len() > 0 {
                let r = RespValue::MapReply(map);
                proof {
                    assert(r@->MapReply_0 =~= map_part(vs));
                }
                r
            } else {
                proof {
                    protocol::lemma_array_view(arr);
                }
                RespValue::Array(arr)
            }
        },
        LuaValue::Other => RespValue::Null,
    }
}

/// The bytes of an argument that a script hands to a command: texts and
/// numbers as they read, nothing for any other value.
pub open spec fn argument_bytes(v: LuaView) -> Seq<u8> {
    match v {
        LuaView::Text(t) => utf8::encode_utf8(text::text_in(t)),
        LuaView::Integer(n) => text::dec_signed(n as int),
        LuaView::Number(t) => t,
        _ => Seq::empty(),
    }
}

/// The values of a list.
pub open spec fn lua_views(v: Seq<LuaValue>) -> Seq<LuaView> {
    Seq::new(v.len(), |i: int| v[i]@)
}

/// The command that a script calls: its name and its arguments. `shown` is
/// how the name reads if it is no text.
pub open spec fn called_command(params: Seq<LuaView>, shown: Seq<char>) -> Result<
    (Seq<u8>, Seq<Seq<u8>>),
    ErrorView,
> {
    if params.len() == 0 {
        Err(ErrorView::WrongArgCount("redis"@))
    } else {
        match params[0] {
            LuaView::Text(t) => Ok(
                (
                    utf8::encode_utf8(text::text_in(t)),
                    Seq::new((params.len() - 1) as nat, |i: int| argument_bytes(params[i + 1])),
                ),
            ),
            _ => Err(
                ErrorView::Command(
                    "Lua redis() command argument must be a string, got "@ + shown,
                ),
            ),
        }
    }
}

fn shown_bytes(t: &Vec<u8>) -> (r: Vec<u8>)
    ensures
        r@ == utf8::encode_utf8(text::text_in(t@)),
{
    let s = text::lossy(t);
    text::bytes_of(s.as_str())
}

/// Makes a command of what a script hands over.
pub fn command_from_lua(params: &Vec<LuaValue>, shown: &str) -> (r: KvdbResult<
    (Vec<u8>, Vec<Vec<u8>>),
>)
    ensures
        match r {
            Ok((name, args)) => called_command(lua_views(params@), shown@) == Ok::<_, ErrorView>(
                (name@, encoding::byte_seqs(args@)),
            ),
            Err(e) => called_command(lua_views(params@), shown@) == Err::<
                (Seq<u8>, Seq<Seq<u8>>),
                _,
            >(e@),
        },
{
    let ghost ps = lua_views(params@);
    if params.len() == 0 {
        return Err(KvdbError::WrongArgCount("redis"));
    }
    proof {
        assert(ps[0] == params@[0]@);
    }
    let name = match &params[0] {
        LuaValue::Text(t) => shown_bytes(t),
        _ => {
            let mut message =
                "Lua redis() command argument must be a string, got ".to_owned();
            message.append(shown);
            return Err(KvdbError::Command(message));
        },
    };
    let ghost want = Seq::new((ps.len() - 1) as nat, |i: int| argument_bytes(ps[i + 1]));
    let mut args: Vec<Vec<u8>> = Vec::new();
    let mut i: usize = 1;
    proof {
        assert(encoding::byte_seqs(args@) =~= want.take(0));
    }
    while i < params.len()
        invariant
            1 <= i <= params@.len(),
            ps == lua_views(params@),
            want == Seq::new((ps.len() - 1) as nat, |i: int| argument_bytes(ps[i + 1])),
            encoding::byte_seqs(args@) =~= want.take(i - 1),
        decreases params.len() - i,
    {
        let ghost before = args@;
        proof {
            assert(ps[i as int] == params@[i as int]@);
        }
        let a: Vec<u8> = match &params[i] {
            LuaValue::Text(t) => shown_bytes(t),
            LuaValue::Integer(n) => text::signed_text(*n),
            LuaValue::Number(t) => encoding::copy(t),
            _ => Vec::new(),
        };
        proof {
            assert(a@ =~= argument_bytes(ps[i as int]));
            assert(want[i - 1] == a@);
        }
        args.push(a);
        proof {
            assert(encoding::byte_seqs(args@) =~= encoding::byte_seqs(before).push(a@));
            assert(want.take(i as int) =~= want.take(i - 1).push(want[i - 1]));
        }
        i = i + 1;
    }
    proof {
        assert(want.take(i - 1) =~= want);
    }
    Ok((name, args))
}

/// A reply that a script can hand back as it is: numbers, flags, nothing, and
/// texts of UTF-8, and lists of these.
pub open spec fn passes_through(v: RespView) -> bool
    decreases v,
{
    match v {
        RespView::Integer(_) => true,
        RespView::Boolean(_) => true,
        RespView::Null => true,
        RespView::Double(_) => true,
        RespView::BulkString(Some(b)) => utf8::encode_utf8(text::text_in(b)) == b,
        RespView::Array(items) => items.len() <= i64::MAX && forall|i: int|
            0 <= i < items.len() ==> passes_through(#[trigger] items[i]),
        _ => false,
    }
}

/// What a command replies to a script comes back as the same reply where the
/// script returns it.
pub proof fn law_replies_pass_through_scripts(v: RespView)
    requires
        passes_through(v),
    ensures
        to_reply(to_lua(v)) == v,
    decreases v,
{
    match v {
        RespView::Array(items) => {
            assert forall|i: int| 0 <= i < items.len() implies to_reply(
                to_lua(#[trigger] items[i]),
            ) == items[i] by {
                law_replies_pass_through_scripts(items[i]);
            }
            lemma_list_passes(items);
        },
        _ => {},
    }
}

proof fn lemma_list_passes(items: Seq<RespView>)
    requires
        items.len() <= i64::MAX,
        forall|i: int|
            0 <= i < items.len() ==> to_reply(to_lua(#[trigger] items[i])) == items[i],
    ensures
        list_part(numbered(items)) == items,
        map_part(numbered(items)) == Seq::<(RespView, RespView)>::empty(),
        numbered(items).len() == items.len(),
    decreases items.len(),
{
    if items.len() > 0 {
        let before = items.drop_last();
        assert forall|i: int| 0 <= i < before.len() implies to_reply(
            to_lua(#[trigger] before[i]),
        ) == before[i] by {
            assert(before[i] == items[i]);
        }
        lemma_list_passes(before);
        let pairs = numbered(items);
        assert(pairs.drop_last() =~= numbered(before));
        let n = items.len() as int;
        assert(is_place(pairs.last().0));
        assert(to_reply(to_lua(items[n - 1])) == items[n - 1]);
        assert(filled(before, n).update(n - 1, items.last()) =~= items);
    }
}

/// The command that a script calls has the name and the arguments that the script
/// hands over, in their order: texts as they are, whole numbers in decimal digits.
/// A call without a name is refused.
pub proof fn law_script_commands(name: Seq<u8>, args: Seq<LuaView>, shown: Seq<char>, i: int)
    requires
        utf8::encode_utf8(text::text_in(name)) == name,
        0 <= i < args.len(),
    ensures
        ({
            let r = called_command(seq![LuaView::Text(name)] + args, shown);
            &&& r is Ok
            &&& (r->Ok_0).0 == name
            &&& (r->Ok_0).1.len() == args.len()
            &&& match args[i] {
                LuaView::Text(t) => utf8::encode_utf8(text::text_in(t)) == t ==> (r->Ok_0).1[i] == t,
                LuaView::Integer(n) => text::i64_in((r->Ok_0).1[i]) == Some(n),
                _ => true,
            }
        }),
        called_command(Seq::empty(), shown) is Err,
{
    let all = seq![LuaView::Text(name)] + args;
    assert(all[0] == LuaView::Text(name));
    assert(all[i + 1] == args[i]);
    match args[i] {
        LuaView::Integer(n) => {
            text::law_decimal_round_trip(0, n as int);
        },
        _ => {},
    }
}

proof fn lemma_numbered(items: Seq<RespView>)
    ensures
        numbered(items).len() == items.len(),
        forall|i: int|
            0 <= i < items.len() ==> #[trigger] numbered(items)[i] == (
                LuaView::Integer((i + 1) as i64),
                to_lua(items[i]),
            ),
    decreases items.len(),
{
    if items.len() > 0 {
        lemma_numbered(items.drop_last());
    }
}

proof fn lemma_keyed(items: Seq<(RespView, RespView)>)
    ensures
        keyed(items).len() == items.len(),
        forall|i: int|
            0 <= i < items.len() ==> #[trigger] keyed(items)[i] == (
                to_lua(items[i].0),
                to_lua(items[i].1),
            ),
    decreases items.len(),
{
    if items.len() > 0 {
        lemma_keyed(items.drop_last());
    }
}

/// What a script sees of a reply: the item at the place `i` of a list or a set, the
/// first one at 1, the pairs of a map, the bytes of a text, and nil for nothing.
pub proof fn law_scripts_see_replies(
    items: Seq<RespView>,
    pairs: Seq<(RespView, RespView)>,
    shown: Seq<char>,
    i: int,
)
    ensures
        ({
            let table = to_lua(RespView::Array(items));
            &&& table is Table && (table->Table_0).len() == items.len()
            &&& 0 <= i < items.len() ==> (table->Table_0)[i] == (
                LuaView::Integer((i + 1) as i64),
                to_lua(items[i]),
            )
            &&& to_lua(RespView::SetReply(items)) == table
        }),
        ({
            let table = to_lua(RespView::MapReply(pairs));
            &&& table is Table && (table->Table_0).len() == pairs.len()
            &&& 0 <= i < pairs.len() ==> (table->Table_0)[i] == (
                to_lua(pairs[i].0),
                to_lua(pairs[i].1),
            )
        }),
        to_lua(RespView::SimpleString(shown)) == LuaView::Text(utf8::encode_utf8(shown)),
        to_lua(RespView::Error(shown)) == LuaView::Text(utf8::encode_utf8(shown)),
        to_lua(RespView::BulkString(None)) == LuaView::Nil,
        to_lua(RespView::Null) == LuaView::Nil,
{
    lemma_numbered(items);
    lemma_keyed(pairs);
}

/// What a script returns: a table with a key that is no place is a map, of the
/// pairs with such keys, in their order; any other table is a list, in which the
/// last value for a place stands at it and what is left out is null.
pub proof fn law_tables_become_replies(items: Seq<(LuaView, LuaView)>, k: LuaView, v: LuaView)
    ensures
        ({
            let r = to_reply(LuaView::Table(items.push((k, v))));
            let before = to_reply(LuaView::Table(items));
            &&& !(k is Integer && k->Integer_0 > 0) ==> r is MapReply && (r->MapReply_0).last() == (
                to_reply(k),
                to_reply(v),
            ) && (before is MapReply ==> (r->MapReply_0).drop_last() == before->MapReply_0)
            &&& k is Integer && k->Integer_0 > 0 && before is MapReply ==> r == before
            &&& k is Integer && k->Integer_0 > 0 && before is Array ==> {
                let at = k->Integer_0 as int;
                let old = before->Array_0;
                let new = r->Array_0;
                &&& r is Array
                &&& new.len() == if old.len() < at {
                    at as nat
                } else {
                    old.len()
                }
                &&& new[at - 1] == to_reply(v)
                &&& forall|i: int|
                    0 <= i < new.len() && i != at - 1 ==> #[trigger] new[i] == if i < old.len() {
                        old[i]
                    } else {
                        RespView::Null
                    }
            }
        }),
        to_reply(LuaView::Table(Seq::empty())) == RespView::Array(Seq::empty()),
        to_reply(LuaView::Nil) == RespView::Null,
        to_reply(LuaView::Other) == RespView::Null,
{
    let more = items.push((k, v));
    assert(more.drop_last() =~= items);
    assert(more.last() == (k, v));
    if !(k is Integer && k->Integer_0 > 0) {
        assert(map_part(more) == map_part(items).push((to_reply(k), to_reply(v))));
        assert(map_part(more).drop_last() =~= map_part(items));
    }
}

} // verus!
