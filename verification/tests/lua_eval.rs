//! Scripts in the Lua interpreter.

use kvdb_rs::clock;
use kvdb_rs::cmd::dispatch::Dispatched;
use kvdb_rs::cmd::lua::eval;
use kvdb_rs::cmd::zset::Floats;
use kvdb_rs::cmd::{CommandContext, CommandTable};
use kvdb_rs::lua::{
    command_from_lua, lua_value_from_resp, resp_value_from_lua, sha1_hex, LuaValue, ScriptCall,
};
use kvdb_rs::protocol::RespValue;
use kvdb_rs::Config;
use mlua::{Lua, Value, Variadic};
use std::cell::RefCell;

fn from_lua(value: &Value) -> LuaValue {
    match value {
        Value::Nil => LuaValue::Nil,
        Value::Boolean(b) => LuaValue::Boolean(*b),
        Value::Integer(n) => LuaValue::Integer(*n),
        Value::Number(n) => LuaValue::Number(n.to_string().into_bytes()),
        Value::String(s) => LuaValue::Text(s.as_bytes().to_vec()),
        Value::Table(t) => LuaValue::Table(
            t.pairs::<Value, Value>()
                .map(|pair| {
                    let (k, v) = pair.unwrap();
                    (from_lua(&k), from_lua(&v))
                })
                .collect(),
        ),
        _ => LuaValue::Other,
    }
}

fn to_lua(lua: &Lua, value: LuaValue) -> Value {
    match value {
        LuaValue::Nil | LuaValue::Other => Value::Nil,
        LuaValue::Boolean(b) => Value::Boolean(b),
        LuaValue::Integer(n) => Value::Integer(n),
        LuaValue::Number(t) => Value::Number(String::from_utf8(t).unwrap().parse().unwrap()),
        LuaValue::Text(t) => Value::String(lua.create_string(&t).unwrap()),
        LuaValue::Table(pairs) => {
            let table = lua.create_table().unwrap();
            for (k, v) in pairs {
                table.set(to_lua(lua, k), to_lua(lua, v)).unwrap();
            }
            Value::Table(table)
        }
    }
}

/// Runs a script whose calls of `redis.call` are commands.
fn run_script(ctx: &mut CommandContext, call: &ScriptCall) -> RespValue {
    let lua = Lua::new();
    let shared = RefCell::new(ctx);
    let value = lua
        .scope(|scope| {
            let command = scope.create_function(|lua, params: Variadic<Value>| {
                let values: Vec<LuaValue> = params.iter().map(from_lua).collect();
                let (name, args) = command_from_lua(&values, "").unwrap();
                let args: Vec<&str> =
                    args.iter().map(|a| std::str::from_utf8(a).unwrap()).collect();
                let name = String::from_utf8(name).unwrap();
                let reply = dispatch(&mut **shared.borrow_mut(), &name, &args);
                Ok(to_lua(lua, lua_value_from_resp(&reply)))
            })?;
            let redis = lua.create_table()?;
            redis.set("call", command)?;
            lua.globals().set("redis", redis)?;
            lua.globals().set("KEYS", call.keys.clone())?;
            lua.globals().set("ARGV", call.args.clone())?;
            let value: Value = lua.load(call.script.as_str()).eval()?;
            Ok(from_lua(&value))
        })
        .unwrap();
    resp_value_from_lua(&value)
}

fn dispatch(ctx: &mut CommandContext, name: &str, args: &[&str]) -> RespValue {
    let args: Vec<Vec<u8>> = args.iter().map(|s| s.as_bytes().to_vec()).collect();
    let given = Floats { scores: args.iter().map(|_| None).collect(), sum: 0 };
    let at = clock::this_moment(&mut ctx.versions).unwrap();
    match CommandTable::new().dispatch_at(ctx, name.as_bytes(), &args, at, &given) {
        Dispatched::Reply(v) => v,
        Dispatched::Script(call) => run_script(ctx, &call),
    }
}

fn setup() -> CommandContext {
    CommandContext::new(Config::default())
}

fn bulk(s: &str) -> RespValue {
    RespValue::BulkString(Some(s.as_bytes().to_vec()))
}

#[test]
fn eval_set_get_via_server() {
    let mut ctx = setup();
    let reply = dispatch(
        &mut ctx,
        "EVAL",
        &[
            "redis.call('SET', KEYS[1], ARGV[1]); return redis.call('GET', KEYS[1])",
            "1",
            "lua_key",
            "lua_value",
        ],
    );
    assert_eq!(reply, bulk("lua_value"));
}

#[test]
fn lua_eval_set_get() {
    let mut ctx = setup();
    let script = "redis.call('SET', KEYS[1], ARGV[1]); return redis.call('GET', KEYS[1])";
    let call = ctx.lua.eval(script, vec!["k".to_string()], vec!["v".to_string()]);
    assert_eq!(run_script(&mut ctx, &call), bulk("v"));
}

#[test]
fn lua_evalsha_cache() {
    let mut ctx = setup();
    let script = "return ARGV[1]";
    let sha1 = sha1_hex(script);
    let first = ctx.lua.eval(script, vec![], vec!["hello".to_string()]);
    run_script(&mut ctx, &first);
    let call = ctx.lua.evalsha(&sha1, vec![], vec!["hello".to_string()]).unwrap();
    assert_eq!(run_script(&mut ctx, &call), bulk("hello"));
}

#[test]
fn eval_set_get() {
    let mut ctx = setup();
    let args = [
        b"return redis.call('GET', KEYS[1])".to_vec(),
        b"1".to_vec(),
        b"k".to_vec(),
    ];
    let call = eval(&mut ctx, &args).unwrap();
    assert_eq!(run_script(&mut ctx, &call), RespValue::Null);
}

#[test]
fn a_script_is_called_by_its_checksum_once_it_ran() {
    let mut ctx = setup();
    let script = "return ARGV[1]";
    let sha1 = sha1_hex(script);
    assert_eq!(
        dispatch(&mut ctx, "EVALSHA", &[&sha1, "0", "hello"]),
        RespValue::Error("NOSCRIPT No matching script. Please use EVAL.".to_string())
    );
    assert_eq!(dispatch(&mut ctx, "EVAL", &[script, "0", "hello"]), bulk("hello"));
    assert_eq!(dispatch(&mut ctx, "EVALSHA", &[&sha1, "0", "hello"]), bulk("hello"));
}
