//! Script commands.

use super::pubsub;
use super::{expect_min_arg_count, CommandContext};
use crate::cmd;
use crate::encoding;
use crate::error;
use crate::error::{ErrorView, KvdbError, KvdbResult};
use crate::lua;
use crate::lua::{CallView, ScriptCall};
use crate::text;
use vstd::prelude::*;

verus! {

/// How many of the arguments behind the second one are keys.
pub open spec fn numkeys_in(a: Seq<Seq<u8>>, name: Seq<char>) -> Result<int, ErrorView> {
    if a.len() < 2 {
        Err(cmd::wrong_args(name))
    } else {
        match text::usize_in(a[1]) {
            None => Err(ErrorView::Command("numkeys must be an integer"@)),
            Some(n) => if a.len() < 2 + n {
                Err(cmd::wrong_args(name))
            } else {
                Ok(n as int)
            },
        }
    }
}

/// The call of a script with the arguments behind the second one, the first
/// `n` of which are keys.
pub open spec fn call_of(script: Seq<char>, a: Seq<Seq<u8>>, n: int) -> CallView {
    CallView {
        script,
        keys: pubsub::texts_in(a.subrange(2, 2 + n)),
        args: pubsub::texts_in(a.skip(2 + n)),
    }
}

/// Reads how many of the arguments are keys.
pub fn parse_numkeys(name: &'static str, args: &[Vec<u8>]) -> (r: KvdbResult<usize>)
    ensures
        match r {
            Ok(n) => numkeys_in(encoding::byte_seqs(args@), name@) == Ok::<int, ErrorView>(
                n as int,
            ),
            Err(e) => numkeys_in(encoding::byte_seqs(args@), name@) == Err::<int, ErrorView>(e@),
        },
{
    match expect_min_arg_count(name, args, 2) {
        Ok(_) => {},
        Err(e) => return Err(e),
    }
    match text::parse_usize(&args[1]) {
        None => Err(error::command_error("numkeys must be an integer")),
        Some(n) => if args.len() - 2 < n {
            Err(KvdbError::WrongArgCount(name))
        } else {
            Ok(n)
        },
    }
}

fn texts_between(args: &[Vec<u8>], from: usize, upto: usize) -> (r: Vec<String>)
    requires
        from <= upto <= args@.len(),
    ensures
        crate::pubsub::names_of(r@) == pubsub::texts_in(
            encoding::byte_seqs(args@).subrange(from as int, upto as int),
        ),
{
    let ghost part = encoding::byte_seqs(args@).subrange(from as int, upto as int);
    let ghost want = pubsub::texts_in(part);
    let mut r: Vec<String> = Vec::new();
    let mut i: usize = from;
    while i < upto
        invariant
            from <= i <= upto <= args@.len(),
            part == encoding::byte_seqs(args@).subrange(from as int, upto as int),
            want == pubsub::texts_in(part),
            r@.len() == i - from,
            crate::pubsub::names_of(r@) =~= want.take(i - from),
        decreases upto - i,
    {
        let t = text::lossy(&args[i]);
        let ghost before = crate::pubsub::names_of(r@);
        r.push(t);
        proof {
            assert(part[i - from] == args@[i as int]@);
            assert(want[i - from] == t@);
            assert(crate::pubsub::names_of(r@) =~= before.push(t@));
            assert(want.take(i + 1 - from) =~= want.take(i - from).push(t@));
        }
        i = i + 1;
    }
    proof {
        assert(want.take(upto - from) =~= want);
    }
    r
}

/// The keys and the other arguments of a script call.
fn call_parts(args: &[Vec<u8>], n: usize) -> (r: (Vec<String>, Vec<String>))
    requires
        2 + n <= args@.len(),
    ensures
        ({
            let a = encoding::byte_seqs(args@);
            &&& crate::pubsub::names_of(r.0@) == pubsub::texts_in(a.subrange(2, 2 + n))
            &&& crate::pubsub::names_of(r.1@) == pubsub::texts_in(a.skip(2 + n))
        }),
{
    proof {
        assert(args.len() == args@.len());
    }
    let keys = texts_between(args, 2, 2 + n);
    let rest = texts_between(args, 2 + n, args.len());
    proof {
        let a = encoding::byte_seqs(args@);
        assert(a.subrange(2 + n, a.len() as int) =~= a.skip(2 + n));
    }
    (keys, rest)
}

/// The cached scripts by their names.
pub type Cache = Map<Seq<char>, Seq<char>>;

/// The outcome of a script command as contracts see it.
pub open spec fn call_view(r: KvdbResult<ScriptCall>) -> Result<CallView, ErrorView> {
    match r {
        Ok(c) => Ok(c@),
        Err(e) => Err(e@),
    }
}

/// EVAL script numkeys key [key ...] arg [arg ...]: caches the script and
/// calls it.
pub open spec fn eval_result(cache: Cache, a: Seq<Seq<u8>>) -> (
    Cache,
    Result<CallView, ErrorView>,
) {
    match numkeys_in(a, "EVAL"@) {
        Err(e) => (cache, Err(e)),
        Ok(n) => {
            let script = text::text_in(a[0]);
            (cache.insert(lua::sha1_text(script), script), Ok(call_of(script, a, n)))
        },
    }
}

pub fn eval(ctx: &mut CommandContext, args: &[Vec<u8>]) -> (r: KvdbResult<ScriptCall>)
    ensures
        (final(ctx).lua@, call_view(r)) == eval_result(
            old(ctx).lua@,
            encoding::byte_seqs(args@),
        ),
        *final(ctx) == (CommandContext { lua: final(ctx).lua, ..*old(ctx) }),
{
    let n: usize = match parse_numkeys("EVAL", args) {
        Ok(n) => n,
        Err(e) => return Err(e),
    };
    let script = text::lossy(&args[0]);
    let (keys, rest) = call_parts(args, n);
    Ok(ctx.lua.eval(script.as_str(), keys, rest))
}

/// EVALSHA sha1 numkeys key [key ...] arg [arg ...]: calls a cached script.
pub open spec fn evalsha_result(cache: Cache, a: Seq<Seq<u8>>) -> Result<CallView, ErrorView> {
    match numkeys_in(a, "EVALSHA"@) {
        Err(e) => Err(e),
        Ok(n) => {
            let name = text::text_in(a[0]);
            if cache.contains_key(name) {
                Ok(call_of(cache[name], a, n))
            } else {
                Err(lua::no_script())
            }
        },
    }
}

pub fn evalsha(ctx: &CommandContext, args: &[Vec<u8>]) -> (r: KvdbResult<ScriptCall>)
    ensures
        call_view(r) == evalsha_result(ctx.lua@, encoding::byte_seqs(args@)),
{
    let n: usize = match parse_numkeys("EVALSHA", args) {
        Ok(n) => n,
        Err(e) => return Err(e),
    };
    let name = text::lossy(&args[0]);
    let (keys, rest) = call_parts(args, n);
    ctx.lua.evalsha(name.as_str(), keys, rest)
}

/// EVAL calls the script that it is given. KEYS are as many of the arguments
/// behind the number as the number says, from the first one on, and ARGV are all
/// others. From then on EVALSHA with the script's checksum and the same further
/// arguments makes the same call, and later scripts do not change that unless
/// their checksum is the same.
#[verifier::rlimit(60)]
pub proof fn law_evalsha_calls_as_eval(
    cache: Cache,
    script: Seq<u8>,
    name: Seq<u8>,
    number: Seq<u8>,
    rest: Seq<Seq<u8>>,
    later: Seq<u8>,
    later_rest: Seq<Seq<u8>>,
)
    requires
        text::usize_in(number) is Some,
        text::usize_in(number)->0 <= rest.len(),
        text::text_in(name) == lua::sha1_text(text::text_in(script)),
        lua::sha1_text(text::text_in(later)) != text::text_in(name),
    ensures
        ({
            let n = text::usize_in(number)->0 as int;
            let (after, r) = eval_result(cache, seq![script, number] + rest);
            let even_later = eval_result(after, seq![later] + later_rest).0;
            let call = r->Ok_0;
            &&& r is Ok
            &&& call.script == text::text_in(script)
            &&& call.keys.len() == n
            &&& forall|i: int| 0 <= i < n ==> #[trigger] call.keys[i] == text::text_in(rest[i])
            &&& call.args.len() == rest.len() - n
            &&& forall|i: int|
                0 <= i < rest.len() - n ==> #[trigger] call.args[i] == text::text_in(rest[n + i])
            &&& evalsha_result(after, seq![name, number] + rest) == r
            &&& evalsha_result(even_later, seq![name, number] + rest) == r
        }),
{
    let n = text::usize_in(number)->0 as int;
    let a = seq![script, number] + rest;
    let b = seq![name, number] + rest;
    let c = seq![later] + later_rest;
    assert(a[0] == script && a[1] == number);
    assert(b[0] == name && b[1] == number);
    assert(c[0] == later);
    assert(a.subrange(2, 2 + n) =~= rest.subrange(0, n));
    assert(b.subrange(2, 2 + n) =~= rest.subrange(0, n));
    assert(a.skip(2 + n) =~= rest.skip(n));
    assert(b.skip(2 + n) =~= rest.skip(n));
}

/// EVAL and EVALSHA refuse a number of keys that is none, or that is greater
/// than the number of arguments behind it; the cache stays as it is. EVALSHA
/// refuses a checksum that no script in the cache has.
pub proof fn law_script_calls_refused(cache: Cache, a: Seq<Seq<u8>>)
    ensures
        ({
            let (after, r) = eval_result(cache, a);
            let called = evalsha_result(cache, a);
            let named = a.len() >= 2 && text::usize_in(a[1]) is Some;
            let enough = named && text::usize_in(a[1])->0 + 2 <= a.len();
            &&& enough == r is Ok
            &&& r is Err ==> after == cache
            &&& called is Ok <==> enough && cache.contains_key(text::text_in(a[0]))
            &&& enough && called is Err ==> called == Err::<CallView, _>(lua::no_script())
            &&& a.len() >= 2 && !named ==> r == Err::<CallView, _>(
                ErrorView::Command("numkeys must be an integer"@),
            ) && called == r
            &&& (a.len() < 2 || (named && !enough)) ==> r == Err::<CallView, _>(
                ErrorView::WrongArgCount("EVAL"@),
            ) && called == Err::<CallView, _>(ErrorView::WrongArgCount("EVALSHA"@))
        }),
{
}

} // verus!
