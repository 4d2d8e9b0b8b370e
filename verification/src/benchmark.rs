//! Benchmarks: what is measured, and the commands that are sent for it.

use crate::cmd;
use crate::cmd::{array, push_reply};
use crate::codec;
use crate::encoding;
use crate::error;
use crate::protocol;
use crate::protocol::{RespValue, RespView};
use crate::server::{CommandLine, LineView};
use crate::text;
use rand::Rng;
use vstd::prelude::*;
use vstd::string::*;
use vstd::utf8;

verus! {

/// How a benchmark reaches the database: inside the process, or over the wire.
#[derive(Debug, Clone, Copy, PartialEq, Eq, Structural)]
pub enum BenchmarkMode {
    Embedded,
    Tcp,
}

/// The mode with a name.
pub open spec fn mode_named(s: Seq<char>) -> Option<BenchmarkMode> {
    if text::upper_chars(s) == "EMBEDDED"@ {
        Some(BenchmarkMode::Embedded)
    } else if text::upper_chars(s) == "TCP"@ {
        Some(BenchmarkMode::Tcp)
    } else {
        None
    }
}

impl BenchmarkMode {
    /// Reads the name of a mode, in capital letters or not.
    pub fn parse(s: &str) -> (r: Result<BenchmarkMode, String>)
        ensures
            match r {
                Ok(m) => mode_named(s@) == Some(m),
                Err(e) => mode_named(s@) is None && e@ == "unknown benchmark mode: "@ + s@,
            },
    {
        let name = text::uppercase(s);
        if error::same_text(name.as_str(), "EMBEDDED") {
            return Ok(BenchmarkMode::Embedded);
        }
        if error::same_text(name.as_str(), "TCP") {
            return Ok(BenchmarkMode::Tcp);
        }
        let mut e = "unknown benchmark mode: ".to_owned();
        e.append(s);
        Err(e)
    }
}

impl std::str::FromStr for BenchmarkMode {
    type Err = String;

    fn from_str(s: &str) -> (r: Result<BenchmarkMode, String>) {
        BenchmarkMode::parse(s)
    }
}

/// A command that is measured.
#[derive(Debug, Clone, Copy, PartialEq, Eq, Structural)]
pub enum BenchmarkCommand {
    SetString,
    Get,
    HSet,
    HGet,
    LPush,
    LRange,
    ZAdd,
    ZRange,
}

/// The name of a command.
pub open spec fn command_name(c: BenchmarkCommand) -> Seq<char> {
    match c {
        BenchmarkCommand::SetString => "SET"@,
        BenchmarkCommand::Get => "GET"@,
        BenchmarkCommand::HSet => "HSET"@,
        BenchmarkCommand::HGet => "HGET"@,
        BenchmarkCommand::LPush => "LPUSH"@,
        BenchmarkCommand::LRange => "LRANGE"@,
        BenchmarkCommand::ZAdd => "ZADD"@,
        BenchmarkCommand::ZRange => "ZRANGE"@,
    }
}

impl BenchmarkCommand {
    /// The name of the command.
    pub fn name(&self) -> (s: &'static str)
        ensures
            s@ == command_name(*self),
    {
        match self {
            BenchmarkCommand::SetString => "SET",
            BenchmarkCommand::Get => "GET",
            BenchmarkCommand::HSet => "HSET",
            BenchmarkCommand::HGet => "HGET",
            BenchmarkCommand::LPush => "LPUSH",
            BenchmarkCommand::LRange => "LRANGE",
            BenchmarkCommand::ZAdd => "ZADD",
            BenchmarkCommand::ZRange => "ZRANGE",
        }
    }

    /// Reads the name of a command, in capital letters or not.
    pub fn parse(s: &str) -> (r: Result<BenchmarkCommand, String>)
        ensures
            match r {
                Ok(c) => text::upper_chars(s@) == command_name(c),
                Err(e) => e@ == "unknown benchmark command: "@ + s@ && forall|c: BenchmarkCommand|
                    text::upper_chars(s@) != #[trigger] command_name(c),
            },
    {
        let name = text::uppercase(s);
        if error::same_text(name.as_str(), "SET") {
            return Ok(BenchmarkCommand::SetString);
        }
        if error::same_text(name.as_str(), "GET") {
            return Ok(BenchmarkCommand::Get);
        }
        if error::same_text(name.as_str(), "HSET") {
            return Ok(BenchmarkCommand::HSet);
        }
        if error::same_text(name.as_str(), "HGET") {
            return Ok(BenchmarkCommand::HGet);
        }
        if error::same_text(name.as_str(), "LPUSH") {
            return Ok(BenchmarkCommand::LPush);
        }
        if error::same_text(name.as_str(), "LRANGE") {
            return Ok(BenchmarkCommand::LRange);
        }
        if error::same_text(name.as_str(), "ZADD") {
            return Ok(BenchmarkCommand::ZAdd);
        }
        if error::same_text(name.as_str(), "ZRANGE") {
            return Ok(BenchmarkCommand::ZRange);
        }
        let mut e = "unknown benchmark command: ".to_owned();
        e.append(s);
        Err(e)
    }
}

impl std::str::FromStr for BenchmarkCommand {
    type Err = String;

    fn from_str(s: &str) -> (r: Result<BenchmarkCommand, String>) {
        BenchmarkCommand::parse(s)
    }
}

/// What a benchmark does.
#[derive(Debug)]
pub struct BenchmarkConfig {
    pub mode: BenchmarkMode,
    pub host: String,
    pub port: u16,
    pub db_path: String,
    pub commands: Vec<BenchmarkCommand>,
    pub clients: usize,
    pub requests: usize,
    pub key_size: usize,
    pub value_size: usize,
    pub warmup: usize,
}

impl Default for BenchmarkConfig {
    fn default() -> (c: BenchmarkConfig)
        ensures
            c.mode == BenchmarkMode::Embedded,
            c.host@ == "127.0.0.1"@,
            c.port == 6379,
            c.db_path@ == "./benchmark_data"@,
            c.commands@ == seq![BenchmarkCommand::SetString, BenchmarkCommand::Get],
            c.clients == 8,
            c.requests == 100_000,
            c.key_size == 16,
            c.value_size == 128,
            c.warmup == 1_000,
    {
        let mut commands: Vec<BenchmarkCommand> = Vec::new();
        commands.push(BenchmarkCommand::SetString);
        commands.push(BenchmarkCommand::Get);
        proof {
            assert(commands@ =~= seq![BenchmarkCommand::SetString, BenchmarkCommand::Get]);
        }
        BenchmarkConfig {
            mode: BenchmarkMode::Embedded,
            host: "127.0.0.1".to_owned(),
            port: 6379,
            db_path: "./benchmark_data".to_owned(),
            commands,
            clients: 8,
            requests: 100_000,
            key_size: 16,
            value_size: 128,
            warmup: 1_000,
        }
    }
}

/// A random number by `rand::random`. Nothing is stated of it.
#[verifier::external_body]
fn random_u64() -> (n: u64) {
    rand::random::<u64>()
}

/// A random number below `n` by `rand::Rng::gen_range` on
/// `rand::thread_rng()`.
#[verifier::external_body]
fn random_below(n: usize) -> (i: usize)
    requires
        n > 0,
    ensures
        i < n,
{
    rand::thread_rng().gen_range(0..n)
}

/// The command at a place of the mix; the only one of a mix of one.
pub fn command_at(config: &BenchmarkConfig, i: usize) -> (c: BenchmarkCommand)
    requires
        i < config.commands@.len(),
    ensures
        c == config.commands@[i as int],
{
    config.commands[i]
}

/// Picks a command of the mix by chance.
pub fn pick_command(config: &BenchmarkConfig) -> (c: BenchmarkCommand)
    requires
        config.commands@.len() > 0,
    ensures
        config.commands@.contains(c),
        config.commands@.len() == 1 ==> c == config.commands@[0],
{
    let i: usize = if config.commands.len() == 1 {
        0
    } else {
        random_below(config.commands.len())
    };
    let c = command_at(config, i);
    proof {
        assert(config.commands@[i as int] == c);
    }
    c
}

/// A key: the client, the operation, and letters up to the size.
pub open spec fn key_of(client: nat, op: nat, size: nat) -> Seq<u8> {
    let head = seq![107u8, 101u8, 121u8] + text::dec(client) + seq![58u8] + text::dec(op);
    Seq::new(
        if head.len() < size {
            size
        } else {
            head.len()
        },
        |i: int|
            if i < head.len() {
                head[i]
            } else {
                120u8
            },
    )
}

/// Builds a key.
pub fn build_key(client_id: usize, op_index: usize, key_size: usize) -> (k: Vec<u8>)
    ensures
        k@ == key_of(client_id as nat, op_index as nat, key_size as nat),
{
    let mut k: Vec<u8> = Vec::new();
    k.push(107);
    k.push(101);
    k.push(121);
    text::push_dec(&mut k, client_id as u64);
    k.push(58);
    text::push_dec(&mut k, op_index as u64);
    let ghost head = k@;
    proof {
        assert(head =~= seq![107u8, 101u8, 121u8] + text::dec(client_id as nat) + seq![58u8]
            + text::dec(op_index as nat));
    }
    while k.len() < key_size
        invariant
            k@.len() >= head.len(),
            k@.len() > head.len() ==> k@.len() <= key_size,
            forall|i: int|
                0 <= i < k@.len() ==> #[trigger] k@[i] == if i < head.len() {
                    head[i]
                } else {
                    120u8
                },
        decreases key_size - k.len(),
    {
        k.push(120);
    }
    proof {
        assert(k@ =~= key_of(client_id as nat, op_index as nat, key_size as nat));
    }
    k
}

/// A value: letters, with eight other bytes at its end where they fit.
pub open spec fn value_of(size: nat, tail: u64) -> Seq<u8> {
    Seq::new(
        size,
        |i: int|
            if size >= 8 && i >= size - 8 {
                codec::be(tail as nat, 8).reverse()[i - (size - 8)]
            } else {
                118u8
            },
    )
}

/// Builds a value.
pub fn build_value(size: usize, tail: u64) -> (v: Vec<u8>)
    ensures
        v@ == value_of(size as nat, tail),
{
    let mut v: Vec<u8> = Vec::new();
    let mut bytes: Vec<u8> = Vec::new();
    codec::push_be(&mut bytes, tail, 8);
    proof {
        codec::lemma_be_len(tail as nat, 8);
        assert(bytes@ =~= codec::be(tail as nat, 8));
    }
    while v.len() < size
        invariant
            v@.len() <= size,
            bytes@ == codec::be(tail as nat, 8),
            bytes@.len() == 8,
            forall|i: int| 0 <= i < v@.len() ==> #[trigger] v@[i] == value_of(size as nat, tail)[i],
        decreases size - v.len(),
    {
        let i: usize = v.len();
        if size >= 8 && i >= size - 8 {
            v.push(bytes[7 - (i - (size - 8))]);
        } else {
            v.push(118);
        }
    }
    proof {
        assert(v@ =~= value_of(size as nat, tail));
    }
    v
}

/// The bytes of a word.
pub open spec fn word(w: Seq<char>) -> Seq<u8> {
    utf8::encode_utf8(w)
}

/// The command of an operation.
pub open spec fn command_of(
    c: BenchmarkCommand,
    client: nat,
    op: nat,
    key_size: nat,
    value_size: nat,
    tail: u64,
) -> LineView {
    let key = key_of(client, op, key_size);
    let value = value_of(value_size, tail);
    LineView {
        name: word(command_name(c)),
        args: match c {
            BenchmarkCommand::SetString => seq![key, value],
            BenchmarkCommand::Get => seq![key],
            BenchmarkCommand::HSet => seq![key, word("field"@), value],
            BenchmarkCommand::HGet => seq![key, word("field"@)],
            BenchmarkCommand::LPush => seq![key, value],
            BenchmarkCommand::LRange => seq![key, word("0"@), word("100"@)],
            BenchmarkCommand::ZAdd => seq![key, word("1.0"@), value],
            BenchmarkCommand::ZRange => seq![key, word("0"@), word("100"@)],
        },
    }
}

/// Builds the command of an operation.
pub fn build_command(
    c: BenchmarkCommand,
    client_id: usize,
    op_index: usize,
    config: &BenchmarkConfig,
    tail: u64,
) -> (line: CommandLine)
    ensures
        line@ == command_of(
            c,
            client_id as nat,
            op_index as nat,
            config.key_size as nat,
            config.value_size as nat,
            tail,
        ),
{
    let ghost want = command_of(
        c,
        client_id as nat,
        op_index as nat,
        config.key_size as nat,
        config.value_size as nat,
        tail,
    );
    let mut args: Vec<Vec<u8>> = Vec::new();
    args.push(build_key(client_id, op_index, config.key_size));
    match c {
        BenchmarkCommand::SetString | BenchmarkCommand::LPush => {
            args.push(build_value(config.value_size, tail));
        },
        BenchmarkCommand::Get => {},
        BenchmarkCommand::HSet => {
            args.push(text::bytes_of("field"));
            args.push(build_value(config.value_size, tail));
        },
        BenchmarkCommand::HGet => {
            args.push(text::bytes_of("field"));
        },
        BenchmarkCommand::LRange | BenchmarkCommand::ZRange => {
            args.push(text::bytes_of("0"));
            args.push(text::bytes_of("100"));
        },
        BenchmarkCommand::ZAdd => {
            args.push(text::bytes_of("1.0"));
            args.push(build_value(config.value_size, tail));
        },
    }
    proof {
        assert(encoding::byte_seqs(args@) =~= want.args);
    }
    CommandLine { name: text::bytes_of(c.name()), args }
}

/// Builds the command of an operation with a value that ends by chance.
pub fn random_command(
    c: BenchmarkCommand,
    client_id: usize,
    op_index: usize,
    config: &BenchmarkConfig,
) -> (line: CommandLine)
    ensures
        exists|tail: u64|
            line@ == #[trigger] command_of(
                c,
                client_id as nat,
                op_index as nat,
                config.key_size as nat,
                config.value_size as nat,
                tail,
            ),
{
    let tail: u64 = random_u64();
    build_command(c, client_id, op_index, config, tail)
}

/// A command as it is sent: a list of its name and arguments.
pub open spec fn request_view(l: LineView) -> RespView {
    RespView::Array(
        seq![cmd::bulk(Some(l.name))] + Seq::new(
            l.args.len(),
            |i: int| cmd::bulk(Some(l.args[i])),
        ),
    )
}

/// Makes a request of a command.
pub fn build_request(line: &CommandLine) -> (r: RespValue)
    ensures
        r@ == request_view(line@),
{
    let ghost want = request_view(line@)->Array_0;
    let mut items: Vec<RespValue> = Vec::new();
    push_reply(&mut items, RespValue::BulkString(Some(encoding::copy(&line.name))));
    let mut i: usize = 0;
    while i < line.args.len()
        invariant
            i <= line.args@.len(),
            want == request_view(line@)->Array_0,
            protocol::views(items@) =~= want.take(i + 1),
        decreases line.args.len() - i,
    {
        push_reply(&mut items, RespValue::BulkString(Some(encoding::copy(&line.args[i]))));
        proof {
            assert(want[i + 1] == cmd::bulk(Some(line.args@[i as int]@)));
            assert(want.take(i + 2) =~= want.take(i + 1).push(want[i + 1]));
        }
        i = i + 1;
    }
    proof {
        assert(want.take(i + 1) =~= want);
    }
    array(items)
}

/// Numbers in ascending order.
pub open spec fn ascending(v: Seq<u64>) -> bool {
    forall|i: int, j: int| 0 <= i < j < v.len() ==> #[trigger] v[i] <= #[trigger] v[j]
}

/// Sorts numbers with `slice::sort_unstable`: they come in ascending order, and
/// they are the same numbers.
#[verifier::external_body]
fn sort_numbers(v: &mut Vec<u64>)
    ensures
        ascending(final(v)@),
        final(v)@.to_multiset() == old(v)@.to_multiset(),
{
    v.sort_unstable();
}

/// The sum of numbers.
pub open spec fn sum_of(v: Seq<u64>) -> int
    decreases v.len(),
{
    if v.len() == 0 {
        0
    } else {
        sum_of(v.drop_last()) + v.last()
    }
}

/// What the clients of a benchmark measured, put together: all times in
/// ascending order, and the sum of their errors.
pub fn summarize(latencies: Vec<u64>, errors: &Vec<u64>) -> (r: (Vec<u64>, u128))
    ensures
        ascending(r.0@),
        r.0@.to_multiset() == latencies@.to_multiset(),
        r.1 == sum_of(errors@),
{
    let mut sorted = latencies;
    sort_numbers(&mut sorted);
    let mut total: u128 = 0;
    let mut i: usize = 0;
    while i < errors.len()
        invariant
            i <= errors@.len(),
            total == sum_of(errors@.take(i as int)),
            total <= i * 0xFFFF_FFFF_FFFF_FFFF,
        decreases errors.len() - i,
    {
        proof {
            let more = errors@.take(i + 1);
            assert(more.drop_last() =~= errors@.take(i as int));
            assert(i * 0xFFFF_FFFF_FFFF_FFFF <= 0xFFFF_FFFF_FFFF_FFFF * 0xFFFF_FFFF_FFFF_FFFF);
        }
        total = total + errors[i] as u128;
        i = i + 1;
    }
    proof {
        assert(errors@.take(i as int) =~= errors@);
    }
    (sorted, total)
}

/// Two operations of a benchmark have the same key only if they are the same one
/// of the same client, whatever the sizes of the keys are.
pub proof fn law_keys_differ(
    client: nat,
    op: nat,
    size: nat,
    other_client: nat,
    other_op: nat,
    other_size: nat,
)
    requires
        key_of(client, op, size) == key_of(other_client, other_op, other_size),
    ensures
        client == other_client,
        op == other_op,
{
    let k = key_of(client, op, size);
    let p = lemma_key_parts(client, op, size);
    let q = lemma_key_parts(other_client, other_op, other_size);
    if p.0 < q.0 {
        assert(text::is_digit(k[p.0]));
    }
    if q.0 < p.0 {
        assert(text::is_digit(k[q.0]));
    }
    if p.1 < q.1 {
        assert(text::is_digit(k[p.1]));
    }
    if q.1 < p.1 {
        assert(text::is_digit(k[q.1]));
    }
    text::lemma_dec(client);
    text::lemma_dec(op);
    text::lemma_dec(other_client);
    text::lemma_dec(other_op);
}

/// Where the digits of the client and of the operation end in a key.
proof fn lemma_key_parts(client: nat, op: nat, size: nat) -> (ends: (int, int))
    ensures
        ({
            let k = key_of(client, op, size);
            let (p, q) = ends;
            &&& 3 <= p < q <= k.len()
            &&& k.subrange(3, p) == text::dec(client)
            &&& k.subrange(p + 1, q) == text::dec(op)
            &&& k[p] == 58
            &&& q < k.len() ==> k[q] == 120
            &&& forall|i: int| 3 <= i < p ==> text::is_digit(#[trigger] k[i])
            &&& forall|i: int| p < i < q ==> text::is_digit(#[trigger] k[i])
        }),
{
    let (x, y) = (text::dec(client), text::dec(op));
    let head = seq![107u8, 101u8, 121u8] + x + seq![58u8] + y;
    let k = key_of(client, op, size);
    let p = 3 + x.len() as int;
    let q = p + 1 + y.len();
    text::lemma_dec(client);
    text::lemma_dec(op);
    assert(head.len() == q);
    assert forall|i: int| 3 <= i < p implies #[trigger] k[i] == x[i - 3] by {
        assert(k[i] == head[i]);
    }
    assert forall|i: int| p < i < q implies #[trigger] k[i] == y[i - p - 1] by {
        assert(k[i] == head[i]);
    }
    assert(k[p] == head[p]);
    assert(k.subrange(3, p) =~= x);
    assert(k.subrange(p + 1, q) =~= y);
    assert forall|i: int| 3 <= i < p implies text::is_digit(#[trigger] k[i]) by {
        assert(text::is_digit(x[i - 3]));
    }
    assert forall|i: int| p < i < q implies text::is_digit(#[trigger] k[i]) by {
        assert(text::is_digit(y[i - p - 1]));
    }
    (p, q)
}

/// A key has at least the size that it is to have, a value exactly its size, and
/// every command of an operation names the operation's key first.
pub proof fn law_sizes(
    c: BenchmarkCommand,
    client: nat,
    op: nat,
    key_size: nat,
    value_size: nat,
    tail: u64,
)
    ensures
        ({
            let line = command_of(c, client, op, key_size, value_size, tail);
            &&& line.args.len() > 0
            &&& line.args[0] == key_of(client, op, key_size)
            &&& line.args[0].len() >= key_size
            &&& value_of(value_size, tail).len() == value_size
            &&& c == BenchmarkCommand::SetString || c == BenchmarkCommand::LPush
                ==> line.args.len() == 2 && line.args[1].len() == value_size
        }),
{
}

} // verus!
