//! Connections: transactions, and what is sent to a client beside replies.

use crate::cmd;
use crate::cmd::{array, ok, push_reply, CommandContext};
use crate::encoding;
use crate::error;
use crate::error::{ErrorView, KvdbError};
use crate::order;
use crate::protocol;
use crate::protocol::{RespValue, RespView};
use crate::pubsub::{EventView, PublishEvent};
use crate::storage::StoreView;
use crate::table;
use crate::text;
use vstd::prelude::*;
use vstd::utf8;

verus! {

/// A command with its arguments.
#[derive(Debug)]
pub struct CommandLine {
    pub name: Vec<u8>,
    pub args: Vec<Vec<u8>>,
}

/// A command as contracts see it.
#[verifier::ext_equal]
pub struct LineView {
    pub name: Seq<u8>,
    pub args: Seq<Seq<u8>>,
}

impl View for CommandLine {
    type V = LineView;

    open spec fn view(&self) -> LineView {
        LineView { name: self.name@, args: encoding::byte_seqs(self.args@) }
    }
}

/// The commands of a list.
pub open spec fn lines_of(v: Seq<CommandLine>) -> Seq<LineView> {
    Seq::new(v.len(), |i: int| v[i]@)
}

/// A watched key with the record that it had.
pub type Watched = (Vec<u8>, Option<Vec<u8>>);

/// Watched keys as contracts see them.
pub open spec fn watched_of(v: Seq<Watched>) -> Seq<(Seq<u8>, Option<Seq<u8>>)> {
    Seq::new(v.len(), |i: int| (v[i].0@, table::opt_bytes(v[i].1)))
}

/// The transaction of a connection as contracts see it.
#[verifier::ext_equal]
pub struct TxView {
    pub in_multi: bool,
    pub queued: Seq<LineView>,
    pub watched: Seq<(Seq<u8>, Option<Seq<u8>>)>,
}

/// The transaction of a connection: the commands that wait for EXEC, and the
/// watched keys.
pub struct TransactionState {
    in_multi: bool,
    queued: Vec<CommandLine>,
    watched: Vec<Watched>,
}

impl View for TransactionState {
    type V = TxView;

    closed spec fn view(&self) -> TxView {
        TxView {
            in_multi: self.in_multi,
            queued: lines_of(self.queued@),
            watched: watched_of(self.watched@),
        }
    }
}

/// No transaction.
pub open spec fn no_transaction() -> TxView {
    TxView { in_multi: false, queued: Seq::empty(), watched: Seq::empty() }
}

/// What a connection does next: send a reply, run a command, or run the
/// commands of a transaction.
#[derive(Debug)]
pub enum Action {
    Reply(RespValue),
    Run(CommandLine),
    RunQueue(Vec<CommandLine>),
}

/// An action as contracts see it.
pub enum ActionView {
    Reply(RespView),
    Run(LineView),
    RunQueue(Seq<LineView>),
}

impl View for Action {
    type V = ActionView;

    open spec fn view(&self) -> ActionView {
        match self {
            Action::Reply(v) => ActionView::Reply(v@),
            Action::Run(l) => ActionView::Run(l@),
            Action::RunQueue(q) => ActionView::RunQueue(lines_of(q@)),
        }
    }
}

/// The records of keys.
pub open spec fn snapshot(s: StoreView, ns: Seq<u8>, keys: Seq<Seq<u8>>) -> Seq<
    (Seq<u8>, Option<Seq<u8>>),
> {
    Seq::new(keys.len(), |i: int| (keys[i], cmd::stored_meta(s, ns, keys[i])))
}

/// A watched key no longer has the record that it had.
pub open spec fn changed(s: StoreView, ns: Seq<u8>, watched: Seq<(Seq<u8>, Option<Seq<u8>>)>) -> bool {
    exists|i: int|
        0 <= i < watched.len() && cmd::stored_meta(s, ns, (#[trigger] watched[i]).0)
            != watched[i].1
}

/// The reply of an error.
pub open spec fn refusal(t: Seq<char>) -> ActionView {
    ActionView::Reply(RespView::Error(t))
}

/// The longest key or value that a command may carry: 512 MiB.
pub const MAX_ARG_BYTES: usize = 536_870_912;

/// A part of the command is too long.
pub open spec fn oversized(line: Seq<Seq<u8>>) -> bool {
    exists|i: int| 0 <= i < line.len() && (#[trigger] line[i]).len() > MAX_ARG_BYTES
}

fn too_large(line: &Vec<Vec<u8>>) -> (r: bool)
    ensures
        r == oversized(encoding::byte_seqs(line@)),
{
    let ghost words = encoding::byte_seqs(line@);
    let mut i: usize = 0;
    while i < line.len()
        invariant
            i <= line@.len(),
            words == encoding::byte_seqs(line@),
            forall|j: int| 0 <= j < i ==> (#[trigger] words[j]).len() <= MAX_ARG_BYTES,
        decreases line.len() - i,
    {
        proof {
            assert(words[i as int] == line@[i as int]@);
        }
        if line[i].len() > MAX_ARG_BYTES {
            return true;
        }
        i = i + 1;
    }
    false
}

/// What a connection does with a command, and its transaction afterwards. A
/// command that is too large is refused. The commands on transactions are done
/// at once; in a transaction any other command waits, and outside it runs.
pub open spec fn stepped(t: TxView, s: StoreView, ns: Seq<u8>, line: Seq<Seq<u8>>) -> (
    TxView,
    ActionView,
) {
    if line.len() == 0 {
        (t, refusal("ERR empty command"@))
    } else if oversized(line) {
        (t, refusal(error::wire_text(ErrorView::Oom)))
    } else {
        let c = line[0];
        let a = line.skip(1);
        if text::is_word(c, "MULTI"@) {
            if t.in_multi {
                (t, refusal("ERR MULTI calls can not be nested"@))
            } else {
                (TxView { in_multi: true, ..t }, ActionView::Reply(cmd::ok_reply()))
            }
        } else if text::is_word(c, "DISCARD"@) {
            if !t.in_multi {
                (t, refusal("ERR DISCARD without MULTI"@))
            } else {
                (no_transaction(), ActionView::Reply(cmd::ok_reply()))
            }
        } else if text::is_word(c, "WATCH"@) {
            if t.in_multi {
                (t, refusal("ERR WATCH inside MULTI is not allowed"@))
            } else {
                (
                    TxView { watched: snapshot(s, ns, a), ..t },
                    ActionView::Reply(cmd::ok_reply()),
                )
            }
        } else if text::is_word(c, "EXEC"@) {
            if !t.in_multi {
                (t, refusal("ERR EXEC without MULTI"@))
            } else if changed(s, ns, t.watched) {
                (no_transaction(), ActionView::Reply(RespView::Null))
            } else {
                (no_transaction(), ActionView::RunQueue(t.queued))
            }
        } else if t.in_multi {
            (
                TxView { queued: t.queued.push(LineView { name: c, args: a }), ..t },
                ActionView::Reply(RespView::SimpleString("QUEUED"@)),
            )
        } else {
            (t, ActionView::Run(LineView { name: c, args: a }))
        }
    }
}

fn refuse(t: &str) -> (a: Action)
    ensures
        a@ == refusal(t@),
{
    Action::Reply(RespValue::Error(t.to_owned()))
}

fn same_record(a: &Option<Vec<u8>>, b: &Option<Vec<u8>>) -> (r: bool)
    ensures
        r == (table::opt_bytes(*a) == table::opt_bytes(*b)),
{
    match (a, b) {
        (Some(x), Some(y)) => order::same(x, y),
        (None, None) => true,
        _ => false,
    }
}

impl TransactionState {
    /// The state of a new connection.
    pub fn new() -> (t: TransactionState)
        ensures
            t@ == no_transaction(),
    {
        let t = TransactionState { in_multi: false, queued: Vec::new(), watched: Vec::new() };
        proof {
            assert(t@ =~= no_transaction());
        }
        t
    }

    fn reset(&mut self)
        ensures
            final(self)@ == no_transaction(),
    {
        self.in_multi = false;
        self.queued = Vec::new();
        self.watched = Vec::new();
        proof {
            assert(self@ =~= no_transaction());
        }
    }

    fn watch_keys(&mut self, ctx: &CommandContext, line: &Vec<Vec<u8>>)
        requires
            line@.len() > 0,
        ensures
            final(self)@ == (TxView {
                watched: snapshot(
                    ctx.storage@,
                    ctx.namespace@,
                    encoding::byte_seqs(line@).skip(1),
                ),
                ..old(self)@
            }),
    {
        let ghost keys = encoding::byte_seqs(line@).skip(1);
        let ghost want = snapshot(ctx.storage@, ctx.namespace@, keys);
        let mut watched: Vec<Watched> = Vec::new();
        let mut i: usize = 1;
        proof {
            assert(watched_of(watched@) =~= want.take(0));
        }
        while i < line.len()
            invariant
                1 <= i <= line@.len(),
                keys == encoding::byte_seqs(line@).skip(1),
                want == snapshot(ctx.storage@, ctx.namespace@, keys),
                watched@.len() == i - 1,
                watched_of(watched@) =~= want.take(i - 1),
            decreases line.len() - i,
        {
            let record = ctx.get_meta(&line[i]);
            let ghost before = watched_of(watched@);
            let ghost item = (line@[i as int]@, table::opt_bytes(record));
            watched.push((encoding::copy(&line[i]), record));
            proof {
                assert(keys[i - 1] == line@[i as int]@);
                assert(want[i - 1] == item);
                assert(watched_of(watched@) =~= before.push(item));
                assert(want.take(i as int) =~= want.take(i - 1).push(item));
            }
            i = i + 1;
        }
        proof {
            assert(want.take(i - 1) =~= want);
        }
        self.watched = watched;
    }

    fn watched_keys_changed(&self, ctx: &CommandContext) -> (r: bool)
        ensures
            r == changed(ctx.storage@, ctx.namespace@, self@.watched),
    {
        let ghost w = self@.watched;
        let mut i: usize = 0;
        while i < self.watched.len()
            invariant
                i <= self.watched@.len(),
                w == self@.watched,
                forall|j: int|
                    0 <= j < i ==> cmd::stored_meta(
                        ctx.storage@,
                        ctx.namespace@,
                        (#[trigger] w[j]).0,
                    ) == w[j].1,
            decreases self.watched.len() - i,
        {
            let current = ctx.get_meta(&self.watched[i].0);
            proof {
                assert(w[i as int] == (
                    self.watched@[i as int].0@,
                    table::opt_bytes(self.watched@[i as int].1),
                ));
            }
            if !same_record(&current, &self.watched[i].1) {
                return true;
            }
            i = i + 1;
        }
        false
    }

    /// Decides what a connection does with a command.
    pub fn step(&mut self, ctx: &CommandContext, line: Vec<Vec<u8>>) -> (a: Action)
        ensures
            (final(self)@, a@) == stepped(
                old(self)@,
                ctx.storage@,
                ctx.namespace@,
                encoding::byte_seqs(line@),
            ),
    {
        let ghost words = encoding::byte_seqs(line@);
        if line.len() == 0 {
            return refuse("ERR empty command");
        }
        if too_large(&line) {
            return Action::Reply(RespValue::Error(error::format_error(&KvdbError::Oom)));
        }
        proof {
            assert(words[0] == line@[0]@);
        }
        if text::matches_word(&line[0], "MULTI") {
            if self.in_multi {
                return refuse("ERR MULTI calls can not be nested");
            }
            self.in_multi = true;
            return Action::Reply(ok());
        }
        if text::matches_word(&line[0], "DISCARD") {
            if !self.in_multi {
                return refuse("ERR DISCARD without MULTI");
            }
            self.reset();
            return Action::Reply(ok());
        }
        if text::matches_word(&line[0], "WATCH") {
            if self.in_multi {
                return refuse("ERR WATCH inside MULTI is not allowed");
            }
            self.watch_keys(ctx, &line);
            return Action::Reply(ok());
        }
        if text::matches_word(&line[0], "EXEC") {
            if !self.in_multi {
                return refuse("ERR EXEC without MULTI");
            }
            if self.watched_keys_changed(ctx) {
                self.reset();
                return Action::Reply(RespValue::Null);
            }
            let mut queued: Vec<CommandLine> = Vec::new();
            std::mem::swap(&mut queued, &mut self.queued);
            self.reset();
            return Action::RunQueue(queued);
        }
        let mut line = line;
        let name = line.remove(0);
        proof {
            assert(encoding::byte_seqs(line@) =~= words.skip(1));
        }
        let command = CommandLine { name, args: line };
        if self.in_multi {
            let ghost before = lines_of(self.queued@);
            let ghost item = command@;
            self.queued.push(command);
            proof {
                assert(lines_of(self.queued@) =~= before.push(item));
            }
            return Action::Reply(RespValue::SimpleString("QUEUED".to_owned()));
        }
        Action::Run(command)
    }
}

/// The commands of a transaction while they run.
pub struct QueueRun {
    queue: Vec<CommandLine>,
    replies: Vec<RespValue>,
}

impl QueueRun {
    /// The commands, in the order in which they run.
    pub closed spec fn commands(self) -> Seq<LineView> {
        lines_of(self.queue@)
    }

    /// The replies so far.
    pub closed spec fn answers(self) -> Seq<RespView> {
        protocol::views(self.replies@)
    }

    #[verifier::type_invariant]
    spec fn inv(&self) -> bool {
        self.replies@.len() <= self.queue@.len()
    }

    /// The commands of a transaction before the first one.
    pub fn new(queue: Vec<CommandLine>) -> (q: QueueRun)
        ensures
            q.commands() == lines_of(queue@),
            q.answers() == Seq::<RespView>::empty(),
    {
        let q = QueueRun { queue, replies: Vec::new() };
        proof {
            assert(q.answers() =~= Seq::<RespView>::empty());
        }
        q
    }

    /// The command that runs next: the first one without a reply.
    pub fn next(&self) -> (c: Option<&CommandLine>)
        ensures
            match c {
                Some(l) => self.answers().len() < self.commands().len() && l@
                    == self.commands()[self.answers().len() as int],
                None => self.answers().len() == self.commands().len(),
            },
    {
        proof {
            use_type_invariant(self);
        }
        let i: usize = self.replies.len();
        if i < self.queue.len() {
            Some(&self.queue[i])
        } else {
            None
        }
    }

    /// Takes the reply of the command that ran. A reply without a command is
    /// dropped.
    pub fn answer(&mut self, reply: RespValue)
        ensures
            final(self).commands() == old(self).commands(),
            final(self).answers() == if old(self).answers().len() < old(self).commands().len() {
                old(self).answers().push(reply@)
            } else {
                old(self).answers()
            },
    {
        proof {
            use_type_invariant(&*self);
        }
        if self.replies.len() < self.queue.len() {
            let mut replies: Vec<RespValue> = Vec::new();
            std::mem::swap(&mut replies, &mut self.replies);
            push_reply(&mut replies, reply);
            proof {
                assert(protocol::views(replies@).len() == replies@.len());
                assert(old(self).answers().len() == old(self).replies@.len());
            }
            self.replies = replies;
        }
    }

    /// The reply of EXEC: the replies in the order of the commands.
    pub fn finish(self) -> (r: RespValue)
        ensures
            r@ == RespView::Array(self.answers()),
    {
        array(self.replies)
    }
}

/// What a client gets for a published message: one that hears the channel by a
/// pattern is told the pattern, too.
pub open spec fn message_reply(e: EventView) -> RespView {
    RespView::Array(
        match e.pattern {
            None => seq![
                cmd::bulk(Some(utf8::encode_utf8("message"@))),
                cmd::bulk(Some(utf8::encode_utf8(e.channel))),
                cmd::bulk(Some(e.message)),
            ],
            Some(p) => seq![
                cmd::bulk(Some(utf8::encode_utf8("pmessage"@))),
                cmd::bulk(Some(p)),
                cmd::bulk(Some(utf8::encode_utf8(e.channel))),
                cmd::bulk(Some(e.message)),
            ],
        },
    )
}

/// Builds what a client gets for a published message.
pub fn pubsub_message(event: &PublishEvent) -> (r: RespValue)
    ensures
        r@ == message_reply(event@),
{
    let mut items: Vec<RespValue> = Vec::new();
    match &event.pattern {
        None => {
            push_reply(&mut items, RespValue::BulkString(Some(text::bytes_of("message"))));
        },
        Some(p) => {
            push_reply(&mut items, RespValue::BulkString(Some(text::bytes_of("pmessage"))));
            push_reply(&mut items, RespValue::BulkString(Some(encoding::copy(p))));
        },
    }
    push_reply(&mut items, RespValue::BulkString(Some(text::bytes_of(event.channel.as_str()))));
    push_reply(&mut items, RespValue::BulkString(Some(encoding::copy(&event.message))));
    proof {
        assert(protocol::views(items@) =~= message_reply(event@)->Array_0);
    }
    array(items)
}

/// The transaction after commands, while the store stays as it is.
pub open spec fn stepped_all(
    t: TxView,
    s: StoreView,
    ns: Seq<u8>,
    lines: Seq<Seq<Seq<u8>>>,
) -> TxView
    decreases lines.len(),
{
    if lines.len() == 0 {
        t
    } else {
        stepped(stepped_all(t, s, ns, lines.drop_last()), s, ns, lines.last()).0
    }
}

/// A command that waits in a transaction.
pub open spec fn waits(line: Seq<Seq<u8>>) -> bool {
    line.len() > 0 && !oversized(line) && !text::is_word(line[0], "MULTI"@) && !text::is_word(line[0], "DISCARD"@)
        && !text::is_word(line[0], "WATCH"@) && !text::is_word(line[0], "EXEC"@)
}

/// Commands with their arguments.
pub open spec fn split_lines(lines: Seq<Seq<Seq<u8>>>) -> Seq<LineView> {
    Seq::new(lines.len(), |i: int| LineView { name: lines[i][0], args: lines[i].skip(1) })
}

proof fn lemma_queued(t: TxView, s: StoreView, ns: Seq<u8>, lines: Seq<Seq<Seq<u8>>>)
    requires
        t.in_multi,
        forall|i: int| 0 <= i < lines.len() ==> waits(#[trigger] lines[i]),
    ensures
        stepped_all(t, s, ns, lines) == (TxView {
            queued: t.queued + split_lines(lines),
            ..t
        }),
    decreases lines.len(),
{
    if lines.len() == 0 {
        assert(t.queued + split_lines(lines) =~= t.queued);
    } else {
        let head = lines.drop_last();
        assert forall|i: int| 0 <= i < head.len() implies waits(#[trigger] head[i]) by {
            assert(head[i] == lines[i]);
        }
        lemma_queued(t, s, ns, head);
        assert(waits(lines[lines.len() - 1]));
        assert((t.queued + split_lines(head)).push(
            LineView { name: lines.last()[0], args: lines.last().skip(1) },
        ) =~= t.queued + split_lines(lines));
    }
}

/// MULTI, commands and EXEC: no command runs before EXEC, which runs all of
/// them in their order if no watched key has changed, and none of them
/// otherwise; the transaction is over either way.
pub proof fn law_exec_runs_the_queue(
    t: TxView,
    s: StoreView,
    ns: Seq<u8>,
    multi: Seq<Seq<u8>>,
    lines: Seq<Seq<Seq<u8>>>,
    exec_line: Seq<Seq<u8>>,
    later: StoreView,
)
    requires
        !t.in_multi,
        t.queued.len() == 0,
        multi.len() > 0 && text::is_word(multi[0], "MULTI"@) && !oversized(multi),
        forall|i: int| 0 <= i < lines.len() ==> waits(#[trigger] lines[i]),
        exec_line.len() > 0 && text::is_word(exec_line[0], "EXEC"@) && !oversized(exec_line),
    ensures
        ({
            let queued = stepped_all(stepped(t, s, ns, multi).0, s, ns, lines);
            stepped(queued, later, ns, exec_line) == (
                no_transaction(),
                if changed(later, ns, t.watched) {
                    ActionView::Reply(RespView::Null)
                } else {
                    ActionView::RunQueue(split_lines(lines))
                },
            )
        }),
        forall|i: int|
            0 <= i < lines.len() ==> stepped(
                stepped_all(stepped(t, s, ns, multi).0, s, ns, lines.take(i)),
                s,
                ns,
                #[trigger] lines[i],
            ).1 == ActionView::Reply(RespView::SimpleString("QUEUED"@)),
{
    reveal_strlit("MULTI");
    reveal_strlit("EXEC");
    reveal_strlit("DISCARD");
    reveal_strlit("WATCH");
    let start = stepped(t, s, ns, multi).0;
    lemma_queued(start, s, ns, lines);
    assert(start.queued + split_lines(lines) =~= split_lines(lines));
    assert forall|i: int| 0 <= i < lines.len() implies stepped(
        stepped_all(start, s, ns, lines.take(i)),
        s,
        ns,
        #[trigger] lines[i],
    ).1 == ActionView::Reply(RespView::SimpleString("QUEUED"@)) by {
        let head = lines.take(i);
        assert forall|j: int| 0 <= j < head.len() implies waits(#[trigger] head[j]) by {
            assert(head[j] == lines[j]);
        }
        lemma_queued(start, s, ns, head);
        assert(waits(lines[i]));
    }
    assert(exec_line[0].len() == 4);
    assert(upper_letter(exec_line[0], 0) == 69);
}

spec fn upper_letter(w: Seq<u8>, i: int) -> int {
    text::upper(w[i]) as int
}

/// A watched key counts as changed exactly if its record is another one than
/// when it was watched.
pub proof fn law_watch_sees_changes(
    t: TxView,
    s: StoreView,
    ns: Seq<u8>,
    watch: Seq<Seq<u8>>,
    later: StoreView,
)
    requires
        !t.in_multi,
        watch.len() > 0 && text::is_word(watch[0], "WATCH"@) && !oversized(watch),
    ensures
        changed(later, ns, stepped(t, s, ns, watch).0.watched) == exists|i: int|
            1 <= i < watch.len() && cmd::stored_meta(later, ns, #[trigger] watch[i])
                != cmd::stored_meta(s, ns, watch[i]),
{
    reveal_strlit("MULTI");
    reveal_strlit("DISCARD");
    reveal_strlit("WATCH");
    assert(upper_letter(watch[0], 0) == 87);
    let keys = watch.skip(1);
    let w = snapshot(s, ns, keys);
    assert(stepped(t, s, ns, watch).0.watched == w);
    if changed(later, ns, w) {
        let i = choose|i: int|
            0 <= i < w.len() && cmd::stored_meta(later, ns, (#[trigger] w[i]).0) != w[i].1;
        assert(watch[i + 1] == keys[i]);
    }
    if exists|i: int|
        1 <= i < watch.len() && cmd::stored_meta(later, ns, #[trigger] watch[i])
            != cmd::stored_meta(s, ns, watch[i]) {
        let i = choose|i: int|
            1 <= i < watch.len() && cmd::stored_meta(later, ns, #[trigger] watch[i])
                != cmd::stored_meta(s, ns, watch[i]);
        assert(w[i - 1].0 == watch[i]);
    }
}

proof fn lemma_transaction_words(c: Seq<u8>)
    ensures
        text::is_word(c, "MULTI"@) ==> !text::is_word(c, "DISCARD"@) && !text::is_word(c, "WATCH"@)
            && !text::is_word(c, "EXEC"@),
        text::is_word(c, "DISCARD"@) ==> !text::is_word(c, "WATCH"@) && !text::is_word(c, "EXEC"@),
        text::is_word(c, "WATCH"@) ==> !text::is_word(c, "EXEC"@),
{
    reveal_strlit("MULTI");
    reveal_strlit("EXEC");
    reveal_strlit("DISCARD");
    reveal_strlit("WATCH");
    if c.len() == 5 {
        assert(text::is_word(c, "MULTI"@) ==> upper_letter(c, 0) == 77);
        assert(text::is_word(c, "WATCH"@) ==> upper_letter(c, 0) == 87);
    }
}

/// What a connection does with a command. One with a part of more than 512 MiB is
/// refused and nothing changes, in a transaction and outside of it. MULTI begins
/// a transaction and is refused in one; EXEC and DISCARD end one and are refused
/// without one; WATCH is refused in one. Any other command runs at once, with all
/// of its arguments, outside of a transaction, and waits in one.
#[verifier::rlimit(60)]
pub proof fn law_steps(t: TxView, s: StoreView, ns: Seq<u8>, name: Seq<u8>, args: Seq<Seq<u8>>)
    ensures
        ({
            let line = seq![name] + args;
            let (after, action) = stepped(t, s, ns, line);
            let large = name.len() > 536_870_912 || exists|i: int|
                0 <= i < args.len() && (#[trigger] args[i]).len() > 536_870_912;
            let multi = text::is_word(name, "MULTI"@);
            let discard = text::is_word(name, "DISCARD"@);
            let watch = text::is_word(name, "WATCH"@);
            let exec_word = text::is_word(name, "EXEC"@);
            let refused = after == t && action is Reply && action->Reply_0 is Error;
            let done = action == ActionView::Reply(RespView::SimpleString("OK"@));
            &&& large ==> refused
            &&& !large && multi ==> if t.in_multi {
                refused
            } else {
                done && after == (TxView { in_multi: true, ..t })
            }
            &&& !large && discard ==> if t.in_multi {
                done && !after.in_multi && after.queued.len() == 0 && after.watched.len() == 0
            } else {
                refused
            }
            &&& !large && watch ==> if t.in_multi {
                refused
            } else {
                done && !after.in_multi && after.queued == t.queued && after.watched.len()
                    == args.len() && forall|i: int|
                    0 <= i < args.len() ==> #[trigger] after.watched[i] == (
                        args[i],
                        cmd::stored_meta(s, ns, args[i]),
                    )
            }
            &&& !large && exec_word ==> if t.in_multi {
                !after.in_multi && after.queued.len() == 0 && after.watched.len() == 0
            } else {
                refused
            }
            &&& !large && !multi && !discard && !watch && !exec_word ==> if t.in_multi {
                action == ActionView::Reply(RespView::SimpleString("QUEUED"@)) && after == (
                TxView { queued: t.queued.push(LineView { name, args }), ..t })
            } else {
                action == ActionView::Run(LineView { name, args }) && after == t
            }
        }),
        stepped(t, s, ns, Seq::empty()).0 == t,
        stepped(t, s, ns, Seq::empty()).1 is Reply,
        stepped(t, s, ns, Seq::empty()).1->Reply_0 is Error,
{
    let line = seq![name] + args;
    lemma_transaction_words(name);
    assert(line[0] == name);
    assert(line.skip(1) =~= args);
    if oversized(line) {
        let i = choose|i: int| 0 <= i < line.len() && (#[trigger] line[i]).len() > MAX_ARG_BYTES;
        if i > 0 {
            assert(args[i - 1] == line[i]);
        }
    }
    if exists|i: int| 0 <= i < args.len() && (#[trigger] args[i]).len() > 536_870_912 {
        let i = choose|i: int| 0 <= i < args.len() && (#[trigger] args[i]).len() > 536_870_912;
        assert(line[i + 1] == args[i]);
    }
    if name.len() > 536_870_912 {
        assert(line[0].len() > MAX_ARG_BYTES);
    }
}

/// WATCH, MULTI, commands and EXEC: EXEC runs the commands, in their order and
/// each once, exactly if every watched key still has the record that it had at
/// WATCH. Otherwise it runs none of them and replies null.
#[verifier::rlimit(60)]
pub proof fn law_exec_after_watch(
    t: TxView,
    s: StoreView,
    ns: Seq<u8>,
    watch: Seq<Seq<u8>>,
    multi: Seq<Seq<u8>>,
    lines: Seq<Seq<Seq<u8>>>,
    exec_line: Seq<Seq<u8>>,
    later: StoreView,
)
    requires
        !t.in_multi,
        t.queued.len() == 0,
        watch.len() > 0 && text::is_word(watch[0], "WATCH"@) && !oversized(watch),
        multi.len() > 0 && text::is_word(multi[0], "MULTI"@) && !oversized(multi),
        forall|i: int| 0 <= i < lines.len() ==> waits(#[trigger] lines[i]),
        exec_line.len() > 0 && text::is_word(exec_line[0], "EXEC"@) && !oversized(exec_line),
    ensures
        ({
            let watching = stepped(t, s, ns, watch).0;
            let queued = stepped_all(stepped(watching, s, ns, multi).0, s, ns, lines);
            let action = stepped(queued, later, ns, exec_line).1;
            let same = forall|i: int|
                1 <= i < watch.len() ==> cmd::stored_meta(later, ns, #[trigger] watch[i])
                    == cmd::stored_meta(s, ns, watch[i]);
            &&& same ==> action is RunQueue && (action->RunQueue_0).len() == lines.len() && forall|
                i: int,
            |
                0 <= i < lines.len() ==> #[trigger] action->RunQueue_0[i] == (LineView {
                    name: lines[i][0],
                    args: lines[i].skip(1),
                })
            &&& !same ==> action == ActionView::Reply(RespView::Null)
        }),
{
    lemma_transaction_words(watch[0]);
    law_watch_sees_changes(t, s, ns, watch, later);
    let watching = stepped(t, s, ns, watch).0;
    law_exec_runs_the_queue(watching, s, ns, multi, lines, exec_line, later);
}

} // verus!
