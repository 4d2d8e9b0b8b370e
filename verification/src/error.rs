//! Errors of the database and how they read.

use vstd::prelude::*;
use vstd::string::*;

verus! {

/// What can go wrong. The first three carry the message of the layer below:
/// the durable store, the operating system and the script interpreter.
#[derive(Debug)]
pub enum KvdbError {
    Storage(String),
    Io(String),
    Lua(String),
    Config(String),
    Protocol(String),
    Command(String),
    WrongArgCount(&'static str),
    NotInteger,
    OutOfRange,
    Oom,
    UnknownCommand(String),
}

pub type KvdbResult<T> = Result<T, KvdbError>;

/// An error with its texts as character sequences.
pub enum ErrorView {
    Storage(Seq<char>),
    Io(Seq<char>),
    Lua(Seq<char>),
    Config(Seq<char>),
    Protocol(Seq<char>),
    Command(Seq<char>),
    WrongArgCount(Seq<char>),
    NotInteger,
    OutOfRange,
    Oom,
    UnknownCommand(Seq<char>),
}

impl View for KvdbError {
    type V = ErrorView;

    open spec fn view(&self) -> ErrorView {
        match self {
            KvdbError::Storage(s) => ErrorView::Storage(s@),
            KvdbError::Io(s) => ErrorView::Io(s@),
            KvdbError::Lua(s) => ErrorView::Lua(s@),
            KvdbError::Config(s) => ErrorView::Config(s@),
            KvdbError::Protocol(s) => ErrorView::Protocol(s@),
            KvdbError::Command(s) => ErrorView::Command(s@),
            KvdbError::WrongArgCount(s) => ErrorView::WrongArgCount(s@),
            KvdbError::NotInteger => ErrorView::NotInteger,
            KvdbError::OutOfRange => ErrorView::OutOfRange,
            KvdbError::Oom => ErrorView::Oom,
            KvdbError::UnknownCommand(s) => ErrorView::UnknownCommand(s@),
        }
    }
}

/// The text of an error.
pub open spec fn text_of(e: ErrorView) -> Seq<char> {
    match e {
        ErrorView::Storage(s) => "storage error: "@ + s,
        ErrorView::Io(s) => "io error: "@ + s,
        ErrorView::Lua(s) => "lua error: "@ + s,
        ErrorView::Config(s) => "config error: "@ + s,
        ErrorView::Protocol(s) => "protocol error: "@ + s,
        ErrorView::Command(s) => s,
        ErrorView::WrongArgCount(s) => "wrong number of arguments for '"@ + s + "' command"@,
        ErrorView::NotInteger => "value is not an integer"@,
        ErrorView::OutOfRange => "value is out of range"@,
        ErrorView::Oom => "OOM command not allowed when used memory > maxmemory"@,
        ErrorView::UnknownCommand(s) => "unknown command '"@ + s + "'"@,
    }
}

/// The error that a command reports for a bad argument or state.
pub fn command_error(text: &str) -> (e: KvdbError)
    ensures
        e@ == ErrorView::Command(text@),
{
    KvdbError::Command(text.to_owned())
}

/// The error for stored bytes that cannot be read.
pub fn protocol_error(text: &str) -> (e: KvdbError)
    ensures
        e@ == ErrorView::Protocol(text@),
{
    KvdbError::Protocol(text.to_owned())
}

/// Whether two texts are equal.
pub fn same_text(a: &str, b: &str) -> (r: bool)
    ensures
        r == (a@ == b@),
{
    a.to_owned() == b.to_owned()
}

fn joined(head: &str, tail: &str) -> (s: String)
    ensures
        s@ == head@ + tail@,
{
    let mut s = head.to_owned();
    s.append(tail);
    s
}

impl KvdbError {
    /// The text of the error.
    pub fn message(&self) -> (s: String)
        ensures
            s@ == text_of(self@),
    {
        match self {
            KvdbError::Storage(t) => joined("storage error: ", t.as_str()),
            KvdbError::Io(t) => joined("io error: ", t.as_str()),
            KvdbError::Lua(t) => joined("lua error: ", t.as_str()),
            KvdbError::Config(t) => joined("config error: ", t.as_str()),
            KvdbError::Protocol(t) => joined("protocol error: ", t.as_str()),
            KvdbError::Command(t) => t.clone(),
            KvdbError::WrongArgCount(t) => {
                let mut s = joined("wrong number of arguments for '", t);
                s.append("' command");
                s
            },
            KvdbError::NotInteger => "value is not an integer".to_owned(),
            KvdbError::OutOfRange => "value is out of range".to_owned(),
            KvdbError::Oom => "OOM command not allowed when used memory > maxmemory".to_owned(),
            KvdbError::UnknownCommand(t) => {
                let mut s = joined("unknown command '", t.as_str());
                s.append("'");
                s
            },
        }
    }
}

/// Whether a text begins with an error code: a word of two or more capital
/// letters and a space behind it.
pub open spec fn has_code(s: Seq<char>) -> bool {
    exists|n: int|
        2 <= n < s.len() && #[trigger] s[n] == ' ' && forall|i: int|
            0 <= i < n ==> is_upper(#[trigger] s[i])
}

/// `c` is an ASCII capital letter.
pub open spec fn is_upper(c: char) -> bool {
    'A' <= c && c <= 'Z'
}

/// Decides whether a text begins with an error code.
pub fn has_redis_error_code(msg: &str) -> (r: bool)
    ensures
        r == has_code(msg@),
{
    let n: usize = msg.unicode_len();
    let mut i: usize = 0;
    while i < n
        invariant
            n == msg@.len(),
            i <= n,
            forall|j: int| 0 <= j < i ==> is_upper(#[trigger] msg@[j]),
        decreases n - i,
    {
        let c = msg.get_char(i);
        if !('A' <= c && c <= 'Z') {
            proof {
                assert(!is_upper(msg@[i as int]));
            }
            return c == ' ' && i >= 2;
        }
        i = i + 1;
    }
    false
}

/// The text sent to a client: a text with an error code as it is, any other
/// behind `ERR`.
pub open spec fn wire_text(e: ErrorView) -> Seq<char> {
    if has_code(text_of(e)) {
        text_of(e)
    } else {
        "ERR "@ + text_of(e)
    }
}

/// Formats an error for a client.
pub fn format_error(e: &KvdbError) -> (s: String)
    ensures
        s@ == wire_text(e@),
{
    let msg = e.message();
    if has_redis_error_code(msg.as_str()) {
        msg
    } else {
        joined("ERR ", msg.as_str())
    }
}

/// What is sent to a client always begins with an error code, and it ends with the
/// text of the error: nothing stands before that but `ERR` and a space, and not
/// even that where the text has a code of its own.
pub proof fn law_wire_text(e: ErrorView)
    ensures
        has_code(wire_text(e)),
        wire_text(e) == text_of(e) || wire_text(e) == seq!['E', 'R', 'R', ' '] + text_of(e),
        has_code(text_of(e)) ==> wire_text(e) == text_of(e),
{
    reveal_strlit("ERR ");
    let t = "ERR "@ + text_of(e);
    assert("ERR "@ =~= seq!['E', 'R', 'R', ' ']);
    assert(t[3] == ' ');
    assert forall|i: int| 0 <= i < 3 implies is_upper(#[trigger] t[i]) by {
        assert(t[i] == "ERR "@[i]);
    }
}

} // verus!
