//! Log records for failed, started and finished operations. The caller hands each record
//! to the logging backend at its level.
use vstd::prelude::*;

use crate::text::{chars_of, extend_vec, string_of};

verus! {

/// The severity of a record.
#[derive(Clone, Copy, Debug, PartialEq, Eq, Structural)]
pub enum LogLevel {
    Error,
    Warn,
    Info,
    Debug,
}

/// A message at a level.
#[derive(Clone, Debug)]
pub struct LogRecord {
    pub level: LogLevel,
    pub message: String,
}

pub open spec fn failed_sep() -> Seq<char> {
    seq![' ', 'f', 'a', 'i', 'l', 'e', 'd', ':', ' ']
}

pub open spec fn caused_by() -> Seq<char> {
    seq![' ', ' ', 'C', 'a', 'u', 's', 'e', 'd', ' ', 'b', 'y', ':', ' ']
}

pub open spec fn started_word() -> Seq<char> {
    seq![' ', 's', 't', 'a', 'r', 't', 'e', 'd']
}

pub open spec fn completed_word() -> Seq<char> {
    seq![' ', 'c', 'o', 'm', 'p', 'l', 'e', 't', 'e', 'd']
}

/// `"{operation}{word}"`, followed by `": {context}"` when there is a context.
pub open spec fn with_context(operation: Seq<char>, word: Seq<char>, context: Option<Seq<char>>) -> Seq<
    char,
> {
    match context {
        Some(c) => operation + word + seq![':', ' '] + c,
        None => operation + word,
    }
}

/// `a + b + c` as a string.
fn concat3(a: &Vec<char>, b: &Vec<char>, c: &Vec<char>) -> (s: String)
    ensures
        s@ == a@ + b@ + c@,
{
    let mut v: Vec<char> = Vec::new();
    extend_vec(&mut v, a);
    extend_vec(&mut v, b);
    extend_vec(&mut v, c);
    assert(v@ =~= a@ + b@ + c@);
    string_of(&v)
}

/// The record for an operation that failed with a message: `"{operation} failed: {msg}"`
/// at error level.
pub fn log_error_str(operation: &str, error_msg: &str) -> (r: LogRecord)
    ensures
        r.level == LogLevel::Error,
        r.message@ == operation@ + failed_sep() + error_msg@,
{
    let sep = vec![' ', 'f', 'a', 'i', 'l', 'e', 'd', ':', ' '];
    assert(sep@ =~= failed_sep());
    LogRecord {
        level: LogLevel::Error,
        message: concat3(&chars_of(operation), &sep, &chars_of(error_msg)),
    }
}

/// The records for an operation that failed with an error: the failure at error level,
/// then, when the error has a source, `"  Caused by: {source}"` at error level.
pub fn log_error(operation: &str, error: &str, source: Option<&str>) -> (r: Vec<LogRecord>)
    ensures
        r.len() == (if source is Some { 2int } else { 1int }),
        r[0].level == LogLevel::Error,
        r[0].message@ == operation@ + failed_sep() + error@,
        source matches Some(s) ==> r[1].level == LogLevel::Error && r[1].message@ == caused_by()
            + s@,
{
    let mut r: Vec<LogRecord> = Vec::new();
    r.push(log_error_str(operation, error));
    if let Some(s) = source {
        let lead = vec![' ', ' ', 'C', 'a', 'u', 's', 'e', 'd', ' ', 'b', 'y', ':', ' '];
        assert(lead@ =~= caused_by());
        let empty: Vec<char> = Vec::new();
        let m = concat3(&lead, &chars_of(s), &empty);
        assert(lead@ + s@ + empty@ =~= caused_by() + s@);
        r.push(LogRecord { level: LogLevel::Error, message: m });
    }
    r
}

fn context_message(operation: &str, word: &Vec<char>, context: Option<&str>) -> (s: String)
    ensures
        s@ == with_context(
            operation@,
            word@,
            match context {
                Some(c) => Some(c@),
                None => None,
            },
        ),
{
    match context {
        Some(c) => {
            let mut tail = vec![':', ' '];
            extend_vec(&mut tail, &chars_of(c));
            let s = concat3(&chars_of(operation), word, &tail);
            assert(operation@ + word@ + tail@ =~= operation@ + word@ + seq![':', ' '] + c@);
            s
        },
        None => {
            let empty: Vec<char> = Vec::new();
            let s = concat3(&chars_of(operation), word, &empty);
            assert(operation@ + word@ + empty@ =~= operation@ + word@);
            s
        },
    }
}

/// The record for an operation that starts: `"{operation} started"`, with `": {context}"`
/// when there is a context, at info level.
pub fn log_operation_start(operation: &str, context: Option<&str>) -> (r: LogRecord)
    ensures
        r.level == LogLevel::Info,
        r.message@ == with_context(
            operation@,
            started_word(),
            match context {
                Some(c) => Some(c@),
                None => None,
            },
        ),
{
    let word = vec![' ', 's', 't', 'a', 'r', 't', 'e', 'd'];
    assert(word@ =~= started_word());
    LogRecord { level: LogLevel::Info, message: context_message(operation, &word, context) }
}

/// The record for an operation that finished: `"{operation} completed"`, with
/// `": {context}"` when there is a context, at debug level.
pub fn log_operation_complete(operation: &str, context: Option<&str>) -> (r: LogRecord)
    ensures
        r.level == LogLevel::Debug,
        r.message@ == with_context(
            operation@,
            completed_word(),
            match context {
                Some(c) => Some(c@),
                None => None,
            },
        ),
{
    let word = vec![' ', 'c', 'o', 'm', 'p', 'l', 'e', 't', 'e', 'd'];
    assert(word@ =~= completed_word());
    LogRecord { level: LogLevel::Debug, message: context_message(operation, &word, context) }
}

} // verus!
