//! Log lines: a time stamp, a level and a message.

use crate::rfc1035::{decimal_chars, push_decimal};
use crate::util::{str_chars, string_from_chars};
use vstd::prelude::*;

verus! {

/// How serious a logged event is.
#[derive(Clone, Copy, Debug, PartialEq, Eq, Structural)]
pub enum LogLevel {
    Info,
    Warning,
    Error,
}

/// The name of a level, as it appears in a log line.
pub open spec fn level_name(level: LogLevel) -> Seq<char> {
    match level {
        LogLevel::Info => seq!['I', 'N', 'F', 'O'],
        LogLevel::Warning => seq!['W', 'A', 'R', 'N', 'I', 'N', 'G'],
        LogLevel::Error => seq!['E', 'R', 'R', 'O', 'R'],
    }
}

/// The line logged at `timestamp` (seconds since the epoch):
/// `[timestamp] [LEVEL] message`.
pub open spec fn log_line(timestamp: u64, level: LogLevel, message: Seq<char>) -> Seq<char> {
    seq!['['] + decimal_chars(timestamp as nat) + seq![']', ' ', '['] + level_name(level) + seq![
        ']',
        ' ',
    ] + message
}

/// Writes log lines, to the console and, when one is given, to a file.
#[derive(Clone, Debug)]
pub struct Logger {
    pub log_file: Option<String>,
}

fn push_all(v: &mut Vec<char>, s: &[char])
    ensures
        final(v)@ == old(v)@ + s@,
{
    let ghost start = v@;
    let mut i: usize = 0;
    while i < s.len()
        invariant
            i <= s@.len(),
            v@ == start + s@.take(i as int),
        decreases s@.len() - i,
    {
        v.push(s[i]);
        i += 1;
        assert(s@.take(i as int) =~= s@.take(i - 1).push(s@[i - 1]));
    }
    assert(s@.take(s@.len() as int) =~= s@);
}

impl Logger {
    /// A logger that writes to `log_file` as well as to the console.
    pub fn new(log_file: Option<String>) -> (l: Logger)
        ensures
            l.log_file == log_file,
    {
        Logger { log_file }
    }

    /// The name of a level.
    pub fn level_to_string(level: &LogLevel) -> (s: &'static str)
        ensures
            s@ == level_name(*level),
    {
        match level {
            LogLevel::Info => {
                proof {
                    reveal_strlit("INFO");
                }
                "INFO"
            },
            LogLevel::Warning => {
                proof {
                    reveal_strlit("WARNING");
                }
                "WARNING"
            },
            LogLevel::Error => {
                proof {
                    reveal_strlit("ERROR");
                }
                "ERROR"
            },
        }
    }

    /// The line to log at `timestamp` (see `log_line`).
    pub fn log_message(&self, timestamp: u64, level: LogLevel, message: &str) -> (line: String)
        ensures
            line@ == log_line(timestamp, level, message@),
    {
        let mut v: Vec<char> = Vec::new();
        v.push('[');
        push_decimal(&mut v, timestamp);
        v.push(']');
        v.push(' ');
        v.push('[');
        let name: Vec<char> = str_chars(Self::level_to_string(&level));
        push_all(&mut v, name.as_slice());
        v.push(']');
        v.push(' ');
        let m: Vec<char> = str_chars(message);
        push_all(&mut v, m.as_slice());
        assert(v@ =~= log_line(timestamp, level, message@));
        string_from_chars(v.as_slice())
    }

    /// The line that logs `message` as information.
    pub fn info(&self, timestamp: u64, message: &str) -> (line: String)
        ensures
            line@ == log_line(timestamp, LogLevel::Info, message@),
    {
        self.log_message(timestamp, LogLevel::Info, message)
    }

    /// The line that logs `message` as a warning.
    pub fn warning(&self, timestamp: u64, message: &str) -> (line: String)
        ensures
            line@ == log_line(timestamp, LogLevel::Warning, message@),
    {
        self.log_message(timestamp, LogLevel::Warning, message)
    }

    /// The line that logs `message` as an error.
    pub fn error(&self, timestamp: u64, message: &str) -> (line: String)
        ensures
            line@ == log_line(timestamp, LogLevel::Error, message@),
    {
        self.log_message(timestamp, LogLevel::Error, message)
    }
}

} // verus!
