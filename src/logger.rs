//! Log lines with a colored level tag.
use vstd::prelude::*;

verus! {

/// How serious a log message is.
#[derive(Clone, Copy, Debug, PartialEq, Eq)]
pub enum LogLevel {
    Debug,
    Error,
    Warn,
    Info,
    Trace,
}

/// The ANSI escape sequence that sets the foreground color `code` (30 to 37).
pub open spec fn color_seq(code: char) -> Seq<char> {
    seq!['\x1b', '[', '3', code, 'm']
}

/// The escape sequence that opens a line of `level`.
pub open spec fn color_of(level: LogLevel) -> Seq<char> {
    match level {
        LogLevel::Debug => color_seq('2'),
        LogLevel::Error => color_seq('1'),
        LogLevel::Warn => color_seq('3'),
        LogLevel::Info => color_seq('4'),
        LogLevel::Trace => color_seq('5'),
    }
}

/// The escape sequence that restores the default color.
pub open spec fn reset_seq() -> Seq<char> {
    seq!['\x1b', '[', '0', 'm']
}

/// The name of `level` as it appears in a line.
pub open spec fn label_of(level: LogLevel) -> Seq<char> {
    match level {
        LogLevel::Debug => seq!['D', 'E', 'B', 'U', 'G'],
        LogLevel::Error => seq!['E', 'R', 'R', 'O', 'R'],
        LogLevel::Warn => seq!['W', 'A', 'R', 'N'],
        LogLevel::Info => seq!['I', 'N', 'F', 'O'],
        LogLevel::Trace => seq!['T', 'R', 'A', 'C', 'E'],
    }
}

/// The line that reports `message` at `level`: the level's name in its
/// color and in brackets, then a colon and the message.
pub open spec fn line_of(level: LogLevel, message: Seq<char>) -> Seq<char> {
    color_of(level) + seq!['['] + label_of(level) + seq![']'] + reset_seq() + seq![':', ' '] + message
}

/// Writes log lines to standard output.
pub struct Logger;

impl Logger {
    /// Prepares the logger. Standard output needs no setup, so this does
    /// nothing; it is here so that callers have one place to start logging.
    pub fn init() {
    }

    /// The escape sequence that opens a line of `level`.
    pub fn color(level: LogLevel) -> (r: &'static str)
        ensures
            r@ == color_of(level),
    {
        proof {
            reveal_strlit("\x1b[32m");
            reveal_strlit("\x1b[31m");
            reveal_strlit("\x1b[33m");
            reveal_strlit("\x1b[34m");
            reveal_strlit("\x1b[35m");
        }
        match level {
            LogLevel::Debug => "\x1b[32m",
            LogLevel::Error => "\x1b[31m",
            LogLevel::Warn => "\x1b[33m",
            LogLevel::Info => "\x1b[34m",
            LogLevel::Trace => "\x1b[35m",
        }
    }

    /// The name of `level` as it appears in a line.
    pub fn label(level: LogLevel) -> (r: &'static str)
        ensures
            r@ == label_of(level),
    {
        proof {
            reveal_strlit("DEBUG");
            reveal_strlit("ERROR");
            reveal_strlit("WARN");
            reveal_strlit("INFO");
            reveal_strlit("TRACE");
        }
        match level {
            LogLevel::Debug => "DEBUG",
            LogLevel::Error => "ERROR",
            LogLevel::Warn => "WARN",
            LogLevel::Info => "INFO",
            LogLevel::Trace => "TRACE",
        }
    }

    /// The line that reports `message` at `level`.
    pub fn format_line(level: LogLevel, message: &str) -> (r: String)
        ensures
            r@ == line_of(level, message@),
    {
        proof {
            reveal_strlit("[");
            reveal_strlit("]");
            reveal_strlit("\x1b[0m");
            reveal_strlit(": ");
        }
        let mut line = String::from_str(Logger::color(level));
        line.append("[");
        line.append(Logger::label(level));
        line.append("]");
        line.append("\x1b[0m");
        line.append(": ");
        line.append(message);
        line
    }
}

} // verus!
