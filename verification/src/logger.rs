use vstd::prelude::*;
use crate::text::{chars_of, first_line, first_line_chars, string_from_chars, trim, trim_chars};

verus! {

/// Severity of a log message.
#[derive(Debug, Clone, Copy, PartialEq, Eq, Structural)]
pub enum LogLevel {
    Info,
    Warn,
    Error,
    JsLog,
}

pub open spec fn level_icon(l: LogLevel) -> Seq<char> {
    match l {
        LogLevel::Info => "ℹ️"@,
        LogLevel::Warn => "⚠️"@,
        LogLevel::Error => "❌"@,
        LogLevel::JsLog => "📝"@,
    }
}

pub open spec fn level_text(l: LogLevel) -> Seq<char> {
    match l {
        LogLevel::Info => "INFO"@,
        LogLevel::Warn => "WARN"@,
        LogLevel::Error => "ERR"@,
        LogLevel::JsLog => "LOG"@,
    }
}

pub open spec fn level_color(l: LogLevel) -> Seq<char> {
    match l {
        LogLevel::Error | LogLevel::Warn => "red"@,
        LogLevel::Info => "blue"@,
        LogLevel::JsLog => "green"@,
    }
}

impl LogLevel {
    /// The icon shown in front of a message of this level.
    pub fn icon(&self) -> (r: &'static str)
        ensures
            r@ == level_icon(*self),
    {
        match self {
            LogLevel::Info => "ℹ️",
            LogLevel::Warn => "⚠️",
            LogLevel::Error => "❌",
            LogLevel::JsLog => "📝",
        }
    }

    /// The short level tag shown in the completion menu.
    pub fn text(&self) -> (r: &'static str)
        ensures
            r@ == level_text(*self),
    {
        match self {
            LogLevel::Info => "INFO",
            LogLevel::Warn => "WARN",
            LogLevel::Error => "ERR",
            LogLevel::JsLog => "LOG",
        }
    }

    /// The color in which a message of this level is shown.
    pub fn color(&self) -> (r: &'static str)
        ensures
            r@ == level_color(*self),
    {
        match self {
            LogLevel::Error | LogLevel::Warn => "red",
            LogLevel::Info => "blue",
            LogLevel::JsLog => "green",
        }
    }
}

/// Most messages kept for the completion menu.
pub const MAX_UI_LOGS: usize = 8;

/// Where log messages go: straight to stderr (engine mode) or into a bounded queue shown in
/// the completion menu (UI mode).
pub struct LogState {
    pub ui_mode: bool,
    pub ui_logs: Vec<(LogLevel, String)>,
}

/// What became of a message handed to [`write_log`].
#[derive(Debug, Clone, Copy, PartialEq, Eq, Structural)]
pub enum LogRoute {
    /// Engine mode: the message is to be printed to stderr.
    Stderr,
    /// UI mode: the message was queued.
    Queued,
    /// UI mode: the queue was full and the message was dropped.
    Dropped,
}

/// The text queued for a message in UI mode: its first line, trimmed.
pub open spec fn ui_message(msg: Seq<char>) -> Seq<char> {
    trim(first_line(msg))
}

impl LogState {
    /// A state in engine mode with an empty queue.
    pub fn new() -> (r: Self)
        ensures
            !r.ui_mode,
            r.ui_logs@.len() == 0,
    {
        LogState { ui_mode: false, ui_logs: Vec::new() }
    }
}

/// Switches to UI mode: from now on messages are queued instead of printed.
pub fn set_ui_mode(state: &mut LogState)
    ensures
        final(state).ui_mode,
        final(state).ui_logs@ == old(state).ui_logs@,
{
    state.ui_mode = true;
}

/// Routes a message: in engine mode it goes to stderr; in UI mode its first line, trimmed,
/// is queued while the queue holds fewer than [`MAX_UI_LOGS`] entries.
pub fn write_log(state: &mut LogState, level: LogLevel, msg: &str) -> (route: LogRoute)
    ensures
        final(state).ui_mode == old(state).ui_mode,
        !old(state).ui_mode ==> route == LogRoute::Stderr && final(state).ui_logs@ == old(state).ui_logs@,
        old(state).ui_mode && old(state).ui_logs@.len() < MAX_UI_LOGS ==> route == LogRoute::Queued
            && final(state).ui_logs@.len() == old(state).ui_logs@.len() + 1
            && final(state).ui_logs@.take(old(state).ui_logs@.len() as int) == old(state).ui_logs@
            && final(state).ui_logs@.last().0 == level
            && final(state).ui_logs@.last().1@ == ui_message(msg@),
        old(state).ui_mode && old(state).ui_logs@.len() >= MAX_UI_LOGS ==> route == LogRoute::Dropped
            && final(state).ui_logs@ == old(state).ui_logs@,
        old(state).ui_logs@.len() <= MAX_UI_LOGS ==> final(state).ui_logs@.len() <= MAX_UI_LOGS,
{
    if !state.ui_mode {
        return LogRoute::Stderr;
    }
    if state.ui_logs.len() < MAX_UI_LOGS {
        let v = chars_of(msg);
        let line = first_line_chars(&v);
        let t = trim_chars(&line);
        let s = string_from_chars(&t);
        let ghost before = state.ui_logs@;
        state.ui_logs.push((level, s));
        assert(state.ui_logs@.take(before.len() as int) == before);
        LogRoute::Queued
    } else {
        LogRoute::Dropped
    }
}

/// A copy of the queued UI messages.
pub fn get_ui_logs(state: &LogState) -> (r: Vec<(LogLevel, String)>)
    ensures
        r@ == state.ui_logs@,
{
    let mut r: Vec<(LogLevel, String)> = Vec::new();
    for i in 0..state.ui_logs.len()
        invariant
            r@ == state.ui_logs@.take(i as int),
    {
        let (l, m) = &state.ui_logs[i];
        r.push((*l, m.clone()));
        assert(state.ui_logs@.take(i + 1) == state.ui_logs@.take(i as int).push(state.ui_logs@[i as int]));
    }
    assert(state.ui_logs@.take(state.ui_logs.len() as int) == state.ui_logs@);
    r
}

} // verus!
