//! Structured logging for scripts: levels, the in-memory ring buffer of the
//! most recent entries (at most 1000), the threshold below which entries are
//! dropped, and the text of an entry. Printing and mirroring to a file are the
//! application's.
use vstd::prelude::*;

use std::collections::VecDeque;

use crate::interpreter::RuntimeError;
use crate::numfmt::{dec, pad_left, u64_padded};
use crate::text::{ascii_lower, str_eq, to_ascii_lower};

verus! {

/// How many entries the ring buffer keeps.
pub const RING_BUFFER_LIMIT: usize = 1000;

/// A log level; `Off` silences everything.
#[derive(Debug, Clone, Copy, PartialEq, Eq, Structural)]
pub enum LogLevel {
    Debug,
    Info,
    Warn,
    Error,
    Off,
}

/// The position of a level in severity order.
pub open spec fn rank(l: LogLevel) -> int {
    match l {
        LogLevel::Debug => 0,
        LogLevel::Info => 1,
        LogLevel::Warn => 2,
        LogLevel::Error => 3,
        LogLevel::Off => 4,
    }
}

/// The level a name stands for, in lowercase.
pub open spec fn level_of_name(s: Seq<char>) -> Option<LogLevel> {
    if s == "debug"@ || s == "trace"@ {
        Some(LogLevel::Debug)
    } else if s == "info"@ {
        Some(LogLevel::Info)
    } else if s == "warn"@ || s == "warning"@ {
        Some(LogLevel::Warn)
    } else if s == "error"@ || s == "err"@ {
        Some(LogLevel::Error)
    } else if s == "off"@ || s == "none"@ {
        Some(LogLevel::Off)
    } else {
        None
    }
}

/// The five-character tag of a level.
pub open spec fn label_spec(l: LogLevel) -> Seq<char> {
    match l {
        LogLevel::Debug => "DEBUG"@,
        LogLevel::Info => "INFO "@,
        LogLevel::Warn => "WARN "@,
        LogLevel::Error => "ERROR"@,
        LogLevel::Off => "OFF  "@,
    }
}

/// The terminal colour of a level.
pub open spec fn ansi_spec(l: LogLevel) -> Seq<char> {
    match l {
        LogLevel::Debug => "\x1b[2m"@,
        LogLevel::Info => "\x1b[36m"@,
        LogLevel::Warn => "\x1b[33m"@,
        LogLevel::Error => "\x1b[31;1m"@,
        LogLevel::Off => ""@,
    }
}

impl LogLevel {
    /// Reads a level name in any case (`trace`, `warning`, `err` and `none`
    /// are accepted as synonyms).
    pub fn parse(s: &str) -> (r: Option<LogLevel>)
        ensures
            r == level_of_name(ascii_lower(s@)),
    {
        let l = to_ascii_lower(s);
        let t = l.as_str();
        if str_eq(t, "debug") || str_eq(t, "trace") {
            Some(LogLevel::Debug)
        } else if str_eq(t, "info") {
            Some(LogLevel::Info)
        } else if str_eq(t, "warn") || str_eq(t, "warning") {
            Some(LogLevel::Warn)
        } else if str_eq(t, "error") || str_eq(t, "err") {
            Some(LogLevel::Error)
        } else if str_eq(t, "off") || str_eq(t, "none") {
            Some(LogLevel::Off)
        } else {
            None
        }
    }

    pub fn label(self) -> (r: &'static str)
        ensures
            r@ == label_spec(self),
    {
        match self {
            LogLevel::Debug => "DEBUG",
            LogLevel::Info => "INFO ",
            LogLevel::Warn => "WARN ",
            LogLevel::Error => "ERROR",
            LogLevel::Off => "OFF  ",
        }
    }

    pub fn ansi(self) -> (r: &'static str)
        ensures
            r@ == ansi_spec(self),
    {
        match self {
            LogLevel::Debug => "\x1b[2m",
            LogLevel::Info => "\x1b[36m",
            LogLevel::Warn => "\x1b[33m",
            LogLevel::Error => "\x1b[31;1m",
            LogLevel::Off => "",
        }
    }

    /// The position of the level in severity order.
    pub fn rank(self) -> (r: u8)
        ensures
            r as int == rank(self),
    {
        match self {
            LogLevel::Debug => 0,
            LogLevel::Info => 1,
            LogLevel::Warn => 2,
            LogLevel::Error => 3,
            LogLevel::Off => 4,
        }
    }
}

/// One logged message.
#[derive(Debug)]
pub struct LogEntry {
    pub level: LogLevel,
    pub message: String,
    pub timestamp: u64,
}

/// The logger: its threshold, the ring buffer of recent entries, and the
/// file that entries are mirrored to, if any.
pub struct LogState {
    pub level: LogLevel,
    pub buffer: VecDeque<LogEntry>,
    pub file: Option<String>,
}

/// `HH:MM:SS` of the time of day of a unix timestamp (UTC).
pub open spec fn clock_spec(unix_secs: nat) -> Seq<char> {
    let s = unix_secs % 86400;
    pad_left(dec(s / 3600), 2, '0') + ":"@ + pad_left(dec((s % 3600) / 60), 2, '0') + ":"@
        + pad_left(dec(s % 60), 2, '0')
}

/// The text of an entry: `[LEVEL HH:MM:SS] message`, coloured when asked.
pub open spec fn entry_text(level: LogLevel, message: Seq<char>, timestamp: nat, color: bool) -> Seq<
    char,
> {
    if color {
        ansi_spec(level) + "["@ + label_spec(level) + " "@ + clock_spec(timestamp) + "]\x1b[0m "@
            + message
    } else {
        "["@ + label_spec(level) + " "@ + clock_spec(timestamp) + "] "@ + message
    }
}

/// The plain text of a buffered entry.
pub open spec fn plain(e: LogEntry) -> Seq<char> {
    entry_text(e.level, e.message@, e.timestamp as nat, false)
}

/// The plain texts of the buffered entries at or above `min`, oldest first.
pub open spec fn kept(buf: Seq<LogEntry>, min: int) -> Seq<Seq<char>>
    decreases buf.len(),
{
    if buf.len() == 0 {
        seq![]
    } else {
        kept(buf.drop_last(), min) + if rank(buf.last().level) >= min {
            seq![plain(buf.last())]
        } else {
            seq![]
        }
    }
}

/// How many buffered entries have exactly level `l`.
pub open spec fn count_of(buf: Seq<LogEntry>, l: LogLevel) -> nat
    decreases buf.len(),
{
    if buf.len() == 0 {
        0
    } else {
        count_of(buf.drop_last(), l) + if buf.last().level == l {
            1nat
        } else {
            0nat
        }
    }
}

/// Whether a message at `level` gets through the threshold `threshold`.
pub open spec fn passes(threshold: LogLevel, level: LogLevel) -> bool {
    rank(level) >= rank(threshold) && threshold != LogLevel::Off
}

/// `HH:MM:SS` of the time of day of a unix timestamp.
pub fn format_clock(unix_secs: u64) -> (r: String)
    ensures
        r@ == clock_spec(unix_secs as nat),
{
    let s = unix_secs % 86400;
    let h = u64_padded(s / 3600, 2, '0');
    let m = u64_padded((s % 3600) / 60, 2, '0');
    let sec = u64_padded(s % 60, 2, '0');
    let mut out = h;
    out.append(":");
    out.append(m.as_str());
    out.append(":");
    out.append(sec.as_str());
    out
}

/// The text of an entry as printed and kept in history.
pub fn format_entry(entry: &LogEntry, with_color: bool) -> (r: String)
    ensures
        r@ == entry_text(entry.level, entry.message@, entry.timestamp as nat, with_color),
{
    let clock = format_clock(entry.timestamp);
    let mut out = if with_color {
        String::from_str(entry.level.ansi())
    } else {
        String::new()
    };
    out.append("[");
    out.append(entry.level.label());
    out.append(" ");
    out.append(clock.as_str());
    if with_color {
        out.append("]\x1b[0m ");
    } else {
        out.append("] ");
    }
    out.append(entry.message.as_str());
    out
}

/// The level named by `s`, or a 400 error naming it.
pub fn parse_level(s: &str, line: usize) -> (r: Result<LogLevel, RuntimeError>)
    ensures
        match r {
            Ok(l) => level_of_name(ascii_lower(s@)) == Some(l),
            Err(e) => level_of_name(ascii_lower(s@)) is None && e.code == 400 && e.line == line
                && e.message@ == "unknown log level `"@ + s@ + "`"@,
        },
{
    match LogLevel::parse(s) {
        Some(l) => Ok(l),
        None => {
            let mut m = String::from_str("unknown log level `");
            m.append(s);
            m.append("`");
            Err(RuntimeError { code: 400, line, message: m })
        },
    }
}

impl LogState {
    /// The buffer never holds more than `RING_BUFFER_LIMIT` entries.
    pub open spec fn wf(&self) -> bool {
        self.buffer@.len() <= RING_BUFFER_LIMIT
    }

    /// An empty logger with threshold `level` and no file.
    pub fn with_level(level: LogLevel) -> (r: LogState)
        ensures
            r.wf(),
            r.level == level,
            r.buffer@.len() == 0,
            r.file is None,
    {
        LogState { level, buffer: VecDeque::with_capacity(RING_BUFFER_LIMIT), file: None }
    }

    /// Records a message unless it falls below the threshold (or the logger
    /// is off); when the buffer is full the oldest entry makes room. Returns
    /// whether the entry was kept.
    pub fn record(&mut self, level: LogLevel, message: String, timestamp: u64) -> (kept: bool)
        requires
            old(self).wf(),
        ensures
            final(self).wf(),
            kept == passes(old(self).level, level),
            final(self).level == old(self).level,
            final(self).file == old(self).file,
            !kept ==> final(self).buffer@ == old(self).buffer@,
            kept ==> final(self).buffer@.len() > 0,
            kept ==> final(self).buffer@.drop_last() == if old(self).buffer@.len() == RING_BUFFER_LIMIT {
                old(self).buffer@.drop_first()
            } else {
                old(self).buffer@
            },
            kept ==> final(self).buffer@.last().level == level,
            kept ==> final(self).buffer@.last().message@ == message@,
            kept ==> final(self).buffer@.last().timestamp == timestamp,
    {
        if level.rank() < self.level.rank() || self.level.rank() == 4 {
            return false;
        }
        if self.buffer.len() == RING_BUFFER_LIMIT {
            self.buffer.pop_front();
        }
        let ghost before = self.buffer@;
        self.buffer.push_back(LogEntry { level, message, timestamp });
        assert(self.buffer@.drop_last() =~= before);
        true
    }

    /// The plain texts of all buffered entries, oldest first.
    pub fn history(&self) -> (r: Vec<String>)
        ensures
            r@.map_values(|s: String| s@) == kept(self.buffer@, 0),
    {
        self.filter(LogLevel::Debug)
    }

    /// The plain texts of the buffered entries at or above `min`, oldest first.
    pub fn filter(&self, min: LogLevel) -> (r: Vec<String>)
        ensures
            r@.map_values(|s: String| s@) == kept(self.buffer@, rank(min)),
    {
        let n = self.buffer.len();
        let mut out: Vec<String> = Vec::new();
        let mut i: usize = 0;
        let m = min.rank();
        while i < n
            invariant
                n == self.buffer@.len(),
                m as int == rank(min),
                i <= n,
                out@.map_values(|s: String| s@) == kept(self.buffer@.take(i as int), rank(min)),
            decreases n - i,
        {
            let e = &self.buffer[i];
            let ghost prev = out@;
            if e.level.rank() >= m {
                out.push(format_entry(e, false));
            }
            proof {
                assert(self.buffer@.take(i + 1).drop_last() =~= self.buffer@.take(i as int));
                assert(out@.map_values(|s: String| s@) =~= kept(self.buffer@.take(i + 1), rank(min)));
            }
            i += 1;
        }
        assert(self.buffer@.take(n as int) =~= self.buffer@);
        out
    }

    /// How many entries are buffered, or how many have exactly level `l`.
    pub fn count(&self, level: Option<LogLevel>) -> (r: usize)
        ensures
            match level {
                None => r == self.buffer@.len(),
                Some(l) => r == count_of(self.buffer@, l),
            },
    {
        match level {
            None => self.buffer.len(),
            Some(l) => {
                let n = self.buffer.len();
                let mut c: usize = 0;
                let mut i: usize = 0;
                while i < n
                    invariant
                        n == self.buffer@.len(),
                        i <= n,
                        c == count_of(self.buffer@.take(i as int), l),
                        c <= i,
                    decreases n - i,
                {
                    proof {
                        assert(self.buffer@.take(i + 1).drop_last() =~= self.buffer@.take(i as int));
                    }
                    if self.buffer[i].level == l {
                        c += 1;
                    }
                    i += 1;
                }
                assert(self.buffer@.take(n as int) =~= self.buffer@);
                c
            },
        }
    }

    /// Empties the buffer; returns how many entries it held.
    pub fn clear(&mut self) -> (r: usize)
        ensures
            r == old(self).buffer@.len(),
            final(self).buffer@.len() == 0,
            final(self).level == old(self).level,
            final(self).file == old(self).file,
    {
        let n = self.buffer.len();
        self.buffer.clear();
        n
    }
}

/// The counts by level add up to the number of buffered entries.
pub proof fn law_counts_add_up(buf: Seq<LogEntry>)
    ensures
        count_of(buf, LogLevel::Debug) + count_of(buf, LogLevel::Info) + count_of(buf, LogLevel::Warn)
            + count_of(buf, LogLevel::Error) + count_of(buf, LogLevel::Off) == buf.len(),
    decreases buf.len(),
{
    if buf.len() > 0 {
        law_counts_add_up(buf.drop_last());
    }
}

/// Reading back after a message was kept: the history is the earlier
/// history of the surviving entries followed by the new entry's text.
pub proof fn law_history_ends_with_new_entry(buf: Seq<LogEntry>, min: LogLevel)
    requires
        buf.len() > 0,
        rank(buf.last().level) >= rank(min),
    ensures
        kept(buf, rank(min)) == kept(buf.drop_last(), rank(min)).push(plain(buf.last())),
        kept(buf, rank(min)).last() == plain(buf.last()),
{
    assert(kept(buf, rank(min)) =~= kept(buf.drop_last(), rank(min)).push(plain(buf.last())));
}

/// A filter at a higher level keeps no more entries than one at a lower level.
pub proof fn law_filter_narrows(buf: Seq<LogEntry>, lo: LogLevel, hi: LogLevel)
    requires
        rank(lo) <= rank(hi),
    ensures
        kept(buf, rank(hi)).len() <= kept(buf, rank(lo)).len() <= buf.len(),
    decreases buf.len(),
{
    if buf.len() > 0 {
        law_filter_narrows(buf.drop_last(), lo, hi);
    }
}

/// Level names and tags: `debug` and `trace` name Debug, `info` Info, `warn`
/// and `warning` Warn, `error` and `err` Error, `off` and `none` Off, and
/// nothing else names a level. Each level's tag is five characters wide and
/// spells the level. Levels rank from Debug up to Off, and a threshold lets
/// through exactly the messages ranked at or above it, none at all when it
/// is Off.
pub proof fn law_level_names_and_order(name: Seq<char>, threshold: LogLevel, level: LogLevel)
    ensures
        level_of_name("debug"@) == Some(LogLevel::Debug),
        level_of_name("trace"@) == Some(LogLevel::Debug),
        level_of_name("info"@) == Some(LogLevel::Info),
        level_of_name("warn"@) == Some(LogLevel::Warn),
        level_of_name("warning"@) == Some(LogLevel::Warn),
        level_of_name("error"@) == Some(LogLevel::Error),
        level_of_name("err"@) == Some(LogLevel::Error),
        level_of_name("off"@) == Some(LogLevel::Off),
        level_of_name("none"@) == Some(LogLevel::Off),
        name != "debug"@ && name != "trace"@ && name != "info"@ && name != "warn"@ && name != "warning"@
            && name != "error"@ && name != "err"@ && name != "off"@ && name != "none"@ ==> level_of_name(name)
            is None,
        label_spec(threshold).len() == 5,
        label_spec(LogLevel::Debug) == "DEBUG"@,
        label_spec(LogLevel::Info) == "INFO "@,
        label_spec(LogLevel::Warn) == "WARN "@,
        label_spec(LogLevel::Error) == "ERROR"@,
        label_spec(LogLevel::Off) == "OFF  "@,
        rank(LogLevel::Debug) < rank(LogLevel::Info) < rank(LogLevel::Warn) < rank(LogLevel::Error) < rank(
            LogLevel::Off,
        ),
        passes(threshold, level) <==> (threshold != LogLevel::Off && rank(level) >= rank(threshold)),
        !passes(LogLevel::Off, level),
        threshold != LogLevel::Off ==> passes(threshold, LogLevel::Error),
        passes(LogLevel::Debug, level),
{
    reveal_strlit("debug");
    reveal_strlit("trace");
    reveal_strlit("info");
    reveal_strlit("warn");
    reveal_strlit("warning");
    reveal_strlit("error");
    reveal_strlit("err");
    reveal_strlit("off");
    reveal_strlit("none");
    reveal_strlit("DEBUG");
    reveal_strlit("INFO ");
    reveal_strlit("WARN ");
    reveal_strlit("ERROR");
    reveal_strlit("OFF  ");
    assert("debug"@.len() == 5 && "trace"@.len() == 5 && "info"@.len() == 4 && "warn"@.len() == 4);
    assert("warning"@.len() == 7 && "error"@.len() == 5 && "err"@.len() == 3 && "off"@.len() == 3);
    assert("none"@.len() == 4);
    assert("debug"@[0] != "trace"@[0] && "debug"@[0] != "error"@[0] && "trace"@[0] != "error"@[0]);
    assert("info"@[0] != "warn"@[0] && "info"@[0] != "none"@[0] && "warn"@[0] != "none"@[0]);
    assert("err"@[0] != "off"@[0]);
}

/// The terminal colours of the levels: Debug dim, Info cyan, Warn yellow,
/// Error bold red, and no colour for Off; a coloured entry starts with its
/// level's colour and resets it before the message, and an entry without
/// colour is `[LEVEL HH:MM:SS] message`.
pub proof fn law_level_colours(level: LogLevel, message: Seq<char>, timestamp: nat)
    ensures
        ansi_spec(LogLevel::Debug) == seq!['\x1b', '[', '2', 'm'],
        ansi_spec(LogLevel::Info) == seq!['\x1b', '[', '3', '6', 'm'],
        ansi_spec(LogLevel::Warn) == seq!['\x1b', '[', '3', '3', 'm'],
        ansi_spec(LogLevel::Error) == seq!['\x1b', '[', '3', '1', ';', '1', 'm'],
        ansi_spec(LogLevel::Off) == Seq::<char>::empty(),
        entry_text(level, message, timestamp, true) == ansi_spec(level) + seq!['['] + label_spec(level) + seq![' ']
            + clock_spec(timestamp) + seq![']', '\x1b', '[', '0', 'm', ' '] + message,
        entry_text(level, message, timestamp, false) == seq!['['] + label_spec(level) + seq![' '] + clock_spec(timestamp) + seq![']', ' '] + message,
{
    reveal_strlit("\x1b[2m");
    reveal_strlit("\x1b[36m");
    reveal_strlit("\x1b[33m");
    reveal_strlit("\x1b[31;1m");
    reveal_strlit("");
    reveal_strlit("[");
    reveal_strlit(" ");
    reveal_strlit("] ");
    reveal_strlit("]\x1b[0m ");
    assert(ansi_spec(LogLevel::Debug) =~= seq!['\x1b', '[', '2', 'm']);
    assert(ansi_spec(LogLevel::Info) =~= seq!['\x1b', '[', '3', '6', 'm']);
    assert(ansi_spec(LogLevel::Warn) =~= seq!['\x1b', '[', '3', '3', 'm']);
    assert(ansi_spec(LogLevel::Error) =~= seq!['\x1b', '[', '3', '1', ';', '1', 'm']);
    assert(entry_text(level, message, timestamp, true) =~= ansi_spec(level) + seq!['['] + label_spec(level)
        + seq![' '] + clock_spec(timestamp) + seq![']', '\x1b', '[', '0', 'm', ' '] + message);
    assert(entry_text(level, message, timestamp, false) =~= seq!['['] + label_spec(level) + seq![' ']
        + clock_spec(timestamp) + seq![']', ' '] + message);
}

} // verus!
