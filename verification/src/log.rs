//! How init's log lines look: the kernel log's priority prefix, and the
//! name of who wrote the line.
use vstd::prelude::*;
use vstd::string::StringExecFns;
use crate::text::{decimal, decimal_text, occurrences};

verus! {

/// How serious a log line is.
#[derive(Clone, Copy, PartialEq, Eq, Debug, Structural)]
pub enum Level {
    Error,
    Warn,
    Info,
}

/// The kernel log priority of a level: `KERN_ERR`, `KERN_WARNING`, `KERN_INFO`.
pub open spec fn priority_of(level: Level) -> u8 {
    match level {
        Level::Error => 3,
        Level::Warn => 4,
        Level::Info => 6,
    }
}

impl Level {
    /// The kernel log priority of the level.
    pub fn priority(self) -> (p: u8)
        ensures
            p == priority_of(self),
    {
        match self {
            Level::Error => 3,
            Level::Warn => 4,
            Level::Info => 6,
        }
    }
}

/// The kernel's default console log level: lines below it reach the console.
pub const CONSOLE_LOGLEVEL: u8 = 4;

/// With the console at its default level, only errors reach it.
pub proof fn only_errors_reach_a_quiet_console(level: Level)
    ensures
        priority_of(level) < CONSOLE_LOGLEVEL <==> level == Level::Error,
{
}

/// The line `/dev/kmsg` gets: the priority in angle brackets, who wrote it,
/// the message, and the end of the line.
pub open spec fn kmsg_text(level: Level, msg: Seq<char>) -> Seq<char> {
    "<"@ + decimal_text(priority_of(level) as nat) + ">zevinit: "@ + msg + "\n"@
}

/// The line written where the kernel log cannot be: who wrote it, the
/// message, and the end of the line.
pub open spec fn plain_text(msg: Seq<char>) -> Seq<char> {
    "zevinit: "@ + msg + "\n"@
}

/// The line `/dev/kmsg` gets for `msg` at `level`.
pub fn line_for(level: Level, msg: &str) -> (r: String)
    ensures
        r@ == kmsg_text(level, msg@),
{
    let mut r = String::from_str("<");
    r.append(decimal(level.priority() as usize).as_str());
    r.append(">zevinit: ");
    r.append(msg);
    r.append("\n");
    r
}

/// The line written where the kernel log cannot be.
pub fn plain_line(msg: &str) -> (r: String)
    ensures
        r@ == plain_text(msg@),
{
    let mut r = String::from_str("zevinit: ");
    r.append(msg);
    r.append("\n");
    r
}

/// `c` occurs in `a + b` as often as in `a` and in `b` together.
pub proof fn lemma_occurrences_concat(a: Seq<char>, b: Seq<char>, c: char)
    ensures
        occurrences(a + b, c) == occurrences(a, c) + occurrences(b, c),
    decreases b.len(),
{
    if b.len() > 0 {
        lemma_occurrences_concat(a, b.drop_last(), c);
        assert((a + b).drop_last() =~= a + b.drop_last());
    } else {
        assert(a + b =~= a);
    }
}

/// A log line for a one-line message ends with `\n`, and has no other.
pub proof fn a_line_ends_exactly_once(level: Level, msg: Seq<char>)
    requires
        !msg.contains('\n'),
    ensures
        kmsg_text(level, msg).last() == '\n',
        occurrences(kmsg_text(level, msg), '\n') == 1,
        plain_text(msg).last() == '\n',
        occurrences(plain_text(msg), '\n') == 1,
{
    reveal_strlit("<");
    reveal_strlit(">zevinit: ");
    reveal_strlit("zevinit: ");
    reveal_strlit("\n");
    let p = decimal_text(priority_of(level) as nat);
    assert(p.len() == 1);
    assert(occurrences(msg, '\n') == 0) by {
        lemma_no_occurrence(msg, '\n');
    }
    assert(occurrences("<"@, '\n') == 0) by {
        lemma_no_occurrence("<"@, '\n');
    }
    assert(occurrences(p, '\n') == 0) by {
        lemma_no_occurrence(p, '\n');
    }
    assert(occurrences(">zevinit: "@, '\n') == 0) by {
        lemma_no_occurrence(">zevinit: "@, '\n');
    }
    assert(occurrences("zevinit: "@, '\n') == 0) by {
        lemma_no_occurrence("zevinit: "@, '\n');
    }
    assert(occurrences("\n"@, '\n') == 1) by {
        reveal_strlit("\n");
        assert("\n"@.drop_last() =~= Seq::<char>::empty());
        assert(occurrences("\n"@.drop_last(), '\n') == 0);
        assert("\n"@.last() == '\n');
    }
    lemma_occurrences_concat("<"@, p, '\n');
    lemma_occurrences_concat("<"@ + p, ">zevinit: "@, '\n');
    lemma_occurrences_concat("<"@ + p + ">zevinit: "@, msg, '\n');
    lemma_occurrences_concat("<"@ + p + ">zevinit: "@ + msg, "\n"@, '\n');
    lemma_occurrences_concat("zevinit: "@, msg, '\n');
    lemma_occurrences_concat("zevinit: "@ + msg, "\n"@, '\n');
}

/// A text without `c` has no occurrence of it.
proof fn lemma_no_occurrence(s: Seq<char>, c: char)
    requires
        !s.contains(c),
    ensures
        occurrences(s, c) == 0,
    decreases s.len(),
{
    if s.len() > 0 {
        assert(!s.drop_last().contains(c)) by {
            if s.drop_last().contains(c) {
                let k = choose|k: int| 0 <= k < s.drop_last().len() && s.drop_last()[k] == c;
                assert(s[k] == c);
            }
        }
        lemma_no_occurrence(s.drop_last(), c);
        assert(s.last() != c) by {
            assert(s[s.len() - 1] == s.last());
        }
    }
}

} // verus!
