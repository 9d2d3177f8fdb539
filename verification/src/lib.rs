//! Follow growing nginx access logs, classify each appended line, keep live
//! per-source/per-status throughput estimates, and drive a low-flicker
//! terminal dashboard.
//!
//! This crate holds the verified core: the tolerant incremental line parser,
//! the rate estimators, the group/status aggregation, the line reassembly of
//! the tailer, and the diffing renderer's state machine. The surrounding
//! process (file reads, channels, timers, signal handling) lives outside.

use vstd::prelude::*;

pub mod clock;
pub mod collections;
pub mod dashboard;
pub mod parsing;
pub mod speedometer;
pub mod tailer;
pub mod terminal;
pub mod textfmt;

pub use parsing::extract_statuscode;
pub use speedometer::InstantSpeedometer;
pub use speedometer::Rate;
pub use speedometer::RingbufferSpeedometer;
pub use speedometer::SmootherSpeedometer;

verus! {

/// Map a status code to its class bucket: `"404"` becomes `"4xx"`.
///
/// Returns `None` exactly when the code is empty; otherwise the bucket is the
/// code's first character followed by `"xx"`.
pub fn get_statuscode_class(statuscode: &str) -> (r: Option<String>)
    ensures
        match r {
            None => statuscode@.len() == 0,
            Some(class) => statuscode@.len() > 0 && class@ == seq![statuscode@[0], 'x', 'x'],
        },
{
    if statuscode.unicode_len() == 0 {
        None
    } else {
        let first = statuscode.substring_char(0, 1);
        let mut class = String::from_str(first);
        class.append("xx");
        proof {
            reveal_strlit("xx");
            assert(class@ =~= seq![statuscode@[0], 'x', 'x']);
        }
        Some(class)
    }
}

} // verus!

verus! {

/// The one kind of value that crosses from the producing tasks (tailers,
/// ticker, resize watcher) to the single consumer driving the dashboard.
#[derive(Debug, PartialEq)]
pub enum Message {
    /// Render now; raw pending lines are flushed only when asked for.
    Print { include_lines: bool },
    /// A source announces itself before its first line, so its group shows
    /// up in the dashboard even while the file is idle.
    RegisterGroup(String),
    /// One fully reassembled log line with its classification.
    Line {
        text: String,
        updowngroup: String,
        leftrightgroup: Option<String>,
        statuscode: Option<String>,
    },
    /// The terminal width changed.
    WinCh(u16),
}

/// A human-readable error message.
pub struct Error(pub String);

impl From<String> for Error {
    fn from(value: String) -> (r: Self) {
        Error(value)
    }
}

impl vstd::std_specs::convert::FromSpecImpl<String> for Error {
    open spec fn obeys_from_spec() -> bool {
        true
    }

    open spec fn from_spec(value: String) -> Self {
        Error(value)
    }
}

/// Whether one text begins with another.
pub open spec fn starts_with(s: Seq<char>, p: Seq<char>) -> bool {
    p.len() <= s.len() && s.take(p.len() as int) == p
}

/// Whether a line passes the display filters: everything is shown when no
/// filter is configured or the line has no status code; otherwise the code
/// must begin with one of the configured prefixes. Filters never affect the
/// aggregated rates, only which raw lines are displayed.
pub open spec fn shown_spec(filters: Seq<Seq<char>>, code: Option<Seq<char>>) -> bool {
    ||| filters.len() == 0
    ||| code is None
    ||| exists|i: int| 0 <= i < filters.len() && starts_with(code.unwrap(), filters[i])
}

/// Whether one text begins with another.
fn str_starts_with(s: &str, p: &str) -> (r: bool)
    ensures
        r == starts_with(s@, p@),
{
    let pn = p.unicode_len();
    if pn > s.unicode_len() {
        return false;
    }
    let mut i: usize = 0;
    while i < pn
        invariant
            i <= pn,
            pn == p@.len(),
            pn <= s@.len(),
            forall|j: int| 0 <= j < i ==> s@[j] == p@[j],
        decreases pn - i,
    {
        if s.get_char(i) != p.get_char(i) {
            proof {
                assert(s@.take(pn as int)[i as int] != p@[i as int]);
            }
            return false;
        }
        i = i + 1;
    }
    proof {
        assert(s@.take(pn as int) =~= p@);
    }
    true
}

/// The views of a list of filter prefixes.
pub open spec fn filter_views(filters: Seq<String>) -> Seq<Seq<char>> {
    filters.map_values(|f: String| f@)
}

/// Whether a line with this status code is shown under these filters.
pub fn passes_filter(filters: &Vec<String>, statuscode: &Option<String>) -> (r: bool)
    ensures
        r == shown_spec(filter_views(filters@), crate::parsing::opt_view(*statuscode)),
{
    let ghost fv = filter_views(filters@);
    if filters.len() == 0 {
        return true;
    }
    if statuscode.is_none() {
        return true;
    }
    let code = statuscode.as_ref().unwrap();
    let n = filters.len();
    let mut i: usize = 0;
    while i < n
        invariant
            i <= n,
            n == filters@.len(),
            fv == filter_views(filters@),
            *statuscode is Some,
            code == (*statuscode)->0,
            forall|j: int| 0 <= j < i ==> !starts_with(code@, fv[j]),
        decreases n - i,
    {
        proof {
            assert(fv[i as int] == filters@[i as int]@);
        }
        if str_starts_with(code.as_str(), filters[i].as_str()) {
            proof {
                assert(starts_with(code@, fv[i as int]));
                assert(crate::parsing::opt_view(*statuscode) == Some(code@));
                assert(shown_spec(fv, crate::parsing::opt_view(*statuscode)));
            }
            return true;
        }
        i = i + 1;
    }
    false
}

/// The ticker's schedule for `Print` messages, by step number: a warm-up of
/// quick stats-only renders (so the dashboard appears promptly), then a
/// steady cadence where every sixteenth render also flushes raw lines.
/// Returns the delay in milliseconds before the step's render, and whether
/// that render includes raw lines.
pub open spec fn print_cadence_spec(step: u64) -> (u32, bool) {
    if step == 0 {
        (100u32, false)
    } else if step == 1 {
        (200u32, false)
    } else if step == 2 {
        (300u32, false)
    } else if step == 3 {
        (500u32, true)
    } else {
        (333u32, (step - 4) % 16 == 15)
    }
}

/// The delay before print step `step` and whether it flushes raw lines.
pub fn print_cadence(step: u64) -> (r: (u32, bool))
    ensures
        r == print_cadence_spec(step),
{
    if step == 0 {
        (100, false)
    } else if step == 1 {
        (200, false)
    } else if step == 2 {
        (300, false)
    } else if step == 3 {
        (500, true)
    } else {
        (333, (step - 4) % 16 == 15)
    }
}

} // verus!
