//! The lines of the terminal dashboard.
use vstd::prelude::*;
use vstd::string::*;

use crate::event::{EventSummary, SummaryView};
use crate::score::texts;
use crate::snapshot::{DashboardSnapshot, OriginSnapshot, OriginView, SnapshotView};

verus! {

/// How many origins, and how many events, the terminal shows.
pub const TERMINAL_ROWS: usize = 5;

/// A decimal digit.
pub open spec fn digit(d: nat) -> char {
    ('0' as u32 + d) as char
}

/// A number in decimal notation.
pub open spec fn decimal(n: nat) -> Seq<char>
    decreases n,
{
    if n < 10 {
        seq![digit(n)]
    } else {
        decimal(n / 10).push(digit(n % 10))
    }
}

/// The texts, one after the other, with `separator` between them.
pub open spec fn joined(parts: Seq<Seq<char>>, separator: Seq<char>) -> Seq<char>
    decreases parts.len(),
{
    if parts.len() == 0 {
        Seq::empty()
    } else if parts.len() == 1 {
        parts[0]
    } else {
        joined(parts.drop_last(), separator) + separator + parts.last()
    }
}

/// How many of `n` rows are shown.
pub open spec fn rows(n: nat) -> nat {
    if n < TERMINAL_ROWS {
        n
    } else {
        TERMINAL_ROWS as nat
    }
}

/// A truth value as text.
pub open spec fn truth(b: bool) -> Seq<char> {
    if b {
        "true"@
    } else {
        "false"@
    }
}

/// The line on the system.
pub open spec fn system_line(snapshot: SnapshotView, cpu_text: Seq<char>) -> Seq<char> {
    "CPU: "@ + cpu_text + "% | Global High: "@ + truth(snapshot.cpu_high) + " | Active High: "@
        + truth(snapshot.cpu_high_active) + " | Now: "@ + decimal(snapshot.now_ms as nat)
}

/// The reasons for a score.
pub open spec fn reasons_text(reasons: Seq<Seq<char>>) -> Seq<char> {
    if reasons.len() == 0 {
        "none"@
    } else {
        joined(reasons, ", "@)
    }
}

/// The line on an origin.
pub open spec fn origin_line(origin: OriginView, score_text: Seq<char>) -> Seq<char> {
    "Origin: "@ + origin.origin + " | Score: "@ + score_text + " | Reasons: "@ + reasons_text(
        origin.reasons,
    )
}

/// The line on an event. What happened in no page happened in the system.
pub open spec fn event_line(event: SummaryView) -> Seq<char> {
    " - "@ + event.event_type + " @ "@ + match event.origin {
        Some(origin) => origin,
        None => "system"@,
    }
}

/// The line on the active origin, if there is one.
pub open spec fn active_lines(snapshot: SnapshotView) -> Seq<Seq<char>> {
    match snapshot.active_origin {
        Some(origin) => seq!["Active origin: "@ + origin],
        None => Seq::empty(),
    }
}

/// The lines on the origins that score most.
pub open spec fn origin_lines(snapshot: SnapshotView, score_texts: Seq<Seq<char>>) -> Seq<Seq<char>> {
    if snapshot.origins.len() == 0 {
        seq!["No origins tracked yet."@]
    } else {
        Seq::new(
            rows(snapshot.origins.len()),
            |i: int| origin_line(snapshot.origins[i], score_texts[i]),
        )
    }
}

/// The lines on the latest events, latest first.
pub open spec fn event_lines(snapshot: SnapshotView) -> Seq<Seq<char>> {
    Seq::new(
        rows(snapshot.last_events.len()),
        |i: int| event_line(snapshot.last_events[snapshot.last_events.len() - 1 - i]),
    )
}

/// All lines.
pub open spec fn dashboard_lines(
    snapshot: SnapshotView,
    cpu_text: Seq<char>,
    score_texts: Seq<Seq<char>>,
) -> Seq<Seq<char>> {
    seq!["---- Hybrid Security Monitor ----"@, system_line(snapshot, cpu_text)] + active_lines(
        snapshot,
    ) + origin_lines(snapshot, score_texts) + seq!["Last events:"@] + event_lines(snapshot)
}

/// A decimal digit.
fn digit_text(d: u64) -> (text: &'static str)
    requires
        d < 10,
    ensures
        text@ == seq![digit(d as nat)],
{
    proof {
        reveal_strlit("0");
        reveal_strlit("1");
        reveal_strlit("2");
        reveal_strlit("3");
        reveal_strlit("4");
        reveal_strlit("5");
        reveal_strlit("6");
        reveal_strlit("7");
        reveal_strlit("8");
        reveal_strlit("9");
    }
    let text: &'static str = match d {
        0 => "0",
        1 => "1",
        2 => "2",
        3 => "3",
        4 => "4",
        5 => "5",
        6 => "6",
        7 => "7",
        8 => "8",
        _ => "9",
    };
    assert(text@ =~= seq![digit(d as nat)]);
    text
}

/// A number in decimal notation.
pub fn decimal_text(n: u64) -> (text: String)
    ensures
        text@ == decimal(n as nat),
    decreases n,
{
    if n < 10 {
        digit_text(n).to_owned()
    } else {
        let mut text = decimal_text(n / 10);
        text.append(digit_text(n % 10));
        assert(text@ =~= decimal(n as nat));
        text
    }
}

/// The reasons for a score.
pub fn format_reasons(reasons: &Vec<String>) -> (text: String)
    ensures
        text@ == reasons_text(texts(reasons@)),
{
    if reasons.len() == 0 {
        return "none".to_owned();
    }
    let ghost parts = texts(reasons@);
    let mut text = reasons[0].clone();
    let mut i: usize = 1;
    assert(parts.take(1) =~= seq![parts[0]]);
    while i < reasons.len()
        invariant
            1 <= i <= reasons.len(),
            parts == texts(reasons@),
            text@ == joined(parts.take(i as int), ", "@),
        decreases reasons.len() - i,
    {
        assert(parts.take(i + 1).drop_last() =~= parts.take(i as int));
        text.append(", ");
        text.append(reasons[i].as_str());
        i = i + 1;
    }
    assert(parts.take(i as int) =~= parts);
    text
}

/// A truth value as text.
fn truth_text(b: bool) -> (text: &'static str)
    ensures
        text@ == truth(b),
{
    if b {
        "true"
    } else {
        "false"
    }
}

/// The line on the system.
fn format_system(snapshot: &DashboardSnapshot, cpu_text: &str) -> (line: String)
    ensures
        line@ == system_line(snapshot@, cpu_text@),
{
    let mut line = "CPU: ".to_owned();
    line.append(cpu_text);
    line.append("% | Global High: ");
    line.append(truth_text(snapshot.cpu_high));
    line.append(" | Active High: ");
    line.append(truth_text(snapshot.cpu_high_active));
    line.append(" | Now: ");
    let now = decimal_text(snapshot.now_ms);
    line.append(now.as_str());
    line
}

/// The line on an origin.
fn format_origin(origin: &OriginSnapshot, score_text: &str) -> (line: String)
    ensures
        line@ == origin_line(origin@, score_text@),
{
    let mut line = "Origin: ".to_owned();
    line.append(origin.origin.as_str());
    line.append(" | Score: ");
    line.append(score_text);
    line.append(" | Reasons: ");
    let reasons = format_reasons(&origin.reasons);
    line.append(reasons.as_str());
    line
}

/// The line on an event.
fn format_event(event: &EventSummary) -> (line: String)
    ensures
        line@ == event_line(event@),
{
    let mut line = " - ".to_owned();
    line.append(event.event_type.as_str());
    line.append(" @ ");
    match &event.origin {
        Some(origin) => line.append(origin.as_str()),
        None => line.append("system"),
    }
    line
}

/// The lines of the terminal dashboard. The texts of the load and of the scores come from
/// the caller.
pub fn terminal_lines(snapshot: &DashboardSnapshot, cpu_text: &str, score_texts: &Vec<String>) -> (lines:
    Vec<String>)
    requires
        rows(snapshot.origins@.len()) <= score_texts.len(),
    ensures
        texts(lines@) == dashboard_lines(snapshot@, cpu_text@, texts(score_texts@)),
{
    let ghost view = snapshot@;
    let ghost scores = texts(score_texts@);
    let mut lines: Vec<String> = Vec::new();
    lines.push("---- Hybrid Security Monitor ----".to_owned());
    lines.push(format_system(snapshot, cpu_text));
    let ghost head = seq![
        "---- Hybrid Security Monitor ----"@,
        system_line(view, cpu_text@),
    ] + active_lines(view);
    if let Some(active) = &snapshot.active_origin {
        let mut line = "Active origin: ".to_owned();
        line.append(active.as_str());
        lines.push(line);
    }
    assert(texts(lines@) =~= head);
    if snapshot.origins.len() == 0 {
        lines.push("No origins tracked yet.".to_owned());
    } else {
        let mut i: usize = 0;
        while i < TERMINAL_ROWS && i < snapshot.origins.len()
            invariant
                view == snapshot@,
                scores == texts(score_texts@),
                view.origins.len() == snapshot.origins.len() > 0,
                rows(view.origins.len()) <= score_texts.len(),
                i <= rows(view.origins.len()),
                texts(lines@) == head + origin_lines(view, scores).take(i as int),
            decreases rows(view.origins.len()) - i,
        {
            let ghost before = texts(lines@);
            lines.push(format_origin(&snapshot.origins[i], score_texts[i].as_str()));
            assert(texts(lines@) =~= before.push(origin_line(view.origins[i as int], scores[i as int])));
            assert(texts(lines@) =~= head + origin_lines(view, scores).take(i + 1));
            i = i + 1;
        }
        assert(origin_lines(view, scores).take(i as int) =~= origin_lines(view, scores));
    }
    let ghost middle = head + origin_lines(view, scores) + seq!["Last events:"@];
    lines.push("Last events:".to_owned());
    assert(texts(lines@) =~= middle);
    let mut i: usize = 0;
    while i < TERMINAL_ROWS && i < snapshot.last_events.len()
        invariant
            view == snapshot@,
            view.last_events.len() == snapshot.last_events.len(),
            i <= rows(view.last_events.len()),
            texts(lines@) == middle + event_lines(view).take(i as int),
        decreases rows(view.last_events.len()) - i,
    {
        let ghost before = texts(lines@);
        let at: usize = snapshot.last_events.len() - 1 - i;
        lines.push(format_event(&snapshot.last_events[at]));
        assert(texts(lines@) =~= before.push(event_line(view.last_events[at as int])));
        assert(texts(lines@) =~= middle + event_lines(view).take(i + 1));
        i = i + 1;
    }
    assert(event_lines(view).take(i as int) =~= event_lines(view));
    lines
}

} // verus!
