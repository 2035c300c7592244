//! What holds of texts: those that are searched, and those that the terminal shows.
use serde_json::Value;
use vstd::prelude::*;

use crate::schema::{minus_zero, patterned, refers, rendered, repeatable};
use crate::snapshot::SnapshotView;
use crate::terminal::{
    active_lines, dashboard_lines, decimal, event_lines, joined, origin_lines, reasons_text,
    system_line,
};
use crate::text::{occurs, occurs_at};

verus! {

/// A part occurs in a text exactly if the text is made of something, the part, and something
/// else.
pub proof fn law_occurs(text: Seq<char>, part: Seq<char>)
    ensures
        occurs(text, part) <==> exists|before: Seq<char>, after: Seq<char>|
            text == #[trigger] (before + part + after),
{
    if occurs(text, part) {
        let start = choose|start: int| occurs_at(text, part, start);
        let before = text.subrange(0, start);
        let after = text.subrange(start + part.len(), text.len() as int);
        assert(text =~= before + part + after);
    }
    if exists|before: Seq<char>, after: Seq<char>| text == #[trigger] (before + part + after) {
        let (before, after): (Seq<char>, Seq<char>) = choose|before: Seq<char>, after: Seq<char>|
            text == #[trigger] (before + part + after);
        let start = before.len() as int;
        assert(text.subrange(start, start + part.len()) =~= part);
        assert(occurs_at(text, part, start));
    }
}

/// Whether a text is made of something, the part, and something else.
pub open spec fn made_with(text: Seq<char>, part: Seq<char>) -> bool {
    exists|before: Seq<char>, after: Seq<char>| text == #[trigger] (before + part + after)
}

/// What a schema's document may not hold is found wherever it stands in it, and only there.
pub proof fn law_schema_words_are_found(document: Value)
    ensures
        refers(document) <==> made_with(rendered(document), "\"$ref\""@),
        patterned(document) <==> made_with(rendered(document), "\"pattern\""@) || made_with(
            rendered(document),
            "\"patternProperties\""@,
        ) || made_with(rendered(document), "\"regex\""@),
        minus_zero(document) <==> made_with(rendered(document), "-0.0"@),
{
    let text = rendered(document);
    law_occurs(text, "\"$ref\""@);
    law_occurs(text, "\"pattern\""@);
    law_occurs(text, "\"patternProperties\""@);
    law_occurs(text, "\"regex\""@);
    law_occurs(text, "-0.0"@);
}

/// What a schema objects to in a value is always the same, unless it wants items to differ and
/// minus zero stands in the value, or it wants multiples and numbers are written with
/// exponents.
pub proof fn law_objections_repeat(document: Value, value: Value)
    requires
        !made_with(rendered(document), "\"uniqueItems\""@) || !made_with(rendered(value), "-0.0"@),
        !made_with(rendered(document), "\"multipleOf\""@) || (!made_with(
            rendered(document),
            "e-2"@,
        ) && !made_with(rendered(document), "e-3"@) && !made_with(rendered(value), "e+"@)),
    ensures
        repeatable(document, value),
{
    law_occurs(rendered(document), "\"uniqueItems\""@);
    law_occurs(rendered(value), "-0.0"@);
    law_occurs(rendered(document), "\"multipleOf\""@);
    law_occurs(rendered(document), "e-2"@);
    law_occurs(rendered(document), "e-3"@);
    law_occurs(rendered(value), "e+"@);
}

/// The number that a text of digits stands for.
pub open spec fn number_in(text: Seq<char>) -> int
    decreases text.len(),
{
    if text.len() == 0 {
        0
    } else {
        number_in(text.drop_last()) * 10 + (text.last() as u32 - '0' as u32)
    }
}

/// A number in decimal notation stands for that number. It is made of digits, and begins with
/// zero only where it is zero.
pub proof fn law_decimal(n: nat)
    ensures
        number_in(decimal(n)) == n,
        decimal(n).len() > 0,
        forall|i: int| 0 <= i < decimal(n).len() ==> '0' <= #[trigger] decimal(n)[i] <= '9',
        decimal(n)[0] == '0' ==> decimal(n).len() == 1,
    decreases n,
{
    let text = decimal(n);
    if n < 10 {
        assert(text.drop_last() =~= Seq::empty());
        assert(number_in(text.drop_last()) == 0);
    } else {
        law_decimal(n / 10);
        assert(text.drop_last() =~= decimal(n / 10));
        assert(text[0] == decimal(n / 10)[0]);
        if decimal(n / 10)[0] == '0' {
            assert(decimal(n / 10) =~= seq!['0']);
            assert(decimal(n / 10).drop_last() =~= Seq::empty());
            assert(number_in(decimal(n / 10).drop_last()) == 0);
            assert(number_in(decimal(n / 10)) == 0);
        }
    }
}

/// Texts are joined one after the other, each separated from the one before it. Without
/// reasons, "none" is shown.
pub proof fn law_joined(parts: Seq<Seq<char>>, part: Seq<char>, separator: Seq<char>)
    ensures
        joined(seq![part], separator) == part,
        parts.len() > 0 ==> joined(parts.push(part), separator) == joined(parts, separator)
            + separator + part,
        reasons_text(Seq::empty()) == "none"@,
        parts.len() > 0 ==> reasons_text(parts) == joined(parts, ", "@),
{
    assert(parts.push(part).drop_last() =~= parts);
}

/// How many lines there are: at most five origins, or one line if there is none, and at most
/// five events.
pub open spec fn at_most_five(n: nat) -> int {
    if n < 5 {
        n as int
    } else {
        5
    }
}

/// Whether a truth value is written as this text.
pub open spec fn written(b: bool) -> Seq<char> {
    if b {
        "true"@
    } else {
        "false"@
    }
}

/// In which line the origins begin: behind the title, the system, and the active origin, if
/// there is one.
pub open spec fn first_origin_line(snapshot: SnapshotView) -> int {
    if snapshot.active_origin is Some {
        3
    } else {
        2
    }
}

/// In which line the events are announced.
pub open spec fn events_title_line(snapshot: SnapshotView) -> int {
    first_origin_line(snapshot) + if snapshot.origins.len() == 0 {
        1
    } else {
        at_most_five(snapshot.origins.len())
    }
}

/// The terminal shows the title, the system, the active origin, at most five origins from the
/// first on, and at most five events from the latest on, each in its line.
pub proof fn law_lines(snapshot: SnapshotView, cpu_text: Seq<char>, score_texts: Seq<Seq<char>>)
    ensures
        ({
            let lines = dashboard_lines(snapshot, cpu_text, score_texts);
            let first = first_origin_line(snapshot);
            let title = events_title_line(snapshot);
            &&& lines.len() == title + 1 + at_most_five(snapshot.last_events.len())
            &&& lines[0] == "---- Hybrid Security Monitor ----"@
            &&& lines[1] == "CPU: "@ + cpu_text + "% | Global High: "@ + written(snapshot.cpu_high)
                + " | Active High: "@ + written(snapshot.cpu_high_active) + " | Now: "@ + decimal(
                snapshot.now_ms as nat,
            )
            &&& snapshot.active_origin matches Some(origin) ==> lines[2] == "Active origin: "@
                + origin
            &&& snapshot.origins.len() == 0 ==> lines[first] == "No origins tracked yet."@
            &&& forall|i: int|
                0 <= i < at_most_five(snapshot.origins.len()) ==> #[trigger] lines[first + i]
                    == "Origin: "@ + snapshot.origins[i].origin + " | Score: "@ + score_texts[i]
                    + " | Reasons: "@ + reasons_text(snapshot.origins[i].reasons)
            &&& lines[title] == "Last events:"@
            &&& forall|i: int|
                0 <= i < at_most_five(snapshot.last_events.len()) ==> {
                    let event = snapshot.last_events[snapshot.last_events.len() - 1 - i];
                    #[trigger] lines[title + 1 + i] == " - "@ + event.event_type + " @ "@ + (
                    if event.origin is Some {
                        event.origin->0
                    } else {
                        "system"@
                    })
                }
        }),
{
    let lines = dashboard_lines(snapshot, cpu_text, score_texts);
    let head = seq!["---- Hybrid Security Monitor ----"@, system_line(snapshot, cpu_text)];
    let active = active_lines(snapshot);
    let origins = origin_lines(snapshot, score_texts);
    let events = event_lines(snapshot);
    let first = first_origin_line(snapshot);
    let title = events_title_line(snapshot);
    assert(active.len() == first - 2);
    assert(origins.len() == title - first);
    assert(lines[0] == head[0] && lines[1] == head[1]);
    assert(forall|i: int|
        0 <= i < origins.len() ==> #[trigger] lines[first + i] == origins[i]);
    assert(lines[title] == "Last events:"@);
    assert(forall|i: int|
        0 <= i < events.len() ==> #[trigger] lines[title + 1 + i] == events[i]);
    if snapshot.origins.len() == 0 {
        assert(lines[first + 0] == origins[0]);
    }
}

} // verus!
