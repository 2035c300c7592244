//! What holds of the CPU load of the browser.
use vstd::arithmetic::power2::*;
use vstd::prelude::*;

use crate::alert::AlertView;
use crate::cpu::{browser_load, load_handled, names_browser, sample_is_high, ProcessLoad};
use crate::single::{
    is_no_number, law_signed_sum_with_zero, lemma_magnitude_monotone, magnitude, signed_sum,
};
use crate::state::StateView;
use crate::text::{lowercase, occurs, occurs_at};

verus! {

/// A sample is high where it is a number of at least 25, be it infinite.
pub proof fn law_sample_is_high_from_25(cpu_pct: u32)
    ensures
        sample_is_high(cpu_pct) <==> cpu_pct <= 0x7f80_0000 && magnitude(cpu_pct as int) >= 25 * pow2(
            149,
        ),
{
    lemma2_to64();
    lemma_pow2_adds(19, 130);
    assert(magnitude(0x41c8_0000) == 0xc8_0000 * pow2(130));
    assert(0xc8_0000 * pow2(130) == 25 * (0x8_0000 * pow2(130))) by (nonlinear_arith);
    if cpu_pct >= 0x41c8_0000 {
        lemma_magnitude_monotone(0x41c8_0000, cpu_pct as int);
    } else {
        lemma_magnitude_monotone(cpu_pct as int, 0x41c8_0000);
    }
}

/// A sample is kept as the latest one. The load counts as high from the first high sample on,
/// until one is not high. Tabs are not touched.
pub proof fn law_sample_is_kept(
    before: StateView,
    cpu_pct: u32,
    ts_ms: u64,
    alerts: Seq<AlertView>,
    after: StateView,
)
    requires
        load_handled(before, cpu_pct, ts_ms, alerts, after),
    ensures
        after.last_cpu_pct == cpu_pct,
        ({
            let high = 0x41c8_0000 <= cpu_pct <= 0x7f80_0000;
            &&& !high ==> after.cpu_high_since_ms is None
            &&& high && before.cpu_high_since_ms is None ==> after.cpu_high_since_ms == Some(ts_ms)
            &&& high && before.cpu_high_since_ms is Some ==> after.cpu_high_since_ms
                == before.cpu_high_since_ms
        }),
        after.tabs == before.tabs,
        after.active_tab_id == before.active_tab_id,
{
}

/// Whether a character is this small letter, or the capital for it.
pub open spec fn is_letter(c: char, letter: char) -> bool {
    c == letter || 'A' <= c <= 'Z' && c as u32 + 32 == letter as u32
}

/// Whether the word stands in the name from `start` on, in small letters or capitals.
pub open spec fn spelled_at(name: Seq<char>, start: int, word: Seq<char>) -> bool {
    &&& 0 <= start
    &&& start + word.len() <= name.len()
    &&& forall|k: int| 0 <= k < word.len() ==> is_letter(#[trigger] name[start + k], word[k])
}

/// Whether a process with this name is one of Chrome or Chromium.
pub open spec fn is_chrome(name: Seq<char>) -> bool {
    ||| exists|start: int| spelled_at(name, start, "chrome"@)
    ||| exists|start: int| spelled_at(name, start, "chromium"@)
}

/// A word of small letters occurs in a name in small letters exactly where it is spelled.
proof fn lemma_spelled(name: Seq<char>, word: Seq<char>)
    requires
        forall|k: int| 0 <= k < word.len() ==> 'a' <= #[trigger] word[k] <= 'z',
    ensures
        occurs(name.map_values(|c: char| lowercase(c)), word) <==> exists|start: int|
            spelled_at(name, start, word),
{
    let lowered = name.map_values(|c: char| lowercase(c));
    assert forall|start: int| occurs_at(lowered, word, start) <==> spelled_at(
        name,
        start,
        word,
    ) by {
        if 0 <= start && start + word.len() <= name.len() {
            let part = lowered.subrange(start, start + word.len());
            assert forall|k: int| 0 <= k < word.len() implies (part[k] == word[k] <==> is_letter(
                #[trigger] name[start + k],
                word[k],
            )) by {
                assert(part[k] == lowercase(name[start + k]));
                assert('a' <= word[k] <= 'z');
            }
            if spelled_at(name, start, word) {
                assert forall|k: int| 0 <= k < word.len() implies part[k] == word[k] by {
                    assert(is_letter(name[start + k], word[k]));
                }
                assert(part =~= word);
            }
            if part == word {
                assert forall|k: int| 0 <= k < word.len() implies is_letter(
                    #[trigger] name[start + k],
                    word[k],
                ) by {
                    assert(part[k] == word[k]);
                }
            }
        }
    }
    if occurs(lowered, word) {
        let start = choose|start: int| occurs_at(lowered, word, start);
        assert(spelled_at(name, start, word));
    }
    if exists|start: int| spelled_at(name, start, word) {
        let start = choose|start: int| spelled_at(name, start, word);
        assert(occurs_at(lowered, word, start));
    }
}

/// The browser's processes are those with "chrome" or with "chromium" in their names, in small
/// letters or capitals.
pub proof fn law_names_of_the_browser(name: Seq<char>)
    ensures
        names_browser(name) <==> is_chrome(name),
{
    reveal_strlit("chrome");
    reveal_strlit("chromium");
    lemma_spelled(name, "chrome"@);
    lemma_spelled(name, "chromium"@);
}

/// Without processes the load is minus zero. A process of the browser that comes last adds its
/// load to that of those before it.
pub proof fn law_load_adds_up(processes: Seq<ProcessLoad>, process: ProcessLoad)
    ensures
        browser_load(Seq::empty()) == 0x8000_0000,
        is_chrome(process.name@) ==> browser_load(processes.push(process)) == signed_sum(
            browser_load(processes),
            process.cpu_usage,
        ),
        !is_chrome(process.name@) ==> browser_load(processes.push(process)) == browser_load(
            processes,
        ),
{
    law_names_of_the_browser(process.name@);
    assert(processes.push(process).drop_last() =~= processes);
}

/// The load of a single process of the browser is that of the process.
pub proof fn law_load_of_one(process: ProcessLoad)
    requires
        is_chrome(process.name@),
        !is_no_number(process.cpu_usage),
    ensures
        browser_load(seq![process]) == process.cpu_usage,
{
    law_load_adds_up(Seq::empty(), process);
    assert(Seq::<ProcessLoad>::empty().push(process) =~= seq![process]);
    law_signed_sum_with_zero(0x8000_0000, process.cpu_usage);
}

/// Other processes do not matter: without one of them, the load is the same.
pub proof fn law_load_passes_over_others(processes: Seq<ProcessLoad>, i: int)
    requires
        0 <= i < processes.len(),
        !is_chrome(processes[i].name@),
    ensures
        browser_load(processes.remove(i)) == browser_load(processes),
    decreases processes.len(),
{
    let rest = processes.drop_last();
    let last = processes.last();
    assert(processes =~= rest.push(last));
    law_load_adds_up(rest, last);
    if i < rest.len() {
        law_load_passes_over_others(rest, i);
        assert(processes.remove(i) =~= rest.remove(i).push(last));
        law_load_adds_up(rest.remove(i), last);
    } else {
        assert(processes.remove(i) =~= rest);
    }
}

} // verus!
