//! What holds of the score of a tab.
use vstd::arithmetic::power2::*;
use vstd::prelude::*;

use crate::score::{
    decayed, law_score_explained, law_signals, tab_score, total, ContributionView,
};
use crate::single::{
    difference, from_integer, is_nearest, law_values_lie_close, lemma_from_integer_exact,
    lemma_magnitude_monotone, lemma_rounded, lemma_rounded_at_most, magnitude, product, quotient,
    rounded, Single, INFINITY, ONE, ZERO,
};
use crate::state::TabView;

verus! {

/// Whether there is a time stamp, and less than `ms` have passed since.
pub open spec fn younger(stamp: Option<u64>, now_ms: u64, ms: int) -> bool {
    stamp matches Some(ts_ms) && now_ms < ts_ms + ms
}

/// Whether there is a time stamp, and at most `ms` have passed since.
pub open spec fn not_older(stamp: Option<u64>, now_ms: u64, ms: int) -> bool {
    stamp matches Some(ts_ms) && now_ms <= ts_ms + ms
}

/// Whether a worker, a WebAssembly module or playback was started in the tab less than 30
/// seconds ago.
pub open spec fn computes(tab: TabView, now_ms: u64) -> bool {
    ||| younger(tab.last_worker_ms, now_ms, 30_000)
    ||| younger(tab.last_wasm_ms, now_ms, 30_000)
    ||| tab.last_media_state == Some("playing"@) && younger(tab.last_media_ms, now_ms, 30_000)
}

/// Whether the tab was reported hidden less than 10 seconds ago.
pub open spec fn lately_hidden(tab: TabView, now_ms: u64) -> bool {
    younger(tab.last_hidden_ms, now_ms, 10_000)
}

/// Whether the user has not been active in the tab for more than 15 seconds.
pub open spec fn untouched(tab: TabView, now_ms: u64) -> bool {
    !not_older(tab.last_user_activity_ms, now_ms, 15_000)
}

/// A score gives each reason exactly where it is due: by the time that has passed since the
/// last report of its kind, by where the user looks, and by the load. Its three findings are
/// no more than that.
pub proof fn law_reasons_are_due(
    tab: TabView,
    now_ms: u64,
    cpu_high: bool,
    active: bool,
    seen_recent: bool,
)
    ensures
        ({
            let score = tab_score(tab, now_ms, cpu_high, active, seen_recent);
            let gives = |reason: Seq<char>| score.reasons.contains(reason);
            &&& gives("tab_hidden"@) <==> lately_hidden(tab, now_ms)
            &&& gives("worker_created"@) <==> younger(tab.last_worker_ms, now_ms, 30_000)
            &&& gives("wasm_instantiate"@) <==> younger(tab.last_wasm_ms, now_ms, 30_000)
            &&& gives("media_playing"@) <==> tab.last_media_state == Some("playing"@) && younger(
                tab.last_media_ms,
                now_ms,
                30_000,
            )
            &&& gives("media_paused"@) <==> tab.last_media_state == Some("paused"@) && younger(
                tab.last_media_ms,
                now_ms,
                30_000,
            )
            &&& gives("idle"@) <==> untouched(tab, now_ms) && seen_recent && !active
            &&& gives("cpu_high_active"@) <==> cpu_high && active
            &&& gives("cpu_high_global"@) <==> cpu_high && !active && computes(tab, now_ms)
            &&& gives("correlation_bonus"@) <==> cpu_high && computes(tab, now_ms)
                && lately_hidden(tab, now_ms)
            &&& score.compute_present <==> computes(tab, now_ms)
            &&& score.hidden_present <==> lately_hidden(tab, now_ms)
            &&& score.idle_present <==> untouched(tab, now_ms) && seen_recent && !active
        }),
{
    law_signals(tab, now_ms, cpu_high, active, seen_recent);
    law_score_explained(tab, now_ms, cpu_high, active, seen_recent);
}

/// A score gives one reason for each contribution, under its name, and none twice.
pub proof fn law_reasons_name_contributions(
    tab: TabView,
    now_ms: u64,
    cpu_high: bool,
    active: bool,
    seen_recent: bool,
)
    ensures
        ({
            let score = tab_score(tab, now_ms, cpu_high, active, seen_recent);
            &&& score.reasons.len() == score.contributions.len()
            &&& forall|i: int|
                0 <= i < score.reasons.len() ==> #[trigger] score.reasons[i]
                    == score.contributions[i].name
            &&& score.reasons.no_duplicates()
            &&& score.score == total(score.contributions)
        }),
{
    law_score_explained(tab, now_ms, cpu_high, active, seen_recent);
}

/// Nothing else of a tab matters for its score than the time stamps of what happened in it,
/// and the state of its playback.
pub proof fn law_score_reads_stamps(
    tab: TabView,
    other: TabView,
    now_ms: u64,
    cpu_high: bool,
    active: bool,
    seen_recent: bool,
)
    requires
        tab.last_hidden_ms == other.last_hidden_ms,
        tab.last_worker_ms == other.last_worker_ms,
        tab.last_wasm_ms == other.last_wasm_ms,
        tab.last_media_ms == other.last_media_ms,
        tab.last_media_state == other.last_media_state,
        tab.last_user_activity_ms == other.last_user_activity_ms,
    ensures
        tab_score(tab, now_ms, cpu_high, active, seen_recent) == tab_score(
            other,
            now_ms,
            cpu_high,
            active,
            seen_recent,
        ),
{
}

/// The score of no contributions is zero, and each further one adds its weight: the sum is the
/// number nearest to what both stand for.
pub proof fn law_total_adds_up(parts: Seq<ContributionView>, part: ContributionView)
    ensures
        total(Seq::empty()) == ZERO,
        is_nearest(
            total(parts.push(part)),
            magnitude(total(parts) as int) + magnitude(part.weight as int),
            1,
        ),
{
    assert(parts.push(part).drop_last() =~= parts);
    lemma_rounded(magnitude(total(parts) as int) + magnitude(part.weight as int), 1);
}

/// Of what never happened, and of what happened longer ago than its window, nothing is left.
pub proof fn law_decay_of_nothing(ts_ms: u64, now_ms: u64, window_ms: u64, weight: Single)
    ensures
        decayed(None, now_ms, window_ms, weight) == ZERO,
        now_ms > ts_ms + window_ms ==> decayed(Some(ts_ms), now_ms, window_ms, weight) == ZERO,
{
}

/// What is left of a weight comes of three roundings: that of the share of the window that has
/// passed, that of the share that remains, and that of the remaining share of the weight. What
/// lies in the future has all of the window before it.
pub proof fn law_decay_rounds_three_times(ts_ms: u64, now_ms: u64, window_ms: u64, weight: Single)
    requires
        0 < window_ms,
        now_ms <= ts_ms + window_ms,
        weight < INFINITY,
    ensures
        ({
            let age = if now_ms >= ts_ms {
                (now_ms - ts_ms) as nat
            } else {
                0
            };
            let unit = pow2(149);
            let passed = rounded(
                magnitude(rounded(age * unit, 1) as int) * unit,
                magnitude(rounded(window_ms as nat * unit, 1) as int),
            );
            let remaining = rounded((unit - magnitude(passed as int)) as nat, 1);
            let left = rounded(magnitude(weight as int) * magnitude(remaining as int), unit);
            decayed(Some(ts_ms), now_ms, window_ms, weight) == left
        }),
{
    lemma_one_pattern();
}

proof fn lemma_one_pattern()
    ensures
        magnitude(ONE as int) == pow2(149),
{
    lemma2_to64();
    lemma_pow2_adds(23, 126);
}

/// The error of a rounding is at most half a step, and a step is small.
proof fn lemma_rounding_error(num: nat, den: nat, top: Single, bound: nat)
    requires
        den > 0,
        top < INFINITY,
        num <= den * magnitude(top as int),
        magnitude(top as int) <= bound,
    ensures
        ({
            let error = num - den * magnitude(rounded(num, den) as int);
            &&& rounded(num, den) <= top
            &&& error * 0x100_0000 <= den * (bound + 0x80_0000)
            &&& -error * 0x100_0000 <= den * (bound + 0x80_0000)
        }),
{
    lemma_rounded(num, den);
    lemma_rounded_at_most(top, num, den);
    let r = rounded(num, den);
    let m = magnitude(r as int);
    let up = magnitude(r + 1);
    lemma_magnitude_monotone(r as int, top as int);
    law_values_lie_close(r as int);
    let step = up - m;
    assert(step * 0x80_0000 <= bound + 0x80_0000);
    assert(2 * (num - den * m) <= den * step) by (nonlinear_arith)
        requires
            2 * num <= den * (m + up),
            step == up - m,
    ;
    assert(den * (step * 0x80_0000) <= den * (bound + 0x80_0000)) by (nonlinear_arith)
        requires
            step * 0x80_0000 <= bound + 0x80_0000,
    ;
    assert((den * step) * 0x80_0000 == den * (step * 0x80_0000)) by (nonlinear_arith);
    if r > 0 {
        let down = magnitude(r - 1);
        lemma_magnitude_monotone(r - 1, top as int);
        law_values_lie_close(r - 1);
        let fall = m - down;
        assert(2 * (den * m - num) <= den * fall) by (nonlinear_arith)
            requires
                den * (down + m) <= 2 * num,
                fall == m - down,
        ;
        assert(den * (fall * 0x80_0000) <= den * (bound + 0x80_0000)) by (nonlinear_arith)
            requires
                fall * 0x80_0000 <= bound + 0x80_0000,
        ;
        assert((den * fall) * 0x80_0000 == den * (fall * 0x80_0000)) by (nonlinear_arith);
    } else {
        assert(den * m == 0) by (nonlinear_arith)
            requires
                m == 0,
        ;
        assert(den * (bound + 0x80_0000) >= 0) by (nonlinear_arith);
    }
}

/// The errors of the three roundings add up to little.
proof fn lemma_errors_add_up(d: int, age: int, w: int, unit: int, q: int, r: int, l: int)
    requires
        d > 0,
        0 <= age <= d,
        w >= 0,
        unit >= 0x1_0000_0000,
        -(d * unit) <= (age * unit - d * q) * 0x80_0000 <= d * unit,
        -unit <= (unit - q - r) * 0x80_0000 <= unit,
        -(unit * (w + 0x80_0000)) <= (w * r - unit * l) * 0x100_0000 <= unit * (w + 0x80_0000),
    ensures
        -(d * (w + 0x10_0000)) <= (d * l - w * (d - age)) * 0x10_0000 <= d * (w + 0x10_0000),
{
    let e1 = age * unit - d * q;
    let e2 = unit - q - r;
    let e3 = w * r - unit * l;
    let x = d * l - w * (d - age);
    // How the errors make up the whole.
    assert(unit * x == -(d * e3) + w * (e1 - d * e2)) by {
        assert(d * e3 == d * (w * r) - d * (unit * l)) by (nonlinear_arith)
            requires
                e3 == w * r - unit * l,
        ;
        assert(w * e1 == w * (age * unit) - w * (d * q)) by (nonlinear_arith)
            requires
                e1 == age * unit - d * q,
        ;
        assert(d * e2 == d * unit - d * q - d * r) by (nonlinear_arith)
            requires
                e2 == unit - q - r,
        ;
        let de2 = d * e2;
        assert(w * de2 == w * (d * unit) - w * (d * q) - w * (d * r)) by (nonlinear_arith)
            requires
                de2 == d * unit - d * q - d * r,
        ;
        assert(w * (e1 - de2) == w * e1 - w * de2) by (nonlinear_arith);
        assert(w * (d - age) == w * d - w * age) by (nonlinear_arith);
        assert(unit * x == unit * (d * l) - unit * (w * d) + unit * (w * age)) by (nonlinear_arith)
            requires
                x == d * l - w * d + w * age,
        ;
        assert(d * (w * r) == w * (d * r)) by (nonlinear_arith);
        assert(d * (unit * l) == unit * (d * l)) by (nonlinear_arith);
        assert(w * (age * unit) == unit * (w * age)) by (nonlinear_arith);
        assert(w * (d * unit) == unit * (w * d)) by (nonlinear_arith);
    }
    let f = e1 - d * e2;
    assert(-(2 * (d * unit)) <= f * 0x80_0000 <= 2 * (d * unit)) by {
        assert(-(d * unit) <= (d * e2) * 0x80_0000 <= d * unit) by (nonlinear_arith)
            requires
                d > 0,
                -unit <= e2 * 0x80_0000 <= unit,
        ;
    }
    assert(-(2 * (w * (d * unit))) <= (w * f) * 0x80_0000 <= 2 * (w * (d * unit))) by (nonlinear_arith)
        requires
            w >= 0,
            -(2 * (d * unit)) <= f * 0x80_0000 <= 2 * (d * unit),
    ;
    let t = unit * (w + 0x80_0000);
    assert(-(d * t) <= (d * e3) * 0x100_0000 <= d * t) by (nonlinear_arith)
        requires
            d > 0,
            -t <= e3 * 0x100_0000 <= t,
    ;
    let whole = d * t + 4 * (w * (d * unit));
    assert(-whole <= (unit * x) * 0x100_0000 <= whole);
    let y = d * (5 * w + 0x80_0000);
    assert(whole == unit * y) by (nonlinear_arith)
        requires
            whole == d * (unit * (w + 0x80_0000)) + 4 * (w * (d * unit)),
            y == d * (5 * w + 0x80_0000),
    ;
    assert(-y <= x * 0x100_0000 <= y) by (nonlinear_arith)
        requires
            unit > 0,
            -(unit * y) <= (unit * x) * 0x100_0000 <= unit * y,
    ;
    assert(y <= 16 * (d * (w + 0x10_0000))) by (nonlinear_arith)
        requires
            y == d * (5 * w + 0x80_0000),
            d > 0,
            w >= 0,
    ;
}

/// What is left of a weight is its share, as large as the part of the window that is still to
/// come. (Rounding takes away or adds less than one part in two to the power of 20 of the
/// weight, or less than the smallest number.)
pub proof fn law_decay_is_the_share(ts_ms: u64, now_ms: u64, window_ms: u64, weight: Single)
    requires
        0 < window_ms < 0x100_0000,
        ts_ms <= now_ms <= ts_ms + window_ms,
        weight < INFINITY,
    ensures
        ({
            let to_come = ts_ms + window_ms - now_ms;
            let w = magnitude(weight as int);
            let left = magnitude(decayed(Some(ts_ms), now_ms, window_ms, weight) as int);
            let error = window_ms * left - w * to_come;
            -(window_ms * (w + 0x10_0000)) <= error * 0x10_0000 <= window_ms * (w + 0x10_0000)
        }),
{
    let age = (now_ms - ts_ms) as nat;
    let d = window_ms as nat;
    let unit = pow2(149);
    let w = magnitude(weight as int);
    lemma_one_pattern();
    lemma2_to64();
    lemma_pow2_adds(32, 117);
    lemma_pow2_pos(117);
    assert(unit >= 0x1_0000_0000);
    lemma_from_integer_exact(age);
    lemma_from_integer_exact(d);
    let a = from_integer(age);
    let b = from_integer(d);
    let passed = quotient(a, b);
    let remaining = difference(ONE, passed);
    let q = magnitude(passed as int);
    let r = magnitude(remaining as int);
    let num = magnitude(a as int) * unit;
    let den = magnitude(b as int);
    assert(den > 0 && num <= den * unit) by (nonlinear_arith)
        requires
            num == (age * unit) * unit,
            den == d * unit,
            age <= d,
            d > 0,
            unit > 0,
    ;
    lemma_rounding_error(num, den, ONE, unit);
    let e1 = age * unit - d * q;
    assert(num - den * q == unit * e1) by (nonlinear_arith)
        requires
            num == (age * unit) * unit,
            den == d * unit,
            e1 == age * unit - d * q,
    ;
    assert(-(d * unit) <= e1 * 0x80_0000 <= d * unit) by (nonlinear_arith)
        requires
            (unit * e1) * 0x100_0000 <= den * (unit + 0x80_0000),
            -(unit * e1) * 0x100_0000 <= den * (unit + 0x80_0000),
            den == d * unit,
            unit >= 0x1_0000_0000,
            d > 0,
    ;
    lemma_magnitude_monotone(passed as int, ONE as int);
    lemma_rounding_error((unit - q) as nat, 1, ONE, unit);
    assert(1 * r == r);
    assert(-unit <= (unit - q - r) * 0x80_0000 <= unit);
    lemma_magnitude_monotone(remaining as int, ONE as int);
    assert(w * r <= unit * w) by (nonlinear_arith)
        requires
            r <= unit,
            w >= 0,
    ;
    lemma_rounding_error(w * r, unit, weight, w);
    let l = magnitude(product(weight, remaining) as int);
    lemma_errors_add_up(d as int, age as int, w as int, unit as int, q as int, r as int, l as int);
}

} // verus!
