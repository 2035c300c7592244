//! How suspicious a tab is.
use vstd::arithmetic::power2::*;
use vstd::prelude::*;

use crate::clock::age_ms;
use crate::single::{
    absolute, difference, from_integer, lemma_fraction, lemma_from_integer_exact,
    lemma_magnitude_monotone, lemma_rounded, lemma_rounded_at_least, lemma_rounded_at_most,
    lemma_rounded_exact, lemma_rounded_monotone, magnitude, minus, of_u64, over, plus, quotient,
    reaches, rounded, signed_product, sum, times_signed, Single, INFINITY, NEGATIVE_ZERO,
    NOT_A_NUMBER, ONE, ZERO,
};
use crate::state::{TabState, TabView};
use crate::text::optional_reads;

verus! {

/// For how long the start of a worker counts.
pub const WORKER_RECENT_MS: u64 = 30_000;

/// For how long the start of a WebAssembly module counts.
pub const WASM_RECENT_MS: u64 = 30_000;

/// For how long media playback counts.
pub const MEDIA_RECENT_MS: u64 = 30_000;

/// For how long it counts that a tab was hidden.
pub const HIDDEN_RECENT_MS: u64 = 10_000;

/// A user who has done nothing for longer than this is idle.
pub const IDLE_MS: u64 = 15_000;

/// 0.1
pub const WEIGHT_HIDDEN: Single = 0x3dcc_cccd;

/// 0.4
pub const WEIGHT_WORKER: Single = 0x3ecc_cccd;

/// 0.5
pub const WEIGHT_WASM: Single = 0x3f00_0000;

/// 0.3
pub const WEIGHT_MEDIA_PLAYING: Single = 0x3e99_999a;

/// 0.05
pub const WEIGHT_MEDIA_PAUSED: Single = 0x3d4c_cccd;

/// 0.1
pub const WEIGHT_IDLE: Single = 0x3dcc_cccd;

/// 0.8
pub const WEIGHT_CPU_HIGH_ACTIVE: Single = 0x3f4c_cccd;

/// 0.5
pub const WEIGHT_CPU_HIGH_GLOBAL: Single = 0x3f00_0000;

/// 0.4
pub const WEIGHT_CORRELATION_BONUS: Single = 0x3ecc_cccd;

/// A part of a score.
#[derive(Debug)]
pub struct ScoreContribution {
    pub name: String,
    pub weight: Single,
}

/// The contents of a `ScoreContribution`.
pub struct ContributionView {
    pub name: Seq<char>,
    pub weight: Single,
}

impl View for ScoreContribution {
    type V = ContributionView;

    open spec fn view(&self) -> ContributionView {
        ContributionView { name: self.name@, weight: self.weight }
    }
}

/// The score of a tab, with what it is made of.
#[derive(Debug)]
pub struct OriginScore {
    pub score: Single,
    pub reasons: Vec<String>,
    pub contributions: Vec<ScoreContribution>,
    pub compute_present: bool,
    pub hidden_present: bool,
    pub idle_present: bool,
}

/// The contents of an `OriginScore`.
#[verifier::ext_equal]
pub struct ScoreView {
    pub score: Single,
    pub reasons: Seq<Seq<char>>,
    pub contributions: Seq<ContributionView>,
    pub compute_present: bool,
    pub hidden_present: bool,
    pub idle_present: bool,
}

/// The texts of some strings.
pub open spec fn texts(strings: Seq<String>) -> Seq<Seq<char>> {
    strings.map_values(|string: String| string@)
}

/// The contents of some contributions.
pub open spec fn contribution_views(contributions: Seq<ScoreContribution>) -> Seq<
    ContributionView,
> {
    contributions.map_values(|contribution: ScoreContribution| contribution@)
}

impl View for OriginScore {
    type V = ScoreView;

    open spec fn view(&self) -> ScoreView {
        ScoreView {
            score: self.score,
            reasons: texts(self.reasons@),
            contributions: contribution_views(self.contributions@),
            compute_present: self.compute_present,
            hidden_present: self.hidden_present,
            idle_present: self.idle_present,
        }
    }
}

/// What is left of `weight`, which may be any pattern, of an event that happened at `ts_ms`:
/// the share of the window that is still to come. Of a window that has no length there is no
/// such share.
pub open spec fn decayed(ts_ms: Option<u64>, now_ms: u64, window_ms: u64, weight: Single) -> Single {
    match ts_ms {
        Some(ts_ms) => {
            let age = age_ms(ts_ms, now_ms);
            if age > window_ms {
                ZERO
            } else if window_ms == 0 {
                NOT_A_NUMBER
            } else {
                let elapsed = quotient(from_integer(age), from_integer(window_ms as nat));
                signed_product(weight, difference(ONE, elapsed))
            }
        },
        None => ZERO,
    }
}

/// The contribution, if it weighs anything.
pub open spec fn contribution(name: Seq<char>, weight: Single) -> Seq<ContributionView> {
    if weight > ZERO {
        seq![ContributionView { name, weight }]
    } else {
        Seq::empty()
    }
}

/// The single-precision sum of the weights, from the first to the last.
pub open spec fn total(contributions: Seq<ContributionView>) -> Single
    decreases contributions.len(),
{
    if contributions.len() == 0 {
        ZERO
    } else {
        sum(total(contributions.drop_last()), contributions.last().weight)
    }
}

/// The names of the contributions.
pub open spec fn names(contributions: Seq<ContributionView>) -> Seq<Seq<char>> {
    contributions.map_values(|contribution: ContributionView| contribution.name)
}

/// Whether the user has done nothing in the tab for a while.
pub open spec fn idle(tab: TabView, now_ms: u64) -> bool {
    match tab.last_user_activity_ms {
        Some(ts_ms) => age_ms(ts_ms, now_ms) > IDLE_MS,
        None => true,
    }
}

/// What playback in the given state weighs.
pub open spec fn media_weight(tab: TabView, now_ms: u64, state: Seq<char>, weight: Single) -> Single {
    if tab.last_media_state == Some(state) {
        decayed(tab.last_media_ms, now_ms, MEDIA_RECENT_MS, weight)
    } else {
        ZERO
    }
}

/// The score of a tab.
pub open spec fn tab_score(
    tab: TabView,
    now_ms: u64,
    cpu_high: bool,
    active: bool,
    seen_recent: bool,
) -> ScoreView {
    let hidden = decayed(tab.last_hidden_ms, now_ms, HIDDEN_RECENT_MS, WEIGHT_HIDDEN);
    let worker = decayed(tab.last_worker_ms, now_ms, WORKER_RECENT_MS, WEIGHT_WORKER);
    let wasm = decayed(tab.last_wasm_ms, now_ms, WASM_RECENT_MS, WEIGHT_WASM);
    let playing = media_weight(tab, now_ms, "playing"@, WEIGHT_MEDIA_PLAYING);
    let paused = media_weight(tab, now_ms, "paused"@, WEIGHT_MEDIA_PAUSED);
    let idling = if idle(tab, now_ms) && seen_recent && !active {
        WEIGHT_IDLE
    } else {
        ZERO
    };
    let compute = worker > ZERO || wasm > ZERO || playing > ZERO;
    let high_active = if cpu_high && active {
        WEIGHT_CPU_HIGH_ACTIVE
    } else {
        ZERO
    };
    let high_global = if cpu_high && !active && compute {
        WEIGHT_CPU_HIGH_GLOBAL
    } else {
        ZERO
    };
    let bonus = if cpu_high && compute && hidden > ZERO {
        WEIGHT_CORRELATION_BONUS
    } else {
        ZERO
    };
    let contributions = contribution("tab_hidden"@, hidden) + contribution(
        "worker_created"@,
        worker,
    ) + contribution("wasm_instantiate"@, wasm) + contribution("media_playing"@, playing)
        + contribution("media_paused"@, paused) + contribution("idle"@, idling) + contribution(
        "cpu_high_active"@,
        high_active,
    ) + contribution("cpu_high_global"@, high_global) + contribution("correlation_bonus"@, bonus);
    ScoreView {
        score: total(contributions),
        reasons: names(contributions),
        contributions,
        compute_present: compute,
        hidden_present: hidden > ZERO,
        idle_present: idling > ZERO,
    }
}

/// The value of one.
proof fn lemma_one()
    ensures
        magnitude(ONE as int) == pow2(149),
        magnitude(ONE - 1) == pow2(149) - pow2(125),
        pow2(149) > pow2(125) > 0,
{
    lemma2_to64();
    lemma_pow2_adds(23, 126);
    lemma_pow2_adds(24, 125);
    lemma_pow2_pos(125);
    lemma_pow2_pos(149);
    assert(0xff_ffff * pow2(125) == 0x100_0000 * pow2(125) - pow2(125)) by (nonlinear_arith);
}

/// An integer of 64 bits is far from infinity, and only zero becomes zero.
proof fn lemma_from_u64(n: u64)
    ensures
        from_integer(n as nat) < INFINITY,
        n > 0 ==> from_integer(n as nat) >= ONE,
        n == 0 ==> from_integer(n as nat) == ZERO,
{
    lemma_one();
    lemma2_to64();
    lemma_pow2_adds(23, 190);
    lemma_pow2_adds(64, 149);
    assert(magnitude(0x5f80_0000) == pow2(213));
    assert(n * pow2(149) <= pow2(64) * pow2(149)) by (nonlinear_arith)
        requires
            n <= pow2(64),
    ;
    lemma_rounded_at_most(0x5f80_0000, (n * pow2(149)) as nat, 1);
    if n > 0 {
        assert(n * pow2(149) >= pow2(149)) by (nonlinear_arith)
            requires
                n >= 1,
        ;
        lemma_rounded_at_least(ONE, (n * pow2(149)) as nat, 1);
    } else {
        lemma_rounded_exact(ZERO, 0, 1);
    }
}

/// The steps of `decayed` stay in range.
proof fn lemma_decay_steps(age: u64, window_ms: u64)
    requires
        age <= window_ms,
        window_ms > 0,
    ensures
        ({
            let a = from_integer(age as nat);
            let b = from_integer(window_ms as nat);
            &&& a < INFINITY
            &&& ZERO < b < INFINITY
            &&& quotient(a, b) <= ONE
            &&& difference(ONE, quotient(a, b)) <= ONE
        }),
{
    let a = from_integer(age as nat);
    let b = from_integer(window_ms as nat);
    lemma_one();
    lemma_from_u64(age);
    lemma_from_u64(window_ms);
    assert((age * pow2(149)) * 1 <= (window_ms * pow2(149)) * 1) by (nonlinear_arith)
        requires
            age <= window_ms,
    ;
    lemma_rounded_monotone((age * pow2(149)) as nat, 1, (window_ms * pow2(149)) as nat, 1);
    lemma_magnitude_monotone(a as int, b as int);
    lemma_magnitude_monotone(0, b as int);
    let ma = magnitude(a as int);
    let mb = magnitude(b as int);
    assert(ma * pow2(149) <= mb * pow2(149)) by (nonlinear_arith)
        requires
            ma <= mb,
    ;
    lemma_rounded_at_most(ONE, ma * pow2(149), mb);
    let q = quotient(a, b);
    lemma_magnitude_monotone(q as int, ONE as int);
    lemma_rounded_at_most(ONE, (magnitude(ONE as int) - magnitude(q as int)) as nat, 1);
}

/// What is left of `weight` of an event, given the window in which it counts.
pub fn decayed_weight(ts_ms: Option<u64>, now_ms: u64, window_ms: u64, weight: Single) -> (left:
    Single)
    ensures
        left == decayed(ts_ms, now_ms, window_ms, weight),
        window_ms > 0 && weight < INFINITY ==> left <= INFINITY,
{
    match ts_ms {
        Some(ts_ms) => {
            let age: u64 = now_ms.saturating_sub(ts_ms);
            if age > window_ms {
                return ZERO;
            }
            if window_ms == 0 {
                return NOT_A_NUMBER;
            }
            proof {
                lemma_decay_steps(age, window_ms);
            }
            let remaining = minus(ONE, over(of_u64(age), of_u64(window_ms)));
            times_signed(weight, remaining)
        },
        None => ZERO,
    }
}

/// Adds a contribution to a score, if it weighs anything.
fn contribute(score: &mut OriginScore, name: &str, weight: Single)
    requires
        weight <= INFINITY,
        old(score).score <= INFINITY,
        old(score)@.score == total(old(score)@.contributions),
        old(score)@.reasons == names(old(score)@.contributions),
    ensures
        final(score)@.contributions == old(score)@.contributions + contribution(name@, weight),
        final(score)@.score == total(final(score)@.contributions),
        final(score)@.reasons == names(final(score)@.contributions),
        final(score).score <= INFINITY,
        final(score).compute_present == old(score).compute_present,
        final(score).hidden_present == old(score).hidden_present,
        final(score).idle_present == old(score).idle_present,
{
    if weight > ZERO {
        score.score = plus(score.score, weight);
        score.reasons.push(name.to_owned());
        score.contributions.push(ScoreContribution { name: name.to_owned(), weight });
        proof {
            let before = old(score)@.contributions;
            let after = score@.contributions;
            assert(after =~= before + contribution(name@, weight));
            assert(after.drop_last() =~= before);
            assert(score@.reasons =~= old(score)@.reasons.push(name@));
            assert(names(after) =~= names(before).push(name@));
        }
    } else {
        assert(score@.contributions =~= old(score)@.contributions + contribution(name@, weight));
    }
}

/// Scores a tab. `active` says that the user looks at it, `seen_recent` that it was heard of
/// recently.
pub fn score_tab(
    tab_state: &TabState,
    now_ms: u64,
    cpu_high: bool,
    active: bool,
    seen_recent: bool,
) -> (details: OriginScore)
    ensures
        details@ == tab_score(tab_state@, now_ms, cpu_high, active, seen_recent),
        details.score <= INFINITY,
{
    let hidden = decayed_weight(tab_state.last_hidden_ms, now_ms, HIDDEN_RECENT_MS, WEIGHT_HIDDEN);
    let worker = decayed_weight(tab_state.last_worker_ms, now_ms, WORKER_RECENT_MS, WEIGHT_WORKER);
    let wasm = decayed_weight(tab_state.last_wasm_ms, now_ms, WASM_RECENT_MS, WEIGHT_WASM);
    let playing: Single = if optional_reads(&tab_state.last_media_state, "playing") {
        decayed_weight(tab_state.last_media_ms, now_ms, MEDIA_RECENT_MS, WEIGHT_MEDIA_PLAYING)
    } else {
        ZERO
    };
    let paused: Single = if optional_reads(&tab_state.last_media_state, "paused") {
        decayed_weight(tab_state.last_media_ms, now_ms, MEDIA_RECENT_MS, WEIGHT_MEDIA_PAUSED)
    } else {
        ZERO
    };
    let idle: bool = match tab_state.last_user_activity_ms {
        Some(ts_ms) => now_ms.saturating_sub(ts_ms) > IDLE_MS,
        None => true,
    };
    let idling: Single = if idle && seen_recent && !active {
        WEIGHT_IDLE
    } else {
        ZERO
    };
    let compute_present = worker > ZERO || wasm > ZERO || playing > ZERO;
    let high_active: Single = if cpu_high && active {
        WEIGHT_CPU_HIGH_ACTIVE
    } else {
        ZERO
    };
    let high_global: Single = if cpu_high && !active && compute_present {
        WEIGHT_CPU_HIGH_GLOBAL
    } else {
        ZERO
    };
    let bonus: Single = if cpu_high && compute_present && hidden > ZERO {
        WEIGHT_CORRELATION_BONUS
    } else {
        ZERO
    };
    let mut details = OriginScore {
        score: ZERO,
        reasons: Vec::new(),
        contributions: Vec::new(),
        compute_present,
        hidden_present: hidden > ZERO,
        idle_present: idling > ZERO,
    };
    proof {
        assert(details@.contributions =~= Seq::empty());
        assert(details@.reasons =~= names(Seq::empty()));
        assert(Seq::<ContributionView>::empty() + contribution("tab_hidden"@, hidden)
            =~= contribution("tab_hidden"@, hidden));
    }
    contribute(&mut details, "tab_hidden", hidden);
    contribute(&mut details, "worker_created", worker);
    contribute(&mut details, "wasm_instantiate", wasm);
    contribute(&mut details, "media_playing", playing);
    contribute(&mut details, "media_paused", paused);
    contribute(&mut details, "idle", idling);
    contribute(&mut details, "cpu_high_active", high_active);
    contribute(&mut details, "cpu_high_global", high_global);
    contribute(&mut details, "correlation_bonus", bonus);
    details
}

/// A weight counts in full at first, if it is a number.
pub proof fn law_decay_starts_full(ts_ms: u64, now_ms: u64, window_ms: u64, weight: Single)
    requires
        now_ms <= ts_ms,
        window_ms > 0,
        absolute(weight) <= INFINITY,
    ensures
        decayed(Some(ts_ms), now_ms, window_ms, weight) == weight,
{
    lemma_one();
    lemma_from_u64(0);
    lemma_from_u64(window_ms);
    let b = from_integer(window_ms as nat);
    lemma_magnitude_monotone(0, b as int);
    assert(0 * pow2(149) == 0);
    assert(magnitude(b as int) * 0 == 0);
    lemma_rounded_exact(ZERO, 0, magnitude(b as int));
    lemma_rounded_exact(ONE, pow2(149), 1);
    lemma_pow2_pos(149);
    let w = absolute(weight);
    let m = magnitude(w as int);
    assert(m * pow2(149) == pow2(149) * m) by (nonlinear_arith);
    if w < INFINITY {
        lemma_rounded_exact(w, m * pow2(149), pow2(149));
    }
}

/// At the end of the window, and after it, nothing is left of a weight. (At the very end it has
/// to be finite, and a negative weight then leaves minus zero.)
pub proof fn law_decay_ends(ts_ms: u64, now_ms: u64, window_ms: u64, weight: Single)
    requires
        age_ms(ts_ms, now_ms) >= window_ms,
        window_ms > 0,
        absolute(weight) < INFINITY || age_ms(ts_ms, now_ms) > window_ms,
    ensures
        decayed(Some(ts_ms), now_ms, window_ms, weight) == (if age_ms(ts_ms, now_ms) == window_ms
            && weight >= NEGATIVE_ZERO {
            NEGATIVE_ZERO
        } else {
            ZERO
        }),
{
    if age_ms(ts_ms, now_ms) == window_ms {
        lemma_one();
        lemma_from_u64(window_ms);
        let b = from_integer(window_ms as nat);
        lemma_magnitude_monotone(0, b as int);
        lemma_rounded_exact(ONE, magnitude(b as int) * pow2(149), magnitude(b as int));
        lemma_rounded_exact(ZERO, 0, 1);
        lemma_pow2_pos(149);
        assert(magnitude(absolute(weight) as int) * 0 == 0);
        assert(pow2(149) * 0 == 0);
        lemma_rounded_exact(ZERO, 0, pow2(149));
    }
}

/// A finite weight only becomes less with time, whatever its sign, and is never more than it
/// was at first. It keeps its sign, or nothing is left of it.
pub proof fn law_decay_falls(ts_ms: u64, earlier_ms: u64, now_ms: u64, window_ms: u64, weight: Single)
    requires
        earlier_ms <= now_ms,
        window_ms > 0,
        absolute(weight) < INFINITY,
    ensures
        ({
            let earlier = decayed(Some(ts_ms), earlier_ms, window_ms, weight);
            let left = decayed(Some(ts_ms), now_ms, window_ms, weight);
            &&& absolute(left) <= absolute(earlier)
            &&& absolute(left) <= absolute(weight)
            &&& left == ZERO || (left >= NEGATIVE_ZERO <==> weight >= NEGATIVE_ZERO)
        }),
{
    let young = age_ms(ts_ms, earlier_ms);
    let age = age_ms(ts_ms, now_ms);
    if age <= window_ms {
        lemma_decay_steps(young as u64, window_ms);
        lemma_decay_steps(age as u64, window_ms);
        lemma_one();
        lemma_pow2_pos(149);
        let a1 = from_integer(young);
        let a2 = from_integer(age);
        let b = from_integer(window_ms as nat);
        let q1 = quotient(a1, b);
        let q2 = quotient(a2, b);
        let r1 = difference(ONE, q1);
        let r2 = difference(ONE, q2);
        assert((young * pow2(149)) * 1 <= (age * pow2(149)) * 1) by (nonlinear_arith)
            requires
                young <= age,
        ;
        lemma_rounded_monotone(young * pow2(149), 1, age * pow2(149), 1);
        lemma_magnitude_monotone(a1 as int, a2 as int);
        lemma_magnitude_monotone(0, b as int);
        let m1 = magnitude(a1 as int);
        let m2 = magnitude(a2 as int);
        let mb = magnitude(b as int);
        assert((m1 * pow2(149)) * mb <= (m2 * pow2(149)) * mb) by (nonlinear_arith)
            requires
                m1 <= m2,
        ;
        lemma_rounded_monotone(m1 * pow2(149), mb, m2 * pow2(149), mb);
        lemma_magnitude_monotone(q1 as int, q2 as int);
        lemma_magnitude_monotone(q2 as int, ONE as int);
        let one = magnitude(ONE as int);
        lemma_rounded_monotone(
            (one - magnitude(q2 as int)) as nat,
            1,
            (one - magnitude(q1 as int)) as nat,
            1,
        );
        lemma_magnitude_monotone(r2 as int, r1 as int);
        lemma_magnitude_monotone(r2 as int, ONE as int);
        let w = magnitude(absolute(weight) as int);
        let s1 = magnitude(r1 as int);
        let s2 = magnitude(r2 as int);
        assert((w * s2) * pow2(149) <= (w * s1) * pow2(149)) by (nonlinear_arith)
            requires
                s2 <= s1,
        ;
        lemma_rounded_monotone(w * s2, pow2(149), w * s1, pow2(149));
        assert(w * s2 <= pow2(149) * w) by (nonlinear_arith)
            requires
                s2 <= pow2(149),
        ;
        lemma_rounded_at_most(absolute(weight), w * s2, pow2(149));
        lemma_magnitude_monotone(r1 as int, ONE as int);
        assert(w * s1 <= pow2(149) * w) by (nonlinear_arith)
            requires
                s1 <= pow2(149),
        ;
        lemma_rounded_at_most(absolute(weight), w * s1, pow2(149));
    }
}

/// Within the window something is left of a weight. (The window has at most 24 bits, and the
/// weight is at least 1/32 but for its sign: for such numbers no rounding step comes down to
/// zero.)
pub proof fn law_decay_lasts(ts_ms: u64, now_ms: u64, window_ms: u64, weight: Single)
    requires
        age_ms(ts_ms, now_ms) < window_ms < 0x100_0000,
        0x3d00_0000 <= absolute(weight) <= INFINITY,
    ensures
        absolute(decayed(Some(ts_ms), now_ms, window_ms, weight)) > ZERO,
{
    let age = age_ms(ts_ms, now_ms);
    let a = from_integer(age);
    let b = from_integer(window_ms as nat);
    let q = quotient(a, b);
    let r = difference(ONE, q);
    lemma_one();
    lemma2_to64();
    lemma_from_integer_exact(age);
    lemma_from_integer_exact(window_ms as nat);
    lemma_decay_steps(age as u64, window_ms);
    // The share of the window that has passed is less than one.
    let p = pow2(149);
    let ma = magnitude(a as int);
    let mb = magnitude(b as int);
    lemma_pow2_adds(24, 125);
    assert(mb > 0) by (nonlinear_arith)
        requires
            mb == window_ms * p,
            window_ms > 0,
            p > 0,
    ;
    assert(mb * (2 * p - pow2(125)) > 2 * (ma * p)) by (nonlinear_arith)
        requires
            ma == age * p,
            mb == window_ms * p,
            age + 1 <= window_ms,
            window_ms < 0x100_0000,
            p == 0x100_0000 * pow2(125),
            pow2(125) > 0,
    ;
    lemma_rounded(ma * p, mb);
    assert(!reaches(ONE as int, ma * p, mb));
    assert(q < ONE);
    // So at least two to the power of -24 remains of it.
    lemma_magnitude_monotone(q as int, ONE - 1);
    lemma_pow2_adds(23, 102);
    assert(magnitude(0x3380_0000) == pow2(125));
    lemma_rounded_at_least(0x3380_0000, (p - magnitude(q as int)) as nat, 1);
    lemma_magnitude_monotone(0x3380_0000, r as int);
    // And at least two to the power of -29 of the weight.
    lemma_pow2_adds(23, 121);
    assert(magnitude(0x3d00_0000) == pow2(144));
    lemma_magnitude_monotone(0x3d00_0000, absolute(weight) as int);
    lemma_pow2_adds(23, 97);
    assert(magnitude(0x3100_0000) == pow2(120));
    lemma_pow2_adds(144, 125);
    lemma_pow2_adds(149, 120);
    let w = magnitude(absolute(weight) as int);
    let s = magnitude(r as int);
    assert(pow2(149) * pow2(120) <= w * s) by (nonlinear_arith)
        requires
            pow2(149) * pow2(120) == pow2(144) * pow2(125),
            w >= pow2(144),
            s >= pow2(125),
    ;
    lemma_rounded_at_least(0x3100_0000, w * s, pow2(149));
    lemma_rounded(w * s, pow2(149));
}

/// Whether the time stamp is there and less than `window_ms` old.
pub open spec fn within(ts_ms: Option<u64>, now_ms: u64, window_ms: u64) -> bool {
    match ts_ms {
        Some(ts_ms) => age_ms(ts_ms, now_ms) < window_ms,
        None => false,
    }
}

/// An event weighs something exactly while it is younger than its window.
proof fn lemma_decayed_positive(ts_ms: Option<u64>, now_ms: u64, window_ms: u64, weight: Single)
    requires
        0 < window_ms < 0x100_0000,
        0x3d00_0000 <= weight < INFINITY,
    ensures
        decayed(ts_ms, now_ms, window_ms, weight) > ZERO <==> within(ts_ms, now_ms, window_ms),
{
    if let Some(ts_ms) = ts_ms {
        if age_ms(ts_ms, now_ms) < window_ms {
            law_decay_lasts(ts_ms, now_ms, window_ms, weight);
        } else {
            law_decay_ends(ts_ms, now_ms, window_ms, weight);
        }
    }
}

/// What is found in a tab is a matter of time stamps alone: it computes while its latest
/// worker, WebAssembly module or playback is younger than 30 seconds, it is hidden for less
/// than 10 seconds after it was last reported so, and it is idle where the user has done
/// nothing for more than 15 seconds, looks elsewhere, and the tab was heard of recently.
pub proof fn law_signals(
    tab: TabView,
    now_ms: u64,
    cpu_high: bool,
    active: bool,
    seen_recent: bool,
)
    ensures
        ({
            let score = tab_score(tab, now_ms, cpu_high, active, seen_recent);
            &&& score.compute_present <==> within(tab.last_worker_ms, now_ms, WORKER_RECENT_MS)
                || within(tab.last_wasm_ms, now_ms, WASM_RECENT_MS) || (tab.last_media_state
                == Some("playing"@) && within(tab.last_media_ms, now_ms, MEDIA_RECENT_MS))
            &&& score.hidden_present <==> within(tab.last_hidden_ms, now_ms, HIDDEN_RECENT_MS)
            &&& score.idle_present <==> idle(tab, now_ms) && seen_recent && !active
        }),
{
    lemma_decayed_positive(tab.last_hidden_ms, now_ms, HIDDEN_RECENT_MS, WEIGHT_HIDDEN);
    lemma_decayed_positive(tab.last_worker_ms, now_ms, WORKER_RECENT_MS, WEIGHT_WORKER);
    lemma_decayed_positive(tab.last_wasm_ms, now_ms, WASM_RECENT_MS, WEIGHT_WASM);
    lemma_decayed_positive(tab.last_media_ms, now_ms, MEDIA_RECENT_MS, WEIGHT_MEDIA_PLAYING);
}

/// A sum of weights is no less than any of them.
proof fn lemma_total(contributions: Seq<ContributionView>)
    requires
        forall|i: int|
            0 <= i < contributions.len() ==> (#[trigger] contributions[i]).weight <= INFINITY,
    ensures
        total(contributions) <= INFINITY,
        forall|i: int|
            0 <= i < contributions.len() ==> (#[trigger] contributions[i]).weight <= total(
                contributions,
            ),
    decreases contributions.len(),
{
    if contributions.len() > 0 {
        let rest = contributions.drop_last();
        let last = contributions.last().weight;
        assert forall|i: int| 0 <= i < rest.len() implies (#[trigger] rest[i]).weight
            <= INFINITY by {
            assert(rest[i] == contributions[i]);
        }
        assert(contributions[contributions.len() - 1].weight == last);
        lemma_total(rest);
        let before = total(rest);
        let num = magnitude(before as int) + magnitude(last as int);
        lemma_rounded(num, 1);
        lemma_rounded_at_least(before, num, 1);
        lemma_rounded_at_least(last, num, 1);
        assert forall|i: int| 0 <= i < contributions.len() implies (
        #[trigger] contributions[i]).weight <= total(contributions) by {
            if i < rest.len() {
                assert(rest[i] == contributions[i]);
            }
        }
    }
}

/// A sum of weights that are at most one is at most their number.
proof fn lemma_total_bound(contributions: Seq<ContributionView>)
    requires
        contributions.len() < 0x100_0000,
        forall|i: int| 0 <= i < contributions.len() ==> (#[trigger] contributions[i]).weight <= ONE,
    ensures
        total(contributions) <= from_integer(contributions.len()),
    decreases contributions.len(),
{
    let n = contributions.len();
    lemma_from_integer_exact(n);
    if n > 0 {
        let rest = contributions.drop_last();
        let last = contributions.last().weight;
        assert forall|i: int| 0 <= i < rest.len() implies (#[trigger] rest[i]).weight <= ONE by {
            assert(rest[i] == contributions[i]);
        }
        assert(contributions[n - 1].weight <= ONE);
        lemma_total_bound(rest);
        lemma_from_integer_exact((n - 1) as nat);
        lemma_one();
        let before = total(rest);
        lemma_magnitude_monotone(before as int, from_integer((n - 1) as nat) as int);
        lemma_magnitude_monotone(last as int, ONE as int);
        assert((n - 1) * pow2(149) + pow2(149) == n * pow2(149)) by (nonlinear_arith);
        lemma_rounded_at_most(
            from_integer(n),
            magnitude(before as int) + magnitude(last as int),
            1,
        );
    }
}

/// Whether the contributions are above zero, and at most one.
spec fn weighty(contributions: Seq<ContributionView>) -> bool {
    forall|i: int|
        0 <= i < contributions.len() ==> ZERO < (#[trigger] contributions[i]).weight <= ONE
}

/// Whether one of the contributions has the name.
spec fn lists(contributions: Seq<ContributionView>, name: Seq<char>) -> bool {
    names(contributions).contains(name)
}

proof fn lemma_concat(a: Seq<ContributionView>, b: Seq<ContributionView>)
    ensures
        weighty(a) && weighty(b) ==> weighty(a + b),
        forall|name: Seq<char>| #[trigger] lists(a + b, name) <==> lists(a, name) || lists(b, name),
{
    if weighty(a) && weighty(b) {
        assert forall|i: int| 0 <= i < (a + b).len() implies ZERO < (
        #[trigger] (a + b)[i]).weight <= ONE by {
            if i < a.len() {
                assert((a + b)[i] == a[i]);
            } else {
                assert((a + b)[i] == b[i - a.len()]);
            }
        }
    }
    assert(names(a + b) =~= names(a) + names(b));
    assert forall|name: Seq<char>| #[trigger] lists(a + b, name) <==> lists(a, name) || lists(
        b,
        name,
    ) by {
        if lists(a, name) {
            let i = choose|i: int| 0 <= i < a.len() && names(a)[i] == name;
            assert(names(a + b)[i] == name);
        }
        if lists(b, name) {
            let i = choose|i: int| 0 <= i < b.len() && names(b)[i] == name;
            assert(names(a + b)[a.len() + i] == name);
        }
    }
}

proof fn lemma_contribution(name: Seq<char>, weight: Single)
    requires
        weight <= ONE,
    ensures
        weighty(contribution(name, weight)),
        forall|other: Seq<char>| #[trigger]
            lists(contribution(name, weight), other) <==> weight > ZERO && other == name,
{
    if weight > ZERO {
        assert(names(contribution(name, weight))[0] == name);
    }
}

proof fn lemma_decayed_finite(ts_ms: Option<u64>, now_ms: u64, window_ms: u64, weight: Single)
    requires
        window_ms > 0,
        weight < INFINITY,
    ensures
        decayed(ts_ms, now_ms, window_ms, weight) <= weight,
{
    if let Some(ts_ms) = ts_ms {
        law_decay_falls(ts_ms, now_ms, now_ms, window_ms, weight);
    }
}

/// The reasons that a score can give.
spec fn reason_texts() -> Seq<Seq<char>> {
    seq![
        "tab_hidden"@,
        "worker_created"@,
        "wasm_instantiate"@,
        "media_playing"@,
        "media_paused"@,
        "idle"@,
        "cpu_high_active"@,
        "cpu_high_global"@,
        "correlation_bonus"@,
    ]
}

/// No two of the reasons are the same.
proof fn lemma_reasons_differ()
    ensures
        forall|i: int, j: int|
            0 <= i < j < 9 ==> #[trigger] reason_texts()[i] != #[trigger] reason_texts()[j],
{
    reveal_strlit("tab_hidden");
    reveal_strlit("worker_created");
    reveal_strlit("wasm_instantiate");
    reveal_strlit("media_playing");
    reveal_strlit("media_paused");
    reveal_strlit("idle");
    reveal_strlit("cpu_high_active");
    reveal_strlit("cpu_high_global");
    reveal_strlit("correlation_bonus");
    assert("cpu_high_active"@[9] != "cpu_high_global"@[9]);
    let lengths = reason_texts().map_values(|text: Seq<char>| text.len());
    assert forall|i: int, j: int| 0 <= i < j < 9 implies #[trigger] reason_texts()[i]
        != #[trigger] reason_texts()[j] by {
        if i == 6 && j == 7 {
        } else {
            assert(lengths[i] != lengths[j]);
        }
    }
}

/// The first `n` contributions, one after the other.
spec fn contributions_of(texts: Seq<Seq<char>>, weights: Seq<Single>, n: nat) -> Seq<
    ContributionView,
>
    decreases n,
{
    if n == 0 {
        Seq::empty()
    } else {
        contributions_of(texts, weights, (n - 1) as nat) + contribution(
            texts[n - 1],
            weights[n - 1],
        )
    }
}

/// Each contribution is listed exactly if it has weight.
proof fn lemma_contributions_of(texts: Seq<Seq<char>>, weights: Seq<Single>, n: nat)
    requires
        n <= weights.len(),
        forall|i: int| 0 <= i < weights.len() ==> #[trigger] weights[i] <= ONE,
    ensures
        weighty(contributions_of(texts, weights, n)),
        contributions_of(texts, weights, n).len() <= n,
        forall|name: Seq<char>| #[trigger]
            lists(contributions_of(texts, weights, n), name) <==> exists|i: int|
                0 <= i < n && #[trigger] weights[i] > ZERO && texts[i] == name,
        (forall|i: int, j: int| 0 <= i < j < n ==> #[trigger] texts[i] != #[trigger] texts[j])
            ==> names(contributions_of(texts, weights, n)).no_duplicates(),
    decreases n,
{
    if n > 0 {
        let before = contributions_of(texts, weights, (n - 1) as nat);
        let last = contribution(texts[n - 1], weights[n - 1]);
        lemma_contributions_of(texts, weights, (n - 1) as nat);
        lemma_contribution(texts[n - 1], weights[n - 1]);
        lemma_concat(before, last);
        assert forall|name: Seq<char>| #[trigger]
            lists(contributions_of(texts, weights, n), name) <==> exists|i: int|
                0 <= i < n && #[trigger] weights[i] > ZERO && texts[i] == name by {
            assert(lists(before + last, name) <==> lists(before, name) || lists(last, name));
        }
        if forall|i: int, j: int| 0 <= i < j < n ==> #[trigger] texts[i] != #[trigger] texts[j] {
            assert(!lists(before, texts[n - 1]));
            assert(names(before + last) =~= names(before) + names(last));
        }
    }
}

/// Which reasons a score gives, each exactly when its signal is there.
pub open spec fn gives_reasons(
    tab: TabView,
    now_ms: u64,
    cpu_high: bool,
    active: bool,
    seen_recent: bool,
) -> bool {
    let score = tab_score(tab, now_ms, cpu_high, active, seen_recent);
    let gives = |reason: Seq<char>| score.reasons.contains(reason);
    &&& gives("tab_hidden"@) <==> score.hidden_present
    &&& gives("worker_created"@) <==> within(tab.last_worker_ms, now_ms, WORKER_RECENT_MS)
    &&& gives("wasm_instantiate"@) <==> within(tab.last_wasm_ms, now_ms, WASM_RECENT_MS)
    &&& gives("media_playing"@) <==> tab.last_media_state == Some("playing"@) && within(
        tab.last_media_ms,
        now_ms,
        MEDIA_RECENT_MS,
    )
    &&& gives("media_paused"@) <==> tab.last_media_state == Some("paused"@) && within(
        tab.last_media_ms,
        now_ms,
        MEDIA_RECENT_MS,
    )
    &&& gives("idle"@) <==> score.idle_present
    &&& gives("cpu_high_active"@) <==> cpu_high && active
    &&& gives("cpu_high_global"@) <==> cpu_high && !active && score.compute_present
    &&& gives("correlation_bonus"@) <==> cpu_high && score.compute_present && score.hidden_present
}

/// A score gives its reasons, names what each contributes, adds it up in single precision,
/// and is no less than any part of it. Nothing contributes without weight, or more than one,
/// and no reason is given twice. So a score is a number, and not infinite.
#[verifier::spinoff_prover]
#[verifier::rlimit(40)]
pub proof fn law_score_explained(
    tab: TabView,
    now_ms: u64,
    cpu_high: bool,
    active: bool,
    seen_recent: bool,
)
    ensures
        gives_reasons(tab, now_ms, cpu_high, active, seen_recent),
        ({
            let score = tab_score(tab, now_ms, cpu_high, active, seen_recent);
            &&& score.reasons == names(score.contributions)
            &&& score.reasons.no_duplicates()
            &&& score.score == total(score.contributions)
            &&& score.score <= from_integer(score.contributions.len())
            &&& score.score < INFINITY
            &&& forall|i: int|
                0 <= i < score.contributions.len() ==> ZERO < (
                #[trigger] score.contributions[i]).weight <= score.score
            &&& score.score > ZERO <==> score.contributions.len() > 0
        }),
{
    law_signals(tab, now_ms, cpu_high, active, seen_recent);
    lemma_decayed_positive(tab.last_worker_ms, now_ms, WORKER_RECENT_MS, WEIGHT_WORKER);
    lemma_decayed_positive(tab.last_wasm_ms, now_ms, WASM_RECENT_MS, WEIGHT_WASM);
    lemma_decayed_positive(tab.last_media_ms, now_ms, MEDIA_RECENT_MS, WEIGHT_MEDIA_PLAYING);
    lemma_decayed_positive(tab.last_media_ms, now_ms, MEDIA_RECENT_MS, WEIGHT_MEDIA_PAUSED);
    lemma_decayed_finite(tab.last_hidden_ms, now_ms, HIDDEN_RECENT_MS, WEIGHT_HIDDEN);
    lemma_decayed_finite(tab.last_worker_ms, now_ms, WORKER_RECENT_MS, WEIGHT_WORKER);
    lemma_decayed_finite(tab.last_wasm_ms, now_ms, WASM_RECENT_MS, WEIGHT_WASM);
    lemma_decayed_finite(tab.last_media_ms, now_ms, MEDIA_RECENT_MS, WEIGHT_MEDIA_PLAYING);
    lemma_decayed_finite(tab.last_media_ms, now_ms, MEDIA_RECENT_MS, WEIGHT_MEDIA_PAUSED);
    let score = tab_score(tab, now_ms, cpu_high, active, seen_recent);
    let hidden = decayed(tab.last_hidden_ms, now_ms, HIDDEN_RECENT_MS, WEIGHT_HIDDEN);
    let worker = decayed(tab.last_worker_ms, now_ms, WORKER_RECENT_MS, WEIGHT_WORKER);
    let wasm = decayed(tab.last_wasm_ms, now_ms, WASM_RECENT_MS, WEIGHT_WASM);
    let playing = media_weight(tab, now_ms, "playing"@, WEIGHT_MEDIA_PLAYING);
    let paused = media_weight(tab, now_ms, "paused"@, WEIGHT_MEDIA_PAUSED);
    let idling = if score.idle_present {
        WEIGHT_IDLE
    } else {
        ZERO
    };
    let high_active = if cpu_high && active {
        WEIGHT_CPU_HIGH_ACTIVE
    } else {
        ZERO
    };
    let high_global = if cpu_high && !active && score.compute_present {
        WEIGHT_CPU_HIGH_GLOBAL
    } else {
        ZERO
    };
    let bonus = if cpu_high && score.compute_present && score.hidden_present {
        WEIGHT_CORRELATION_BONUS
    } else {
        ZERO
    };
    let texts = reason_texts();
    let weights = seq![
        hidden,
        worker,
        wasm,
        playing,
        paused,
        idling,
        high_active,
        high_global,
        bonus,
    ];
    lemma_contributions_of(texts, weights, 9);
    lemma_reasons_differ();
    let all = contributions_of(texts, weights, 9);
    assert(score.contributions =~= all) by {
        reveal_with_fuel(contributions_of, 10);
    }
    assert(weighty(all));
    lemma_total(all);
    lemma_total_bound(all);
    lemma_from_integer_exact(all.len());
    if all.len() > 0 {
        assert(all[0].weight > ZERO);
    }
    assert(texts[0] == "tab_hidden"@ && weights[0] == hidden);
    assert(texts[1] == "worker_created"@ && weights[1] == worker);
    assert(texts[2] == "wasm_instantiate"@ && weights[2] == wasm);
    assert(texts[3] == "media_playing"@ && weights[3] == playing);
    assert(texts[4] == "media_paused"@ && weights[4] == paused);
    assert(texts[5] == "idle"@ && weights[5] == idling);
    assert(texts[6] == "cpu_high_active"@ && weights[6] == high_active);
    assert(texts[7] == "cpu_high_global"@ && weights[7] == high_global);
    assert(texts[8] == "correlation_bonus"@ && weights[8] == bonus);
    assert forall|k: int| 0 <= k < 9 implies (score.reasons.contains(#[trigger] texts[k])
        <==> weights[k] > ZERO) by {
        assert(score.reasons.contains(texts[k]) <==> lists(all, texts[k]));
        if lists(all, texts[k]) {
            let i = choose|i: int|
                0 <= i < 9 && #[trigger] weights[i] > ZERO && texts[i] == texts[k];
            if i < k {
                assert(reason_texts()[i] != reason_texts()[k]);
            } else if k < i {
                assert(reason_texts()[k] != reason_texts()[i]);
            }
        }
    }
}

/// The weights are the single-precision numbers nearest to 0.1, 0.4, 0.5, 0.3, 0.05 and 0.8.
pub proof fn law_weights()
    ensures
        WEIGHT_HIDDEN == rounded(1 * pow2(149), 10),
        WEIGHT_WORKER == rounded(4 * pow2(149), 10),
        WEIGHT_WASM == rounded(5 * pow2(149), 10),
        WEIGHT_MEDIA_PLAYING == rounded(3 * pow2(149), 10),
        WEIGHT_MEDIA_PAUSED == rounded(5 * pow2(149), 100),
        WEIGHT_IDLE == rounded(1 * pow2(149), 10),
        WEIGHT_CPU_HIGH_ACTIVE == rounded(8 * pow2(149), 10),
        WEIGHT_CPU_HIGH_GLOBAL == rounded(5 * pow2(149), 10),
        WEIGHT_CORRELATION_BONUS == rounded(4 * pow2(149), 10),
{
    lemma2_to64();
    lemma_fraction(1, 10, 122, 0xcc_cccd);
    lemma_fraction(4, 10, 124, 0xcc_cccd);
    lemma_fraction(3, 10, 124, 0x99_999a);
    lemma_fraction(5, 100, 121, 0xcc_cccd);
    lemma_fraction(8, 10, 125, 0xcc_cccd);
    lemma_pow2_adds(24, 125);
    lemma_pow2_adds(23, 125);
    assert(magnitude(WEIGHT_WASM as int) == pow2(148));
    lemma_pow2_adds(1, 148);
    lemma_rounded_exact(WEIGHT_WASM, 5 * pow2(149), 10);
}

/// A tab that computes has a score above zero.
pub proof fn law_computing_scores(
    tab: TabView,
    now_ms: u64,
    cpu_high: bool,
    active: bool,
    seen_recent: bool,
)
    requires
        tab_score(tab, now_ms, cpu_high, active, seen_recent).compute_present,
    ensures
        tab_score(tab, now_ms, cpu_high, active, seen_recent).score > ZERO,
{
    law_signals(tab, now_ms, cpu_high, active, seen_recent);
    law_score_explained(tab, now_ms, cpu_high, active, seen_recent);
    let score = tab_score(tab, now_ms, cpu_high, active, seen_recent);
    assert(score.reasons.len() > 0);
}

/// Where a reason stands among those that a score can give: these nine, in this order.
pub open spec fn place_of(reason: Seq<char>) -> int {
    if reason == "tab_hidden"@ {
        0
    } else if reason == "worker_created"@ {
        1
    } else if reason == "wasm_instantiate"@ {
        2
    } else if reason == "media_playing"@ {
        3
    } else if reason == "media_paused"@ {
        4
    } else if reason == "idle"@ {
        5
    } else if reason == "cpu_high_active"@ {
        6
    } else if reason == "cpu_high_global"@ {
        7
    } else if reason == "correlation_bonus"@ {
        8
    } else {
        9
    }
}

/// Each reason stands in its own place.
proof fn lemma_places()
    ensures
        forall|k: int| 0 <= k < 9 ==> place_of(#[trigger] reason_texts()[k]) == k,
{
    lemma_reasons_differ();
    let texts = reason_texts();
    assert forall|k: int| 0 <= k < 9 implies place_of(#[trigger] texts[k]) == k by {
        let place = place_of(texts[k]);
        assert(texts[0] == "tab_hidden"@);
        assert(texts[1] == "worker_created"@);
        assert(texts[2] == "wasm_instantiate"@);
        assert(texts[3] == "media_playing"@);
        assert(texts[4] == "media_paused"@);
        assert(texts[5] == "idle"@);
        assert(texts[6] == "cpu_high_active"@);
        assert(texts[7] == "cpu_high_global"@);
        assert(texts[8] == "correlation_bonus"@);
        assert(texts[place] == texts[k]);
        if place < k {
            assert(texts[place] != texts[k]);
        }
        if k < place {
            assert(texts[k] != texts[place]);
        }
    }
}

/// The single-precision number nearest to `n` tenths.
pub open spec fn tenths(n: nat) -> Single {
    rounded(n * pow2(149), 10)
}

/// Whether a contribution weighs what its name calls for: what is left of a weight of its own,
/// by the time stamp of what it is named after, or that weight itself.
pub open spec fn weighs_as_named(part: ContributionView, tab: TabView, now_ms: u64) -> bool {
    let name = part.name;
    let weight = part.weight;
    &&& name == "tab_hidden"@ ==> weight == decayed(tab.last_hidden_ms, now_ms, 10_000, tenths(1))
    &&& name == "worker_created"@ ==> weight == decayed(
        tab.last_worker_ms,
        now_ms,
        30_000,
        tenths(4),
    )
    &&& name == "wasm_instantiate"@ ==> weight == decayed(
        tab.last_wasm_ms,
        now_ms,
        30_000,
        tenths(5),
    )
    &&& name == "media_playing"@ ==> weight == decayed(
        tab.last_media_ms,
        now_ms,
        30_000,
        tenths(3),
    )
    &&& name == "media_paused"@ ==> weight == decayed(
        tab.last_media_ms,
        now_ms,
        30_000,
        rounded(5 * pow2(149), 100),
    )
    &&& name == "idle"@ ==> weight == tenths(1)
    &&& name == "cpu_high_active"@ ==> weight == tenths(8)
    &&& name == "cpu_high_global"@ ==> weight == tenths(5)
    &&& name == "correlation_bonus"@ ==> weight == tenths(4)
}

/// Which of the first `n` contributions have weight.
spec fn weighing(weights: Seq<Single>, n: nat) -> Seq<int>
    decreases n,
{
    if n == 0 {
        Seq::empty()
    } else if weights[n - 1] > ZERO {
        weighing(weights, (n - 1) as nat).push(n - 1)
    } else {
        weighing(weights, (n - 1) as nat)
    }
}

/// The contributions are those that have weight, in their order.
proof fn lemma_weighing(texts: Seq<Seq<char>>, weights: Seq<Single>, n: nat)
    ensures
        ({
            let parts = contributions_of(texts, weights, n);
            let places = weighing(weights, n);
            &&& parts.len() == places.len()
            &&& forall|i: int|
                #![trigger places[i]]
                0 <= i < places.len() ==> 0 <= places[i] < n && parts[i].name == texts[places[i]]
                    && parts[i].weight == weights[places[i]] && weights[places[i]] > ZERO
            &&& forall|i: int, j: int|
                0 <= i < j < places.len() ==> #[trigger] places[i] < #[trigger] places[j]
        }),
    decreases n,
{
    if n > 0 {
        lemma_weighing(texts, weights, (n - 1) as nat);
    }
}

/// What the nine reasons weigh in a tab.
spec fn weights_in(
    tab: TabView,
    now_ms: u64,
    cpu_high: bool,
    active: bool,
    seen_recent: bool,
) -> Seq<Single> {
    let score = tab_score(tab, now_ms, cpu_high, active, seen_recent);
    seq![
        decayed(tab.last_hidden_ms, now_ms, HIDDEN_RECENT_MS, WEIGHT_HIDDEN),
        decayed(tab.last_worker_ms, now_ms, WORKER_RECENT_MS, WEIGHT_WORKER),
        decayed(tab.last_wasm_ms, now_ms, WASM_RECENT_MS, WEIGHT_WASM),
        media_weight(tab, now_ms, "playing"@, WEIGHT_MEDIA_PLAYING),
        media_weight(tab, now_ms, "paused"@, WEIGHT_MEDIA_PAUSED),
        if score.idle_present {
            WEIGHT_IDLE
        } else {
            ZERO
        },
        if cpu_high && active {
            WEIGHT_CPU_HIGH_ACTIVE
        } else {
            ZERO
        },
        if cpu_high && !active && score.compute_present {
            WEIGHT_CPU_HIGH_GLOBAL
        } else {
            ZERO
        },
        if cpu_high && score.compute_present && score.hidden_present {
            WEIGHT_CORRELATION_BONUS
        } else {
            ZERO
        },
    ]
}

/// A score is made of what the nine reasons weigh.
#[verifier::spinoff_prover]
proof fn lemma_score_parts(
    tab: TabView,
    now_ms: u64,
    cpu_high: bool,
    active: bool,
    seen_recent: bool,
)
    ensures
        tab_score(tab, now_ms, cpu_high, active, seen_recent).contributions == contributions_of(
            reason_texts(),
            weights_in(tab, now_ms, cpu_high, active, seen_recent),
            9,
        ),
{
    let score = tab_score(tab, now_ms, cpu_high, active, seen_recent);
    let weights = weights_in(tab, now_ms, cpu_high, active, seen_recent);
    assert(score.contributions =~= contributions_of(reason_texts(), weights, 9)) by {
        reveal_with_fuel(contributions_of, 10);
    }
}

/// What the reason in place `k` weighs is what its name calls for.
proof fn lemma_weight_in_place(
    part: ContributionView,
    k: int,
    tab: TabView,
    now_ms: u64,
    cpu_high: bool,
    active: bool,
    seen_recent: bool,
)
    requires
        0 <= k < 9,
        part.name == reason_texts()[k],
        part.weight == weights_in(tab, now_ms, cpu_high, active, seen_recent)[k],
        part.weight > ZERO,
    ensures
        weighs_as_named(part, tab, now_ms),
        place_of(part.name) == k,
{
    lemma_places();
    law_weights();
    assert(place_of(reason_texts()[k]) == k);
}

/// Each contribution to a score has one of nine names, weighs what its name calls for, and
/// stands where its name belongs. So a score adds up what its reasons weigh, each by its own
/// time stamp, its own window and its own weight.
pub proof fn law_contributions_weigh_as_named(
    tab: TabView,
    now_ms: u64,
    cpu_high: bool,
    active: bool,
    seen_recent: bool,
)
    ensures
        ({
            let parts = tab_score(tab, now_ms, cpu_high, active, seen_recent).contributions;
            &&& forall|i: int|
                0 <= i < parts.len() ==> weighs_as_named(#[trigger] parts[i], tab, now_ms)
                    && place_of(parts[i].name) < 9 && parts[i].weight > ZERO
            &&& forall|i: int, j: int|
                0 <= i < j < parts.len() ==> place_of((#[trigger] parts[i]).name) < place_of(
                    (#[trigger] parts[j]).name,
                )
        }),
{
    let parts = tab_score(tab, now_ms, cpu_high, active, seen_recent).contributions;
    let weights = weights_in(tab, now_ms, cpu_high, active, seen_recent);
    let texts = reason_texts();
    lemma_score_parts(tab, now_ms, cpu_high, active, seen_recent);
    lemma_weighing(texts, weights, 9);
    let places = weighing(weights, 9);
    assert forall|i: int| 0 <= i < parts.len() implies weighs_as_named(
        #[trigger] parts[i],
        tab,
        now_ms,
    ) && place_of(parts[i].name) < 9 && parts[i].weight > ZERO by {
        let k = places[i];
        lemma_weight_in_place(parts[i], k, tab, now_ms, cpu_high, active, seen_recent);
    }
    assert forall|i: int, j: int| 0 <= i < j < parts.len() implies place_of(
        (#[trigger] parts[i]).name,
    ) < place_of((#[trigger] parts[j]).name) by {
        assert(places[i] < places[j]);
        lemma_weight_in_place(parts[i], places[i], tab, now_ms, cpu_high, active, seen_recent);
        lemma_weight_in_place(parts[j], places[j], tab, now_ms, cpu_high, active, seen_recent);
    }
}

} // verus!
