//! What the dashboards show.
use vstd::prelude::*;

use crate::cpu::{cpu_high, cpu_is_high};
use crate::event::{EventSummary, SummaryView};
use crate::ranking::{
    contender, covered, describes, has_origin, leaders, leads,
    lemma_leaders_lead, origin_in, rank_tabs, score_in, tab_ids, visits_tabs, walk_tabs,
};
use crate::score::{contribution_views, texts, ContributionView, ScoreContribution};
use crate::single::Single;
use crate::state::{CorrelationState, StateView};
use crate::text::{copy_optional, optional_text};

verus! {

broadcast use vstd::std_specs::hash::group_hash_axioms;

/// What is shown of an origin: the score of the tab that leads it, and what is known of that
/// tab.
#[derive(Debug)]
pub struct OriginSnapshot {
    pub origin: String,
    pub score: Single,
    pub reasons: Vec<String>,
    pub contributions: Vec<ScoreContribution>,
    pub last_visibility: Option<String>,
    pub last_compute_ms: Option<u64>,
}

/// The contents of an `OriginSnapshot`.
#[verifier::ext_equal]
pub struct OriginView {
    pub origin: Seq<char>,
    pub score: Single,
    pub reasons: Seq<Seq<char>>,
    pub contributions: Seq<ContributionView>,
    pub last_visibility: Option<Seq<char>>,
    pub last_compute_ms: Option<u64>,
}

impl View for OriginSnapshot {
    type V = OriginView;

    open spec fn view(&self) -> OriginView {
        OriginView {
            origin: self.origin@,
            score: self.score,
            reasons: texts(self.reasons@),
            contributions: contribution_views(self.contributions@),
            last_visibility: optional_text(self.last_visibility),
            last_compute_ms: self.last_compute_ms,
        }
    }
}

/// What the dashboards show.
#[derive(Debug)]
pub struct DashboardSnapshot {
    pub now_ms: u64,
    pub cpu_pct: u32,
    pub cpu_high: bool,
    pub cpu_high_active: bool,
    pub active_origin: Option<String>,
    pub origins: Vec<OriginSnapshot>,
    pub last_events: Vec<EventSummary>,
}

/// The contents of a `DashboardSnapshot`.
#[verifier::ext_equal]
pub struct SnapshotView {
    pub now_ms: u64,
    pub cpu_pct: u32,
    pub cpu_high: bool,
    pub cpu_high_active: bool,
    pub active_origin: Option<Seq<char>>,
    pub origins: Seq<OriginView>,
    pub last_events: Seq<SummaryView>,
}

/// The contents of some snapshots of origins.
pub open spec fn origin_views(origins: Seq<OriginSnapshot>) -> Seq<OriginView> {
    origins.map_values(|origin: OriginSnapshot| origin@)
}

impl View for DashboardSnapshot {
    type V = SnapshotView;

    open spec fn view(&self) -> SnapshotView {
        SnapshotView {
            now_ms: self.now_ms,
            cpu_pct: self.cpu_pct,
            cpu_high: self.cpu_high,
            cpu_high_active: self.cpu_high_active,
            active_origin: optional_text(self.active_origin),
            origins: origin_views(self.origins@),
            last_events: self.last_events@.map_values(|event: EventSummary| event@),
        }
    }
}

/// The later of two time stamps, as far as they are there.
pub open spec fn later(a: Option<u64>, b: Option<u64>) -> Option<u64> {
    match (a, b) {
        (Some(x), Some(y)) => Some(
            if x >= y {
                x
            } else {
                y
            },
        ),
        (Some(x), None) => Some(x),
        (None, y) => y,
    }
}

/// What is shown of the origin of a tab.
pub open spec fn origin_snapshot(state: StateView, id: u32, now_ms: u64) -> OriginView {
    let tab = state.tabs[id];
    let score = score_in(state, id, now_ms);
    OriginView {
        origin: origin_in(state, id),
        score: score.score,
        reasons: score.reasons,
        contributions: score.contributions,
        last_visibility: tab.last_visibility,
        last_compute_ms: later(later(tab.last_worker_ms, tab.last_wasm_ms), tab.last_media_ms),
    }
}

/// `ranked`, with `origin` behind all that score no less.
pub open spec fn placed(ranked: Seq<OriginView>, origin: OriginView) -> Seq<OriginView>
    decreases ranked.len(),
{
    if ranked.len() == 0 || ranked.last().score >= origin.score {
        ranked.push(origin)
    } else {
        placed(ranked.drop_last(), origin).push(ranked.last())
    }
}

/// The origins by falling score; those with the same score keep their order.
pub open spec fn by_score(origins: Seq<OriginView>) -> Seq<OriginView>
    decreases origins.len(),
{
    if origins.len() == 0 {
        Seq::empty()
    } else {
        placed(by_score(origins.drop_last()), origins.last())
    }
}

/// The origins that come of visiting the tabs in the order of `walk`.
pub open spec fn origins_of_walk(state: StateView, walk: Seq<u32>, now_ms: u64) -> Seq<OriginView> {
    by_score(
        leaders(state, walk, now_ms, false).map_values(
            |id: u32| origin_snapshot(state, id, now_ms),
        ),
    )
}

/// The origin of the active tab.
pub open spec fn active_origin(state: StateView) -> Option<Seq<char>> {
    match state.active_tab_id {
        Some(id) => if state.tabs.contains_key(id) {
            state.tabs[id].origin
        } else {
            None
        },
        None => None,
    }
}

/// The snapshot that shows these origins.
pub open spec fn snapshot_with(state: StateView, origins: Seq<OriginView>, now_ms: u64) -> SnapshotView {
    SnapshotView {
        now_ms,
        cpu_pct: state.last_cpu_pct,
        cpu_high: cpu_is_high(state, now_ms),
        cpu_high_active: cpu_is_high(state, now_ms) && active_origin(state) is Some,
        active_origin: active_origin(state),
        origins,
        last_events: state.events,
    }
}

/// Whether the scores fall.
pub open spec fn falling(origins: Seq<OriginView>) -> bool {
    forall|i: int, j: int|
        0 <= i < j < origins.len() ==> (#[trigger] origins[i]).score >= (
        #[trigger] origins[j]).score
}

/// Whether no origin is there twice.
pub open spec fn no_origin_twice(origins: Seq<OriginView>) -> bool {
    forall|i: int, j: int|
        0 <= i < j < origins.len() ==> (#[trigger] origins[i]).origin != (
        #[trigger] origins[j]).origin
}

/// Whether the origin is shown.
pub open spec fn shows_origin(origins: Seq<OriginView>, origin: Seq<char>) -> bool {
    exists|i: int| 0 <= i < origins.len() && (#[trigger] origins[i]).origin == origin
}

/// Whether this is what is shown of an origin whose tabs the tab leads.
pub open spec fn shows_leader(state: StateView, origin: OriginView, now_ms: u64) -> bool {
    exists|id: u32| #[trigger]
        leads(state, id, now_ms, false) && origin == origin_snapshot(state, id, now_ms)
}

/// Whether these are the origins of the open tabs: each once, with the score of one of its
/// tabs that no other one outscores, and by falling score.
pub open spec fn shows(state: StateView, origins: Seq<OriginView>, now_ms: u64) -> bool {
    &&& falling(origins)
    &&& no_origin_twice(origins)
    &&& forall|i: int|
        0 <= i < origins.len() ==> shows_leader(state, #[trigger] origins[i], now_ms)
    &&& forall|id: u32| #[trigger]
        has_origin(state, id) ==> shows_origin(origins, origin_in(state, id))
}

/// Where `placed` puts the origin.
proof fn lemma_placed(ranked: Seq<OriginView>, origin: OriginView, at: int)
    requires
        0 <= at <= ranked.len(),
        at > 0 ==> ranked[at - 1].score >= origin.score,
        forall|i: int| at <= i < ranked.len() ==> (#[trigger] ranked[i]).score < origin.score,
    ensures
        placed(ranked, origin) == ranked.insert(at, origin),
    decreases ranked.len(),
{
    if at < ranked.len() {
        lemma_placed(ranked.drop_last(), origin, at);
        assert(ranked.last() == ranked[ranked.len() - 1]);
        assert(ranked.drop_last().insert(at, origin).push(ranked.last()) =~= ranked.insert(
            at,
            origin,
        ));
    } else {
        assert(ranked.push(origin) =~= ranked.insert(at, origin));
    }
}

/// Some place fits.
proof fn lemma_place_exists(ranked: Seq<OriginView>, origin: OriginView) -> (at: int)
    ensures
        0 <= at <= ranked.len(),
        at > 0 ==> ranked[at - 1].score >= origin.score,
        forall|i: int| at <= i < ranked.len() ==> (#[trigger] ranked[i]).score < origin.score,
    decreases ranked.len(),
{
    if ranked.len() == 0 || ranked.last().score >= origin.score {
        ranked.len() as int
    } else {
        let rest = ranked.drop_last();
        let at = lemma_place_exists(rest, origin);
        assert forall|i: int| at <= i < ranked.len() implies (#[trigger] ranked[i]).score
            < origin.score by {
            if i < rest.len() {
                assert(rest[i].score < origin.score);
            }
        }
        at
    }
}

/// `by_score` orders the origins, and neither adds nor drops any.
pub proof fn lemma_by_score(origins: Seq<OriginView>)
    ensures
        falling(by_score(origins)),
        by_score(origins).len() == origins.len(),
        forall|origin: OriginView| #[trigger]
            by_score(origins).contains(origin) <==> origins.contains(origin),
        no_origin_twice(origins) ==> no_origin_twice(by_score(origins)),
    decreases origins.len(),
{
    if origins.len() > 0 {
        let rest = origins.drop_last();
        let last = origins.last();
        let before = by_score(rest);
        let after = by_score(origins);
        lemma_by_score(rest);
        let at = lemma_place_exists(before, last);
        lemma_placed(before, last, at);
        assert(after == before.insert(at, last));
        assert forall|i: int| 0 <= i < at implies (#[trigger] before[i]).score >= last.score by {
            if i < at - 1 {
                assert(before[i].score >= before[at - 1].score);
            }
        }
        assert forall|i: int, j: int| 0 <= i < j < after.len() implies (#[trigger] after[i]).score
            >= (#[trigger] after[j]).score by {
            let x = if i < at {
                i
            } else {
                i - 1
            };
            let y = if j < at {
                j
            } else {
                j - 1
            };
            if i == at {
                assert(after[j] == before[y]);
            } else if j == at {
                assert(after[i] == before[x]);
            } else {
                assert(after[i] == before[x]);
                assert(after[j] == before[y]);
            }
        }
        assert forall|origin: OriginView| #[trigger] after.contains(origin) <==> origins.contains(
            origin,
        ) by {
            if after.contains(origin) {
                let i = choose|i: int| 0 <= i < after.len() && after[i] == origin;
                if i == at {
                    assert(origins[origins.len() - 1] == origin);
                } else {
                    let x = if i < at {
                        i
                    } else {
                        i - 1
                    };
                    assert(before[x] == origin);
                    assert(before.contains(origin));
                    let k = choose|k: int| 0 <= k < rest.len() && rest[k] == origin;
                    assert(origins[k] == origin);
                }
            }
            if origins.contains(origin) {
                let k = choose|k: int| 0 <= k < origins.len() && origins[k] == origin;
                if k < rest.len() {
                    assert(rest[k] == origin);
                    assert(before.contains(origin));
                    let x = choose|x: int| 0 <= x < before.len() && before[x] == origin;
                    assert(after[if x < at { x } else { x + 1 }] == origin);
                } else {
                    assert(after[at] == origin);
                }
            }
        }
        if no_origin_twice(origins) {
            assert forall|i: int, j: int| 0 <= i < j < rest.len() implies (
            #[trigger] rest[i]).origin != (#[trigger] rest[j]).origin by {
                assert(origins[i].origin != origins[j].origin);
            }
            assert forall|x: int| 0 <= x < before.len() implies (#[trigger] before[x]).origin
                != last.origin by {
                assert(before.contains(before[x]));
                let k = choose|k: int| 0 <= k < rest.len() && rest[k] == before[x];
                assert(origins[k].origin != origins[origins.len() - 1].origin);
            }
            assert forall|i: int, j: int| 0 <= i < j < after.len() implies (
            #[trigger] after[i]).origin != (#[trigger] after[j]).origin by {
                let x = if i < at {
                    i
                } else {
                    i - 1
                };
                let y = if j < at {
                    j
                } else {
                    j - 1
                };
                if i == at {
                    assert(after[j] == before[y]);
                } else if j == at {
                    assert(after[i] == before[x]);
                } else {
                    assert(after[i] == before[x]);
                    assert(after[j] == before[y]);
                }
            }
        }
    }
}

/// Where each of the ordered origins stood before: each once, and those with the same score in
/// the same order.
pub proof fn law_by_score_is_stable(origins: Seq<OriginView>) -> (places: Seq<int>)
    ensures
        places.len() == origins.len(),
        by_score(origins).len() == origins.len(),
        places.no_duplicates(),
        forall|i: int|
            #![trigger places[i]]
            0 <= i < places.len() ==> 0 <= places[i] < origins.len() && by_score(origins)[i]
                == origins[places[i]],
        forall|i: int, j: int|
            #![trigger places[i], places[j]]
            0 <= i < j < places.len() ==> {
                &&& origins[places[i]].score >= origins[places[j]].score
                &&& origins[places[i]].score == origins[places[j]].score ==> places[i] < places[j]
            },
    decreases origins.len(),
{
    if origins.len() == 0 {
        Seq::empty()
    } else {
        let rest = origins.drop_last();
        let last = origins.last();
        let n = rest.len() as int;
        let before = by_score(rest);
        let earlier = law_by_score_is_stable(rest);
        let at = lemma_place_exists(before, last);
        lemma_placed(before, last, at);
        lemma_by_score(origins);
        let after = by_score(origins);
        assert(after == before.insert(at, last));
        let places = earlier.insert(at, n);
        assert forall|i: int|
            #![trigger places[i]]
            0 <= i < places.len() implies 0 <= places[i] < origins.len() && after[i]
            == origins[places[i]] && (i == at <==> places[i] == n) by {
            if i < at {
                assert(places[i] == earlier[i]);
            } else if i > at {
                assert(places[i] == earlier[i - 1]);
            }
        }
        assert forall|i: int, j: int| 0 <= i < places.len() && 0 <= j < places.len() && i != j implies places[i]
            != places[j] by {
            if i != at && j != at {
                let x = if i < at {
                    i
                } else {
                    i - 1
                };
                let y = if j < at {
                    j
                } else {
                    j - 1
                };
                assert(places[i] == earlier[x] && places[j] == earlier[y]);
            }
        }
        assert forall|i: int, j: int|
            #![trigger places[i], places[j]]
            0 <= i < j < places.len() implies ({
            &&& origins[places[i]].score >= origins[places[j]].score
            &&& origins[places[i]].score == origins[places[j]].score ==> places[i] < places[j]
        }) by {
            assert(after[i].score >= after[j].score);
            if i == at {
                assert(after[j] == before[j - 1]);
            } else if j != at {
                let x = if i < at {
                    i
                } else {
                    i - 1
                };
                let y = if j < at {
                    j
                } else {
                    j - 1
                };
                assert(places[i] == earlier[x] && places[j] == earlier[y]);
                assert(origins[earlier[x]] == rest[earlier[x]]);
                assert(origins[earlier[y]] == rest[earlier[y]]);
            }
        }
        places
    }
}

/// Whatever the order of the walk, it finds the origins of the open tabs.
pub proof fn lemma_walk_shows(state: StateView, walk: Seq<u32>, now_ms: u64)
    requires
        visits_tabs(state, walk),
    ensures
        shows(state, origins_of_walk(state, walk, now_ms), now_ms),
{
    let found = leaders(state, walk, now_ms, false);
    let listed = found.map_values(|id: u32| origin_snapshot(state, id, now_ms));
    let origins = by_score(listed);
    lemma_leaders_lead(state, walk, now_ms, false);
    assert forall|i: int, j: int| 0 <= i < j < listed.len() implies (#[trigger] listed[i]).origin
        != (#[trigger] listed[j]).origin by {
        assert(origin_in(state, found[i]) != origin_in(state, found[j]));
    }
    lemma_by_score(listed);
    assert forall|i: int| 0 <= i < origins.len() implies shows_leader(
        state,
        #[trigger] origins[i],
        now_ms,
    ) by {
        assert(origins.contains(origins[i]));
        let k = choose|k: int| 0 <= k < listed.len() && listed[k] == origins[i];
        assert(leads(state, found[k], now_ms, false));
    }
    assert forall|id: u32| #[trigger] has_origin(state, id) implies shows_origin(
        origins,
        origin_in(state, id),
    ) by {
        assert(contender(state, id, now_ms, false));
        assert(covered(state, found, id, now_ms));
        let k = choose|k: int|
            0 <= k < found.len() && origin_in(state, #[trigger] found[k]) == origin_in(state, id)
                && score_in(state, id, now_ms).score <= score_in(state, found[k], now_ms).score;
        assert(listed.contains(listed[k]));
        assert(origins.contains(listed[k]));
        let i = choose|i: int| 0 <= i < origins.len() && origins[i] == listed[k];
        assert(origins[i].origin == origin_in(state, id));
    }
}

/// The later of two time stamps, as far as they are there.
fn latest(a: Option<u64>, b: Option<u64>) -> (latest: Option<u64>)
    ensures
        latest == later(a, b),
{
    match (a, b) {
        (Some(x), Some(y)) => if x >= y {
            Some(x)
        } else {
            Some(y)
        },
        (Some(x), None) => Some(x),
        (None, y) => y,
    }
}

/// Puts an origin behind all that score no less.
fn place(ranked: &mut Vec<OriginSnapshot>, origin: OriginSnapshot)
    ensures
        origin_views(final(ranked)@) == placed(origin_views(old(ranked)@), origin@),
{
    let mut at: usize = ranked.len();
    while at > 0 && ranked[at - 1].score < origin.score
        invariant
            at <= ranked.len(),
            forall|i: int| at <= i < ranked.len() ==> (#[trigger] ranked@[i]).score < origin.score,
        decreases at,
    {
        at = at - 1;
    }
    let ghost before = origin_views(ranked@);
    proof {
        lemma_placed(before, origin@, at as int);
    }
    ranked.insert(at, origin);
    assert(origin_views(ranked@) =~= before.insert(at as int, origin@));
}

/// Copies the history.
fn copy_events(state: &CorrelationState) -> (events: Vec<EventSummary>)
    ensures
        events@.map_values(|event: EventSummary| event@) == state@.events,
{
    let mut events: Vec<EventSummary> = Vec::new();
    let mut i: usize = 0;
    while i < state.events.len()
        invariant
            i <= state.events.len(),
            events.len() == i,
            forall|j: int| 0 <= j < i ==> (#[trigger] events@[j])@ == state@.events[j],
        decreases state.events.len() - i,
    {
        let event = &state.events[i];
        let copy = EventSummary {
            ts_ms: event.ts_ms,
            event_type: event.event_type.clone(),
            origin: copy_optional(&event.origin),
        };
        assert(copy@ == state@.events[i as int]);
        events.push(copy);
        i = i + 1;
    }
    assert(events@.map_values(|event: EventSummary| event@) =~= state@.events);
    events
}

/// The snapshot, visiting the tabs in the order of `walk`.
pub fn snapshot_walk(state: &CorrelationState, walk: &Vec<u32>, now_ms: u64) -> (snapshot:
    DashboardSnapshot)
    ensures
        snapshot@ == snapshot_with(
            state@,
            origins_of_walk(state@, walk@, now_ms),
            now_ms,
        ),
{
    let high = cpu_high(state, now_ms);
    let active_origin: Option<String> = match state.active_tab_id {
        Some(tab_id) => match state.tabs.get(&tab_id) {
            Some(tab_state) => copy_optional(&tab_state.origin),
            None => None,
        },
        None => None,
    };
    assert(optional_text(active_origin) == self::active_origin(state@));
    let ranked = rank_tabs(state, walk, now_ms, false);
    let ghost all = ranked@;
    let ghost ids = tab_ids(all);
    let ghost make = |id: u32| origin_snapshot(state@, id, now_ms);
    let mut origins: Vec<OriginSnapshot> = Vec::new();
    proof {
        crate::ranking::lemma_leaders(state@, walk@, now_ms, false);
        assert(origin_views(origins@) =~= Seq::empty());
        assert(ids.take(0).map_values(make) =~= Seq::empty());
    }
    for leader in iter: ranked
        invariant
            iter.seq() == all,
            ids == tab_ids(all),
            forall|i: int|
                0 <= i < ids.len() ==> contender(state@, #[trigger] ids[i], now_ms, false),
            describes(state@, all, now_ms),
            make == |id: u32| origin_snapshot(state@, id, now_ms),
            origin_views(origins@) == by_score(ids.take(iter.index() as int).map_values(make)),
    {
        let ghost k = iter.index();
        let ghost id = leader.tab_id;
        proof {
            assert(leader == all[k]);
            assert(ids[k] == id);
            let longer = ids.take(k + 1).map_values(make);
            assert(longer.drop_last() =~= ids.take(k).map_values(make));
            assert(longer.last() == make(id));
        }
        if let Some(tab_state) = state.tabs.get(&leader.tab_id) {
            let snapshot = OriginSnapshot {
                origin: leader.origin,
                score: leader.details.score,
                reasons: leader.details.reasons,
                contributions: leader.details.contributions,
                last_visibility: copy_optional(&tab_state.last_visibility),
                last_compute_ms: latest(
                    latest(tab_state.last_worker_ms, tab_state.last_wasm_ms),
                    tab_state.last_media_ms,
                ),
            };
            assert(snapshot@ =~= make(id));
            place(&mut origins, snapshot);
        }
    }
    assert(ids.take(ids.len() as int) =~= ids);
    DashboardSnapshot {
        now_ms,
        cpu_pct: state.last_cpu_pct,
        cpu_high: high,
        cpu_high_active: high && active_origin.is_some(),
        active_origin,
        origins,
        last_events: copy_events(state),
    }
}

/// The snapshot. In which order origins with the same score come, and which of several tabs
/// with the same score is shown, rests on the order in which the map hands out the tabs.
pub fn build_snapshot(state: &CorrelationState, now_ms: u64) -> (snapshot: DashboardSnapshot)
    ensures
        shows(state@, snapshot@.origins, now_ms),
        snapshot@ == snapshot_with(state@, snapshot@.origins, now_ms),
{
    let walk = walk_tabs(state);
    proof {
        lemma_walk_shows(state@, walk@, now_ms);
    }
    snapshot_walk(state, &walk, now_ms)
}

} // verus!
