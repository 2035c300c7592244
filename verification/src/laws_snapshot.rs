//! What holds of what the dashboards show.
use vstd::prelude::*;

use crate::laws_alerts::{belongs_to, lemma_terms, load_is_high, score_of};
use crate::laws_score::law_reasons_name_contributions;
use crate::laws_walk::{comes_up_before, first_best, law_leaders_come_first, wins};
use crate::ranking::{contender, covered, has_origin, leaders, leads, lemma_leaders, origin_in, score_in};
use crate::score::total;
use crate::snapshot::{
    by_score, law_by_score_is_stable, origin_snapshot, origins_of_walk, shows, shows_leader,
    shows_origin, snapshot_with, OriginView,
};
use crate::state::{StateView, TabView};

verus! {

/// Whether `latest` is the latest of the times at which something was started in the tab.
pub open spec fn latest_start(tab: TabView, latest: Option<u64>) -> bool {
    match latest {
        None => tab.last_worker_ms is None && tab.last_wasm_ms is None && tab.last_media_ms is None,
        Some(ts_ms) => {
            &&& tab.last_worker_ms == latest || tab.last_wasm_ms == latest || tab.last_media_ms
                == latest
            &&& tab.last_worker_ms matches Some(worker_ms) ==> worker_ms <= ts_ms
            &&& tab.last_wasm_ms matches Some(wasm_ms) ==> wasm_ms <= ts_ms
            &&& tab.last_media_ms matches Some(media_ms) ==> media_ms <= ts_ms
        },
    }
}

/// Whether this is what is shown of the tab: its score, with what it is made of, and what is
/// known of it.
pub open spec fn shows_tab(state: StateView, id: u32, origin: OriginView, now_ms: u64) -> bool {
    let score = score_of(state, id, now_ms);
    &&& belongs_to(state, id, origin.origin)
    &&& origin.score == score.score
    &&& origin.reasons == score.reasons
    &&& origin.contributions == score.contributions
    &&& origin.last_visibility == state.tabs[id].last_visibility
    &&& latest_start(state.tabs[id], origin.last_compute_ms)
}

/// Whether no tab of the origin outscores this one.
pub open spec fn best_of(state: StateView, id: u32, origin: Seq<char>, now_ms: u64) -> bool {
    forall|other: u32| #[trigger]
        belongs_to(state, other, origin) ==> score_of(state, other, now_ms).score <= score_of(
            state,
            id,
            now_ms,
        ).score
}

/// Whether the origin is shown by a tab that none of its tabs outscores.
pub open spec fn shown_by_best(state: StateView, origin: OriginView, now_ms: u64) -> bool {
    exists|id: u32| #[trigger]
        shows_tab(state, id, origin, now_ms) && best_of(state, id, origin.origin, now_ms)
}

proof fn lemma_shows_tab(state: StateView, id: u32, now_ms: u64)
    requires
        has_origin(state, id),
    ensures
        shows_tab(state, id, origin_snapshot(state, id, now_ms), now_ms),
{
    lemma_terms(state, id, origin_in(state, id), now_ms);
}

/// Of each origin that is shown, the score is the sum of the contributions that are shown with
/// it, the reasons name them, and all of it is that of a tab of the origin that no other of its
/// tabs outscores.
pub proof fn law_origins_shown_by_best(
    state: StateView,
    origins: Seq<OriginView>,
    now_ms: u64,
    i: int,
)
    requires
        shows(state, origins, now_ms),
        0 <= i < origins.len(),
    ensures
        shown_by_best(state, origins[i], now_ms),
        origins[i].score == total(origins[i].contributions),
        origins[i].reasons.len() == origins[i].contributions.len(),
        forall|k: int|
            0 <= k < origins[i].reasons.len() ==> #[trigger] origins[i].reasons[k]
                == origins[i].contributions[k].name,
{
    assert(shows_leader(state, origins[i], now_ms));
    let id = choose|id: u32| #[trigger]
        leads(state, id, now_ms, false) && origins[i] == origin_snapshot(state, id, now_ms);
    assert(contender(state, id, now_ms, false));
    lemma_shows_tab(state, id, now_ms);
    assert forall|other: u32| #[trigger]
        belongs_to(state, other, origins[i].origin) implies score_of(state, other, now_ms).score
        <= score_of(state, id, now_ms).score by {
        lemma_terms(state, other, origins[i].origin, now_ms);
        lemma_terms(state, id, origins[i].origin, now_ms);
        assert(contender(state, other, now_ms, false));
    }
    law_reasons_name_contributions(
        state.tabs[id],
        now_ms,
        load_is_high(state, now_ms),
        state.active_tab_id == Some(id),
        crate::laws_score::not_older(state.tabs[id].last_seen_ms, now_ms, 30_000),
    );
}

/// Every origin of an open tab is shown, and once. One whose best tab outscores the best tab of
/// another one stands before it.
pub proof fn law_origins_shown_once_in_order(
    state: StateView,
    origins: Seq<OriginView>,
    now_ms: u64,
    id: u32,
    other: u32,
    origin: Seq<char>,
    behind: Seq<char>,
)
    requires
        shows(state, origins, now_ms),
        belongs_to(state, id, origin),
        best_of(state, id, origin, now_ms),
        belongs_to(state, other, behind),
        best_of(state, other, behind, now_ms),
        score_of(state, id, now_ms).score > score_of(state, other, now_ms).score,
    ensures
        exists|i: int, j: int|
            #![trigger origins[i], origins[j]]
            0 <= i < j < origins.len() && origins[i].origin == origin && origins[j].origin
                == behind && origins[i].score == score_of(state, id, now_ms).score
                && origins[j].score == score_of(state, other, now_ms).score,
{
    let i = law_origin_is_shown(state, origins, now_ms, id, origin);
    let j = law_origin_is_shown(state, origins, now_ms, other, behind);
    if j < i {
        assert(origins[j].score >= origins[i].score);
    }
}

/// Every origin of an open tab is shown in one place, with the score of its best tab.
pub proof fn law_origin_is_shown(
    state: StateView,
    origins: Seq<OriginView>,
    now_ms: u64,
    id: u32,
    origin: Seq<char>,
) -> (at: int)
    requires
        shows(state, origins, now_ms),
        belongs_to(state, id, origin),
    ensures
        0 <= at < origins.len(),
        origins[at].origin == origin,
        forall|k: int| 0 <= k < origins.len() && k != at ==> (#[trigger] origins[k]).origin
            != origin,
        origins[at].score >= score_of(state, id, now_ms).score,
        best_of(state, id, origin, now_ms) ==> origins[at].score == score_of(
            state,
            id,
            now_ms,
        ).score,
{
    assert(has_origin(state, id));
    assert(shows_origin(origins, origin_in(state, id)));
    let at = choose|at: int| 0 <= at < origins.len() && (#[trigger] origins[at]).origin == origin;
    law_origins_shown_by_best(state, origins, now_ms, at);
    let best = choose|best: u32| #[trigger]
        shows_tab(state, best, origins[at], now_ms) && best_of(state, best, origin, now_ms);
    assert(belongs_to(state, best, origin));
    assert forall|k: int| 0 <= k < origins.len() && k != at implies (#[trigger] origins[k]).origin
        != origin by {
        if k < at {
            assert(origins[k].origin != origins[at].origin);
        } else {
            assert(origins[at].origin != origins[k].origin);
        }
    }
    at
}

/// The scores that are shown only fall from one origin to the next.
pub proof fn law_shown_scores_fall(
    state: StateView,
    origins: Seq<OriginView>,
    now_ms: u64,
    i: int,
    j: int,
)
    requires
        shows(state, origins, now_ms),
        0 <= i < j < origins.len(),
    ensures
        origins[i].score >= origins[j].score,
        origins[i].origin != origins[j].origin,
{
}

/// Besides the origins, a snapshot shows the moment, the latest sample of the load, whether the
/// load is high, the origin of the active tab, and the history.
pub proof fn law_snapshot_shows_state(state: StateView, origins: Seq<OriginView>, now_ms: u64)
    ensures
        ({
            let snapshot = snapshot_with(state, origins, now_ms);
            &&& snapshot.now_ms == now_ms
            &&& snapshot.cpu_pct == state.last_cpu_pct
            &&& snapshot.cpu_high <==> load_is_high(state, now_ms)
            &&& snapshot.cpu_high_active <==> load_is_high(state, now_ms)
                && snapshot.active_origin is Some
            &&& snapshot.active_origin is Some <==> exists|id: u32, origin: Seq<char>|
                state.active_tab_id == Some(id) && #[trigger] belongs_to(state, id, origin)
            &&& forall|id: u32, origin: Seq<char>|
                state.active_tab_id == Some(id) && #[trigger] belongs_to(state, id, origin)
                    ==> snapshot.active_origin == Some(origin)
            &&& snapshot.origins == origins
            &&& snapshot.last_events == state.events
        }),
{
    lemma_terms(state, 0, Seq::empty(), now_ms);
    if let Some(id) = state.active_tab_id {
        if state.tabs.contains_key(id) && state.tabs[id].origin is Some {
            assert(belongs_to(state, id, state.tabs[id].origin->0));
        }
    }
}

/// Whether the origin is shown by the first of its visited tabs that no other one of them
/// outscores.
pub open spec fn shown_by_first(
    state: StateView,
    walk: Seq<u32>,
    origin: OriginView,
    now_ms: u64,
) -> bool {
    exists|k: int|
        #![trigger walk[k]]
        first_best(state, walk, k, origin.origin, now_ms, false) && shows_tab(
            state,
            walk[k],
            origin,
            now_ms,
        )
}

/// A walk shows each origin that comes up by its first best tab, by falling score. Of two with
/// the same score, the one that comes up first stands first.
pub proof fn law_origins_of_walk(state: StateView, walk: Seq<u32>, now_ms: u64)
    ensures
        ({
            let origins = origins_of_walk(state, walk, now_ms);
            &&& forall|i: int|
                0 <= i < origins.len() ==> shown_by_first(
                    state,
                    walk,
                    #[trigger] origins[i],
                    now_ms,
                )
            &&& forall|i: int, j: int|
                0 <= i < j < origins.len() ==> {
                    &&& (#[trigger] origins[i]).score >= (#[trigger] origins[j]).score
                    &&& origins[i].origin != origins[j].origin
                    &&& origins[i].score == origins[j].score ==> comes_up_before(
                        state,
                        walk,
                        origins[i].origin,
                        origins[j].origin,
                        now_ms,
                        false,
                    )
                }
            &&& forall|k: int, origin: Seq<char>|
                0 <= k < walk.len() && #[trigger] belongs_to(state, walk[k], origin)
                    ==> shows_origin(origins, origin)
        }),
{
    let found = leaders(state, walk, now_ms, false);
    let make = |id: u32| origin_snapshot(state, id, now_ms);
    let listed = found.map_values(make);
    let origins = origins_of_walk(state, walk, now_ms);
    assert(origins == by_score(listed));
    let places = law_by_score_is_stable(listed);
    law_leaders_come_first(state, walk, now_ms, false);
    lemma_leaders(state, walk, now_ms, false);
    assert forall|i: int| 0 <= i < origins.len() implies shown_by_first(
        state,
        walk,
        #[trigger] origins[i],
        now_ms,
    ) by {
        let id = found[places[i]];
        assert(origins[i] == origin_snapshot(state, id, now_ms));
        assert(contender(state, id, now_ms, false));
        lemma_shows_tab(state, id, now_ms);
        assert(wins(state, walk, id, now_ms, false));
        let k = choose|k: int|
            #![trigger walk[k]]
            first_best(state, walk, k, origin_in(state, id), now_ms, false) && walk[k] == id;
        assert(first_best(state, walk, k, origins[i].origin, now_ms, false));
    }
    assert forall|i: int, j: int| 0 <= i < j < origins.len() implies ({
        &&& (#[trigger] origins[i]).score >= (#[trigger] origins[j]).score
        &&& origins[i].origin != origins[j].origin
        &&& origins[i].score == origins[j].score ==> comes_up_before(
            state,
            walk,
            origins[i].origin,
            origins[j].origin,
            now_ms,
            false,
        )
    }) by {
        let a = places[i];
        let b = places[j];
        assert(origins[i] == make(found[a]));
        assert(origins[j] == make(found[b]));
        if a < b {
            assert(origin_in(state, found[a]) != origin_in(state, found[b]));
        } else {
            assert(a != b);
            assert(origin_in(state, found[b]) != origin_in(state, found[a]));
        }
    }
    assert forall|k: int, origin: Seq<char>|
        0 <= k < walk.len() && #[trigger] belongs_to(state, walk[k], origin) implies shows_origin(
        origins,
        origin,
    ) by {
        lemma_terms(state, walk[k], origin, now_ms);
        assert(covered(state, found, walk[k], now_ms));
        let i = choose|i: int|
            0 <= i < found.len() && origin_in(state, #[trigger] found[i]) == origin_in(
                state,
                walk[k],
            ) && score_in(state, walk[k], now_ms).score <= score_in(state, found[i], now_ms).score;
        crate::snapshot::lemma_by_score(listed);
        assert(listed[i] == make(found[i]));
        assert(listed.contains(listed[i]));
        assert(origins.contains(listed[i]));
        let j = choose|j: int| 0 <= j < origins.len() && origins[j] == listed[i];
        assert(origins[j].origin == origin);
    }
}

} // verus!
