//! The tab with the highest score, for each origin.
use vstd::prelude::*;
use vstd::std_specs::iter::IteratorSpec;

use crate::clock::{age_ms, is_recent};
use crate::cpu::{cpu_high, cpu_is_high};
use crate::score::{score_tab, tab_score, OriginScore, ScoreView, WORKER_RECENT_MS};
use crate::state::{CorrelationState, StateView, TabView};

verus! {

broadcast use vstd::std_specs::hash::group_hash_axioms;

/// Whether the tab was heard of recently.
pub open spec fn seen_recently(tab: TabView, now_ms: u64) -> bool {
    match tab.last_seen_ms {
        Some(ts_ms) => age_ms(ts_ms, now_ms) <= WORKER_RECENT_MS,
        None => false,
    }
}

/// The score of one of the tabs.
pub open spec fn score_in(state: StateView, id: u32, now_ms: u64) -> ScoreView {
    tab_score(
        state.tabs[id],
        now_ms,
        cpu_is_high(state, now_ms),
        state.active_tab_id == Some(id),
        seen_recently(state.tabs[id], now_ms),
    )
}

/// Whether a tab computes while nobody is looking at it.
pub open spec fn suspicious(score: ScoreView) -> bool {
    score.compute_present && (score.hidden_present || score.idle_present)
}

/// Whether the tab is open and its origin is known.
pub open spec fn has_origin(state: StateView, id: u32) -> bool {
    state.tabs.contains_key(id) && state.tabs[id].origin is Some
}

/// The origin of a tab.
pub open spec fn origin_in(state: StateView, id: u32) -> Seq<char> {
    state.tabs[id].origin->0
}

/// Whether the tab takes part in the ranking.
pub open spec fn contender(state: StateView, id: u32, now_ms: u64, suspicious_only: bool) -> bool {
    has_origin(state, id) && (suspicious_only ==> suspicious(score_in(state, id, now_ms)))
}

/// The leaders after one more contender: it joins them where its origin has no leader yet,
/// and takes the place of the leader of its origin where it scores more.
pub open spec fn challenged(state: StateView, leaders: Seq<u32>, id: u32, now_ms: u64) -> Seq<u32> {
    if forall|i: int|
        0 <= i < leaders.len() ==> origin_in(state, #[trigger] leaders[i]) != origin_in(state, id) {
        leaders.push(id)
    } else {
        leaders.map_values(
            |leader: u32|
                if origin_in(state, leader) == origin_in(state, id) && score_in(
                    state,
                    id,
                    now_ms,
                ).score > score_in(state, leader, now_ms).score {
                    id
                } else {
                    leader
                },
        )
    }
}

/// For each origin among the contenders in `walk`, the first of its tabs with the highest
/// score. The origins stand in the order in which they come up.
pub open spec fn leaders(
    state: StateView,
    walk: Seq<u32>,
    now_ms: u64,
    suspicious_only: bool,
) -> Seq<u32>
    decreases walk.len(),
{
    if walk.len() == 0 {
        Seq::empty()
    } else {
        let before = leaders(state, walk.drop_last(), now_ms, suspicious_only);
        if contender(state, walk.last(), now_ms, suspicious_only) {
            challenged(state, before, walk.last(), now_ms)
        } else {
            before
        }
    }
}

/// Whether `id` leads the contenders of its origin.
pub open spec fn leads(state: StateView, id: u32, now_ms: u64, suspicious_only: bool) -> bool {
    &&& contender(state, id, now_ms, suspicious_only)
    &&& forall|other: u32|
        #[trigger] contender(state, other, now_ms, suspicious_only) && origin_in(state, other)
            == origin_in(state, id) ==> score_in(state, other, now_ms).score <= score_in(
            state,
            id,
            now_ms,
        ).score
}

/// Whether no two of the tabs have the same origin.
pub open spec fn distinct_origins(state: StateView, ids: Seq<u32>) -> bool {
    forall|i: int, j: int|
        0 <= i < j < ids.len() ==> origin_in(state, #[trigger] ids[i]) != origin_in(
            state,
            #[trigger] ids[j],
        )
}

/// Whether some of the tabs has the same origin as `id`, and no lower a score.
pub open spec fn covered(state: StateView, ids: Seq<u32>, id: u32, now_ms: u64) -> bool {
    exists|i: int|
        0 <= i < ids.len() && origin_in(state, #[trigger] ids[i]) == origin_in(state, id)
            && score_in(state, id, now_ms).score <= score_in(state, ids[i], now_ms).score
}

/// The leaders are contenders with different origins, and cover every contender.
#[verifier::spinoff_prover]
#[verifier::rlimit(40)]
pub proof fn lemma_leaders(state: StateView, walk: Seq<u32>, now_ms: u64, suspicious_only: bool)
    ensures
        ({
            let found = leaders(state, walk, now_ms, suspicious_only);
            &&& distinct_origins(state, found)
            &&& forall|i: int|
                0 <= i < found.len() ==> contender(
                    state,
                    #[trigger] found[i],
                    now_ms,
                    suspicious_only,
                ) && walk.contains(found[i])
            &&& forall|k: int|
                0 <= k < walk.len() && contender(state, #[trigger] walk[k], now_ms, suspicious_only)
                    ==> covered(state, found, walk[k], now_ms)
        }),
    decreases walk.len(),
{
    if walk.len() > 0 {
        let rest = walk.drop_last();
        let id = walk.last();
        let before = leaders(state, rest, now_ms, suspicious_only);
        let found = leaders(state, walk, now_ms, suspicious_only);
        lemma_leaders(state, rest, now_ms, suspicious_only);
        assert(walk[walk.len() - 1] == id);
        assert forall|i: int| 0 <= i < before.len() implies walk.contains(#[trigger] before[i]) by {
            let k = choose|k: int| 0 <= k < rest.len() && rest[k] == before[i];
            assert(walk[k] == before[i]);
        }
        if contender(state, id, now_ms, suspicious_only) {
            let fresh = forall|i: int|
                0 <= i < before.len() ==> origin_in(state, #[trigger] before[i]) != origin_in(
                    state,
                    id,
                );
            if fresh {
                assert(found == before.push(id));
                assert(found[before.len() as int] == id);
            } else {
                assert(found.len() == before.len());
                let i = choose|i: int|
                    0 <= i < before.len() && origin_in(state, #[trigger] before[i]) == origin_in(
                        state,
                        id,
                    );
                assert(origin_in(state, found[i]) == origin_in(state, id));
                assert(score_in(state, id, now_ms).score <= score_in(
                    state,
                    found[i],
                    now_ms,
                ).score);
            }
            assert(covered(state, found, id, now_ms));
            assert forall|i: int| 0 <= i < before.len() implies origin_in(state, #[trigger] found[i])
                == origin_in(state, before[i]) && score_in(state, before[i], now_ms).score
                <= score_in(state, found[i], now_ms).score by {}
            assert forall|i: int, j: int| 0 <= i < j < found.len() implies origin_in(
                state,
                #[trigger] found[i],
            ) != origin_in(state, #[trigger] found[j]) by {
                if j < before.len() {
                    assert(origin_in(state, before[i]) != origin_in(state, before[j]));
                } else {
                    assert(origin_in(state, before[i]) != origin_in(state, id));
                }
            }
        }
        assert forall|k: int|
            0 <= k < walk.len() && contender(
                state,
                #[trigger] walk[k],
                now_ms,
                suspicious_only,
            ) implies covered(state, found, walk[k], now_ms) by {
            if k < rest.len() {
                assert(rest[k] == walk[k]);
                assert(covered(state, before, walk[k], now_ms));
                let i = choose|i: int|
                    0 <= i < before.len() && origin_in(state, #[trigger] before[i]) == origin_in(
                        state,
                        walk[k],
                    ) && score_in(state, walk[k], now_ms).score <= score_in(
                        state,
                        before[i],
                        now_ms,
                    ).score;
                assert(origin_in(state, found[i]) == origin_in(state, before[i]));
            }
        }
    }
}

/// Whether `walk` visits the open tabs, each once.
pub open spec fn visits_tabs(state: StateView, walk: Seq<u32>) -> bool {
    &&& walk.no_duplicates()
    &&& forall|id: u32| #[trigger] walk.contains(id) <==> state.tabs.contains_key(id)
}

/// A walk of all tabs finds, for each origin, a tab that leads it.
pub proof fn lemma_leaders_lead(
    state: StateView,
    walk: Seq<u32>,
    now_ms: u64,
    suspicious_only: bool,
)
    requires
        visits_tabs(state, walk),
    ensures
        ({
            let found = leaders(state, walk, now_ms, suspicious_only);
            &&& distinct_origins(state, found)
            &&& forall|i: int|
                0 <= i < found.len() ==> leads(state, #[trigger] found[i], now_ms, suspicious_only)
            &&& forall|id: u32| #[trigger]
                contender(state, id, now_ms, suspicious_only) ==> covered(state, found, id, now_ms)
        }),
{
    let found = leaders(state, walk, now_ms, suspicious_only);
    lemma_leaders(state, walk, now_ms, suspicious_only);
    assert forall|id: u32| #[trigger] contender(state, id, now_ms, suspicious_only) implies covered(
        state,
        found,
        id,
        now_ms,
    ) by {
        assert(walk.contains(id));
    }
    assert forall|i: int| 0 <= i < found.len() implies leads(
        state,
        #[trigger] found[i],
        now_ms,
        suspicious_only,
    ) by {
        assert forall|other: u32|
            #[trigger] contender(state, other, now_ms, suspicious_only) && origin_in(state, other)
                == origin_in(state, found[i]) implies score_in(state, other, now_ms).score
            <= score_in(state, found[i], now_ms).score by {
            assert(covered(state, found, other, now_ms));
            let j = choose|j: int|
                0 <= j < found.len() && origin_in(state, #[trigger] found[j]) == origin_in(
                    state,
                    other,
                ) && score_in(state, other, now_ms).score <= score_in(state, found[j], now_ms).score;
            if i < j {
                assert(origin_in(state, found[i]) != origin_in(state, found[j]));
            } else if j < i {
                assert(origin_in(state, found[j]) != origin_in(state, found[i]));
            }
        }
    }
}

/// A tab that leads its origin.
pub struct Leader {
    pub tab_id: u32,
    pub origin: String,
    pub details: OriginScore,
}

/// The tabs of some leaders.
pub open spec fn tab_ids(ranked: Seq<Leader>) -> Seq<u32> {
    ranked.map_values(|leader: Leader| leader.tab_id)
}

/// Whether each leader carries the origin and the score of its tab.
pub open spec fn describes(state: StateView, ranked: Seq<Leader>, now_ms: u64) -> bool {
    forall|i: int|
        #![trigger ranked[i]]
        0 <= i < ranked.len() ==> {
            &&& ranked[i].origin@ == origin_in(state, ranked[i].tab_id)
            &&& ranked[i].details@ == score_in(state, ranked[i].tab_id, now_ms)
        }
}

/// The tabs, in the order in which the map hands them out.
pub fn walk_tabs(state: &CorrelationState) -> (walk: Vec<u32>)
    ensures
        visits_tabs(state@, walk@),
{
    let mut walk: Vec<u32> = Vec::new();
    let keys = state.tabs.keys();
    let ghost visited = keys.remaining();
    for id in iter: keys
        invariant
            iter.seq() == visited,
            walk@ == visited.unref().take(iter.index() as int),
    {
        walk.push(*id);
    }
    proof {
        assert(walk@ =~= visited.unref());
        assert forall|i: int, j: int| 0 <= i < walk@.len() && 0 <= j < walk@.len() && i != j implies walk@[i]
            != walk@[j] by {
            assert(visited[i] != visited[j]);
        }
        assert forall|id: u32| #[trigger] walk@.contains(id) <==> state@.tabs.contains_key(id) by {
            assert(walk@.contains(id) <==> walk@.to_set().contains(id));
        }
    }
    walk
}

/// Finds the leader of an origin.
fn find_leader(ranked: &Vec<Leader>, origin: &String) -> (found: Option<usize>)
    ensures
        match found {
            Some(i) => i < ranked.len() && ranked@[i as int].origin@ == origin@,
            None => forall|i: int|
                0 <= i < ranked.len() ==> (#[trigger] ranked@[i]).origin@ != origin@,
        },
{
    let mut i: usize = 0;
    while i < ranked.len()
        invariant
            i <= ranked.len(),
            forall|j: int| 0 <= j < i ==> (#[trigger] ranked@[j]).origin@ != origin@,
        decreases ranked.len() - i,
    {
        if ranked[i].origin == *origin {
            return Some(i);
        }
        i = i + 1;
    }
    None
}

/// Ranks the tabs of `walk`. Numbers in it that belong to no open tab are passed over.
pub fn rank_tabs(state: &CorrelationState, walk: &Vec<u32>, now_ms: u64, suspicious_only: bool) -> (ranked:
    Vec<Leader>)
    ensures
        tab_ids(ranked@) == leaders(state@, walk@, now_ms, suspicious_only),
        describes(state@, ranked@, now_ms),
{
    let high = cpu_high(state, now_ms);
    let mut ranked: Vec<Leader> = Vec::new();
    let mut k: usize = 0;
    proof {
        assert(tab_ids(ranked@) =~= Seq::empty());
        assert(walk@.take(0) =~= Seq::empty());
    }
    while k < walk.len()
        invariant
            k <= walk.len(),
            high == cpu_is_high(state@, now_ms),
            tab_ids(ranked@) == leaders(state@, walk@.take(k as int), now_ms, suspicious_only),
            describes(state@, ranked@, now_ms),
        decreases walk.len() - k,
    {
        let id: u32 = walk[k];
        let ghost before = ranked@;
        proof {
            assert(walk@.take(k + 1).drop_last() =~= walk@.take(k as int));
            assert(walk@.take(k + 1).last() == id);
            lemma_leaders(state@, walk@.take(k as int), now_ms, suspicious_only);
        }
        if let Some(tab_state) = state.tabs.get(&id) {
            assert(state@.tabs[id] == tab_state@);
            if let Some(origin) = &tab_state.origin {
                let seen_recent: bool = match tab_state.last_seen_ms {
                    Some(ts_ms) => is_recent(ts_ms, now_ms, WORKER_RECENT_MS),
                    None => false,
                };
                let active: bool = match state.active_tab_id {
                    Some(active_id) => active_id == id,
                    None => false,
                };
                let details = score_tab(tab_state, now_ms, high, active, seen_recent);
                assert(details@ == score_in(state@, id, now_ms));
                if !suspicious_only || (details.compute_present && (details.hidden_present
                    || details.idle_present)) {
                    assert(contender(state@, id, now_ms, suspicious_only));
                    let ghost after = challenged(state@, tab_ids(before), id, now_ms);
                    match find_leader(&ranked, origin) {
                        Some(i) => {
                            proof {
                                assert(origin_in(state@, tab_ids(before)[i as int]) == origin_in(
                                    state@,
                                    id,
                                ));
                                assert forall|j: int|
                                    0 <= j < before.len() && j != i implies origin_in(
                                    state@,
                                    #[trigger] tab_ids(before)[j],
                                ) != origin_in(state@, id) by {
                                    if i < j {
                                        assert(origin_in(state@, tab_ids(before)[i as int])
                                            != origin_in(state@, tab_ids(before)[j]));
                                    } else {
                                        assert(origin_in(state@, tab_ids(before)[j]) != origin_in(
                                            state@,
                                            tab_ids(before)[i as int],
                                        ));
                                    }
                                }
                            }
                            if details.score > ranked[i].details.score {
                                ranked.set(i, Leader { tab_id: id, origin: origin.clone(), details });
                            }
                            assert(tab_ids(ranked@) =~= after);
                        },
                        None => {
                            assert forall|j: int| 0 <= j < before.len() implies origin_in(
                                state@,
                                #[trigger] tab_ids(before)[j],
                            ) != origin_in(state@, id) by {
                                assert(before[j].origin@ != origin@);
                            }
                            ranked.push(Leader { tab_id: id, origin: origin.clone(), details });
                            assert(tab_ids(ranked@) =~= after);
                        },
                    }
                }
            }
        }
        k = k + 1;
    }
    assert(walk@.take(walk@.len() as int) =~= walk@);
    ranked
}

} // verus!
