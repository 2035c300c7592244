//! What the order in which the tabs are visited decides.
use vstd::prelude::*;

use crate::alert::{alert_for, alerts_of_walk, cooling, AlertView};
use crate::laws_alerts::{
    alerted_lately, belongs_to, has_alert, lemma_terms, load_is_high, score_of, suspect,
};
use crate::ranking::{
    challenged, contender, covered, describes, leaders, lemma_leaders, origin_in, score_in, tab_ids,
    Leader,
};
use crate::state::StateView;

verus! {

/// Whether a tab stands for its origin: each open tab does, or only those that compute
/// unwatched.
pub open spec fn stands_for(
    state: StateView,
    id: u32,
    origin: Seq<char>,
    now_ms: u64,
    suspicious_only: bool,
) -> bool {
    if suspicious_only {
        suspect(state, id, origin, now_ms)
    } else {
        belongs_to(state, id, origin)
    }
}

/// Whether the tab that is visited `k`th is the first of those for the origin that no other one
/// outscores.
pub open spec fn first_best(
    state: StateView,
    walk: Seq<u32>,
    k: int,
    origin: Seq<char>,
    now_ms: u64,
    suspicious_only: bool,
) -> bool {
    &&& 0 <= k < walk.len()
    &&& stands_for(state, walk[k], origin, now_ms, suspicious_only)
    &&& forall|j: int|
        0 <= j < walk.len() && stands_for(
            state,
            #[trigger] walk[j],
            origin,
            now_ms,
            suspicious_only,
        ) ==> score_of(state, walk[j], now_ms).score <= score_of(state, walk[k], now_ms).score
    &&& forall|j: int|
        0 <= j < k && stands_for(state, #[trigger] walk[j], origin, now_ms, suspicious_only)
            ==> score_of(state, walk[j], now_ms).score < score_of(state, walk[k], now_ms).score
}

/// Whether a tab for the one origin is visited before any tab for the other one.
pub open spec fn comes_up_before(
    state: StateView,
    walk: Seq<u32>,
    origin: Seq<char>,
    other: Seq<char>,
    now_ms: u64,
    suspicious_only: bool,
) -> bool {
    exists|k: int|
        #![trigger walk[k]]
        0 <= k < walk.len() && stands_for(state, walk[k], origin, now_ms, suspicious_only)
            && forall|j: int|
            0 <= j <= k ==> !stands_for(state, #[trigger] walk[j], other, now_ms, suspicious_only)
}

/// Whether the tab is the first best one of its origin on the walk.
pub open spec fn wins(
    state: StateView,
    walk: Seq<u32>,
    id: u32,
    now_ms: u64,
    suspicious_only: bool,
) -> bool {
    exists|k: int|
        #![trigger walk[k]]
        first_best(state, walk, k, origin_in(state, id), now_ms, suspicious_only) && walk[k] == id
}

proof fn lemma_stands_for(
    state: StateView,
    id: u32,
    origin: Seq<char>,
    now_ms: u64,
    suspicious_only: bool,
)
    ensures
        stands_for(state, id, origin, now_ms, suspicious_only) <==> contender(
            state,
            id,
            now_ms,
            suspicious_only,
        ) && origin_in(state, id) == origin,
        score_of(state, id, now_ms) == score_in(state, id, now_ms),
{
    lemma_terms(state, id, origin, now_ms);
}

/// One more tab at the end of the walk.
proof fn lemma_wins_step(
    state: StateView,
    rest: Seq<u32>,
    id: u32,
    leader: u32,
    now_ms: u64,
    suspicious_only: bool,
)
    requires
        wins(state, rest, leader, now_ms, suspicious_only),
    ensures
        ({
            let walk = rest.push(id);
            let origin = origin_in(state, leader);
            let stands = stands_for(state, id, origin, now_ms, suspicious_only);
            if stands && score_of(state, id, now_ms).score > score_of(state, leader, now_ms).score {
                wins(state, walk, id, now_ms, suspicious_only)
            } else {
                wins(state, walk, leader, now_ms, suspicious_only)
            }
        }),
{
    let walk = rest.push(id);
    let origin = origin_in(state, leader);
    let k = choose|k: int|
        #![trigger rest[k]]
        first_best(state, rest, k, origin, now_ms, suspicious_only) && rest[k] == leader;
    lemma_stands_for(state, id, origin, now_ms, suspicious_only);
    assert(walk[k] == leader);
    assert(walk[rest.len() as int] == id);
    if stands_for(state, id, origin, now_ms, suspicious_only) && score_of(state, id, now_ms).score
        > score_of(state, leader, now_ms).score {
        assert forall|j: int|
            0 <= j < rest.len() && stands_for(
                state,
                #[trigger] walk[j],
                origin,
                now_ms,
                suspicious_only,
            ) implies score_of(state, walk[j], now_ms).score < score_of(state, id, now_ms).score by {
            assert(rest[j] == walk[j]);
        }
        assert(first_best(state, walk, rest.len() as int, origin, now_ms, suspicious_only));
    } else {
        assert forall|j: int|
            0 <= j < walk.len() && stands_for(
                state,
                #[trigger] walk[j],
                origin,
                now_ms,
                suspicious_only,
            ) implies score_of(state, walk[j], now_ms).score <= score_of(
            state,
            leader,
            now_ms,
        ).score by {
            if j < rest.len() {
                assert(rest[j] == walk[j]);
            }
        }
        assert forall|j: int|
            0 <= j < k && stands_for(state, #[trigger] walk[j], origin, now_ms, suspicious_only) implies score_of(
            state,
            walk[j],
            now_ms,
        ).score < score_of(state, leader, now_ms).score by {
            assert(rest[j] == walk[j]);
        }
        assert(first_best(state, walk, k, origin, now_ms, suspicious_only));
    }
}

/// What comes up first on a walk comes up first on a longer one.
proof fn lemma_order_step(
    state: StateView,
    rest: Seq<u32>,
    id: u32,
    origin: Seq<char>,
    other: Seq<char>,
    now_ms: u64,
    suspicious_only: bool,
)
    requires
        comes_up_before(state, rest, origin, other, now_ms, suspicious_only),
    ensures
        comes_up_before(state, rest.push(id), origin, other, now_ms, suspicious_only),
{
    let walk = rest.push(id);
    let k = choose|k: int|
        #![trigger rest[k]]
        0 <= k < rest.len() && stands_for(state, rest[k], origin, now_ms, suspicious_only)
            && forall|j: int|
            0 <= j <= k ==> !stands_for(state, #[trigger] rest[j], other, now_ms, suspicious_only);
    assert(walk[k] == rest[k]);
    assert forall|j: int| 0 <= j <= k implies !stands_for(
        state,
        #[trigger] walk[j],
        other,
        now_ms,
        suspicious_only,
    ) by {
        assert(rest[j] == walk[j]);
    }
}

/// The leaders of a walk are the first best tabs of their origins, in the order in which the
/// origins come up.
#[verifier::spinoff_prover]
pub proof fn law_leaders_come_first(
    state: StateView,
    walk: Seq<u32>,
    now_ms: u64,
    suspicious_only: bool,
)
    ensures
        ({
            let found = leaders(state, walk, now_ms, suspicious_only);
            &&& forall|i: int|
                0 <= i < found.len() ==> wins(
                    state,
                    walk,
                    #[trigger] found[i],
                    now_ms,
                    suspicious_only,
                )
            &&& forall|i: int, j: int|
                0 <= i < j < found.len() ==> comes_up_before(
                    state,
                    walk,
                    origin_in(state, #[trigger] found[i]),
                    origin_in(state, #[trigger] found[j]),
                    now_ms,
                    suspicious_only,
                )
        }),
    decreases walk.len(),
{
    if walk.len() > 0 {
        let rest = walk.drop_last();
        let id = walk.last();
        let before = leaders(state, rest, now_ms, suspicious_only);
        let found = leaders(state, walk, now_ms, suspicious_only);
        assert(walk =~= rest.push(id));
        law_leaders_come_first(state, rest, now_ms, suspicious_only);
        lemma_leaders(state, rest, now_ms, suspicious_only);
        let origin = origin_in(state, id);
        lemma_stands_for(state, id, origin, now_ms, suspicious_only);
        let part = contender(state, id, now_ms, suspicious_only);
        let fresh = forall|i: int|
            0 <= i < before.len() ==> origin_in(state, #[trigger] before[i]) != origin;
        assert(found == (if part {
            challenged(state, before, id, now_ms)
        } else {
            before
        }));
        assert forall|i: int| 0 <= i < before.len() implies wins(
            state,
            walk,
            #[trigger] found[i],
            now_ms,
            suspicious_only,
        ) && origin_in(state, found[i]) == origin_in(state, before[i]) by {
            assert(wins(state, rest, before[i], now_ms, suspicious_only));
            lemma_wins_step(state, rest, id, before[i], now_ms, suspicious_only);
            lemma_stands_for(
                state,
                id,
                origin_in(state, before[i]),
                now_ms,
                suspicious_only,
            );
            lemma_stands_for(
                state,
                before[i],
                origin_in(state, before[i]),
                now_ms,
                suspicious_only,
            );
        }
        if part && fresh {
            assert(found == before.push(id));
            let last = rest.len() as int;
            assert forall|j: int| 0 <= j < rest.len() implies !stands_for(
                state,
                #[trigger] walk[j],
                origin,
                now_ms,
                suspicious_only,
            ) by {
                lemma_stands_for(state, walk[j], origin, now_ms, suspicious_only);
                if stands_for(state, walk[j], origin, now_ms, suspicious_only) {
                    assert(rest[j] == walk[j]);
                    assert(covered(state, before, rest[j], now_ms));
                }
            }
            assert(first_best(state, walk, last, origin, now_ms, suspicious_only));
            assert(wins(state, walk, id, now_ms, suspicious_only)) by {
                assert(walk[last] == id);
            }
            assert forall|i: int| 0 <= i < before.len() implies comes_up_before(
                state,
                walk,
                origin_in(state, #[trigger] found[i]),
                origin,
                now_ms,
                suspicious_only,
            ) by {
                let k = choose|k: int|
                    #![trigger rest[k]]
                    first_best(
                        state,
                        rest,
                        k,
                        origin_in(state, before[i]),
                        now_ms,
                        suspicious_only,
                    ) && rest[k] == before[i];
                assert(walk[k] == rest[k]);
            }
        } else {
            assert(found.len() == before.len());
        }
        assert forall|i: int, j: int| 0 <= i < j < found.len() implies comes_up_before(
            state,
            walk,
            origin_in(state, #[trigger] found[i]),
            origin_in(state, #[trigger] found[j]),
            now_ms,
            suspicious_only,
        ) by {
            if j < before.len() {
                assert(origin_in(state, found[i]) == origin_in(state, before[i]));
                assert(origin_in(state, found[j]) == origin_in(state, before[j]));
                lemma_order_step(
                    state,
                    rest,
                    id,
                    origin_in(state, before[i]),
                    origin_in(state, before[j]),
                    now_ms,
                    suspicious_only,
                );
            }
        }
    }
}

/// A choice keeps the order: where each of the chosen stands among all.
proof fn lemma_filter_places(ids: Seq<u32>, pred: spec_fn(u32) -> bool) -> (places: Seq<int>)
    ensures
        places.len() == ids.filter(pred).len(),
        forall|i: int|
            #![trigger places[i]]
            0 <= i < places.len() ==> 0 <= places[i] < ids.len() && ids[places[i]] == ids.filter(
                pred,
            )[i] && pred(ids[places[i]]),
        forall|i: int, j: int|
            0 <= i < j < places.len() ==> #[trigger] places[i] < #[trigger] places[j],
    decreases ids.len(),
{
    reveal(Seq::filter);
    if ids.len() == 0 {
        Seq::empty()
    } else {
        let rest = ids.drop_last();
        let before = lemma_filter_places(rest, pred);
        if pred(ids.last()) {
            let places = before.push(ids.len() - 1);
            assert forall|i: int|
                #![trigger places[i]]
                0 <= i < places.len() implies 0 <= places[i] < ids.len() && ids[places[i]]
                == ids.filter(pred)[i] && pred(ids[places[i]]) by {
                if i < before.len() {
                    assert(places[i] == before[i]);
                }
            }
            assert forall|i: int, j: int| 0 <= i < j < places.len() implies #[trigger] places[i]
                < #[trigger] places[j] by {
                assert(places[i] == before[i]);
                if j < before.len() {
                    assert(places[j] == before[j]);
                }
            }
            places
        } else {
            before
        }
    }
}

/// Whether the alert is on the origin of the first best suspect on the walk, and gives its
/// reasons.
pub open spec fn speaks_for_first(
    state: StateView,
    walk: Seq<u32>,
    alert: AlertView,
    now_ms: u64,
) -> bool {
    exists|k: int|
        #![trigger walk[k]]
        first_best(state, walk, k, alert.origin, now_ms, true) && alert.reasons == score_of(
            state,
            walk[k],
            now_ms,
        ).reasons
}

/// The alerts of a walk come in the order in which their origins come up, each with the reasons
/// of the first best tab of its origin. There is one on each origin with a visited tab that
/// computes unwatched, but for those that were alerted on in the last 30 seconds, and there is
/// none while the load is not high.
pub proof fn law_alerts_of_walk(state: StateView, walk: Seq<u32>, now_ms: u64)
    ensures
        ({
            let alerts = alerts_of_walk(state, walk, now_ms);
            &&& !load_is_high(state, now_ms) ==> alerts.len() == 0
            &&& forall|i: int|
                0 <= i < alerts.len() ==> {
                    &&& speaks_for_first(state, walk, #[trigger] alerts[i], now_ms)
                    &&& !alerted_lately(state.last_alert_ms, alerts[i].origin, now_ms)
                    &&& alerts[i].ts_ms == now_ms
                    &&& alerts[i].score == 0x3f80_0000
                }
            &&& forall|i: int, j: int|
                0 <= i < j < alerts.len() ==> comes_up_before(
                    state,
                    walk,
                    (#[trigger] alerts[i]).origin,
                    (#[trigger] alerts[j]).origin,
                    now_ms,
                    true,
                )
            &&& forall|k: int, origin: Seq<char>|
                0 <= k < walk.len() && load_is_high(state, now_ms) && #[trigger] suspect(
                    state,
                    walk[k],
                    origin,
                    now_ms,
                ) && !alerted_lately(state.last_alert_ms, origin, now_ms) ==> has_alert(
                    alerts,
                    origin,
                )
        }),
{
    let alerts = alerts_of_walk(state, walk, now_ms);
    lemma_terms(state, 0, Seq::empty(), now_ms);
    if load_is_high(state, now_ms) {
        let found = leaders(state, walk, now_ms, true);
        let pred = |id: u32| !cooling(state, origin_in(state, id), now_ms);
        let kept = found.filter(pred);
        let places = lemma_filter_places(found, pred);
        law_leaders_come_first(state, walk, now_ms, true);
        lemma_leaders(state, walk, now_ms, true);
        assert forall|i: int| 0 <= i < alerts.len() implies ({
            &&& speaks_for_first(state, walk, #[trigger] alerts[i], now_ms)
            &&& !alerted_lately(state.last_alert_ms, alerts[i].origin, now_ms)
            &&& alerts[i].ts_ms == now_ms
            &&& alerts[i].score == 0x3f80_0000
        }) by {
            let id = found[places[i]];
            assert(kept[i] == id);
            assert(alerts[i] == alert_for(state, id, now_ms));
            assert(wins(state, walk, id, now_ms, true));
            lemma_terms(state, id, alerts[i].origin, now_ms);
            let k = choose|k: int|
                #![trigger walk[k]]
                first_best(state, walk, k, origin_in(state, id), now_ms, true) && walk[k] == id;
            assert(first_best(state, walk, k, alerts[i].origin, now_ms, true));
        }
        assert forall|i: int, j: int| 0 <= i < j < alerts.len() implies comes_up_before(
            state,
            walk,
            (#[trigger] alerts[i]).origin,
            (#[trigger] alerts[j]).origin,
            now_ms,
            true,
        ) by {
            let a = places[i];
            let b = places[j];
            assert(kept[i] == found[a] && kept[j] == found[b]);
            assert(comes_up_before(
                state,
                walk,
                origin_in(state, found[a]),
                origin_in(state, found[b]),
                now_ms,
                true,
            ));
        }
        assert forall|k: int, origin: Seq<char>|
            0 <= k < walk.len() && load_is_high(state, now_ms) && #[trigger] suspect(
                state,
                walk[k],
                origin,
                now_ms,
            ) && !alerted_lately(state.last_alert_ms, origin, now_ms) implies has_alert(
            alerts,
            origin,
        ) by {
            lemma_terms(state, walk[k], origin, now_ms);
            assert(covered(state, found, walk[k], now_ms));
            let i = choose|i: int|
                0 <= i < found.len() && origin_in(state, #[trigger] found[i]) == origin_in(
                    state,
                    walk[k],
                ) && score_in(state, walk[k], now_ms).score <= score_in(
                    state,
                    found[i],
                    now_ms,
                ).score;
            found.lemma_filter_contains(pred, i);
            let j = choose|j: int| 0 <= j < kept.len() && kept[j] == found[i];
            assert(alerts[j].origin == origin);
        }
    }
}

/// A ranking of the tabs of a walk lists a tab for every origin that comes up, with the origin
/// and the score of that tab, and no other origin.
pub proof fn law_ranking_is_complete(
    state: StateView,
    walk: Seq<u32>,
    ranked: Seq<Leader>,
    now_ms: u64,
    suspicious_only: bool,
)
    requires
        tab_ids(ranked) == leaders(state, walk, now_ms, suspicious_only),
        describes(state, ranked, now_ms),
    ensures
        forall|i: int|
            0 <= i < ranked.len() ==> {
                &&& stands_for(
                    state,
                    (#[trigger] ranked[i]).tab_id,
                    ranked[i].origin@,
                    now_ms,
                    suspicious_only,
                )
                &&& walk.contains(ranked[i].tab_id)
                &&& ranked[i].details@ == score_of(state, ranked[i].tab_id, now_ms)
            },
        forall|k: int, origin: Seq<char>|
            0 <= k < walk.len() && #[trigger] stands_for(
                state,
                walk[k],
                origin,
                now_ms,
                suspicious_only,
            ) ==> exists|i: int| 0 <= i < ranked.len() && (#[trigger] ranked[i]).origin@ == origin,
{
    let found = leaders(state, walk, now_ms, suspicious_only);
    lemma_leaders(state, walk, now_ms, suspicious_only);
    assert forall|i: int| 0 <= i < ranked.len() implies ({
        &&& stands_for(
            state,
            (#[trigger] ranked[i]).tab_id,
            ranked[i].origin@,
            now_ms,
            suspicious_only,
        )
        &&& walk.contains(ranked[i].tab_id)
        &&& ranked[i].details@ == score_of(state, ranked[i].tab_id, now_ms)
    }) by {
        assert(found[i] == ranked[i].tab_id);
        lemma_stands_for(state, found[i], ranked[i].origin@, now_ms, suspicious_only);
    }
    assert forall|k: int, origin: Seq<char>|
        0 <= k < walk.len() && #[trigger] stands_for(
            state,
            walk[k],
            origin,
            now_ms,
            suspicious_only,
        ) implies exists|i: int|
        0 <= i < ranked.len() && (#[trigger] ranked[i]).origin@ == origin by {
        lemma_stands_for(state, walk[k], origin, now_ms, suspicious_only);
        assert(covered(state, found, walk[k], now_ms));
        let i = choose|i: int|
            0 <= i < found.len() && origin_in(state, #[trigger] found[i]) == origin_in(
                state,
                walk[k],
            ) && score_in(state, walk[k], now_ms).score <= score_in(state, found[i], now_ms).score;
        assert(found[i] == ranked[i].tab_id);
        assert(ranked[i].origin@ == origin);
    }
}

} // verus!
