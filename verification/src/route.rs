//! Trips through several waypoints, and the choice of the best order.

use crate::jumps::{JumpMap, JumpView};
use crate::path::{allowed_ids, get_shortest_path, path_view};
use crate::search::{shortest_path, Hop};
use crate::universe::{SystemId, Universe};
use crate::validity::SystemValidityChecker;
use itertools::Itertools;
use vstd::prelude::*;

verus! {

/// One leg of a trip: from one waypoint to the next, with the path found,
/// or `None` if no path leads there.
#[derive(Debug, PartialEq, Eq)]
pub struct Route {
    pub start: SystemId,
    pub end: SystemId,
    pub jumps: Option<Vec<Hop>>,
}

/// A whole trip: the waypoints in the order chosen, the leg between each
/// two neighbours, whether every leg has a path, and the jumps of all legs
/// together.
#[derive(Debug, PartialEq, Eq)]
pub struct RoutePlan {
    pub systems: Vec<SystemId>,
    pub route: Vec<Route>,
    pub complete: bool,
    pub total_jumps: u128,
}

/// The mathematical content of a [`Route`].
pub struct RouteView {
    pub start: SystemId,
    pub end: SystemId,
    pub jumps: Option<Seq<Hop>>,
}

/// The mathematical content of a [`RoutePlan`].
pub struct PlanView {
    pub systems: Seq<SystemId>,
    pub route: Seq<RouteView>,
    pub complete: bool,
    pub total_jumps: nat,
}

impl View for Route {
    type V = RouteView;

    open spec fn view(&self) -> RouteView {
        RouteView { start: self.start, end: self.end, jumps: path_view(self.jumps) }
    }
}

/// The legs that a vector of routes holds.
pub open spec fn legs_of(route: Seq<Route>) -> Seq<RouteView> {
    Seq::new(route.len(), |i: int| route[i]@)
}

impl View for RoutePlan {
    type V = PlanView;

    open spec fn view(&self) -> PlanView {
        PlanView {
            systems: self.systems@,
            route: legs_of(self.route@),
            complete: self.complete,
            total_jumps: self.total_jumps as nat,
        }
    }
}

/// The leg from `a` to `b` with the path that the search finds.
pub open spec fn leg(g: JumpView, allowed: Set<SystemId>, a: SystemId, b: SystemId) -> RouteView {
    RouteView { start: a, end: b, jumps: shortest_path(g, allowed, a, b) }
}

/// The legs between each two neighbours among the first `n` of `systems`;
/// none if there are fewer than two.
pub open spec fn legs_between(
    g: JumpView,
    allowed: Set<SystemId>,
    systems: Seq<SystemId>,
    n: int,
) -> Seq<RouteView> {
    Seq::new(
        if n > 0 {
            (n - 1) as nat
        } else {
            0
        },
        |i: int| leg(g, allowed, systems[i], systems[i + 1]),
    )
}

/// The number of jumps of a leg; a leg without a path counts for none.
pub open spec fn leg_jumps(leg: RouteView) -> nat {
    match leg.jumps {
        Some(hops) => hops.len(),
        None => 0,
    }
}

/// The jumps of all the legs together.
pub open spec fn jumps_in(route: Seq<RouteView>) -> nat
    decreases route.len(),
{
    if route.len() == 0 {
        0
    } else {
        jumps_in(route.drop_last()) + leg_jumps(route.last())
    }
}

/// Every leg has a path.
pub open spec fn all_found(route: Seq<RouteView>) -> bool {
    forall|i: int| 0 <= i < route.len() ==> (#[trigger] route[i]).jumps is Some
}

/// The trip through `systems` in this order.
pub open spec fn plan_for(g: JumpView, allowed: Set<SystemId>, systems: Seq<SystemId>) -> PlanView {
    let route = legs_between(g, allowed, systems, systems.len() as int);
    PlanView { systems, route, complete: all_found(route), total_jumps: jumps_in(route) }
}

/// The trip `a` is better than the trip `b`: it is complete and `b` is
/// not, or both are alike in that and `a` has fewer jumps.
pub open spec fn better(a: PlanView, b: PlanView) -> bool {
    (a.complete && !b.complete) || (a.complete == b.complete && a.total_jumps < b.total_jumps)
}

/// The position of the best among the first `n` trips: the first to which
/// none is better.
pub open spec fn best_index(plans: Seq<PlanView>, n: int) -> int
    decreases n,
{
    if n <= 1 {
        0
    } else if better(plans[n - 1], plans[best_index(plans, n - 1)]) {
        n - 1
    } else {
        best_index(plans, n - 1)
    }
}

/// The waypoints of a trip from `start` through `middle` to `end`.
pub open spec fn with_ends(start: SystemId, middle: Seq<SystemId>, end: SystemId) -> Seq<SystemId> {
    seq![start] + middle + seq![end]
}

/// The trips from `start` to `end` through the stops in each of the given
/// orders.
pub open spec fn plans_for(
    g: JumpView,
    allowed: Set<SystemId>,
    start: SystemId,
    end: SystemId,
    orders: Seq<Seq<SystemId>>,
) -> Seq<PlanView> {
    Seq::new(orders.len(), |i: int| plan_for(g, allowed, with_ends(start, orders[i], end)))
}

/// The best trip from `start` to `end` among those that take the stops in
/// one of the given orders; of several that are equally good, the first.
pub open spec fn chosen_plan(
    g: JumpView,
    allowed: Set<SystemId>,
    start: SystemId,
    end: SystemId,
    orders: Seq<Seq<SystemId>>,
) -> PlanView {
    let plans = plans_for(g, allowed, start, end, orders);
    plans[best_index(plans, plans.len() as int)]
}

/// The best of the first `n` trips is one of them; none of them is better,
/// and it is better than every one before it.
pub proof fn lemma_best_index(plans: Seq<PlanView>, n: int)
    requires
        1 <= n <= plans.len(),
    ensures
        0 <= best_index(plans, n) < n,
        forall|j: int| 0 <= j < n ==> !better(#[trigger] plans[j], plans[best_index(plans, n)]),
        forall|j: int|
            0 <= j < best_index(plans, n) ==> better(
                plans[best_index(plans, n)],
                #[trigger] plans[j],
            ),
    decreases n,
{
    if n > 1 {
        lemma_best_index(plans, n - 1);
    }
}

/// If none of the first `n` trips is better than the first of all, the
/// first of all is the best.
pub proof fn lemma_first_stays_best(plans: Seq<PlanView>, n: int)
    requires
        n <= plans.len(),
        forall|j: int| 0 <= j < n ==> !better(#[trigger] plans[j], plans[0]),
    ensures
        best_index(plans, n) == 0,
    decreases n,
{
    if n > 1 {
        lemma_first_stays_best(plans, n - 1);
    }
}

/// The chosen trip takes the stops in one of the given orders; no trip in
/// another of them is better, and it is better than the trip in every order
/// that comes before its own.
pub proof fn lemma_chosen_plan(
    g: JumpView,
    allowed: Set<SystemId>,
    start: SystemId,
    end: SystemId,
    orders: Seq<Seq<SystemId>>,
)
    requires
        orders.len() >= 1,
    ensures
        exists|i: int|
            0 <= i < orders.len() && chosen_plan(g, allowed, start, end, orders) == plan_for(
                g,
                allowed,
                with_ends(start, #[trigger] orders[i], end),
            ) && (forall|j: int|
                0 <= j < orders.len() ==> !better(
                    plan_for(g, allowed, with_ends(start, #[trigger] orders[j], end)),
                    chosen_plan(g, allowed, start, end, orders),
                )) && (forall|j: int|
                0 <= j < i ==> better(
                    chosen_plan(g, allowed, start, end, orders),
                    plan_for(g, allowed, with_ends(start, #[trigger] orders[j], end)),
                )),
{
    let plans = plans_for(g, allowed, start, end, orders);
    lemma_best_index(plans, plans.len() as int);
    let i = best_index(plans, plans.len() as int);
    assert(plans[i] == plan_for(g, allowed, with_ends(start, orders[i], end)));
    assert forall|j: int| 0 <= j < orders.len() implies !better(
        plan_for(g, allowed, with_ends(start, #[trigger] orders[j], end)),
        plans[i],
    ) by {
        assert(plans[j] == plan_for(g, allowed, with_ends(start, orders[j], end)));
    }
    assert forall|j: int| 0 <= j < i implies better(
        plans[i],
        plan_for(g, allowed, with_ends(start, #[trigger] orders[j], end)),
    ) by {
        assert(plans[j] == plan_for(g, allowed, with_ends(start, orders[j], end)));
    }
}

/// If every order holds the same stops, each as often, the chosen trip
/// goes from `start` to `end` through exactly those stops, in one leg less
/// than it has waypoints.
pub proof fn lemma_chosen_plan_waypoints(
    g: JumpView,
    allowed: Set<SystemId>,
    start: SystemId,
    end: SystemId,
    stops: Seq<SystemId>,
    orders: Seq<Seq<SystemId>>,
)
    requires
        orders.len() >= 1,
        forall|i: int|
            0 <= i < orders.len() ==> (#[trigger] orders[i]).to_multiset() == stops.to_multiset(),
    ensures
        chosen_plan(g, allowed, start, end, orders).systems.to_multiset() == with_ends(
            start,
            stops,
            end,
        ).to_multiset(),
        chosen_plan(g, allowed, start, end, orders).systems.len() == stops.len() + 2,
        chosen_plan(g, allowed, start, end, orders).systems[0] == start,
        chosen_plan(g, allowed, start, end, orders).systems.last() == end,
        chosen_plan(g, allowed, start, end, orders).route.len() == stops.len() + 1,
{
    broadcast use vstd::seq_lib::lemma_multiset_commutative;

    lemma_chosen_plan(g, allowed, start, end, orders);
    let i = choose|i: int|
        0 <= i < orders.len() && chosen_plan(g, allowed, start, end, orders) == plan_for(
            g,
            allowed,
            with_ends(start, #[trigger] orders[i], end),
        );
    assert(orders[i].to_multiset() == stops.to_multiset());
    vstd::seq_lib::to_multiset_len(orders[i]);
    vstd::seq_lib::to_multiset_len(stops);
}

/// Two trips chosen for the same graph, policy and orders are the same
/// trip: the same waypoints in the same order, the same legs with the same
/// paths, the same flag and the same number of jumps.
pub proof fn lemma_choice_is_determined(
    first: RoutePlan,
    second: RoutePlan,
    g: JumpView,
    allowed: Set<SystemId>,
    start: SystemId,
    end: SystemId,
    orders: Seq<Seq<SystemId>>,
)
    requires
        first@ == chosen_plan(g, allowed, start, end, orders),
        second@ == chosen_plan(g, allowed, start, end, orders),
    ensures
        first.systems@ == second.systems@,
        first.route@.len() == second.route@.len(),
        forall|i: int|
            0 <= i < first.route@.len() ==> (#[trigger] first.route@[i]).start
                == second.route@[i].start && first.route@[i].end == second.route@[i].end
                && path_view(first.route@[i].jumps) == path_view(second.route@[i].jumps),
        first.complete == second.complete,
        first.total_jumps == second.total_jumps,
{
    assert(legs_of(first.route@).len() == legs_of(second.route@).len());
    assert forall|i: int| 0 <= i < first.route@.len() implies (#[trigger] first.route@[i]).start
        == second.route@[i].start && first.route@[i].end == second.route@[i].end && path_view(
        first.route@[i].jumps,
    ) == path_view(second.route@[i].jumps) by {
        assert(legs_of(first.route@)[i] == legs_of(second.route@)[i]);
    }
}

/// All the orders in which the given stops can be taken, in the order in
/// which `Itertools::permutations` of the outside crate `itertools`
/// generates them.
pub uninterp spec fn permutations_of(stops: Seq<SystemId>) -> Seq<Seq<SystemId>>;

/// The orders that a vector of vectors holds.
pub open spec fn orders_of(orders: Seq<Vec<SystemId>>) -> Seq<Seq<SystemId>> {
    Seq::new(orders.len(), |i: int| orders[i]@)
}

/// Calls `Itertools::permutations` on the stops, asking for permutations of
/// all of them, and collects what it generates. The result depends on the
/// stops alone and is named [`permutations_of`]. The first order generated
/// is the given one, so there is always at least one, and every order holds
/// the given stops, each as often as it was given.
#[verifier::external_body]
pub(crate) fn permutations(stops: &Vec<SystemId>) -> (orders: Vec<Vec<SystemId>>)
    ensures
        orders_of(orders@) == permutations_of(stops@),
        orders@.len() >= 1,
        orders@[0]@ == stops@,
        forall|i: int|
            0 <= i < orders@.len() ==> (#[trigger] orders@[i])@.to_multiset()
                == stops@.to_multiset(),
{
    stops.iter().copied().permutations(stops.len()).collect()
}

/// Finds the trip through `systems` in the given order: a cheapest path
/// for each leg.
pub fn plan_route(
    jumps: &JumpMap,
    universe: &Universe,
    checker: &SystemValidityChecker,
    systems: Vec<SystemId>,
) -> (plan: RoutePlan)
    requires
        universe.wf(),
        jumps.exits_within(universe),
    ensures
        plan@ == plan_for(jumps@, allowed_ids(checker, universe), systems@),
{
    let ghost g = jumps@;
    let ghost allowed = allowed_ids(checker, universe);
    let mut route: Vec<Route> = Vec::new();
    let mut complete: bool = true;
    let mut total: u128 = 0;
    let mut i: usize = 0;
    proof {
        assert(legs_of(route@) =~= legs_between(g, allowed, systems@, 1));
    }
    while i + 1 < systems.len()
        invariant
            i + 1 <= systems.len() || systems.len() == 0 && i == 0,
            universe.wf(),
            jumps.exits_within(universe),
            g == jumps@,
            allowed == allowed_ids(checker, universe),
            legs_of(route@) == legs_between(g, allowed, systems@, i + 1),
            route@.len() == i,
            complete == all_found(legs_of(route@)),
            total == jumps_in(legs_of(route@)),
            total <= i * usize::MAX,
        decreases systems.len() - i,
    {
        let found = get_shortest_path(jumps, universe, systems[i], systems[i + 1], checker);
        let ghost before = legs_of(route@);
        let count: usize = match &found {
            Some(hops) => hops.len(),
            None => 0,
        };
        if found.is_none() {
            complete = false;
        }
        assert(total + count <= (i + 1) * usize::MAX && (i + 1) * usize::MAX <= u128::MAX)
            by (nonlinear_arith)
            requires
                total <= i * usize::MAX,
                count <= usize::MAX,
                i + 1 <= usize::MAX,
                usize::MAX <= 0xFFFF_FFFF_FFFF_FFFF,
                u128::MAX == 0xFFFF_FFFF_FFFF_FFFF_FFFF_FFFF_FFFF_FFFF,
        ;
        total = total + count as u128;
        let next = Route { start: systems[i], end: systems[i + 1], jumps: found };
        route.push(next);
        proof {
            let now = legs_of(route@);
            assert(now =~= before.push(next@));
            assert(now.drop_last() =~= before);
            assert(now =~= legs_between(g, allowed, systems@, i + 2));
            assert(complete == all_found(now)) by {
                if all_found(before) && next@.jumps is Some {
                    assert forall|j: int| 0 <= j < now.len() implies (
                    #[trigger] now[j]).jumps is Some by {
                        if j < before.len() {
                            assert(now[j] == before[j]);
                        }
                    }
                } else if !all_found(before) {
                    let j = choose|j: int|
                        0 <= j < before.len() && !((#[trigger] before[j]).jumps is Some);
                    assert(now[j] == before[j]);
                } else {
                    assert(now[now.len() - 1] == next@);
                }
            }
        }
        i = i + 1;
    }
    proof {
        assert(legs_of(route@) =~= legs_between(g, allowed, systems@, systems@.len() as int));
    }
    RoutePlan { systems, route, complete, total_jumps: total }
}

/// Puts `start` before and `end` behind the stops.
pub fn add_ends(start: SystemId, middle: &Vec<SystemId>, end: SystemId) -> (systems: Vec<SystemId>)
    ensures
        systems@ == with_ends(start, middle@, end),
{
    let mut systems: Vec<SystemId> = Vec::new();
    systems.push(start);
    let mut i: usize = 0;
    while i < middle.len()
        invariant
            i <= middle.len(),
            systems@ == seq![start] + middle@.take(i as int),
        decreases middle.len() - i,
    {
        systems.push(middle[i]);
        proof {
            assert(systems@ =~= seq![start] + middle@.take(i + 1));
        }
        i = i + 1;
    }
    systems.push(end);
    proof {
        assert(middle@.take(i as int) =~= middle@);
        assert(systems@ =~= with_ends(start, middle@, end));
    }
    systems
}

/// Whether the trip `a` is better than the trip `b`.
pub fn is_better(a: &RoutePlan, b: &RoutePlan) -> (yes: bool)
    ensures
        yes == better(a@, b@),
{
    (a.complete && !b.complete) || (a.complete == b.complete && a.total_jumps < b.total_jumps)
}

/// Chooses the best trip from `start` to `end` among those that take the
/// stops in one of the given orders. A complete trip is better than an
/// incomplete one, then fewer jumps are better; of several trips that are
/// equally good, the one whose order comes first is chosen.
pub fn choose_route(
    jumps: &JumpMap,
    universe: &Universe,
    checker: &SystemValidityChecker,
    start: SystemId,
    end: SystemId,
    orders: &Vec<Vec<SystemId>>,
) -> (plan: RoutePlan)
    requires
        universe.wf(),
        jumps.exits_within(universe),
        orders@.len() >= 1,
    ensures
        plan@ == chosen_plan(
            jumps@,
            allowed_ids(checker, universe),
            start,
            end,
            orders_of(orders@),
        ),
{
    let ghost g = jumps@;
    let ghost allowed = allowed_ids(checker, universe);
    let ghost plans = plans_for(g, allowed, start, end, orders_of(orders@));
    let mut best = plan_route(jumps, universe, checker, add_ends(start, &orders[0], end));
    let mut i: usize = 1;
    while i < orders.len()
        invariant
            1 <= i <= orders.len(),
            universe.wf(),
            jumps.exits_within(universe),
            g == jumps@,
            allowed == allowed_ids(checker, universe),
            plans == plans_for(g, allowed, start, end, orders_of(orders@)),
            best@ == plans[best_index(plans, i as int)],
        decreases orders.len() - i,
    {
        let next = plan_route(jumps, universe, checker, add_ends(start, &orders[i], end));
        if is_better(&next, &best) {
            best = next;
        }
        i = i + 1;
    }
    best
}

/// The stops between the first and the last waypoint.
pub open spec fn stops_of(waypoints: Seq<SystemId>) -> Seq<SystemId> {
    waypoints.subrange(1, waypoints.len() - 1)
}

/// The orders of the stops that are tried: the given one alone if the
/// route is to be taken as it stands, else every permutation.
pub open spec fn orders_tried(stops: Seq<SystemId>, exact_route: bool) -> Seq<Seq<SystemId>> {
    if exact_route {
        seq![stops]
    } else {
        permutations_of(stops)
    }
}

/// Finds the best trip from the first waypoint to the last through all the
/// waypoints between them. With `exact_route` the waypoints are taken in
/// the order given; otherwise every order of those between the first and
/// the last is tried, and the best trip is chosen as [`choose_route`] does.
pub fn find_route(
    jumps: &JumpMap,
    universe: &Universe,
    checker: &SystemValidityChecker,
    waypoints: &Vec<SystemId>,
    exact_route: bool,
) -> (plan: RoutePlan)
    requires
        universe.wf(),
        jumps.exits_within(universe),
        waypoints@.len() >= 2,
    ensures
        plan@ == chosen_plan(
            jumps@,
            allowed_ids(checker, universe),
            waypoints@[0],
            waypoints@.last(),
            orders_tried(stops_of(waypoints@), exact_route),
        ),
        plan@.systems.to_multiset() == waypoints@.to_multiset(),
        plan@.systems.len() == waypoints@.len(),
        plan@.systems[0] == waypoints@[0],
        plan@.systems.last() == waypoints@.last(),
        plan@.route.len() == waypoints@.len() - 1,
        exact_route ==> plan@.systems == waypoints@,
        (forall|i: int|
            0 <= i < orders_tried(stops_of(waypoints@), exact_route).len() ==> !better(
                plan_for(
                    jumps@,
                    allowed_ids(checker, universe),
                    with_ends(
                        waypoints@[0],
                        #[trigger] orders_tried(stops_of(waypoints@), exact_route)[i],
                        waypoints@.last(),
                    ),
                ),
                plan_for(jumps@, allowed_ids(checker, universe), waypoints@),
            )) ==> plan@ == plan_for(jumps@, allowed_ids(checker, universe), waypoints@),
{
    let start = waypoints[0];
    let end = waypoints[waypoints.len() - 1];
    let mut stops: Vec<SystemId> = Vec::new();
    let mut i: usize = 1;
    while i + 1 < waypoints.len()
        invariant
            1 <= i < waypoints.len(),
            stops@ == waypoints@.subrange(1, i as int),
        decreases waypoints.len() - i,
    {
        stops.push(waypoints[i]);
        proof {
            assert(stops@ =~= waypoints@.subrange(1, i + 1));
        }
        i = i + 1;
    }
    let orders = if exact_route {
        let mut orders: Vec<Vec<SystemId>> = Vec::new();
        orders.push(stops);
        proof {
            assert(orders_of(orders@) =~= seq![stops_of(waypoints@)]);
        }
        orders
    } else {
        permutations(&stops)
    };
    proof {
        let tried = orders_of(orders@);
        assert forall|i: int| 0 <= i < tried.len() implies (#[trigger] tried[i]).to_multiset()
            == stops_of(waypoints@).to_multiset() by {
            assert(tried[i] == orders@[i]@);
        }
        lemma_chosen_plan_waypoints(
            jumps@,
            allowed_ids(checker, universe),
            start,
            end,
            stops_of(waypoints@),
            tried,
        );
        assert(with_ends(start, stops_of(waypoints@), end) =~= waypoints@);
        if exact_route {
            lemma_chosen_plan(jumps@, allowed_ids(checker, universe), start, end, tried);
        }
        let g = jumps@;
        let allowed = allowed_ids(checker, universe);
        let plans = plans_for(g, allowed, start, end, tried);
        assert(tried == orders_tried(stops_of(waypoints@), exact_route));
        assert(tried[0] == orders@[0]@);
        assert(plans[0] == plan_for(g, allowed, waypoints@));
        if forall|i: int|
            0 <= i < orders_tried(stops_of(waypoints@), exact_route).len() ==> !better(
                plan_for(
                    g,
                    allowed,
                    with_ends(
                        waypoints@[0],
                        #[trigger] orders_tried(stops_of(waypoints@), exact_route)[i],
                        waypoints@.last(),
                    ),
                ),
                plan_for(g, allowed, waypoints@),
            ) {
            assert forall|j: int| 0 <= j < plans.len() implies !better(
                #[trigger] plans[j],
                plans[0],
            ) by {
                assert(plans[j] == plan_for(
                    g,
                    allowed,
                    with_ends(
                        waypoints@[0],
                        orders_tried(stops_of(waypoints@), exact_route)[j],
                        waypoints@.last(),
                    ),
                ));
            }
            lemma_first_stays_best(plans, plans.len() as int);
        }
    }
    choose_route(jumps, universe, checker, start, end, &orders)
}

} // verus!
