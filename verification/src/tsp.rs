use vstd::prelude::*;
use vstd::multiset::Multiset;
use rand::seq::SliceRandom;
use crate::destroy_operator::DestroyOperator;
use crate::ranking::{lemma_ranking_is_unique, rank_by_cost, ranking_of};
use crate::repair_operator::RepairOperator;
use crate::selector::draw_below;
use crate::state::{Objective, State};

verus! {

pub type VisitId = u64;

pub type Distance = u64;

/// The largest distance between two visits that a problem may hold.
pub const MAX_DISTANCE: u64 = 0xffff_ffff;

/// The largest number of visits that a tour may hold.
pub const MAX_VISITS: usize = 0x7fff_ffff;

/// The cost that every visit left in the bank adds to a tour.
pub const BANK_PENALTY: u64 = 1000;

/// A travelling-salesman instance: the visits to make and the distance from
/// each to each.
#[derive(Debug, Hash, PartialEq, Eq, Clone)]
pub struct Problem {
    pub visits: Vec<VisitId>,
    pub distance_map: Vec<Vec<Distance>>,
}

impl Problem {
    /// The number of places that the distance map knows.
    pub open spec fn places(&self) -> nat {
        self.distance_map.len() as nat
    }

    /// The distance map is square with bounded entries, and every visit is
    /// one of its places.
    pub open spec fn wf(&self) -> bool {
        &&& self.visits.len() <= MAX_VISITS
        &&& forall|i: int| 0 <= i < self.visits.len() ==> #[trigger] self.visits[i] < self.places()
        &&& forall|i: int|
            0 <= i < self.places() ==> (#[trigger] self.distance_map[i]).len() == self.places()
        &&& forall|i: int, j: int|
            0 <= i < self.places() && 0 <= j < self.places()
                ==> #[trigger] self.distance_map[i][j] <= MAX_DISTANCE
    }

    /// Whether every one of `visits` is a place of this problem.
    pub open spec fn knows(&self, visits: Seq<VisitId>) -> bool {
        forall|i: int| 0 <= i < visits.len() ==> #[trigger] visits[i] < self.places()
    }

    /// Checks that every one of `visits` is a place of this problem.
    pub fn knows_all(&self, visits: &Vec<VisitId>) -> (ok: bool)
        ensures
            ok == self.knows(visits@),
    {
        let places = self.distance_map.len();
        let mut i: usize = 0;
        while i < visits.len()
            invariant
                i <= visits.len(),
                places == self.places(),
                forall|k: int| 0 <= k < i ==> #[trigger] visits[k] < self.places(),
            decreases visits.len() - i,
        {
            if visits[i] >= places as u64 {
                return false;
            }
            i = i + 1;
        }
        true
    }

    /// Checks that the problem is well formed.
    pub fn is_valid(&self) -> (ok: bool)
        ensures
            ok == self.wf(),
    {
        let places = self.distance_map.len();
        if self.visits.len() > MAX_VISITS || !self.knows_all(&self.visits) {
            return false;
        }
        let mut i: usize = 0;
        while i < places
            invariant
                i <= places,
                places == self.places(),
                forall|k: int| 0 <= k < i ==> (#[trigger] self.distance_map[k]).len() == places,
                forall|k: int, j: int|
                    0 <= k < i && 0 <= j < places ==> #[trigger] self.distance_map[k][j]
                        <= MAX_DISTANCE,
            decreases places - i,
        {
            let row = &self.distance_map[i];
            if row.len() != places {
                assert(self.distance_map[i as int].len() != self.places());
                return false;
            }
            let mut j: usize = 0;
            while j < places
                invariant
                    j <= places,
                    i < places,
                    places == self.places(),
                    row.len() == places,
                    *row == self.distance_map[i as int],
                    forall|k: int| 0 <= k < j ==> #[trigger] row[k] <= MAX_DISTANCE,
                decreases places - j,
            {
                if row[j] > MAX_DISTANCE {
                    assert(self.distance_map[i as int][j as int] > MAX_DISTANCE);
                    return false;
                }
                j = j + 1;
            }
            i = i + 1;
        }
        true
    }
}

/// The length of the first `count` legs of a closed route: leg `i` runs from
/// the visit at place `i` to the next one, and from the last back to the first.
pub open spec fn legs(problem: &Problem, route: Seq<VisitId>, count: int) -> int
    decreases count,
{
    if count <= 0 {
        0
    } else {
        legs(problem, route, count - 1) + problem.distance_map[route[count - 1] as int][route[count
            % (route.len() as int)] as int]
    }
}

/// The cost of a tour: the length of its closed route, and a penalty for
/// every visit that is left in the bank.
pub open spec fn tour_cost(problem: &Problem, route: Seq<VisitId>, bank: Seq<VisitId>) -> int {
    legs(problem, route, route.len() as int) + BANK_PENALTY * bank.len()
}

/// The first `count` legs are no longer than `count` of the longest distance.
pub proof fn lemma_legs_bounded(problem: &Problem, route: Seq<VisitId>, count: int)
    requires
        problem.wf(),
        problem.knows(route),
        0 <= count <= route.len(),
    ensures
        0 <= legs(problem, route, count) <= count * MAX_DISTANCE,
    decreases count,
{
    if count > 0 {
        lemma_legs_bounded(problem, route, count - 1);
        let from = route[count - 1];
        let to = route[count % (route.len() as int)];
        assert(from < problem.places());
        assert(to < problem.places());
        assert(problem.distance_map[from as int][to as int] <= MAX_DISTANCE);
        assert((count - 1) * MAX_DISTANCE + MAX_DISTANCE == count * MAX_DISTANCE)
            by (nonlinear_arith);
    }
}

/// A tour under construction: the visits on the route, in order, and the
/// visits that wait in the bank.
#[derive(Debug, Hash, PartialEq, Eq)]
pub struct TSPState<'a> {
    problem: &'a Problem,
    route: Vec<VisitId>,
    bank: Vec<VisitId>,
}

impl<'a> Clone for TSPState<'a> {
    fn clone(&self) -> (copy: Self)
        ensures
            copy.problem() == self.problem(),
            copy.route() == self.route(),
            copy.bank() == self.bank(),
    {
        proof {
            use_type_invariant(self);
        }
        let route = self.route.clone();
        let bank = self.bank.clone();
        assert(route@ =~= self.route@);
        assert(bank@ =~= self.bank@);
        TSPState { problem: self.problem, route, bank }
    }
}

impl<'a> TSPState<'a> {
    #[verifier::type_invariant]
    spec fn well_formed(self) -> bool {
        &&& self.problem.wf()
        &&& self.problem.knows(self.route@)
        &&& self.problem.knows(self.bank@)
        &&& self.route.len() + self.bank.len() <= MAX_VISITS
    }

    /// The problem that the tour belongs to.
    pub closed spec fn problem(&self) -> &'a Problem {
        self.problem
    }

    /// The visits on the route, in order.
    pub closed spec fn route(&self) -> Seq<VisitId> {
        self.route@
    }

    /// The visits in the bank.
    pub closed spec fn bank(&self) -> Seq<VisitId> {
        self.bank@
    }

    /// The tour that makes all visits of the problem in their given order.
    pub fn new(problem: &'a Problem) -> (tour: TSPState<'a>)
        requires
            problem.wf(),
        ensures
            tour.problem() == problem,
            tour.route() == problem.visits@,
            tour.bank() == Seq::<VisitId>::empty(),
    {
        let route = problem.visits.clone();
        assert(route@ =~= problem.visits@);
        TSPState { problem, route, bank: Vec::new() }
    }

    /// The tour with the given route and bank, where the problem is well
    /// formed, knows all their visits, and they are not too many.
    pub fn from_parts(problem: &'a Problem, route: Vec<VisitId>, bank: Vec<VisitId>) -> (tour:
        Option<TSPState<'a>>)
        ensures
            tour.is_some() == (problem.wf() && problem.knows(route@) && problem.knows(bank@)
                && route.len() + bank.len() <= MAX_VISITS),
            tour.is_some() ==> tour.unwrap().problem() == problem && tour.unwrap().route()
                == route@ && tour.unwrap().bank() == bank@,
    {
        if problem.is_valid() && problem.knows_all(&route) && problem.knows_all(&bank)
            && route.len() <= MAX_VISITS && bank.len() <= MAX_VISITS - route.len() {
            Some(TSPState { problem, route, bank })
        } else {
            None
        }
    }

    /// The visits on the route, in order.
    pub fn route_visits(&self) -> (route: &Vec<VisitId>)
        ensures
            route@ == self.route(),
    {
        &self.route
    }

    /// The visits in the bank.
    pub fn banked_visits(&self) -> (bank: &Vec<VisitId>)
        ensures
            bank@ == self.bank(),
    {
        &self.bank
    }
}

impl<'a> State for TSPState<'a> {
    open spec fn cost(&self) -> Objective {
        tour_cost(self.problem(), self.route(), self.bank()) as u64
    }

    fn objective(&self) -> (value: Objective) {
        proof {
            use_type_invariant(self);
        }
        let mut cost: u64 = 0;
        let route_len = self.route.len();
        let mut i: usize = 0;
        while i < route_len
            invariant
                i <= route_len,
                route_len == self.route.len(),
                route_len <= MAX_VISITS,
                self.problem.wf(),
                self.problem.knows(self.route@),
                cost == legs(self.problem, self.route@, i as int),
                cost <= i * MAX_DISTANCE,
            decreases route_len - i,
        {
            let next: usize = if i + 1 == route_len {
                0
            } else {
                i + 1
            };
            let from = self.route[i];
            let to = self.route[next];
            proof {
                assert((i + 1) % (route_len as int) == next as int) by (nonlinear_arith)
                    requires
                        0 <= i < route_len,
                        next == (if i + 1 == route_len {
                            0
                        } else {
                            i + 1
                        }),
                ;
                lemma_legs_bounded(self.problem, self.route@, i as int + 1);
                assert((i + 1) * MAX_DISTANCE <= 0x7fff_ffff * 0xffff_ffff) by (nonlinear_arith)
                    requires
                        i + 1 <= 0x7fff_ffff,
                ;
                assert(self.route@[i as int] < self.problem.places());
                assert(self.route@[next as int] < self.problem.places());
            }
            cost = cost + self.problem.distance_map[from as usize][to as usize];
            i = i + 1;
        }
        cost + BANK_PENALTY * (self.bank.len() as u64)
    }

    proof fn clone_keeps_cost(source: &Self, duplicate: &Self) {
    }
}

/// All visits of a tour, on the route or in the bank, each as often as it occurs.
pub open spec fn visits_of(route: Seq<VisitId>, bank: Seq<VisitId>) -> Multiset<VisitId> {
    route.to_multiset().add(bank.to_multiset())
}

/// The number of visits that a destroy operator takes from a route of
/// `route_len` visits: a quarter, rounded down.
pub fn number_of_removal(route_len: usize) -> (count: usize)
    ensures
        count == route_len / 4,
{
    route_len / 4
}

/// Moving a visit from the route to the end of the bank loses no visit and
/// adds none, and the problem still knows all of them.
proof fn lemma_move_conserves(problem: &Problem, route: Seq<VisitId>, bank: Seq<VisitId>, index: int)
    requires
        0 <= index < route.len(),
        problem.knows(route),
        problem.knows(bank),
    ensures
        visits_of(route.remove(index), bank.push(route[index])) == visits_of(route, bank),
        problem.knows(route.remove(index)),
        problem.knows(bank.push(route[index])),
{
    broadcast use vstd::multiset::group_multiset_axioms;

    vstd::seq_lib::to_multiset_remove(route, index);
    vstd::seq_lib::to_multiset_build(bank, route[index]);
    vstd::seq_lib::to_multiset_contains(route, route[index]);
    assert(route.contains(route[index]));
    assert(visits_of(route.remove(index), bank.push(route[index])) =~= visits_of(route, bank));
    assert forall|i: int| 0 <= i < route.remove(index).len() implies #[trigger] route.remove(
        index,
    )[i] < problem.places() by {
        if i < index {
            assert(route.remove(index)[i] == route[i]);
        } else {
            assert(route.remove(index)[i] == route[i + 1]);
        }
    }
    assert forall|i: int| 0 <= i < bank.push(route[index]).len() implies #[trigger] bank.push(
        route[index],
    )[i] < problem.places() by {
        if i < bank.len() {
            assert(bank.push(route[index])[i] == bank[i]);
        }
    }
}

/// Route and bank after the visits at `places` went to the end of the bank
/// one after the other, each place counted on the route as it then was.
pub open spec fn taken_all(route: Seq<VisitId>, bank: Seq<VisitId>, places: Seq<int>) -> (
    Seq<VisitId>,
    Seq<VisitId>,
)
    decreases places.len(),
{
    if places.len() == 0 {
        (route, bank)
    } else {
        let before = taken_all(route, bank, places.drop_last());
        (before.0.remove(places.last()), before.1.push(before.0[places.last()]))
    }
}

/// Removes visits chosen at random from the route and banks them.
pub struct RandomDestroyOperator {}

impl<'a> DestroyOperator<TSPState<'a>> for RandomDestroyOperator {
    /// Takes a quarter of the route's visits, each from a place drawn at
    /// random, and puts them behind those in the bank.
    fn apply(&mut self, state: &TSPState<'a>) -> (result: TSPState<'a>)
        ensures
            result.problem() == state.problem(),
            result.route().len() == state.route().len() - state.route().len() / 4,
            result.bank().len() == state.bank().len() + state.route().len() / 4,
            state.bank().is_prefix_of(result.bank()),
            visits_of(result.route(), result.bank()) == visits_of(state.route(), state.bank()),
            exists|places: Seq<int>|
                places.len() == state.route().len() / 4 && (result.route(), result.bank())
                    == #[trigger] taken_all(state.route(), state.bank(), places),
    {
        proof {
            use_type_invariant(state);
        }
        let mut route = state.route.clone();
        let mut bank = state.bank.clone();
        assert(route@ =~= state.route@);
        assert(bank@ =~= state.bank@);
        let count = number_of_removal(route.len());
        let mut done: usize = 0;
        let ghost mut places: Seq<int> = Seq::empty();
        while done < count
            invariant
                done <= count,
                places.len() == done,
                (route@, bank@) == taken_all(state.route@, state.bank@, places),
                count == state.route.len() / 4,
                route.len() == state.route.len() - done,
                bank.len() == state.bank.len() + done,
                state.problem.knows(route@),
                state.problem.knows(bank@),
                state.bank@.is_prefix_of(bank@),
                visits_of(route@, bank@) == visits_of(state.route@, state.bank@),
            decreases count - done,
        {
            let delete_idx = draw_below(route.len() as u128) as usize;
            proof {
                lemma_move_conserves(state.problem, route@, bank@, delete_idx as int);
            }
            let delete_visit_id = route.remove(delete_idx);
            bank.push(delete_visit_id);
            proof {
                let drawn = places.push(delete_idx as int);
                assert(drawn.drop_last() =~= places);
                places = drawn;
            }
            done = done + 1;
        }
        let result = TSPState { problem: state.problem, route, bank };
        proof {
            assert((result.route(), result.bank()) == taken_all(
                state.route(),
                state.bank(),
                places,
            ));
        }
        result
    }
}

/// The cost of putting `visit` in front of the visit at place `at` of a
/// route: the way to it from the visit before that place, and from it to the
/// visit at that place.
pub open spec fn insertion_cost(problem: &Problem, route: Seq<VisitId>, visit: VisitId, at: int) -> int {
    problem.distance_map[visit as int][route[at] as int] + problem.distance_map[route[(at - 1
        + route.len()) % (route.len() as int)] as int][visit as int]
}

/// Place `at` is the first among the places of least insertion cost.
pub open spec fn is_cheapest_insertion(
    problem: &Problem,
    route: Seq<VisitId>,
    visit: VisitId,
    at: int,
) -> bool {
    &&& 0 <= at < route.len()
    &&& forall|j: int|
        0 <= j < route.len() ==> insertion_cost(problem, route, visit, at) <= #[trigger] insertion_cost(
            problem,
            route,
            visit,
            j,
        )
    &&& forall|j: int|
        0 <= j < at ==> insertion_cost(problem, route, visit, at) < #[trigger] insertion_cost(
            problem,
            route,
            visit,
            j,
        )
}

/// A route has one cheapest place of insertion only.
pub proof fn lemma_cheapest_insertion_is_unique(
    problem: &Problem,
    route: Seq<VisitId>,
    visit: VisitId,
    first: int,
    second: int,
)
    requires
        is_cheapest_insertion(problem, route, visit, first),
        is_cheapest_insertion(problem, route, visit, second),
    ensures
        first == second,
{
    if first < second {
        assert(insertion_cost(problem, route, visit, second) < insertion_cost(
            problem,
            route,
            visit,
            first,
        ));
    } else if second < first {
        assert(insertion_cost(problem, route, visit, first) < insertion_cost(
            problem,
            route,
            visit,
            second,
        ));
    }
}

/// The route after `visit` was put at its cheapest place; an empty route
/// takes it as its only visit.
pub open spec fn inserted(problem: &Problem, route: Seq<VisitId>, visit: VisitId) -> Seq<VisitId> {
    if route.len() == 0 {
        route.push(visit)
    } else {
        route.insert(choose|at: int| is_cheapest_insertion(problem, route, visit, at), visit)
    }
}

/// The route after the visits of `order` were put in one after the other,
/// each at its cheapest place in the route as it then was.
pub open spec fn greedy_route(problem: &Problem, route: Seq<VisitId>, order: Seq<VisitId>) -> Seq<
    VisitId,
>
    decreases order.len(),
{
    if order.len() == 0 {
        route
    } else {
        inserted(problem, greedy_route(problem, route, order.drop_last()), order.last())
    }
}

/// Finds the cheapest place to put `visit` into a route that is not empty.
pub fn cheapest_insertion(problem: &Problem, route: &Vec<VisitId>, visit: VisitId) -> (at: usize)
    requires
        problem.wf(),
        problem.knows(route@),
        visit < problem.places(),
        route.len() > 0,
    ensures
        is_cheapest_insertion(problem, route@, visit, at as int),
{
    let route_len = route.len();
    let mut insert_point: usize = 0;
    let mut minimum_cost: u64 = u64::MAX;
    let mut i: usize = 0;
    while i < route_len
        invariant
            i <= route_len,
            route_len == route.len(),
            route_len > 0,
            problem.wf(),
            problem.knows(route@),
            visit < problem.places(),
            i == 0 ==> minimum_cost == u64::MAX && insert_point == 0,
            i > 0 ==> insert_point < i && minimum_cost == insertion_cost(
                problem,
                route@,
                visit,
                insert_point as int,
            ),
            forall|j: int|
                0 <= j < i ==> minimum_cost <= #[trigger] insertion_cost(problem, route@, visit, j),
            forall|j: int|
                0 <= j < insert_point ==> minimum_cost < #[trigger] insertion_cost(
                    problem,
                    route@,
                    visit,
                    j,
                ),
        decreases route_len - i,
    {
        let before: usize = if i == 0 {
            route_len - 1
        } else {
            i - 1
        };
        let from = route[before];
        let to = route[i];
        proof {
            assert((i - 1 + route_len) % (route_len as int) == before as int) by (nonlinear_arith)
                requires
                    0 <= i < route_len,
                    before == (if i == 0 {
                        route_len - 1
                    } else {
                        i - 1
                    }),
            ;
            assert(route@[before as int] < problem.places());
            assert(route@[i as int] < problem.places());
            assert(problem.distance_map[visit as int][to as int] <= MAX_DISTANCE);
            assert(problem.distance_map[from as int][visit as int] <= MAX_DISTANCE);
        }
        let cost = problem.distance_map[visit as usize][to as usize]
            + problem.distance_map[from as usize][visit as usize];
        assert(cost == insertion_cost(problem, route@, visit, i as int));
        if cost < minimum_cost {
            minimum_cost = cost;
            insert_point = i;
        }
        i = i + 1;
    }
    insert_point
}

/// Puts `visit` into the route at its cheapest place.
pub fn insert_visit(problem: &Problem, route: &mut Vec<VisitId>, visit: VisitId)
    requires
        problem.wf(),
        problem.knows(old(route)@),
        visit < problem.places(),
    ensures
        final(route)@ == inserted(problem, old(route)@, visit),
        final(route)@.len() == old(route)@.len() + 1,
        final(route)@.to_multiset() == old(route)@.to_multiset().insert(visit),
        problem.knows(final(route)@),
{
    if route.len() == 0 {
        proof {
            vstd::seq_lib::to_multiset_build(route@, visit);
        }
        route.push(visit);
    } else {
        let at = cheapest_insertion(problem, route, visit);
        proof {
            let chosen = choose|at: int| is_cheapest_insertion(problem, route@, visit, at);
            lemma_cheapest_insertion_is_unique(problem, route@, visit, at as int, chosen);
            vstd::seq_lib::to_multiset_insert(route@, at as int, visit);
        }
        route.insert(at, visit);
    }
    assert forall|i: int| 0 <= i < route@.len() implies #[trigger] route@[i] < problem.places() by {
        if old(route)@.len() > 0 {
            let at = choose|at: int| is_cheapest_insertion(problem, old(route)@, visit, at);
            if i < at {
                assert(route@[i] == old(route)@[i]);
            } else if i > at {
                assert(route@[i] == old(route)@[i - 1]);
            }
        }
    }
}

/// Puts the visits of `order` into the route one after the other, each at
/// its cheapest place.
pub fn insert_greedily(problem: &Problem, route: &mut Vec<VisitId>, order: &Vec<VisitId>)
    requires
        problem.wf(),
        problem.knows(old(route)@),
        problem.knows(order@),
    ensures
        final(route)@ == greedy_route(problem, old(route)@, order@),
        final(route)@.len() == old(route)@.len() + order@.len(),
        final(route)@.to_multiset() == visits_of(old(route)@, order@),
        problem.knows(final(route)@),
{
    broadcast use vstd::multiset::group_multiset_axioms;

    let mut i: usize = 0;
    proof {
        assert(order@.take(0).to_multiset() =~= Multiset::<VisitId>::empty()) by {
            order@.take(0).to_multiset_ensures();
        }
        assert(route@.to_multiset() =~= visits_of(old(route)@, order@.take(0)));
    }
    while i < order.len()
        invariant
            i <= order.len(),
            problem.wf(),
            problem.knows(route@),
            problem.knows(order@),
            route@ == greedy_route(problem, old(route)@, order@.take(i as int)),
            route@.len() == old(route)@.len() + i,
            route@.to_multiset() == visits_of(old(route)@, order@.take(i as int)),
        decreases order.len() - i,
    {
        proof {
            let next = order@.take(i as int + 1);
            assert(next.drop_last() =~= order@.take(i as int));
            assert(next.last() == order@[i as int]);
            assert(next =~= order@.take(i as int).push(order@[i as int]));
            vstd::seq_lib::to_multiset_build(order@.take(i as int), order@[i as int]);
            assert(order@[i as int] < problem.places());
        }
        insert_visit(problem, route, order[i]);
        proof {
            assert(route@.to_multiset() =~= visits_of(old(route)@, order@.take(i as int + 1)));
        }
        i = i + 1;
    }
    proof {
        assert(order@.take(order.len() as int) =~= order@);
    }
}

/// Calls `rand::seq::SliceRandom::shuffle` with the thread-local generator
/// on the given visits. The call swaps elements in place, so what comes
/// back holds the same visits, each as often as before; nothing is known of
/// their order.
#[verifier::external_body]
fn shuffled(visits: Vec<VisitId>) -> (order: Vec<VisitId>)
    ensures
        order@.to_multiset() == visits@.to_multiset(),
{
    let mut order = visits;
    order.shuffle(&mut rand::thread_rng());
    order
}

/// A problem that knows some visits knows them in any order.
proof fn lemma_known_in_any_order(problem: &Problem, visits: Seq<VisitId>, order: Seq<VisitId>)
    requires
        problem.knows(visits),
        order.to_multiset() == visits.to_multiset(),
    ensures
        problem.knows(order),
        order.len() == visits.len(),
{
    vstd::seq_lib::to_multiset_len(order);
    vstd::seq_lib::to_multiset_len(visits);
    assert forall|i: int| 0 <= i < order.len() implies #[trigger] order[i] < problem.places() by {
        vstd::seq_lib::to_multiset_contains(order, order[i]);
        vstd::seq_lib::to_multiset_contains(visits, order[i]);
        assert(order.contains(order[i]));
        assert(visits.contains(order[i]));
        let j = choose|j: int| 0 <= j < visits.len() && visits[j] == order[i];
        assert(visits[j] < problem.places());
    }
}

/// Puts every banked visit back on the route where it costs least.
pub struct GreedyRepairOperator {}

impl<'a> RepairOperator<TSPState<'a>> for GreedyRepairOperator {
    /// Empties the bank: its visits, in an order drawn at random, are put
    /// into the route one after the other, each at its cheapest place.
    fn apply(&mut self, state: &TSPState<'a>) -> (result: TSPState<'a>)
        ensures
            result.problem() == state.problem(),
            result.bank() == Seq::<VisitId>::empty(),
            exists|order: Seq<VisitId>|
                order.to_multiset() == state.bank().to_multiset() && result.route()
                    == #[trigger] greedy_route(state.problem(), state.route(), order),
            result.route().len() == state.route().len() + state.bank().len(),
            visits_of(result.route(), result.bank()) == visits_of(state.route(), state.bank()),
    {
        broadcast use vstd::multiset::group_multiset_axioms;

        proof {
            use_type_invariant(state);
        }
        let mut new_route = state.route.clone();
        let bank = state.bank.clone();
        assert(new_route@ =~= state.route@);
        assert(bank@ =~= state.bank@);
        let order = shuffled(bank);
        proof {
            lemma_known_in_any_order(state.problem, state.bank@, order@);
        }
        insert_greedily(state.problem, &mut new_route, &order);
        let result = TSPState { problem: state.problem, route: new_route, bank: Vec::new() };
        proof {
            assert(result.bank@.to_multiset() =~= Multiset::<VisitId>::empty()) by {
                result.bank@.to_multiset_ensures();
            }
            assert(visits_of(result.route@, result.bank@) =~= visits_of(state.route@, state.bank@));
            assert(order@.to_multiset() == state.bank().to_multiset());
            assert(result.route() == greedy_route(state.problem(), state.route(), order@));
        }
        result
    }
}

/// The first place at which `visit` stands on the route, or the route's
/// length where it is not on it.
pub open spec fn first_place(route: Seq<VisitId>, visit: VisitId) -> int
    decreases route.len(),
{
    if route.len() == 0 {
        0
    } else if route[0] == visit {
        0
    } else {
        1 + first_place(route.drop_first(), visit)
    }
}

/// A place that holds `visit` and has no `visit` before it is the first
/// place; the end of a route without `visit` is, too.
pub proof fn lemma_first_place(route: Seq<VisitId>, visit: VisitId, at: int)
    requires
        0 <= at <= route.len(),
        forall|j: int| 0 <= j < at ==> route[j] != visit,
        at < route.len() ==> route[at] == visit,
    ensures
        first_place(route, visit) == at,
    decreases route.len(),
{
    if route.len() > 0 && at > 0 {
        let rest = route.drop_first();
        assert forall|j: int| 0 <= j < at - 1 implies rest[j] != visit by {
            assert(rest[j] == route[j + 1]);
        }
        lemma_first_place(rest, visit, at - 1);
    }
}

/// Finds the first place of `visit` on the route.
pub fn position(route: &Vec<VisitId>, visit: VisitId) -> (found: Option<usize>)
    ensures
        match found {
            Some(at) => at < route.len() && at == first_place(route@, visit),
            None => first_place(route@, visit) == route.len() && !route@.contains(visit),
        },
{
    let mut i: usize = 0;
    while i < route.len()
        invariant
            i <= route.len(),
            forall|j: int| 0 <= j < i ==> route[j] != visit,
        decreases route.len() - i,
    {
        if route[i] == visit {
            proof {
                lemma_first_place(route@, visit, i as int);
            }
            return Some(i);
        }
        i = i + 1;
    }
    proof {
        lemma_first_place(route@, visit, i as int);
    }
    None
}

/// Route and bank after `visit` went from its first place on the route to
/// the end of the bank; both stay as they are where it is not on the route.
pub open spec fn banked(route: Seq<VisitId>, bank: Seq<VisitId>, visit: VisitId) -> (
    Seq<VisitId>,
    Seq<VisitId>,
) {
    if first_place(route, visit) < route.len() {
        (route.remove(first_place(route, visit)), bank.push(visit))
    } else {
        (route, bank)
    }
}

/// Route and bank after the visits of `pending` were banked one after the other.
pub open spec fn banked_all(route: Seq<VisitId>, bank: Seq<VisitId>, pending: Seq<VisitId>) -> (
    Seq<VisitId>,
    Seq<VisitId>,
)
    decreases pending.len(),
{
    if pending.len() == 0 {
        (route, bank)
    } else {
        let before = banked_all(route, bank, pending.drop_last());
        banked(before.0, before.1, pending.last())
    }
}

/// Moves each of the `pending` visits, in their order, from its first place
/// on the route to the end of the bank. No visit is lost or added.
pub fn move_to_bank(
    problem: &Problem,
    route: &mut Vec<VisitId>,
    bank: &mut Vec<VisitId>,
    pending: &Vec<VisitId>,
)
    requires
        problem.knows(old(route)@),
        problem.knows(old(bank)@),
    ensures
        (final(route)@, final(bank)@) == banked_all(old(route)@, old(bank)@, pending@),
        visits_of(final(route)@, final(bank)@) == visits_of(old(route)@, old(bank)@),
        final(route)@.len() + final(bank)@.len() == old(route)@.len() + old(bank)@.len(),
        final(route)@.len() <= old(route)@.len(),
        old(bank)@.is_prefix_of(final(bank)@),
        problem.knows(final(route)@),
        problem.knows(final(bank)@),
        pending@.to_multiset().subset_of(old(route)@.to_multiset()) ==> final(route)@.len() == old(
            route,
        )@.len() - pending@.len(),
{
    let mut i: usize = 0;
    let ghost part = pending@.to_multiset().subset_of(old(route)@.to_multiset());
    proof {
        assert(pending@.skip(0) =~= pending@);
    }
    while i < pending.len()
        invariant
            i <= pending.len(),
            part ==> pending@.skip(i as int).to_multiset().subset_of(route@.to_multiset()),
            part ==> route@.len() == old(route)@.len() - i,
            (route@, bank@) == banked_all(old(route)@, old(bank)@, pending@.take(i as int)),
            visits_of(route@, bank@) == visits_of(old(route)@, old(bank)@),
            route@.len() + bank@.len() == old(route)@.len() + old(bank)@.len(),
            route@.len() <= old(route)@.len(),
            old(bank)@.is_prefix_of(bank@),
            problem.knows(route@),
            problem.knows(bank@),
        decreases pending.len() - i,
    {
        let visit = pending[i];
        proof {
            let next = pending@.take(i as int + 1);
            assert(next.drop_last() =~= pending@.take(i as int));
            assert(next.last() == visit);
        }
        proof {
            lemma_first_is_counted(pending@.skip(i as int));
            assert(pending@.skip(i as int).drop_first() =~= pending@.skip(i as int + 1));
            if part {
                vstd::seq_lib::to_multiset_contains(route@, visit);
            }
        }
        match position(route, visit) {
            Some(at) => {
                proof {
                    lemma_move_conserves(problem, route@, bank@, at as int);
                    lemma_first_place_holds(route@, visit);
                    vstd::seq_lib::to_multiset_remove(route@, at as int);
                    lemma_part_stays(
                        pending@.skip(i as int + 1).to_multiset(),
                        route@.to_multiset(),
                        visit,
                    );
                }
                route.remove(at);
                bank.push(visit);
            },
            None => {},
        }
        i = i + 1;
    }
    proof {
        assert(pending@.take(pending.len() as int) =~= pending@);
    }
}

/// The visits of a sequence are its first visit and those of the rest.
proof fn lemma_first_is_counted(visits: Seq<VisitId>)
    requires
        visits.len() > 0,
    ensures
        visits.to_multiset() == visits.drop_first().to_multiset().insert(visits[0]),
{
    broadcast use vstd::multiset::group_multiset_axioms;

    let head = seq![visits[0]];
    assert(visits =~= head + visits.drop_first());
    vstd::seq_lib::lemma_multiset_commutative(head, visits.drop_first());
    vstd::seq_lib::to_multiset_build(Seq::<VisitId>::empty(), visits[0]);
    assert(Seq::<VisitId>::empty().push(visits[0]) =~= head);
    assert(Seq::<VisitId>::empty().to_multiset() =~= Multiset::<VisitId>::empty()) by {
        Seq::<VisitId>::empty().to_multiset_ensures();
    }
    assert(visits.to_multiset() =~= visits.drop_first().to_multiset().insert(visits[0]));
}

/// Where a part with one more `visit` lies within a whole, the part lies
/// within the whole less one `visit`.
proof fn lemma_part_stays(part: Multiset<VisitId>, whole: Multiset<VisitId>, visit: VisitId)
    ensures
        part.insert(visit).subset_of(whole) ==> part.subset_of(whole.remove(visit)),
{
    broadcast use vstd::multiset::group_multiset_axioms;

    if part.insert(visit).subset_of(whole) {
        assert forall|v: VisitId| part.count(v) <= whole.remove(visit).count(v) by {
            assert(part.insert(visit).count(v) <= whole.count(v));
        }
    }
}

/// The first place of a visit, where it is on the route, holds that visit.
pub proof fn lemma_first_place_holds(route: Seq<VisitId>, visit: VisitId)
    ensures
        0 <= first_place(route, visit) <= route.len(),
        first_place(route, visit) < route.len() ==> route[first_place(route, visit)] == visit,
    decreases route.len(),
{
    if route.len() > 0 && route[0] != visit {
        lemma_first_place_holds(route.drop_first(), visit);
    }
}

/// The first visits of a sequence are part of its visits.
proof fn lemma_prefix_is_part(visits: Seq<VisitId>, count: int)
    requires
        0 <= count <= visits.len(),
    ensures
        visits.take(count).to_multiset().subset_of(visits.to_multiset()),
{
    broadcast use vstd::multiset::group_multiset_axioms;

    assert(visits =~= visits.take(count) + visits.skip(count));
    vstd::seq_lib::lemma_multiset_commutative(visits.take(count), visits.skip(count));
}

/// The `count` visits that follow each other on the closed route from place
/// `start` on.
pub open spec fn path_from(route: Seq<VisitId>, start: int, count: int) -> Seq<VisitId> {
    Seq::new(count as nat, |i: int| route[(start + i) % (route.len() as int)])
}

/// A path that is no longer than the route holds visits of the route only,
/// none more often than the route does.
pub proof fn lemma_path_is_part(route: Seq<VisitId>, start: int, count: int)
    requires
        0 <= start < route.len(),
        0 <= count <= route.len(),
    ensures
        path_from(route, start, count).to_multiset().subset_of(route.to_multiset()),
{
    broadcast use vstd::multiset::group_multiset_axioms;

    let len = route.len() as int;
    let turned = route.skip(start) + route.take(start);
    vstd::seq_lib::lemma_multiset_commutative(route.skip(start), route.take(start));
    vstd::seq_lib::lemma_multiset_commutative(route.take(start), route.skip(start));
    assert(route =~= route.take(start) + route.skip(start));
    assert(turned.to_multiset() =~= route.to_multiset());
    let path = path_from(route, start, count);
    assert forall|i: int| 0 <= i < count implies path[i] == turned[i] by {
        if start + i < len {
            assert((start + i) % len == start + i) by (nonlinear_arith)
                requires
                    0 <= start + i < len,
            ;
        } else {
            assert((start + i) % len == start + i - len) by (nonlinear_arith)
                requires
                    len <= start + i < 2 * len,
            ;
        }
    }
    assert(path =~= turned.take(count));
    lemma_prefix_is_part(turned, count);
}

/// The number of visits that a path removal takes from a route of `route_len`
/// visits: a quarter, rounded down, but one at least.
pub open spec fn path_length(route_len: int) -> int {
    if route_len / 4 >= 1 {
        route_len / 4
    } else {
        1
    }
}

/// Removes a stretch of consecutive visits from the route and banks them.
pub struct PathRemovalOperator {}

impl<'a> DestroyOperator<TSPState<'a>> for PathRemovalOperator {
    /// Banks the visits of a path that starts at a place drawn at random. An
    /// empty route has no path, and the tour stays as it is.
    fn apply(&mut self, state: &TSPState<'a>) -> (result: TSPState<'a>)
        ensures
            result.problem() == state.problem(),
            state.route().len() == 0 ==> result.route() == state.route() && result.bank()
                == state.bank(),
            state.route().len() > 0 ==> result.route().len() == state.route().len() - path_length(
                state.route().len() as int,
            ),
            state.route().len() > 0 ==> exists|start: int|
                0 <= start < state.route().len() && (result.route(), result.bank())
                    == #[trigger] banked_all(
                    state.route(),
                    state.bank(),
                    path_from(state.route(), start, path_length(state.route().len() as int)),
                ),
            visits_of(result.route(), result.bank()) == visits_of(state.route(), state.bank()),
    {
        proof {
            use_type_invariant(state);
        }
        let mut route = state.route.clone();
        let mut bank = state.bank.clone();
        assert(route@ =~= state.route@);
        assert(bank@ =~= state.bank@);
        let route_len = route.len();
        if route_len == 0 {
            return TSPState { problem: state.problem, route, bank };
        }
        let count = number_of_removal(route_len);
        let start_idx = draw_below(route_len as u128) as usize;
        let mut remove_visits: Vec<VisitId> = Vec::new();
        remove_visits.push(route[start_idx]);
        assert(start_idx as int % (route_len as int) == start_idx) by (nonlinear_arith)
            requires
                0 <= start_idx < route_len,
        ;
        let mut i: usize = 1;
        while i < count
            invariant
                1 <= i,
                i <= count || i == 1,
                count == route_len / 4,
                route_len == route.len(),
                route_len <= MAX_VISITS,
                start_idx < route_len,
                remove_visits@ == path_from(route@, start_idx as int, i as int),
            decreases count - i,
        {
            let at = (start_idx + i) % route_len;
            remove_visits.push(route[at]);
            assert(remove_visits@ =~= path_from(route@, start_idx as int, i as int + 1));
            i = i + 1;
        }
        assert(i == path_length(route_len as int));
        proof {
            lemma_path_is_part(route@, start_idx as int, i as int);
        }
        move_to_bank(state.problem, &mut route, &mut bank, &remove_visits);
        let result = TSPState { problem: state.problem, route, bank };
        proof {
            assert((result.route(), result.bank()) == banked_all(
                state.route(),
                state.bank(),
                path_from(state.route(), start_idx as int, path_length(state.route().len() as int)),
            ));
        }
        result
    }
}

/// Every visit of the route with the length of the leg that leaves it.
pub open spec fn leg_costs(problem: &Problem, route: Seq<VisitId>) -> Seq<(VisitId, Distance)> {
    Seq::new(
        route.len(),
        |i: int|
            (
                route[i],
                problem.distance_map[route[i] as int][route[(i + 1) % (route.len() as int)] as int],
            ),
    )
}

/// The visits of the first `count` entries of a ranking.
pub open spec fn leaders(ranking: Seq<(VisitId, Distance)>, count: int) -> Seq<VisitId> {
    Seq::new(count as nat, |i: int| ranking[i].0)
}

/// The visits of a ranking, in its order.
pub open spec fn ranked_visits(ranking: Seq<(VisitId, Distance)>) -> Seq<VisitId> {
    Seq::new(ranking.len(), |i: int| ranking[i].0)
}

/// Two rankings of the same entries hold the same visits.
pub proof fn lemma_same_entries_same_visits(
    first: Seq<(VisitId, Distance)>,
    second: Seq<(VisitId, Distance)>,
)
    requires
        first.to_multiset() == second.to_multiset(),
    ensures
        ranked_visits(first).to_multiset() == ranked_visits(second).to_multiset(),
        first.len() == second.len(),
    decreases first.len(),
{
    broadcast use vstd::multiset::group_multiset_axioms;

    vstd::seq_lib::to_multiset_len(first);
    vstd::seq_lib::to_multiset_len(second);
    if first.len() == 0 {
        assert(ranked_visits(first) =~= ranked_visits(second));
    } else {
        let entry = first.last();
        let rest = first.drop_last();
        vstd::seq_lib::to_multiset_contains(first, entry);
        vstd::seq_lib::to_multiset_contains(second, entry);
        assert(first[first.len() - 1] == entry);
        assert(first.contains(entry));
        assert(second.contains(entry));
        let j = choose|j: int| 0 <= j < second.len() && second[j] == entry;
        let others = second.remove(j);
        vstd::seq_lib::to_multiset_remove(second, j);
        assert(first =~= rest.push(entry));
        vstd::seq_lib::to_multiset_build(rest, entry);
        assert(rest.to_multiset() =~= others.to_multiset());
        lemma_same_entries_same_visits(rest, others);
        assert(ranked_visits(first) =~= ranked_visits(rest).push(entry.0));
        vstd::seq_lib::to_multiset_build(ranked_visits(rest), entry.0);
        assert(ranked_visits(others) =~= ranked_visits(second).remove(j));
        vstd::seq_lib::to_multiset_remove(ranked_visits(second), j);
        vstd::seq_lib::to_multiset_contains(ranked_visits(second), entry.0);
        assert(ranked_visits(second)[j] == entry.0);
        assert(ranked_visits(second).contains(entry.0));
        assert(ranked_visits(first).to_multiset() =~= ranked_visits(second).to_multiset());
    }
}

/// Removes the visits with the longest legs from the route and banks them.
pub struct WorstRemovalOperator {}

impl<'a> DestroyOperator<TSPState<'a>> for WorstRemovalOperator {
    /// Ranks the visits by the length of the leg that leaves them, longest
    /// first and visits with equal legs in route order, and banks the first
    /// quarter of the ranking in its order.
    fn apply(&mut self, state: &TSPState<'a>) -> (result: TSPState<'a>)
        ensures
            result.problem() == state.problem(),
            (result.route(), result.bank()) == banked_all(
                state.route(),
                state.bank(),
                leaders(
                    ranking_of(leg_costs(state.problem(), state.route())),
                    state.route().len() as int / 4,
                ),
            ),
            result.route().len() == state.route().len() - state.route().len() / 4,
            result.bank().len() == state.bank().len() + state.route().len() / 4,
            visits_of(result.route(), result.bank()) == visits_of(state.route(), state.bank()),
    {
        proof {
            use_type_invariant(state);
        }
        let mut route = state.route.clone();
        let mut bank = state.bank.clone();
        assert(route@ =~= state.route@);
        assert(bank@ =~= state.bank@);
        let route_len = route.len();
        let count = number_of_removal(route_len);

        let mut node_costs: Vec<(VisitId, Distance)> = Vec::new();
        let mut i: usize = 0;
        while i < route_len
            invariant
                i <= route_len,
                route_len == route.len(),
                route@ == state.route@,
                state.problem.wf(),
                state.problem.knows(route@),
                node_costs@ == leg_costs(state.problem, route@).take(i as int),
            decreases route_len - i,
        {
            let next: usize = if i + 1 == route_len {
                0
            } else {
                i + 1
            };
            let from = route[i];
            let to = route[next];
            proof {
                assert((i + 1) % (route_len as int) == next as int) by (nonlinear_arith)
                    requires
                        0 <= i < route_len,
                        next == (if i + 1 == route_len {
                            0
                        } else {
                            i + 1
                        }),
                ;
                assert(route@[i as int] < state.problem.places());
                assert(route@[next as int] < state.problem.places());
            }
            let cost = state.problem.distance_map[from as usize][to as usize];
            node_costs.push((from, cost));
            assert(node_costs@ =~= leg_costs(state.problem, route@).take(i as int + 1));
            i = i + 1;
        }
        assert(node_costs@ =~= leg_costs(state.problem, route@));
        rank_by_cost(&mut node_costs);
        proof {
            vstd::seq_lib::to_multiset_len(node_costs@);
            vstd::seq_lib::to_multiset_len(leg_costs(state.problem, route@));
        }

        let mut remove_visits: Vec<VisitId> = Vec::new();
        let mut k: usize = 0;
        while k < count
            invariant
                k <= count,
                count <= node_costs.len(),
                remove_visits@ == leaders(node_costs@, k as int),
            decreases count - k,
        {
            remove_visits.push(node_costs[k].0);
            assert(remove_visits@ =~= leaders(node_costs@, k as int + 1));
            k = k + 1;
        }
        proof {
            lemma_same_entries_same_visits(node_costs@, leg_costs(state.problem, route@));
            assert(ranked_visits(leg_costs(state.problem, route@)) =~= route@);
            assert(remove_visits@ =~= ranked_visits(node_costs@).take(count as int));
            lemma_prefix_is_part(ranked_visits(node_costs@), count as int);
        }
        move_to_bank(state.problem, &mut route, &mut bank, &remove_visits);
        let result = TSPState { problem: state.problem, route, bank };
        proof {
            lemma_ranking_is_unique(node_costs@, leg_costs(state.problem(), state.route()));
        }
        result
    }
}

} // verus!
