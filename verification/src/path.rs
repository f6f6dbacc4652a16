//! The path search itself.

use crate::jumps::{exits_known, has_jump, Exit, Jump, JumpMap};
use crate::search::{
    cost_cap, cost_of, done, hop_cost, is_path, lemma_path_stays_within, lemma_popped,
    lemma_reached_count, lemma_relax_exits, lemma_relax_progress, lemma_run, lemma_settled_ways,
    lemma_shortest_path, lemma_trace, path_cost, popped, potential, reached, relax, relax_exits,
    run, shortest_path, sound, step, trace, trace_rank, Hop, Reached, Search, Task, PENALTY,
};
use crate::universe::{has_system, System, SystemId, Universe};
use crate::validity::SystemValidityChecker;
use std::collections::{HashMap, VecDeque};
use vstd::prelude::*;

verus! {

broadcast use vstd::std_specs::hash::group_hash_axioms;

/// The systems of `universe` that `checker` allows.
pub open spec fn allowed_ids(checker: &SystemValidityChecker, universe: &Universe) -> Set<
    SystemId,
> {
    Set::new(|id: SystemId| checker.allows_id(universe, id))
}

/// The mathematical content of a path that may be missing.
pub open spec fn path_view(path: Option<Vec<Hop>>) -> Option<Seq<Hop>> {
    match path {
        Some(hops) => Some(hops@),
        None => None,
    }
}

/// A way into a system as the search holds it: where it comes from, the
/// link used, the cost from the start.
type Way = (SystemId, Jump, u128);

/// The recorded ways as the model of the search sees them.
spec fn ways_of(best: Map<SystemId, Way>) -> Map<SystemId, Reached> {
    Map::new(
        |k: SystemId| best.contains_key(k),
        |k: SystemId| Reached { parent: best[k].0, via: best[k].1, cost: best[k].2 as nat },
    )
}

/// The queue as the model of the search sees it.
spec fn queue_of(queue: Seq<(SystemId, u128)>) -> Seq<(SystemId, nat)> {
    Seq::new(queue.len(), |i: int| (queue[i].0, queue[i].1 as nat))
}

/// The state of the search as its model sees it.
spec fn state_of(best: Map<SystemId, Way>, queue: Seq<(SystemId, u128)>) -> Search {
    Search { best: ways_of(best), queue: queue_of(queue) }
}

/// The jumps in `back`, last first.
spec fn turned(back: Seq<Hop>) -> Seq<Hop> {
    Seq::new(back.len(), |i: int| back[back.len() - 1 - i])
}

/// Looks at every exit of `curr`, which was taken off the queue with the
/// cost `d`.
#[verifier::loop_isolation(false)]
fn look_at_exits(
    exits: &Vec<Exit>,
    curr: SystemId,
    d: u128,
    best: &mut HashMap<SystemId, Way>,
    queue: &mut VecDeque<(SystemId, u128)>,
    universe: &Universe,
    checker: &SystemValidityChecker,
    from: SystemId,
    Ghost(t): Ghost<Task>,
)
    requires
        universe.wf(),
        t.start == from,
        exits_known(t.jumps, universe.system_table()),
        t.allowed == allowed_ids(checker, universe),
        t.jumps.contains_key(curr),
        exits@ == t.jumps[curr],
        sound(t, universe.system_table(), state_of(old(best)@, old(queue)@)),
        reached(state_of(old(best)@, old(queue)@), t.start, curr),
        cost_of(state_of(old(best)@, old(queue)@), t.start, curr) <= d,
        d <= PENALTY * ways_of(old(best)@).dom().len(),
    ensures
        state_of(final(best)@, final(queue)@) == relax_exits(
            t,
            state_of(old(best)@, old(queue)@),
            curr,
            d as nat,
            exits@,
        ),
        state_of(final(best)@, final(queue)@) == state_of(old(best)@, old(queue)@) || potential(
            ways_of(final(best)@),
            universe.system_table(),
            cost_cap(universe.system_table()),
        ) < potential(
            ways_of(old(best)@),
            universe.system_table(),
            cost_cap(universe.system_table()),
        ),
{
    let ghost systems = universe.system_table();
    let ghost cap = cost_cap(systems);
    let ghost rest = state_of(best@, queue@);
    let table = universe.systems();
    let size = table.len();
    let mut k: usize = 0;
    proof {
        assert(rest == relax_exits(t, rest, curr, d as nat, exits@.take(0)));
    }
    while k < exits.len()
        invariant
            k <= exits.len(),
            state_of(best@, queue@) == relax_exits(t, rest, curr, d as nat, exits@.take(k as int)),
            state_of(best@, queue@) == rest || potential(ways_of(best@), systems, cap) < potential(
                rest.best,
                systems,
                cap,
            ),
        decreases exits.len() - k,
    {
        let ghost now = state_of(best@, queue@);
        let ghost seen = exits@.take(k as int);
        let (neighbour, via) = exits[k];
        proof {
            assert forall|i: int| 0 <= i < seen.len() implies has_jump(
                t.jumps,
                curr,
                (#[trigger] seen[i]).0,
                seen[i].1,
            ) && has_system(systems, seen[i].0) by {
                assert(seen[i] == exits@[i]);
                assert(exits@.contains(exits@[i]));
            }
            lemma_relax_exits(t, systems, rest, curr, d as nat, seen);
            lemma_reached_count(now, systems);
            assert(exits@.contains(exits@[k as int]));
            assert(d <= PENALTY * now.best.dom().len()) by (nonlinear_arith)
                requires
                    d <= PENALTY * rest.best.dom().len(),
                    rest.best.dom().len() <= now.best.dom().len(),
            ;
            assert(d <= 1000 * usize::MAX) by (nonlinear_arith)
                requires
                    d <= PENALTY * now.best.dom().len(),
                    now.best.dom().len() <= systems.len(),
                    systems.len() == size,
                    size <= usize::MAX,
                    PENALTY == 1000,
            ;
        }
        let place = universe.position(neighbour).unwrap();
        let n_valid = checker.is_system_valid(&table[place]);
        let n_dist: u128 = d + if n_valid {
            1
        } else {
            PENALTY as u128
        };
        proof {
            assert(n_valid == t.allowed.contains(neighbour));
            assert(n_dist as nat == d as nat + hop_cost(t.allowed, neighbour));
        }
        if neighbour != from {
            let better = match best.get(&neighbour) {
                None => true,
                Some(known) => n_dist < known.2,
            };
            if better {
                best.insert(neighbour, (curr, via, n_dist));
                queue.push_back((neighbour, n_dist));
            }
        }
        proof {
            let exit: Exit = (neighbour, via);
            let next = relax(t, now, curr, d as nat, exit);
            assert(state_of(best@, queue@).best =~= next.best);
            assert(state_of(best@, queue@).queue =~= next.queue);
            assert(exits@.take(k + 1).drop_last() =~= seen);
            assert(exits@.take(k + 1).last() == exit);
            lemma_relax_progress(t, systems, now, curr, d as nat, exit);
        }
        k = k + 1;
    }
    proof {
        assert(exits@.take(k as int) =~= exits@);
    }
}

/// Runs the search from `from` until nothing waits in the queue, and
/// returns the best way found into each system reached.
fn settle(
    jumps: &JumpMap,
    universe: &Universe,
    from: SystemId,
    checker: &SystemValidityChecker,
) -> (out: (HashMap<SystemId, Way>, Ghost<nat>))
    requires
        universe.wf(),
        jumps.exits_within(universe),
    ensures
        done(Task { jumps: jumps@, allowed: allowed_ids(checker, universe), start: from }, out.1@),
        ways_of(out.0@) == run(
            Task { jumps: jumps@, allowed: allowed_ids(checker, universe), start: from },
            out.1@,
        ).best,
{
    let ghost t = Task { jumps: jumps@, allowed: allowed_ids(checker, universe), start: from };
    let ghost systems = universe.system_table();
    let ghost cap = cost_cap(systems);
    let mut best: HashMap<SystemId, Way> = HashMap::new();
    let mut queue: VecDeque<(SystemId, u128)> = VecDeque::new();
    queue.push_back((from, 0));
    let ghost mut steps: nat = 0;
    proof {
        assert(state_of(best@, queue@).best =~= run(t, 0).best);
        assert(state_of(best@, queue@).queue =~= run(t, 0).queue);
    }
    while queue.len() > 0
        invariant
            universe.wf(),
            jumps.exits_within(universe),
            t == (Task { jumps: jumps@, allowed: allowed_ids(checker, universe), start: from }),
            systems == universe.system_table(),
            cap == cost_cap(systems),
            state_of(best@, queue@) == run(t, steps),
        decreases potential(ways_of(best@), systems, cap), queue@.len(),
    {
        let ghost before = run(t, steps);
        let ghost rest = popped(before);
        let (curr, d) = queue.pop_front().unwrap();
        proof {
            lemma_run(t, systems, steps);
            lemma_popped(t, systems, before);
            assert(state_of(best@, queue@).queue =~= rest.queue);
            assert(before.queue[0] == (curr, d as nat));
        }
        match jumps.exits(curr) {
            Some(exits) => {
                look_at_exits(
                    exits,
                    curr,
                    d,
                    &mut best,
                    &mut queue,
                    universe,
                    checker,
                    from,
                    Ghost(t),
                );
            },
            None => {},
        }
        proof {
            assert(state_of(best@, queue@) == step(t, before));
            steps = steps + 1;
        }
    }
    (best, Ghost(steps))
}

/// Follows the recorded ways back from `to` to `from` and returns the jumps
/// in the order of travel.
fn read_back(
    best: &HashMap<SystemId, Way>,
    from: SystemId,
    to: SystemId,
    Ghost(t): Ghost<Task>,
    Ghost(systems): Ghost<Seq<System>>,
    Ghost(end): Ghost<Search>,
) -> (found: Vec<Hop>)
    requires
        sound(t, systems, end),
        end.best == ways_of(best@),
        t.start == from,
        reached(end, from, to),
    ensures
        Some(found@) == trace(end.best, from, to),
{
    proof {
        lemma_trace(t, systems, end, to);
    }
    let mut back: Vec<Hop> = Vec::new();
    let mut curr = to;
    proof {
        assert(trace(end.best, from, to).unwrap() + turned(back@) =~= trace(
            end.best,
            from,
            to,
        ).unwrap());
    }
    while curr != from
        invariant
            sound(t, systems, end),
            end.best == ways_of(best@),
            t.start == from,
            reached(end, from, curr),
            trace(end.best, from, curr) is Some,
            trace(end.best, from, to) == Some(
                trace(end.best, from, curr).unwrap() + turned(back@),
            ),
        decreases trace_rank(end.best, from, curr),
    {
        assert(end.best.contains_key(curr));
        let way = *best.get(&curr).unwrap();
        proof {
            lemma_trace(t, systems, end, way.0);
            let hop: Hop = (curr, way.0, way.1);
            assert(trace(end.best, from, curr) == Some(
                trace(end.best, from, way.0).unwrap().push(hop),
            ));
            assert(trace(end.best, from, way.0).unwrap() + turned(back@.push(hop)) =~= trace(
                end.best,
                from,
                curr,
            ).unwrap() + turned(back@));
        }
        back.push((curr, way.0, way.1));
        curr = way.0;
    }
    let mut found: Vec<Hop> = Vec::new();
    let mut i: usize = back.len();
    while i > 0
        invariant
            i <= back.len(),
            found@ == turned(back@).take(back.len() - i),
        decreases i,
    {
        i = i - 1;
        found.push(back[i]);
        proof {
            assert(found@ =~= turned(back@).take(back.len() - i));
        }
    }
    proof {
        assert(found@ =~= turned(back@));
        assert(trace(end.best, from, from).unwrap() + turned(back@) =~= turned(back@));
    }
    found
}

/// Finds a cheapest path from `from` to `to`.
///
/// A jump into a system that `checker` allows costs 1, a jump into any
/// other costs [`PENALTY`]. The result is `None` exactly if no path leads
/// from `from` to `to`; otherwise it is the path that [`shortest_path`]
/// describes, which costs no more than any other. Each hop holds the system
/// entered, the system left and the kind of link.
pub fn get_shortest_path(
    jumps: &JumpMap,
    universe: &Universe,
    from: SystemId,
    to: SystemId,
    checker: &SystemValidityChecker,
) -> (path: Option<Vec<Hop>>)
    requires
        universe.wf(),
        jumps.exits_within(universe),
    ensures
        path_view(path) == shortest_path(jumps@, allowed_ids(checker, universe), from, to),
        from == to ==> path_view(path) == Some(Seq::<Hop>::empty()),
        path is Some <==> exists|hops: Seq<Hop>| is_path(jumps@, from, to, hops),
        path matches Some(found) ==> is_path(jumps@, from, to, found@) && forall|hops: Seq<Hop>|
            is_path(jumps@, from, to, hops) ==> path_cost(allowed_ids(checker, universe), found@)
                <= path_cost(allowed_ids(checker, universe), hops),
        path matches Some(found) ==> forall|i: int|
            0 <= i < found@.len() ==> universe.knows((#[trigger] found@[i]).0) && (universe.knows(
                from,
            ) ==> universe.knows(found@[i].1)),
{
    let ghost t = Task { jumps: jumps@, allowed: allowed_ids(checker, universe), start: from };
    let ghost systems = universe.system_table();
    let (best, Ghost(steps)) = settle(jumps, universe, from, checker);
    let ghost end = run(t, steps);
    proof {
        lemma_settled_ways(t, steps);
        lemma_run(t, systems, steps);
        lemma_shortest_path(jumps@, t.allowed, systems, from, to);
    }
    if to != from && best.get(&to).is_none() {
        return None;
    }
    let found = read_back(&best, from, to, Ghost(t), Ghost(systems), Ghost(end));
    proof {
        lemma_path_stays_within(jumps@, systems, from, to, found@);
    }
    Some(found)
}

} // verus!
