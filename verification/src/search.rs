//! The model of the path search: what a path is and costs, how the search
//! proceeds step by step, and why it ends with cheapest paths.

use crate::jumps::{exits_known, has_jump, Exit, Jump, JumpView};
use crate::universe::{has_system, ids_ascending, System, SystemId};
use vstd::prelude::*;

verus! {

/// The cost of a jump into a system that the policy forbids.
pub const PENALTY: u64 = 1000;

/// One jump of a path: the system entered, the system left, and the kind of
/// link used.
pub type Hop = (SystemId, SystemId, Jump);

/// What a search works on: the graph, the systems that the policy allows,
/// and the system where the search starts.
pub struct Task {
    pub jumps: JumpView,
    pub allowed: Set<SystemId>,
    pub start: SystemId,
}

/// The best way found so far into a system: the system it comes from, the
/// link used, and the cost from the start.
pub struct Reached {
    pub parent: SystemId,
    pub via: Jump,
    pub cost: nat,
}

/// The state of a search: the best way found into each system reached, and
/// the systems whose exits wait to be looked at, each with the cost it had
/// when it was queued.
pub struct Search {
    pub best: Map<SystemId, Reached>,
    pub queue: Seq<(SystemId, nat)>,
}

/// `hops` leads from `from` to `to` along jumps of the graph. The empty
/// sequence leads from a system to itself.
pub open spec fn is_path(g: JumpView, from: SystemId, to: SystemId, hops: Seq<Hop>) -> bool {
    if hops.len() == 0 {
        from == to
    } else {
        &&& hops[0].1 == from
        &&& hops.last().0 == to
        &&& forall|i: int|
            0 <= i < hops.len() ==> has_jump(g, (#[trigger] hops[i]).1, hops[i].0, hops[i].2)
        &&& forall|i: int| 0 <= i < hops.len() - 1 ==> (#[trigger] hops[i]).0 == hops[i + 1].1
    }
}

/// The cost of a jump into `to`: 1 into an allowed system, the penalty into
/// any other.
pub open spec fn hop_cost(allowed: Set<SystemId>, to: SystemId) -> nat {
    if allowed.contains(to) {
        1
    } else {
        PENALTY as nat
    }
}

/// The cost of a path: the sum of the costs of its jumps.
pub open spec fn path_cost(allowed: Set<SystemId>, hops: Seq<Hop>) -> nat
    decreases hops.len(),
{
    if hops.len() == 0 {
        0
    } else {
        path_cost(allowed, hops.drop_last()) + hop_cost(allowed, hops.last().0)
    }
}

/// Looks at one exit of `node`, which was queued with cost `d`: if the exit
/// leads to a system other than the start that was not reached before, or
/// reaches it strictly cheaper than before, this way is recorded and the
/// system is queued.
pub open spec fn relax(t: Task, s: Search, node: SystemId, d: nat, exit: Exit) -> Search {
    let cost = d + hop_cost(t.allowed, exit.0);
    if exit.0 != t.start && (!s.best.contains_key(exit.0) || cost < s.best[exit.0].cost) {
        Search {
            best: s.best.insert(exit.0, Reached { parent: node, via: exit.1, cost }),
            queue: s.queue.push((exit.0, cost)),
        }
    } else {
        s
    }
}

/// Looks at the given exits of `node` from first to last.
pub open spec fn relax_exits(t: Task, s: Search, node: SystemId, d: nat, exits: Seq<Exit>) -> Search
    decreases exits.len(),
{
    if exits.len() == 0 {
        s
    } else {
        relax(t, relax_exits(t, s, node, d, exits.drop_last()), node, d, exits.last())
    }
}

/// The search state with the head of the queue taken off.
pub open spec fn popped(s: Search) -> Search {
    Search { best: s.best, queue: s.queue.drop_first() }
}

/// Takes the head of the queue and looks at all its exits. Changes nothing
/// once the queue is empty.
pub open spec fn step(t: Task, s: Search) -> Search {
    if s.queue.len() == 0 {
        s
    } else if t.jumps.contains_key(s.queue[0].0) {
        relax_exits(t, popped(s), s.queue[0].0, s.queue[0].1, t.jumps[s.queue[0].0])
    } else {
        popped(s)
    }
}

/// The search state after `n` steps from the start.
pub open spec fn run(t: Task, n: nat) -> Search
    decreases n,
{
    if n == 0 {
        Search { best: Map::empty(), queue: seq![(t.start, 0nat)] }
    } else {
        step(t, run(t, (n - 1) as nat))
    }
}

/// After `n` steps nothing waits in the queue.
pub open spec fn done(t: Task, n: nat) -> bool {
    run(t, n).queue.len() == 0
}

/// The best ways found when the search has come to rest.
pub open spec fn settled_ways(t: Task) -> Map<SystemId, Reached> {
    run(t, choose|n: nat| done(t, n)).best
}

/// The measure by which following the recorded ways back terminates.
pub open spec fn trace_rank(best: Map<SystemId, Reached>, start: SystemId, to: SystemId) -> nat {
    if to != start && best.contains_key(to) {
        best[to].cost + 1
    } else {
        0
    }
}

/// The path from `start` to `to` that the recorded ways describe, read back
/// from `to`; `None` if `to` was not reached.
pub open spec fn trace(best: Map<SystemId, Reached>, start: SystemId, to: SystemId) -> Option<
    Seq<Hop>,
>
    decreases trace_rank(best, start, to),
{
    if to == start {
        Some(Seq::empty())
    } else if !best.contains_key(to) {
        None
    } else if trace_rank(best, start, best[to].parent) < trace_rank(best, start, to) {
        match trace(best, start, best[to].parent) {
            Some(hops) => Some(hops.push((to, best[to].parent, best[to].via))),
            None => None,
        }
    } else {
        None
    }
}

/// The path that the search finds from `from` to `to`: the systems are
/// taken from a queue in the order they were put in, each exit is looked at
/// in the order of the graph, and a way into a system is replaced only by a
/// strictly cheaper one.
pub open spec fn shortest_path(
    g: JumpView,
    allowed: Set<SystemId>,
    from: SystemId,
    to: SystemId,
) -> Option<Seq<Hop>> {
    trace(settled_ways(Task { jumps: g, allowed, start: from }), from, to)
}

/// The system is the start or has been reached.
pub open spec fn reached(s: Search, start: SystemId, u: SystemId) -> bool {
    u == start || s.best.contains_key(u)
}

/// The cost of the best way found to `u`.
pub open spec fn cost_of(s: Search, start: SystemId, u: SystemId) -> nat {
    if u == start {
        0
    } else {
        s.best[u].cost
    }
}

/// Each recorded way uses a jump of the graph out of a system that was
/// reached, and costs at least what that system costs now plus the jump.
pub open spec fn links_ok(t: Task, s: Search) -> bool {
    forall|k: SystemId| #[trigger]
        s.best.contains_key(k) ==> {
            &&& k != t.start
            &&& has_jump(t.jumps, s.best[k].parent, k, s.best[k].via)
            &&& reached(s, t.start, s.best[k].parent)
            &&& cost_of(s, t.start, s.best[k].parent) + hop_cost(t.allowed, k) <= s.best[k].cost
        }
}

/// Each queued system was reached, at no more than the cost it was queued
/// with, and that cost is within the bound.
pub open spec fn queue_ok(t: Task, s: Search) -> bool {
    forall|i: int|
        0 <= i < s.queue.len() ==> {
            &&& reached(s, t.start, (#[trigger] s.queue[i]).0)
            &&& cost_of(s, t.start, s.queue[i].0) <= s.queue[i].1
            &&& s.queue[i].1 <= PENALTY * s.best.dom().len()
        }
}

/// Finitely many systems were reached, all of the table, and none at more
/// than the penalty times their number.
pub open spec fn bounded(s: Search, systems: Seq<System>) -> bool {
    &&& s.best.dom().finite()
    &&& forall|k: SystemId| #[trigger]
        s.best.contains_key(k) ==> has_system(systems, k) && s.best[k].cost <= PENALTY
            * s.best.dom().len()
}

/// What holds of a search state at every moment.
pub open spec fn sound(t: Task, systems: Seq<System>, s: Search) -> bool {
    &&& links_ok(t, s)
    &&& queue_ok(t, s)
    &&& bounded(s, systems)
}

/// From `s` to `s2` systems were only added and ways only made cheaper, the
/// queue only grew at its end, and every system whose way changed is queued
/// with its new cost.
pub open spec fn grows(s: Search, s2: Search) -> bool {
    &&& forall|k: SystemId| #[trigger]
        s.best.contains_key(k) ==> s2.best.contains_key(k) && s2.best[k].cost <= s.best[k].cost
    &&& s.queue.len() <= s2.queue.len()
    &&& forall|i: int| 0 <= i < s.queue.len() ==> #[trigger] s2.queue[i] == s.queue[i]
    &&& forall|k: SystemId| #[trigger]
        s2.best.contains_key(k) && (!s.best.contains_key(k) || s2.best[k] != s.best[k])
            ==> s2.queue.contains((k, s2.best[k].cost))
}

/// The exit needs no more attention from a system of cost `c`: it leads to
/// the start, or to a system reached at no more than `c` plus the jump.
pub open spec fn eased(t: Task, s: Search, c: nat, exit: Exit) -> bool {
    exit.0 == t.start || (s.best.contains_key(exit.0) && s.best[exit.0].cost <= c + hop_cost(
        t.allowed,
        exit.0,
    ))
}

/// The first `k` exits of `u` are eased for the cost `c`.
pub open spec fn eased_up_to(t: Task, s: Search, u: SystemId, c: nat, k: int) -> bool {
    t.jumps.contains_key(u) ==> forall|i: int|
        0 <= i < k && i < t.jumps[u].len() ==> eased(t, s, c, #[trigger] t.jumps[u][i])
}

/// The system `u` is queued with its present cost, or all its exits are
/// eased for that cost.
pub open spec fn settled(t: Task, s: Search, u: SystemId) -> bool {
    s.queue.contains((u, cost_of(s, t.start, u))) || eased_up_to(
        t,
        s,
        u,
        cost_of(s, t.start, u),
        if t.jumps.contains_key(u) {
            t.jumps[u].len() as int
        } else {
            0
        },
    )
}

/// Every reached system is settled, except that `node`, if its cost is `d`,
/// need only have its first `k` exits eased.
pub open spec fn settled_but(t: Task, s: Search, node: SystemId, d: nat, k: int) -> bool {
    forall|u: SystemId|
        reached(s, t.start, u) ==> #[trigger] settled(t, s, u) || (u == node && cost_of(
            s,
            t.start,
            u,
        ) == d && eased_up_to(t, s, u, d, k))
}

/// Every reached system is settled.
pub open spec fn all_settled(t: Task, s: Search) -> bool {
    forall|u: SystemId| reached(s, t.start, u) ==> #[trigger] settled(t, s, u)
}

/// Growth is transitive.
pub proof fn lemma_grows_transitive(s1: Search, s2: Search, s3: Search)
    requires
        grows(s1, s2),
        grows(s2, s3),
    ensures
        grows(s1, s3),
{
    assert forall|k: SystemId| #[trigger]
        s3.best.contains_key(k) && (!s1.best.contains_key(k) || s3.best[k] != s1.best[k])
        implies s3.queue.contains((k, s3.best[k].cost)) by {
        if s2.best.contains_key(k) && s3.best[k] == s2.best[k] {
            let i = choose|i: int|
                0 <= i < s2.queue.len() && s2.queue[i] == (k, s2.best[k].cost);
            assert(s3.queue[i] == s2.queue[i]);
        }
    }
    assert forall|i: int| 0 <= i < s1.queue.len() implies #[trigger] s3.queue[i]
        == s1.queue[i] by {
        assert(s2.queue[i] == s1.queue[i]);
    }
}

/// Looking at one exit keeps the state sound and lets it grow, and the exit
/// is eased afterwards.
pub proof fn lemma_relax(
    t: Task,
    systems: Seq<System>,
    s: Search,
    node: SystemId,
    d: nat,
    exit: Exit,
)
    requires
        sound(t, systems, s),
        reached(s, t.start, node),
        cost_of(s, t.start, node) <= d,
        d <= PENALTY * s.best.dom().len(),
        has_jump(t.jumps, node, exit.0, exit.1),
        has_system(systems, exit.0),
    ensures
        sound(t, systems, relax(t, s, node, d, exit)),
        grows(s, relax(t, s, node, d, exit)),
        eased(t, relax(t, s, node, d, exit), d, exit),
        s.best.dom().len() <= relax(t, s, node, d, exit).best.dom().len(),
{
    let s2 = relax(t, s, node, d, exit);
    let cost = d + hop_cost(t.allowed, exit.0);
    if s2 != s {
        let v = exit.0;
        assert(s2.best.dom() =~= s.best.dom().insert(v));
        assert(s2.queue.last() == (v, cost));
        assert(s2.queue[s2.queue.len() - 1] == (v, cost));
        if s.best.contains_key(v) {
            assert(s.best.dom().insert(v) =~= s.best.dom());
        }
        assert(s2.best.dom().len() >= s.best.dom().len());
        assert(cost <= PENALTY * s2.best.dom().len()) by (nonlinear_arith)
            requires
                cost <= d + PENALTY,
                d <= PENALTY * s.best.dom().len(),
                s.best.contains_key(v) ==> cost < s.best[v].cost && s.best[v].cost <= PENALTY
                    * s.best.dom().len() && s2.best.dom().len() == s.best.dom().len(),
                !s.best.contains_key(v) ==> s2.best.dom().len() == s.best.dom().len() + 1,
        ;
        assert(PENALTY * s.best.dom().len() <= PENALTY * s2.best.dom().len()) by (nonlinear_arith)
            requires
                s.best.dom().len() <= s2.best.dom().len(),
        ;
        assert forall|k: SystemId| #[trigger] s2.best.contains_key(k) implies {
            &&& k != t.start
            &&& has_jump(t.jumps, s2.best[k].parent, k, s2.best[k].via)
            &&& reached(s2, t.start, s2.best[k].parent)
            &&& cost_of(s2, t.start, s2.best[k].parent) + hop_cost(t.allowed, k)
                <= s2.best[k].cost
        } by {
            if k == v {
                if node != t.start && node != v {
                    assert(s.best.contains_key(node));
                }
            } else {
                assert(s.best.contains_key(k));
                let p = s.best[k].parent;
                if p == v {
                    assert(s.best.contains_key(v));
                }
            }
        }
        assert forall|i: int| 0 <= i < s2.queue.len() implies {
            &&& reached(s2, t.start, (#[trigger] s2.queue[i]).0)
            &&& cost_of(s2, t.start, s2.queue[i].0) <= s2.queue[i].1
            &&& s2.queue[i].1 <= PENALTY * s2.best.dom().len()
        } by {
            if i < s.queue.len() {
                assert(s2.queue[i] == s.queue[i]);
            }
        }
        assert forall|k: SystemId| #[trigger] s2.best.contains_key(k) implies has_system(
            systems,
            k,
        ) && s2.best[k].cost <= PENALTY * s2.best.dom().len() by {
            if k != v {
                assert(s.best.contains_key(k));
            }
        }
        assert forall|k: SystemId| #[trigger]
            s2.best.contains_key(k) && (!s.best.contains_key(k) || s2.best[k] != s.best[k])
            implies s2.queue.contains((k, s2.best[k].cost)) by {
            assert(k == v);
        }
    }
}

/// Looking at several exits of `node` keeps the state sound and lets it
/// grow, and all those exits are eased afterwards.
pub proof fn lemma_relax_exits(
    t: Task,
    systems: Seq<System>,
    s: Search,
    node: SystemId,
    d: nat,
    exits: Seq<Exit>,
)
    requires
        sound(t, systems, s),
        reached(s, t.start, node),
        cost_of(s, t.start, node) <= d,
        d <= PENALTY * s.best.dom().len(),
        forall|i: int|
            0 <= i < exits.len() ==> has_jump(t.jumps, node, (#[trigger] exits[i]).0, exits[i].1)
                && has_system(systems, exits[i].0),
    ensures
        sound(t, systems, relax_exits(t, s, node, d, exits)),
        grows(s, relax_exits(t, s, node, d, exits)),
        forall|i: int|
            0 <= i < exits.len() ==> eased(
                t,
                relax_exits(t, s, node, d, exits),
                d,
                #[trigger] exits[i],
            ),
        s.best.dom().len() <= relax_exits(t, s, node, d, exits).best.dom().len(),
        reached(relax_exits(t, s, node, d, exits), t.start, node),
        cost_of(relax_exits(t, s, node, d, exits), t.start, node) <= d,
    decreases exits.len(),
{
    if exits.len() > 0 {
        let front = exits.drop_last();
        let last = exits.last();
        let r1 = relax_exits(t, s, node, d, front);
        let r = relax(t, r1, node, d, last);
        assert forall|i: int| 0 <= i < front.len() implies has_jump(
            t.jumps,
            node,
            (#[trigger] front[i]).0,
            front[i].1,
        ) && has_system(systems, front[i].0) by {
            assert(front[i] == exits[i]);
        }
        lemma_relax_exits(t, systems, s, node, d, front);
        assert(exits[exits.len() - 1] == last);
        if node != t.start {
            assert(s.best.contains_key(node));
        }
        assert(d <= PENALTY * r1.best.dom().len()) by (nonlinear_arith)
            requires
                d <= PENALTY * s.best.dom().len(),
                s.best.dom().len() <= r1.best.dom().len(),
        ;
        lemma_relax(t, systems, r1, node, d, last);
        lemma_grows_transitive(s, r1, r);
        assert forall|i: int| 0 <= i < exits.len() implies eased(t, r, d, #[trigger] exits[i]) by {
            if i < front.len() {
                assert(front[i] == exits[i]);
                assert(eased(t, r1, d, front[i]));
                if exits[i].0 != t.start {
                    assert(r1.best.contains_key(exits[i].0));
                }
            }
        }
        if node != t.start {
            assert(r1.best.contains_key(node));
        }
    }
}

/// Taking the head off the queue keeps the state sound, and leaves every
/// system settled but the one taken off.
pub proof fn lemma_popped(t: Task, systems: Seq<System>, s: Search)
    requires
        sound(t, systems, s),
        all_settled(t, s),
        s.queue.len() > 0,
    ensures
        sound(t, systems, popped(s)),
        settled_but(t, popped(s), s.queue[0].0, s.queue[0].1, 0),
        reached(popped(s), t.start, s.queue[0].0),
        cost_of(popped(s), t.start, s.queue[0].0) <= s.queue[0].1,
        s.queue[0].1 <= PENALTY * popped(s).best.dom().len(),
{
    let rest = popped(s);
    assert forall|i: int| 0 <= i < rest.queue.len() implies {
        &&& reached(rest, t.start, (#[trigger] rest.queue[i]).0)
        &&& cost_of(rest, t.start, rest.queue[i].0) <= rest.queue[i].1
        &&& rest.queue[i].1 <= PENALTY * rest.best.dom().len()
    } by {
        assert(rest.queue[i] == s.queue[i + 1]);
    }
    assert forall|u: SystemId| reached(rest, t.start, u) implies #[trigger] settled(t, rest, u)
        || (u == s.queue[0].0 && cost_of(rest, t.start, u) == s.queue[0].1 && eased_up_to(
        t,
        rest,
        u,
        s.queue[0].1,
        0,
    )) by {
        assert(settled(t, s, u));
        let c = cost_of(s, t.start, u);
        if s.queue.contains((u, c)) {
            let i = choose|i: int| 0 <= i < s.queue.len() && s.queue[i] == (u, c);
            if i > 0 {
                assert(rest.queue[i - 1] == (u, c));
            }
        }
    }
}

/// If a state grew out of one in which every system was settled but `node`,
/// and all exits of `node` are eased in it for the cost `d`, then every
/// system is settled in it.
pub proof fn lemma_settled_after(t: Task, s: Search, r: Search, node: SystemId, d: nat, k: int)
    requires
        settled_but(t, s, node, d, k),
        grows(s, r),
        t.jumps.contains_key(node) ==> forall|i: int|
            0 <= i < t.jumps[node].len() ==> eased(t, r, d, #[trigger] t.jumps[node][i]),
    ensures
        all_settled(t, r),
{
    assert forall|u: SystemId| reached(r, t.start, u) implies #[trigger] settled(t, r, u) by {
        let c2 = cost_of(r, t.start, u);
        if u != t.start && (!s.best.contains_key(u) || r.best[u] != s.best[u]) {
            assert(r.best.contains_key(u));
            assert(r.queue.contains((u, r.best[u].cost)));
        } else {
            let c = cost_of(s, t.start, u);
            assert(c == c2);
            assert(reached(s, t.start, u));
            assert(settled(t, s, u) || (u == node && c == d && eased_up_to(t, s, u, d, k)));
            if s.queue.contains((u, c)) {
                let i = choose|i: int| 0 <= i < s.queue.len() && s.queue[i] == (u, c);
                assert(r.queue[i] == s.queue[i]);
            } else if settled(t, s, u) {
                if t.jumps.contains_key(u) {
                    assert forall|i: int| 0 <= i < t.jumps[u].len() implies eased(
                        t,
                        r,
                        c,
                        #[trigger] t.jumps[u][i],
                    ) by {
                        let e = t.jumps[u][i];
                        assert(eased(t, s, c, e));
                        if e.0 != t.start {
                            assert(s.best.contains_key(e.0));
                        }
                    }
                }
            }
        }
    }
}

/// A step keeps the state sound and every reached system settled.
pub proof fn lemma_step(t: Task, systems: Seq<System>, s: Search)
    requires
        sound(t, systems, s),
        all_settled(t, s),
        exits_known(t.jumps, systems),
    ensures
        sound(t, systems, step(t, s)),
        all_settled(t, step(t, s)),
{
    if s.queue.len() > 0 {
        let node = s.queue[0].0;
        let d = s.queue[0].1;
        let rest = popped(s);
        lemma_popped(t, systems, s);
        if t.jumps.contains_key(node) {
            let exits = t.jumps[node];
            assert forall|i: int| 0 <= i < exits.len() implies has_jump(
                t.jumps,
                node,
                (#[trigger] exits[i]).0,
                exits[i].1,
            ) && has_system(systems, exits[i].0) by {
                assert(exits.contains(exits[i]));
            }
            lemma_relax_exits(t, systems, rest, node, d, exits);
            lemma_settled_after(t, rest, relax_exits(t, rest, node, d, exits), node, d, 0);
        } else {
            lemma_settled_after(t, rest, rest, node, d, 0);
        }
    }
}

/// After any number of steps the state is sound and every reached system is
/// settled.
pub proof fn lemma_run(t: Task, systems: Seq<System>, n: nat)
    requires
        exits_known(t.jumps, systems),
    ensures
        sound(t, systems, run(t, n)),
        all_settled(t, run(t, n)),
    decreases n,
{
    if n == 0 {
        let s = run(t, 0);
        assert(s.queue[0] == (t.start, 0nat));
        assert forall|u: SystemId| reached(s, t.start, u) implies #[trigger] settled(t, s, u) by {
            assert(s.queue.contains((t.start, 0nat)));
        }
    } else {
        lemma_run(t, systems, (n - 1) as nat);
        lemma_step(t, systems, run(t, (n - 1) as nat));
    }
}

/// Once the queue is empty, further steps change nothing.
pub proof fn lemma_done_stays(t: Task, n: nat, m: nat)
    requires
        done(t, n),
        n <= m,
    ensures
        run(t, m) == run(t, n),
    decreases m,
{
    if n < m {
        lemma_done_stays(t, n, (m - 1) as nat);
    }
}

/// The search comes to rest in one state only: whenever the queue is empty
/// after `n` steps, the ways found by then are the settled ways.
pub proof fn lemma_settled_ways(t: Task, n: nat)
    requires
        done(t, n),
    ensures
        settled_ways(t) == run(t, n).best,
        done(t, choose|m: nat| done(t, m)),
{
    let m = choose|m: nat| done(t, m);
    if n <= m {
        lemma_done_stays(t, n, m);
    } else {
        lemma_done_stays(t, m, n);
    }
}

/// In a sound state the recorded ways lead back from every reached system
/// to the start, along a path of the graph that costs no more than the
/// system is recorded with.
pub proof fn lemma_trace(t: Task, systems: Seq<System>, s: Search, to: SystemId)
    requires
        sound(t, systems, s),
        reached(s, t.start, to),
    ensures
        trace(s.best, t.start, to) is Some,
        is_path(t.jumps, t.start, to, trace(s.best, t.start, to).unwrap()),
        path_cost(t.allowed, trace(s.best, t.start, to).unwrap()) <= cost_of(s, t.start, to),
        to != t.start ==> trace(s.best, t.start, to).unwrap().len() > 0,
    decreases trace_rank(s.best, t.start, to),
{
    if to != t.start {
        let r = s.best[to];
        assert(s.best.contains_key(to));
        if r.parent != t.start {
            assert(s.best.contains_key(r.parent));
        }
        assert(trace_rank(s.best, t.start, r.parent) < trace_rank(s.best, t.start, to));
        lemma_trace(t, systems, s, r.parent);
        let front = trace(s.best, t.start, r.parent).unwrap();
        let hop: Hop = (to, r.parent, r.via);
        let hops = front.push(hop);
        assert(trace(s.best, t.start, to) == Some(hops));
        assert(hops.drop_last() =~= front);
        assert forall|i: int| 0 <= i < hops.len() implies has_jump(
            t.jumps,
            (#[trigger] hops[i]).1,
            hops[i].0,
            hops[i].2,
        ) by {
            if i < front.len() {
                assert(hops[i] == front[i]);
            }
        }
        assert forall|i: int| 0 <= i < hops.len() - 1 implies (#[trigger] hops[i]).0 == hops[i
            + 1].1 by {
            assert(hops[i] == front[i]);
            if i + 1 < front.len() {
                assert(hops[i + 1] == front[i + 1]);
            } else {
                assert(front.last().0 == r.parent);
            }
        }
        if front.len() > 0 {
            assert(hops[0] == front[0]);
        }
    }
}

/// A path in a graph whose exits all lead to systems of the table enters
/// only systems of the table, and if it starts in one, leaves only such.
pub proof fn lemma_path_stays_within(
    g: JumpView,
    systems: Seq<System>,
    from: SystemId,
    to: SystemId,
    hops: Seq<Hop>,
)
    requires
        exits_known(g, systems),
        is_path(g, from, to, hops),
    ensures
        forall|i: int| 0 <= i < hops.len() ==> has_system(systems, (#[trigger] hops[i]).0),
        has_system(systems, from) ==> forall|i: int|
            0 <= i < hops.len() ==> has_system(systems, (#[trigger] hops[i]).1),
{
    assert forall|i: int| 0 <= i < hops.len() implies has_system(
        systems,
        (#[trigger] hops[i]).0,
    ) by {
        let exit: Exit = (hops[i].0, hops[i].2);
        assert(has_jump(g, hops[i].1, hops[i].0, hops[i].2));
        let k = choose|k: int| 0 <= k < g[hops[i].1].len() && g[hops[i].1][k] == exit;
        assert(has_system(systems, g[hops[i].1][k].0));
    }
    if has_system(systems, from) {
        assert forall|i: int| 0 <= i < hops.len() implies has_system(
            systems,
            (#[trigger] hops[i]).1,
        ) by {
            if i > 0 {
                assert(hops[i - 1].0 == hops[i].1);
            }
        }
    }
}

/// The first jumps of a path form a path to where its last jump starts.
pub proof fn lemma_path_front(g: JumpView, from: SystemId, to: SystemId, hops: Seq<Hop>)
    requires
        is_path(g, from, to, hops),
        hops.len() > 0,
    ensures
        is_path(g, from, hops.last().1, hops.drop_last()),
        has_jump(g, hops.last().1, to, hops.last().2),
{
    let front = hops.drop_last();
    if front.len() > 0 {
        assert(front[0] == hops[0]);
        assert(hops[hops.len() - 2].0 == hops[hops.len() - 1].1);
        assert(front.last() == hops[hops.len() - 2]);
        assert forall|i: int| 0 <= i < front.len() implies has_jump(
            g,
            (#[trigger] front[i]).1,
            front[i].0,
            front[i].2,
        ) by {
            assert(front[i] == hops[i]);
        }
        assert forall|i: int| 0 <= i < front.len() - 1 implies (#[trigger] front[i]).0 == front[i
            + 1].1 by {
            assert(front[i] == hops[i]);
            assert(front[i + 1] == hops[i + 1]);
        }
    }
    assert(hops[hops.len() - 1] == hops.last());
}

/// When the search has come to rest, every system to which a path leads
/// has been reached, at no more than the cost of that path.
pub proof fn lemma_no_cheaper_path(
    t: Task,
    systems: Seq<System>,
    s: Search,
    to: SystemId,
    hops: Seq<Hop>,
)
    requires
        sound(t, systems, s),
        all_settled(t, s),
        s.queue.len() == 0,
        is_path(t.jumps, t.start, to, hops),
    ensures
        reached(s, t.start, to),
        cost_of(s, t.start, to) <= path_cost(t.allowed, hops),
    decreases hops.len(),
{
    if hops.len() > 0 {
        let u = hops.last().1;
        let via = hops.last().2;
        lemma_path_front(t.jumps, t.start, to, hops);
        lemma_no_cheaper_path(t, systems, s, u, hops.drop_last());
        assert(settled(t, s, u));
        let exit: Exit = (to, via);
        let i = choose|i: int| 0 <= i < t.jumps[u].len() && t.jumps[u][i] == exit;
        assert(eased(t, s, cost_of(s, t.start, u), t.jumps[u][i]));
    }
}

/// What the recorded way into `id` counts for in the measure of progress:
/// its cost, or `cap` if the system was not reached.
pub open spec fn slot(best: Map<SystemId, Reached>, id: SystemId, cap: nat) -> nat {
    if best.contains_key(id) {
        best[id].cost
    } else {
        cap
    }
}

/// A number above every cost that a search over this table can record.
pub open spec fn cost_cap(systems: Seq<System>) -> nat {
    (PENALTY * systems.len() + 1) as nat
}

/// The measure of progress of a search: the sum of the slots of all systems
/// of the table. It falls whenever a way is recorded.
pub open spec fn potential(best: Map<SystemId, Reached>, systems: Seq<System>, cap: nat) -> nat
    decreases systems.len(),
{
    if systems.len() == 0 {
        0
    } else {
        potential(best, systems.drop_last(), cap) + slot(best, systems.last().id, cap)
    }
}

/// Recording a way that lowers the slot of a system lowers the potential
/// if the system is in the table, and leaves it as it is otherwise.
pub proof fn lemma_potential_insert(
    best: Map<SystemId, Reached>,
    systems: Seq<System>,
    cap: nat,
    k: SystemId,
    r: Reached,
)
    requires
        ids_ascending(systems),
        r.cost < slot(best, k, cap),
    ensures
        has_system(systems, k) ==> potential(best.insert(k, r), systems, cap) < potential(
            best,
            systems,
            cap,
        ),
        !has_system(systems, k) ==> potential(best.insert(k, r), systems, cap) == potential(
            best,
            systems,
            cap,
        ),
    decreases systems.len(),
{
    if systems.len() > 0 {
        let front = systems.drop_last();
        assert forall|i: int, j: int| 0 <= i < j < front.len() implies front[i].id
            < front[j].id by {
            assert(systems[i].id < systems[j].id);
        }
        lemma_potential_insert(best, front, cap, k, r);
        if systems.last().id == k {
            assert(systems[systems.len() - 1].id == k);
            if has_system(front, k) {
                let i = choose|i: int| 0 <= i < front.len() && (#[trigger] front[i]).id == k;
                assert(systems[i].id < systems[systems.len() - 1].id);
            }
        } else {
            if has_system(systems, k) {
                let i = choose|i: int| 0 <= i < systems.len() && (#[trigger] systems[i]).id == k;
                assert(front[i].id == k);
            }
            if has_system(front, k) {
                let i = choose|i: int| 0 <= i < front.len() && (#[trigger] front[i]).id == k;
                assert(systems[i].id == k);
            }
        }
    }
}

/// No more systems can be reached than the table holds.
pub proof fn lemma_reached_count(s: Search, systems: Seq<System>)
    requires
        bounded(s, systems),
    ensures
        s.best.dom().len() <= systems.len(),
{
    let ids = systems.map_values(|x: System| x.id);
    assert forall|k: SystemId| s.best.dom().contains(k) implies ids.to_set().contains(k) by {
        assert(s.best.contains_key(k));
        let i = choose|i: int| 0 <= i < systems.len() && (#[trigger] systems[i]).id == k;
        assert(ids[i] == k);
    }
    vstd::seq_lib::seq_to_set_is_finite(ids);
    vstd::set_lib::lemma_len_subset(s.best.dom(), ids.to_set());
    ids.lemma_cardinality_of_set();
}

/// Looking at one exit lowers the potential or changes nothing.
pub proof fn lemma_relax_progress(
    t: Task,
    systems: Seq<System>,
    s: Search,
    node: SystemId,
    d: nat,
    exit: Exit,
)
    requires
        ids_ascending(systems),
        sound(t, systems, s),
        reached(s, t.start, node),
        cost_of(s, t.start, node) <= d,
        d <= PENALTY * s.best.dom().len(),
        has_jump(t.jumps, node, exit.0, exit.1),
        has_system(systems, exit.0),
    ensures
        relax(t, s, node, d, exit) == s || potential(
            relax(t, s, node, d, exit).best,
            systems,
            cost_cap(systems),
        ) < potential(s.best, systems, cost_cap(systems)),
{
    let s2 = relax(t, s, node, d, exit);
    if s2 != s {
        lemma_relax(t, systems, s, node, d, exit);
        lemma_reached_count(s2, systems);
        let cap = cost_cap(systems);
        let r = s2.best[exit.0];
        assert(s2.best.contains_key(exit.0));
        assert(r.cost < cap) by (nonlinear_arith)
            requires
                r.cost <= PENALTY * s2.best.dom().len(),
                s2.best.dom().len() <= systems.len(),
                cap == PENALTY * systems.len() + 1,
        ;
        lemma_potential_insert(s.best, systems, cap, exit.0, r);
    }
}

/// Looking at several exits lowers the potential or changes nothing.
pub proof fn lemma_relax_exits_progress(
    t: Task,
    systems: Seq<System>,
    s: Search,
    node: SystemId,
    d: nat,
    exits: Seq<Exit>,
)
    requires
        ids_ascending(systems),
        sound(t, systems, s),
        reached(s, t.start, node),
        cost_of(s, t.start, node) <= d,
        d <= PENALTY * s.best.dom().len(),
        forall|i: int|
            0 <= i < exits.len() ==> has_jump(t.jumps, node, (#[trigger] exits[i]).0, exits[i].1)
                && has_system(systems, exits[i].0),
    ensures
        relax_exits(t, s, node, d, exits) == s || potential(
            relax_exits(t, s, node, d, exits).best,
            systems,
            cost_cap(systems),
        ) < potential(s.best, systems, cost_cap(systems)),
    decreases exits.len(),
{
    if exits.len() > 0 {
        let front = exits.drop_last();
        let r1 = relax_exits(t, s, node, d, front);
        assert forall|i: int| 0 <= i < front.len() implies has_jump(
            t.jumps,
            node,
            (#[trigger] front[i]).0,
            front[i].1,
        ) && has_system(systems, front[i].0) by {
            assert(front[i] == exits[i]);
        }
        lemma_relax_exits_progress(t, systems, s, node, d, front);
        lemma_relax_exits(t, systems, s, node, d, front);
        assert(exits[exits.len() - 1] == exits.last());
        assert(d <= PENALTY * r1.best.dom().len()) by (nonlinear_arith)
            requires
                d <= PENALTY * s.best.dom().len(),
                s.best.dom().len() <= r1.best.dom().len(),
        ;
        lemma_relax_progress(t, systems, r1, node, d, exits.last());
    }
}

/// From any number of steps on, the search comes to rest after finitely
/// many more.
pub proof fn lemma_comes_to_rest(t: Task, systems: Seq<System>, n: nat)
    requires
        ids_ascending(systems),
        exits_known(t.jumps, systems),
    ensures
        exists|m: nat| done(t, m),
    decreases potential(run(t, n).best, systems, cost_cap(systems)), run(t, n).queue.len(),
{
    let s = run(t, n);
    if s.queue.len() > 0 {
        let node = s.queue[0].0;
        let d = s.queue[0].1;
        lemma_run(t, systems, n);
        lemma_popped(t, systems, s);
        if t.jumps.contains_key(node) {
            let exits = t.jumps[node];
            assert forall|i: int| 0 <= i < exits.len() implies has_jump(
                t.jumps,
                node,
                (#[trigger] exits[i]).0,
                exits[i].1,
            ) && has_system(systems, exits[i].0) by {
                assert(exits.contains(exits[i]));
            }
            lemma_relax_exits_progress(t, systems, popped(s), node, d, exits);
        }
        assert(run(t, n + 1) == step(t, s));
        lemma_comes_to_rest(t, systems, n + 1);
    } else {
        assert(done(t, n));
    }
}

/// The path from a system to itself is empty and costs nothing.
pub proof fn lemma_path_to_self(g: JumpView, allowed: Set<SystemId>, x: SystemId)
    ensures
        shortest_path(g, allowed, x, x) == Some(Seq::<Hop>::empty()),
        path_cost(allowed, Seq::<Hop>::empty()) == 0,
{
}

/// In a graph whose exits all lead to systems of a table in order, the
/// search finds a path exactly if one exists, and the path it finds is a
/// path of the graph that costs no more than any other.
pub proof fn lemma_shortest_path(
    g: JumpView,
    allowed: Set<SystemId>,
    systems: Seq<System>,
    from: SystemId,
    to: SystemId,
)
    requires
        ids_ascending(systems),
        exits_known(g, systems),
    ensures
        shortest_path(g, allowed, from, to) is Some <==> exists|hops: Seq<Hop>|
            is_path(g, from, to, hops),
        shortest_path(g, allowed, from, to) matches Some(found) ==> is_path(g, from, to, found)
            && forall|hops: Seq<Hop>|
            is_path(g, from, to, hops) ==> path_cost(allowed, found) <= path_cost(allowed, hops),
{
    let t = Task { jumps: g, allowed, start: from };
    lemma_comes_to_rest(t, systems, 0);
    let n = choose|n: nat| done(t, n);
    let end = run(t, n);
    lemma_run(t, systems, n);
    if reached(end, from, to) {
        lemma_trace(t, systems, end, to);
        assert forall|hops: Seq<Hop>| is_path(g, from, to, hops) implies path_cost(
            allowed,
            trace(end.best, from, to).unwrap(),
        ) <= path_cost(allowed, hops) by {
            lemma_no_cheaper_path(t, systems, end, to, hops);
        }
    } else {
        assert forall|hops: Seq<Hop>| !is_path(g, from, to, hops) by {
            if is_path(g, from, to, hops) {
                lemma_no_cheaper_path(t, systems, end, to, hops);
            }
        }
    }
}

} // verus!
