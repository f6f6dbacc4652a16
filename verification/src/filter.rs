//! Taking the jumps out of the graph that lead from an allowed system
//! into one that is not allowed.

use crate::jumps::{exits_known, jump_view_wf, sources_known, Exit, JumpMap, JumpView};
use crate::path::allowed_ids;
use crate::universe::{find_system_by_id, has_system, System, SystemId, Universe};
use crate::validity::SystemValidityChecker;
use vstd::prelude::*;

verus! {

/// The jump from `from` by `exit` may stay: it does not lead from an
/// allowed system into one that is not allowed.
pub open spec fn keeps(allowed: Set<SystemId>, from: SystemId, exit: Exit) -> bool {
    !(allowed.contains(from) && !allowed.contains(exit.0))
}

/// The exits of `from` that may stay, in their order.
pub open spec fn kept_exits(allowed: Set<SystemId>, from: SystemId, exits: Seq<Exit>) -> Seq<Exit>
    decreases exits.len(),
{
    if exits.len() == 0 {
        Seq::empty()
    } else if keeps(allowed, from, exits.last()) {
        kept_exits(allowed, from, exits.drop_last()).push(exits.last())
    } else {
        kept_exits(allowed, from, exits.drop_last())
    }
}

/// The graph in which the systems of `done` have only the exits that may
/// stay, and are left out if none stays.
pub open spec fn partly_filtered(
    m: JumpView,
    allowed: Set<SystemId>,
    done: Set<SystemId>,
) -> JumpView {
    Map::new(
        |k: SystemId|
            m.contains_key(k) && (done.contains(k) ==> kept_exits(allowed, k, m[k]).len() > 0),
        |k: SystemId|
            if done.contains(k) {
                kept_exits(allowed, k, m[k])
            } else {
                m[k]
            },
    )
}

/// The graph without the jumps that lead from an allowed system into one
/// that is not allowed, and without the systems that have no exit left.
pub open spec fn filtered(m: JumpView, allowed: Set<SystemId>) -> JumpView {
    Map::new(
        |k: SystemId| m.contains_key(k) && kept_exits(allowed, k, m[k]).len() > 0,
        |k: SystemId| kept_exits(allowed, k, m[k]),
    )
}

/// Every exit that stays may stay and was there before, and the exits that
/// stay are as many as before at most.
pub proof fn lemma_kept_exits(allowed: Set<SystemId>, from: SystemId, exits: Seq<Exit>)
    ensures
        kept_exits(allowed, from, exits).len() <= exits.len(),
        forall|i: int|
            0 <= i < kept_exits(allowed, from, exits).len() ==> keeps(
                allowed,
                from,
                #[trigger] kept_exits(allowed, from, exits)[i],
            ) && exits.contains(kept_exits(allowed, from, exits)[i]),
        forall|i: int|
            0 <= i < exits.len() && keeps(allowed, from, #[trigger] exits[i]) ==> kept_exits(
                allowed,
                from,
                exits,
            ).contains(exits[i]),
        exits.no_duplicates() ==> kept_exits(allowed, from, exits).no_duplicates(),
    decreases exits.len(),
{
    if exits.len() > 0 {
        let front = exits.drop_last();
        let kept_front = kept_exits(allowed, from, front);
        let kept = kept_exits(allowed, from, exits);
        lemma_kept_exits(allowed, from, front);
        assert forall|i: int| 0 <= i < kept.len() implies keeps(allowed, from, #[trigger] kept[i])
            && exits.contains(kept[i]) by {
            if i < kept_front.len() {
                assert(kept[i] == kept_front[i]);
                let j = choose|j: int| 0 <= j < front.len() && front[j] == kept_front[i];
                assert(exits[j] == kept[i]);
            } else {
                assert(exits[exits.len() - 1] == kept[i]);
            }
        }
        assert forall|i: int|
            0 <= i < exits.len() && keeps(allowed, from, #[trigger] exits[i]) implies kept.contains(
            exits[i],
        ) by {
            if i < front.len() {
                assert(front[i] == exits[i]);
                let j = choose|j: int| 0 <= j < kept_front.len() && kept_front[j] == front[i];
                assert(kept[j] == exits[i]);
            } else {
                assert(kept[kept.len() - 1] == exits[i]);
            }
        }
        if exits.no_duplicates() {
            assert forall|i: int, j: int|
                0 <= i < front.len() && 0 <= j < front.len() && i != j implies front[i]
                != front[j] by {
                assert(front[i] == exits[i] && front[j] == exits[j]);
            }
            assert forall|i: int, j: int|
                0 <= i < kept.len() && 0 <= j < kept.len() && i != j implies kept[i]
                != kept[j] by {
                if i < kept_front.len() && j < kept_front.len() {
                    assert(kept[i] == kept_front[i] && kept[j] == kept_front[j]);
                } else {
                    let low = if i < j {
                        i
                    } else {
                        j
                    };
                    assert(kept[low] == kept_front[low]);
                    let m = choose|m: int| 0 <= m < front.len() && front[m] == kept_front[low];
                    assert(exits[m] == kept_front[low]);
                    assert(exits[exits.len() - 1] == exits.last());
                }
            }
        }
    }
}

/// Exits that may all stay do stay.
pub proof fn lemma_kept_exits_fixed(allowed: Set<SystemId>, from: SystemId, exits: Seq<Exit>)
    requires
        forall|i: int| 0 <= i < exits.len() ==> keeps(allowed, from, #[trigger] exits[i]),
    ensures
        kept_exits(allowed, from, exits) == exits,
    decreases exits.len(),
{
    if exits.len() > 0 {
        let front = exits.drop_last();
        assert forall|i: int| 0 <= i < front.len() implies keeps(
            allowed,
            from,
            #[trigger] front[i],
        ) by {
            assert(front[i] == exits[i]);
        }
        lemma_kept_exits_fixed(allowed, from, front);
        assert(exits[exits.len() - 1] == exits.last());
        assert(front.push(exits.last()) =~= exits);
    } else {
        assert(exits =~= Seq::empty());
    }
}

/// After filtering, no jump leads from an allowed system into one that is
/// not allowed.
pub proof fn lemma_filtered_is_clean(m: JumpView, allowed: Set<SystemId>)
    ensures
        forall|from: SystemId, i: int|
            filtered(m, allowed).contains_key(from) && 0 <= i < filtered(m, allowed)[from].len()
                ==> !(allowed.contains(from) && !allowed.contains(
                (#[trigger] filtered(m, allowed)[from][i]).0,
            )),
{
    assert forall|from: SystemId, i: int|
        filtered(m, allowed).contains_key(from) && 0 <= i < filtered(m, allowed)[from].len()
        implies !(allowed.contains(from) && !allowed.contains(
        (#[trigger] filtered(m, allowed)[from][i]).0,
    )) by {
        lemma_kept_exits(allowed, from, m[from]);
    }
}

/// Filtering a filtered graph changes nothing.
pub proof fn lemma_filter_idempotent(m: JumpView, allowed: Set<SystemId>)
    ensures
        filtered(filtered(m, allowed), allowed) == filtered(m, allowed),
{
    let once = filtered(m, allowed);
    let twice = filtered(once, allowed);
    assert forall|k: SystemId| once.contains_key(k) implies kept_exits(allowed, k, once[k])
        == once[k] by {
        lemma_kept_exits(allowed, k, m[k]);
        lemma_kept_exits_fixed(allowed, k, once[k]);
    }
    assert(twice =~= once);
}

/// Filtering keeps a graph well formed and inside the table.
pub proof fn lemma_filtered_wf(m: JumpView, allowed: Set<SystemId>, systems: Seq<System>)
    ensures
        jump_view_wf(m) ==> jump_view_wf(filtered(m, allowed)),
        exits_known(m, systems) ==> exits_known(filtered(m, allowed), systems),
        sources_known(m, systems) ==> sources_known(filtered(m, allowed), systems),
{
    let f = filtered(m, allowed);
    if jump_view_wf(m) {
        assert forall|k: SystemId| #[trigger] f.contains_key(k) implies f[k].len() > 0
            && f[k].no_duplicates() by {
            assert(m.contains_key(k));
            lemma_kept_exits(allowed, k, m[k]);
        }
    }
    if exits_known(m, systems) {
        assert forall|k: SystemId, i: int|
            f.contains_key(k) && 0 <= i < f[k].len() implies has_system(
            systems,
            (#[trigger] f[k][i]).0,
        ) by {
            lemma_kept_exits(allowed, k, m[k]);
            let j = choose|j: int| 0 <= j < m[k].len() && m[k][j] == f[k][i];
            assert(has_system(systems, m[k][j].0));
        }
    }
    if sources_known(m, systems) {
        assert forall|k: SystemId| #[trigger] f.contains_key(k) implies has_system(systems, k) by {
            assert(m.contains_key(k));
        }
    }
}

/// The exits of `from` that may stay.
fn keep_exits(
    exits: &Vec<Exit>,
    from: SystemId,
    universe: &Universe,
    checker: &SystemValidityChecker,
) -> (kept: Vec<Exit>)
    requires
        universe.wf(),
        universe.knows(from),
        forall|i: int| 0 <= i < exits@.len() ==> universe.knows((#[trigger] exits@[i]).0),
    ensures
        kept@ == kept_exits(allowed_ids(checker, universe), from, exits@),
{
    let ghost allowed = allowed_ids(checker, universe);
    let from_valid = checker.is_system_valid(find_system_by_id(universe, from));
    let mut kept: Vec<Exit> = Vec::new();
    let mut i: usize = 0;
    while i < exits.len()
        invariant
            i <= exits.len(),
            universe.wf(),
            allowed == allowed_ids(checker, universe),
            from_valid == allowed.contains(from),
            forall|i: int| 0 <= i < exits@.len() ==> universe.knows((#[trigger] exits@[i]).0),
            kept@ == kept_exits(allowed, from, exits@.take(i as int)),
        decreases exits.len() - i,
    {
        let exit = exits[i];
        proof {
            assert(exits@.take(i + 1).drop_last() =~= exits@.take(i as int));
            assert(universe.knows(exits@[i as int].0));
        }
        let to_valid = checker.is_system_valid(find_system_by_id(universe, exit.0));
        let invalid_jump = from_valid && !to_valid;
        if !invalid_jump {
            kept.push(exit);
        }
        i = i + 1;
    }
    proof {
        assert(exits@.take(i as int) =~= exits@);
    }
    kept
}

/// Removes every jump that leads from a system that `checker` allows into
/// one that it does not allow, and every system that is left without an
/// exit. Jumps out of a system that is not allowed stay, so that a route
/// that starts there can leave.
pub fn filter_jumps(jumps: &mut JumpMap, universe: &Universe, checker: &SystemValidityChecker)
    requires
        universe.wf(),
        old(jumps).within(universe),
    ensures
        final(jumps)@ == filtered(old(jumps)@, allowed_ids(checker, universe)),
        forall|from: SystemId, i: int|
            final(jumps)@.contains_key(from) && 0 <= i < final(jumps)@[from].len() ==> !(
            checker.allows_id(universe, from) && !checker.allows_id(
                universe,
                (#[trigger] final(jumps)@[from][i]).0,
            )),
        final(jumps).within(universe),
        old(jumps).wf() ==> final(jumps).wf(),
{
    let ghost start = jumps@;
    let ghost allowed = allowed_ids(checker, universe);
    let ghost systems = universe.system_table();
    let keys = jumps.sources();
    let mut i: usize = 0;
    proof {
        assert(jumps@ =~= partly_filtered(start, allowed, keys@.take(0).to_set()));
    }
    while i < keys.len()
        invariant
            i <= keys.len(),
            universe.wf(),
            start == old(jumps)@,
            allowed == allowed_ids(checker, universe),
            systems == universe.system_table(),
            sources_known(start, systems),
            exits_known(start, systems),
            keys@.no_duplicates(),
            forall|k: SystemId| keys@.contains(k) <==> start.contains_key(k),
            jumps@ == partly_filtered(start, allowed, keys@.take(i as int).to_set()),
        decreases keys.len() - i,
    {
        let key = keys[i];
        let ghost done = keys@.take(i as int).to_set();
        proof {
            assert(keys@.contains(key));
            assert(!done.contains(key)) by {
                let prev = keys@.take(i as int);
                if prev.contains(key) {
                    let j = choose|j: int| 0 <= j < prev.len() && prev[j] == key;
                    assert(keys@[j] == keys@[i as int]);
                }
            }
            let prev = keys@.take(i as int);
            let next = keys@.take(i + 1);
            assert(next.to_set() =~= done.insert(key)) by {
                assert forall|k: SystemId| next.to_set().contains(k) <==> done.insert(key).contains(
                    k,
                ) by {
                    if next.contains(k) {
                        let j = choose|j: int| 0 <= j < next.len() && next[j] == k;
                        if j < i {
                            assert(prev[j] == k);
                        }
                    }
                    if prev.contains(k) {
                        let j = choose|j: int| 0 <= j < prev.len() && prev[j] == k;
                        assert(next[j] == k);
                    }
                    if k == key {
                        assert(next[i as int] == k);
                    }
                }
            }
        }
        let kept = match jumps.exits(key) {
            Some(exits) => {
                proof {
                    assert forall|j: int| 0 <= j < exits@.len() implies universe.knows(
                        (#[trigger] exits@[j]).0,
                    ) by {
                        assert(start[key][j] == exits@[j]);
                    }
                }
                keep_exits(exits, key, universe, checker)
            },
            None => Vec::new(),
        };
        jumps.set_exits(key, kept);
        proof {
            assert(jumps@ =~= partly_filtered(start, allowed, done.insert(key)));
        }
        i = i + 1;
    }
    proof {
        assert(keys@.take(i as int) =~= keys@);
        assert(jumps@ =~= filtered(start, allowed));
        lemma_filtered_wf(start, allowed, systems);
        lemma_filtered_is_clean(start, allowed);
    }
}

} // verus!
