//! The jump graph: for each system the jumps that lead out of it.

use crate::universe::{has_system, System, SystemId, Universe};
use std::collections::HashMap;
use vstd::prelude::*;
use vstd::std_specs::iter::IteratorSpec;

verus! {

broadcast use vstd::std_specs::hash::group_hash_axioms;

/// The kind of link that a jump uses.
#[derive(Clone, Copy, Debug, Hash, PartialEq, Eq, PartialOrd, Ord, Structural)]
pub enum Jump {
    Wormhole,
    Gate,
    Ansiblex,
}

/// A jump out of a system: where it leads and by which kind of link.
pub type Exit = (SystemId, Jump);

/// The jumps out of each system, as a mathematical map from the system to
/// its exits in the order they were added.
pub type JumpView = Map<SystemId, Seq<Exit>>;

/// The map `m` with the jump `from -> exit` added: nothing changes if the
/// jump is already there, else it becomes the last exit of `from`.
pub open spec fn with_jump(m: JumpView, from: SystemId, exit: Exit) -> JumpView {
    if !m.contains_key(from) {
        m.insert(from, seq![exit])
    } else if m[from].contains(exit) {
        m
    } else {
        m.insert(from, m[from].push(exit))
    }
}

/// Every system of the map has at least one exit and no exit twice.
pub open spec fn jump_view_wf(m: JumpView) -> bool {
    forall|k: SystemId| #[trigger] m.contains_key(k) ==> m[k].len() > 0 && m[k].no_duplicates()
}

/// Every exit in the map leads to a system of the table.
pub open spec fn exits_known(m: JumpView, systems: Seq<System>) -> bool {
    forall|k: SystemId, i: int|
        m.contains_key(k) && 0 <= i < m[k].len() ==> has_system(systems, (#[trigger] m[k][i]).0)
}

/// Every system that has exits in the map is a system of the table.
pub open spec fn sources_known(m: JumpView, systems: Seq<System>) -> bool {
    forall|k: SystemId| #[trigger] m.contains_key(k) ==> has_system(systems, k)
}

/// The map has the jump from `from` to `to` by `via`.
pub open spec fn has_jump(m: JumpView, from: SystemId, to: SystemId, via: Jump) -> bool {
    m.contains_key(from) && m[from].contains((to, via))
}

/// Every link of the map that is not a gate is there in both directions.
pub open spec fn links_reciprocal(m: JumpView) -> bool {
    forall|a: SystemId, b: SystemId, via: Jump|
        via != Jump::Gate && #[trigger] has_jump(m, a, b, via) ==> has_jump(m, b, a, via)
}

/// As a set of jumps, the map with a jump added holds that jump and those
/// that were there before, and no others.
pub proof fn lemma_with_jump_adds(m: JumpView, from: SystemId, exit: Exit)
    ensures
        forall|a: SystemId, b: SystemId, via: Jump| #[trigger]
            has_jump(with_jump(m, from, exit), a, b, via) <==> has_jump(m, a, b, via) || (a == from
                && b == exit.0 && via == exit.1),
{
    let n = with_jump(m, from, exit);
    assert forall|a: SystemId, b: SystemId, via: Jump| #[trigger]
        has_jump(n, a, b, via) <==> has_jump(m, a, b, via) || (a == from && b == exit.0 && via
            == exit.1) by {
        let e: Exit = (b, via);
        if a == from {
            if !m.contains_key(from) {
                assert(n[from] =~= seq![exit]);
                assert(n[from][0] == exit);
                if n[from].contains(e) {
                    let i = choose|i: int| 0 <= i < n[from].len() && n[from][i] == e;
                    assert(e == exit);
                }
            } else if !m[from].contains(exit) {
                let old_exits = m[from];
                let new_exits = old_exits.push(exit);
                assert(new_exits[old_exits.len() as int] == exit);
                if old_exits.contains(e) {
                    let i = choose|i: int| 0 <= i < old_exits.len() && old_exits[i] == e;
                    assert(new_exits[i] == e);
                }
                if new_exits.contains(e) {
                    let i = choose|i: int| 0 <= i < new_exits.len() && new_exits[i] == e;
                    if i < old_exits.len() {
                        assert(old_exits[i] == e);
                    }
                }
            }
        }
    }
}

/// Adding a jump keeps the map well formed.
pub proof fn lemma_with_jump_wf(m: JumpView, from: SystemId, exit: Exit)
    requires
        jump_view_wf(m),
    ensures
        jump_view_wf(with_jump(m, from, exit)),
{
    let n = with_jump(m, from, exit);
    assert forall|k: SystemId| #[trigger] n.contains_key(k) implies n[k].len() > 0
        && n[k].no_duplicates() by {
        if k == from {
            if !m.contains_key(from) {
                assert(n[k] =~= seq![exit]);
            } else if !m[from].contains(exit) {
                let s = m[from].push(exit);
                assert forall|i: int, j: int|
                    0 <= i < s.len() && 0 <= j < s.len() && i != j implies s[i] != s[j] by {
                    if i == s.len() - 1 {
                        assert(m[from][j] == s[j]);
                    } else if j == s.len() - 1 {
                        assert(m[from][i] == s[i]);
                    }
                }
            }
        } else {
            assert(m.contains_key(k));
        }
    }
}

/// Adding a jump between systems of the table keeps the map inside the table.
pub proof fn lemma_with_jump_known(
    m: JumpView,
    from: SystemId,
    exit: Exit,
    systems: Seq<System>,
)
    requires
        exits_known(m, systems),
        has_system(systems, exit.0),
    ensures
        exits_known(with_jump(m, from, exit), systems),
        sources_known(m, systems) && has_system(systems, from) ==> sources_known(
            with_jump(m, from, exit),
            systems,
        ),
{
    let n = with_jump(m, from, exit);
    assert forall|k: SystemId, i: int| n.contains_key(k) && 0 <= i < n[k].len() implies has_system(
        systems,
        (#[trigger] n[k][i]).0,
    ) by {
        if k == from && m.contains_key(from) && !m[from].contains(exit) {
            if i < m[from].len() {
                assert(n[k][i] == m[k][i]);
            }
        } else if k == from && !m.contains_key(from) {
        } else {
            assert(n[k][i] == m[k][i]);
        }
    }
    if sources_known(m, systems) && has_system(systems, from) {
        assert forall|k: SystemId| #[trigger] n.contains_key(k) implies has_system(systems, k) by {
            if k != from {
                assert(m.contains_key(k));
            }
        }
    }
}

/// The jump graph: for each system the exits that lead out of it.
pub struct JumpMap {
    map: HashMap<SystemId, Vec<Exit>>,
}

impl View for JumpMap {
    type V = JumpView;

    closed spec fn view(&self) -> JumpView {
        Map::new(|k: SystemId| self.map@.contains_key(k), |k: SystemId| self.map@[k]@)
    }
}

/// Whether `exit` occurs in `exits`.
pub fn has_exit(exits: &Vec<Exit>, exit: Exit) -> (found: bool)
    ensures
        found == exits@.contains(exit),
{
    let mut i: usize = 0;
    while i < exits.len()
        invariant
            i <= exits.len(),
            forall|k: int| 0 <= k < i ==> exits@[k] != exit,
        decreases exits.len() - i,
    {
        if exits[i].0 == exit.0 && exits[i].1 == exit.1 {
            return true;
        }
        i = i + 1;
    }
    false
}

impl JumpMap {
    /// The invariant of a jump graph.
    pub open spec fn wf(&self) -> bool {
        jump_view_wf(self@)
    }

    /// Every exit leads to a system that `universe` knows.
    pub open spec fn exits_within(&self, universe: &Universe) -> bool {
        exits_known(self@, universe.system_table())
    }

    /// Every system with exits is one that `universe` knows, and so is
    /// every system that an exit leads to.
    pub open spec fn within(&self, universe: &Universe) -> bool {
        sources_known(self@, universe.system_table()) && exits_known(self@, universe.system_table())
    }

    /// A graph without jumps.
    pub fn new() -> (jumps: JumpMap)
        ensures
            jumps@ == Map::<SystemId, Seq<Exit>>::empty(),
            jumps.wf(),
    {
        let jumps = JumpMap { map: HashMap::new() };
        assert(jumps@ =~= Map::<SystemId, Seq<Exit>>::empty());
        jumps
    }

    /// The exits of `from`, if it has any.
    pub fn exits(&self, from: SystemId) -> (exits: Option<&Vec<Exit>>)
        ensures
            match exits {
                Some(list) => self@.contains_key(from) && list@ == self@[from],
                None => !self@.contains_key(from),
            },
    {
        self.map.get(&from)
    }

    /// The systems that have exits, each once, in no particular order.
    pub fn sources(&self) -> (keys: Vec<SystemId>)
        ensures
            keys@.no_duplicates(),
            forall|k: SystemId| keys@.contains(k) <==> self@.contains_key(k),
    {
        let mut keys: Vec<SystemId> = Vec::new();
        let iter = self.map.keys();
        let ghost all = iter.remaining().unref();
        proof {
            assert(all.to_set() == self.map@.dom());
            assert forall|i: int, j: int|
                0 <= i < all.len() && 0 <= j < all.len() && i != j implies all[i] != all[j] by {
                assert(iter.remaining()[i] != iter.remaining()[j]);
            }
        }
        for key in it: iter
            invariant
                it.seq().unref() == all,
                keys@ == all.take(it.index() as int),
        {
            keys.push(*key);
            proof {
                assert(keys@ =~= all.take(it.index() + 1));
            }
        }
        proof {
            assert(keys@ =~= all);
            assert forall|k: SystemId| keys@.contains(k) <==> self@.contains_key(k) by {
                assert(all.to_set().contains(k) <==> all.contains(k));
            }
        }
        keys
    }

    /// Adds the jump from `from` to `to` by `via`, unless it is there already.
    pub fn add_jump(&mut self, from: SystemId, to: SystemId, via: Jump)
        requires
            old(self).wf(),
        ensures
            final(self)@ == with_jump(old(self)@, from, (to, via)),
            final(self).wf(),
    {
        let ghost before = self@;
        let mut list: Vec<Exit> = match self.map.remove(&from) {
            Some(list) => list,
            None => Vec::new(),
        };
        if !has_exit(&list, (to, via)) {
            list.push((to, via));
        }
        self.map.insert(from, list);
        proof {
            assert(self@ =~= with_jump(before, from, (to, via)));
            lemma_with_jump_wf(before, from, (to, via));
        }
    }

    /// Gives `from` the exits `exits`, or takes `from` out of the graph if
    /// there are none. The graph stays well formed if no exit is given twice.
    pub fn set_exits(&mut self, from: SystemId, exits: Vec<Exit>)
        ensures
            final(self)@ == if exits@.len() > 0 {
                old(self)@.insert(from, exits@)
            } else {
                old(self)@.remove(from)
            },
            old(self).wf() && exits@.no_duplicates() ==> final(self).wf(),
    {
        let ghost before = self@;
        if exits.len() > 0 {
            self.map.insert(from, exits);
            assert(self@ =~= before.insert(from, exits@));
        } else {
            self.map.remove(&from);
            assert(self@ =~= before.remove(from));
        }
    }
}

} // verus!
