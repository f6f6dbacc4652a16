//! The static star map: systems, regions, and the lookups that rely on
//! their order.

use crate::error::{ErrorView, RouteError};
use crate::security::{classify, security_class_of, Security, SystemSecurity};
use crate::text::{lemma_lex_less_transitive, lex_less, text_less};
use vstd::hash_map::StringHashMap;
use vstd::prelude::*;

verus! {

/// The identifier of a system.
pub type SystemId = i64;

/// One solar system of the static table.
#[derive(Debug)]
pub struct System {
    pub id: SystemId,
    pub name: String,
    pub security: Security,
    pub constellation_id: i64,
    pub constellation: String,
    pub region_id: i64,
    pub region: String,
    /// The systems that a gate of this system leads to.
    pub jumps: Vec<SystemId>,
}

/// One region of the static table.
#[derive(Debug)]
pub struct Region {
    pub name: String,
    pub id: i64,
}

impl System {
    /// The security class of this system, if it has one.
    pub open spec fn class(&self) -> Option<SystemSecurity> {
        security_class_of(self.security, self.region_id, self.id)
    }

    /// Classifies the system, or reports that its security value fits no
    /// class.
    pub fn get_security_class(&self) -> (class: Result<SystemSecurity, RouteError>)
        ensures
            match class {
                Ok(c) => self.class() == Some(c),
                Err(e) => self.class() is None && e@ == (ErrorView::DataIntegrityFault {
                    system: self.id as int,
                }),
            },
    {
        match classify(self.security, self.region_id, self.id) {
            Some(c) => Ok(c),
            None => Err(RouteError::DataIntegrityFault { system: self.id }),
        }
    }
}

/// The identifiers grow strictly from each system to the next.
pub open spec fn ids_ascending(systems: Seq<System>) -> bool {
    forall|i: int, j: int| 0 <= i < j < systems.len() ==> systems[i].id < systems[j].id
}

/// The names grow strictly, in lexicographic order, from each region to the
/// next.
pub open spec fn names_ascending(regions: Seq<Region>) -> bool {
    forall|i: int, j: int|
        0 <= i < j < regions.len() ==> lex_less(
            (#[trigger] regions[i]).name@,
            (#[trigger] regions[j]).name@,
        )
}

/// Some system of the table has this identifier.
pub open spec fn has_system(systems: Seq<System>, id: SystemId) -> bool {
    exists|i: int| 0 <= i < systems.len() && (#[trigger] systems[i]).id == id
}

/// The systems before position `n` all have a security class.
pub open spec fn classified_up_to(systems: Seq<System>, n: int) -> bool {
    forall|i: int| 0 <= i < n ==> (#[trigger] systems[i]).class() is Some
}

/// The gates of the system at position `i`, up to its `k`-th, lead to
/// systems of the table.
pub open spec fn gates_known_in(systems: Seq<System>, i: int, k: int) -> bool {
    forall|m: int| 0 <= m < k ==> has_system(systems, #[trigger] systems[i].jumps@[m])
}

/// The gates of the systems before position `n` lead to systems of the table.
pub open spec fn gates_known_up_to(systems: Seq<System>, n: int) -> bool {
    forall|i: int|
        0 <= i < n ==> gates_known_in(systems, i, (#[trigger] systems[i]).jumps@.len() as int)
}

/// What every lookup relies on: both tables are in order, every system has a
/// security class, and every gate leads to a system of the table.
pub open spec fn table_ok(systems: Seq<System>, regions: Seq<Region>) -> bool {
    &&& ids_ascending(systems)
    &&& names_ascending(regions)
    &&& classified_up_to(systems, systems.len() as int)
    &&& gates_known_up_to(systems, systems.len() as int)
}

/// The map from each system name to the identifier of the last system that
/// carries it.
pub open spec fn name_index_of(systems: Seq<System>) -> Map<Seq<char>, SystemId>
    decreases systems.len(),
{
    if systems.len() == 0 {
        Map::empty()
    } else {
        name_index_of(systems.drop_last()).insert(systems.last().name@, systems.last().id)
    }
}

/// A name is in the index exactly if a system carries it, and the index then
/// gives the identifier of a system with that name.
pub proof fn lemma_name_index(systems: Seq<System>, name: Seq<char>)
    ensures
        name_index_of(systems).contains_key(name) <==> exists|i: int|
            0 <= i < systems.len() && (#[trigger] systems[i]).name@ == name,
        name_index_of(systems).contains_key(name) ==> exists|i: int|
            0 <= i < systems.len() && (#[trigger] systems[i]).name@ == name && systems[i].id
                == name_index_of(systems)[name],
    decreases systems.len(),
{
    if systems.len() > 0 {
        let front = systems.drop_last();
        lemma_name_index(front, name);
        if systems.last().name@ == name {
            assert(systems[systems.len() - 1].name@ == name);
        } else if name_index_of(front).contains_key(name) {
            let i = choose|i: int|
                0 <= i < front.len() && (#[trigger] front[i]).name@ == name && front[i].id
                    == name_index_of(front)[name];
            assert(systems[i].name@ == name);
        } else {
            assert forall|i: int| 0 <= i < systems.len() implies (#[trigger] systems[i]).name@
                != name by {
                if i < front.len() {
                    assert(front[i].name@ != name);
                }
            }
        }
    }
}

/// Builds the index from system names to identifiers.
pub fn init_systems_by_name(systems: &Vec<System>) -> (index: StringHashMap<SystemId>)
    ensures
        index@ == name_index_of(systems@),
{
    let mut index: StringHashMap<SystemId> = StringHashMap::new();
    let mut i: usize = 0;
    while i < systems.len()
        invariant
            i <= systems.len(),
            index@ == name_index_of(systems@.take(i as int)),
        decreases systems.len() - i,
    {
        let sys = &systems[i];
        index.insert(sys.name.clone(), sys.id);
        proof {
            assert(systems@.take(i + 1).drop_last() =~= systems@.take(i as int));
        }
        i = i + 1;
    }
    proof {
        assert(systems@.take(i as int) =~= systems@);
    }
    index
}

/// The static star map: systems by ascending identifier, regions by
/// ascending name, and the index from system names to identifiers.
pub struct Universe {
    systems: Vec<System>,
    regions: Vec<Region>,
    by_name: StringHashMap<SystemId>,
}

impl Universe {
    /// The systems, in table order.
    pub closed spec fn system_table(&self) -> Seq<System> {
        self.systems@
    }

    /// The regions, in table order.
    pub closed spec fn region_table(&self) -> Seq<Region> {
        self.regions@
    }

    /// The index from system names to identifiers.
    pub closed spec fn name_index(&self) -> Map<Seq<char>, SystemId> {
        self.by_name@
    }

    /// The invariant of a star map.
    pub open spec fn wf(&self) -> bool {
        &&& table_ok(self.system_table(), self.region_table())
        &&& self.name_index() == name_index_of(self.system_table())
    }

    /// Whether the table holds a system with this identifier.
    pub open spec fn knows(&self, id: SystemId) -> bool {
        has_system(self.system_table(), id)
    }

    /// The position in the table of the system with this identifier.
    pub open spec fn position_of(&self, id: SystemId) -> int {
        choose|i: int|
            0 <= i < self.system_table().len() && (#[trigger] self.system_table()[i]).id == id
    }

    /// The system with this identifier.
    pub open spec fn system_of(&self, id: SystemId) -> System {
        self.system_table()[self.position_of(id)]
    }

    /// In a table in order, a system is found at one position only.
    pub proof fn lemma_position_unique(&self, id: SystemId, i: int)
        requires
            ids_ascending(self.system_table()),
            0 <= i < self.system_table().len(),
            self.system_table()[i].id == id,
        ensures
            self.knows(id),
            self.position_of(id) == i,
    {
        let j = self.position_of(id);
        if j < i {
            assert(self.system_table()[j].id < self.system_table()[i].id);
        } else if i < j {
            assert(self.system_table()[i].id < self.system_table()[j].id);
        }
    }

    /// Takes over the two tables after checking that they are in order, that
    /// every system has a security class and that every gate leads to a
    /// system of the table.
    pub fn new(systems: Vec<System>, regions: Vec<Region>) -> (made: Result<Universe, RouteError>)
        ensures
            made is Ok <==> table_ok(systems@, regions@),
            match made {
                Ok(u) => u.wf() && u.system_table() == systems@ && u.region_table() == regions@,
                Err(e) => match e@ {
                    ErrorView::UnsortedTable => !ids_ascending(systems@) || !names_ascending(
                        regions@,
                    ),
                    ErrorView::DataIntegrityFault { system } => {
                        &&& ids_ascending(systems@)
                        &&& names_ascending(regions@)
                        &&& exists|i: int|
                            0 <= i < systems@.len() && classified_up_to(systems@, i) && (
                            #[trigger] systems@[i]).class() is None && systems@[i].id == system
                    },
                    ErrorView::UnknownGate { system, target } => {
                        &&& ids_ascending(systems@)
                        &&& names_ascending(regions@)
                        &&& classified_up_to(systems@, systems@.len() as int)
                        &&& exists|i: int, k: int|
                            0 <= i < systems@.len() && 0 <= k < systems@[i].jumps@.len()
                                && gates_known_up_to(systems@, i) && gates_known_in(systems@, i, k)
                                && !has_system(systems@, #[trigger] systems@[i].jumps@[k])
                                && systems@[i].id == system && systems@[i].jumps@[k] == target
                    },
                    _ => false,
                },
            },
    {
        if !systems_in_order(&systems) || !regions_in_order(&regions) {
            return Err(RouteError::UnsortedTable);
        }
        let mut i: usize = 0;
        while i < systems.len()
            invariant
                i <= systems.len(),
                ids_ascending(systems@),
                names_ascending(regions@),
                classified_up_to(systems@, i as int),
            decreases systems.len() - i,
        {
            let sys = &systems[i];
            if classify(sys.security, sys.region_id, sys.id).is_none() {
                return Err(RouteError::DataIntegrityFault { system: sys.id });
            }
            i = i + 1;
        }
        let mut i: usize = 0;
        while i < systems.len()
            invariant
                i <= systems.len(),
                ids_ascending(systems@),
                names_ascending(regions@),
                classified_up_to(systems@, systems@.len() as int),
                gates_known_up_to(systems@, i as int),
            decreases systems.len() - i,
        {
            let sys = &systems[i];
            let mut k: usize = 0;
            while k < sys.jumps.len()
                invariant
                    i < systems.len(),
                    *sys == systems@[i as int],
                    k <= sys.jumps.len(),
                    ids_ascending(systems@),
                    names_ascending(regions@),
                    classified_up_to(systems@, systems@.len() as int),
                    gates_known_up_to(systems@, i as int),
                    gates_known_in(systems@, i as int, k as int),
                decreases sys.jumps.len() - k,
            {
                let target = sys.jumps[k];
                if search_by_id(&systems, target).is_none() {
                    return Err(RouteError::UnknownGate { system: sys.id, target });
                }
                k = k + 1;
            }
            i = i + 1;
        }
        let by_name = init_systems_by_name(&systems);
        Ok(Universe { systems, regions, by_name })
    }

    /// The systems, in table order.
    pub fn systems(&self) -> (systems: &Vec<System>)
        ensures
            systems@ == self.system_table(),
    {
        &self.systems
    }

    /// The regions, in table order.
    pub fn regions(&self) -> (regions: &Vec<Region>)
        ensures
            regions@ == self.region_table(),
    {
        &self.regions
    }

    /// The identifier that the name index gives for `name`.
    pub fn lookup_name(&self, name: &str) -> (id: Option<SystemId>)
        ensures
            id == if self.name_index().contains_key(name@) {
                Some(self.name_index()[name@])
            } else {
                None
            },
    {
        match self.by_name.get(name) {
            Some(id) => Some(*id),
            None => None,
        }
    }

    /// The position in the table of the system with this identifier, if the
    /// table has it.
    pub fn position(&self, id: SystemId) -> (found: Option<usize>)
        requires
            self.wf(),
        ensures
            found is Some <==> self.knows(id),
            found matches Some(i) ==> i < self.system_table().len()
                && self.system_table()[i as int].id == id && self.position_of(id) == i,
    {
        let found = search_by_id(&self.systems, id);
        proof {
            if let Some(i) = found {
                self.lemma_position_unique(id, i as int);
            }
        }
        found
    }
}

/// Whether the identifiers grow strictly from each system to the next.
fn systems_in_order(systems: &Vec<System>) -> (ok: bool)
    ensures
        ok == ids_ascending(systems@),
{
    if systems.len() < 2 {
        return true;
    }
    let mut i: usize = 1;
    while i < systems.len()
        invariant
            1 <= i <= systems.len(),
            ids_ascending(systems@.take(i as int)),
        decreases systems.len() - i,
    {
        if systems[i - 1].id >= systems[i].id {
            return false;
        }
        proof {
            let now = systems@.take(i + 1);
            let before = systems@.take(i as int);
            assert forall|a: int, b: int| 0 <= a < b < now.len() implies now[a].id < now[b].id by {
                if b < i {
                    assert(before[a].id < before[b].id);
                } else if a < i - 1 {
                    assert(before[a].id < before[i - 1].id);
                }
            }
        }
        i = i + 1;
    }
    proof {
        assert(systems@.take(i as int) =~= systems@);
    }
    true
}

/// Whether the names grow strictly from each region to the next.
fn regions_in_order(regions: &Vec<Region>) -> (ok: bool)
    ensures
        ok == names_ascending(regions@),
{
    if regions.len() < 2 {
        return true;
    }
    let mut i: usize = 1;
    while i < regions.len()
        invariant
            1 <= i <= regions.len(),
            names_ascending(regions@.take(i as int)),
        decreases regions.len() - i,
    {
        if !text_less(regions[i - 1].name.as_str(), regions[i].name.as_str()) {
            return false;
        }
        proof {
            let now = regions@.take(i + 1);
            let before = regions@.take(i as int);
            assert forall|a: int, b: int| 0 <= a < b < now.len() implies lex_less(
                (#[trigger] now[a]).name@,
                (#[trigger] now[b]).name@,
            ) by {
                if b < i {
                    assert(lex_less(before[a].name@, before[b].name@));
                } else if a < i - 1 {
                    assert(lex_less(before[a].name@, before[i - 1].name@));
                    lemma_lex_less_transitive(now[a].name@, now[i - 1].name@, now[b].name@);
                }
            }
        }
        i = i + 1;
    }
    proof {
        assert(regions@.take(i as int) =~= regions@);
    }
    true
}

/// Binary search for an identifier in systems that are in order.
fn search_by_id(systems: &Vec<System>, id: SystemId) -> (found: Option<usize>)
    requires
        ids_ascending(systems@),
    ensures
        found is Some <==> has_system(systems@, id),
        found matches Some(i) ==> i < systems@.len() && systems@[i as int].id == id,
{
    let mut lo: usize = 0;
    let mut hi: usize = systems.len();
    while lo < hi
        invariant
            lo <= hi <= systems.len(),
            ids_ascending(systems@),
            forall|i: int| 0 <= i < lo ==> (#[trigger] systems@[i]).id < id,
            forall|i: int| hi <= i < systems@.len() ==> (#[trigger] systems@[i]).id > id,
        decreases hi - lo,
    {
        let mid: usize = lo + (hi - lo) / 2;
        let here = systems[mid].id;
        if here == id {
            return Some(mid);
        } else if here < id {
            assert forall|i: int| 0 <= i < mid + 1 implies (#[trigger] systems@[i]).id < id by {
                if i < mid {
                    assert(systems@[i].id < systems@[mid as int].id);
                }
            }
            lo = mid + 1;
        } else {
            assert forall|i: int| mid <= i < systems@.len() implies (#[trigger] systems@[i]).id
                > id by {
                if mid < i {
                    assert(systems@[mid as int].id < systems@[i].id);
                }
            }
            hi = mid;
        }
    }
    None
}

/// The system with the given identifier.
pub fn find_system_by_id(universe: &Universe, id: SystemId) -> (sys: &System)
    requires
        universe.wf(),
        universe.knows(id),
    ensures
        *sys == universe.system_of(id),
        sys.id == id,
{
    let place = universe.position(id).unwrap();
    &universe.systems()[place]
}

/// The name of the system with the given identifier.
pub fn get_system_name(universe: &Universe, id: SystemId) -> (name: &str)
    requires
        universe.wf(),
        universe.knows(id),
    ensures
        name@ == universe.system_of(id).name@,
{
    find_system_by_id(universe, id).name.as_str()
}

} // verus!
