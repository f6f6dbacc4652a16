//! Resolving the names of systems and regions: exactly first, then by
//! loose match.

use crate::error::{ErrorView, RouteError};
use crate::text::{
    chars_of, contains_chars, is_infix, lemma_lex_less_irreflexive, lemma_lex_less_total,
    lemma_lex_less_transitive, lex_less, lowercase, lowercase_of, text_less,
};
use crate::universe::{
    has_system, lemma_name_index, name_index_of, names_ascending, Region, System, SystemId,
    Universe,
};
use vstd::prelude::*;

verus! {

/// A name with the identifier it stands for.
pub type Entry = (Seq<char>, i64);

/// The names and identifiers of the systems, in table order.
pub open spec fn system_entries(systems: Seq<System>) -> Seq<Entry> {
    Seq::new(systems.len(), |i: int| (systems[i].name@, systems[i].id))
}

/// The names and identifiers of the regions, in table order.
pub open spec fn region_entries(regions: Seq<Region>) -> Seq<Entry> {
    Seq::new(regions.len(), |i: int| (regions[i].name@, regions[i].id))
}

/// The name matches the query loosely: the lower-case query occurs in the
/// lower-case name.
pub open spec fn matches_loosely(name: Seq<char>, query: Seq<char>) -> bool {
    is_infix(lowercase_of(query), lowercase_of(name))
}

/// The identifiers of the entries whose names match the query loosely, in
/// the order of the entries.
pub open spec fn loose_hits(entries: Seq<Entry>, query: Seq<char>) -> Seq<i64>
    decreases entries.len(),
{
    if entries.len() == 0 {
        Seq::empty()
    } else if matches_loosely(entries.last().0, query) {
        loose_hits(entries.drop_last(), query).push(entries.last().1)
    } else {
        loose_hits(entries.drop_last(), query)
    }
}

/// What a query resolves to, given the exact match if there is one: the
/// exact match wins; without one a single loose hit wins, none is an
/// error, and so are several.
pub open spec fn resolve(exact: Option<i64>, entries: Seq<Entry>, query: Seq<char>) -> Result<
    i64,
    ErrorView,
> {
    match exact {
        Some(id) => Ok(id),
        None => {
            let hits = loose_hits(entries, query);
            if hits.len() == 0 {
                Err(ErrorView::NotFound { query })
            } else if hits.len() == 1 {
                Ok(hits[0])
            } else {
                Err(ErrorView::Ambiguous { query, count: hits.len() })
            }
        },
    }
}

/// The identifier that the index of system names gives for the query.
pub open spec fn exact_system(universe: &Universe, query: Seq<char>) -> Option<SystemId> {
    if universe.name_index().contains_key(query) {
        Some(universe.name_index()[query])
    } else {
        None
    }
}

/// The identifier of the region whose name is the query.
pub open spec fn exact_region(regions: Seq<Region>, query: Seq<char>) -> Option<i64> {
    if exists|i: int| 0 <= i < regions.len() && (#[trigger] regions[i]).name@ == query {
        Some(
            regions[choose|i: int| 0 <= i < regions.len() && (#[trigger] regions[i]).name@
                == query].id,
        )
    } else {
        None
    }
}

/// What a system name resolves to.
pub open spec fn resolve_system(universe: &Universe, query: Seq<char>) -> Result<
    SystemId,
    ErrorView,
> {
    resolve(exact_system(universe, query), system_entries(universe.system_table()), query)
}

/// What a region name resolves to.
pub open spec fn resolve_region(universe: &Universe, query: Seq<char>) -> Result<i64, ErrorView> {
    resolve(
        exact_region(universe.region_table(), query),
        region_entries(universe.region_table()),
        query,
    )
}

/// The mathematical content of the outcome of a resolution.
pub open spec fn id_view(outcome: Result<i64, RouteError>) -> Result<i64, ErrorView> {
    match outcome {
        Ok(id) => Ok(id),
        Err(e) => Err(e@),
    }
}

/// Whether `name` matches loosely the query whose lower-case form is
/// `needle`.
fn name_matches(name: &str, needle: &Vec<char>, Ghost(query): Ghost<Seq<char>>) -> (hit: bool)
    requires
        needle@ == lowercase_of(query),
    ensures
        hit == matches_loosely(name@, query),
{
    let lower = lowercase(name);
    let hay = chars_of(lower.as_str());
    contains_chars(&hay, needle)
}

/// What the loose hits among some entries decide.
fn decide(query: &str, count: usize, first: i64, Ghost(entries): Ghost<Seq<Entry>>) -> (outcome:
    Result<i64, RouteError>)
    requires
        count == loose_hits(entries, query@).len(),
        count > 0 ==> first == loose_hits(entries, query@)[0],
    ensures
        id_view(outcome) == resolve(None, entries, query@),
{
    if count == 0 {
        Err(RouteError::NotFound { query: String::from_str(query) })
    } else if count == 1 {
        Ok(first)
    } else {
        Err(RouteError::Ambiguous { query: String::from_str(query), count })
    }
}

/// Resolves the name of a system: a system with exactly this name wins;
/// otherwise the name must match exactly one system loosely.
pub fn find_system_by_name(universe: &Universe, name: &str) -> (outcome: Result<
    SystemId,
    RouteError,
>)
    requires
        universe.wf(),
    ensures
        id_view(outcome) == resolve_system(universe, name@),
        outcome matches Ok(id) ==> universe.knows(id),
{
    if let Some(id) = universe.lookup_name(name) {
        proof {
            lemma_name_index(universe.system_table(), name@);
        }
        return Ok(id);
    }
    let lower = lowercase(name);
    let needle = chars_of(lower.as_str());
    let systems = universe.systems();
    let ghost entries = system_entries(systems@);
    let mut count: usize = 0;
    let mut first: i64 = 0;
    let mut i: usize = 0;
    while i < systems.len()
        invariant
            i <= systems.len(),
            needle@ == lowercase_of(name@),
            entries == system_entries(systems@),
            count == loose_hits(entries.take(i as int), name@).len(),
            count <= i,
            count > 0 ==> first == loose_hits(entries.take(i as int), name@)[0],
            count > 0 ==> has_system(systems@, first),
        decreases systems.len() - i,
    {
        proof {
            assert(entries.take(i + 1).drop_last() =~= entries.take(i as int));
        }
        if name_matches(systems[i].name.as_str(), &needle, Ghost(name@)) {
            if count == 0 {
                first = systems[i].id;
            }
            count = count + 1;
        }
        i = i + 1;
    }
    proof {
        assert(entries.take(i as int) =~= entries);
    }
    decide(name, count, first, Ghost(entries))
}

/// Binary search for the region with exactly this name.
fn search_region(regions: &Vec<Region>, name: &str) -> (found: Option<i64>)
    requires
        names_ascending(regions@),
    ensures
        found == exact_region(regions@, name@),
{
    let mut lo: usize = 0;
    let mut hi: usize = regions.len();
    while lo < hi
        invariant
            lo <= hi <= regions.len(),
            names_ascending(regions@),
            forall|i: int| 0 <= i < lo ==> lex_less((#[trigger] regions@[i]).name@, name@),
            forall|i: int|
                hi <= i < regions@.len() ==> !lex_less((#[trigger] regions@[i]).name@, name@),
        decreases hi - lo,
    {
        let mid: usize = lo + (hi - lo) / 2;
        if text_less(regions[mid].name.as_str(), name) {
            proof {
                assert forall|i: int| 0 <= i < mid + 1 implies lex_less(
                    (#[trigger] regions@[i]).name@,
                    name@,
                ) by {
                    if i < mid {
                        assert(lex_less(regions@[i].name@, regions@[mid as int].name@));
                        lemma_lex_less_transitive(
                            regions@[i].name@,
                            regions@[mid as int].name@,
                            name@,
                        );
                    }
                }
            }
            lo = mid + 1;
        } else {
            proof {
                assert forall|i: int| mid <= i < regions@.len() implies !lex_less(
                    (#[trigger] regions@[i]).name@,
                    name@,
                ) by {
                    if mid < i && lex_less(regions@[i].name@, name@) {
                        assert(lex_less(regions@[mid as int].name@, regions@[i].name@));
                        lemma_lex_less_transitive(
                            regions@[mid as int].name@,
                            regions@[i].name@,
                            name@,
                        );
                    }
                }
            }
            hi = mid;
        }
    }
    if lo < regions.len() && !text_less(name, regions[lo].name.as_str()) {
        proof {
            lemma_lex_less_total(name@, regions@[lo as int].name@);
            assert(regions@[lo as int].name@ == name@);
            let j = choose|i: int|
                0 <= i < regions@.len() && (#[trigger] regions@[i]).name@ == name@;
            if j < lo {
                lemma_lex_less_irreflexive(name@);
            } else if j > lo {
                assert(lex_less(regions@[lo as int].name@, regions@[j].name@));
                lemma_lex_less_irreflexive(name@);
            }
        }
        Some(regions[lo].id)
    } else {
        proof {
            assert forall|i: int| 0 <= i < regions@.len() implies (#[trigger] regions@[i]).name@
                != name@ by {
                lemma_lex_less_irreflexive(name@);
                if i > lo {
                    assert(lex_less(regions@[lo as int].name@, regions@[i].name@));
                    lemma_lex_less_transitive(name@, regions@[lo as int].name@, regions@[i].name@);
                }
            }
        }
        None
    }
}

/// Resolves the name of a region: a region with exactly this name wins;
/// otherwise the name must match exactly one region loosely.
pub fn find_region_by_name(universe: &Universe, name: &str) -> (outcome: Result<i64, RouteError>)
    requires
        universe.wf(),
    ensures
        id_view(outcome) == resolve_region(universe, name@),
{
    let regions = universe.regions();
    if let Some(id) = search_region(regions, name) {
        return Ok(id);
    }
    let lower = lowercase(name);
    let needle = chars_of(lower.as_str());
    let ghost entries = region_entries(regions@);
    let mut count: usize = 0;
    let mut first: i64 = 0;
    let mut i: usize = 0;
    while i < regions.len()
        invariant
            i <= regions.len(),
            needle@ == lowercase_of(name@),
            entries == region_entries(regions@),
            count == loose_hits(entries.take(i as int), name@).len(),
            count <= i,
            count > 0 ==> first == loose_hits(entries.take(i as int), name@)[0],
        decreases regions.len() - i,
    {
        proof {
            assert(entries.take(i + 1).drop_last() =~= entries.take(i as int));
        }
        if name_matches(regions[i].name.as_str(), &needle, Ghost(name@)) {
            if count == 0 {
                first = regions[i].id;
            }
            count = count + 1;
        }
        i = i + 1;
    }
    proof {
        assert(entries.take(i as int) =~= entries);
    }
    decide(name, count, first, Ghost(entries))
}

/// The loose hits are the identifiers of the entries that match, one for
/// each: none if no entry matches, one if exactly one does, and at least
/// two if two different entries do.
pub proof fn lemma_loose_hits(entries: Seq<Entry>, query: Seq<char>)
    ensures
        loose_hits(entries, query).len() <= entries.len(),
        (forall|i: int|
            0 <= i < entries.len() ==> !matches_loosely((#[trigger] entries[i]).0, query))
            ==> loose_hits(entries, query).len() == 0,
        forall|i: int|
            0 <= i < entries.len() && matches_loosely((#[trigger] entries[i]).0, query) && (forall|
                j: int,
            |
                0 <= j < entries.len() && j != i ==> !matches_loosely(
                    (#[trigger] entries[j]).0,
                    query,
                )) ==> loose_hits(entries, query) == seq![entries[i].1],
        forall|i: int, j: int|
            0 <= i < j < entries.len() && matches_loosely((#[trigger] entries[i]).0, query)
                && matches_loosely((#[trigger] entries[j]).0, query) ==> loose_hits(
                entries,
                query,
            ).len() >= 2,
        forall|i: int|
            0 <= i < entries.len() && matches_loosely((#[trigger] entries[i]).0, query)
                ==> loose_hits(entries, query).len() >= 1,
    decreases entries.len(),
{
    if entries.len() > 0 {
        let front = entries.drop_last();
        let n = entries.len() - 1;
        lemma_loose_hits(front, query);
        assert(forall|i: int| 0 <= i < front.len() ==> front[i] == entries[i]);
        assert(entries[n] == entries.last());
        assert forall|i: int|
            0 <= i < entries.len() && matches_loosely((#[trigger] entries[i]).0, query) && (forall|
                j: int,
            |
                0 <= j < entries.len() && j != i ==> !matches_loosely(
                    (#[trigger] entries[j]).0,
                    query,
                )) implies loose_hits(entries, query) == seq![entries[i].1] by {
            if i < n {
                assert(!matches_loosely(entries[n].0, query));
                assert(matches_loosely(front[i].0, query));
                assert forall|j: int| 0 <= j < front.len() && j != i implies !matches_loosely(
                    (#[trigger] front[j]).0,
                    query,
                ) by {
                    assert(front[j] == entries[j]);
                }
            } else {
                assert forall|j: int| 0 <= j < front.len() implies !matches_loosely(
                    (#[trigger] front[j]).0,
                    query,
                ) by {
                    assert(front[j] == entries[j]);
                }
                assert(loose_hits(entries, query) =~= seq![entries[i].1]);
            }
        }
        assert forall|i: int, j: int|
            0 <= i < j < entries.len() && matches_loosely((#[trigger] entries[i]).0, query)
                && matches_loosely((#[trigger] entries[j]).0, query) implies loose_hits(
            entries,
            query,
        ).len() >= 2 by {
            assert(matches_loosely(front[i].0, query));
            if j < n {
                assert(matches_loosely(front[j].0, query));
            }
        }
        assert forall|i: int|
            0 <= i < entries.len() && matches_loosely(
                (#[trigger] entries[i]).0,
                query,
            ) implies loose_hits(entries, query).len() >= 1 by {
            if i < n {
                assert(matches_loosely(front[i].0, query));
            }
        }
        if forall|i: int|
            0 <= i < entries.len() ==> !matches_loosely((#[trigger] entries[i]).0, query) {
            assert forall|i: int| 0 <= i < front.len() implies !matches_loosely(
                (#[trigger] front[i]).0,
                query,
            ) by {
                assert(front[i] == entries[i]);
            }
        }
    }
}

/// A query that is the name of a system resolves to a system of that
/// name; if only one system has the name, to that system.
pub proof fn lemma_exact_system_resolves(universe: &Universe, i: int)
    requires
        universe.wf(),
        0 <= i < universe.system_table().len(),
    ensures
        resolve_system(universe, universe.system_table()[i].name@) is Ok,
        exists|j: int|
            0 <= j < universe.system_table().len() && (#[trigger] universe.system_table()[j]).name@
                == universe.system_table()[i].name@ && resolve_system(
                universe,
                universe.system_table()[i].name@,
            ) == Ok::<i64, ErrorView>(universe.system_table()[j].id),
        (forall|j: int|
            0 <= j < universe.system_table().len() && j != i ==> (
            #[trigger] universe.system_table()[j]).name@ != universe.system_table()[i].name@)
            ==> resolve_system(universe, universe.system_table()[i].name@) == Ok::<i64, ErrorView>(
            universe.system_table()[i].id,
        ),
{
    let systems = universe.system_table();
    let name = systems[i].name@;
    lemma_name_index(systems, name);
    assert(systems[i].name@ == name);
    let j = choose|j: int|
        0 <= j < systems.len() && (#[trigger] systems[j]).name@ == name && systems[j].id
            == name_index_of(systems)[name];
    assert(universe.system_table()[j].name@ == name);
}

/// A query that is the name of a region resolves to that region.
pub proof fn lemma_exact_region_resolves(universe: &Universe, i: int)
    requires
        universe.wf(),
        0 <= i < universe.region_table().len(),
    ensures
        resolve_region(universe, universe.region_table()[i].name@) == Ok::<i64, ErrorView>(
            universe.region_table()[i].id,
        ),
{
    let regions = universe.region_table();
    let name = regions[i].name@;
    assert(regions[i].name@ == name);
    let j = choose|j: int| 0 <= j < regions.len() && (#[trigger] regions[j]).name@ == name;
    lemma_lex_less_irreflexive(name);
    if j < i {
        assert(lex_less(regions[j].name@, regions[i].name@));
    } else if i < j {
        assert(lex_less(regions[i].name@, regions[j].name@));
    }
}

/// A query that is no name of a system resolves by its loose matches:
/// to the one system that matches if there is exactly one, to `NotFound`
/// with the query if there is none, and to `Ambiguous` with the query and
/// the number of matches if there are several.
pub proof fn lemma_loose_system_resolves(universe: &Universe, query: Seq<char>)
    requires
        universe.wf(),
        forall|i: int|
            0 <= i < universe.system_table().len() ==> (#[trigger] universe.system_table()[i]).name@
                != query,
    ensures
        resolve_system(universe, query) == resolve(
            None,
            system_entries(universe.system_table()),
            query,
        ),
        loose_hits(system_entries(universe.system_table()), query).len() == 0 ==> resolve_system(
            universe,
            query,
        ) == Err::<i64, ErrorView>(ErrorView::NotFound { query }),
        loose_hits(system_entries(universe.system_table()), query).len() >= 2 ==> resolve_system(
            universe,
            query,
        ) == Err::<i64, ErrorView>(
            ErrorView::Ambiguous {
                query,
                count: loose_hits(system_entries(universe.system_table()), query).len(),
            },
        ),
        forall|i: int|
            0 <= i < universe.system_table().len() && matches_loosely(
                (#[trigger] universe.system_table()[i]).name@,
                query,
            ) && (forall|j: int|
                0 <= j < universe.system_table().len() && j != i ==> !matches_loosely(
                    (#[trigger] universe.system_table()[j]).name@,
                    query,
                )) ==> resolve_system(universe, query) == Ok::<i64, ErrorView>(
                universe.system_table()[i].id,
            ),
{
    let systems = universe.system_table();
    let entries = system_entries(systems);
    lemma_name_index(systems, query);
    lemma_loose_hits(entries, query);
    assert forall|i: int|
        0 <= i < systems.len() && matches_loosely((#[trigger] systems[i]).name@, query) && (forall|
            j: int,
        |
            0 <= j < systems.len() && j != i ==> !matches_loosely(
                (#[trigger] systems[j]).name@,
                query,
            )) implies resolve_system(universe, query) == Ok::<i64, ErrorView>(systems[i].id) by {
        assert(matches_loosely(entries[i].0, query));
        assert forall|j: int| 0 <= j < entries.len() && j != i implies !matches_loosely(
            (#[trigger] entries[j]).0,
            query,
        ) by {
            assert(!matches_loosely(systems[j].name@, query));
        }
        assert(loose_hits(entries, query) == seq![entries[i].1]);
    }
}

/// A query that is no name of a region resolves by its loose matches: to
/// the one region that matches if there is exactly one, to `NotFound` with
/// the query if there is none, and to `Ambiguous` with the query and the
/// number of matches if there are several.
pub proof fn lemma_loose_region_resolves(universe: &Universe, query: Seq<char>)
    requires
        forall|i: int|
            0 <= i < universe.region_table().len() ==> (#[trigger] universe.region_table()[i]).name@
                != query,
    ensures
        resolve_region(universe, query) == resolve(
            None,
            region_entries(universe.region_table()),
            query,
        ),
        loose_hits(region_entries(universe.region_table()), query).len() == 0 ==> resolve_region(
            universe,
            query,
        ) == Err::<i64, ErrorView>(ErrorView::NotFound { query }),
        loose_hits(region_entries(universe.region_table()), query).len() >= 2 ==> resolve_region(
            universe,
            query,
        ) == Err::<i64, ErrorView>(
            ErrorView::Ambiguous {
                query,
                count: loose_hits(region_entries(universe.region_table()), query).len(),
            },
        ),
        forall|i: int|
            0 <= i < universe.region_table().len() && matches_loosely(
                (#[trigger] universe.region_table()[i]).name@,
                query,
            ) && (forall|j: int|
                0 <= j < universe.region_table().len() && j != i ==> !matches_loosely(
                    (#[trigger] universe.region_table()[j]).name@,
                    query,
                )) ==> resolve_region(universe, query) == Ok::<i64, ErrorView>(
                universe.region_table()[i].id,
            ),
{
    let regions = universe.region_table();
    let entries = region_entries(regions);
    lemma_loose_hits(entries, query);
    assert forall|i: int|
        0 <= i < regions.len() && matches_loosely((#[trigger] regions[i]).name@, query) && (forall|
            j: int,
        |
            0 <= j < regions.len() && j != i ==> !matches_loosely(
                (#[trigger] regions[j]).name@,
                query,
            )) implies resolve_region(universe, query) == Ok::<i64, ErrorView>(regions[i].id) by {
        assert(matches_loosely(entries[i].0, query));
        assert forall|j: int| 0 <= j < entries.len() && j != i implies !matches_loosely(
            (#[trigger] entries[j]).0,
            query,
        ) by {
            assert(!matches_loosely(regions[j].name@, query));
        }
        assert(loose_hits(entries, query) == seq![entries[i].1]);
    }
}

} // verus!
