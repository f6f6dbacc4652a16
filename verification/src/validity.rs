//! The policy: which systems a route may enter.

use crate::error::{ErrorView, RouteError};
use crate::names::{find_region_by_name, find_system_by_name, resolve_region, resolve_system};
use crate::security::{classify, SystemSecurity};
use crate::universe::{System, SystemId, Universe};
use vstd::prelude::*;

verus! {

/// Decides which systems a route may enter: built once from the policy, then
/// asked for every system that a search meets.
#[derive(Debug)]
pub struct SystemValidityChecker {
    pub invalid_securities: Vec<SystemSecurity>,
    pub invalid_regions: Vec<i64>,
    pub valid_ns_regions: Vec<i64>,
    pub invalid_systems: Vec<SystemId>,
}

/// What the user asks of a route: the security classes to stay out of, and
/// by name the regions and systems to stay out of and the null-security
/// regions that alone may be entered.
#[derive(Debug, Default)]
pub struct PolicyOptions {
    pub no_highsec: bool,
    pub no_lowsec: bool,
    pub no_nullsec: bool,
    pub no_jspace: bool,
    pub no_special: bool,
    pub region_blacklist: Vec<String>,
    pub ns_region_whitelist: Vec<String>,
    pub system_blacklist: Vec<String>,
}

/// The mathematical content of a [`SystemValidityChecker`].
pub struct CheckerView {
    pub invalid_securities: Seq<SystemSecurity>,
    pub invalid_regions: Seq<i64>,
    pub valid_ns_regions: Seq<i64>,
    pub invalid_systems: Seq<SystemId>,
}

impl View for SystemValidityChecker {
    type V = CheckerView;

    open spec fn view(&self) -> CheckerView {
        CheckerView {
            invalid_securities: self.invalid_securities@,
            invalid_regions: self.invalid_regions@,
            valid_ns_regions: self.valid_ns_regions@,
            invalid_systems: self.invalid_systems@,
        }
    }
}

/// `list`, followed by `class` if `wanted`.
pub open spec fn with_class(list: Seq<SystemSecurity>, wanted: bool, class: SystemSecurity) -> Seq<
    SystemSecurity,
> {
    if wanted {
        list.push(class)
    } else {
        list
    }
}

/// The classes that the options forbid, in the order high, low, null,
/// wormhole space, special.
pub open spec fn forbidden_classes(options: &PolicyOptions) -> Seq<SystemSecurity> {
    with_class(
        with_class(
            with_class(
                with_class(
                    with_class(Seq::empty(), options.no_highsec, SystemSecurity::Highsec),
                    options.no_lowsec,
                    SystemSecurity::Lowsec,
                ),
                options.no_nullsec,
                SystemSecurity::Nullsec,
            ),
            options.no_jspace,
            SystemSecurity::Jspace,
        ),
        options.no_special,
        SystemSecurity::Special,
    )
}

/// What one name resolves to, as the name of a region or of a system.
pub open spec fn resolve_name(universe: &Universe, regions: bool, query: Seq<char>) -> Result<
    i64,
    ErrorView,
> {
    if regions {
        resolve_region(universe, query)
    } else {
        resolve_system(universe, query)
    }
}

/// What a list of names resolves to: the identifiers in the order of the
/// names, or the error of the first name that does not resolve.
pub open spec fn resolve_names(universe: &Universe, regions: bool, names: Seq<String>) -> Result<
    Seq<i64>,
    ErrorView,
>
    decreases names.len(),
{
    if names.len() == 0 {
        Ok(Seq::empty())
    } else {
        match resolve_names(universe, regions, names.drop_last()) {
            Err(e) => Err(e),
            Ok(ids) => match resolve_name(universe, regions, names.last()@) {
                Err(e) => Err(e),
                Ok(id) => Ok(ids.push(id)),
            },
        }
    }
}

/// The checker that the options describe: the region blacklist is resolved
/// first, then the system blacklist, then the whitelist, and the first
/// name that does not resolve decides the error.
pub open spec fn checker_for(universe: &Universe, options: &PolicyOptions) -> Result<
    CheckerView,
    ErrorView,
> {
    match resolve_names(universe, true, options.region_blacklist@) {
        Err(e) => Err(e),
        Ok(invalid_regions) => match resolve_names(universe, false, options.system_blacklist@) {
            Err(e) => Err(e),
            Ok(invalid_systems) => match resolve_names(
                universe,
                true,
                options.ns_region_whitelist@,
            ) {
                Err(e) => Err(e),
                Ok(valid_ns_regions) => Ok(
                    CheckerView {
                        invalid_securities: forbidden_classes(options),
                        invalid_regions,
                        valid_ns_regions,
                        invalid_systems,
                    },
                ),
            },
        },
    }
}

/// The mathematical content of a list of identifiers that may have failed
/// to resolve.
pub open spec fn ids_view(outcome: Result<Vec<i64>, RouteError>) -> Result<Seq<i64>, ErrorView> {
    match outcome {
        Ok(ids) => Ok(ids@),
        Err(e) => Err(e@),
    }
}

/// The mathematical content of a checker that may have failed to be built.
pub open spec fn checker_view(outcome: Result<SystemValidityChecker, RouteError>) -> Result<
    CheckerView,
    ErrorView,
> {
    match outcome {
        Ok(checker) => Ok(checker@),
        Err(e) => Err(e@),
    }
}

/// Resolves each name of a list, as region names or as system names,
/// stopping at the first that does not resolve.
pub fn resolve_list(universe: &Universe, names: &Vec<String>, regions: bool) -> (outcome: Result<
    Vec<i64>,
    RouteError,
>)
    requires
        universe.wf(),
    ensures
        ids_view(outcome) == resolve_names(universe, regions, names@),
{
    let mut ids: Vec<i64> = Vec::new();
    let mut i: usize = 0;
    while i < names.len()
        invariant
            i <= names.len(),
            universe.wf(),
            resolve_names(universe, regions, names@.take(i as int)) == Ok::<Seq<i64>, ErrorView>(
                ids@,
            ),
        decreases names.len() - i,
    {
        proof {
            assert(names@.take(i + 1).drop_last() =~= names@.take(i as int));
        }
        let found = if regions {
            find_region_by_name(universe, names[i].as_str())
        } else {
            find_system_by_name(universe, names[i].as_str())
        };
        match found {
            Ok(id) => {
                ids.push(id);
            },
            Err(e) => {
                proof {
                    lemma_resolve_names_error(universe, regions, names@, i as int);
                }
                return Err(e);
            },
        }
        i = i + 1;
    }
    proof {
        assert(names@.take(i as int) =~= names@);
    }
    Ok(ids)
}

/// If the names before position `i` resolve and the name at `i` does not,
/// the whole list fails with the error of that name.
pub proof fn lemma_resolve_names_error(
    universe: &Universe,
    regions: bool,
    names: Seq<String>,
    i: int,
)
    requires
        0 <= i < names.len(),
        resolve_names(universe, regions, names.take(i)) is Ok,
        resolve_name(universe, regions, names[i]@) is Err,
    ensures
        resolve_names(universe, regions, names) == Err::<Seq<i64>, ErrorView>(
            resolve_name(universe, regions, names[i]@)->Err_0,
        ),
    decreases names.len(),
{
    if i == names.len() - 1 {
        assert(names.drop_last() =~= names.take(i));
    } else {
        assert(names.drop_last().take(i) =~= names.take(i));
        lemma_resolve_names_error(universe, regions, names.drop_last(), i);
    }
}

/// Whether `x` occurs in `list`.
pub fn contains_id(list: &Vec<i64>, x: i64) -> (found: bool)
    ensures
        found == list@.contains(x),
{
    let mut i: usize = 0;
    while i < list.len()
        invariant
            i <= list.len(),
            forall|k: int| 0 <= k < i ==> list@[k] != x,
        decreases list.len() - i,
    {
        if list[i] == x {
            return true;
        }
        i = i + 1;
    }
    false
}

/// Whether `class` occurs in `list`.
pub fn contains_class(list: &Vec<SystemSecurity>, class: SystemSecurity) -> (found: bool)
    ensures
        found == list@.contains(class),
{
    let mut i: usize = 0;
    while i < list.len()
        invariant
            i <= list.len(),
            forall|k: int| 0 <= k < i ==> list@[k] != class,
        decreases list.len() - i,
    {
        if list[i] == class {
            return true;
        }
        i = i + 1;
    }
    false
}

impl SystemValidityChecker {
    /// Builds the checker that the options describe, resolving the names of
    /// regions and systems against `universe`.
    pub fn new(universe: &Universe, options: &PolicyOptions) -> (made: Result<
        SystemValidityChecker,
        RouteError,
    >)
        requires
            universe.wf(),
        ensures
            checker_view(made) == checker_for(universe, options),
    {
        let mut invalid_securities: Vec<SystemSecurity> = Vec::new();
        if options.no_highsec {
            invalid_securities.push(SystemSecurity::Highsec);
        }
        if options.no_lowsec {
            invalid_securities.push(SystemSecurity::Lowsec);
        }
        if options.no_nullsec {
            invalid_securities.push(SystemSecurity::Nullsec);
        }
        if options.no_jspace {
            invalid_securities.push(SystemSecurity::Jspace);
        }
        if options.no_special {
            invalid_securities.push(SystemSecurity::Special);
        }
        let invalid_regions = match resolve_list(universe, &options.region_blacklist, true) {
            Ok(ids) => ids,
            Err(e) => {
                return Err(e);
            },
        };
        let invalid_systems = match resolve_list(universe, &options.system_blacklist, false) {
            Ok(ids) => ids,
            Err(e) => {
                return Err(e);
            },
        };
        let valid_ns_regions = match resolve_list(universe, &options.ns_region_whitelist, true) {
            Ok(ids) => ids,
            Err(e) => {
                return Err(e);
            },
        };
        Ok(
            SystemValidityChecker {
                invalid_securities,
                invalid_regions,
                valid_ns_regions,
                invalid_systems,
            },
        )
    }

    /// A system of class `class` with the given identifier and region is
    /// allowed: its class, its identifier and its region are not forbidden,
    /// and if it is null security and a whitelist of null-security regions
    /// exists, its region is on that list.
    pub open spec fn allows_place(
        &self,
        class: SystemSecurity,
        id: SystemId,
        region_id: i64,
    ) -> bool {
        &&& !self.invalid_securities@.contains(class)
        &&& !self.invalid_systems@.contains(id)
        &&& !self.invalid_regions@.contains(region_id)
        &&& (class == SystemSecurity::Nullsec && self.valid_ns_regions@.len() > 0
            ==> self.valid_ns_regions@.contains(region_id))
    }

    /// The system is allowed. Meaningful for systems that have a class.
    pub open spec fn allows(&self, sys: System) -> bool {
        self.allows_place(sys.class().unwrap(), sys.id, sys.region_id)
    }

    /// The system with this identifier is allowed.
    pub open spec fn allows_id(&self, universe: &Universe, id: SystemId) -> bool {
        self.allows(universe.system_of(id))
    }

    /// Whether a route may enter `sys`.
    pub fn is_system_valid(&self, sys: &System) -> (valid: bool)
        requires
            sys.class() is Some,
        ensures
            valid == self.allows(*sys),
    {
        let class = classify(sys.security, sys.region_id, sys.id).unwrap();
        if contains_class(&self.invalid_securities, class) {
            return false;
        }
        if contains_id(&self.invalid_systems, sys.id) {
            return false;
        }
        if contains_id(&self.invalid_regions, sys.region_id) {
            return false;
        }
        if class == SystemSecurity::Nullsec && self.valid_ns_regions.len() > 0 && !contains_id(
            &self.valid_ns_regions,
            sys.region_id,
        ) {
            return false;
        }
        true
    }
}

} // verus!
