//! Kernel modules: reading `modules.dep` files and ordering modules so that
//! each comes after everything it depends on.
pub mod depfile;
pub mod graph_link;
pub mod laws;
pub mod resolve;
pub mod text;

use vstd::prelude::*;
use vstd::hash_map::StringHashMap;

use crate::config::error::Error;
use depfile::dep_view;
use resolve::{
    all_declared, fits_graph, has_dep_cycle, is_load_order, is_order_error, resolve_module_order,
    sorted_names,
};
use text::views;

verus! {

/// Which kernel modules to load.
#[derive(Clone, Debug, PartialEq, Eq)]
pub enum ModulesConfig {
    /// Load the modules `names`, from `dir` (the system default when absent),
    /// ordered by the dependency file `dep_file_path` when one is given.
    List { dir: Option<String>, names: Vec<String>, dep_file_path: Option<String> },
    /// Load the modules found in `dir` (only those of `names`, when given),
    /// with their dependencies declared in `dep_file_path`.
    Scan { dir: String, dep_file_path: String, names: Option<Vec<String>> },
}

/// The message for a configured module that the dependency file lacks.
pub open spec fn not_found_message(name: Seq<char>) -> Seq<char> {
    "Module not found in dep file: "@ + name
}

/// `r` is the outcome of checking that `m` declares each of `names`: `Ok`
/// when it does, else the error for the first name it lacks.
pub open spec fn is_check_result(
    m: Map<Seq<char>, Vec<String>>,
    names: Seq<Seq<char>>,
    r: Result<(), Error>,
) -> bool {
    &&& r is Ok <==> forall|k: int| 0 <= k < names.len() ==> m.contains_key(#[trigger] names[k])
    &&& r is Err ==> exists|k: int|
        0 <= k < names.len() && !m.contains_key(names[k]) && (forall|j: int|
            0 <= j < k ==> m.contains_key(#[trigger] names[j])) && (r matches Err(
            Error::InvalidConfig { message },
        ) && message@ == not_found_message(names[k]))
}

impl ModulesConfig {
    /// The names that the dependency file must declare, and that are put in
    /// load order: a list's names when it has a dependency file, a scan's
    /// name filter when it has one.
    pub open spec fn ordered_names(self) -> Option<Seq<Seq<char>>> {
        match self {
            ModulesConfig::List { names, dep_file_path, .. } => if dep_file_path is Some {
                Some(views(names@))
            } else {
                None
            },
            ModulesConfig::Scan { names, .. } => match names {
                Some(ns) => Some(views(ns@)),
                None => None,
            },
        }
    }

    /// `self` and `other` differ at most in their names.
    pub open spec fn same_but_names(self, other: Self) -> bool {
        match (self, other) {
            (
                ModulesConfig::List { dir: d1, dep_file_path: p1, .. },
                ModulesConfig::List { dir: d2, dep_file_path: p2, .. },
            ) => d1 == d2 && p1 == p2,
            (
                ModulesConfig::Scan { dir: d1, dep_file_path: p1, names: n1 },
                ModulesConfig::Scan { dir: d2, dep_file_path: p2, names: n2 },
            ) => d1 == d2 && p1 == p2 && (n1 is Some <==> n2 is Some),
            _ => false,
        }
    }

    /// The dependency file to read before validating or ordering, if any.
    pub fn dep_file_path(&self) -> (p: Option<String>)
        ensures
            p == match self {
                ModulesConfig::List { dep_file_path, .. } => *dep_file_path,
                ModulesConfig::Scan { dep_file_path, .. } => Some(*dep_file_path),
            },
    {
        match self {
            ModulesConfig::List { dep_file_path, .. } => dep_file_path.clone(),
            ModulesConfig::Scan { dep_file_path, .. } => Some(dep_file_path.clone()),
        }
    }

    /// Validation once the file of `dep_file_path()` has been read into
    /// `dep_map`: every name to be ordered must be declared there. The first
    /// name that is not is reported.
    pub fn validate_names(&self, dep_map: &StringHashMap<Vec<String>>) -> (r: Result<(), Error>)
        ensures
            match self.ordered_names() {
                None => r is Ok,
                Some(ns) => is_check_result(dep_map@, ns, r),
            },
    {
        match self {
            ModulesConfig::List { names, dep_file_path, .. } => {
                if dep_file_path.is_some() {
                    check_declared(names, dep_map)
                } else {
                    Ok(())
                }
            },
            ModulesConfig::Scan { names, .. } => match names {
                Some(ns) => check_declared(ns, dep_map),
                None => Ok(()),
            },
        }
    }

    /// Puts the names in load order, once the file of `dep_file_path()` has
    /// been read into `dep_map`; on failure nothing changes.
    pub fn resolve_dependencies_with(&mut self, dep_map: &StringHashMap<Vec<String>>) -> (r: Result<
        (),
        Error,
    >)
        requires
            dep_map@.dom().finite(),
            old(self).ordered_names() matches Some(ts) ==> fits_graph(dep_view(dep_map@), ts),
        ensures
            match old(self).ordered_names() {
                None => r is Ok && *final(self) == *old(self),
                Some(ts) => {
                    &&& r is Ok <==> all_declared(dep_view(dep_map@), ts) && !has_dep_cycle(
                        dep_view(dep_map@),
                        ts,
                    )
                    &&& match r {
                        Ok(()) => {
                            &&& final(self).same_but_names(*old(self))
                            &&& final(self).ordered_names() matches Some(o) && is_load_order(
                                dep_view(dep_map@),
                                ts,
                                o,
                            ) && o == sorted_names(dep_view(dep_map@), ts)
                        },
                        Err(Error::Validate { source }) => {
                            &&& *final(self) == *old(self)
                            &&& is_order_error(dep_view(dep_map@), ts, source)
                        },
                        Err(_) => false,
                    }
                },
            },
    {
        match self {
            ModulesConfig::List { names, dep_file_path, .. } => {
                if dep_file_path.is_some() {
                    match resolve_module_order(dep_map, names.as_slice()) {
                        Ok(sorted) => {
                            *names = sorted;
                            Ok(())
                        },
                        Err(e) => Err(Error::Validate { source: e }),
                    }
                } else {
                    Ok(())
                }
            },
            ModulesConfig::Scan { names, .. } => match names {
                Some(ns) => {
                    let targets = ns.clone();
                    match resolve_module_order(dep_map, targets.as_slice()) {
                        Ok(sorted) => {
                            *ns = sorted;
                            Ok(())
                        },
                        Err(e) => Err(Error::Validate { source: e }),
                    }
                },
                None => Ok(()),
            },
        }
    }
}

/// `Ok` when `dep_map` declares every name, else the error for the first
/// name it lacks.
fn check_declared(names: &Vec<String>, dep_map: &StringHashMap<Vec<String>>) -> (r: Result<
    (),
    Error,
>)
    ensures
        is_check_result(dep_map@, views(names@), r),
{
    let mut i: usize = 0;
    while i < names.len()
        invariant
            i <= names@.len(),
            forall|j: int| 0 <= j < i ==> dep_map@.contains_key(#[trigger] views(names@)[j]),
        decreases names@.len() - i,
    {
        if !dep_map.contains_key(names[i].as_str()) {
            let mut message = String::from_str("Module not found in dep file: ");
            message.append(names[i].as_str());
            proof {
                assert(views(names@)[i as int] == names@[i as int]@);
                assert(message@ == not_found_message(views(names@)[i as int]));
            }
            return Err(Error::InvalidConfig { message });
        }
        i += 1;
    }
    Ok(())
}

} // verus!
