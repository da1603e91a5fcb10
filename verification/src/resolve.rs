//! From what was read and what was asked to what is to be built.

use crate::edges::{has_key, index_of, Entry};
use crate::grammar::document;
use crate::graph::{clone_names, GraphModel, TargetGraph, TargetName};
use crate::plan::{plan_of, Plan};
use crate::scheduler::{Scheduler, SchedulerModel};
use vstd::prelude::*;

verus! {

/// A target that is the user's: its name does not begin with a dot, as the
/// names of the tool's own targets do, and it is not the build file.
pub open spec fn is_user_target(name: Seq<char>, makefile_path: Option<Seq<char>>) -> bool {
    !(name.len() > 0 && name[0] == '.') && makefile_path != Some(name)
}

/// The entries that are the user's.
pub open spec fn user_entries(makefile_path: Option<Seq<char>>) -> spec_fn(Entry) -> bool {
    |entry: Entry| is_user_target(entry.0, makefile_path)
}

/// The graph without the tool's own targets and without the build file.
pub open spec fn pruned(g: GraphModel, makefile_path: Option<Seq<char>>) -> GraphModel {
    GraphModel {
        edges: g.edges.filter(user_entries(makefile_path)),
        default_goal: g.default_goal,
    }
}

/// Whether the target is the user's.
pub fn keeps(name: &TargetName, makefile_path: &Option<String>) -> (r: bool)
    ensures
        r == is_user_target(name@, crate::command::path_view(*makefile_path)),
{
    if !name.as_str().is_empty() && name.as_str().get_char(0) == '.' {
        return false;
    }
    match makefile_path {
        Some(path) => !(*path == *name),
        None => true,
    }
}

/// Drops the tool's own targets and the build file from a graph read from
/// the rule database. What is left keeps its order and its default goal.
pub fn prune(graph: &TargetGraph, makefile_path: &Option<String>) -> (out: TargetGraph)
    ensures
        out@ == pruned(graph@, crate::command::path_view(*makefile_path)),
        out@.wf(),
{
    let ghost g = graph@;
    let ghost keep = user_entries(crate::command::path_view(*makefile_path));
    let n = graph.len();
    let mut out = TargetGraph::new();
    if let Some(goal) = graph.default_goal() {
        out.set_default_goal(goal);
    }
    let mut i: usize = 0;
    assert(g.edges.take(0).filter(keep) =~= Seq::<Entry>::empty()) by {
        reveal(Seq::filter);
    }
    while i < n
        invariant
            g == graph@,
            g.wf(),
            n == g.edges.len(),
            i <= n,
            out@.wf(),
            out@.default_goal == g.default_goal,
            out@.edges == g.edges.take(i as int).filter(keep),
            keep == user_entries(crate::command::path_view(*makefile_path)),
        decreases n - i,
    {
        let ghost seen = g.edges.take(i as int);
        proof {
            assert(g.edges.take(i + 1) =~= seen.push(g.edges[i as int]));
            seen.lemma_filter_push(g.edges[i as int], keep);
        }
        match graph.entry_at(i) {
            Some((name, deps)) => {
                if keeps(name, makefile_path) {
                    proof {
                        if has_key(out@.edges, name@) {
                            let j = index_of(out@.edges, name@);
                            assert(out@.edges[j].0 == name@);
                            assert(seen.filter(keep).contains(out@.edges[j]));
                            seen.lemma_filter_contains_rev(keep, out@.edges[j]);
                            let a = choose|a: int| 0 <= a < seen.len() && seen[a] == out@.edges[j];
                            assert(g.edges[a].0 != g.edges[i as int].0);
                        }
                        assert((name@, deps.deep_view()) == g.edges[i as int]);
                    }
                    out.insert(name.clone(), clone_names(deps));
                }
            },
            None => {},
        }
        i += 1;
    }
    assert(g.edges.take(n as int) =~= g.edges);
    out
}

/// Why a request cannot be met.
#[derive(Debug, PartialEq, Eq)]
pub enum ResolveError {
    /// Nothing was requested, and the graph has no target to fall back on.
    NoDefaultTarget,
    /// A requested target is not declared; this is the first such.
    UnknownTarget(TargetName),
}

/// Every one of the first `n` requested names is declared.
pub open spec fn all_known(g: GraphModel, requested: Seq<Seq<char>>, n: int) -> bool {
    forall|k: int| 0 <= k < n ==> g.contains(#[trigger] requested[k])
}

/// The targets to build for a request: the requested ones where each is
/// declared, the default target where none is requested.
pub fn resolve_targets(graph: &TargetGraph, requested: &Vec<String>) -> (r: Result<
    Vec<TargetName>,
    ResolveError,
>)
    ensures
        match r {
            Ok(targets) => if requested.len() == 0 {
                graph@.default_target() is Some && targets.deep_view()
                    == seq![graph@.default_target()->0]
            } else {
                all_known(graph@, requested.deep_view(), requested.len() as int)
                    && targets.deep_view() == requested.deep_view()
            },
            Err(ResolveError::NoDefaultTarget) => requested.len() == 0
                && graph@.default_target() is None,
            Err(ResolveError::UnknownTarget(name)) => exists|k: int|
                0 <= k < requested.len() && all_known(graph@, requested.deep_view(), k)
                    && !graph@.contains(#[trigger] requested.deep_view()[k]) && name@
                    == requested.deep_view()[k],
        },
{
    if requested.len() == 0 {
        return match graph.default_target() {
            Some(name) => {
                let mut targets: Vec<TargetName> = Vec::new();
                targets.push(name);
                assert(targets.deep_view() =~= seq![graph@.default_target()->0]);
                Ok(targets)
            },
            None => Err(ResolveError::NoDefaultTarget),
        };
    }
    let ghost wanted = requested.deep_view();
    let mut targets: Vec<TargetName> = Vec::new();
    let mut i: usize = 0;
    while i < requested.len()
        invariant
            i <= requested.len(),
            wanted == requested.deep_view(),
            all_known(graph@, wanted, i as int),
            targets.len() == i,
            forall|k: int| 0 <= k < i ==> targets[k]@ == requested[k]@,
        decreases requested.len() - i,
    {
        assert(wanted[i as int] == requested[i as int]@);
        if !graph.contains(requested[i].as_str()) {
            return Err(ResolveError::UnknownTarget(requested[i].clone()));
        }
        targets.push(requested[i].clone());
        i += 1;
    }
    assert(targets.deep_view() =~= wanted);
    Ok(targets)
}


/// The targets to build for a request, or `None` where the request cannot
/// be met: the default target where nothing is requested, the requested
/// targets where every one of them is declared.
pub open spec fn targets_of(g: GraphModel, requested: Seq<Seq<char>>) -> Option<Seq<Seq<char>>> {
    if requested.len() == 0 {
        match g.default_target() {
            Some(name) => Some(seq![name]),
            None => None,
        }
    } else if all_known(g, requested, requested.len() as int) {
        Some(requested)
    } else {
        None
    }
}

/// Makes ready the run that a request asks for: a scheduler over the plan
/// of the targets to build, with every task waiting. A request that cannot
/// be met gives no scheduler, so that nothing can be launched for it.
pub fn schedule(graph: &TargetGraph, requested: &Vec<String>) -> (r: Result<
    Scheduler,
    ResolveError,
>)
    ensures
        r is Ok <==> targets_of(graph@, requested.deep_view()) is Some,
        match r {
            Ok(scheduler) => scheduler@ == SchedulerModel::initial(scheduler@.plan)
                && scheduler@.wf() && scheduler@.plan.tasks == plan_of(
                graph@,
                targets_of(graph@, requested.deep_view())->0,
            ),
            Err(ResolveError::NoDefaultTarget) => requested.len() == 0,
            Err(ResolveError::UnknownTarget(name)) => exists|k: int|
                0 <= k < requested.len() && all_known(graph@, requested.deep_view(), k)
                    && !graph@.contains(#[trigger] requested.deep_view()[k]) && name@
                    == requested.deep_view()[k],
        },
{
    match resolve_targets(graph, requested) {
        Ok(targets) => Ok(Scheduler::new(Plan::new(graph, &targets))),
        Err(error) => {
            proof {
                if error is UnknownTarget {
                    let k = choose|k: int|
                        0 <= k < requested.len() && all_known(graph@, requested.deep_view(), k)
                            && !graph@.contains(#[trigger] requested.deep_view()[k])
                            && error->UnknownTarget_0@ == requested.deep_view()[k];
                    assert(!all_known(graph@, requested.deep_view(), requested.len() as int));
                }
            }
            Err(error)
        },
    }
}

/// Reads the rule database that `make` prints and keeps the user's
/// targets: the text is read as a build file, and the tool's own targets
/// and the build file itself are dropped.
pub fn read_database(text: &String, makefile_path: &Option<String>) -> (r: Result<
    TargetGraph,
    String,
>)
    ensures
        match r {
            Ok(graph) => document(text@) is Some && graph@ == pruned(
                document(text@)->0,
                crate::command::path_view(*makefile_path),
            ) && graph@.wf(),
            Err(message) => document(text@) is None && message@ == "Invalid Makefile"@,
        },
{
    match TargetGraph::try_from(text) {
        Ok(graph) => Ok(prune(&graph, makefile_path)),
        Err(message) => Err(message),
    }
}

} // verus!
