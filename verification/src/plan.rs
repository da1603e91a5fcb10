//! Planning: which tasks a request needs.
//!
//! The walk starts from the requested targets and follows dependencies,
//! depth first and in declared order. A target is registered the first time
//! it is met, before its dependencies are looked at, so a target that is
//! reachable along several paths gets one task. Targets that the request
//! does not reach get none.

use crate::edges::{
    edge_entries, edges_index_of, edges_insert, edges_new, has_key, index_of, put, Entry,
};
use crate::graph::{clone_names, GraphModel, TargetGraph, TargetName};
use vstd::prelude::*;

verus! {

/// What a [`Task`] stands for.
pub struct TaskModel {
    /// The target that the task builds.
    pub name: Seq<char>,
    /// Its dependencies, in declared order.
    pub deps: Seq<Seq<char>>,
    /// How deep in the walk the target was first met; 0 for a requested one.
    pub depth: nat,
}

/// A target waiting to be visited, with the depth it would get.
pub type Visit = (Seq<char>, nat);

/// Some task of `table` builds `name`.
pub open spec fn listed(table: Seq<TaskModel>, name: Seq<char>) -> bool {
    exists|i: int| 0 <= i < table.len() && (#[trigger] table[i]).name == name
}

/// The place of the task that builds `name`; meaningful where [`listed`] holds.
pub open spec fn task_of(table: Seq<TaskModel>, name: Seq<char>) -> int {
    choose|i: int| 0 <= i < table.len() && (#[trigger] table[i]).name == name
}

/// The visits that `names` ask for, all at one depth.
pub open spec fn visits(names: Seq<Seq<char>>, depth: nat) -> Seq<Visit> {
    Seq::new(names.len(), |k: int| (names[k], depth))
}

/// The work that the declared targets without a task may still cause: one
/// visit each, and one for each of their dependencies.
pub open spec fn weight(edges: Seq<Entry>, table: Seq<TaskModel>) -> nat
    decreases edges.len(),
{
    if edges.len() == 0 {
        0
    } else {
        weight(edges.drop_last(), table) + if listed(table, edges.last().0) {
            0nat
        } else {
            1 + edges.last().1.len()
        }
    }
}

/// Registering a task for `name` takes the work that `name` could cause out
/// of the weight, and adds none.
pub proof fn lemma_weight_register(edges: Seq<Entry>, table: Seq<TaskModel>, task: TaskModel)
    requires
        !listed(table, task.name),
    ensures
        weight(edges, table.push(task)) <= weight(edges, table),
        has_key(edges, task.name) ==> weight(edges, table.push(task)) + 1 + edges[index_of(
            edges,
            task.name,
        )].1.len() <= weight(edges, table),
{
    lemma_weight_grows(edges, table, task);
    lemma_weight_at(edges, table, task);
    if has_key(edges, task.name) {
        let at = index_of(edges, task.name);
        assert(edges[at].0 == task.name);
    }
}

/// The weight counts, for each declared target without a task, at least its
/// own share.
proof fn lemma_weight_at(edges: Seq<Entry>, table: Seq<TaskModel>, task: TaskModel)
    requires
        !listed(table, task.name),
    ensures
        forall|at: int|
            0 <= at < edges.len() && (#[trigger] edges[at]).0 == task.name ==> weight(
                edges,
                table.push(task),
            ) + 1 + edges[at].1.len() <= weight(edges, table),
    decreases edges.len(),
{
    let after = table.push(task);
    assert(after[table.len() as int].name == task.name);
    if edges.len() > 0 {
        let front = edges.drop_last();
        let last = edges.last();
        lemma_weight_at(front, table, task);
        lemma_weight_grows(front, table, task);
        if listed(table, last.0) {
            let i = task_of(table, last.0);
            assert(after[i].name == last.0);
        }
        assert forall|at: int| 0 <= at < edges.len() && (#[trigger] edges[at]).0
            == task.name implies weight(edges, after) + 1 + edges[at].1.len() <= weight(
            edges,
            table,
        ) by {
            if at < front.len() {
                assert(front[at].0 == task.name);
            }
        }
    }
}

/// A longer table never weighs more.
proof fn lemma_weight_grows(edges: Seq<Entry>, table: Seq<TaskModel>, task: TaskModel)
    ensures
        weight(edges, table.push(task)) <= weight(edges, table),
    decreases edges.len(),
{
    if edges.len() > 0 {
        let after = table.push(task);
        let last = edges.last();
        lemma_weight_grows(edges.drop_last(), table, task);
        if listed(table, last.0) {
            let i = task_of(table, last.0);
            assert(after[i].name == last.0);
        }
    }
}

/// The task table that the walk ends with, from a table and the visits
/// still to make, the next one first.
pub open spec fn walk(g: GraphModel, table: Seq<TaskModel>, agenda: Seq<Visit>) -> Seq<TaskModel>
    decreases weight(g.edges, table) + agenda.len(),
    via walk_decreases
{
    if agenda.len() == 0 {
        table
    } else if listed(table, agenda[0].0) {
        walk(g, table, agenda.drop_first())
    } else {
        let task = TaskModel {
            name: agenda[0].0,
            deps: g.deps_of(agenda[0].0),
            depth: agenda[0].1,
        };
        walk(g, table.push(task), visits(task.deps, task.depth + 1) + agenda.drop_first())
    }
}

#[via_fn]
proof fn walk_decreases(g: GraphModel, table: Seq<TaskModel>, agenda: Seq<Visit>) {
    if agenda.len() > 0 && !listed(table, agenda[0].0) {
        let task = TaskModel {
            name: agenda[0].0,
            deps: g.deps_of(agenda[0].0),
            depth: agenda[0].1,
        };
        lemma_weight_register(g.edges, table, task);
    }
}

/// The tasks that a request for `requested` needs, in the order in which
/// the walk registers them.
pub open spec fn plan_of(g: GraphModel, requested: Seq<Seq<char>>) -> Seq<TaskModel> {
    walk(g, Seq::empty(), visits(requested, 0))
}


/// Some visit of `agenda` is for `name`.
pub open spec fn on_agenda(agenda: Seq<Visit>, name: Seq<char>) -> bool {
    exists|k: int| 0 <= k < agenda.len() && (#[trigger] agenda[k]).0 == name
}

/// No target has two tasks.
pub open spec fn distinct_names(table: Seq<TaskModel>) -> bool {
    forall|i: int, j: int|
        0 <= i < j < table.len() ==> (#[trigger] table[i]).name != (#[trigger] table[j]).name
}

/// Each task carries the dependencies that the graph declares for its target.
pub open spec fn faithful(g: GraphModel, table: Seq<TaskModel>) -> bool {
    forall|i: int| 0 <= i < table.len() ==> (#[trigger] table[i]).deps == g.deps_of(table[i].name)
}

/// Each dependency of each task has a task of its own, or a visit to come.
pub open spec fn closed_under(table: Seq<TaskModel>, agenda: Seq<Visit>) -> bool {
    forall|i: int, k: int|
        0 <= i < table.len() && 0 <= k < table[i].deps.len() ==> listed(
            table,
            #[trigger] table[i].deps[k],
        ) || on_agenda(agenda, table[i].deps[k])
}

/// Each dependency of each task has a task of its own.
pub open spec fn closed(table: Seq<TaskModel>) -> bool {
    closed_under(table, Seq::empty())
}

/// The walk keeps what it has, registers no target twice, copies the
/// graph's dependencies, and ends with a task for every target waiting on
/// the agenda and for every dependency of every task.
pub proof fn lemma_walk_structure(g: GraphModel, table: Seq<TaskModel>, agenda: Seq<Visit>)
    requires
        distinct_names(table),
        faithful(g, table),
        closed_under(table, agenda),
    ensures
        table.is_prefix_of(walk(g, table, agenda)),
        distinct_names(walk(g, table, agenda)),
        faithful(g, walk(g, table, agenda)),
        closed(walk(g, table, agenda)),
        forall|k: int|
            0 <= k < agenda.len() ==> listed(walk(g, table, agenda), (#[trigger] agenda[k]).0),
    decreases weight(g.edges, table) + agenda.len(),
{
    let result = walk(g, table, agenda);
    if agenda.len() == 0 {
        assert forall|i: int, k: int|
            0 <= i < table.len() && 0 <= k < table[i].deps.len() implies listed(
            table,
            #[trigger] table[i].deps[k],
        ) || on_agenda(Seq::<Visit>::empty(), table[i].deps[k]) by {
            let dep = table[i].deps[k];
            assert(listed(table, dep) || on_agenda(agenda, dep));
        }
    } else {
        let rest = agenda.drop_first();
        let name = agenda[0].0;
        if listed(table, name) {
            assert forall|i: int, k: int|
                0 <= i < table.len() && 0 <= k < table[i].deps.len() implies listed(
                table,
                #[trigger] table[i].deps[k],
            ) || on_agenda(rest, table[i].deps[k]) by {
                let dep = table[i].deps[k];
                if !listed(table, dep) {
                    assert(on_agenda(agenda, dep));
                    let at = choose|at: int|
                        0 <= at < agenda.len() && (#[trigger] agenda[at]).0 == dep;
                    assert(at > 0);
                    assert(rest[at - 1].0 == dep);
                }
            }
            lemma_walk_structure(g, table, rest);
            assert forall|k: int| 0 <= k < agenda.len() implies listed(
                result,
                (#[trigger] agenda[k]).0,
            ) by {
                if k == 0 {
                    let i = task_of(table, name);
                    assert(result[i].name == name);
                } else {
                    assert(rest[k - 1] == agenda[k]);
                }
            }
        } else {
            let task = TaskModel { name, deps: g.deps_of(name), depth: agenda[0].1 };
            let grown = table.push(task);
            let ahead = visits(task.deps, task.depth + 1) + rest;
            lemma_weight_register(g.edges, table, task);
            assert(grown[table.len() as int] == task);
            assert forall|i: int, j: int| 0 <= i < j < grown.len() implies (
            #[trigger] grown[i]).name != (#[trigger] grown[j]).name by {
                if j == table.len() {
                    assert(table[i].name != name);
                } else {
                    assert(table[i].name != table[j].name);
                }
            }
            assert forall|i: int, k: int|
                0 <= i < grown.len() && 0 <= k < grown[i].deps.len() implies listed(
                grown,
                #[trigger] grown[i].deps[k],
            ) || on_agenda(ahead, grown[i].deps[k]) by {
                let dep = grown[i].deps[k];
                if i == table.len() {
                    assert(ahead[k].0 == dep);
                } else {
                    assert(table[i].deps[k] == dep);
                    if listed(table, dep) {
                        let at = task_of(table, dep);
                        assert(grown[at].name == dep);
                    } else {
                        assert(on_agenda(agenda, dep));
                        let at = choose|at: int|
                            0 <= at < agenda.len() && (#[trigger] agenda[at]).0 == dep;
                        if at == 0 {
                            assert(grown[table.len() as int].name == dep);
                        } else {
                            assert(ahead[task.deps.len() + at - 1].0 == dep);
                        }
                    }
                }
            }
            lemma_walk_structure(g, grown, ahead);
            assert forall|k: int| 0 <= k < agenda.len() implies listed(
                result,
                (#[trigger] agenda[k]).0,
            ) by {
                if k == 0 {
                    assert(result[table.len() as int].name == name);
                } else {
                    assert(ahead[task.deps.len() + k - 1] == agenda[k]);
                }
            }
        }
    }
}

/// A plan holds one task for each target it names, with the dependencies
/// that the graph declares, and a task for every requested target and for
/// every dependency of every task.
pub proof fn lemma_plan_structure(g: GraphModel, requested: Seq<Seq<char>>)
    ensures
        distinct_names(plan_of(g, requested)),
        faithful(g, plan_of(g, requested)),
        closed(plan_of(g, requested)),
        forall|k: int|
            0 <= k < requested.len() ==> listed(plan_of(g, requested), #[trigger] requested[k]),
{
    let agenda = visits(requested, 0);
    lemma_walk_structure(g, Seq::empty(), agenda);
    assert forall|k: int| 0 <= k < requested.len() implies listed(
        plan_of(g, requested),
        #[trigger] requested[k],
    ) by {
        assert(agenda[k].0 == requested[k]);
    }
}


/// A path in the graph: each name of it but the last has the next one as
/// a dependency.
pub open spec fn is_path(g: GraphModel, path: Seq<Seq<char>>) -> bool {
    &&& path.len() > 0
    &&& forall|a: int, b: int|
        0 <= a && b == a + 1 && b < path.len() ==> g.deps_of(#[trigger] path[a]).contains(
            #[trigger] path[b],
        )
}

/// `name` is one of `roots`, or a dependency of one, or a dependency of
/// such a dependency, and so on.
pub open spec fn reachable(g: GraphModel, roots: Seq<Seq<char>>, name: Seq<char>) -> bool {
    exists|path: Seq<Seq<char>>| #[trigger]
        is_path(g, path) && roots.contains(path[0]) && path.last() == name
}

/// A dependency of a name that can be reached can be reached.
pub proof fn lemma_reachable_step(
    g: GraphModel,
    roots: Seq<Seq<char>>,
    name: Seq<char>,
    k: int,
)
    requires
        reachable(g, roots, name),
        0 <= k < g.deps_of(name).len(),
    ensures
        reachable(g, roots, g.deps_of(name)[k]),
{
    let path = choose|path: Seq<Seq<char>>| #[trigger]
        is_path(g, path) && roots.contains(path[0]) && path.last() == name;
    let longer = path.push(g.deps_of(name)[k]);
    assert forall|a: int, b: int| 0 <= a && b == a + 1 && b < longer.len() implies g.deps_of(
        #[trigger] longer[a],
    ).contains(#[trigger] longer[b]) by {
        if b < path.len() {
            assert(g.deps_of(path[a]).contains(path[b]));
        } else {
            assert(longer[a] == name);
        }
    }
    assert(longer[0] == path[0]);
    assert(is_path(g, longer));
}

/// The walk registers only what can be reached from the roots, where that
/// holds of the table and of the agenda it starts with.
pub proof fn lemma_walk_reaches(
    g: GraphModel,
    roots: Seq<Seq<char>>,
    table: Seq<TaskModel>,
    agenda: Seq<Visit>,
)
    requires
        forall|i: int| 0 <= i < table.len() ==> reachable(g, roots, (#[trigger] table[i]).name),
        forall|k: int| 0 <= k < agenda.len() ==> reachable(g, roots, (#[trigger] agenda[k]).0),
    ensures
        forall|i: int|
            0 <= i < walk(g, table, agenda).len() ==> reachable(
                g,
                roots,
                (#[trigger] walk(g, table, agenda)[i]).name,
            ),
    decreases weight(g.edges, table) + agenda.len(),
{
    if agenda.len() > 0 {
        let rest = agenda.drop_first();
        let name = agenda[0].0;
        assert forall|k: int| 0 <= k < rest.len() implies reachable(
            g,
            roots,
            (#[trigger] rest[k]).0,
        ) by {
            assert(rest[k] == agenda[k + 1]);
        }
        if listed(table, name) {
            lemma_walk_reaches(g, roots, table, rest);
            assert(walk(g, table, agenda) == walk(g, table, rest));
        } else {
            let task = TaskModel { name, deps: g.deps_of(name), depth: agenda[0].1 };
            let grown = table.push(task);
            let ahead = visits(task.deps, task.depth + 1) + rest;
            lemma_weight_register(g.edges, table, task);
            assert forall|i: int| 0 <= i < grown.len() implies reachable(
                g,
                roots,
                (#[trigger] grown[i]).name,
            ) by {
                if i < table.len() {
                    assert(grown[i] == table[i]);
                }
            }
            assert forall|k: int| 0 <= k < ahead.len() implies reachable(
                g,
                roots,
                (#[trigger] ahead[k]).0,
            ) by {
                if k < task.deps.len() {
                    lemma_reachable_step(g, roots, name, k);
                } else {
                    assert(ahead[k] == rest[k - task.deps.len()]);
                }
            }
            lemma_walk_reaches(g, roots, grown, ahead);
            assert(walk(g, table, agenda) == walk(g, grown, ahead));
        }
    } else {
        assert(walk(g, table, agenda) == table);
    }
}

/// In a table that holds a task for every dependency of its tasks, the
/// end of a path has a task where its beginning has one.
pub proof fn lemma_path_listed(g: GraphModel, table: Seq<TaskModel>, path: Seq<Seq<char>>)
    requires
        faithful(g, table),
        closed(table),
        is_path(g, path),
        listed(table, path[0]),
    ensures
        listed(table, path.last()),
    decreases path.len(),
{
    if path.len() > 1 {
        let front = path.drop_last();
        assert forall|a: int, b: int| 0 <= a && b == a + 1 && b < front.len() implies g.deps_of(
            #[trigger] front[a],
        ).contains(#[trigger] front[b]) by {
            assert(front[a] == path[a] && front[b] == path[b]);
        }
        assert(front[0] == path[0]);
        lemma_path_listed(g, table, front);
        let before = path[path.len() - 2];
        assert(front.last() == before);
        let i = task_of(table, before);
        assert(table[i].name == before);
        assert(g.deps_of(path[path.len() - 2]).contains(path[path.len() - 1]));
        let k = choose|k: int| 0 <= k < g.deps_of(before).len() && g.deps_of(before)[k] == path.last();
        assert(table[i].deps[k] == path.last());
        assert(listed(table, table[i].deps[k]) || on_agenda(
            Seq::<Visit>::empty(),
            table[i].deps[k],
        ));
    }
}

/// Demand decides: a target has a task in the plan exactly where it can be
/// reached from a requested target.
pub proof fn lemma_plan_is_what_is_reachable(
    g: GraphModel,
    requested: Seq<Seq<char>>,
    name: Seq<char>,
)
    ensures
        listed(plan_of(g, requested), name) <==> reachable(g, requested, name),
{
    let plan = plan_of(g, requested);
    let agenda = visits(requested, 0);
    lemma_plan_structure(g, requested);
    if listed(plan, name) {
        assert forall|k: int| 0 <= k < agenda.len() implies reachable(
            g,
            requested,
            (#[trigger] agenda[k]).0,
        ) by {
            let path = seq![requested[k]];
            assert(is_path(g, path));
            assert(requested.contains(path[0]));
            assert(path.last() == agenda[k].0);
        }
        lemma_walk_reaches(g, requested, Seq::empty(), agenda);
        let i = task_of(plan, name);
        assert(reachable(g, requested, plan[i].name));
    }
    if reachable(g, requested, name) {
        let path = choose|path: Seq<Seq<char>>| #[trigger]
            is_path(g, path) && requested.contains(path[0]) && path.last() == name;
        let k = choose|k: int| 0 <= k < requested.len() && requested[k] == path[0];
        assert(listed(plan, requested[k]));
        lemma_path_listed(g, plan, path);
    }
}

/// What the depths of a table say: a task at depth 0 builds one of the
/// roots, and a task at a depth below has, before it in the table and one
/// level up, a task that names it as a dependency.
pub open spec fn depths_follow_walk(roots: Seq<Seq<char>>, table: Seq<TaskModel>) -> bool {
    forall|i: int|
        0 <= i < table.len() ==> visit_follows_walk(
            roots,
            table.take(i),
            ((#[trigger] table[i]).name, table[i].depth),
        )
}

/// The depth of a visit is right: 0 for one of the roots, and otherwise
/// one more than that of a task that names the target as a dependency.
pub open spec fn visit_follows_walk(
    roots: Seq<Seq<char>>,
    table: Seq<TaskModel>,
    visit: Visit,
) -> bool {
    if visit.1 == 0 {
        roots.contains(visit.0)
    } else {
        exists|j: int|
            0 <= j < table.len() && (#[trigger] table[j]).depth + 1 == visit.1
                && table[j].deps.contains(visit.0)
    }
}

/// The walk gives each task the depth at which it met the target, where
/// that holds of the table and of the agenda it starts with.
pub proof fn lemma_walk_depths(
    g: GraphModel,
    roots: Seq<Seq<char>>,
    table: Seq<TaskModel>,
    agenda: Seq<Visit>,
)
    requires
        depths_follow_walk(roots, table),
        forall|k: int|
            0 <= k < agenda.len() ==> visit_follows_walk(roots, table, #[trigger] agenda[k]),
    ensures
        depths_follow_walk(roots, walk(g, table, agenda)),
    decreases weight(g.edges, table) + agenda.len(),
{
    if agenda.len() > 0 {
        let rest = agenda.drop_first();
        let name = agenda[0].0;
        if listed(table, name) {
            assert forall|k: int| 0 <= k < rest.len() implies visit_follows_walk(
                roots,
                table,
                #[trigger] rest[k],
            ) by {
                assert(rest[k] == agenda[k + 1]);
            }
            lemma_walk_depths(g, roots, table, rest);
            assert(walk(g, table, agenda) == walk(g, table, rest));
        } else {
            let task = TaskModel { name, deps: g.deps_of(name), depth: agenda[0].1 };
            let grown = table.push(task);
            let ahead = visits(task.deps, task.depth + 1) + rest;
            lemma_weight_register(g.edges, table, task);
            assert forall|i: int| 0 <= i < grown.len() implies visit_follows_walk(
                roots,
                grown.take(i),
                ((#[trigger] grown[i]).name, grown[i].depth),
            ) by {
                if i < table.len() {
                    assert(grown.take(i) =~= table.take(i));
                    assert(grown[i] == table[i]);
                } else {
                    assert(grown.take(i) =~= table);
                    assert((grown[i].name, grown[i].depth) == agenda[0]);
                }
            }
            assert forall|k: int| 0 <= k < ahead.len() implies visit_follows_walk(
                roots,
                grown,
                #[trigger] ahead[k],
            ) by {
                if k < task.deps.len() {
                    assert(grown[table.len() as int] == task);
                    assert(task.deps[k] == ahead[k].0);
                } else {
                    let visit = rest[k - task.deps.len()];
                    assert(ahead[k] == visit);
                    assert(visit == agenda[k - task.deps.len() + 1]);
                    assert(visit_follows_walk(roots, table, visit));
                    if visit.1 != 0 {
                        let j = choose|j: int|
                            0 <= j < table.len() && (#[trigger] table[j]).depth + 1 == visit.1
                                && table[j].deps.contains(visit.0);
                        assert(grown[j] == table[j]);
                    }
                }
            }
            lemma_walk_depths(g, roots, grown, ahead);
            assert(walk(g, table, agenda) == walk(g, grown, ahead));
        }
    } else {
        assert(walk(g, table, agenda) == table);
    }
}

/// In a plan, a task at depth 0 builds a requested target, and a task at a
/// depth below has, before it and one level up, a task that names it as a
/// dependency.
pub proof fn lemma_plan_depths(g: GraphModel, requested: Seq<Seq<char>>)
    ensures
        depths_follow_walk(requested, plan_of(g, requested)),
{
    let agenda = visits(requested, 0);
    assert forall|k: int| 0 <= k < agenda.len() implies visit_follows_walk(
        requested,
        Seq::<TaskModel>::empty(),
        #[trigger] agenda[k],
    ) by {
        assert(requested[k] == agenda[k].0);
    }
    lemma_walk_depths(g, requested, Seq::empty(), agenda);
}

/// One unit of work: the building of one target.
#[derive(Debug)]
pub struct Task {
    /// The target that the task builds.
    pub name: TargetName,
    /// Its dependencies, in declared order.
    pub deps: Vec<TargetName>,
    /// How deep in the walk the target was first met; 0 for a requested one.
    pub depth: usize,
}

impl View for Task {
    type V = TaskModel;

    open spec fn view(&self) -> TaskModel {
        TaskModel { name: self.name@, deps: self.deps.deep_view(), depth: self.depth as nat }
    }
}

/// What a [`Plan`] stands for.
pub struct PlanModel {
    /// The tasks, in the order in which the walk registered them.
    pub tasks: Seq<TaskModel>,
    /// For each task, the places of the tasks that build its dependencies.
    pub dep_ids: Seq<Seq<int>>,
    /// The places of the tasks that build the requested targets.
    pub roots: Seq<int>,
}

impl PlanModel {
    /// No target has two tasks, and each dependency and each root is the
    /// place of a task.
    pub open spec fn wf(self) -> bool {
        &&& distinct_names(self.tasks)
        &&& self.dep_ids.len() == self.tasks.len()
        &&& forall|i: int|
            0 <= i < self.tasks.len() ==> (#[trigger] self.dep_ids[i]).len()
                == self.tasks[i].deps.len()
        &&& forall|i: int, k: int|
            0 <= i < self.tasks.len() && 0 <= k < self.dep_ids[i].len() ==> 0 <= (
            #[trigger] self.dep_ids[i][k]) < self.tasks.len()
                && self.tasks[self.dep_ids[i][k]].name == self.tasks[i].deps[k]
        &&& forall|k: int|
            0 <= k < self.roots.len() ==> 0 <= (#[trigger] self.roots[k]) < self.tasks.len()
    }
}

/// The tasks of a list, each by what it stands for.
pub open spec fn table_view(tasks: Seq<Task>) -> Seq<TaskModel> {
    Seq::new(tasks.len(), |i: int| tasks[i]@)
}

/// The numbers of a list, as integers.
pub open spec fn ids_view(ids: Seq<usize>) -> Seq<int> {
    Seq::new(ids.len(), |k: int| ids[k] as int)
}

/// The rows of a table of numbers, each as integers.
pub open spec fn id_rows_view(rows: Seq<Vec<usize>>) -> Seq<Seq<int>> {
    Seq::new(rows.len(), |i: int| ids_view(rows[i]@))
}

/// A task table as an edge table: each task's target with its dependencies.
pub open spec fn rows(table: Seq<TaskModel>) -> Seq<Entry> {
    Seq::new(table.len(), |i: int| (table[i].name, table[i].deps))
}

/// The visits that a stack holds, the top of the stack first.
pub open spec fn agenda_of(stack: Seq<(TargetName, usize)>) -> Seq<Visit> {
    Seq::new(
        stack.len(),
        |k: int| (stack[stack.len() - 1 - k].0@, stack[stack.len() - 1 - k].1 as nat),
    )
}

/// A target has a task exactly where its name keys a row.
pub proof fn lemma_rows(table: Seq<TaskModel>, name: Seq<char>)
    ensures
        listed(table, name) <==> has_key(rows(table), name),
        distinct_names(table) <==> crate::edges::distinct_keys(rows(table)),
{
    let r = rows(table);
    if listed(table, name) {
        let i = task_of(table, name);
        assert(r[i].0 == name);
    }
    if has_key(r, name) {
        let i = index_of(r, name);
        assert(r[i].0 == name);
        assert(table[i].name == name);
    }
    if distinct_names(table) {
        assert forall|i: int, j: int| 0 <= i < j < r.len() implies (#[trigger] r[i]).0 != (
        #[trigger] r[j]).0 by {
            assert(table[i].name != table[j].name);
        }
    }
    if crate::edges::distinct_keys(r) {
        assert forall|i: int, j: int| 0 <= i < j < table.len() implies (
        #[trigger] table[i]).name != (#[trigger] table[j]).name by {
            assert(r[i].0 != r[j].0);
        }
    }
}

/// The tasks that a request needs, with the places of their dependencies.
pub struct Plan {
    tasks: Vec<Task>,
    dep_ids: Vec<Vec<usize>>,
    roots: Vec<usize>,
}

impl View for Plan {
    type V = PlanModel;

    closed spec fn view(&self) -> PlanModel {
        PlanModel {
            tasks: table_view(self.tasks@),
            dep_ids: id_rows_view(self.dep_ids@),
            roots: ids_view(self.roots@),
        }
    }
}

/// Puts a visit for each of `deps` on the stack, the first of them on top.
fn push_visits(stack: &mut Vec<(TargetName, usize)>, deps: &Vec<TargetName>, depth: usize)
    ensures
        agenda_of(final(stack)@) == visits(deps.deep_view(), depth as nat) + agenda_of(
            old(stack)@,
        ),
        final(stack).len() == old(stack).len() + deps.len(),
        forall|j: int| 0 <= j < old(stack).len() ==> final(stack)[j] == old(stack)[j],
        forall|j: int| old(stack).len() <= j < final(stack).len() ==> final(stack)[j].1 == depth,
{
    let n = deps.len();
    let ghost base = stack@;
    let mut k: usize = n;
    while k > 0
        invariant
            n == deps.len(),
            k <= n,
            stack.len() == base.len() + (n - k),
            forall|j: int| 0 <= j < base.len() ==> stack[j] == base[j],
            forall|j: int|
                0 <= j < n - k ==> (#[trigger] stack[base.len() + j]).0@ == deps[n - 1 - j]@
                    && stack[base.len() + j].1 == depth,
        decreases k,
    {
        k -= 1;
        stack.push((deps[k].clone(), depth));
    }
    proof {
        let want = visits(deps.deep_view(), depth as nat) + agenda_of(base);
        let got = agenda_of(stack@);
        assert(got.len() == want.len());
        assert forall|a: int| 0 <= a < got.len() implies got[a] == want[a] by {
            let at = stack.len() - 1 - a;
            if a < n {
                assert(stack[base.len() + (n - 1 - a)].0@ == deps[a]@);
            } else {
                assert(stack[at] == base[at]);
            }
        }
        assert(got =~= want);
        assert forall|j: int| base.len() <= j < stack.len() implies stack[j].1 == depth by {
            assert(stack[base.len() + (j - base.len())].1 == depth);
        }
    }
}

impl Plan {
    #[verifier::type_invariant]
    spec fn inv(self) -> bool {
        self@.wf()
    }

    /// The plan of an empty request: no task.
    pub fn empty() -> (plan: Plan)
        ensures
            plan@.wf(),
            plan@.tasks.len() == 0,
            plan@.roots.len() == 0,
    {
        Plan { tasks: Vec::new(), dep_ids: Vec::new(), roots: Vec::new() }
    }

    /// Plans a request: walks the graph from the requested targets and
    /// registers one task for each target met.
    pub fn new(graph: &TargetGraph, requested: &Vec<TargetName>) -> (plan: Plan)
        ensures
            plan@.wf(),
            plan@.tasks == plan_of(graph@, requested.deep_view()),
            plan@.roots.len() == requested.len(),
            forall|k: int|
                0 <= k < requested.len() ==> plan@.tasks[#[trigger] plan@.roots[k]].name
                    == requested[k]@,
    {
        let ghost g = graph@;
        let ghost goal = plan_of(g, requested.deep_view());
        let mut index = edges_new();
        let mut tasks: Vec<Task> = Vec::new();
        let mut stack: Vec<(TargetName, usize)> = Vec::new();
        push_visits(&mut stack, requested, 0);
        assert(agenda_of(stack@) =~= visits(requested.deep_view(), 0));
        assert(table_view(tasks@) =~= Seq::<TaskModel>::empty());
        assert(rows(table_view(tasks@)) =~= Seq::<Entry>::empty());
        while stack.len() > 0
            invariant
                g == graph@,
                walk(g, table_view(tasks@), agenda_of(stack@)) == goal,
                edge_entries(index) == rows(table_view(tasks@)),
                distinct_names(table_view(tasks@)),
                forall|j: int| 0 <= j < stack.len() ==> (#[trigger] stack[j]).1 <= tasks.len(),
            decreases weight(g.edges, table_view(tasks@)) + stack.len(),
        {
            let ghost table = table_view(tasks@);
            let ghost agenda = agenda_of(stack@);
            assert(stack[stack.len() - 1].1 <= tasks.len());
            let (name, depth) = stack.pop().unwrap();
            assert(agenda[0] == (name@, depth as nat));
            assert(agenda_of(stack@) =~= agenda.drop_first());
            proof {
                lemma_rows(table, name@);
            }
            match edges_index_of(&index, name.as_str()) {
                Some(_) => {
                    assert(has_key(rows(table), name@));
                },
                None => {
                    let deps = graph.dependencies(name.as_str());
                    let ghost task = TaskModel {
                        name: name@,
                        deps: g.deps_of(name@),
                        depth: depth as nat,
                    };
                    proof {
                        lemma_weight_register(g.edges, table, task);
                        assert(put(rows(table), name@, deps.deep_view()) =~= rows(
                            table.push(task),
                        ));
                        assert forall|i: int, j: int|
                            0 <= i < j < table.push(task).len() implies (#[trigger] table.push(
                            task,
                        )[i]).name != (#[trigger] table.push(task)[j]).name by {
                            if j == table.len() {
                                assert(table[i].name != name@);
                            } else {
                                assert(table[i].name != table[j].name);
                            }
                        }
                    }
                    edges_insert(&mut index, name.clone(), clone_names(&deps));
                    let kept = clone_names(&deps);
                    tasks.push(Task { name, deps: kept, depth });
                    assert(table_view(tasks@) =~= table.push(task));
                    assert(depth < tasks.len());
                    push_visits(&mut stack, &deps, depth + 1);
                },
            }
        }
        assert(table_view(tasks@) == goal);
        proof {
            lemma_plan_structure(g, requested.deep_view());
        }
        let mut dep_ids: Vec<Vec<usize>> = Vec::new();
        let mut i: usize = 0;
        while i < tasks.len()
            invariant
                i <= tasks.len(),
                dep_ids.len() == i,
                table_view(tasks@) == goal,
                closed(goal),
                edge_entries(index) == rows(goal),
                forall|a: int|
                    0 <= a < i ==> (#[trigger] dep_ids[a]).len() == tasks[a].deps.len(),
                forall|a: int, k: int|
                    0 <= a < i && 0 <= k < dep_ids[a].len() ==> (#[trigger] dep_ids[a][k])
                        < tasks.len() && tasks[dep_ids[a][k] as int].name@ == tasks[a].deps[k]@,
            decreases tasks.len() - i,
        {
            let task = &tasks[i];
            let mut ids: Vec<usize> = Vec::new();
            let mut k: usize = 0;
            while k < task.deps.len()
                invariant
                    i < tasks.len(),
                    task == tasks[i as int],
                    k <= task.deps.len(),
                    ids.len() == k,
                    table_view(tasks@) == goal,
                    closed(goal),
                    edge_entries(index) == rows(goal),
                    forall|b: int|
                        0 <= b < k ==> (#[trigger] ids[b]) < tasks.len()
                            && tasks[ids[b] as int].name@ == task.deps[b]@,
                decreases task.deps.len() - k,
            {
                proof {
                    assert(goal[i as int].deps[k as int] == task.deps[k as int]@);
                    assert(listed(goal, goal[i as int].deps[k as int]) || on_agenda(
                        Seq::<Visit>::empty(),
                        goal[i as int].deps[k as int],
                    ));
                    lemma_rows(goal, task.deps[k as int]@);
                }
                let found = edges_index_of(&index, task.deps[k].as_str()).unwrap();
                assert(goal[found as int].name == task.deps[k as int]@);
                ids.push(found);
                k += 1;
            }
            dep_ids.push(ids);
            i += 1;
        }
        let mut roots: Vec<usize> = Vec::new();
        let mut r: usize = 0;
        while r < requested.len()
            invariant
                r <= requested.len(),
                roots.len() == r,
                table_view(tasks@) == goal,
                edge_entries(index) == rows(goal),
                forall|k: int|
                    0 <= k < requested.len() ==> listed(
                        goal,
                        #[trigger] requested.deep_view()[k],
                    ),
                forall|b: int|
                    0 <= b < r ==> (#[trigger] roots[b]) < tasks.len()
                        && tasks[roots[b] as int].name@ == requested[b]@,
            decreases requested.len() - r,
        {
            proof {
                assert(requested.deep_view()[r as int] == requested[r as int]@);
                lemma_rows(goal, requested[r as int]@);
            }
            let found = edges_index_of(&index, requested[r].as_str()).unwrap();
            assert(goal[found as int].name == requested[r as int]@);
            roots.push(found);
            r += 1;
        }
        let plan = Plan { tasks, dep_ids, roots };
        proof {
            let m = plan@;
            assert(m.tasks == goal);
            assert forall|a: int| 0 <= a < m.tasks.len() implies (#[trigger] m.dep_ids[a]).len()
                == m.tasks[a].deps.len() by {
                assert(dep_ids[a].len() == tasks[a].deps.len());
            }
            assert forall|a: int, k: int|
                0 <= a < m.tasks.len() && 0 <= k < m.dep_ids[a].len() implies 0 <= (
            #[trigger] m.dep_ids[a][k]) < m.tasks.len() && m.tasks[m.dep_ids[a][k]].name
                == m.tasks[a].deps[k] by {
                assert(dep_ids[a][k] < tasks.len());
                assert(tasks[dep_ids[a][k] as int].name@ == tasks[a].deps[k]@);
            }
            assert forall|k: int| 0 <= k < requested.len() implies m.tasks[#[trigger] m.roots[k]].name
                == requested[k]@ by {
                assert(roots[k] < tasks.len());
            }
        }
        plan
    }

    /// The number of tasks.
    pub fn len(&self) -> (n: usize)
        ensures
            n == self@.tasks.len(),
            self@.wf(),
    {
        proof {
            use_type_invariant(self);
        }
        self.tasks.len()
    }

    /// The task at place `index`.
    pub fn task(&self, index: usize) -> (r: Option<&Task>)
        ensures
            match r {
                Some(task) => index < self@.tasks.len() && task@ == self@.tasks[index as int],
                None => index >= self@.tasks.len(),
            },
    {
        if index < self.tasks.len() {
            Some(&self.tasks[index])
        } else {
            None
        }
    }

    /// For the task at place `index`, the places of the tasks that build
    /// its dependencies, in declared order.
    pub fn dependency_ids(&self, index: usize) -> (r: Option<&Vec<usize>>)
        ensures
            self@.wf(),
            match r {
                Some(ids) => index < self@.tasks.len() && ids_view(ids@)
                    == self@.dep_ids[index as int],
                None => index >= self@.tasks.len(),
            },
    {
        proof {
            use_type_invariant(self);
        }
        if index < self.dep_ids.len() {
            Some(&self.dep_ids[index])
        } else {
            None
        }
    }

    /// The places of the tasks that build the requested targets, in the
    /// order of the request.
    pub fn roots(&self) -> (r: &Vec<usize>)
        ensures
            self@.wf(),
            ids_view(r@) == self@.roots,
    {
        proof {
            use_type_invariant(self);
        }
        &self.roots
    }
}

} // verus!
