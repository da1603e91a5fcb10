//! The target graph: each target with its dependencies, in declared order,
//! and an optional default goal.

use crate::edges::{
    distinct_keys, edge_entries, edges_get_index, edges_index_of, edges_insert, edges_len,
    edges_new, has_key, index_of, put, Entry,
};
use indexmap::IndexMap;
use vstd::prelude::*;

verus! {

/// A target's name: an opaque, case-sensitive string, compared by content.
pub type TargetName = String;

/// What a [`TargetGraph`] stands for.
pub struct GraphModel {
    /// Each declared target with its dependencies, in order of first declaration.
    pub edges: Seq<Entry>,
    /// The goal set by a directive, if any.
    pub default_goal: Option<Seq<char>>,
}

impl GraphModel {
    /// The graph with no target and no default goal.
    pub open spec fn empty() -> GraphModel {
        GraphModel { edges: Seq::empty(), default_goal: None }
    }

    /// No target is declared twice.
    pub open spec fn wf(self) -> bool {
        distinct_keys(self.edges)
    }

    /// The graph after `name` is declared with `deps`: a later declaration
    /// replaces an earlier one and keeps its place.
    pub open spec fn declare(self, name: Seq<char>, deps: Seq<Seq<char>>) -> GraphModel {
        GraphModel { edges: put(self.edges, name, deps), default_goal: self.default_goal }
    }

    /// The graph after a directive names `name` as the default goal.
    pub open spec fn with_goal(self, name: Seq<char>) -> GraphModel {
        GraphModel { edges: self.edges, default_goal: Some(name) }
    }

    /// The graph that comes of declaring `entries` in order, with the given
    /// default goal.
    pub open spec fn from_entries(entries: Seq<Entry>, default_goal: Option<Seq<char>>) -> GraphModel {
        GraphModel { edges: declare_all(Seq::empty(), entries), default_goal }
    }

    /// `name` is a declared target.
    pub open spec fn contains(self, name: Seq<char>) -> bool {
        has_key(self.edges, name)
    }

    /// The dependencies of `name`; a name that is not declared is a leaf.
    pub open spec fn deps_of(self, name: Seq<char>) -> Seq<Seq<char>> {
        if has_key(self.edges, name) {
            self.edges[index_of(self.edges, name)].1
        } else {
            Seq::empty()
        }
    }

    /// The declared targets, in order.
    pub open spec fn targets(self) -> Seq<Seq<char>> {
        Seq::new(self.edges.len(), |i: int| self.edges[i].0)
    }

    /// The target built when none is requested: the default goal, or else
    /// the first declared target.
    pub open spec fn default_target(self) -> Option<Seq<char>> {
        if self.default_goal is Some {
            self.default_goal
        } else if self.edges.len() > 0 {
            Some(self.edges[0].0)
        } else {
            None
        }
    }
}

/// In a table without repeated keys, the entry at `i` is the one found for its key.
pub proof fn lemma_index_of_unique(entries: Seq<Entry>, i: int)
    requires
        distinct_keys(entries),
        0 <= i < entries.len(),
    ensures
        has_key(entries, entries[i].0),
        index_of(entries, entries[i].0) == i,
{
    let j = index_of(entries, entries[i].0);
    assert(0 <= j < entries.len() && entries[j].0 == entries[i].0);
    if j < i {
        assert(entries[j].0 != entries[i].0);
    } else if i < j {
        assert(entries[i].0 != entries[j].0);
    }
}

/// Declaring a target keeps the keys distinct, makes the target present with
/// exactly the given dependencies, and leaves every other target as it was.
pub proof fn lemma_put(entries: Seq<Entry>, key: Seq<char>, deps: Seq<Seq<char>>)
    requires
        distinct_keys(entries),
    ensures
        distinct_keys(put(entries, key, deps)),
        has_key(put(entries, key, deps), key),
        put(entries, key, deps)[index_of(put(entries, key, deps), key)].1 == deps,
        forall|other: Seq<char>|
            other != key ==> (has_key(put(entries, key, deps), other) <==> has_key(entries, other)),
        forall|other: Seq<char>|
            other != key && has_key(entries, other) ==> index_of(put(entries, key, deps), other)
                == index_of(entries, other) && put(entries, key, deps)[index_of(entries, other)]
                == entries[index_of(entries, other)],
        has_key(entries, key) ==> put(entries, key, deps).len() == entries.len() && index_of(
            put(entries, key, deps),
            key,
        ) == index_of(entries, key),
        !has_key(entries, key) ==> put(entries, key, deps).len() == entries.len() + 1 && index_of(
            put(entries, key, deps),
            key,
        ) == entries.len(),
{
    let after = put(entries, key, deps);
    let at: int = if has_key(entries, key) {
        index_of(entries, key)
    } else {
        entries.len() as int
    };
    assert(0 <= at < after.len() && after[at] == (key, deps));
    assert forall|i: int| 0 <= i < after.len() && i != at implies after[i] == entries[i]
        && entries[i].0 != key by {
        if has_key(entries, key) {
            lemma_index_of_unique(entries, i);
        } else {
            assert(0 <= i < entries.len());
        }
    }
    assert forall|i: int, j: int| 0 <= i < j < after.len() implies (#[trigger] after[i]).0 != (
    #[trigger] after[j]).0 by {
        if i != at && j != at {
            assert(entries[i].0 != entries[j].0);
        }
    }
    lemma_index_of_unique(after, at);
    assert forall|other: Seq<char>| other != key implies (has_key(after, other) <==> has_key(
        entries,
        other,
    )) by {
        if has_key(after, other) {
            let i = index_of(after, other);
            assert(i != at);
            assert(entries[i].0 == other);
        }
        if has_key(entries, other) {
            let i = index_of(entries, other);
            assert(entries[i].0 == other);
            assert(i != at);
            assert(after[i].0 == other);
        }
    }
    assert forall|other: Seq<char>| other != key && has_key(entries, other) implies index_of(
        after,
        other,
    ) == index_of(entries, other) && after[index_of(entries, other)] == entries[index_of(
        entries,
        other,
    )] by {
        let i = index_of(entries, other);
        assert(entries[i].0 == other);
        assert(i != at);
        assert(after[i] == entries[i]);
        lemma_index_of_unique(after, i);
    }
}

/// Last write wins: after two declarations of one target, the graph is the
/// one that the second declaration alone would have given, but for the
/// place of the target, which is that of its first declaration.
pub proof fn lemma_redeclare_replaces(
    g: GraphModel,
    name: Seq<char>,
    first: Seq<Seq<char>>,
    second: Seq<Seq<char>>,
)
    requires
        g.wf(),
    ensures
        g.declare(name, first).declare(name, second) == g.declare(name, second),
        g.declare(name, first).declare(name, second).deps_of(name) == second,
{
    lemma_put(g.edges, name, first);
    lemma_put(g.edges, name, second);
    let mid = put(g.edges, name, first);
    lemma_put(mid, name, second);
    assert(put(mid, name, second) =~= put(g.edges, name, second));
}

/// The table that comes of declaring `entries`, one after the other, on
/// top of `base`.
pub open spec fn declare_all(base: Seq<Entry>, entries: Seq<Entry>) -> Seq<Entry>
    decreases entries.len(),
{
    if entries.len() == 0 {
        base
    } else {
        put(declare_all(base, entries.drop_last()), entries.last().0, entries.last().1)
    }
}

/// The entries of a list of pairs, each by what it stands for.
pub open spec fn entries_view(entries: Seq<(TargetName, Vec<TargetName>)>) -> Seq<Entry> {
    Seq::new(entries.len(), |i: int| (entries[i].0@, entries[i].1.deep_view()))
}

/// A name that may be missing, as its characters.
pub open spec fn goal_view(goal: Option<TargetName>) -> Option<Seq<char>> {
    match goal {
        Some(name) => Some(name@),
        None => None,
    }
}

/// Declaring entries with distinct keys on top of nothing gives those
/// entries, in their order.
pub proof fn lemma_declare_all_distinct(entries: Seq<Entry>)
    requires
        distinct_keys(entries),
    ensures
        declare_all(Seq::empty(), entries) == entries,
    decreases entries.len(),
{
    if entries.len() > 0 {
        let front = entries.drop_last();
        assert forall|i: int, j: int| 0 <= i < j < front.len() implies (#[trigger] front[i]).0 != (
        #[trigger] front[j]).0 by {
            assert(entries[i].0 != entries[j].0);
        }
        lemma_declare_all_distinct(front);
        if has_key(front, entries.last().0) {
            let i = index_of(front, entries.last().0);
            assert(front[i].0 == entries.last().0);
            assert(entries[i].0 != entries[entries.len() - 1].0);
        }
        assert(front.push(entries.last()) =~= entries);
    }
}

/// Round trip: a graph taken apart into its entries and its default goal,
/// and put together again from them, is the graph it was.
pub proof fn lemma_round_trip(g: GraphModel)
    requires
        g.wf(),
    ensures
        GraphModel::from_entries(g.edges, g.default_goal) == g,
{
    lemma_declare_all_distinct(g.edges);
}

/// A copy of a list of names.
pub fn clone_names(names: &Vec<TargetName>) -> (r: Vec<TargetName>)
    ensures
        r.deep_view() == names.deep_view(),
{
    let mut out: Vec<TargetName> = Vec::new();
    let mut i: usize = 0;
    while i < names.len()
        invariant
            i <= names.len(),
            out.len() == i,
            forall|k: int| 0 <= k < i ==> out[k]@ == names[k]@,
        decreases names.len() - i,
    {
        out.push(names[i].clone());
        i += 1;
    }
    assert(out.deep_view() =~= names.deep_view());
    out
}

/// The mapping from each target to its dependencies, with the default goal.
#[derive(Debug)]
pub struct TargetGraph {
    edges: IndexMap<TargetName, Vec<TargetName>>,
    default_goal: Option<TargetName>,
}

impl View for TargetGraph {
    type V = GraphModel;

    closed spec fn view(&self) -> GraphModel {
        GraphModel {
            edges: edge_entries(self.edges),
            default_goal: match self.default_goal {
                Some(name) => Some(name@),
                None => None,
            },
        }
    }
}

impl Default for TargetGraph {
    fn default() -> (g: TargetGraph)
        ensures
            g@ == GraphModel::empty(),
            g@.wf(),
    {
        TargetGraph::new()
    }
}

impl TargetGraph {
    #[verifier::type_invariant]
    spec fn inv(self) -> bool {
        distinct_keys(edge_entries(self.edges))
    }

    /// The empty graph.
    pub fn new() -> (g: TargetGraph)
        ensures
            g@ == GraphModel::empty(),
            g@.wf(),
    {
        TargetGraph { edges: edges_new(), default_goal: None }
    }

    /// Declares `name` with `deps`, replacing an earlier declaration of it.
    pub fn insert(&mut self, name: TargetName, deps: Vec<TargetName>)
        ensures
            final(self)@ == old(self)@.declare(name@, deps.deep_view()),
            final(self)@.wf(),
    {
        proof {
            use_type_invariant(&*self);
            lemma_put(edge_entries(self.edges), name@, deps.deep_view());
        }
        let mut edges = edges_new();
        std::mem::swap(&mut edges, &mut self.edges);
        edges_insert(&mut edges, name, deps);
        self.edges = edges;
    }

    /// Sets the default goal.
    pub fn set_default_goal(&mut self, name: TargetName)
        ensures
            final(self)@ == old(self)@.with_goal(name@),
            final(self)@.wf(),
    {
        proof {
            use_type_invariant(&*self);
        }
        self.default_goal = Some(name);
    }

    /// The number of declared targets.
    pub fn len(&self) -> (n: usize)
        ensures
            n == self@.edges.len(),
            self@.wf(),
    {
        proof {
            use_type_invariant(self);
        }
        edges_len(&self.edges)
    }

    /// The place of `name` among the declared targets.
    pub fn position(&self, name: &str) -> (r: Option<usize>)
        ensures
            self@.wf(),
            r is Some <==> self@.contains(name@),
            r is Some ==> r->0 == index_of(self@.edges, name@) && r->0 < self@.edges.len(),
    {
        proof {
            use_type_invariant(self);
        }
        let r = edges_index_of(&self.edges, name);
        proof {
            if let Some(i) = r {
                lemma_index_of_unique(edge_entries(self.edges), i as int);
            }
        }
        r
    }

    /// Whether `name` is a declared target.
    pub fn contains(&self, name: &str) -> (r: bool)
        ensures
            r == self@.contains(name@),
    {
        self.position(name).is_some()
    }

    /// The target declared at place `index`, with its dependencies.
    pub fn entry_at(&self, index: usize) -> (r: Option<(&TargetName, &Vec<TargetName>)>)
        ensures
            self@.wf(),
            match r {
                Some((name, deps)) => index < self@.edges.len() && name@
                    == self@.edges[index as int].0 && deps.deep_view()
                    == self@.edges[index as int].1,
                None => index >= self@.edges.len(),
            },
    {
        proof {
            use_type_invariant(self);
        }
        edges_get_index(&self.edges, index)
    }

    /// The dependencies of `name`, in declared order; none for a name that
    /// is not declared.
    pub fn dependencies(&self, name: &str) -> (r: Vec<TargetName>)
        ensures
            r.deep_view() == self@.deps_of(name@),
    {
        match self.position(name) {
            Some(i) => match self.entry_at(i) {
                Some((_, deps)) => clone_names(deps),
                None => Vec::new(),
            },
            None => {
                let r: Vec<TargetName> = Vec::new();
                assert(r.deep_view() =~= Seq::<Seq<char>>::empty());
                r
            },
        }
    }

    /// The declared targets, in order.
    pub fn targets(&self) -> (r: Vec<TargetName>)
        ensures
            r.deep_view() == self@.targets(),
    {
        let n = self.len();
        let mut out: Vec<TargetName> = Vec::new();
        let mut i: usize = 0;
        while i < n
            invariant
                n == self@.edges.len(),
                i <= n,
                out.len() == i,
                forall|k: int| 0 <= k < i ==> out[k]@ == self@.edges[k].0,
            decreases n - i,
        {
            match self.entry_at(i) {
                Some((name, _)) => out.push(name.clone()),
                None => {},
            }
            i += 1;
        }
        assert(out.deep_view() =~= self@.targets());
        out
    }

    /// The entries of the graph, in order: each target with its dependencies.
    pub fn entries(&self) -> (r: Vec<(TargetName, Vec<TargetName>)>)
        ensures
            entries_view(r@) == self@.edges,
            self@.wf(),
    {
        let n = self.len();
        let mut out: Vec<(TargetName, Vec<TargetName>)> = Vec::new();
        let mut i: usize = 0;
        while i < n
            invariant
                n == self@.edges.len(),
                i <= n,
                out.len() == i,
                forall|k: int|
                    0 <= k < i ==> (#[trigger] out[k]).0@ == self@.edges[k].0
                        && out[k].1.deep_view() == self@.edges[k].1,
            decreases n - i,
        {
            match self.entry_at(i) {
                Some((name, deps)) => out.push((name.clone(), clone_names(deps))),
                None => {},
            }
            i += 1;
        }
        assert(entries_view(out@) =~= self@.edges);
        out
    }

    /// The graph that comes of declaring `entries` in order, with the given
    /// default goal.
    pub fn from_entries(
        entries: &Vec<(TargetName, Vec<TargetName>)>,
        default_goal: Option<TargetName>,
    ) -> (g: TargetGraph)
        ensures
            g@ == GraphModel::from_entries(entries_view(entries@), goal_view(default_goal)),
            g@.wf(),
    {
        let ghost all = entries_view(entries@);
        let mut g = TargetGraph::new();
        if let Some(name) = default_goal {
            g.set_default_goal(name);
        }
        let mut i: usize = 0;
        while i < entries.len()
            invariant
                i <= entries.len(),
                all == entries_view(entries@),
                g@.wf(),
                g@.default_goal == goal_view(default_goal),
                g@.edges == declare_all(Seq::empty(), all.take(i as int)),
            decreases entries.len() - i,
        {
            proof {
                assert(all.take(i + 1).drop_last() =~= all.take(i as int));
                assert(all.take(i + 1).last() == all[i as int]);
            }
            g.insert(entries[i].0.clone(), clone_names(&entries[i].1));
            i += 1;
        }
        assert(all.take(entries.len() as int) =~= all);
        g
    }

    /// The goal set by a directive, if any.
    pub fn default_goal(&self) -> (r: Option<TargetName>)
        ensures
            r is Some <==> self@.default_goal is Some,
            r is Some ==> r->0@ == self@.default_goal->0,
    {
        match &self.default_goal {
            Some(name) => Some(name.clone()),
            None => None,
        }
    }

    /// The target built when none is requested: the default goal, or else
    /// the first declared target.
    pub fn default_target(&self) -> (r: Option<TargetName>)
        ensures
            r is Some <==> self@.default_target() is Some,
            r is Some ==> r->0@ == self@.default_target()->0,
    {
        match &self.default_goal {
            Some(name) => Some(name.clone()),
            None => match self.entry_at(0) {
                Some((name, _)) => Some(name.clone()),
                None => None,
            },
        }
    }
}

} // verus!
