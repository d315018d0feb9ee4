//! Dependency graph operations for tickets.
//!
//! Provides:
//! - Building a dependency graph from a set of tickets
//! - Readiness and blockers of a ticket
//! - Cycle detection
//! - Subtree depths
//! - Dependency tree rendering (with box-drawing characters)
//! - Inverse relationships (blocking, children)

use vstd::prelude::*;
use crate::storage::Ticket;
use crate::text::{chars_of, join, opt_view, push_str, str_eq, views};
use crate::types::Status;

verus! {

// ---------------------------------------------------------------------------
// The model a graph is built from
// ---------------------------------------------------------------------------

/// One step of building a graph: a ticket, or one of its dependencies.
pub ghost enum Step {
    /// The ticket `id` is a node.
    Node(Seq<char>),
    /// The ticket `.0` depends on `.1`.
    Edge(Seq<char>, Seq<char>),
}

/// The steps that describe one ticket: its node, then its dependencies in order.
pub open spec fn ticket_steps(id: Seq<char>, deps: Seq<Seq<char>>) -> Seq<Step> {
    seq![Step::Node(id)] + deps.map_values(|d: Seq<char>| Step::Edge(id, d))
}

/// The steps that describe a list of tickets, in order.
pub open spec fn steps_of(ts: Seq<Ticket>) -> Seq<Step>
    decreases ts.len(),
{
    if ts.len() == 0 {
        Seq::empty()
    } else {
        steps_of(ts.drop_last()) + ticket_steps(ts.last().metadata.id@, views(ts.last().metadata.deps@))
    }
}

/// The names a step mentions.
pub open spec fn step_names(s: Step) -> Seq<Seq<char>> {
    match s {
        Step::Node(a) => seq![a],
        Step::Edge(a, b) => seq![a, b],
    }
}

/// The names the steps mention, in order, with repeats.
pub open spec fn names_of(steps: Seq<Step>) -> Seq<Seq<char>>
    decreases steps.len(),
{
    if steps.len() == 0 {
        Seq::empty()
    } else {
        names_of(steps.drop_last()) + step_names(steps.last())
    }
}

/// `s` with every element after its first occurrence removed.
pub open spec fn first_occurrences(s: Seq<Seq<char>>) -> Seq<Seq<char>>
    decreases s.len(),
{
    if s.len() == 0 {
        Seq::empty()
    } else if first_occurrences(s.drop_last()).contains(s.last()) {
        first_occurrences(s.drop_last())
    } else {
        first_occurrences(s.drop_last()).push(s.last())
    }
}

/// The dependencies of `x` that the steps record, in order.
pub open spec fn deps_model(steps: Seq<Step>, x: Seq<char>) -> Seq<Seq<char>>
    decreases steps.len(),
{
    if steps.len() == 0 {
        Seq::empty()
    } else {
        match steps.last() {
            Step::Edge(a, b) => if a == x {
                deps_model(steps.drop_last(), x).push(b)
            } else {
                deps_model(steps.drop_last(), x)
            },
            Step::Node(_) => deps_model(steps.drop_last(), x),
        }
    }
}

/// The dependents of `x` that the steps record, in order.
pub open spec fn dependents_model(steps: Seq<Step>, x: Seq<char>) -> Seq<Seq<char>>
    decreases steps.len(),
{
    if steps.len() == 0 {
        Seq::empty()
    } else {
        match steps.last() {
            Step::Edge(a, b) => if b == x {
                dependents_model(steps.drop_last(), x).push(a)
            } else {
                dependents_model(steps.drop_last(), x)
            },
            Step::Node(_) => dependents_model(steps.drop_last(), x),
        }
    }
}

/// The status recorded for `id`: the last entry for it wins.
pub open spec fn status_of(statuses: Seq<(String, Status)>, id: Seq<char>) -> Option<Status>
    decreases statuses.len(),
{
    if statuses.len() == 0 {
        None
    } else if statuses.last().0@ == id {
        Some(statuses.last().1)
    } else {
        status_of(statuses.drop_last(), id)
    }
}

/// The title recorded for `id`: the last entry for it wins.
pub open spec fn title_of(titles: Seq<(String, String)>, id: Seq<char>) -> Option<Seq<char>>
    decreases titles.len(),
{
    if titles.len() == 0 {
        None
    } else if titles.last().0@ == id {
        Some(titles.last().1@)
    } else {
        title_of(titles.drop_last(), id)
    }
}

/// A ticket `id` is settled when its status is known to be closed.
pub open spec fn is_closed(statuses: Seq<(String, Status)>, id: Seq<char>) -> bool {
    status_of(statuses, id) == Some(Status::Closed)
}

/// The ids among `ds` that are not known to be closed.
pub open spec fn open_among(ds: Seq<Seq<char>>, statuses: Seq<(String, Status)>) -> Seq<Seq<char>>
    decreases ds.len(),
{
    if ds.len() == 0 {
        Seq::empty()
    } else if is_closed(statuses, ds.last()) {
        open_among(ds.drop_last(), statuses)
    } else {
        open_among(ds.drop_last(), statuses).push(ds.last())
    }
}

/// The tickets of `ts` that satisfy `keep`, in order.
pub open spec fn tickets_where(ts: Seq<Ticket>, keep: spec_fn(Ticket) -> bool) -> Seq<Ticket>
    decreases ts.len(),
{
    if ts.len() == 0 {
        Seq::empty()
    } else if keep(ts.last()) {
        tickets_where(ts.drop_last(), keep).push(ts.last())
    } else {
        tickets_where(ts.drop_last(), keep)
    }
}

/// `y` occurs at most once in `ds`.
pub open spec fn at_most_once(ds: Seq<Seq<char>>, y: Seq<char>) -> bool {
    forall|i: int, j: int| 0 <= i < j < ds.len() && ds[i] == y ==> ds[j] != y
}

/// The ids of the tickets, in order.
pub open spec fn ids_of(ts: Seq<Ticket>) -> Seq<Seq<char>> {
    ts.map_values(|t: Ticket| t.metadata.id@)
}

proof fn lemma_dependents_concat(a: Seq<Step>, b: Seq<Step>, y: Seq<char>)
    ensures
        dependents_model(a + b, y) == dependents_model(a, y) + dependents_model(b, y),
    decreases b.len(),
{
    if b.len() == 0 {
        assert(a + b =~= a);
        assert(dependents_model(a, y) + dependents_model(b, y) =~= dependents_model(a, y));
    } else {
        lemma_dependents_concat(a, b.drop_last(), y);
        assert((a + b).drop_last() =~= a + b.drop_last());
        assert((a + b).last() == b.last());
        match b.last() {
            Step::Edge(p, q) => {
                if q == y {
                    assert(dependents_model(a, y) + dependents_model(b, y)
                        =~= (dependents_model(a, y) + dependents_model(b.drop_last(), y)).push(p));
                }
            },
            Step::Node(_) => {},
        }
    }
}

proof fn lemma_dependents_edges(id: Seq<char>, ds: Seq<Seq<char>>, y: Seq<char>)
    requires
        at_most_once(ds, y),
    ensures
        dependents_model(ds.map_values(|d: Seq<char>| Step::Edge(id, d)), y)
            == if ds.contains(y) { seq![id] } else { Seq::<Seq<char>>::empty() },
    decreases ds.len(),
{
    let es = ds.map_values(|d: Seq<char>| Step::Edge(id, d));
    if ds.len() > 0 {
        let front = ds.drop_last();
        assert(at_most_once(front, y));
        lemma_dependents_edges(id, front, y);
        assert(es.drop_last() =~= front.map_values(|d: Seq<char>| Step::Edge(id, d)));
        assert(es.last() == Step::Edge(id, ds.last()));
        if ds.last() == y {
            assert(!front.contains(y)) by {
                if front.contains(y) {
                    let i = choose|i: int| 0 <= i < front.len() && front[i] == y;
                    assert(ds[i] == y && ds[ds.len() - 1] == y);
                }
            }
            assert(ds.contains(y)) by { assert(ds[ds.len() - 1] == y); }
        } else {
            assert(ds.contains(y) <==> front.contains(y)) by {
                if ds.contains(y) {
                    let i = choose|i: int| 0 <= i < ds.len() && ds[i] == y;
                    assert(front[i] == y);
                }
                if front.contains(y) {
                    let i = choose|i: int| 0 <= i < front.len() && front[i] == y;
                    assert(ds[i] == y);
                }
            }
        }
    } else {
        assert(es.len() == 0);
        assert(!ds.contains(y));
    }
}

proof fn lemma_dependents_of_steps(ts: Seq<Ticket>, y: Seq<char>)
    requires
        forall|k: int| 0 <= k < ts.len() ==> at_most_once(views(#[trigger] ts[k].metadata.deps@), y),
    ensures
        dependents_model(steps_of(ts), y)
            == ids_of(tickets_where(ts, |t: Ticket| views(t.metadata.deps@).contains(y))),
    decreases ts.len(),
{
    let keep = |t: Ticket| views(t.metadata.deps@).contains(y);
    if ts.len() == 0 {
        assert(ids_of(tickets_where(ts, keep)) =~= Seq::<Seq<char>>::empty());
    } else {
        let front = ts.drop_last();
        let t = ts.last();
        assert forall|k: int| 0 <= k < front.len() implies at_most_once(views(#[trigger] front[k].metadata.deps@), y) by {
            assert(front[k] == ts[k]);
        }
        lemma_dependents_of_steps(front, y);
        let id = t.metadata.id@;
        let ds = views(t.metadata.deps@);
        assert(at_most_once(ds, y)) by { assert(ts[ts.len() - 1] == t); }
        lemma_dependents_concat(steps_of(front), ticket_steps(id, ds), y);
        lemma_dependents_concat(seq![Step::Node(id)], ds.map_values(|d: Seq<char>| Step::Edge(id, d)), y);
        assert(seq![Step::Node(id)].drop_last() =~= Seq::<Step>::empty());
        assert(seq![Step::Node(id)].last() == Step::Node(id));
        assert(dependents_model(Seq::<Step>::empty(), y) =~= Seq::<Seq<char>>::empty());
        assert(dependents_model(seq![Step::Node(id)], y) =~= Seq::<Seq<char>>::empty());
        lemma_dependents_edges(id, ds, y);
        if keep(t) {
            assert(ids_of(tickets_where(ts, keep)) =~= ids_of(tickets_where(front, keep)).push(id));
        } else {
            assert(ids_of(tickets_where(ts, keep)) =~= ids_of(tickets_where(front, keep)));
        }
    }
}

/// In a graph built from `tickets`, the dependents of `y` are the ids of the
/// tickets that list `y` among their dependencies, in order: the ids of the
/// tickets that `blocking(y, tickets)` returns. This holds where no ticket
/// lists `y` twice; a ticket that does is a dependent once per listing.
pub proof fn lemma_dependents_are_blocking(g: DependencyGraph, tickets: Seq<Ticket>, y: Seq<char>)
    requires
        g.models(steps_of(tickets)),
        forall|k: int| 0 <= k < tickets.len() ==> at_most_once(views(#[trigger] tickets[k].metadata.deps@), y),
    ensures
        g.dependents_of(y) == ids_of(tickets_where(tickets, |t: Ticket| views(t.metadata.deps@).contains(y))),
{
    g.lemma_models(steps_of(tickets));
    lemma_dependents_of_steps(tickets, y);
}

/// What `tickets_where` keeps: only tickets of `ts` that satisfy `keep`, and
/// every one of them.
pub proof fn lemma_tickets_where_members(ts: Seq<Ticket>, keep: spec_fn(Ticket) -> bool)
    ensures
        forall|i: int| 0 <= i < tickets_where(ts, keep).len()
            ==> keep(#[trigger] tickets_where(ts, keep)[i]) && ts.contains(tickets_where(ts, keep)[i]),
        forall|j: int| 0 <= j < ts.len() && keep(#[trigger] ts[j]) ==> tickets_where(ts, keep).contains(ts[j]),
    decreases ts.len(),
{
    if ts.len() > 0 {
        let front = ts.drop_last();
        lemma_tickets_where_members(front, keep);
        let r = tickets_where(ts, keep);
        let rf = tickets_where(front, keep);
        assert forall|i: int| 0 <= i < r.len() implies keep(#[trigger] r[i]) && ts.contains(r[i]) by {
            if i < rf.len() {
                assert(r[i] == rf[i]);
                let j = choose|j: int| 0 <= j < front.len() && front[j] == rf[i];
                assert(ts[j] == r[i]);
            } else {
                assert(r[i] == ts.last());
                assert(ts[ts.len() - 1] == ts.last());
            }
        }
        assert forall|j: int| 0 <= j < ts.len() && keep(#[trigger] ts[j]) implies r.contains(ts[j]) by {
            if j < front.len() {
                assert(front[j] == ts[j]);
                let i = choose|i: int| 0 <= i < rf.len() && rf[i] == front[j];
                assert(r[i] == rf[i]);
            } else {
                assert(ts[j] == ts.last());
                assert(r[r.len() - 1] == ts.last());
            }
        }
    }
}

// ---------------------------------------------------------------------------
// The graph
// ---------------------------------------------------------------------------

/// Directed graph of ticket dependencies.
///
/// `A -> B` means A depends on B (B is a dependency of A).
#[derive(Debug)]
pub struct DependencyGraph {
    /// Every ticket id and every dependency id, each once, in order of first mention.
    nodes: Vec<String>,
    /// `deps[i]`: dependencies of `nodes[i]` (outgoing edges).
    deps: Vec<Vec<String>>,
    /// `dependents[i]`: dependents of `nodes[i]` (incoming edges).
    dependents: Vec<Vec<String>>,
    /// `dep_idx[i][k]`: the position of `deps[i][k]` in `nodes`.
    dep_idx: Vec<Vec<usize>>,
}

/// The ids of each recorded cycle.
pub open spec fn cycle_views(cs: Seq<Cycle>) -> Seq<Seq<Seq<char>>> {
    cs.map_values(|c: Cycle| views(c.ids@))
}

/// Result of a cycle detection.
#[derive(Debug)]
pub struct Cycle {
    /// The cycle as a list of ticket IDs.
    pub ids: Vec<String>,
    /// Formatted cycle string like "A -> B -> C -> A".
    pub display: String,
}

pub open spec fn no_dups(s: Seq<Seq<char>>) -> bool {
    forall|i: int, j: int| 0 <= i < s.len() && 0 <= j < s.len() && i != j ==> s[i] != s[j]
}

impl DependencyGraph {
    /// The node ids, each once, in order of first mention.
    pub closed spec fn node_ids(&self) -> Seq<Seq<char>> {
        views(self.nodes@)
    }

    /// The position of node `x`.
    pub closed spec fn pos(&self, x: Seq<char>) -> int {
        choose|i: int| 0 <= i < self.node_ids().len() && self.node_ids()[i] == x
    }

    /// The dependencies of `x` (empty for an unknown id).
    pub closed spec fn deps_of(&self, x: Seq<char>) -> Seq<Seq<char>> {
        if self.node_ids().contains(x) {
            views(self.deps@[self.pos(x)]@)
        } else {
            Seq::empty()
        }
    }

    /// The dependents of `x` (empty for an unknown id).
    pub closed spec fn dependents_of(&self, x: Seq<char>) -> Seq<Seq<char>> {
        if self.node_ids().contains(x) {
            views(self.dependents@[self.pos(x)]@)
        } else {
            Seq::empty()
        }
    }

    /// `a` depends on `b`.
    pub open spec fn has_edge(&self, a: Seq<char>, b: Seq<char>) -> bool {
        self.deps_of(a).contains(b)
    }

    /// The edge from node `i` to node `j`, by position.
    pub closed spec fn idx_edge(&self, i: int, j: int) -> bool {
        0 <= i < self.dep_idx@.len() && exists|k: int| 0 <= k < self.dep_idx@[i]@.len() && self.dep_idx@[i]@[k] == j
    }

    /// The internal consistency every graph that `build` makes has.
    pub closed spec fn wf(&self) -> bool {
        &&& self.deps@.len() == self.nodes@.len()
        &&& self.dependents@.len() == self.nodes@.len()
        &&& self.dep_idx@.len() == self.nodes@.len()
        &&& no_dups(views(self.nodes@))
        &&& forall|i: int| 0 <= i < self.nodes@.len() ==> #[trigger] self.dep_idx@[i]@.len() == self.deps@[i]@.len()
        &&& forall|i: int, k: int| 0 <= i < self.nodes@.len() && 0 <= k < self.dep_idx@[i]@.len() ==>
            (#[trigger] self.dep_idx@[i]@[k]) < self.nodes@.len()
            && self.nodes@[self.dep_idx@[i]@[k] as int]@ == self.deps@[i]@[k]@
    }

    /// What `build` promises for a list of steps.
    pub closed spec fn models(&self, steps: Seq<Step>) -> bool {
        &&& self.node_ids() == first_occurrences(names_of(steps))
        &&& forall|x: Seq<char>| #[trigger] self.deps_of(x) == deps_model(steps, x)
        &&& forall|x: Seq<char>| #[trigger] self.dependents_of(x) == dependents_model(steps, x)
    }

    /// A graph that models `steps` has as nodes the names the steps mention,
    /// each once, in order of first mention, and for every id the
    /// dependencies and the dependents that the steps record, in order.
    /// With `build`, whose graph models `steps_of(tickets)`, this says what
    /// `get_deps` and `get_dependents` return on a built graph.
    pub proof fn lemma_models(&self, steps: Seq<Step>)
        requires
            self.models(steps),
        ensures
            self.node_ids() == first_occurrences(names_of(steps)),
            forall|x: Seq<char>| #[trigger] self.deps_of(x) == deps_model(steps, x),
            forall|x: Seq<char>| #[trigger] self.dependents_of(x) == dependents_model(steps, x),
    {
    }

    proof fn lemma_pos(&self, i: int)
        requires
            self.wf(),
            0 <= i < self.node_ids().len(),
        ensures
            self.pos(self.node_ids()[i]) == i,
            self.node_ids().contains(self.node_ids()[i]),
    {
        let x = self.node_ids()[i];
        assert(self.node_ids()[i] == x);
        let p = self.pos(x);
        assert(0 <= p < self.node_ids().len() && self.node_ids()[p] == x);
    }

    /// Edges by position and by name agree.
    pub proof fn lemma_idx_edge(&self, i: int, j: int)
        requires
            self.wf(),
            0 <= i < self.node_ids().len(),
            0 <= j < self.node_ids().len(),
        ensures
            self.idx_edge(i, j) <==> self.has_edge(self.node_ids()[i], self.node_ids()[j]),
    {
        self.lemma_pos(i);
        let ds = self.deps_of(self.node_ids()[i]);
        assert(ds == views(self.deps@[i]@));
        if self.idx_edge(i, j) {
            let k = choose|k: int| 0 <= k < self.dep_idx@[i]@.len() && self.dep_idx@[i]@[k] == j;
            assert(ds[k] == self.node_ids()[j]);
        }
        if self.has_edge(self.node_ids()[i], self.node_ids()[j]) {
            let k = choose|k: int| 0 <= k < ds.len() && ds[k] == self.node_ids()[j];
            let jj = self.dep_idx@[i]@[k] as int;
            assert(self.node_ids()[jj] == ds[k]);
            assert(jj == j);
        }
    }

    /// Number of nodes.
    pub closed spec fn size(&self) -> nat {
        self.nodes@.len()
    }

    /// Number of nodes.
    pub fn node_count(&self) -> (n: usize)
        ensures
            n == self.node_ids().len(),
            n == self.size(),
    {
        self.nodes.len()
    }

    /// The position of node `id`, if it is a node.
    fn find(&self, id: &String) -> (r: Option<usize>)
        requires
            self.wf(),
        ensures
            match r {
                Some(i) => i < self.node_ids().len() && self.node_ids()[i as int] == id@
                    && self.pos(id@) == i,
                None => !self.node_ids().contains(id@),
            },
    {
        let mut i: usize = 0;
        while i < self.nodes.len()
            invariant
                i <= self.nodes@.len(),
                self.wf(),
                forall|j: int| 0 <= j < i ==> self.nodes@[j]@ != id@,
            decreases self.nodes@.len() - i,
        {
            if str_eq(&self.nodes[i], id) {
                proof { self.lemma_pos(i as int); }
                return Some(i);
            }
            i = i + 1;
        }
        assert(!self.node_ids().contains(id@)) by {
            if self.node_ids().contains(id@) {
                let j = choose|j: int| 0 <= j < self.node_ids().len() && self.node_ids()[j] == id@;
                assert(self.nodes@[j]@ == self.node_ids()[j]);
            }
        }
        None
    }

    /// The position of node `id`, adding it (with no edges) when it is new.
    fn find_or_add(&mut self, id: &String) -> (r: usize)
        requires
            old(self).wf(),
        ensures
            final(self).wf(),
            final(self).node_ids() == if old(self).node_ids().contains(id@) {
                old(self).node_ids()
            } else {
                old(self).node_ids().push(id@)
            },
            r < final(self).node_ids().len(),
            final(self).node_ids()[r as int] == id@,
            forall|x: Seq<char>| #[trigger] final(self).deps_of(x) == old(self).deps_of(x),
            forall|x: Seq<char>| #[trigger] final(self).dependents_of(x) == old(self).dependents_of(x),
            forall|i: int| 0 <= i < old(self).node_ids().len() ==> #[trigger] final(self).node_ids()[i] == old(self).node_ids()[i],
            final(self).dep_idx@.len() == final(self).node_ids().len(),
            forall|i: int| 0 <= i < old(self).node_ids().len() ==> #[trigger] final(self).dep_idx@[i] == old(self).dep_idx@[i],
            final(self).node_ids().len() == old(self).node_ids().len() ==> final(self).dep_idx@ == old(self).dep_idx@,
    {
        let ghost old_ids = self.node_ids();
        match self.find(id) {
            Some(i) => {
                proof { self.lemma_pos(i as int); }
                i
            },
            None => {
                let n = self.nodes.len();
                self.nodes.push(id.clone());
                self.deps.push(Vec::new());
                self.dependents.push(Vec::new());
                self.dep_idx.push(Vec::new());
                proof {
                    assert(self.node_ids() =~= old_ids.push(id@));
                    assert forall|x: Seq<char>| #[trigger] self.deps_of(x) == old(self).deps_of(x) by {
                        if x == id@ {
                            self.lemma_pos(n as int);
                            assert(views(self.deps@[n as int]@) =~= Seq::<Seq<char>>::empty());
                        } else if old_ids.contains(x) {
                            let p = old(self).pos(x);
                            old(self).lemma_pos(p);
                            self.lemma_pos(p);
                        } else {
                            assert(!self.node_ids().contains(x));
                        }
                    }
                    assert forall|x: Seq<char>| #[trigger] self.dependents_of(x) == old(self).dependents_of(x) by {
                        if x == id@ {
                            self.lemma_pos(n as int);
                            assert(views(self.dependents@[n as int]@) =~= Seq::<Seq<char>>::empty());
                        } else if old_ids.contains(x) {
                            let p = old(self).pos(x);
                            old(self).lemma_pos(p);
                            self.lemma_pos(p);
                        } else {
                            assert(!self.node_ids().contains(x));
                        }
                    }
                }
                n
            },
        }
    }

    /// Records that node `i` depends on node `j`.
    fn add_edge(&mut self, i: usize, j: usize)
        requires
            old(self).wf(),
            i < old(self).node_ids().len(),
            j < old(self).node_ids().len(),
        ensures
            final(self).wf(),
            final(self).node_ids() == old(self).node_ids(),
            forall|x: Seq<char>| #[trigger] final(self).deps_of(x) == if x == old(self).node_ids()[i as int] {
                old(self).deps_of(x).push(old(self).node_ids()[j as int])
            } else {
                old(self).deps_of(x)
            },
            forall|x: Seq<char>| #[trigger] final(self).dependents_of(x) == if x == old(self).node_ids()[j as int] {
                old(self).dependents_of(x).push(old(self).node_ids()[i as int])
            } else {
                old(self).dependents_of(x)
            },
            final(self).dep_idx@.len() == old(self).dep_idx@.len(),
            final(self).dep_idx@[i as int]@ == old(self).dep_idx@[i as int]@.push(j),
            forall|k: int| 0 <= k < old(self).dep_idx@.len() && k != i ==> #[trigger] final(self).dep_idx@[k] == old(self).dep_idx@[k],
    {
        let a = self.nodes[i].clone();
        let b = self.nodes[j].clone();
        self.deps[i].push(b);
        self.dep_idx[i].push(j);
        self.dependents[j].push(a);
        proof {
            let ids = self.node_ids();
            assert(ids == old(self).node_ids());
            assert forall|x: Seq<char>| #[trigger] self.deps_of(x) == if x == ids[i as int] {
                old(self).deps_of(x).push(ids[j as int])
            } else {
                old(self).deps_of(x)
            } by {
                if ids.contains(x) {
                    let p = self.pos(x);
                    self.lemma_pos(p);
                    old(self).lemma_pos(p);
                    if p == i {
                        assert(views(self.deps@[p]@) =~= views(old(self).deps@[p]@).push(ids[j as int]));
                    }
                }
            }
            assert forall|x: Seq<char>| #[trigger] self.dependents_of(x) == if x == ids[j as int] {
                old(self).dependents_of(x).push(ids[i as int])
            } else {
                old(self).dependents_of(x)
            } by {
                if ids.contains(x) {
                    let p = self.pos(x);
                    self.lemma_pos(p);
                    old(self).lemma_pos(p);
                    if p == j {
                        assert(views(self.dependents@[p]@) =~= views(old(self).dependents@[p]@).push(ids[i as int]));
                    }
                }
            }
        }
    }

    /// Build a dependency graph from a list of tickets.
    pub fn build(tickets: &[Ticket]) -> (g: Self)
        ensures
            g.wf(),
            g.models(steps_of(tickets@)),
    {
        let mut g = DependencyGraph { nodes: Vec::new(), deps: Vec::new(), dependents: Vec::new(), dep_idx: Vec::new() };
        let ghost mut steps: Seq<Step> = Seq::empty();
        proof {
            assert(g.node_ids() =~= first_occurrences(names_of(steps)));
        }
        for t in 0..tickets.len()
            invariant
                steps == steps_of(tickets@.take(t as int)),
                g.wf(),
                g.models(steps),
        {
            let ticket = &tickets[t];
            let id = &ticket.metadata.id;
            let ghost before = g;
            let i = g.find_or_add(id);
            proof {
                let st = Step::Node(id@);
                let s2 = steps.push(st);
                lemma_names_push(steps, st);
                assert(names_of(s2) =~= names_of(steps).push(id@));
                lemma_first_occurrences_push(names_of(steps), id@);
                assert forall|x: Seq<char>| #[trigger] g.deps_of(x) == deps_model(s2, x) by {
                    assert(s2.drop_last() == steps);
                }
                assert forall|x: Seq<char>| #[trigger] g.dependents_of(x) == dependents_model(s2, x) by {
                    assert(s2.drop_last() == steps);
                }
                steps = s2;
                assert(g.models(steps));
            }
            let ghost base = steps;
            let ghost ds = views(ticket.metadata.deps@);
            for k in 0..ticket.metadata.deps.len()
                invariant
                    ticket == &tickets@[t as int],
                    id == &ticket.metadata.id,
                    ds == views(ticket.metadata.deps@),
                    steps == base + ds.take(k as int).map_values(|d: Seq<char>| Step::Edge(id@, d)),
                    g.wf(),
                    g.models(steps),
                    i < g.node_ids().len(),
                    g.node_ids()[i as int] == id@,
            {
                let d = &ticket.metadata.deps[k];
                let ghost g1 = g;
                let j = g.find_or_add(d);
                let ghost g2 = g;
                proof {
                    assert(g.node_ids()[i as int] == g1.node_ids()[i as int]);
                }
                g.add_edge(i, j);
                proof {
                    let st = Step::Edge(id@, d@);
                    lemma_names_push(steps, st);
                    let n0 = names_of(steps);
                    assert(names_of(steps.push(st)) =~= n0.push(id@).push(d@));
                    assert(first_occurrences(n0).contains(id@)) by {
                        assert(first_occurrences(n0)[i as int] == id@);
                    }
                    lemma_first_occurrences_push(n0, id@);
                    lemma_first_occurrences_push(n0.push(id@), d@);
                    assert(first_occurrences(n0.push(id@)) == first_occurrences(n0));
                    lemma_first_occurrences_push(n0, d@);
                    let s2 = steps.push(st);
                    assert forall|x: Seq<char>| #[trigger] g.deps_of(x) == deps_model(s2, x) by {
                        assert(s2.drop_last() == steps);
                    }
                    assert forall|x: Seq<char>| #[trigger] g.dependents_of(x) == dependents_model(s2, x) by {
                        assert(s2.drop_last() == steps);
                    }
                    assert(ds.take(k + 1) =~= ds.take(k as int).push(d@));
                    assert(ds.take(k + 1).map_values(|d: Seq<char>| Step::Edge(id@, d))
                        =~= ds.take(k as int).map_values(|d: Seq<char>| Step::Edge(id@, d)).push(st));
                    steps = s2;
                }
            }
            proof {
                assert(ds.take(ds.len() as int) =~= ds);
                assert(tickets@.take(t + 1).drop_last() =~= tickets@.take(t as int));
                assert(steps =~= steps_of(tickets@.take(t + 1)));
            }
        }
        assert(tickets@.take(tickets@.len() as int) =~= tickets@);
        g
    }
}


/// The position of `id` among `statuses`, counting from the end; `statuses.len()` when absent.
pub fn lookup_status(statuses: &[(String, Status)], id: &String) -> (r: Option<Status>)
    ensures
        r == status_of(statuses@, id@),
{
    let mut i = statuses.len();
    assert(statuses@.take(i as int) =~= statuses@);
    while i > 0
        invariant
            i <= statuses@.len(),
            status_of(statuses@, id@) == status_of(statuses@.take(i as int), id@),
        decreases i,
    {
        proof {
            assert(statuses@.take(i as int).drop_last() =~= statuses@.take(i - 1));
        }
        if str_eq(&statuses[i - 1].0, id) {
            return Some(statuses[i - 1].1);
        }
        i = i - 1;
    }
    None
}

/// The title recorded for `id`, if any.
pub fn lookup_title<'a>(titles: &'a [(String, String)], id: &String) -> (r: Option<&'a String>)
    ensures
        opt_view(match r { Some(t) => Some(*t), None => None }) == title_of(titles@, id@),
{
    let mut i = titles.len();
    assert(titles@.take(i as int) =~= titles@);
    while i > 0
        invariant
            i <= titles@.len(),
            title_of(titles@, id@) == title_of(titles@.take(i as int), id@),
        decreases i,
    {
        proof {
            assert(titles@.take(i as int).drop_last() =~= titles@.take(i - 1));
        }
        if str_eq(&titles[i - 1].0, id) {
            return Some(&titles[i - 1].1);
        }
        i = i - 1;
    }
    None
}

/// Whether a looked-up status is `Closed`.
pub fn status_is_closed(s: Option<Status>) -> (r: bool)
    ensures
        r == (s == Some(Status::Closed)),
{
    match s {
        Some(Status::Closed) => true,
        _ => false,
    }
}

/// The closedness of a dependency list: every id is known and closed.
pub open spec fn all_closed(ds: Seq<Seq<char>>, statuses: Seq<(String, Status)>) -> bool {
    forall|k: int| 0 <= k < ds.len() ==> is_closed(statuses, #[trigger] ds[k])
}

/// A ticket is ready when no dependency is left to close.
pub proof fn lemma_open_among_empty(ds: Seq<Seq<char>>, statuses: Seq<(String, Status)>)
    ensures
        open_among(ds, statuses).len() == 0 <==> all_closed(ds, statuses),
    decreases ds.len(),
{
    if ds.len() > 0 {
        lemma_open_among_empty(ds.drop_last(), statuses);
        if all_closed(ds, statuses) {
            assert forall|k: int| 0 <= k < ds.drop_last().len() implies is_closed(statuses, #[trigger] ds.drop_last()[k]) by {
                assert(ds.drop_last()[k] == ds[k]);
            }
            assert(is_closed(statuses, ds[ds.len() - 1]));
        }
        if open_among(ds, statuses).len() == 0 {
            assert(is_closed(statuses, ds.last()));
            assert forall|k: int| 0 <= k < ds.len() implies is_closed(statuses, #[trigger] ds[k]) by {
                if k < ds.len() - 1 {
                    assert(ds[k] == ds.drop_last()[k]);
                }
            }
        }
    }
}

/// A ticket is blocked exactly when it has a blocker: a dependency that is
/// not known to be closed.
pub proof fn lemma_blocked_iff_blockers(ds: Seq<Seq<char>>, statuses: Seq<(String, Status)>)
    ensures
        (!all_closed(ds, statuses) && ds.len() > 0) <==> open_among(ds, statuses).len() > 0,
{
    lemma_open_among_empty(ds, statuses);
}

impl DependencyGraph {
    /// Get the dependencies of a node (empty for an unknown id).
    pub fn get_deps(&self, id: &str) -> (r: &[String])
        requires
            self.wf(),
        ensures
            views(r@) == self.deps_of(id@),
    {
        let key = crate::text::owned(id);
        match self.find(&key) {
            Some(i) => self.deps[i].as_slice(),
            None => {
                let r: &[String] = &[];
                assert(views(r@) =~= Seq::<Seq<char>>::empty());
                r
            },
        }
    }

    /// Get the dependents of a node (empty for an unknown id).
    pub fn get_dependents(&self, id: &str) -> (r: &[String])
        requires
            self.wf(),
        ensures
            views(r@) == self.dependents_of(id@),
    {
        let key = crate::text::owned(id);
        match self.find(&key) {
            Some(i) => self.dependents[i].as_slice(),
            None => {
                let r: &[String] = &[];
                assert(views(r@) =~= Seq::<Seq<char>>::empty());
                r
            },
        }
    }

    /// Check if a ticket has all dependencies closed (an unknown dependency counts as open).
    pub fn is_ready(&self, id: &str, statuses: &[(String, Status)]) -> (r: bool)
        requires
            self.wf(),
        ensures
            r == all_closed(self.deps_of(id@), statuses@),
    {
        let deps = self.get_deps(id);
        let ghost ds = self.deps_of(id@);
        let mut k: usize = 0;
        while k < deps.len()
            invariant
                k <= deps@.len(),
                ds == views(deps@),
                ds == self.deps_of(id@),
                forall|j: int| 0 <= j < k ==> is_closed(statuses@, #[trigger] ds[j]),
            decreases deps@.len() - k,
        {
            if !status_is_closed(lookup_status(statuses, &deps[k])) {
                assert(!is_closed(statuses@, ds[k as int]));
                return false;
            }
            k = k + 1;
        }
        assert(ds.len() == deps@.len());
        true
    }

    /// Check if a ticket has at least one dependency that is not closed.
    pub fn is_blocked(&self, id: &str, statuses: &[(String, Status)]) -> (r: bool)
        requires
            self.wf(),
        ensures
            r == (!all_closed(self.deps_of(id@), statuses@) && self.deps_of(id@).len() > 0),
    {
        !self.is_ready(id, statuses) && self.get_deps(id).len() > 0
    }

    /// Get the list of blocker tickets (dependencies that are not closed).
    pub fn blockers(&self, id: &str, statuses: &[(String, Status)]) -> (r: Vec<String>)
        requires
            self.wf(),
        ensures
            views(r@) == open_among(self.deps_of(id@), statuses@),
    {
        let deps = self.get_deps(id);
        let ghost ds = self.deps_of(id@);
        let mut r: Vec<String> = Vec::new();
        for k in 0..deps.len()
            invariant
                ds == views(deps@),
                ds == self.deps_of(id@),
                views(r@) == open_among(ds.take(k as int), statuses@),
        {
            proof {
                assert(ds.take(k + 1).drop_last() =~= ds.take(k as int));
            }
            if !status_is_closed(lookup_status(statuses, &deps[k])) {
                r.push(deps[k].clone());
                assert(views(r@) =~= open_among(ds.take(k as int), statuses@).push(ds[k as int]));
            }
        }
        assert(ds.take(deps@.len() as int) =~= ds);
        r
    }

    /// Get children of a node: the tickets whose parent is `id`.
    pub fn children<'a>(&self, id: &str, tickets: &'a [Ticket]) -> (r: Vec<&'a Ticket>)
        ensures
            r@.map_values(|t: &Ticket| *t) == tickets_where(tickets@, |t: Ticket| opt_view(t.metadata.parent) == Some(id@)),
    {
        let key = crate::text::owned(id);
        let mut r: Vec<&'a Ticket> = Vec::new();
        let ghost keep = |t: Ticket| opt_view(t.metadata.parent) == Some(id@);
        for k in 0..tickets.len()
            invariant
                key@ == id@,
                keep == |t: Ticket| opt_view(t.metadata.parent) == Some(id@),
                r@.map_values(|t: &Ticket| *t) == tickets_where(tickets@.take(k as int), keep),
        {
            proof {
                assert(tickets@.take(k + 1).drop_last() =~= tickets@.take(k as int));
            }
            let t = &tickets[k];
            let hit = match &t.metadata.parent {
                Some(p) => str_eq(p, &key),
                None => false,
            };
            if hit {
                r.push(t);
                assert(r@.map_values(|t: &Ticket| *t) =~= tickets_where(tickets@.take(k as int), keep).push(tickets@[k as int]));
            } else {
                assert(r@.map_values(|t: &Ticket| *t) =~= tickets_where(tickets@.take(k as int + 1), keep));
            }
        }
        assert(tickets@.take(tickets@.len() as int) =~= tickets@);
        r
    }

    /// Get tickets that this ticket blocks: the tickets that depend on `id`.
    pub fn blocking<'a>(&self, id: &str, tickets: &'a [Ticket]) -> (r: Vec<&'a Ticket>)
        ensures
            r@.map_values(|t: &Ticket| *t) == tickets_where(tickets@, |t: Ticket| views(t.metadata.deps@).contains(id@)),
    {
        let key = crate::text::owned(id);
        let mut r: Vec<&'a Ticket> = Vec::new();
        let ghost keep = |t: Ticket| views(t.metadata.deps@).contains(id@);
        for k in 0..tickets.len()
            invariant
                key@ == id@,
                keep == |t: Ticket| views(t.metadata.deps@).contains(id@),
                r@.map_values(|t: &Ticket| *t) == tickets_where(tickets@.take(k as int), keep),
        {
            proof {
                assert(tickets@.take(k + 1).drop_last() =~= tickets@.take(k as int));
            }
            let t = &tickets[k];
            let hit = contains_string(&t.metadata.deps, &key);
            if hit {
                r.push(t);
                assert(r@.map_values(|t: &Ticket| *t) =~= tickets_where(tickets@.take(k as int), keep).push(tickets@[k as int]));
            } else {
                assert(r@.map_values(|t: &Ticket| *t) =~= tickets_where(tickets@.take(k as int + 1), keep));
            }
        }
        assert(tickets@.take(tickets@.len() as int) =~= tickets@);
        r
    }
}

/// Whether `v` holds a string equal to `s`.
pub fn contains_string(v: &Vec<String>, s: &String) -> (r: bool)
    ensures
        r == views(v@).contains(s@),
{
    let mut i: usize = 0;
    while i < v.len()
        invariant
            i <= v@.len(),
            forall|j: int| 0 <= j < i ==> v@[j]@ != s@,
        decreases v@.len() - i,
    {
        if str_eq(&v[i], s) {
            assert(views(v@)[i as int] == s@);
            return true;
        }
        i = i + 1;
    }
    assert(!views(v@).contains(s@)) by {
        if views(v@).contains(s@) {
            let j = choose|j: int| 0 <= j < views(v@).len() && views(v@)[j] == s@;
            assert(v@[j]@ == views(v@)[j]);
        }
    }
    false
}


// ---------------------------------------------------------------------------
// Cycles
// ---------------------------------------------------------------------------

/// Strict lexicographic order of strings, by code point (the order of `String`).
pub open spec fn lex_lt(a: Seq<char>, b: Seq<char>) -> bool
    decreases a.len(),
{
    if a.len() == 0 {
        b.len() > 0
    } else if b.len() == 0 {
        false
    } else if (a[0] as u32) < (b[0] as u32) {
        true
    } else if (a[0] as u32) > (b[0] as u32) {
        false
    } else {
        lex_lt(a.drop_first(), b.drop_first())
    }
}

/// No string comes before itself.
pub proof fn lemma_lex_irreflexive(a: Seq<char>)
    ensures
        !lex_lt(a, a),
    decreases a.len(),
{
    if a.len() > 0 {
        lemma_lex_irreflexive(a.drop_first());
    }
}

/// The order of strings is transitive.
pub proof fn lemma_lex_transitive(a: Seq<char>, b: Seq<char>, c: Seq<char>)
    requires
        lex_lt(a, b),
        lex_lt(b, c),
    ensures
        lex_lt(a, c),
    decreases a.len(),
{
    if a.len() > 0 && b.len() > 0 && c.len() > 0 {
        if (a[0] as u32) == (b[0] as u32) && (b[0] as u32) == (c[0] as u32) {
            lemma_lex_transitive(a.drop_first(), b.drop_first(), c.drop_first());
        }
    }
}

/// Of two different strings, one comes before the other.
pub proof fn lemma_lex_total(a: Seq<char>, b: Seq<char>)
    ensures
        a == b || lex_lt(a, b) || lex_lt(b, a),
    decreases a.len(),
{
    if a.len() > 0 && b.len() > 0 && (a[0] as u32) == (b[0] as u32) {
        lemma_lex_total(a.drop_first(), b.drop_first());
        if a.drop_first() == b.drop_first() {
            vstd::utf8::char_u32_cast(a[0], a[0] as u32);
            vstd::utf8::char_u32_cast(b[0], b[0] as u32);
            assert(a[0] == b[0]);
            assert(a =~= seq![a[0]] + a.drop_first());
            assert(b =~= seq![b[0]] + b.drop_first());
        }
    } else if a.len() == 0 && b.len() == 0 {
        assert(a =~= b);
    }
}

/// The order of strings is asymmetric.
pub proof fn lemma_lex_asymmetric(a: Seq<char>, b: Seq<char>)
    requires
        lex_lt(a, b),
    ensures
        !lex_lt(b, a),
{
    if lex_lt(b, a) {
        lemma_lex_transitive(a, b, a);
        lemma_lex_irreflexive(a);
    }
}

/// Position of the first smallest string of `s`.
pub open spec fn min_index(s: Seq<Seq<char>>) -> int
    decreases s.len(),
{
    if s.len() <= 1 {
        0
    } else {
        let m = min_index(s.drop_last());
        if lex_lt(s.last(), s[m]) { s.len() - 1 } else { m }
    }
}

/// `s` rotated left by `m` places.
pub open spec fn rotate(s: Seq<Seq<char>>, m: int) -> Seq<Seq<char>> {
    s.skip(m) + s.take(m)
}

/// A cycle written from its smallest id, comma separated: equal for all rotations.
pub open spec fn normalized(ids: Seq<Seq<char>>) -> Seq<char> {
    if ids.len() == 0 {
        Seq::empty()
    } else {
        join(rotate(ids, min_index(ids)), seq![','])
    }
}

/// `s` holds no comma.
pub open spec fn comma_free_text(s: Seq<char>) -> bool {
    !s.contains(',')
}

/// Comma-free pieces joined by commas can be told apart again: the joined
/// text determines the pieces.
proof fn lemma_join_comma_injective(a: Seq<Seq<char>>, b: Seq<Seq<char>>)
    requires
        a.len() > 0,
        b.len() > 0,
        forall|i: int| 0 <= i < a.len() ==> comma_free_text(#[trigger] a[i]),
        forall|i: int| 0 <= i < b.len() ==> comma_free_text(#[trigger] b[i]),
        join(a, seq![',']) == join(b, seq![',']),
    ensures
        a == b,
    decreases a.len() + b.len(),
{
    let s = join(a, seq![',']);
    if a.len() == 1 && b.len() == 1 {
        assert(a =~= b);
    } else if a.len() == 1 {
        let x = join(b.drop_last(), seq![',']);
        assert(s == x + seq![','] + b.last());
        assert(s[x.len() as int] == ',');
        assert(comma_free_text(a[0]));
        assert(s == a[0]);
        assert(a[0].contains(','));
    } else if b.len() == 1 {
        let x = join(a.drop_last(), seq![',']);
        assert(s == x + seq![','] + a.last());
        assert(s[x.len() as int] == ',');
        assert(comma_free_text(b[0]));
        assert(s == b[0]);
        assert(b[0].contains(','));
    } else {
        let xa = join(a.drop_last(), seq![',']);
        let xb = join(b.drop_last(), seq![',']);
        let l = a.last();
        let m = b.last();
        assert(comma_free_text(a[a.len() - 1]));
        assert(comma_free_text(b[b.len() - 1]));
        assert(s == xa + seq![','] + l);
        assert(s == xb + seq![','] + m);
        if l.len() < m.len() {
            let p = s.len() - 1 - l.len();
            assert(s[p] == ',');
            assert(s[p] == m[m.len() - 1 - l.len()]);
            assert(m.contains(','));
        } else if m.len() < l.len() {
            let p = s.len() - 1 - m.len();
            assert(s[p] == ',');
            assert(s[p] == l[l.len() - 1 - m.len()]);
            assert(l.contains(','));
        } else {
            assert(l =~= s.skip(s.len() - l.len()));
            assert(m =~= s.skip(s.len() - m.len()));
            assert(xa =~= s.take(s.len() - l.len() - 1));
            assert(xb =~= s.take(s.len() - m.len() - 1));
            assert forall|i: int| 0 <= i < a.drop_last().len() implies comma_free_text(#[trigger] a.drop_last()[i]) by {
                assert(a.drop_last()[i] == a[i]);
            }
            assert forall|i: int| 0 <= i < b.drop_last().len() implies comma_free_text(#[trigger] b.drop_last()[i]) by {
                assert(b.drop_last()[i] == b[i]);
            }
            lemma_join_comma_injective(a.drop_last(), b.drop_last());
            assert(a =~= a.drop_last().push(l));
            assert(b =~= b.drop_last().push(m));
        }
    }
}

/// Two cycles of comma-free ids with the same normalized text have the same
/// members: the first id of one is an id of the other.
proof fn lemma_normalized_member(a: Seq<Seq<char>>, b: Seq<Seq<char>>)
    requires
        a.len() > 0,
        b.len() > 0,
        forall|i: int| 0 <= i < a.len() ==> comma_free_text(#[trigger] a[i]),
        forall|i: int| 0 <= i < b.len() ==> comma_free_text(#[trigger] b[i]),
        normalized(a) == normalized(b),
    ensures
        b.contains(a[0]),
{
    lemma_min_index_bounds(a);
    lemma_min_index_bounds(b);
    let ma = min_index(a);
    let mb = min_index(b);
    let ra = rotate(a, ma);
    let rb = rotate(b, mb);
    assert forall|i: int| 0 <= i < ra.len() implies comma_free_text(#[trigger] ra[i]) by {
        if i < a.len() - ma {
            assert(ra[i] == a[i + ma]);
        } else {
            assert(ra[i] == a[i - (a.len() - ma)]);
        }
    }
    assert forall|i: int| 0 <= i < rb.len() implies comma_free_text(#[trigger] rb[i]) by {
        if i < b.len() - mb {
            assert(rb[i] == b[i + mb]);
        } else {
            assert(rb[i] == b[i - (b.len() - mb)]);
        }
    }
    lemma_join_comma_injective(ra, rb);
    let j = if ma == 0 { 0 } else { a.len() - ma };
    assert(ra[j] == a[0]);
    if j < b.len() - mb {
        assert(rb[j] == b[j + mb]);
    } else {
        assert(rb[j] == b[j - (b.len() - mb)]);
    }
}

/// "A -> B -> C -> A" for the cycle `[A, B, C]`.
pub open spec fn cycle_display(ids: Seq<Seq<char>>) -> Seq<char> {
    join(ids, seq![' ', '-', '>', ' ']) + seq![' ', '-', '>', ' '] + ids[0]
}

proof fn lemma_min_index_bounds(s: Seq<Seq<char>>)
    ensures
        s.len() > 0 ==> 0 <= min_index(s) < s.len(),
    decreases s.len(),
{
    if s.len() > 1 {
        lemma_min_index_bounds(s.drop_last());
    }
}

/// Whether `a < b` in the order of strings.
pub fn lex_less(a: &String, b: &String) -> (r: bool)
    ensures
        r == lex_lt(a@, b@),
{
    let x = chars_of(a.as_str());
    let y = chars_of(b.as_str());
    let mut i: usize = 0;
    proof {
        assert(x@.skip(0) =~= x@);
        assert(y@.skip(0) =~= y@);
    }
    loop
        invariant
            x@ == a@,
            y@ == b@,
            i <= x@.len(),
            i <= y@.len(),
            lex_lt(a@, b@) == lex_lt(x@.skip(i as int), y@.skip(i as int)),
        decreases x@.len() - i,
    {
        if i == x.len() {
            return i < y.len();
        }
        if i == y.len() {
            return false;
        }
        let c = x[i] as u32;
        let d = y[i] as u32;
        if c < d {
            return true;
        }
        if c > d {
            return false;
        }
        proof {
            assert(x@.skip(i as int).drop_first() =~= x@.skip(i + 1));
            assert(y@.skip(i as int).drop_first() =~= y@.skip(i + 1));
        }
        i = i + 1;
    }
}

/// A copy of `ids` rotated left by `m` places.
fn rotated(ids: &[String], m: usize) -> (rot: Vec<String>)
    requires
        m < ids@.len(),
    ensures
        views(rot@) == rotate(views(ids@), m as int),
{
    let ghost vs = views(ids@);
    let ghost target = rotate(vs, m as int);
    let n = ids.len();
    let mut rot: Vec<String> = Vec::new();
    proof {
        assert(target.len() == n);
        assert forall|i: int| 0 <= i < n implies #[trigger] target[i] == vs[if i < n - m { m + i } else { i - (n - m) }] by {
            if i < n - m {
                assert(target[i] == vs.skip(m as int)[i]);
            } else {
                assert(target[i] == vs.take(m as int)[i - (n - m)]);
            }
        }
    }
    for i in 0..n
        invariant
            n == ids@.len(),
            m < n,
            vs == views(ids@),
            target.len() == n,
            forall|t: int| 0 <= t < n ==> #[trigger] target[t] == vs[if t < n - m { m + t } else { t - (n - m) }],
            views(rot@) == target.take(i as int),
    {
        let j = if i < n - m { m + i } else { i - (n - m) };
        let c = ids[j].clone();
        proof {
            assert(c@ == vs[j as int]);
            assert(target[i as int] == vs[j as int]);
        }
        let ghost before = views(rot@);
        rot.push(c);
        assert(views(rot@) =~= before.push(c@));
        assert(views(rot@) =~= target.take(i + 1));
    }
    assert(target.take(n as int) =~= target);
    rot
}

/// Normalize a cycle by starting from the smallest ID (lexicographically),
/// the ids joined with commas.
pub fn normalize_cycle(ids: &[String]) -> (r: String)
    ensures
        r@ == normalized(views(ids@)),
{
    let ghost vs = views(ids@);
    if ids.len() == 0 {
        return String::new();
    }
    let mut m: usize = 0;
    let mut k: usize = 1;
    while k < ids.len()
        invariant
            1 <= k <= ids@.len(),
            vs == views(ids@),
            m == min_index(vs.take(k as int)),
            m < k,
        decreases ids@.len() - k,
    {
        proof {
            assert(vs.take(k + 1).drop_last() =~= vs.take(k as int));
            assert(vs.take(k as int)[m as int] == vs[m as int]);
        }
        if lex_less(&ids[k], &ids[m]) {
            m = k;
        }
        k = k + 1;
    }
    assert(vs.take(ids@.len() as int) =~= vs);
    let rot = rotated(ids, m);
    let r = crate::text::join_strings(&rot, ",");
    proof {
        reveal_strlit(",");
        assert(","@ =~= seq![',']);
    }
    r
}

/// The first position of `x` in `path`.
fn position(path: &Vec<usize>, x: usize) -> (r: Option<usize>)
    ensures
        match r {
            Some(k) => k < path@.len() && path@[k as int] == x,
            None => !path@.contains(x),
        },
{
    let mut k: usize = 0;
    while k < path.len()
        invariant
            k <= path@.len(),
            forall|j: int| 0 <= j < k ==> path@[j] != x,
        decreases path@.len() - k,
    {
        if path[k] == x {
            return Some(k);
        }
        k = k + 1;
    }
    None
}

fn copy_path(p: &Vec<usize>) -> (r: Vec<usize>)
    ensures
        r@ == p@,
{
    let mut r: Vec<usize> = Vec::new();
    for i in 0..p.len()
        invariant
            r@ == p@.take(i as int),
    {
        r.push(p[i]);
        assert(r@ =~= p@.take(i + 1));
    }
    assert(p@.take(p@.len() as int) =~= p@);
    r
}

/// Number of non-zero entries.
pub open spec fn marked_count(s: Seq<u8>) -> nat
    decreases s.len(),
{
    if s.len() == 0 {
        0
    } else {
        marked_count(s.drop_last()) + if s.last() != 0 { 1nat } else { 0nat }
    }
}

proof fn lemma_marked_update(s: Seq<u8>, i: int, v: u8)
    requires
        0 <= i < s.len(),
    ensures
        marked_count(s.update(i, v)) + (if s[i] != 0 { 1int } else { 0int })
            == marked_count(s) + (if v != 0 { 1int } else { 0int }),
    decreases s.len(),
{
    if i < s.len() - 1 {
        assert(s.update(i, v).drop_last() =~= s.drop_last().update(i, v));
        lemma_marked_update(s.drop_last(), i, v);
    } else {
        assert(s.update(i, v).drop_last() =~= s.drop_last());
    }
}

proof fn lemma_marked_bound(s: Seq<u8>, i: int)
    ensures
        marked_count(s) <= s.len(),
        0 <= i < s.len() && s[i] == 0 ==> marked_count(s) < s.len(),
    decreases s.len(),
{
    if s.len() > 0 {
        lemma_marked_bound(s.drop_last(), i);
        if 0 <= i < s.len() - 1 && s[i] == 0 {
            assert(s.drop_last()[i] == 0);
        }
    }
}

// ---------------------------------------------------------------------------
// What the depth-first search keeps: its stack and the finished nodes
// ---------------------------------------------------------------------------

/// The gray nodes of the search below stack position `e`, bottom first: the
/// nodes of the entries below `e` that mark a node being searched.
spec fn chain_below(stack: Seq<(usize, Vec<usize>)>, kind: Seq<bool>, e: int) -> Seq<usize>
    decreases e,
{
    if e <= 0 {
        Seq::empty()
    } else if kind[e - 1] {
        chain_below(stack, kind, e - 1).push(stack[e - 1].0)
    } else {
        chain_below(stack, kind, e - 1)
    }
}

proof fn lemma_chain_agree(
    s1: Seq<(usize, Vec<usize>)>,
    k1: Seq<bool>,
    s2: Seq<(usize, Vec<usize>)>,
    k2: Seq<bool>,
    e: int,
)
    requires
        0 <= e,
        e <= s1.len(),
        e <= s2.len(),
        e <= k1.len(),
        e <= k2.len(),
        forall|i: int| 0 <= i < e ==> (#[trigger] s1[i]).0 == s2[i].0 && k1[i] == k2[i],
    ensures
        chain_below(s1, k1, e) == chain_below(s2, k2, e),
    decreases e,
{
    if e > 0 {
        assert(s1[e - 1].0 == s2[e - 1].0 && k1[e - 1] == k2[e - 1]);
        assert forall|i: int| 0 <= i < e - 1 implies (#[trigger] s1[i]).0 == s2[i].0 && k1[i] == k2[i] by {
            assert(0 <= i < e);
        }
        lemma_chain_agree(s1, k1, s2, k2, e - 1);
    }
}

/// A marking entry below `t` has its node among the gray nodes below `t`.
proof fn lemma_chain_contains(stack: Seq<(usize, Vec<usize>)>, kind: Seq<bool>, e: int, t: int)
    requires
        0 <= e < t,
        t <= stack.len(),
        t <= kind.len(),
        kind[e],
    ensures
        chain_below(stack, kind, t).contains(stack[e].0),
    decreases t,
{
    if t - 1 == e {
        let c = chain_below(stack, kind, t - 1);
        assert(c.push(stack[e].0)[c.len() as int] == stack[e].0);
    } else {
        lemma_chain_contains(stack, kind, e, t - 1);
        let c = chain_below(stack, kind, t - 1);
        let x = stack[e].0;
        let i = choose|i: int| 0 <= i < c.len() && c[i] == x;
        if kind[t - 1] {
            assert(c.push(stack[t - 1].0)[i] == x);
        }
    }
}

/// Every gray node below `t` is the node of a marking entry below `t`.
proof fn lemma_chain_members(stack: Seq<(usize, Vec<usize>)>, kind: Seq<bool>, t: int, x: usize)
    requires
        0 <= t <= stack.len(),
        t <= kind.len(),
        chain_below(stack, kind, t).contains(x),
    ensures
        exists|e: int| 0 <= e < t && kind[e] && stack[e].0 == x,
    decreases t,
{
    let c = chain_below(stack, kind, t - 1);
    if kind[t - 1] && stack[t - 1].0 == x {
    } else {
        if kind[t - 1] {
            let cp = c.push(stack[t - 1].0);
            let i = choose|i: int| 0 <= i < cp.len() && #[trigger] cp[i] == x;
            assert(i < c.len());
            assert(cp[i] == c[i]);
            assert(c[i] == x);
        }
        lemma_chain_members(stack, kind, t - 1, x);
    }
}

/// Marking entries with distinct nodes make distinct gray nodes.
proof fn lemma_chain_distinct(stack: Seq<(usize, Vec<usize>)>, kind: Seq<bool>, t: int)
    requires
        0 <= t <= stack.len(),
        t <= kind.len(),
        forall|e1: int, e2: int|
            0 <= e1 < e2 < t && #[trigger] kind[e1] && #[trigger] kind[e2] ==> stack[e1].0 != stack[e2].0,
    ensures
        forall|i: int, j: int|
            0 <= i < j < chain_below(stack, kind, t).len() ==> chain_below(stack, kind, t)[i] != chain_below(
                stack,
                kind,
                t,
            )[j],
    decreases t,
{
    if t > 0 {
        lemma_chain_distinct(stack, kind, t - 1);
        let c = chain_below(stack, kind, t - 1);
        if kind[t - 1] {
            let x = stack[t - 1].0;
            assert forall|i: int, j: int| 0 <= i < j < c.push(x).len() implies c.push(x)[i] != c.push(x)[j] by {
                if j == c.len() {
                    if c[i] == x {
                        assert(c.contains(x));
                        lemma_chain_members(stack, kind, t - 1, x);
                        let e = choose|e: int| 0 <= e < t - 1 && kind[e] && stack[e].0 == x;
                        assert(kind[e] && kind[t - 1]);
                    }
                }
            }
        }
    }
}

/// Above a marking entry at `t` and no other up to `e`, the gray nodes are
/// those below `t` and the node at `t`.
proof fn lemma_chain_from(stack: Seq<(usize, Vec<usize>)>, kind: Seq<bool>, t: int, e: int)
    requires
        0 <= t < e,
        e <= stack.len(),
        e <= kind.len(),
        kind[t],
        forall|i: int| t < i < e ==> !kind[i],
    ensures
        chain_below(stack, kind, e) == chain_below(stack, kind, t).push(stack[t].0),
    decreases e,
{
    if e > t + 1 {
        lemma_chain_from(stack, kind, t, e - 1);
    }
}

impl DependencyGraph {
    /// The node at position `u` reaches, and is reached from, an id of a
    /// recorded cycle (where an id holds a comma, any recorded cycle will do).
    closed spec fn covered(&self, cs: Seq<Seq<Seq<char>>>, u: int) -> bool {
        ||| cs.len() > 0 && !self.comma_free()
        ||| exists|i: int, k: int| 0 <= i < cs.len() && 0 <= k < cs[i].len()
            && self.strongly_connected(self.node_ids()[u], #[trigger] cs[i][k])
    }

    /// Recording more cycles keeps a node covered.
    proof fn lemma_covered_mono(&self, cs: Seq<Seq<Seq<char>>>, cs2: Seq<Seq<Seq<char>>>, u: int)
        requires
            cs.len() <= cs2.len(),
            forall|i: int| 0 <= i < cs.len() ==> #[trigger] cs2[i] == cs[i],
            self.covered(cs, u),
        ensures
            self.covered(cs2, u),
    {
        if !(cs.len() > 0 && !self.comma_free()) {
            let (i, k) = choose|i: int, k: int| 0 <= i < cs.len() && 0 <= k < cs[i].len()
                && self.strongly_connected(self.node_ids()[u], #[trigger] cs[i][k]);
            assert(cs2[i] == cs[i]);
            assert(cs2[i][k] == cs[i][k]);
        }
    }

    /// Recording more cycles keeps the ranks in order.
    proof fn lemma_ranks_mono(&self, fin: Seq<bool>, rank: Seq<int>, cs: Seq<Seq<Seq<char>>>, cs2: Seq<Seq<Seq<char>>>)
        requires
            self.ranks_ok(fin, rank, cs),
            cs.len() <= cs2.len(),
            forall|i: int| 0 <= i < cs.len() ==> #[trigger] cs2[i] == cs[i],
        ensures
            self.ranks_ok(fin, rank, cs2),
    {
        assert forall|u: int, k: int|
            0 <= u < self.node_ids().len() && fin[u] && 0 <= k < self.dep_idx@[u]@.len() implies self.covered(cs2, u) || (fin[
                #[trigger] self.dep_idx@[u]@[k] as int
            ] && rank[self.dep_idx@[u]@[k] as int] < rank[u]) by {
            if self.covered(cs, u) {
                self.lemma_covered_mono(cs, cs2, u);
            }
        }
    }

    /// Every finished node finished after each of its dependencies, unless it
    /// is covered by a recorded cycle.
    closed spec fn ranks_ok(&self, fin: Seq<bool>, rank: Seq<int>, cs: Seq<Seq<Seq<char>>>) -> bool {
        forall|u: int, k: int|
            0 <= u < self.node_ids().len() && fin[u] && 0 <= k < self.dep_idx@[u]@.len() ==> self.covered(cs, u) || (fin[
                #[trigger] self.dep_idx@[u]@[k] as int
            ] && rank[self.dep_idx@[u]@[k] as int] < rank[u])
    }

    /// Black nodes are finished, white ones are not, and every finish came
    /// before the clock.
    closed spec fn marks_ok(&self, state: Seq<u8>, fin: Seq<bool>, rank: Seq<int>, clock: int) -> bool {
        &&& state.len() == self.node_ids().len()
        &&& fin.len() == self.node_ids().len()
        &&& rank.len() == self.node_ids().len()
        &&& forall|j: int|
            #![trigger state[j]]
            #![trigger fin[j]]
            0 <= j < self.node_ids().len() ==> {
                &&& state[j] <= 2
                &&& state[j] == 2 ==> fin[j]
                &&& state[j] == 0 ==> !fin[j]
                &&& fin[j] ==> rank[j] < clock
            }
    }

    /// The search stack: each entry's walk is the gray nodes below it; a
    /// marking entry holds a gray unfinished node, each once; every gray
    /// unfinished node is marked; and each dependency of a marked node is
    /// finished or still to come above it, unless the marked node is covered
    /// by a recorded cycle.
    closed spec fn stack_ok(
        &self,
        state: Seq<u8>,
        stack: Seq<(usize, Vec<usize>)>,
        kind: Seq<bool>,
        fin: Seq<bool>,
        cs: Seq<Seq<Seq<char>>>,
    ) -> bool {
        &&& kind.len() == stack.len()
        &&& forall|e: int|
            0 <= e < stack.len() ==> (#[trigger] stack[e]).1@ == chain_below(stack, kind, e) && stack[e].0
                < self.node_ids().len()
        &&& forall|e: int|
            0 <= e < stack.len() && #[trigger] kind[e] ==> state[stack[e].0 as int] == 1 && !fin[stack[e].0 as int]
        &&& forall|e1: int, e2: int|
            0 <= e1 < e2 < stack.len() && #[trigger] kind[e1] && #[trigger] kind[e2] ==> stack[e1].0 != stack[e2].0
        &&& forall|j: int|
            0 <= j < self.node_ids().len() && #[trigger] state[j] == 1 && !fin[j] ==> exists|e: int|
                0 <= e < stack.len() && kind[e] && (#[trigger] stack[e]).0 == j
        &&& forall|e: int, k: int|
            #![trigger kind[e], self.dep_idx@[stack[e].0 as int]@[k]]
            0 <= e < stack.len() && kind[e] && 0 <= k < self.dep_idx@[stack[e].0 as int]@.len() ==> self.covered(cs, stack[e].0 as int)
                || fin[self.dep_idx@[stack[e].0 as int]@[k] as int] || exists|e2: int|
                e < e2 < stack.len() && (#[trigger] stack[e2]).0 == self.dep_idx@[stack[e].0 as int]@[k]
    }

    /// The search of a root starts with the root alone on the stack, where
    /// no node is gray.
    proof fn lemma_start_root(
        &self,
        state: Seq<u8>,
        stack: Seq<(usize, Vec<usize>)>,
        kind: Seq<bool>,
        fin: Seq<bool>,
        rank: Seq<int>,
        clock: int,
        cs: Seq<Seq<Seq<char>>>,
    )
        requires
            self.marks_ok(state, fin, rank, clock),
            forall|j: int| 0 <= j < self.node_ids().len() ==> #[trigger] state[j] != 1,
            stack.len() == 1,
            stack[0].0 < self.node_ids().len(),
            stack[0].1@ == Seq::<usize>::empty(),
            kind == seq![false],
        ensures
            self.stack_ok(state, stack, kind, fin, cs),
    {
        assert(chain_below(stack, kind, 0) == Seq::<usize>::empty());
    }

    /// Popping an entry that is no marker, whose node is finished, or gray
    /// and off its walk, or gray on its walk once the cycle it closes is
    /// recorded in `cs2`.
    #[verifier::rlimit(60)]
    #[verifier::spinoff_prover]
    proof fn lemma_pop_plain(
        &self,
        state: Seq<u8>,
        s: Seq<(usize, Vec<usize>)>,
        kind: Seq<bool>,
        fin: Seq<bool>,
        rank: Seq<int>,
        clock: int,
        cs: Seq<Seq<Seq<char>>>,
        cs2: Seq<Seq<Seq<char>>>,
    )
        requires
            self.wf(),
            self.stack_ok(state, s, kind, fin, cs),
            self.marks_ok(state, fin, rank, clock),
            forall|e: int| 0 <= e < s.len() ==> self.walk((#[trigger] s[e]).1@.push(s[e].0)),
            s.len() > 0,
            !kind[s.len() - 1],
            cs.len() <= cs2.len(),
            forall|i: int| 0 <= i < cs.len() ==> #[trigger] cs2[i] == cs[i],
            fin[s.last().0 as int] || state[s.last().0 as int] == 2 || (state[s.last().0 as int] == 1
                && !s.last().1@.contains(s.last().0))
                || (state[s.last().0 as int] == 1 && cs2.len() > 0 && (self.comma_free() ==> exists|i: int|
                    0 <= i < cs2.len() && (#[trigger] cs2[i]).contains(self.node_ids()[s.last().0 as int]))),
        ensures
            self.stack_ok(state, s.drop_last(), kind.drop_last(), fin, cs2),
    {
        let t = s.len() - 1;
        let cur = s[t].0;
        assert(s.last() == s[t]);
        assert(cur < self.node_ids().len());
        let recorded = !(fin[cur as int] || state[cur as int] == 2 || (state[cur as int] == 1
            && !s[t].1@.contains(cur)));
        let s2 = s.drop_last();
        let k2 = kind.drop_last();
        assert forall|e: int| 0 <= e < s2.len() implies (#[trigger] s2[e]).1@ == chain_below(s2, k2, e) && s2[e].0
            < self.node_ids().len() by {
            assert(s2[e] == s[e]);
            assert forall|i: int| 0 <= i < e implies (#[trigger] s2[i]).0 == s[i].0 && k2[i] == kind[i] by {}
            lemma_chain_agree(s2, k2, s, kind, e);
        }
        assert forall|e: int| 0 <= e < s2.len() && #[trigger] k2[e] implies state[s2[e].0 as int] == 1
            && !fin[s2[e].0 as int] by {
            assert(kind[e] && s2[e] == s[e]);
        }
        assert forall|e1: int, e2: int| 0 <= e1 < e2 < s2.len() && #[trigger] k2[e1] && #[trigger] k2[e2] implies s2[e1].0
            != s2[e2].0 by {
            assert(kind[e1] && kind[e2] && s2[e1] == s[e1] && s2[e2] == s[e2]);
        }
        assert forall|j: int| 0 <= j < self.node_ids().len() && #[trigger] state[j] == 1 && !fin[j] implies exists|e: int|
            0 <= e < s2.len() && k2[e] && (#[trigger] s2[e]).0 == j by {
            let e = choose|e: int| 0 <= e < s.len() && kind[e] && (#[trigger] s[e]).0 == j;
            assert(e != t);
            assert(s2[e] == s[e] && k2[e] == kind[e]);
        }
        assert forall|e: int, k: int|
            #![trigger k2[e], self.dep_idx@[s2[e].0 as int]@[k]]
            0 <= e < s2.len() && k2[e] && 0 <= k < self.dep_idx@[s2[e].0 as int]@.len() implies self.covered(cs2, s2[e].0 as int)
                || fin[self.dep_idx@[s2[e].0 as int]@[k] as int] || exists|e2: int|
                e < e2 < s2.len() && (#[trigger] s2[e2]).0 == self.dep_idx@[s2[e].0 as int]@[k] by {
            assert(kind[e] && s2[e] == s[e]);
            let m = s[e].0;
            let w = self.dep_idx@[m as int]@[k];
            if self.covered(cs, m as int) {
                self.lemma_covered_mono(cs, cs2, m as int);
            } else if !fin[w as int] {
                assert(exists|e2: int| e < e2 < s.len() && (#[trigger] s[e2]).0 == w);
                let e2 = choose|e2: int| e < e2 < s.len() && (#[trigger] s[e2]).0 == w;
                if e2 != t {
                    assert(s2[e2] == s[e2]);
                } else {
                    assert(w == cur);
                    assert(state[cur as int] <= 2);
                    if state[cur as int] == 2 {
                        assert(fin[cur as int]);
                    }
                    assert(state[cur as int] == 1);
                    let pw = choose|pw: int| 0 <= pw < s.len() && kind[pw] && (#[trigger] s[pw]).0 == cur;
                    assert(pw != t);
                    lemma_chain_contains(s, kind, pw, t);
                    assert(s[t].1@.contains(cur));
                    assert(recorded);
                    if pw > e {
                        assert(s2[pw] == s[pw]);
                        assert(e < pw < s2.len() && s2[pw].0 == w);
                    } else if !(cs2.len() > 0 && !self.comma_free()) {
                        let i = choose|i: int| 0 <= i < cs2.len() && (#[trigger] cs2[i]).contains(self.node_ids()[cur as int]);
                        let kk = choose|kk: int| 0 <= kk < cs2[i].len() && cs2[i][kk] == self.node_ids()[cur as int];
                        let nm = self.node_ids()[m as int];
                        let nc = self.node_ids()[cur as int];
                        if pw == e {
                            assert(m == cur);
                            self.lemma_reaches_self(nc);
                        } else {
                            // The node `cur` is gray below `m`: it reaches `m`, and `m` depends on it.
                            lemma_chain_contains(s, kind, pw, e);
                            assert(s[e].1@ == chain_below(s, kind, e));
                            let wk = s[e].1@.push(m);
                            assert(self.walk(wk));
                            let j = choose|j: int| 0 <= j < s[e].1@.len() && s[e].1@[j] == cur;
                            assert(wk[j] == cur);
                            assert(wk.last() == m);
                            self.lemma_walk_reaches(wk, j);
                            assert(self.idx_edge(m as int, cur as int));
                            self.lemma_idx_edge(m as int, cur as int);
                            self.lemma_reaches_self(nm);
                            self.lemma_reaches_step(nm, nm, nc);
                        }
                        assert(self.strongly_connected(nm, cs2[i][kk]));
                    }
                }
            }
        }
    }

    /// Popping the marker of a node finishes it: its dependencies are all
    /// finished, and it gets the next rank.
    #[verifier::rlimit(40)]
    #[verifier::spinoff_prover]
    proof fn lemma_pop_marker(
        &self,
        state: Seq<u8>,
        s: Seq<(usize, Vec<usize>)>,
        kind: Seq<bool>,
        fin: Seq<bool>,
        rank: Seq<int>,
        clock: int,
        cs: Seq<Seq<Seq<char>>>,
    )
        requires
            self.wf(),
            self.stack_ok(state, s, kind, fin, cs),
            self.marks_ok(state, fin, rank, clock),
            self.ranks_ok(fin, rank, cs),
            s.len() > 0,
            kind[s.len() - 1],
        ensures
            !s.last().1@.contains(s.last().0),
            state[s.last().0 as int] == 1,
            self.stack_ok(state, s.drop_last(), kind.drop_last(), fin.update(s.last().0 as int, true), cs),
            self.marks_ok(state, fin.update(s.last().0 as int, true), rank.update(s.last().0 as int, clock), clock + 1),
            self.ranks_ok(fin.update(s.last().0 as int, true), rank.update(s.last().0 as int, clock), cs),
    {
        let t = s.len() - 1;
        let cur = s[t].0;
        let c = cur as int;
        assert(s.last() == s[t]);
        assert(c < self.node_ids().len());
        let fin2 = fin.update(c, true);
        let rank2 = rank.update(c, clock);
        if s[t].1@.contains(cur) {
            assert(s[t].1@ == chain_below(s, kind, t));
            lemma_chain_members(s, kind, t, cur);
            let e = choose|e: int| 0 <= e < t && kind[e] && s[e].0 == cur;
            assert(kind[e] && kind[t]);
            assert(false);
        }
        assert(state[c] == 1 && !fin[c]);
        // The finished nodes, and their ranks.
        assert forall|u: int, k: int|
            0 <= u < self.node_ids().len() && fin2[u] && 0 <= k < self.dep_idx@[u]@.len() implies self.covered(cs, u) || (fin2[
                #[trigger] self.dep_idx@[u]@[k] as int
            ] && rank2[self.dep_idx@[u]@[k] as int] < rank2[u]) by {
            let w = self.dep_idx@[u]@[k] as int;
            assert(w < self.node_ids().len());
            if u == c {
                assert(kind[t] && 0 <= k < self.dep_idx@[s[t].0 as int]@.len());
                if !self.covered(cs, u) && !fin[w] {
                    assert(exists|e2: int| t < e2 < s.len() && (#[trigger] s[e2]).0 == self.dep_idx@[s[t].0 as int]@[k]);
                    assert(false);
                }
                if !self.covered(cs, u) {
                    assert(fin[w]);
                    assert(w != c);
                    assert(rank[w] < clock);
                }
            } else {
                assert(fin[u]);
                if !self.covered(cs, u) {
                    assert(fin[w] && rank[w] < rank[u]);
                    assert(w != c);
                }
            }
        }
        assert forall|j: int|
            #![trigger state[j]]
            #![trigger fin2[j]]
            0 <= j < self.node_ids().len() implies {
                &&& state[j] <= 2
                &&& state[j] == 2 ==> fin2[j]
                &&& state[j] == 0 ==> !fin2[j]
                &&& fin2[j] ==> rank2[j] < clock + 1
            } by {
            assert(state[j] <= 2);
            if j != c {
                assert(fin2[j] == fin[j] && rank2[j] == rank[j]);
                if fin[j] {
                    assert(rank[j] < clock);
                }
            }
        }
        // The stack below.
        let s2 = s.drop_last();
        let k2 = kind.drop_last();
        assert forall|e: int| 0 <= e < s2.len() implies (#[trigger] s2[e]).1@ == chain_below(s2, k2, e) && s2[e].0
            < self.node_ids().len() by {
            assert(s2[e] == s[e]);
            assert forall|i: int| 0 <= i < e implies (#[trigger] s2[i]).0 == s[i].0 && k2[i] == kind[i] by {}
            lemma_chain_agree(s2, k2, s, kind, e);
        }
        assert forall|e: int| 0 <= e < s2.len() && #[trigger] k2[e] implies state[s2[e].0 as int] == 1
            && !fin2[s2[e].0 as int] by {
            assert(kind[e] && s2[e] == s[e]);
            assert(kind[t]);
            assert(s[e].0 != cur);
        }
        assert forall|e1: int, e2: int| 0 <= e1 < e2 < s2.len() && #[trigger] k2[e1] && #[trigger] k2[e2] implies s2[e1].0
            != s2[e2].0 by {
            assert(kind[e1] && kind[e2] && s2[e1] == s[e1] && s2[e2] == s[e2]);
        }
        assert forall|j: int| 0 <= j < self.node_ids().len() && #[trigger] state[j] == 1 && !fin2[j] implies exists|e: int|
            0 <= e < s2.len() && k2[e] && (#[trigger] s2[e]).0 == j by {
            assert(j != c);
            assert(!fin[j]);
            let e = choose|e: int| 0 <= e < s.len() && kind[e] && (#[trigger] s[e]).0 == j;
            assert(e != t);
            assert(s2[e] == s[e] && k2[e] == kind[e]);
        }
        assert forall|e: int, k: int|
            #![trigger k2[e], self.dep_idx@[s2[e].0 as int]@[k]]
            0 <= e < s2.len() && k2[e] && 0 <= k < self.dep_idx@[s2[e].0 as int]@.len() implies self.covered(cs, s2[e].0 as int)
                || fin2[self.dep_idx@[s2[e].0 as int]@[k] as int] || exists|e2: int|
                e < e2 < s2.len() && (#[trigger] s2[e2]).0 == self.dep_idx@[s2[e].0 as int]@[k] by {
            assert(kind[e] && s2[e] == s[e]);
            let w = self.dep_idx@[s[e].0 as int]@[k];
            if !self.covered(cs, s[e].0 as int) && !fin[w as int] && w != cur {
                assert(exists|e2: int| e < e2 < s.len() && (#[trigger] s[e2]).0 == w);
                let e2 = choose|e2: int| e < e2 < s.len() && (#[trigger] s[e2]).0 == w;
                assert(e2 != t);
                assert(s2[e2] == s[e2]);
            }
        }
    }

    /// Visiting a white node: it turns gray, its marker takes its entry's
    /// place, and above it come entries for its dependencies that are not
    /// black, each with the walk to it.
    #[verifier::rlimit(40)]
    #[verifier::spinoff_prover]
    proof fn lemma_visit(
        &self,
        state: Seq<u8>,
        s: Seq<(usize, Vec<usize>)>,
        kind: Seq<bool>,
        fin: Seq<bool>,
        rank: Seq<int>,
        clock: int,
        cs: Seq<Seq<Seq<char>>>,
        s2: Seq<(usize, Vec<usize>)>,
        kind2: Seq<bool>,
    )
        requires
            self.wf(),
            self.stack_ok(state, s, kind, fin, cs),
            self.marks_ok(state, fin, rank, clock),
            s.len() > 0,
            state[s.last().0 as int] == 0,
            s2.len() >= s.len(),
            forall|e: int| 0 <= e < s.len() - 1 ==> #[trigger] s2[e] == s[e],
            s2[s.len() - 1].0 == s.last().0,
            s2[s.len() - 1].1@ == s.last().1@,
            forall|e: int|
                s.len() - 1 < e < s2.len() ==> (#[trigger] s2[e]).1@ == s.last().1@.push(s.last().0) && s2[e].0
                    < self.node_ids().len(),
            forall|k: int|
                0 <= k < self.dep_idx@[s.last().0 as int]@.len() ==> state.update(s.last().0 as int, 1)[
                    #[trigger] self.dep_idx@[s.last().0 as int]@[k] as int
                ] == 2 || exists|e: int|
                    s.len() - 1 < e < s2.len() && (#[trigger] s2[e]).0 == self.dep_idx@[s.last().0 as int]@[k],
            kind2 == kind.drop_last().push(true) + Seq::new((s2.len() - s.len()) as nat, |i: int| false),
        ensures
            self.stack_ok(state.update(s.last().0 as int, 1), s2, kind2, fin, cs),
            self.marks_ok(state.update(s.last().0 as int, 1), fin, rank, clock),
    {
        let t = s.len() - 1;
        let cur = s[t].0;
        let c = cur as int;
        assert(s.last() == s[t]);
        assert(c < self.node_ids().len());
        let st2 = state.update(c, 1);
        assert(!kind[t]) by {
            if kind[t] {
                assert(state[s[t].0 as int] == 1);
            }
        }
        assert(!fin[c]);
        assert(kind2.len() == s2.len());
        assert(forall|e: int| 0 <= e < t ==> #[trigger] kind2[e] == kind[e]);
        assert(kind2[t]);
        assert(forall|e: int| t < e < s2.len() ==> !#[trigger] kind2[e]);
        assert forall|j: int|
            #![trigger st2[j]]
            #![trigger fin[j]]
            0 <= j < self.node_ids().len() implies {
                &&& st2[j] <= 2
                &&& st2[j] == 2 ==> fin[j]
                &&& st2[j] == 0 ==> !fin[j]
                &&& fin[j] ==> rank[j] < clock
            } by {
            assert(state[j] <= 2);
        }
        assert forall|e: int| 0 <= e < s2.len() implies (#[trigger] s2[e]).1@ == chain_below(s2, kind2, e) && s2[e].0
            < self.node_ids().len() by {
            if e <= t {
                assert forall|i: int| 0 <= i < e implies (#[trigger] s2[i]).0 == s[i].0 && kind2[i] == kind[i] by {
                    assert(s2[i] == s[i]);
                }
                lemma_chain_agree(s2, kind2, s, kind, e);
                if e < t {
                    assert(s2[e] == s[e]);
                }
            } else {
                lemma_chain_from(s2, kind2, t, e);
                assert forall|i: int| 0 <= i < t implies (#[trigger] s2[i]).0 == s[i].0 && kind2[i] == kind[i] by {
                    assert(s2[i] == s[i]);
                }
                lemma_chain_agree(s2, kind2, s, kind, t);
            }
        }
        assert forall|e: int| 0 <= e < s2.len() && #[trigger] kind2[e] implies st2[s2[e].0 as int] == 1
            && !fin[s2[e].0 as int] by {
            if e < t {
                assert(kind[e] && s2[e] == s[e]);
            }
        }
        assert forall|e1: int, e2: int| 0 <= e1 < e2 < s2.len() && #[trigger] kind2[e1] && #[trigger] kind2[e2] implies s2[e1].0
            != s2[e2].0 by {
            assert(e1 < t);
            assert(kind[e1] && s2[e1] == s[e1]);
            assert(state[s[e1].0 as int] == 1);
            if e2 < t {
                assert(kind[e2] && s2[e2] == s[e2]);
            }
        }
        assert forall|j: int| 0 <= j < self.node_ids().len() && #[trigger] st2[j] == 1 && !fin[j] implies exists|e: int|
            0 <= e < s2.len() && kind2[e] && (#[trigger] s2[e]).0 == j by {
            if j == c {
                assert(kind2[t] && s2[t].0 == j);
            } else {
                assert(state[j] == 1);
                let e = choose|e: int| 0 <= e < s.len() && kind[e] && (#[trigger] s[e]).0 == j;
                assert(e != t);
                assert(s2[e] == s[e] && kind2[e] == kind[e]);
            }
        }
        assert forall|e: int, k: int|
            #![trigger kind2[e], self.dep_idx@[s2[e].0 as int]@[k]]
            0 <= e < s2.len() && kind2[e] && 0 <= k < self.dep_idx@[s2[e].0 as int]@.len() implies self.covered(cs, s2[e].0 as int)
                || fin[self.dep_idx@[s2[e].0 as int]@[k] as int] || exists|e2: int|
                e < e2 < s2.len() && (#[trigger] s2[e2]).0 == self.dep_idx@[s2[e].0 as int]@[k] by {
            if e < t {
                assert(kind[e] && s2[e] == s[e]);
                let w = self.dep_idx@[s[e].0 as int]@[k];
                if !self.covered(cs, s[e].0 as int) && !fin[w as int] {
                    assert(exists|e2: int| e < e2 < s.len() && (#[trigger] s[e2]).0 == w);
                    let e2 = choose|e2: int| e < e2 < s.len() && (#[trigger] s[e2]).0 == w;
                    if e2 < t {
                        assert(s2[e2] == s[e2]);
                    } else {
                        assert(s2[t].0 == w);
                    }
                }
            } else {
                assert(e == t);
                assert(s2[t].0 == cur);
                let w = self.dep_idx@[c]@[k];
                assert(w < self.node_ids().len());
                assert(st2[w as int] == 2 || exists|e2: int| t < e2 < s2.len() && (#[trigger] s2[e2]).0 == w);
                if st2[w as int] == 2 {
                    assert(w as int != c);
                    assert(state[w as int] == 2);
                    assert(fin[w as int]);
                }
            }
        }
    }

    /// A dependency of a node is a node, and, where the node is not covered,
    /// a finished one finished first.
    proof fn lemma_edge_rank(&self, fin: Seq<bool>, rank: Seq<int>, cs: Seq<Seq<Seq<char>>>, a: Seq<char>, b: Seq<char>)
        requires
            self.wf(),
            fin.len() == self.node_ids().len(),
            forall|u: int| 0 <= u < self.node_ids().len() ==> #[trigger] fin[u],
            self.ranks_ok(fin, rank, cs),
            self.has_edge(a, b),
        ensures
            self.node_ids().contains(a),
            self.node_ids().contains(b),
            !self.covered(cs, self.pos(a)) ==> rank[self.pos(b)] < rank[self.pos(a)],
    {
        let ia = self.pos(a);
        assert(self.node_ids().contains(a));
        assert(0 <= ia < self.node_ids().len() && self.node_ids()[ia] == a);
        let ds = views(self.deps@[ia]@);
        let k = choose|k: int| 0 <= k < ds.len() && ds[k] == b;
        let j = self.dep_idx@[ia]@[k] as int;
        assert(self.node_ids()[j] == b);
        self.lemma_pos(j);
        assert(fin[ia]);
        if !self.covered(cs, ia) {
            assert(fin[j] && rank[j] < rank[ia]);
        }
    }

    /// Along the first `m` steps of a cycle none of whose ids is covered, the
    /// ranks fall by at least one a step.
    proof fn lemma_cycle_ranks(&self, fin: Seq<bool>, rank: Seq<int>, cs: Seq<Seq<Seq<char>>>, c: Seq<Seq<char>>, m: int)
        requires
            self.wf(),
            fin.len() == self.node_ids().len(),
            forall|u: int| 0 <= u < self.node_ids().len() ==> #[trigger] fin[u],
            self.ranks_ok(fin, rank, cs),
            self.is_cycle(c),
            forall|q: int| 0 <= q < c.len() ==> !self.covered(cs, self.pos(#[trigger] c[q])),
            0 <= m < c.len(),
        ensures
            self.node_ids().contains(c[m]),
            rank[self.pos(c[m])] <= rank[self.pos(c[0])] - m,
        decreases m,
    {
        self.lemma_edge_rank(fin, rank, cs, c.last(), c[0]);
        if m > 0 {
            self.lemma_cycle_ranks(fin, rank, cs, c, m - 1);
            assert(self.has_edge(c[m - 1], c[m]));
            assert(!self.covered(cs, self.pos(c[m - 1])));
            self.lemma_edge_rank(fin, rank, cs, c[m - 1], c[m]);
        }
    }

    /// With every node finished, some id of each cycle is covered.
    proof fn lemma_cycle_covered(&self, fin: Seq<bool>, rank: Seq<int>, cs: Seq<Seq<Seq<char>>>, c: Seq<Seq<char>>)
        requires
            self.wf(),
            fin.len() == self.node_ids().len(),
            forall|u: int| 0 <= u < self.node_ids().len() ==> #[trigger] fin[u],
            self.ranks_ok(fin, rank, cs),
            self.is_cycle(c),
        ensures
            exists|q: int| 0 <= q < c.len() && self.covered(cs, self.pos(#[trigger] c[q])),
    {
        if forall|q: int| 0 <= q < c.len() ==> !self.covered(cs, self.pos(#[trigger] c[q])) {
            self.lemma_cycle_ranks(fin, rank, cs, c, c.len() - 1);
            assert(!self.covered(cs, self.pos(c[c.len() - 1])));
            self.lemma_edge_rank(fin, rank, cs, c.last(), c[0]);
        }
    }
}

impl DependencyGraph {
    /// The cycle `c`, as names: each id depends on the next, the last on the first.
    pub open spec fn is_cycle(&self, c: Seq<Seq<char>>) -> bool {
        &&& c.len() > 0
        &&& forall|k: int| 0 <= k < c.len() - 1 ==> self.has_edge(#[trigger] c[k], c[k + 1])
        &&& self.has_edge(c.last(), c[0])
    }

    /// The node ids hold no comma.
    pub open spec fn comma_free(&self) -> bool {
        forall|j: int| 0 <= j < self.node_ids().len() ==> comma_free_text(#[trigger] self.node_ids()[j])
    }

    /// `a` and `b` reach each other along dependencies.
    pub open spec fn strongly_connected(&self, a: Seq<char>, b: Seq<char>) -> bool {
        self.reaches(a, b) && self.reaches(b, a)
    }

    /// Reaching is transitive.
    pub proof fn lemma_reaches_trans(&self, a: Seq<char>, b: Seq<char>, c: Seq<char>)
        requires
            self.reaches(a, b),
            self.reaches(b, c),
        ensures
            self.reaches(a, c),
    {
        let w1 = choose|w: Seq<Seq<char>>| #[trigger] self.is_path(w) && w[0] == a && w.last() == b;
        let w2 = choose|w: Seq<Seq<char>>| #[trigger] self.is_path(w) && w[0] == b && w.last() == c;
        let w = w1 + w2.drop_first();
        assert forall|k: int| 0 <= k < w.len() - 1 implies self.has_edge(#[trigger] w[k], w[k + 1]) by {
            if k < w1.len() - 1 {
                assert(w[k] == w1[k] && w[k + 1] == w1[k + 1]);
            } else if k == w1.len() - 1 {
                assert(w[k] == w1[w1.len() - 1]);
                assert(w[k + 1] == w2[1]);
                assert(self.has_edge(w2[0], w2[1]));
            } else {
                let j = k - w1.len() + 1;
                assert(w[k] == w2[j] && w[k + 1] == w2[j + 1]);
                assert(self.has_edge(w2[j], w2[j + 1]));
            }
        }
        if w2.len() == 1 {
            assert(w =~= w1);
        } else {
            assert(w.last() == w2.last());
        }
        assert(w[0] == w1[0]);
        assert(self.is_path(w));
    }

    /// Along a cycle, each id reaches every later one.
    proof fn lemma_cycle_reaches_forward(&self, c: Seq<Seq<char>>, i: int, j: int)
        requires
            self.is_cycle(c),
            0 <= i <= j < c.len(),
        ensures
            self.reaches(c[i], c[j]),
    {
        let w = c.subrange(i, j + 1);
        assert forall|k: int| 0 <= k < w.len() - 1 implies self.has_edge(#[trigger] w[k], w[k + 1]) by {
            assert(w[k] == c[i + k] && w[k + 1] == c[i + k + 1]);
        }
        assert(self.is_path(w) && w[0] == c[i] && w.last() == c[j]);
    }

    /// The ids of a cycle all reach each other.
    pub proof fn lemma_cycle_reaches(&self, c: Seq<Seq<char>>, i: int, j: int)
        requires
            self.is_cycle(c),
            0 <= i < c.len(),
            0 <= j < c.len(),
        ensures
            self.reaches(c[i], c[j]),
    {
        if i <= j {
            self.lemma_cycle_reaches_forward(c, i, j);
        } else {
            self.lemma_cycle_reaches_forward(c, i, c.len() - 1);
            self.lemma_reaches_step(c[i], c.last(), c[0]);
            self.lemma_cycle_reaches_forward(c, 0, j);
            self.lemma_reaches_trans(c[i], c[0], c[j]);
        }
    }

    /// Every id of a cycle is a node.
    proof fn lemma_cycle_nodes(&self, c: Seq<Seq<char>>)
        requires
            self.is_cycle(c),
        ensures
            forall|k: int| 0 <= k < c.len() ==> self.node_ids().contains(#[trigger] c[k]),
    {
        assert forall|k: int| 0 <= k < c.len() implies self.node_ids().contains(#[trigger] c[k]) by {
            if k < c.len() - 1 {
                assert(self.has_edge(c[k], c[k + 1]));
            } else {
                assert(self.has_edge(c.last(), c[0]));
            }
        }
    }

    /// A walk leads from each of its nodes to its last one.
    proof fn lemma_walk_reaches(&self, w: Seq<usize>, i: int)
        requires
            self.wf(),
            self.walk(w),
            0 <= i < w.len(),
        ensures
            self.reaches(self.node_ids()[w[i] as int], self.node_ids()[w.last() as int]),
        decreases w.len(),
    {
        if i == w.len() - 1 {
            self.lemma_reaches_self(self.node_ids()[w[i] as int]);
        } else {
            let d = w.drop_last();
            assert forall|k: int| 0 <= k < d.len() implies (#[trigger] d[k]) < self.node_ids().len() by {
                assert(d[k] == w[k]);
            }
            assert forall|k: int| 0 <= k < d.len() - 1 implies self.idx_edge(#[trigger] d[k] as int, d[k + 1] as int) by {
                assert(d[k] == w[k] && d[k + 1] == w[k + 1]);
            }
            self.lemma_walk_reaches(d, i);
            assert(d[i] == w[i]);
            assert(d.last() == w[w.len() - 2]);
            assert(self.idx_edge(w[w.len() - 2] as int, w[w.len() - 1] as int));
            self.lemma_idx_edge(w[w.len() - 2] as int, w[w.len() - 1] as int);
            self.lemma_reaches_step(self.node_ids()[w[i] as int], self.node_ids()[w[w.len() - 2] as int], self.node_ids()[w[w.len() - 1] as int]);
        }
    }

    /// A walk of positions: each one depends on the next.
    closed spec fn walk(&self, w: Seq<usize>) -> bool {
        &&& forall|k: int| 0 <= k < w.len() ==> (#[trigger] w[k]) < self.node_ids().len()
        &&& forall|k: int| 0 <= k < w.len() - 1 ==> self.idx_edge(#[trigger] w[k] as int, w[k + 1] as int)
    }

    /// The cycle the walk `path + [cur]` closes when `path[start] == cur`, as names.
    proof fn lemma_walk_cycle(&self, path: Seq<usize>, cur: usize, start: int)
        requires
            self.wf(),
            self.walk(path.push(cur)),
            0 <= start < path.len(),
            path[start] == cur,
        ensures
            self.is_cycle(path.skip(start).map_values(|i: usize| self.node_ids()[i as int])),
    {
        let w = path.push(cur);
        let c = path.skip(start);
        let names = c.map_values(|i: usize| self.node_ids()[i as int]);
        assert forall|k: int| 0 <= k < names.len() - 1 implies self.has_edge(#[trigger] names[k], names[k + 1]) by {
            assert(w[start + k] == c[k]);
            assert(w[start + k + 1] == c[k + 1]);
            assert(self.idx_edge(w[start + k] as int, w[start + k + 1] as int));
            self.lemma_idx_edge(c[k] as int, c[k + 1] as int);
        }
        assert(w[path.len() - 1] == path.last());
        assert(w[path.len() as int] == cur);
        assert(self.idx_edge(path.last() as int, cur as int));
        self.lemma_idx_edge(path.last() as int, cur as int);
        assert(names.last() == self.node_ids()[path.last() as int]);
        assert(names[0] == self.node_ids()[cur as int]);
    }

    /// Records the cycle that `path + [cur]` closes at `path[start]`, unless
    /// one of its rotations is already recorded.
    fn record_cycle(&self, path: &Vec<usize>, cur: usize, start: usize, cycles: &mut Vec<Cycle>, seen: &mut Vec<String>)
        requires
            self.wf(),
            self.walk(path@.push(cur)),
            start < path@.len(),
            path@[start as int] == cur,
            old(cycles)@.len() == old(seen)@.len(),
            forall|i: int| 0 <= i < old(cycles)@.len() ==> self.is_cycle(#[trigger] views(old(cycles)@[i].ids@))
                && old(cycles)@[i].display@ == cycle_display(views(old(cycles)@[i].ids@))
                && old(seen)@[i]@ == normalized(views(old(cycles)@[i].ids@)),
            no_dups(views(old(seen)@)),
            forall|i: int, j: int| 0 <= i < j < path@.len() ==> path@[i] != path@[j],
            forall|i: int| 0 <= i < old(cycles)@.len() ==> no_dups(#[trigger] views(old(cycles)@[i].ids@)),
        ensures
            final(cycles)@.len() == final(seen)@.len(),
            final(cycles)@.len() > 0,
            forall|i: int| 0 <= i < final(cycles)@.len() ==> no_dups(#[trigger] views(final(cycles)@[i].ids@)),
            forall|i: int| 0 <= i < final(cycles)@.len() ==> self.is_cycle(#[trigger] views(final(cycles)@[i].ids@))
                && final(cycles)@[i].display@ == cycle_display(views(final(cycles)@[i].ids@))
                && final(seen)@[i]@ == normalized(views(final(cycles)@[i].ids@)),
            no_dups(views(final(seen)@)),
            final(cycles)@.len() >= old(cycles)@.len(),
            forall|i: int| 0 <= i < old(cycles)@.len() ==> #[trigger] final(cycles)@[i] == old(cycles)@[i],
            self.comma_free() ==> exists|i: int|
                0 <= i < final(cycles)@.len() && views((#[trigger] final(cycles)@[i]).ids@).contains(self.node_ids()[cur as int]),
    {
        let mut ids: Vec<String> = Vec::new();
        let mut q = start;
        proof {
            assert(views(ids@) =~= path@.subrange(start as int, start as int).map_values(|i: usize| self.node_ids()[i as int]));
            assert forall|k: int| 0 <= k < path@.len() implies (#[trigger] path@[k]) < self.node_ids().len() by {
                assert(path@.push(cur)[k] == path@[k]);
            }
        }
        while q < path.len()
            invariant
                self.wf(),
                start <= q <= path@.len(),
                forall|k: int| 0 <= k < path@.len() ==> (#[trigger] path@[k]) < self.node_ids().len(),
                views(ids@) == path@.subrange(start as int, q as int).map_values(|i: usize| self.node_ids()[i as int]),
            decreases path@.len() - q,
        {
            let p = path[q];
            let name = self.nodes[p].clone();
            assert(name@ == self.node_ids()[p as int]);
            let ghost before = views(ids@);
            ids.push(name);
            proof {
                assert(views(ids@) =~= before.push(name@));
                assert(path@.subrange(start as int, q + 1) =~= path@.subrange(start as int, q as int).push(path@[q as int]));
                assert(views(ids@) =~= path@.subrange(start as int, q + 1).map_values(|i: usize| self.node_ids()[i as int]));
            }
            q = q + 1;
        }
        proof {
            assert(path@.subrange(start as int, path@.len() as int) =~= path@.skip(start as int));
            self.lemma_walk_cycle(path@, cur, start as int);
            let names = views(ids@);
            assert forall|a: int, b: int| 0 <= a < names.len() && 0 <= b < names.len() && a != b
                implies names[a] != names[b] by {
                assert(names[a] == self.node_ids()[path@[start + a] as int]);
                assert(names[b] == self.node_ids()[path@[start + b] as int]);
                if a < b {
                    assert(path@[start + a] != path@[start + b]);
                } else {
                    assert(path@[start + b] != path@[start + a]);
                }
                assert(no_dups(self.node_ids()));
            }
            assert(no_dups(views(ids@)));
        }
        let normal = normalize_cycle(&ids);
        let known = contains_string(seen, &normal);
        let ghost idv = views(ids@);
        proof {
            assert(views(ids@)[0] == self.node_ids()[cur as int]) by {
                assert(path@[start as int] == cur);
            }
        }
        if known {
            proof {
                if self.comma_free() {
                    let i = choose|i: int| 0 <= i < views(seen@).len() && views(seen@)[i] == normal@;
                    assert(views(seen@)[i] == seen@[i]@);
                    let a = views(ids@);
                    let b = views(cycles@[i].ids@);
                    assert(self.is_cycle(b));
                    self.lemma_cycle_nodes(b);
                    assert forall|q: int| 0 <= q < a.len() implies comma_free_text(#[trigger] a[q]) by {
                        assert(a[q] == self.node_ids()[path@[start + q] as int]);
                    }
                    assert forall|q: int| 0 <= q < b.len() implies comma_free_text(#[trigger] b[q]) by {
                        assert(self.node_ids().contains(b[q]));
                        let j = choose|j: int| 0 <= j < self.node_ids().len() && self.node_ids()[j] == b[q];
                        assert(comma_free_text(self.node_ids()[j]));
                    }
                    lemma_normalized_member(a, b);
                    assert(views(cycles@[i].ids@).contains(self.node_ids()[cur as int]));
                }
            }
        } else {
            let mut display = crate::text::join_strings(&ids, " -> ");
            crate::text::push_str(&mut display, " -> ");
            crate::text::push_str(&mut display, ids[0].as_str());
            proof {
                reveal_strlit(" -> ");
                assert(" -> "@ =~= seq![' ', '-', '>', ' ']);
                assert(views(ids@)[0] == ids@[0]@);
            }
            let ghost old_seen = views(seen@);
            seen.push(normal);
            cycles.push(Cycle { ids, display });
            proof {
                assert(views(seen@) =~= old_seen.push(normal@));
                assert forall|a: int, b: int| 0 <= a < views(seen@).len() && 0 <= b < views(seen@).len() && a != b
                    implies views(seen@)[a] != views(seen@)[b] by {
                    if a == old_seen.len() as int {
                        assert(views(seen@)[b] == old_seen[b]);
                    } else if b == old_seen.len() as int {
                        assert(views(seen@)[a] == old_seen[a]);
                    } else {
                        assert(views(seen@)[a] == old_seen[a]);
                        assert(views(seen@)[b] == old_seen[b]);
                    }
                }
                assert forall|i: int| 0 <= i < cycles@.len() implies self.is_cycle(#[trigger] views(cycles@[i].ids@))
                    && cycles@[i].display@ == cycle_display(views(cycles@[i].ids@))
                    && seen@[i]@ == normalized(views(cycles@[i].ids@)) by {
                    if i < old(cycles)@.len() {
                        assert(cycles@[i] == old(cycles)@[i]);
                        assert(seen@[i] == old(seen)@[i]);
                    }
                }
                assert forall|i: int| 0 <= i < cycles@.len() implies no_dups(#[trigger] views(cycles@[i].ids@)) by {
                    if i < old(cycles)@.len() {
                        assert(cycles@[i] == old(cycles)@[i]);
                    }
                }
                let last = cycles@.len() - 1;
                assert(views(cycles@[last].ids@) == idv);
                assert(idv[0] == self.node_ids()[cur as int]);
                assert(views(cycles@[last].ids@).contains(self.node_ids()[cur as int]));
            }
        }
    }

    /// Pushes, last first, the dependencies of `cur` that are not black,
    /// each with the walk `path + [cur]`.
    fn push_children(&self, stack: &mut Vec<(usize, Vec<usize>)>, cur: usize, path: &Vec<usize>, state: &Vec<u8>)
        requires
            self.wf(),
            cur < self.node_ids().len(),
            state@.len() == self.node_ids().len(),
            self.walk(path@.push(cur)),
            forall|e: int| 0 <= e < old(stack)@.len() ==> self.walk((#[trigger] old(stack)@[e]).1@.push(old(stack)@[e].0)),
        ensures
            forall|e: int| 0 <= e < final(stack)@.len() ==> self.walk((#[trigger] final(stack)@[e]).1@.push(final(stack)@[e].0)),
            final(stack)@.len() >= old(stack)@.len(),
            forall|e: int| 0 <= e < old(stack)@.len() ==> #[trigger] final(stack)@[e] == old(stack)@[e],
            forall|e: int|
                old(stack)@.len() <= e < final(stack)@.len() ==> (#[trigger] final(stack)@[e]).1@ == path@.push(cur)
                    && final(stack)@[e].0 < self.node_ids().len(),
            forall|k: int|
                0 <= k < self.dep_idx@[cur as int]@.len() ==> state@[#[trigger] self.dep_idx@[cur as int]@[k] as int] == 2
                    || exists|e: int|
                    old(stack)@.len() <= e < final(stack)@.len() && (#[trigger] final(stack)@[e]).0
                        == self.dep_idx@[cur as int]@[k],
    {
        let n = self.nodes.len();
        let ds = &self.dep_idx[cur];
        let mut k = ds.len();
        let ghost start = stack@;
        while k > 0
            invariant
                self.wf(),
                n == self.node_ids().len(),
                cur < n,
                state@.len() == n,
                ds == &self.dep_idx@[cur as int],
                k <= ds@.len(),
                self.walk(path@.push(cur)),
                forall|e: int| 0 <= e < stack@.len() ==> self.walk((#[trigger] stack@[e]).1@.push(stack@[e].0)),
                start == old(stack)@,
                stack@.len() >= start.len(),
                forall|e: int| 0 <= e < start.len() ==> #[trigger] stack@[e] == start[e],
                forall|e: int|
                    start.len() <= e < stack@.len() ==> (#[trigger] stack@[e]).1@ == path@.push(cur) && stack@[e].0 < n,
                forall|q: int|
                    k <= q < ds@.len() ==> state@[#[trigger] ds@[q] as int] == 2 || exists|e: int|
                        start.len() <= e < stack@.len() && (#[trigger] stack@[e]).0 == ds@[q],
            decreases k,
        {
            k = k - 1;
            let dep = ds[k];
            assert(dep < n) by {
                assert(self.dep_idx@[cur as int]@[k as int] == dep);
            }
            if state[dep] == 2 {
                continue;
            }
            let ghost before = stack@;
            let mut np = copy_path(path);
            np.push(cur);
            proof {
                let w = np@.push(dep);
                assert(self.idx_edge(cur as int, dep as int));
                assert(w.drop_last() == path@.push(cur));
                assert forall|t: int| 0 <= t < w.len() - 1 implies self.idx_edge(#[trigger] w[t] as int, w[t + 1] as int) by {
                    if t < w.len() - 2 {
                        assert(w[t] == path@.push(cur)[t]);
                        assert(w[t + 1] == path@.push(cur)[t + 1]);
                    } else {
                        assert(w[t] == cur);
                        assert(w[t + 1] == dep);
                    }
                }
                assert forall|t: int| 0 <= t < w.len() implies (#[trigger] w[t]) < self.node_ids().len() by {
                    if t < w.len() - 1 {
                        assert(w[t] == path@.push(cur)[t]);
                    }
                }
            }
            stack.push((dep, np));
            proof {
                assert(stack@[before.len() as int] == (dep, np));
                assert forall|q: int| k <= q < ds@.len() implies state@[#[trigger] ds@[q] as int] == 2 || exists|e: int|
                    start.len() <= e < stack@.len() && (#[trigger] stack@[e]).0 == ds@[q] by {
                    if q == k {
                        assert(stack@[before.len() as int].0 == ds@[q]);
                    } else if state@[ds@[q] as int] != 2 {
                        let e = choose|e: int| start.len() <= e < before.len() && (#[trigger] before[e]).0 == ds@[q];
                        assert(stack@[e] == before[e]);
                    }
                }
            }
        }
    }

    /// Detect cycles in the dependency graph.
    ///
    /// Uses DFS with white/gray/black coloring.  Each reported cycle is a
    /// simple cycle, reported once whichever node it is entered from, and
    /// every cycle of the graph shares a strongly connected part with a
    /// reported one: each group of tickets that depend on each other in a
    /// circle gets a cycle listed. (Where an id holds a comma, two different
    /// cycles can share the comma-joined text that identifies a cycle, and
    /// the second is then skipped; then only "some cycle is listed if there
    /// is any" is promised.)
    #[verifier::rlimit(40)]
    #[verifier::spinoff_prover]
    pub fn find_cycles(&self) -> (r: Vec<Cycle>)
        requires
            self.wf(),
        ensures
            forall|i: int| 0 <= i < r@.len() ==> self.is_cycle(#[trigger] views(r@[i].ids@))
                && r@[i].display@ == cycle_display(views(r@[i].ids@)),
            forall|i: int, j: int| 0 <= i < r@.len() && 0 <= j < r@.len() && i != j
                ==> normalized(views(r@[i].ids@)) != normalized(views(r@[j].ids@)),
            forall|i: int| 0 <= i < r@.len() ==> no_dups(#[trigger] views(r@[i].ids@)),
            r@.len() == 0 ==> forall|c: Seq<Seq<char>>| !self.is_cycle(c),
            self.comma_free() ==> forall|c: Seq<Seq<char>>| #[trigger] self.is_cycle(c) ==> exists|i: int|
                0 <= i < r@.len() && self.strongly_connected(c[0], views((#[trigger] r@[i]).ids@)[0]),
    {
        let n = self.nodes.len();
        let mut state: Vec<u8> = Vec::new();
        for i in 0..n
            invariant
                state@.len() == i,
                forall|j: int| 0 <= j < i ==> state@[j] == 0,
        {
            state.push(0);
        }
        let ghost mut marked: nat = 0;
        // The finished nodes, each with the time it finished.
        let ghost mut fin: Seq<bool> = Seq::new(n as nat, |j: int| false);
        let ghost mut rank: Seq<int> = Seq::new(n as nat, |j: int| 0);
        let ghost mut clock: int = 0;
        proof {
            assert forall|j: int| 0 <= j <= n implies marked_count(#[trigger] state@.take(j)) == 0 by {
                lemma_zero_count(state@, j);
            }
            assert(state@.take(n as int) =~= state@);
            assert(self.marks_ok(state@, fin, rank, clock));
        }
        let mut cycles: Vec<Cycle> = Vec::new();
        let mut seen: Vec<String> = Vec::new();
        for root in 0..n
            invariant
                self.wf(),
                n == self.node_ids().len(),
                state@.len() == n,
                forall|j: int| 0 <= j < n ==> #[trigger] state@[j] <= 2,
                marked == marked_count(state@),
                cycles@.len() == seen@.len(),
                forall|i: int| 0 <= i < cycles@.len() ==> self.is_cycle(#[trigger] views(cycles@[i].ids@))
                    && cycles@[i].display@ == cycle_display(views(cycles@[i].ids@))
                    && seen@[i]@ == normalized(views(cycles@[i].ids@)),
                no_dups(views(seen@)),
                self.marks_ok(state@, fin, rank, clock),
                self.ranks_ok(fin, rank, cycle_views(cycles@)),
                forall|i: int| 0 <= i < cycles@.len() ==> no_dups(#[trigger] views(cycles@[i].ids@)),
                forall|j: int| 0 <= j < n ==> #[trigger] state@[j] != 1,
                forall|j: int| 0 <= j < root ==> #[trigger] state@[j] == 2,
        {
            if state[root] == 0 {
            let mut stack: Vec<(usize, Vec<usize>)> = Vec::new();
            stack.push((root, Vec::new()));
            let ghost mut kind: Seq<bool> = seq![false];
            proof {
                assert(self.walk(stack@[0].1@.push(stack@[0].0)));
                self.lemma_start_root(state@, stack@, kind, fin, rank, clock, cycle_views(cycles@));
            }
            while stack.len() > 0
                invariant
                    self.wf(),
                    n == self.node_ids().len(),
                    root < n,
                    state@.len() == n,
                    forall|j: int| 0 <= j < n ==> #[trigger] state@[j] <= 2,
                    marked == marked_count(state@),
                    forall|e: int| 0 <= e < stack@.len() ==> self.walk((#[trigger] stack@[e]).1@.push(stack@[e].0)),
                    cycles@.len() == seen@.len(),
                    forall|i: int| 0 <= i < cycles@.len() ==> self.is_cycle(#[trigger] views(cycles@[i].ids@))
                        && cycles@[i].display@ == cycle_display(views(cycles@[i].ids@))
                        && seen@[i]@ == normalized(views(cycles@[i].ids@)),
                    no_dups(views(seen@)),
                    self.marks_ok(state@, fin, rank, clock),
                    self.ranks_ok(fin, rank, cycle_views(cycles@)),
                    forall|i: int| 0 <= i < cycles@.len() ==> no_dups(#[trigger] views(cycles@[i].ids@)),
                    self.stack_ok(state@, stack@, kind, fin, cycle_views(cycles@)),
                    state@[root as int] != 0 || (stack@.len() > 0 && stack@[0].0 == root),
                    forall|j: int| 0 <= j < root ==> #[trigger] state@[j] == 2,
                decreases n - marked, stack@.len(),
            {
                proof { lemma_marked_bound(state@, 0); }
                let ghost s0 = stack@;
                let ghost k0 = kind;
                let ghost cs0 = cycle_views(cycles@);
                let (cur, path) = stack.pop().unwrap();
                proof {
                    assert(s0.last() == (cur, path));
                    assert(s0[s0.len() - 1] == s0.last());
                    assert(self.walk(path@.push(cur)));
                    assert(path@.push(cur)[path@.len() as int] == cur);
                    kind = k0.drop_last();
                }
                let st = state[cur];
                if st == 2 {
                    proof {
                        if k0.last() {
                            assert(k0[s0.len() - 1]);
                        }
                        self.lemma_pop_plain(state@, s0, k0, fin, rank, clock, cs0, cs0);
                    }
                    continue;
                }
                if st == 1 {
                    match position(&path, cur) {
                        Some(start) => {
                            proof {
                                if k0.last() {
                                    self.lemma_pop_marker(state@, s0, k0, fin, rank, clock, cs0);
                                }
                                let t = s0.len() - 1;
                                assert(s0[t] == (cur, path));
                                assert(path@ == chain_below(s0, k0, t));
                                lemma_chain_distinct(s0, k0, t);
                            }
                            self.record_cycle(&path, cur, start, &mut cycles, &mut seen);
                            proof {
                                let cs2 = cycle_views(cycles@);
                                assert forall|i: int| 0 <= i < cs0.len() implies #[trigger] cs2[i] == cs0[i] by {}
                                if self.comma_free() {
                                    let i = choose|i: int| 0 <= i < cycles@.len()
                                        && views((#[trigger] cycles@[i]).ids@).contains(self.node_ids()[cur as int]);
                                    assert(cs2[i] == views(cycles@[i].ids@));
                                }
                                assert(cs2.len() > 0);
                                self.lemma_pop_plain(state@, s0, k0, fin, rank, clock, cs0, cs2);
                                self.lemma_ranks_mono(fin, rank, cs0, cs2);
                            }
                        },
                        None => {
                            proof {
                                if k0.last() {
                                    self.lemma_pop_marker(state@, s0, k0, fin, rank, clock, cs0);
                                    fin = fin.update(cur as int, true);
                                    rank = rank.update(cur as int, clock);
                                    clock = clock + 1;
                                } else {
                                    self.lemma_pop_plain(state@, s0, k0, fin, rank, clock, cs0, cs0);
                                }
                            }
                        },
                    }
                    continue;
                }
                let ghost state0 = state@;
                proof {
                    lemma_marked_bound(state@, cur as int);
                    lemma_marked_update(state@, cur as int, 1);
                }
                state.set(cur, 1);
                proof {
                    marked = marked + 1;
                }
                let marker_path = copy_path(&path);
                stack.push((cur, marker_path));
                self.push_children(&mut stack, cur, &path, &state);
                proof {
                    let kind2 = k0.drop_last().push(true) + Seq::new((stack@.len() - s0.len()) as nat, |i: int| false);
                    assert(state@ == state0.update(cur as int, 1));
                    assert forall|e: int| 0 <= e < s0.len() - 1 implies #[trigger] stack@[e] == s0[e] by {
                        assert(stack@[e] == s0.drop_last().push((cur, marker_path))[e]);
                    }
                    assert(stack@[s0.len() - 1] == (cur, marker_path));
                    self.lemma_visit(state0, s0, k0, fin, rank, clock, cs0, stack@, kind2);
                    kind = kind2;
                }
            }
            proof {
                assert forall|t: int| 0 <= t < n && #[trigger] state@[t] == 1 implies fin[t] by {
                    if !fin[t] {
                        assert(exists|e: int| 0 <= e < stack@.len() && kind[e] && (#[trigger] stack@[e]).0 == t);
                    }
                }
            }
            // Mark all reachable as black
            for j in 0..n
                invariant
                    n == state@.len(),
                    n == self.node_ids().len(),
                    root < n,
                    forall|t: int| 0 <= t < n ==> #[trigger] state@[t] <= 2,
                    marked == marked_count(state@),
                    self.marks_ok(state@, fin, rank, clock),
                    forall|t: int| 0 <= t < n && #[trigger] state@[t] == 1 ==> fin[t],
                    forall|t: int| 0 <= t < j ==> #[trigger] state@[t] != 1,
                    forall|t: int| 0 <= t < root ==> #[trigger] state@[t] == 2,
                    state@[root as int] != 0,
            {
                if state[j] == 1 {
                    proof { lemma_marked_update(state@, j as int, 2); }
                    state.set(j, 2);
                }
            }
            }
        }
        proof {
            assert forall|i: int, j: int| 0 <= i < cycles@.len() && 0 <= j < cycles@.len() && i != j
                implies normalized(views(cycles@[i].ids@)) != normalized(views(cycles@[j].ids@)) by {
                assert(views(seen@)[i] == seen@[i]@);
                assert(views(seen@)[j] == seen@[j]@);
            }
            assert forall|u: int| 0 <= u < self.node_ids().len() implies #[trigger] fin[u] by {
                assert(state@[u] == 2);
            }
            let cs = cycle_views(cycles@);
            assert forall|c: Seq<Seq<char>>| #[trigger] self.is_cycle(c) implies cycles@.len() > 0
                && (self.comma_free() ==> exists|i: int| 0 <= i < cycles@.len()
                    && self.strongly_connected(c[0], views((#[trigger] cycles@[i]).ids@)[0])) by {
                self.lemma_cycle_covered(fin, rank, cs, c);
                let q = choose|q: int| 0 <= q < c.len() && self.covered(cs, self.pos(#[trigger] c[q]));
                self.lemma_cycle_nodes(c);
                assert(self.node_ids().contains(c[q]));
                let u = self.pos(c[q]);
                assert(self.node_ids()[u] == c[q]);
                if self.comma_free() {
                    let (i, k) = choose|i: int, k: int| 0 <= i < cs.len() && 0 <= k < cs[i].len()
                        && self.strongly_connected(self.node_ids()[u], #[trigger] cs[i][k]);
                    let d = cs[i];
                    assert(d == views(cycles@[i].ids@));
                    assert(self.is_cycle(d));
                    self.lemma_cycle_reaches(d, k, 0);
                    self.lemma_cycle_reaches(d, 0, k);
                    self.lemma_cycle_reaches(c, 0, q);
                    self.lemma_cycle_reaches(c, q, 0);
                    self.lemma_reaches_trans(c[0], c[q], d[k]);
                    self.lemma_reaches_trans(c[0], d[k], d[0]);
                    self.lemma_reaches_trans(d[0], d[k], c[q]);
                    self.lemma_reaches_trans(d[0], c[q], c[0]);
                    assert(self.strongly_connected(c[0], views(cycles@[i].ids@)[0]));
                }
            }
        }
        cycles
    }

    /// Check if the graph has any cycles.
    pub fn has_cycles(&self) -> (r: bool)
        requires
            self.wf(),
        ensures
            r <==> exists|c: Seq<Seq<char>>| self.is_cycle(c),
    {
        let cycles = self.find_cycles();
        if cycles.len() > 0 {
            assert(self.is_cycle(views(cycles@[0].ids@)));
            true
        } else {
            false
        }
    }
}

proof fn lemma_zero_count(s: Seq<u8>, j: int)
    requires
        0 <= j <= s.len(),
        forall|t: int| 0 <= t < s.len() ==> s[t] == 0,
    ensures
        marked_count(s.take(j)) == 0,
    decreases j,
{
    if j > 0 {
        assert(s.take(j).drop_last() =~= s.take(j - 1));
        lemma_zero_count(s, j - 1);
    }
}


// ---------------------------------------------------------------------------
// Subtree depths
// ---------------------------------------------------------------------------

/// Number of entries equal to `v`.
pub open spec fn count_eq(s: Seq<u8>, v: u8) -> nat
    decreases s.len(),
{
    if s.len() == 0 {
        0
    } else {
        count_eq(s.drop_last(), v) + if s.last() == v { 1nat } else { 0nat }
    }
}

proof fn lemma_count_update(s: Seq<u8>, i: int, w: u8, v: u8)
    requires
        0 <= i < s.len(),
    ensures
        count_eq(s.update(i, w), v) + (if s[i] == v { 1int } else { 0int })
            == count_eq(s, v) + (if w == v { 1int } else { 0int }),
    decreases s.len(),
{
    if i < s.len() - 1 {
        assert(s.update(i, w).drop_last() =~= s.drop_last().update(i, w));
        lemma_count_update(s.drop_last(), i, w, v);
    } else {
        assert(s.update(i, w).drop_last() =~= s.drop_last());
    }
}

proof fn lemma_count_bound(s: Seq<u8>, v: u8, i: int)
    ensures
        count_eq(s, v) <= s.len(),
        0 <= i < s.len() && s[i] == v ==> count_eq(s, v) > 0,
    decreases s.len(),
{
    if s.len() > 0 {
        lemma_count_bound(s.drop_last(), v, i);
        if 0 <= i < s.len() - 1 && s[i] == v {
            assert(s.drop_last()[i] == v);
        }
    }
}

proof fn lemma_count_none(s: Seq<u8>, v: u8)
    requires
        forall|t: int| 0 <= t < s.len() ==> s[t] != v,
    ensures
        count_eq(s, v) == 0,
    decreases s.len(),
{
    if s.len() > 0 {
        lemma_count_none(s.drop_last(), v);
    }
}

proof fn lemma_count_all(s: Seq<u8>, v: u8)
    requires
        forall|t: int| 0 <= t < s.len() ==> s[t] == v,
    ensures
        count_eq(s, v) == s.len(),
    decreases s.len(),
{
    if s.len() > 0 {
        lemma_count_all(s.drop_last(), v);
    }
}

/// The subtree depths as names and numbers.
pub open spec fn depth_entries(out: Seq<(String, u32)>) -> Seq<(Seq<char>, nat)> {
    out.map_values(|e: (String, u32)| (e.0@, e.1 as nat))
}

impl DependencyGraph {
    /// The largest depth among the entries of `done` that `x` depends on; 0 if none.
    pub open spec fn child_depth_max(&self, x: Seq<char>, done: Seq<(Seq<char>, nat)>) -> nat
        decreases done.len(),
    {
        if done.len() == 0 {
            0
        } else {
            let m = self.child_depth_max(x, done.drop_last());
            if self.has_edge(x, done.last().0) && done.last().1 > m { done.last().1 } else { m }
        }
    }

    /// `b` is reachable from `a` by following dependencies (`a` from itself).
    pub open spec fn reaches(&self, a: Seq<char>, b: Seq<char>) -> bool {
        exists|w: Seq<Seq<char>>| #[trigger] self.is_path(w) && w[0] == a && w.last() == b
    }

    /// `w` is a non-empty walk along dependency edges.
    pub open spec fn is_path(&self, w: Seq<Seq<char>>) -> bool {
        &&& w.len() > 0
        &&& forall|k: int| 0 <= k < w.len() - 1 ==> self.has_edge(#[trigger] w[k], w[k + 1])
    }

    pub proof fn lemma_reaches_self(&self, a: Seq<char>)
        ensures
            self.reaches(a, a),
    {
        let w = seq![a];
        assert(self.is_path(w));
    }

    pub proof fn lemma_reaches_step(&self, a: Seq<char>, b: Seq<char>, c: Seq<char>)
        requires
            self.reaches(a, b),
            self.has_edge(b, c),
        ensures
            self.reaches(a, c),
    {
        let w = choose|w: Seq<Seq<char>>| #[trigger] self.is_path(w) && w[0] == a && w.last() == b;
        let w2 = w.push(c);
        assert forall|k: int| 0 <= k < w2.len() - 1 implies self.has_edge(#[trigger] w2[k], w2[k + 1]) by {
            if k < w.len() - 1 {
                assert(w2[k] == w[k] && w2[k + 1] == w[k + 1]);
            } else {
                assert(w2[k] == b && w2[k + 1] == c);
            }
        }
        assert(self.is_path(w2));
    }

    /// Whether node `i` depends on node `j`.
    fn has_idx_edge(&self, i: usize, j: usize) -> (r: bool)
        requires
            self.wf(),
            i < self.node_ids().len(),
        ensures
            r == self.idx_edge(i as int, j as int),
    {
        let ds = &self.dep_idx[i];
        let mut k: usize = 0;
        while k < ds.len()
            invariant
                self.wf(),
                i < self.node_ids().len(),
                ds == &self.dep_idx@[i as int],
                k <= ds@.len(),
                forall|t: int| 0 <= t < k ==> ds@[t] != j,
            decreases ds@.len() - k,
        {
            if ds[k] == j {
                assert(self.dep_idx@[i as int]@[k as int] == j);
                return true;
            }
            k = k + 1;
        }
        assert(!self.idx_edge(i as int, j as int)) by {
            if self.idx_edge(i as int, j as int) {
                let t = choose|t: int| 0 <= t < self.dep_idx@[i as int]@.len() && self.dep_idx@[i as int]@[t] == j;
                assert(ds@[t] == j);
            }
        }
        false
    }

    /// The largest depth recorded so far among the dependencies of node `v`.
    fn max_child_depth(&self, v: usize, out: &Vec<(String, u32)>, out_idx: &Vec<usize>) -> (m: u32)
        requires
            self.wf(),
            v < self.node_ids().len(),
            out_idx@.len() == out@.len(),
            forall|k: int| 0 <= k < out@.len() ==> (#[trigger] out_idx@[k]) < self.node_ids().len()
                && out@[k].0@ == self.node_ids()[out_idx@[k] as int],
        ensures
            m == self.child_depth_max(self.node_ids()[v as int], depth_entries(out@)),
    {
        let ghost x = self.node_ids()[v as int];
        let ghost d = depth_entries(out@);
        let mut m: u32 = 0;
        for j in 0..out.len()
            invariant
                self.wf(),
                v < self.node_ids().len(),
                x == self.node_ids()[v as int],
                d == depth_entries(out@),
                out_idx@.len() == out@.len(),
                forall|k: int| 0 <= k < out@.len() ==> (#[trigger] out_idx@[k]) < self.node_ids().len()
                    && out@[k].0@ == self.node_ids()[out_idx@[k] as int],
                m == self.child_depth_max(x, d.take(j as int)),
        {
            proof {
                assert(d.take(j + 1).drop_last() =~= d.take(j as int));
                self.lemma_idx_edge(v as int, out_idx@[j as int] as int);
                assert(d[j as int].0 == self.node_ids()[out_idx@[j as int] as int]);
            }
            if self.has_idx_edge(v, out_idx[j]) && out[j].1 > m {
                m = out[j].1;
            }
        }
        assert(d.take(out@.len() as int) =~= d);
        m
    }

    /// Compute subtree depths: the depth of a node is one more than the
    /// largest depth of its dependencies completed before it.
    ///
    /// The entries come in the order the depth-first walk completes them, so
    /// `root` comes last; each node reachable from `root` comes once; and
    /// each dependency of an entry comes before it unless it reaches that
    /// entry back (a cycle), so where no cycle is reachable, the depth of a
    /// node is one more than the largest depth of all its dependencies.
    #[verifier::rlimit(40)]
    #[verifier::spinoff_prover]
    pub fn subtree_depths(&self, root: &str) -> (r: Vec<(String, u32)>)
        requires
            self.wf(),
            self.size() < 0xffff_ffff,
        ensures
            depth_entries(r@).len() > 0,
            depth_entries(r@).last().0 == root@,
            no_dups(depth_entries(r@).map_values(|e: (Seq<char>, nat)| e.0)),
            forall|k: int| 0 <= k < r@.len() ==> #[trigger] depth_entries(r@)[k].1
                == 1 + self.child_depth_max(depth_entries(r@)[k].0, depth_entries(r@).take(k)),
            forall|k: int| 0 <= k < r@.len() ==> self.reaches(root@, #[trigger] depth_entries(r@)[k].0),
            forall|x: Seq<char>|
                self.reaches(root@, x) ==> exists|k: int| 0 <= k < r@.len() && #[trigger] depth_entries(r@)[k].0 == x,
            forall|k: int, w: Seq<char>|
                0 <= k < r@.len() && #[trigger] self.has_edge(depth_entries(r@)[k].0, w) ==> (exists|j: int|
                    0 <= j < k && #[trigger] depth_entries(r@)[j].0 == w) || self.reaches(w, depth_entries(r@)[k].0),
    {
        let key = crate::text::owned(root);
        let start = match self.find(&key) {
            Some(i) => i,
            None => {
                let mut r: Vec<(String, u32)> = Vec::new();
                r.push((key, 1));
                proof {
                    let d = depth_entries(r@);
                    assert(d[0] == (root@, 1nat));
                    assert(d.take(0) =~= Seq::<(Seq<char>, nat)>::empty());
                    self.lemma_reaches_self(root@);
                    assert(d.map_values(|e: (Seq<char>, nat)| e.0)[0] == root@);
                    assert(!self.node_ids().contains(root@));
                    assert forall|x: Seq<char>| self.reaches(root@, x) implies exists|k: int|
                        0 <= k < r@.len() && #[trigger] depth_entries(r@)[k].0 == x by {
                        self.lemma_reach_unknown(root@, x);
                        assert(depth_entries(r@)[0].0 == x);
                    }
                    assert forall|k: int, w: Seq<char>|
                        0 <= k < r@.len() && #[trigger] self.has_edge(depth_entries(r@)[k].0, w) implies false by {
                        assert(depth_entries(r@)[k].0 == root@);
                        self.lemma_edge_positions(root@, w);
                    }
                }
                return r;
            },
        };
        let n = self.nodes.len();
        let mut state: Vec<u8> = Vec::new();
        for i in 0..n
            invariant
                state@.len() == i,
                forall|j: int| 0 <= j < i ==> state@[j] == 0,
        {
            state.push(0);
        }
        proof {
            lemma_count_all(state@, 0);
            lemma_count_none(state@, 2);
        }
        let mut out: Vec<(String, u32)> = Vec::new();
        let mut out_idx: Vec<usize> = Vec::new();
        let mut stack: Vec<(usize, bool)> = Vec::new();
        stack.push((start, false));
        proof {
            self.lemma_reaches_self(root@);
            lemma_count_bound(state@, 2, 0);
        }
        proof {
            assert(self.dfs_inv(root@, start, state@, out@, out_idx@, stack@));
        }
        while stack.len() > 0
            invariant
                self.wf(),
                n == self.node_ids().len(),
                self.dfs_inv(root@, start, state@, out@, out_idx@, stack@),
            decreases count_eq(state@, 0), stack@.len(),
        {
            let ghost pre = stack@;
            let top = stack.pop();
            let (node, processed) = top.unwrap();
            proof {
                assert(pre =~= stack@.push((node, processed)));
            }
            if processed {
                self.complete_node(&mut state, &mut out, &mut out_idx, &stack, node, Ghost(root@), start, Ghost(pre));
            } else if state[node] != 0 {
                proof { self.lemma_skip_visited(root@, start, state@, out@, out_idx@, stack@, node, pre); }
            } else {
                self.visit_node(&mut state, &mut stack, node, Ghost(root@), start, Ghost(out@), Ghost(out_idx@), Ghost(pre));
            }
        }
        proof {
            let d = depth_entries(out@);
            let names = d.map_values(|e: (Seq<char>, nat)| e.0);
            assert(state@[start as int] <= 2);
            assert(state@[start as int] == 2);
            assert(d.last().0 == out@[out@.len() - 1].0@);
            assert(d.last().0 == root@);
            assert forall|a: int, b: int| 0 <= a < names.len() && 0 <= b < names.len() && a != b
                implies names[a] != names[b] by {
                assert(names[a] == self.node_ids()[out_idx@[a] as int]);
                assert(names[b] == self.node_ids()[out_idx@[b] as int]);
            }
            // Every node reachable from the root got a depth.
            assert forall|j: int| 0 <= j < n && #[trigger] state@[j] != 0 implies state@[j] == 2 by {
                if state@[j] == 1 {
                    let e = choose|e: int| 0 <= e < stack@.len() && #[trigger] stack@[e] == (j as usize, true);
                }
            }
            assert forall|x: Seq<char>| self.reaches(root@, x) implies exists|k: int|
                0 <= k < out@.len() && #[trigger] depth_entries(out@)[k].0 == x by {
                let w = choose|w: Seq<Seq<char>>| #[trigger] self.is_path(w) && w[0] == root@ && w.last() == x;
                assert forall|j: int, k: int|
                    #![trigger state@[j], self.dep_idx@[j]@[k]]
                    0 <= j < n && state@[j] != 0 && 0 <= k < self.dep_idx@[j]@.len() implies state@[
                        self.dep_idx@[j]@[k] as int
                    ] != 0 by {
                    if state@[self.dep_idx@[j]@[k] as int] == 0 {
                        let e = choose|e: int| 0 <= e < stack@.len() && #[trigger] stack@[e] == (self.dep_idx@[j]@[k], false);
                    }
                }
                self.lemma_walk_marked(state@, start, w, w.len() - 1);
                let p = self.pos(x);
                assert(state@[p] == 2);
                let k = choose|k: int| 0 <= k < out_idx@.len() && out_idx@[k] == p as usize;
                assert(d[k].0 == out@[k].0@);
                assert(d[k].0 == x);
            }
            // Every dependency of an entry came before it, or reaches it back.
            assert forall|k: int, w: Seq<char>|
                0 <= k < out@.len() && #[trigger] self.has_edge(d[k].0, w) implies (exists|j: int|
                    0 <= j < k && #[trigger] d[j].0 == w) || self.reaches(w, d[k].0) by {
                let x = d[k].0;
                assert(x == self.node_ids()[out_idx@[k] as int]);
                self.lemma_pos(out_idx@[k] as int);
                self.lemma_edge_positions(x, w);
                let kk = choose|kk: int|
                    0 <= kk < self.dep_idx@[self.pos(x)]@.len() && #[trigger] self.dep_idx@[self.pos(x)]@[kk] as int
                        == self.pos(w);
                let wi = self.dep_idx@[out_idx@[k] as int]@[kk];
                assert(self.node_ids().contains(w));
                assert(self.node_ids()[self.pos(w)] == w);
                assert(self.node_ids()[wi as int] == w);
                if exists|j: int| 0 <= j < k && #[trigger] out_idx@[j] == wi {
                    let j = choose|j: int| 0 <= j < k && #[trigger] out_idx@[j] == wi;
                    assert(d[j].0 == self.node_ids()[out_idx@[j] as int]);
                }
            }
        }
        out
    }

    /// A node that depends on something is a node, and each of its
    /// dependencies is a node it has an edge to by position.
    proof fn lemma_edge_positions(&self, a: Seq<char>, b: Seq<char>)
        requires
            self.wf(),
            self.has_edge(a, b),
        ensures
            self.node_ids().contains(a),
            self.node_ids().contains(b),
            exists|k: int|
                0 <= k < self.dep_idx@[self.pos(a)]@.len() && #[trigger] self.dep_idx@[self.pos(a)]@[k] as int == self.pos(b),
    {
        let ia = self.pos(a);
        assert(self.node_ids().contains(a));
        assert(0 <= ia < self.node_ids().len() && self.node_ids()[ia] == a);
        let ds = views(self.deps@[ia]@);
        let k = choose|k: int| 0 <= k < ds.len() && ds[k] == b;
        let j = self.dep_idx@[ia]@[k] as int;
        assert(self.node_ids()[j] == b);
        self.lemma_pos(j);
    }

    /// Along a walk from the node at `start`, in a set of marks closed under
    /// dependencies, every node is marked.
    proof fn lemma_walk_marked(&self, state: Seq<u8>, start: usize, w: Seq<Seq<char>>, i: int)
        requires
            self.wf(),
            state.len() == self.node_ids().len(),
            start < self.node_ids().len(),
            state[start as int] != 0,
            forall|j: int, k: int|
                #![trigger state[j], self.dep_idx@[j]@[k]]
                0 <= j < self.node_ids().len() && state[j] != 0 && 0 <= k < self.dep_idx@[j]@.len() ==> state[
                    self.dep_idx@[j]@[k] as int
                ] != 0,
            self.is_path(w),
            w[0] == self.node_ids()[start as int],
            0 <= i < w.len(),
        ensures
            self.node_ids().contains(w[i]),
            state[self.pos(w[i])] != 0,
        decreases i,
    {
        if i == 0 {
            self.lemma_pos(start as int);
        } else {
            self.lemma_walk_marked(state, start, w, i - 1);
            assert(self.has_edge(w[i - 1], w[i]));
            self.lemma_edge_positions(w[i - 1], w[i]);
            let ia = self.pos(w[i - 1]);
            let k = choose|k: int|
                0 <= k < self.dep_idx@[ia]@.len() && #[trigger] self.dep_idx@[ia]@[k] as int == self.pos(w[i]);
            assert(state[ia] != 0);
            assert(state[self.dep_idx@[ia]@[k] as int] != 0);
        }
    }

    /// From an id that is no node, only that id is reachable.
    proof fn lemma_reach_unknown(&self, a: Seq<char>, x: Seq<char>)
        requires
            self.wf(),
            !self.node_ids().contains(a),
            self.reaches(a, x),
        ensures
            x == a,
    {
        let w = choose|w: Seq<Seq<char>>| #[trigger] self.is_path(w) && w[0] == a && w.last() == x;
        if w.len() > 1 {
            assert(self.has_edge(w[0], w[1]));
            self.lemma_edge_positions(w[0], w[1]);
        }
    }

    /// What the depth-first walk of `subtree_depths` keeps true.
    spec fn dfs_inv(&self, root: Seq<char>, start: usize, state: Seq<u8>, out: Seq<(String, u32)>,
        out_idx: Seq<usize>, stack: Seq<(usize, bool)>) -> bool {
        let n = self.node_ids().len();
        &&& n < 0xffff_ffff
        &&& start < n
        &&& self.node_ids()[start as int] == root
        &&& state.len() == n
        &&& (forall|j: int| 0 <= j < n ==> #[trigger] state[j] <= 2)
        &&& out_idx.len() == out.len()
        &&& out.len() == count_eq(state, 2)
        &&& (forall|k: int| 0 <= k < out.len() ==> (#[trigger] out_idx[k]) < n
            && out[k].0@ == self.node_ids()[out_idx[k] as int]
            && state[out_idx[k] as int] == 2)
        &&& (forall|j: int| 0 <= j < n && #[trigger] state[j] == 2 ==> out_idx.contains(j as usize))
        &&& (forall|a: int, b: int| 0 <= a < out.len() && 0 <= b < out.len() && a != b
            ==> out_idx[a] != out_idx[b])
        &&& (forall|k: int| 0 <= k < out.len() ==> #[trigger] depth_entries(out)[k].1
            == 1 + self.child_depth_max(depth_entries(out)[k].0, depth_entries(out).take(k)))
        &&& (forall|k: int| 0 <= k < out.len() ==> (#[trigger] out[k]).1 <= k + 1)
        &&& (forall|k: int| 0 <= k < out.len() ==> self.reaches(root, #[trigger] depth_entries(out)[k].0))
        &&& (forall|e: int| 0 <= e < stack.len() ==> (#[trigger] stack[e]).0 < n
            && self.reaches(root, self.node_ids()[stack[e].0 as int]))
        &&& (forall|e: int| 0 <= e < stack.len() && (#[trigger] stack[e]).1 ==> state[stack[e].0 as int] == 1)
        &&& (forall|a: int, b: int| 0 <= a < stack.len() && 0 <= b < stack.len() && a != b
            && stack[a].1 && stack[b].1 ==> stack[a].0 != stack[b].0)
        &&& (forall|j: int| 0 <= j < n && #[trigger] state[j] == 1 ==> exists|e: int| 0 <= e < stack.len()
            && #[trigger] stack[e] == (j as usize, true))
        &&& (state[start as int] == 0 ==> stack.len() == 1 && stack[0] == (start, false) && out.len() == 0)
        &&& (state[start as int] == 1 ==> stack.len() >= 1 && stack[0] == (start, true))
        &&& (state[start as int] == 2 ==> stack.len() == 0 && out_idx.len() > 0 && out_idx.last() == start)
        &&& (forall|j: int, k: int|
            #![trigger state[j], self.dep_idx@[j]@[k]]
            0 <= j < n && state[j] != 0 && 0 <= k < self.dep_idx@[j]@.len() ==> state[self.dep_idx@[j]@[k] as int] != 0
                || exists|e: int| 0 <= e < stack.len() && #[trigger] stack[e] == (self.dep_idx@[j]@[k], false))
        &&& self.chain_reaches(stack)
        &&& self.marker_deps(state, stack)
        &&& self.out_post_order(out_idx)
    }

    /// Each gray node on the stack reaches the node of every entry above it.
    spec fn chain_reaches(&self, stack: Seq<(usize, bool)>) -> bool {
        forall|a: int, e: int|
            #![trigger stack[a], stack[e]]
            0 <= a < e < stack.len() && stack[a].1 ==> self.reaches(
                self.node_ids()[stack[a].0 as int],
                self.node_ids()[stack[e].0 as int],
            )
    }

    /// Each dependency of a gray node on the stack was visited, or waits on
    /// the stack above it.
    spec fn marker_deps(&self, state: Seq<u8>, stack: Seq<(usize, bool)>) -> bool {
        forall|m: int, k: int|
            #![trigger stack[m], self.dep_idx@[stack[m].0 as int]@[k]]
            0 <= m < stack.len() && stack[m].1 && 0 <= k < self.dep_idx@[stack[m].0 as int]@.len() ==> state[
                self.dep_idx@[stack[m].0 as int]@[k] as int
            ] != 0 || exists|e: int|
                m < e < stack.len() && #[trigger] stack[e] == (self.dep_idx@[stack[m].0 as int]@[k], false)
    }

    /// Each dependency of a completed node was completed before it, or
    /// reaches it back.
    spec fn out_post_order(&self, out_idx: Seq<usize>) -> bool {
        forall|k: int, kk: int|
            #![trigger out_idx[k], self.dep_idx@[out_idx[k] as int]@[kk]]
            0 <= k < out_idx.len() && 0 <= kk < self.dep_idx@[out_idx[k] as int]@.len() ==> (exists|j: int|
                0 <= j < k && #[trigger] out_idx[j] == self.dep_idx@[out_idx[k] as int]@[kk]) || self.reaches(
                self.node_ids()[self.dep_idx@[out_idx[k] as int]@[kk] as int],
                self.node_ids()[out_idx[k] as int],
            )
    }

    /// Popping a node that is already visited keeps the walk consistent.
    proof fn lemma_skip_visited(&self, root: Seq<char>, start: usize, state: Seq<u8>, out: Seq<(String, u32)>,
        out_idx: Seq<usize>, stack: Seq<(usize, bool)>, node: usize, pre: Seq<(usize, bool)>)
        requires
            self.dfs_inv(root, start, state, out, out_idx, pre),
            pre == stack.push((node, false)),
            node < state.len(),
            state[node as int] != 0,
        ensures
            self.dfs_inv(root, start, state, out, out_idx, stack),
    {
        let n = self.node_ids().len();
        let top_pos = pre.len() - 1;
        assert(pre[top_pos] == (node, false));
        assert forall|e: int| 0 <= e < stack.len() implies #[trigger] stack[e] == pre[e] by {}
        assert forall|j: int| 0 <= j < n && #[trigger] state[j] == 1 implies exists|e: int| 0 <= e < stack.len()
            && #[trigger] stack[e] == (j as usize, true) by {
            let e = choose|e: int| 0 <= e < pre.len() && #[trigger] pre[e] == (j as usize, true);
            assert(e != top_pos);
            assert(stack[e] == pre[e]);
        }
        assert forall|e: int| 0 <= e < stack.len() && (#[trigger] stack[e]).1 implies state[stack[e].0 as int] == 1 by {
            assert(stack[e] == pre[e]);
        }
        assert forall|e: int| 0 <= e < stack.len() implies (#[trigger] stack[e]).0 < n
            && self.reaches(root, self.node_ids()[stack[e].0 as int]) by {
            assert(stack[e] == pre[e]);
        }
        assert forall|a: int, b: int| 0 <= a < stack.len() && 0 <= b < stack.len() && a != b
            && stack[a].1 && stack[b].1 implies stack[a].0 != stack[b].0 by {
            assert(stack[a] == pre[a] && stack[b] == pre[b]);
        }
        if state[start as int] == 1 {
            assert(pre[0] == (start, true));
            assert(top_pos != 0);
            assert(stack[0] == pre[0]);
        } else if state[start as int] == 0 {
            assert(pre[0] == (start, false));
            assert(top_pos == 0);
        }
    }

    /// Completes node `node`, whose marker was just popped: its depth is recorded.
    fn complete_node(&self, state: &mut Vec<u8>, out: &mut Vec<(String, u32)>, out_idx: &mut Vec<usize>,
        stack: &Vec<(usize, bool)>, node: usize, Ghost(root): Ghost<Seq<char>>, start: usize,
        Ghost(pre): Ghost<Seq<(usize, bool)>>)
        requires
            self.wf(),
            self.dfs_inv(root, start, old(state)@, old(out)@, old(out_idx)@, pre),
            pre == stack@.push((node, true)),
        ensures
            self.dfs_inv(root, start, final(state)@, final(out)@, final(out_idx)@, stack@),
            count_eq(final(state)@, 0) == count_eq(old(state)@, 0),
    {
        let n = self.nodes.len();
        let ghost pre_state = state@;
        let ghost pre_idx = out_idx@;
        let ghost pre_out = out@;
        let ghost top_pos = pre.len() - 1;
        assert(pre[top_pos] == (node, true));
        assert forall|e: int| 0 <= e < stack@.len() implies #[trigger] stack@[e] == pre[e] by {}
        let m = self.max_child_depth(node, out, out_idx);
        proof {
            assert(pre_state[node as int] == 1);
            lemma_count_update(state@, node as int, 2, 2);
            lemma_count_update(state@, node as int, 2, 0);
            lemma_child_depth_max_bound(self, self.node_ids()[node as int], depth_entries(out@));
            lemma_count_bound(state@, 2, 0);
        }
        state.set(node, 2);
        out.push((self.nodes[node].clone(), m + 1));
        out_idx.push(node);
        proof {
            let d = depth_entries(out@);
            assert(depth_entries(pre_out) =~= d.take(pre_out.len() as int));
            assert forall|k: int| 0 <= k < out@.len() implies #[trigger] depth_entries(out@)[k].1
                == 1 + self.child_depth_max(depth_entries(out@)[k].0, depth_entries(out@).take(k)) by {
                if k < pre_out.len() {
                    assert(d.take(k) =~= depth_entries(pre_out).take(k));
                    assert(d[k] == depth_entries(pre_out)[k]);
                }
            }
            assert forall|k: int| 0 <= k < out@.len() implies (#[trigger] out@[k]).1 <= k + 1 by {
                if k < pre_out.len() {
                    assert(out@[k] == pre_out[k]);
                }
            }
            assert forall|k: int| 0 <= k < out@.len() implies self.reaches(root, #[trigger] depth_entries(out@)[k].0) by {
                if k < pre_out.len() {
                    assert(d[k] == depth_entries(pre_out)[k]);
                } else {
                    assert(pre[top_pos].0 == node);
                }
            }
            assert forall|k: int| 0 <= k < out@.len() implies (#[trigger] out_idx@[k]) < n
                && out@[k].0@ == self.node_ids()[out_idx@[k] as int]
                && state@[out_idx@[k] as int] == 2 by {
                if k < pre_out.len() {
                    assert(out@[k] == pre_out[k]);
                    assert(out_idx@[k] == pre_idx[k]);
                }
            }
            assert forall|e: int| 0 <= e < stack@.len() && (#[trigger] stack@[e]).1 implies state@[stack@[e].0 as int] == 1 by {
                assert(pre[e] == stack@[e]);
                assert(e != top_pos);
            }
            assert forall|j: int| 0 <= j < n && #[trigger] state@[j] == 1 implies exists|e: int| 0 <= e < stack@.len()
                && #[trigger] stack@[e] == (j as usize, true) by {
                assert(pre_state[j] == 1);
                let e = choose|e: int| 0 <= e < pre.len() && #[trigger] pre[e] == (j as usize, true);
                if e == top_pos {
                    assert(j as usize == node);
                    assert(false);
                }
                assert(stack@[e] == pre[e]);
            }
            assert forall|j: int| 0 <= j < n && #[trigger] state@[j] == 2 implies out_idx@.contains(j as usize) by {
                if j == node {
                    assert(out_idx@[out_idx@.len() - 1] == node);
                } else {
                    assert(pre_state[j] == 2);
                    let k = choose|k: int| 0 <= k < pre_idx.len() && pre_idx[k] == j as usize;
                    assert(out_idx@[k] == pre_idx[k]);
                }
            }
            assert forall|a: int, b: int| 0 <= a < out@.len() && 0 <= b < out@.len() && a != b
                implies out_idx@[a] != out_idx@[b] by {
                if a == pre_idx.len() as int {
                    assert(pre_state[out_idx@[b] as int] == 2);
                } else if b == pre_idx.len() as int {
                    assert(pre_state[out_idx@[a] as int] == 2);
                }
            }
            assert forall|e: int| 0 <= e < stack@.len() implies (#[trigger] stack@[e]).0 < n
                && self.reaches(root, self.node_ids()[stack@[e].0 as int]) by {
                assert(stack@[e] == pre[e]);
            }
            assert forall|a: int, b: int| 0 <= a < stack@.len() && 0 <= b < stack@.len() && a != b
                && stack@[a].1 && stack@[b].1 implies stack@[a].0 != stack@[b].0 by {
                assert(stack@[a] == pre[a] && stack@[b] == pre[b]);
            }
            if node == start {
                assert(pre[0] == (start, true));
                assert(top_pos == 0);
            } else if pre_state[start as int] == 1 {
                assert(pre[0] == (start, true));
                assert(top_pos != 0);
                assert(stack@[0] == pre[0]);
            } else if pre_state[start as int] == 0 {
                assert(pre[0] == (start, false));
            }
            // The stack below the popped marker keeps its facts.
            assert forall|a: int, e: int|
                #![trigger stack@[a], stack@[e]]
                0 <= a < e < stack@.len() && stack@[a].1 implies self.reaches(
                    self.node_ids()[stack@[a].0 as int],
                    self.node_ids()[stack@[e].0 as int],
                ) by {
                assert(stack@[a] == pre[a] && stack@[e] == pre[e]);
            }
            assert forall|m: int, k: int|
                #![trigger stack@[m], self.dep_idx@[stack@[m].0 as int]@[k]]
                0 <= m < stack@.len() && stack@[m].1 && 0 <= k < self.dep_idx@[stack@[m].0 as int]@.len() implies state@[
                    self.dep_idx@[stack@[m].0 as int]@[k] as int
                ] != 0 || exists|e: int|
                    m < e < stack@.len() && #[trigger] stack@[e] == (self.dep_idx@[stack@[m].0 as int]@[k], false) by {
                assert(stack@[m] == pre[m]);
                let w = self.dep_idx@[pre[m].0 as int]@[k];
                assert(w < n);
                if pre_state[w as int] == 0 {
                    let e = choose|e: int| m < e < pre.len() && #[trigger] pre[e] == (w, false);
                    assert(e != top_pos);
                    assert(stack@[e] == pre[e]);
                }
            }
            // The completed node: each dependency completed before it, or
            // gray and so reaching it back.
            assert forall|k: int, kk: int|
                #![trigger out_idx@[k], self.dep_idx@[out_idx@[k] as int]@[kk]]
                0 <= k < out_idx@.len() && 0 <= kk < self.dep_idx@[out_idx@[k] as int]@.len() implies (exists|j: int|
                    0 <= j < k && #[trigger] out_idx@[j] == self.dep_idx@[out_idx@[k] as int]@[kk]) || self.reaches(
                    self.node_ids()[self.dep_idx@[out_idx@[k] as int]@[kk] as int],
                    self.node_ids()[out_idx@[k] as int],
                ) by {
                let w = self.dep_idx@[out_idx@[k] as int]@[kk];
                if k < pre_idx.len() {
                    assert(out_idx@[k] == pre_idx[k]);
                    if exists|j: int| 0 <= j < k && #[trigger] pre_idx[j] == w {
                        let j = choose|j: int| 0 <= j < k && #[trigger] pre_idx[j] == w;
                        assert(out_idx@[j] == pre_idx[j]);
                    }
                } else {
                    assert(out_idx@[k] == node);
                    assert(pre[top_pos].1 && pre[top_pos].0 == node);
                    assert(w < n);
                    if pre_state[w as int] == 0 {
                        let e = choose|e: int| top_pos < e < pre.len() && #[trigger] pre[e] == (w, false);
                        assert(false);
                    }
                    if pre_state[w as int] == 2 {
                        assert(pre_idx.contains(w));
                        let j = choose|j: int| 0 <= j < pre_idx.len() && pre_idx[j] == w;
                        assert(out_idx@[j] == pre_idx[j]);
                    } else {
                        assert(pre_state[w as int] == 1);
                        let b = choose|b: int| 0 <= b < pre.len() && #[trigger] pre[b] == (w as usize, true);
                        if b == top_pos {
                            self.lemma_reaches_self(self.node_ids()[w as int]);
                        } else {
                            assert(pre[b].1);
                        }
                    }
                }
            }
        }
    }

    /// Visits node `node`, which was not visited: pushes its marker, then its
    /// unvisited dependencies.
    #[verifier::rlimit(40)]
    #[verifier::spinoff_prover]
    fn visit_node(&self, state: &mut Vec<u8>, stack: &mut Vec<(usize, bool)>, node: usize,
        Ghost(root): Ghost<Seq<char>>, start: usize, Ghost(out): Ghost<Seq<(String, u32)>>, Ghost(out_idx): Ghost<Seq<usize>>,
        Ghost(pre): Ghost<Seq<(usize, bool)>>)
        requires
            self.wf(),
            self.dfs_inv(root, start, old(state)@, out, out_idx, pre),
            pre == old(stack)@.push((node, false)),
            old(state)@[node as int] == 0,
        ensures
            self.dfs_inv(root, start, final(state)@, out, out_idx, final(stack)@),
            count_eq(final(state)@, 0) < count_eq(old(state)@, 0),
    {
        let n = self.nodes.len();
        let ghost pre_state = state@;
        let ghost top_pos = pre.len() - 1;
        assert(pre[top_pos] == (node, false));
        assert forall|e: int| 0 <= e < stack@.len() implies #[trigger] stack@[e] == pre[e] by {}
        proof {
            lemma_count_bound(state@, 0, node as int);
            lemma_count_update(state@, node as int, 1, 0);
            lemma_count_update(state@, node as int, 1, 2);
            assert forall|e: int| 0 <= e < stack@.len() && (#[trigger] stack@[e]).1 implies stack@[e].0 != node by {
                assert(pre[e] == stack@[e]);
            }
            if pre_state[start as int] == 1 {
                assert(pre[0] == (start, true));
                assert(top_pos != 0);
                assert(stack@[0] == pre[0]);
            } else if pre_state[start as int] == 0 {
                assert(pre[0] == (start, false));
                assert(node == start);
                assert(stack@.len() == 0);
            }
        }
        let ghost mid = stack@;
        state.set(node, 1);
        stack.push((node, true));
        let ghost with_marker = stack@;
        self.push_unvisited(stack, node, state, Ghost(root));
        proof {
            assert(with_marker == mid.push((node, true)));
            assert(stack@[mid.len() as int] == with_marker[mid.len() as int]);
            assert(stack@[mid.len() as int] == (node, true));
            assert forall|e: int| 0 <= e < mid.len() implies #[trigger] stack@[e] == mid[e] by {
                assert(stack@[e] == with_marker[e]);
            }
            assert forall|j: int| 0 <= j < n && #[trigger] state@[j] == 1 implies exists|e: int| 0 <= e < stack@.len()
                && #[trigger] stack@[e] == (j as usize, true) by {
                if j == node {
                    assert(stack@[mid.len() as int] == (node, true));
                } else {
                    assert(pre_state[j] == 1);
                    let e = choose|e: int| 0 <= e < pre.len() && #[trigger] pre[e] == (j as usize, true);
                    assert(e != top_pos);
                    assert(stack@[e] == mid[e]);
                }
            }
            assert forall|e: int| 0 <= e < stack@.len() && (#[trigger] stack@[e]).1 implies state@[stack@[e].0 as int] == 1 by {
                if e < mid.len() {
                    assert(stack@[e] == mid[e]);
                }
            }
            assert forall|a: int, b: int| 0 <= a < stack@.len() && 0 <= b < stack@.len() && a != b
                && stack@[a].1 && stack@[b].1 implies stack@[a].0 != stack@[b].0 by {
                if a < mid.len() && b < mid.len() {
                    assert(stack@[a] == mid[a] && stack@[b] == mid[b]);
                } else if a == mid.len() as int && b < mid.len() {
                    assert(stack@[b] == mid[b]);
                } else if b == mid.len() as int && a < mid.len() {
                    assert(stack@[a] == mid[a]);
                }
            }
            assert forall|e: int| 0 <= e < stack@.len() implies (#[trigger] stack@[e]).0 < n
                && self.reaches(root, self.node_ids()[stack@[e].0 as int]) by {
                if e < mid.len() {
                    assert(stack@[e] == mid[e]);
                } else if e == mid.len() as int {
                    assert(pre[top_pos].0 == node);
                }
            }
            assert forall|k: int| 0 <= k < out.len() implies state@[out_idx[k] as int] == 2 by {
                assert(pre_state[out_idx[k] as int] == 2);
            }
            assert forall|j: int| 0 <= j < n && #[trigger] state@[j] == 2 implies out_idx.contains(j as usize) by {
                assert(pre_state[j] == 2);
            }
            if pre_state[start as int] == 1 {
                assert(stack@[0] == mid[0]);
            } else if node == start {
                assert(stack@[0] == (start, true));
            }
            assert forall|j: int, k: int|
                #![trigger state@[j], self.dep_idx@[j]@[k]]
                0 <= j < n && state@[j] != 0 && 0 <= k < self.dep_idx@[j]@.len() implies state@[
                    self.dep_idx@[j]@[k] as int
                ] != 0 || exists|e: int| 0 <= e < stack@.len() && #[trigger] stack@[e] == (self.dep_idx@[j]@[k], false) by {
                let w = self.dep_idx@[j]@[k];
                assert(w < n);
                if j != node as int && state@[w as int] == 0 {
                    assert(pre_state[j] != 0);
                    assert(pre_state[w as int] == 0);
                    let e = choose|e: int| 0 <= e < pre.len() && #[trigger] pre[e] == (w, false);
                    if e == top_pos {
                        assert(w == node);
                        assert(false);
                    }
                    assert(stack@[e] == mid[e]);
                }
            }
            let t = mid.len() as int;
            assert(t == top_pos);
            assert forall|e: int| t < e < stack@.len() implies self.reaches(
                self.node_ids()[node as int],
                self.node_ids()[(#[trigger] stack@[e]).0 as int],
            ) by {
                assert(self.idx_edge(node as int, stack@[e].0 as int));
                self.lemma_idx_edge(node as int, stack@[e].0 as int);
                self.lemma_reaches_self(self.node_ids()[node as int]);
                self.lemma_reaches_step(self.node_ids()[node as int], self.node_ids()[node as int], self.node_ids()[stack@[e].0 as int]);
            }
            assert forall|a: int, e: int|
                #![trigger stack@[a], stack@[e]]
                0 <= a < e < stack@.len() && stack@[a].1 implies self.reaches(
                    self.node_ids()[stack@[a].0 as int],
                    self.node_ids()[stack@[e].0 as int],
                ) by {
                if a < t {
                    assert(stack@[a] == pre[a]);
                    assert(pre[a].1);
                    assert(self.reaches(self.node_ids()[pre[a].0 as int], self.node_ids()[pre[top_pos].0 as int]));
                    if e < t {
                        assert(stack@[e] == pre[e]);
                    } else if e == t {
                    } else {
                        assert(self.idx_edge(node as int, stack@[e].0 as int));
                        self.lemma_idx_edge(node as int, stack@[e].0 as int);
                        self.lemma_reaches_step(self.node_ids()[pre[a].0 as int], self.node_ids()[node as int], self.node_ids()[stack@[e].0 as int]);
                    }
                } else {
                    assert(a == t);
                }
            }
            assert forall|m: int, k: int|
                #![trigger stack@[m], self.dep_idx@[stack@[m].0 as int]@[k]]
                0 <= m < stack@.len() && stack@[m].1 && 0 <= k < self.dep_idx@[stack@[m].0 as int]@.len() implies state@[
                    self.dep_idx@[stack@[m].0 as int]@[k] as int
                ] != 0 || exists|e: int|
                    m < e < stack@.len() && #[trigger] stack@[e] == (self.dep_idx@[stack@[m].0 as int]@[k], false) by {
                if m < t {
                    assert(stack@[m] == pre[m]);
                    let w = self.dep_idx@[pre[m].0 as int]@[k];
                    assert(w < n);
                    if state@[w as int] == 0 {
                        assert(pre_state[w as int] == 0);
                        let e = choose|e: int| m < e < pre.len() && #[trigger] pre[e] == (w, false);
                        if e == top_pos {
                            assert(w == node);
                            assert(false);
                        }
                        assert(stack@[e] == mid[e]);
                    }
                } else {
                    assert(m == t);
                    assert(stack@[m].0 == node);
                }
            }
        }
    }

    /// Pushes, last first, the dependencies of `node` that are not visited yet.
    fn push_unvisited(&self, stack: &mut Vec<(usize, bool)>, node: usize, state: &Vec<u8>, Ghost(root): Ghost<Seq<char>>)
        requires
            self.wf(),
            node < self.node_ids().len(),
            state@.len() == self.node_ids().len(),
            self.reaches(root, self.node_ids()[node as int]),
        ensures
            final(stack)@.len() >= old(stack)@.len(),
            forall|e: int| 0 <= e < old(stack)@.len() ==> #[trigger] final(stack)@[e] == old(stack)@[e],
            forall|e: int| old(stack)@.len() <= e < final(stack)@.len() ==> !(#[trigger] final(stack)@[e]).1
                && final(stack)@[e].0 < self.node_ids().len()
                && self.reaches(root, self.node_ids()[final(stack)@[e].0 as int]),
            forall|k: int|
                0 <= k < self.dep_idx@[node as int]@.len() ==> state@[#[trigger] self.dep_idx@[node as int]@[k] as int] != 0
                    || exists|e: int|
                    old(stack)@.len() <= e < final(stack)@.len() && #[trigger] final(stack)@[e] == (
                    self.dep_idx@[node as int]@[k],
                    false,
                ),
            forall|e: int|
                old(stack)@.len() <= e < final(stack)@.len() ==> self.idx_edge(node as int, (
                #[trigger] final(stack)@[e]).0 as int),
    {
        let n = self.nodes.len();
        let ds = &self.dep_idx[node];
        let mut k = ds.len();
        while k > 0
            invariant
                self.wf(),
                n == self.node_ids().len(),
                node < n,
                state@.len() == n,
                ds == &self.dep_idx@[node as int],
                k <= ds@.len(),
                self.reaches(root, self.node_ids()[node as int]),
                stack@.len() >= old(stack)@.len(),
                forall|e: int| 0 <= e < old(stack)@.len() ==> #[trigger] stack@[e] == old(stack)@[e],
                forall|e: int| old(stack)@.len() <= e < stack@.len() ==> !(#[trigger] stack@[e]).1
                    && stack@[e].0 < n
                    && self.reaches(root, self.node_ids()[stack@[e].0 as int]),
                forall|q: int|
                    k <= q < ds@.len() ==> state@[#[trigger] ds@[q] as int] != 0 || exists|e: int|
                        old(stack)@.len() <= e < stack@.len() && #[trigger] stack@[e] == (ds@[q], false),
                forall|e: int|
                    old(stack)@.len() <= e < stack@.len() ==> self.idx_edge(node as int, (#[trigger] stack@[e]).0 as int),
            decreases k,
        {
            k = k - 1;
            let dep = ds[k];
            assert(dep < n) by {
                assert(self.dep_idx@[node as int]@[k as int] == dep);
            }
            if state[dep] == 0 {
                proof {
                    assert(self.idx_edge(node as int, dep as int));
                    self.lemma_idx_edge(node as int, dep as int);
                    self.lemma_reaches_step(root, self.node_ids()[node as int], self.node_ids()[dep as int]);
                }
                let ghost before = stack@;
                stack.push((dep, false));
                proof {
                    assert(stack@[before.len() as int] == (dep, false));
                    assert forall|e: int| old(stack)@.len() <= e < stack@.len() implies self.idx_edge(
                        node as int,
                        (#[trigger] stack@[e]).0 as int,
                    ) by {
                        if e < before.len() {
                            assert(stack@[e] == before[e]);
                        } else {
                            assert(self.dep_idx@[node as int]@[k as int] == stack@[e].0);
                        }
                    }
                    assert forall|q: int| k <= q < ds@.len() implies state@[#[trigger] ds@[q] as int] != 0 || exists|e: int|
                        old(stack)@.len() <= e < stack@.len() && #[trigger] stack@[e] == (ds@[q], false) by {
                        if q == k {
                            assert(stack@[before.len() as int] == (ds@[q], false));
                        } else if state@[ds@[q] as int] == 0 {
                            let e = choose|e: int| old(stack)@.len() <= e < before.len() && #[trigger] before[e] == (ds@[q], false);
                            assert(stack@[e] == before[e]);
                        }
                    }
                }
            }
        }
    }
}

proof fn lemma_child_depth_max_bound(g: &DependencyGraph, x: Seq<char>, d: Seq<(Seq<char>, nat)>)
    requires
        forall|k: int| 0 <= k < d.len() ==> d[k].1 <= k + 1,
    ensures
        g.child_depth_max(x, d) <= d.len(),
    decreases d.len(),
{
    if d.len() > 0 {
        lemma_child_depth_max_bound(g, x, d.drop_last());
    }
}


// ---------------------------------------------------------------------------
// Dependency tree rendering
// ---------------------------------------------------------------------------

/// A line still to be drawn: the ticket id, the indentation before its
/// connector, and whether it is the last of its siblings.
pub type TreeEntry = (Seq<char>, Seq<char>, bool);

pub open spec fn vertical() -> Seq<char> { seq!['\u{2502}', ' ', ' ', ' '] }
pub open spec fn blank() -> Seq<char> { seq![' ', ' ', ' ', ' '] }
pub open spec fn tee() -> Seq<char> { seq!['\u{251C}', '\u{2500}', '\u{2500}', ' '] }
pub open spec fn elbow() -> Seq<char> { seq!['\u{2514}', '\u{2500}', '\u{2500}', ' '] }

/// `format!("{:?}", status)` of a known status; empty for an unknown one.
pub open spec fn status_debug(o: Option<Status>) -> Seq<char> {
    match o {
        Some(Status::Open) => seq!['O', 'p', 'e', 'n'],
        Some(Status::InProgress) => seq!['I', 'n', 'P', 'r', 'o', 'g', 'r', 'e', 's', 's'],
        Some(Status::Closed) => seq!['C', 'l', 'o', 's', 'e', 'd'],
        None => Seq::empty(),
    }
}

pub open spec fn text_or_empty(o: Option<Seq<char>>) -> Seq<char> {
    match o {
        Some(t) => t,
        None => Seq::empty(),
    }
}

/// " [<status>] <title>\n" for the ticket `id`.
pub open spec fn status_title(statuses: Seq<(String, Status)>, titles: Seq<(String, String)>, id: Seq<char>) -> Seq<char> {
    seq![' ', '['] + status_debug(status_of(statuses, id)) + seq![']', ' ']
        + text_or_empty(title_of(titles, id)) + seq!['\n']
}

/// The ids of `ds` that are drawn: all of them in full mode, else the unvisited ones.
pub open spec fn printable(ds: Seq<Seq<char>>, visited: Set<Seq<char>>, full: bool) -> Seq<Seq<char>>
    decreases ds.len(),
{
    if ds.len() == 0 {
        Seq::empty()
    } else if full || !visited.contains(ds.last()) {
        printable(ds.drop_last(), visited, full).push(ds.last())
    } else {
        printable(ds.drop_last(), visited, full)
    }
}

/// The entries for the dependencies of the root, drawn in order.
pub open spec fn root_entries(p: Seq<Seq<char>>) -> Seq<TreeEntry> {
    Seq::new(p.len(), |i: int| (p[i], if i == p.len() - 1 { blank() } else { vertical() }, i == p.len() - 1))
}

/// The entries for the dependencies of a deeper node, drawn in order under
/// the indentation `prefix`; the last one gets the closing connector.
pub open spec fn child_entries(p: Seq<Seq<char>>, prefix: Seq<char>) -> Seq<TreeEntry> {
    Seq::new(p.len(), |t: int| (p[t], prefix, t == p.len() - 1))
}

impl DependencyGraph {
    /// The text drawn for `entries`, in order, each followed by its own
    /// subtree, and the visited ids afterwards.  `fuel` bounds the nesting.
    pub open spec fn render_list(&self, statuses: Seq<(String, Status)>, titles: Seq<(String, String)>, full: bool,
        entries: Seq<TreeEntry>, visited: Set<Seq<char>>, fuel: nat) -> (Seq<char>, Set<Seq<char>>)
        decreases fuel, entries.len(),
    {
        if entries.len() == 0 {
            (Seq::empty(), visited)
        } else {
            let e = entries[0];
            if !full && visited.contains(e.0) {
                self.render_list(statuses, titles, full, entries.drop_first(), visited, fuel)
            } else if fuel == 0 {
                (Seq::empty(), visited)
            } else {
                let v1 = visited.insert(e.0);
                let line = e.1 + (if e.2 { elbow() } else { tee() }) + status_title(statuses, titles, e.0);
                let kids = printable(self.deps_of(e.0), v1, full);
                let sub = self.render_list(statuses, titles, full,
                    child_entries(kids, e.1 + if e.2 { blank() } else { vertical() }), v1, (fuel - 1) as nat);
                let rest = self.render_list(statuses, titles, full, entries.drop_first(), sub.1, fuel);
                (line + sub.0 + rest.0, rest.1)
            }
        }
    }

    /// The whole rendered tree of `root`.
    pub open spec fn render_spec(&self, root: Seq<char>, statuses: Seq<(String, Status)>,
        titles: Seq<(String, String)>, full: bool) -> Seq<char> {
        let v0 = Set::empty().insert(root);
        root + status_title(statuses, titles, root)
            + self.render_list(statuses, titles, full,
                root_entries(printable(self.deps_of(root), v0, full)), v0, self.size() + 1).0
    }

    /// Every walk along dependencies from `root` visits at most as many
    /// nodes as the graph has: no cycle is reachable from `root`.
    pub open spec fn bounded_from(&self, root: Seq<char>) -> bool {
        forall|w: Seq<Seq<char>>| #[trigger] self.is_path(w) && w[0] == root ==> w.len() <= self.size()
    }

    /// A walk of exactly `len` nodes leads from `a` to `b`.
    pub open spec fn reaches_in(&self, a: Seq<char>, b: Seq<char>, len: nat) -> bool {
        exists|w: Seq<Seq<char>>| #[trigger] self.is_path(w) && w.len() == len && w[0] == a && w.last() == b
    }

    proof fn lemma_reaches_in_step(&self, a: Seq<char>, b: Seq<char>, c: Seq<char>, len: nat)
        requires
            self.reaches_in(a, b, len),
            self.has_edge(b, c),
        ensures
            self.reaches_in(a, c, len + 1),
    {
        let w = choose|w: Seq<Seq<char>>| #[trigger] self.is_path(w) && w.len() == len && w[0] == a && w.last() == b;
        let w2 = w.push(c);
        assert forall|k: int| 0 <= k < w2.len() - 1 implies self.has_edge(#[trigger] w2[k], w2[k + 1]) by {
            if k < w.len() - 1 {
                assert(w2[k] == w[k] && w2[k + 1] == w[k + 1]);
            } else {
                assert(w2[k] == b && w2[k + 1] == c);
            }
        }
        assert(self.is_path(w2));
    }
}

impl DependencyGraph {
    /// The dependencies of a node are nodes.
    proof fn lemma_dep_is_node(&self, x: Seq<char>, y: Seq<char>)
        requires
            self.wf(),
            self.deps_of(x).contains(y),
        ensures
            self.node_ids().contains(y),
    {
        let i = self.pos(x);
        let ds = self.deps_of(x);
        let k = choose|k: int| 0 <= k < ds.len() && ds[k] == y;
        assert(ds == views(self.deps@[i]@));
        let j = self.dep_idx@[i]@[k] as int;
        assert(self.node_ids()[j] == y);
    }

    /// Only a node has dependencies.
    proof fn lemma_source_is_node(&self, x: Seq<char>, y: Seq<char>)
        requires
            self.deps_of(x).contains(y),
        ensures
            self.node_ids().contains(x),
    {
    }

    /// A walk of `k` nodes is a walk of its first `k - 1` nodes and one more edge.
    proof fn lemma_walk_prefix(&self, w: Seq<Seq<char>>, k: int)
        requires
            self.is_path(w),
            1 <= k <= w.len(),
        ensures
            self.is_path(w.take(k)),
            w.take(k)[0] == w[0],
            w.take(k).last() == w[k - 1],
    {
        let p = w.take(k);
        assert forall|t: int| 0 <= t < p.len() - 1 implies self.has_edge(#[trigger] p[t], p[t + 1]) by {
            assert(p[t] == w[t] && p[t + 1] == w[t + 1]);
        }
    }

    /// The layer of walks of `k` nodes from `root`: every node such a walk
    /// can end at is marked.
    pub open spec fn layer_covers(&self, root: Seq<char>, layer: Seq<bool>, k: nat) -> bool {
        &&& layer.len() == self.size()
        &&& forall|j: int| 0 <= j < self.size() && #[trigger] self.reaches_in(root, self.node_ids()[j], k) ==> layer[j]
    }

    /// Node `j` is one edge after a marked node of `layer`.
    pub closed spec fn fed(&self, layer: Seq<bool>, j: int) -> bool {
        exists|a: int| 0 <= a < self.size() && layer[a] && #[trigger] self.idx_edge(a, j)
    }

    /// The nodes one edge after a marked node of `layer`.
    fn successors(&self, layer: &Vec<bool>) -> (next: Vec<bool>)
        requires
            self.wf(),
            layer@.len() == self.size(),
        ensures
            next@.len() == self.size(),
            forall|i: int, j: int| 0 <= i < self.size() && 0 <= j < self.size() && layer@[i]
                && #[trigger] self.idx_edge(i, j) ==> #[trigger] next@[j],
            forall|j: int| 0 <= j < self.size() && #[trigger] next@[j] ==> self.fed(layer@, j),
    {
        let n = self.nodes.len();
        let mut next: Vec<bool> = Vec::new();
        for t in 0..n
            invariant
                next@.len() == t,
                forall|j: int| 0 <= j < t ==> !next@[j],
        {
            next.push(false);
        }
        for i in 0..n
            invariant
                n == self.size(),
                self.wf(),
                layer@.len() == n,
                next@.len() == n,
                forall|a: int, m: int| 0 <= a < i && layer@[a] && 0 <= m < self.dep_idx@[a]@.len()
                    ==> #[trigger] next@[self.dep_idx@[a]@[m] as int],
                forall|j: int| 0 <= j < n && #[trigger] next@[j] ==> self.fed(layer@, j),
        {
            if layer[i] {
                let row = &self.dep_idx[i];
                for m in 0..row.len()
                    invariant
                        n == self.size(),
                        self.wf(),
                        i < n,
                        layer@.len() == n,
                        layer@[i as int],
                        next@.len() == n,
                        row@ == self.dep_idx@[i as int]@,
                        forall|a: int, m2: int| 0 <= a < i && layer@[a] && 0 <= m2 < self.dep_idx@[a]@.len()
                            ==> #[trigger] next@[self.dep_idx@[a]@[m2] as int],
                        forall|m2: int| 0 <= m2 < m ==> #[trigger] next@[row@[m2] as int],
                        forall|j: int| 0 <= j < n && #[trigger] next@[j] ==> self.fed(layer@, j),
                {
                    let x = row[m];
                    assert(x < n);
                    proof {
                        assert(self.dep_idx@[i as int]@[m as int] == x);
                        assert(self.idx_edge(i as int, x as int));
                        assert(self.fed(layer@, x as int));
                    }
                    next.set(x, true);
                }
                assert(row@ == self.dep_idx@[i as int]@);
            }
        }
        proof {
            assert forall|i: int, j: int| 0 <= i < self.size() && 0 <= j < self.size() && layer@[i]
                && #[trigger] self.idx_edge(i, j) implies #[trigger] next@[j] by {
                let m = choose|m: int| 0 <= m < self.dep_idx@[i]@.len() && self.dep_idx@[i]@[m] == j;
                assert(next@[self.dep_idx@[i]@[m] as int]);
            }
        }
        next
    }

    /// One step of the layers: the successors of a layer covering the walks
    /// of `k` nodes cover the walks of `k + 1` nodes.
    proof fn lemma_layer_step(&self, root: Seq<char>, layer: Seq<bool>, next: Seq<bool>, k: nat)
        requires
            self.wf(),
            k >= 1,
            self.node_ids().contains(root),
            self.layer_covers(root, layer, k),
            next.len() == self.size(),
            forall|i: int, j: int| 0 <= i < self.size() && 0 <= j < self.size() && layer[i]
                && #[trigger] self.idx_edge(i, j) ==> #[trigger] next[j],
        ensures
            self.layer_covers(root, next, k + 1),
    {
        assert forall|j: int| 0 <= j < self.size() && #[trigger] self.reaches_in(root, self.node_ids()[j], k + 1)
            implies next[j] by {
            let x = self.node_ids()[j];
            let w = choose|w: Seq<Seq<char>>| #[trigger] self.is_path(w) && w.len() == k + 1 && w[0] == root
                && w.last() == x;
            let b = w[k - 1];
            self.lemma_walk_prefix(w, k as int);
            assert(self.reaches_in(root, b, k)) by {
                assert(self.is_path(w.take(k as int)));
            }
            assert(self.has_edge(w[k - 1], w[k as int]));
            self.lemma_dep_is_node(b, x);
            let i = self.pos(b);
            self.lemma_pos(i);
            assert(0 <= i < self.size() && self.node_ids()[i] == b);
            assert(layer[i]);
            self.lemma_pos(j);
            self.lemma_idx_edge(i, j);
            assert(self.idx_edge(i, j));
        }
    }

    /// Every marked node of the layer ends a walk of `k` nodes from `root`.
    pub open spec fn layer_sound(&self, root: Seq<char>, layer: Seq<bool>, k: nat) -> bool {
        forall|j: int| 0 <= j < self.size() && #[trigger] layer[j] ==> self.reaches_in(root, self.node_ids()[j], k)
    }

    /// The successors of a sound layer are sound one step further.
    proof fn lemma_layer_sound_step(&self, root: Seq<char>, layer: Seq<bool>, next: Seq<bool>, k: nat)
        requires
            self.wf(),
            layer.len() == self.size(),
            self.layer_sound(root, layer, k),
            forall|j: int| 0 <= j < self.size() && #[trigger] next[j] ==> self.fed(layer, j),
        ensures
            self.layer_sound(root, next, k + 1),
    {
        assert forall|j: int| 0 <= j < self.size() && #[trigger] next[j]
            implies self.reaches_in(root, self.node_ids()[j], k + 1) by {
            assert(self.fed(layer, j));
            let a = choose|a: int| 0 <= a < self.size() && layer[a] && #[trigger] self.idx_edge(a, j);
            assert(layer[a]);
            self.lemma_idx_edge(a, j);
            self.lemma_reaches_in_step(root, self.node_ids()[a], self.node_ids()[j], k);
        }
    }

    /// Whether every walk along dependencies from `root` visits at most as
    /// many nodes as the graph has (no cycle is reachable from `root`), as
    /// `render_dep_tree` needs for a full tree. It computes the nodes that
    /// walks of each length can reach, up to one more than the node count.
    #[verifier::spinoff_prover]
    #[verifier::rlimit(40)]
    pub fn is_bounded_from(&self, root: &str) -> (r: bool)
        requires
            self.wf(),
        ensures
            r == self.bounded_from(root@),
    {
        let key = crate::text::owned(root);
        let n = self.nodes.len();
        let r0 = match self.find(&key) {
            Some(i) => i,
            None => {
                proof {
                    self.lemma_bounded_outside(root@);
                }
                return n >= 1;
            },
        };
        let mut layer: Vec<bool> = Vec::new();
        for t in 0..n
            invariant
                layer@.len() == t,
                r0 < n,
                forall|j: int| 0 <= j < t ==> layer@[j] == (j == r0),
        {
            layer.push(t == r0);
        }
        proof {
            self.lemma_first_layer(root@, layer@, r0 as int);
        }
        for s in 0..n
            invariant
                n == self.size(),
                self.wf(),
                self.node_ids().contains(root@),
                self.layer_covers(root@, layer@, (s + 1) as nat),
                self.layer_sound(root@, layer@, (s + 1) as nat),
        {
            let next = self.successors(&layer);
            proof {
                self.lemma_layer_step(root@, layer@, next@, (s + 1) as nat);
                self.lemma_layer_sound_step(root@, layer@, next@, (s + 1) as nat);
            }
            layer = next;
        }
        let mut any = false;
        for j in 0..n
            invariant
                layer@.len() == n,
                any == exists|t: int| 0 <= t < j && layer@[t],
        {
            if layer[j] {
                any = true;
            }
        }
        proof {
            self.lemma_last_layer(root@, layer@);
        }
        !any
    }

    /// A root that is no node has only the walk of itself.
    proof fn lemma_bounded_outside(&self, root: Seq<char>)
        requires
            self.wf(),
            !self.node_ids().contains(root),
        ensures
            self.bounded_from(root) == (self.size() >= 1),
    {
        assert forall|w: Seq<Seq<char>>| #[trigger] self.is_path(w) && w[0] == root
            implies w.len() <= self.size() || self.size() == 0 by {
            if w.len() >= 2 {
                assert(self.has_edge(w[0], w[1]));
                self.lemma_source_is_node(w[0], w[1]);
            }
        }
        if self.size() == 0 {
            let w = seq![root];
            assert(self.is_path(w));
        }
    }

    /// The first layer marks the root only: the walks of one node.
    proof fn lemma_first_layer(&self, root: Seq<char>, layer: Seq<bool>, r0: int)
        requires
            self.wf(),
            0 <= r0 < self.size(),
            self.node_ids()[r0] == root,
            layer.len() == self.size(),
            forall|j: int| 0 <= j < layer.len() ==> layer[j] == (j == r0),
        ensures
            self.layer_covers(root, layer, 1),
            self.layer_sound(root, layer, 1),
    {
        assert forall|j: int| 0 <= j < self.size() && #[trigger] layer[j]
            implies self.reaches_in(root, self.node_ids()[j], 1) by {
            let w = seq![root];
            assert(self.is_path(w) && w.len() == 1 && w[0] == root && w.last() == self.node_ids()[j]);
        }
        assert forall|j: int| 0 <= j < self.size() && #[trigger] self.reaches_in(root, self.node_ids()[j], 1)
            implies layer[j] by {
            let w = choose|w: Seq<Seq<char>>| #[trigger] self.is_path(w) && w.len() == 1 && w[0] == root
                && w.last() == self.node_ids()[j];
            assert(self.node_ids()[j] == root);
            assert(no_dups(self.node_ids()));
        }
    }

    /// The layer of walks of one node more than the graph has is empty
    /// exactly when every walk from the root is bounded.
    proof fn lemma_last_layer(&self, root: Seq<char>, layer: Seq<bool>)
        requires
            self.wf(),
            self.node_ids().contains(root),
            self.layer_covers(root, layer, self.size() + 1),
            self.layer_sound(root, layer, self.size() + 1),
        ensures
            self.bounded_from(root) == !(exists|t: int| 0 <= t < self.size() && layer[t]),
    {
        let n = self.size();
        if exists|t: int| 0 <= t < n && layer[t] {
            let t = choose|t: int| 0 <= t < n && layer[t];
            assert(self.reaches_in(root, self.node_ids()[t], (n + 1) as nat));
            let w = choose|w: Seq<Seq<char>>| #[trigger] self.is_path(w) && w.len() == n + 1 && w[0] == root
                && w.last() == self.node_ids()[t];
            assert(!(w.len() <= self.size()));
        } else {
            assert forall|w: Seq<Seq<char>>| #[trigger] self.is_path(w) && w[0] == root
                implies w.len() <= self.size() by {
                if w.len() > self.size() {
                    let m = (n + 1) as int;
                    self.lemma_walk_prefix(w, m);
                    assert(self.is_path(w.take(m)));
                    assert(self.reaches_in(root, w[m - 1], m as nat));
                    assert(self.has_edge(w[m - 2], w[m - 1]));
                    self.lemma_dep_is_node(w[m - 2], w[m - 1]);
                    let j = self.pos(w[m - 1]);
                    self.lemma_pos(j);
                    assert(0 <= j < self.size() && self.node_ids()[j] == w[m - 1]);
                    assert(layer[j]);
                }
            }
        }
    }
}

/// Number of ids of `ids` not in `v`.
pub open spec fn unvisited(ids: Seq<Seq<char>>, v: Set<Seq<char>>) -> nat
    decreases ids.len(),
{
    if ids.len() == 0 {
        0
    } else {
        unvisited(ids.drop_last(), v) + if v.contains(ids.last()) { 0nat } else { 1nat }
    }
}

proof fn lemma_unvisited_mono(ids: Seq<Seq<char>>, v: Set<Seq<char>>, w: Set<Seq<char>>)
    requires
        v.subset_of(w),
    ensures
        unvisited(ids, w) <= unvisited(ids, v),
    decreases ids.len(),
{
    if ids.len() > 0 {
        lemma_unvisited_mono(ids.drop_last(), v, w);
    }
}

proof fn lemma_unvisited_insert(ids: Seq<Seq<char>>, v: Set<Seq<char>>, x: Seq<char>)
    requires
        ids.contains(x),
        !v.contains(x),
    ensures
        unvisited(ids, v.insert(x)) < unvisited(ids, v),
    decreases ids.len(),
{
    if ids.len() > 0 {
        if ids.last() == x {
            lemma_unvisited_mono(ids.drop_last(), v, v.insert(x));
        } else {
            let k = choose|k: int| 0 <= k < ids.len() && ids[k] == x;
            assert(ids.drop_last()[k] == x);
            lemma_unvisited_insert(ids.drop_last(), v, x);
        }
    }
}

proof fn lemma_push_to_set(s: Seq<Seq<char>>, x: Seq<char>)
    ensures
        s.push(x).to_set() == s.to_set().insert(x),
{
    assert forall|y: Seq<char>| s.push(x).to_set().contains(y) <==> s.to_set().insert(x).contains(y) by {
        if s.push(x).contains(y) && y != x {
            let k = choose|k: int| 0 <= k < s.push(x).len() && s.push(x)[k] == y;
            assert(s[k] == y);
        }
        if s.contains(y) {
            let k = choose|k: int| 0 <= k < s.len() && s[k] == y;
            assert(s.push(x)[k] == y);
        }
        if y == x {
            assert(s.push(x)[s.len() as int] == x);
        }
    }
    assert(s.push(x).to_set() =~= s.to_set().insert(x));
}

/// The exec form of a tree entry.
pub open spec fn entry_view(e: (String, String, bool)) -> TreeEntry {
    (e.0@, e.1@, e.2)
}


/// `format!("{:?}", status)` of a looked-up status.
fn status_debug_text(o: Option<Status>) -> (r: String)
    ensures
        r@ == status_debug(o),
{
    match o {
        Some(Status::Open) => {
            let r = crate::text::owned("Open");
            proof { reveal_strlit("Open"); assert(r@ =~= status_debug(o)); }
            r
        },
        Some(Status::InProgress) => {
            let r = crate::text::owned("InProgress");
            proof { reveal_strlit("InProgress"); assert(r@ =~= status_debug(o)); }
            r
        },
        Some(Status::Closed) => {
            let r = crate::text::owned("Closed");
            proof { reveal_strlit("Closed"); assert(r@ =~= status_debug(o)); }
            r
        },
        None => String::new(),
    }
}

/// Appends " [<status>] <title>\n" for the ticket `id`.
fn push_status_title(out: &mut String, statuses: &[(String, Status)], titles: &[(String, String)], id: &String)
    ensures
        final(out)@ == old(out)@ + status_title(statuses@, titles@, id@),
{
    let st = status_debug_text(lookup_status(statuses, id));
    push_str(out, " [");
    push_str(out, st.as_str());
    push_str(out, "] ");
    match lookup_title(titles, id) {
        Some(t) => push_str(out, t.as_str()),
        None => {},
    }
    push_str(out, "\n");
    proof {
        reveal_strlit(" [");
        reveal_strlit("] ");
        reveal_strlit("\n");
        assert(final(out)@ =~= old(out)@ + status_title(statuses@, titles@, id@));
    }
}

/// Appends the line of a tree entry: its indentation, connector, status and title.
fn push_entry_line(out: &mut String, e: &(String, String, bool), statuses: &[(String, Status)], titles: &[(String, String)])
    ensures
        final(out)@ == old(out)@ + e.1@ + (if e.2 { elbow() } else { tee() }) + status_title(statuses@, titles@, e.0@),
{
    push_str(out, e.1.as_str());
    if e.2 {
        push_str(out, "\u{2514}\u{2500}\u{2500} ");
    } else {
        push_str(out, "\u{251C}\u{2500}\u{2500} ");
    }
    push_status_title(out, statuses, titles, &e.0);
    proof {
        reveal_strlit("\u{2514}\u{2500}\u{2500} ");
        reveal_strlit("\u{251C}\u{2500}\u{2500} ");
        assert("\u{2514}\u{2500}\u{2500} "@ =~= elbow());
        assert("\u{251C}\u{2500}\u{2500} "@ =~= tee());
        assert(final(out)@ =~= old(out)@ + e.1@ + (if e.2 { elbow() } else { tee() }) + status_title(statuses@, titles@, e.0@));
    }
}

/// The entries for the drawn dependencies `kids` of an entry with indentation
/// `prefix`, in the order they are drawn (dependency order).
fn make_child_entries(kids: &Vec<String>, prefix: &String, last: bool) -> (children: Vec<(String, String, bool)>)
    ensures
        children@.len() == kids@.len(),
        forall|q: int| 0 <= q < children@.len() ==> entry_view(#[trigger] children@[q])
            == child_entries(views(kids@), prefix@ + if last { blank() } else { vertical() })[q],
{
    let mut child_prefix = prefix.clone();
    if last {
        push_str(&mut child_prefix, "    ");
    } else {
        push_str(&mut child_prefix, "\u{2502}   ");
    }
    proof {
        reveal_strlit("    ");
        reveal_strlit("\u{2502}   ");
        assert("    "@ =~= blank());
        assert("\u{2502}   "@ =~= vertical());
    }
    let ghost kv = views(kids@);
    let mut children: Vec<(String, String, bool)> = Vec::new();
    let m = kids.len();
    for t in 0..m
        invariant
            m == kids@.len(),
            kv == views(kids@),
            child_prefix@ == prefix@ + if last { blank() } else { vertical() },
            children@.len() == t,
            forall|q: int| 0 <= q < t ==> entry_view(#[trigger] children@[q]) == child_entries(kv, child_prefix@)[q],
    {
        children.push((kids[t].clone(), child_prefix.clone(), t + 1 == m));
    }
    children
}

impl DependencyGraph {
    /// The dependencies of `id` that are drawn.
    fn printable_deps(&self, id: &String, visited: &Vec<String>, full: bool) -> (r: Vec<String>)
        requires
            self.wf(),
        ensures
            views(r@) == printable(self.deps_of(id@), views(visited@).to_set(), full),
    {
        let ds = self.get_deps(id.as_str());
        let ghost dv = self.deps_of(id@);
        let ghost vset = views(visited@).to_set();
        let mut r: Vec<String> = Vec::new();
        for k in 0..ds.len()
            invariant
                dv == views(ds@),
                vset == views(visited@).to_set(),
                views(r@) == printable(dv.take(k as int), vset, full),
        {
            proof {
                assert(dv.take(k + 1).drop_last() =~= dv.take(k as int));
            }
            let seen = contains_string(visited, &ds[k]);
            if full || !seen {
                let ghost before = views(r@);
                r.push(ds[k].clone());
                assert(views(r@) =~= before.push(dv[k as int]));
            }
        }
        assert(dv.take(ds@.len() as int) =~= dv);
        r
    }

    /// Draws `entries[i..]`, each followed by its subtree.
    #[verifier::rlimit(80)]
    #[verifier::spinoff_prover]
    fn render_from(&self, statuses: &[(String, Status)], titles: &[(String, String)], full: bool,
        entries: &Vec<(String, String, bool)>, i: usize, out: &mut String, visited: &mut Vec<String>,
        Ghost(fuel): Ghost<nat>, Ghost(root): Ghost<Seq<char>>, Ghost(depth): Ghost<nat>)
        requires
            self.wf(),
            i <= entries@.len(),
            forall|k: int| i <= k < entries@.len() ==> self.node_ids().contains((#[trigger] entries@[k]).0@),
            full ==> self.bounded_from(root) && fuel + depth >= self.size() + 2
                && forall|k: int| i <= k < entries@.len() ==> self.reaches_in(root, (#[trigger] entries@[k]).0@, depth),
            !full ==> fuel > unvisited(self.node_ids(), views(old(visited)@).to_set()),
        ensures
            ({
                let r = self.render_list(statuses@, titles@, full, entries@.map_values(|e: (String, String, bool)| entry_view(e)).skip(i as int),
                    views(old(visited)@).to_set(), fuel);
                &&& final(out)@ == old(out)@ + r.0
                &&& views(final(visited)@).to_set() == r.1
            }),
            views(old(visited)@).to_set().subset_of(views(final(visited)@).to_set()),
        decreases fuel, entries@.len() - i,
    {
        let ghost es = entries@.map_values(|e: (String, String, bool)| entry_view(e));
        let ghost v0 = views(visited@).to_set();
        if i == entries.len() {
            assert(es.skip(i as int).len() == 0);
            assert(old(out)@ + Seq::<char>::empty() =~= old(out)@);
            return;
        }
        proof {
            assert(es.skip(i as int).drop_first() =~= es.skip(i + 1));
            assert(es.skip(i as int)[0] == entry_view(entries@[i as int]));
        }
        let e = &entries[i];
        let seen = contains_string(visited, &e.0);
        proof {
            assert(seen == v0.contains(e.0@));
        }
        if !full && seen {
            self.render_from(statuses, titles, full, entries, i + 1, out, visited, Ghost(fuel), Ghost(root), Ghost(depth));
            return;
        }
        proof {
            if full {
                let w = choose|w: Seq<Seq<char>>| #[trigger] self.is_path(w) && w.len() == depth && w[0] == root && w.last() == e.0@;
                assert(w.len() <= self.size());
            } else {
                lemma_unvisited_insert(self.node_ids(), v0, e.0@);
            }
        }
        if !seen {
            let ghost before = views(visited@);
            visited.push(e.0.clone());
            proof {
                assert(views(visited@) =~= before.push(e.0@));
                lemma_push_to_set(before, e.0@);
            }
        } else {
            assert(v0.insert(e.0@) =~= v0);
        }
        let ghost v1 = views(visited@).to_set();
        assert(v1 == v0.insert(e.0@));
        push_entry_line(out, e, statuses, titles);
        let ghost out_after_line = out@;
        let kids = self.printable_deps(&e.0, visited, full);
        let ghost kv = views(kids@);
        let children = make_child_entries(&kids, &e.1, e.2);
        proof {
            let ce = children@.map_values(|e: (String, String, bool)| entry_view(e));
            let pfx = e.1@ + if e.2 { blank() } else { vertical() };
            assert(ce.skip(0) =~= child_entries(kv, pfx));
            let m = kids@.len();
            assert forall|q: int| 0 <= q < children@.len() implies self.node_ids().contains((#[trigger] children@[q]).0@)
                && (full ==> self.reaches_in(root, children@[q].0@, depth + 1)) by {
                let c = kv[q];
                assert(entry_view(children@[q]) == child_entries(kv, pfx)[q]);
                assert(children@[q].0@ == c);
                lemma_printable_sub(self.deps_of(e.0@), v1, full, q);
                self.lemma_dep_is_node(e.0@, c);
                if full {
                    self.lemma_reaches_in_step(root, e.0@, c, depth);
                }
            }
        }
        self.render_from(statuses, titles, full, &children, 0, out, visited, Ghost((fuel - 1) as nat), Ghost(root), Ghost(depth + 1));
        let ghost v2 = views(visited@).to_set();
        proof {
            if !full {
                lemma_unvisited_mono(self.node_ids(), v0, v2);
            }
        }
        self.render_from(statuses, titles, full, entries, i + 1, out, visited, Ghost(fuel), Ghost(root), Ghost(depth));
        proof {
            assert(v0.subset_of(v1));
        }
    }
}

/// Every id drawn is among the dependencies.
proof fn lemma_printable_sub(ds: Seq<Seq<char>>, v: Set<Seq<char>>, full: bool, k: int)
    requires
        0 <= k < printable(ds, v, full).len(),
    ensures
        ds.contains(printable(ds, v, full)[k]),
    decreases ds.len(),
{
    if ds.len() > 0 {
        let p = printable(ds.drop_last(), v, full);
        if k < p.len() {
            lemma_printable_sub(ds.drop_last(), v, full, k);
            let j = choose|j: int| 0 <= j < ds.drop_last().len() && ds.drop_last()[j] == p[k];
            assert(ds[j] == p[k]);
        } else {
            assert(ds[ds.len() - 1] == ds.last());
        }
    }
}

proof fn lemma_unvisited_bound(ids: Seq<Seq<char>>, v: Set<Seq<char>>)
    ensures
        unvisited(ids, v) <= ids.len(),
    decreases ids.len(),
{
    if ids.len() > 0 {
        lemma_unvisited_bound(ids.drop_last(), v);
    }
}

/// Number of line feeds in `s`.
pub open spec fn count_nl(s: Seq<char>) -> nat
    decreases s.len(),
{
    if s.len() == 0 {
        0
    } else {
        count_nl(s.drop_last()) + if s.last() == '\n' { 1nat } else { 0nat }
    }
}

/// `s` holds no line feed.
pub open spec fn no_nl(s: Seq<char>) -> bool {
    forall|k: int| 0 <= k < s.len() ==> #[trigger] s[k] != '\n'
}

/// No title holds a line feed.
pub open spec fn titles_one_line(titles: Seq<(String, String)>) -> bool {
    forall|k: int| 0 <= k < titles.len() ==> no_nl(#[trigger] titles[k].1@)
}

/// The ids the tree of `root` draws in the default mode (not `full`).
pub open spec fn drawn_ids(g: &DependencyGraph, root: Seq<char>, statuses: Seq<(String, Status)>,
    titles: Seq<(String, String)>) -> Set<Seq<char>> {
    let v0 = Set::empty().insert(root);
    g.render_list(statuses, titles, false, root_entries(printable(g.deps_of(root), v0, false)), v0, g.size() + 1).1
}

proof fn lemma_count_nl_concat(a: Seq<char>, b: Seq<char>)
    ensures
        count_nl(a + b) == count_nl(a) + count_nl(b),
    decreases b.len(),
{
    if b.len() == 0 {
        assert(a + b =~= a);
    } else {
        lemma_count_nl_concat(a, b.drop_last());
        assert((a + b).drop_last() =~= a + b.drop_last());
        assert((a + b).last() == b.last());
    }
}

proof fn lemma_count_nl_none(s: Seq<char>)
    requires
        no_nl(s),
    ensures
        count_nl(s) == 0,
    decreases s.len(),
{
    if s.len() > 0 {
        assert(no_nl(s.drop_last())) by {
            assert forall|k: int| 0 <= k < s.drop_last().len() implies #[trigger] s.drop_last()[k] != '\n' by {
                assert(s.drop_last()[k] == s[k]);
            }
        }
        lemma_count_nl_none(s.drop_last());
        assert(s.last() == s[s.len() - 1]);
    }
}

proof fn lemma_title_one_line(titles: Seq<(String, String)>, id: Seq<char>)
    requires
        titles_one_line(titles),
    ensures
        no_nl(text_or_empty(title_of(titles, id))),
    decreases titles.len(),
{
    if titles.len() > 0 {
        let front = titles.drop_last();
        assert(titles_one_line(front)) by {
            assert forall|k: int| 0 <= k < front.len() implies no_nl(#[trigger] front[k].1@) by {
                assert(front[k] == titles[k]);
            }
        }
        lemma_title_one_line(front, id);
        assert(no_nl(titles[titles.len() - 1].1@));
    }
}

/// The text after an id on its line holds one line feed, at its end.
proof fn lemma_status_title_lines(statuses: Seq<(String, Status)>, titles: Seq<(String, String)>, id: Seq<char>)
    requires
        titles_one_line(titles),
    ensures
        count_nl(status_title(statuses, titles, id)) == 1,
{
    let sd = status_debug(status_of(statuses, id));
    assert(no_nl(sd));
    lemma_title_one_line(titles, id);
    let t = text_or_empty(title_of(titles, id));
    lemma_count_nl_none(seq![' ', '[']);
    lemma_count_nl_none(sd);
    lemma_count_nl_none(seq![']', ' ']);
    lemma_count_nl_none(t);
    lemma_count_nl_concat(seq![' ', '['], sd);
    lemma_count_nl_concat(seq![' ', '['] + sd, seq![']', ' ']);
    lemma_count_nl_concat(seq![' ', '['] + sd + seq![']', ' '], t);
    lemma_count_nl_concat(seq![' ', '['] + sd + seq![']', ' '] + t, seq!['\n']);
    lemma_count_nl_one();
}

proof fn lemma_count_nl_one()
    ensures
        count_nl(seq!['\n']) == 1,
{
    let s = seq!['\n'];
    assert(s.drop_last() =~= Seq::<char>::empty());
    assert(count_nl(s.drop_last()) == 0);
    assert(s.last() == '\n');
    assert(count_nl(s) == count_nl(s.drop_last()) + 1);
}

proof fn lemma_printable_within(ds: Seq<Seq<char>>, visited: Set<Seq<char>>, full: bool)
    ensures
        forall|i: int| 0 <= i < printable(ds, visited, full).len() ==> ds.contains(#[trigger] printable(ds, visited, full)[i]),
    decreases ds.len(),
{
    if ds.len() > 0 {
        let front = ds.drop_last();
        lemma_printable_within(front, visited, full);
        let p = printable(ds, visited, full);
        let pf = printable(front, visited, full);
        assert forall|i: int| 0 <= i < p.len() implies ds.contains(#[trigger] p[i]) by {
            if i < pf.len() {
                assert(p[i] == pf[i]);
                let j = choose|j: int| 0 <= j < front.len() && front[j] == pf[i];
                assert(ds[j] == p[i]);
            } else {
                assert(p[i] == ds[ds.len() - 1]);
            }
        }
    }
}

proof fn lemma_connector_prefix(prefix: Seq<char>, last: bool)
    requires
        no_nl(prefix),
    ensures
        no_nl(prefix + if last { blank() } else { vertical() }),
        count_nl(prefix + if last { elbow() } else { tee() }) == 0,
{
    let a = if last { blank() } else { vertical() };
    let c = if last { elbow() } else { tee() };
    assert(no_nl(a));
    assert(no_nl(c));
    assert forall|k: int| 0 <= k < (prefix + a).len() implies #[trigger] (prefix + a)[k] != '\n' by {
        if k < prefix.len() {
            assert((prefix + a)[k] == prefix[k]);
        } else {
            assert((prefix + a)[k] == a[k - prefix.len()]);
        }
    }
    lemma_count_nl_none(prefix);
    lemma_count_nl_none(c);
    lemma_count_nl_concat(prefix, c);
}

/// In the default mode, the lines `render_list` draws are one per id it adds
/// to the visited set, and every id it adds is reachable from `root`.
proof fn lemma_render_list_lines(
    g: &DependencyGraph,
    root: Seq<char>,
    statuses: Seq<(String, Status)>,
    titles: Seq<(String, String)>,
    entries: Seq<TreeEntry>,
    visited: Set<Seq<char>>,
    fuel: nat,
)
    requires
        titles_one_line(titles),
        visited.finite(),
        forall|x: Seq<char>| #[trigger] visited.contains(x) ==> g.reaches(root, x),
        forall|i: int| 0 <= i < entries.len() ==> no_nl((#[trigger] entries[i]).1) && g.reaches(root, entries[i].0),
    ensures
        g.render_list(statuses, titles, false, entries, visited, fuel).1.finite(),
        visited.subset_of(g.render_list(statuses, titles, false, entries, visited, fuel).1),
        forall|x: Seq<char>| #[trigger] g.render_list(statuses, titles, false, entries, visited, fuel).1.contains(x)
            ==> g.reaches(root, x),
        count_nl(g.render_list(statuses, titles, false, entries, visited, fuel).0)
            == g.render_list(statuses, titles, false, entries, visited, fuel).1.len() - visited.len(),
    decreases fuel, entries.len(),
{
    if entries.len() > 0 {
        let e = entries[0];
        let tail = entries.drop_first();
        assert forall|i: int| 0 <= i < tail.len() implies no_nl((#[trigger] tail[i]).1) && g.reaches(root, tail[i].0) by {
            assert(tail[i] == entries[i + 1]);
        }
        if visited.contains(e.0) {
            lemma_render_list_lines(g, root, statuses, titles, tail, visited, fuel);
        } else if fuel > 0 {
            let v1 = visited.insert(e.0);
            assert(v1.len() == visited.len() + 1);
            let line = e.1 + (if e.2 { elbow() } else { tee() }) + status_title(statuses, titles, e.0);
            lemma_connector_prefix(e.1, e.2);
            lemma_status_title_lines(statuses, titles, e.0);
            lemma_count_nl_concat(e.1 + (if e.2 { elbow() } else { tee() }), status_title(statuses, titles, e.0));
            let kids = printable(g.deps_of(e.0), v1, false);
            let p2 = e.1 + if e.2 { blank() } else { vertical() };
            let ce = child_entries(kids, p2);
            lemma_printable_within(g.deps_of(e.0), v1, false);
            assert forall|i: int| 0 <= i < ce.len() implies no_nl((#[trigger] ce[i]).1) && g.reaches(root, ce[i].0) by {
                let kid = kids[i];
                assert(ce[i].0 == kid);
                assert(g.deps_of(e.0).contains(kid));
                g.lemma_reaches_step(root, e.0, kid);
            }
            assert forall|x: Seq<char>| #[trigger] v1.contains(x) implies g.reaches(root, x) by {
                if x != e.0 {
                    assert(visited.contains(x));
                }
            }
            lemma_render_list_lines(g, root, statuses, titles, ce, v1, (fuel - 1) as nat);
            let sub = g.render_list(statuses, titles, false, ce, v1, (fuel - 1) as nat);
            lemma_render_list_lines(g, root, statuses, titles, tail, sub.1, fuel);
            let rest = g.render_list(statuses, titles, false, tail, sub.1, fuel);
            lemma_count_nl_concat(line, sub.0);
            lemma_count_nl_concat(line + sub.0, rest.0);
            assert(g.render_list(statuses, titles, false, entries, visited, fuel) == (line + sub.0 + rest.0, rest.1));
        }
    }
}

/// The tree of `root` in the default mode (not `full`) has one line for the
/// root and one line per further id it draws: as many lines as distinct ids
/// drawn. Every id drawn is reachable from `root` along dependencies. This is
/// stated where `root` and the titles hold no line feed.
pub proof fn lemma_render_lines(
    g: &DependencyGraph,
    root: Seq<char>,
    statuses: Seq<(String, Status)>,
    titles: Seq<(String, String)>,
)
    requires
        titles_one_line(titles),
        no_nl(root),
    ensures
        count_nl(g.render_spec(root, statuses, titles, false)) == drawn_ids(g, root, statuses, titles).len(),
        drawn_ids(g, root, statuses, titles).contains(root),
        forall|x: Seq<char>| #[trigger] drawn_ids(g, root, statuses, titles).contains(x) ==> g.reaches(root, x),
{
    let v0 = Set::<Seq<char>>::empty().insert(root);
    g.lemma_reaches_self(root);
    assert forall|x: Seq<char>| #[trigger] v0.contains(x) implies g.reaches(root, x) by {
        assert(x == root);
    }
    let p = printable(g.deps_of(root), v0, false);
    let es = root_entries(p);
    lemma_printable_within(g.deps_of(root), v0, false);
    assert forall|i: int| 0 <= i < es.len() implies no_nl((#[trigger] es[i]).1) && g.reaches(root, es[i].0) by {
        assert(es[i].0 == p[i]);
        assert(g.deps_of(root).contains(p[i]));
        g.lemma_reaches_step(root, root, p[i]);
        assert(no_nl(blank()));
        assert(no_nl(vertical()));
    }
    lemma_render_list_lines(g, root, statuses, titles, es, v0, g.size() + 1);
    let r = g.render_list(statuses, titles, false, es, v0, g.size() + 1);
    assert(v0.len() == 1);
    lemma_count_nl_none(root);
    lemma_status_title_lines(statuses, titles, root);
    lemma_count_nl_concat(root, status_title(statuses, titles, root));
    lemma_count_nl_concat(root + status_title(statuses, titles, root), r.0);
    assert(v0.contains(root));
}

proof fn lemma_printable_has(ds: Seq<Seq<char>>, v: Set<Seq<char>>, d: Seq<char>)
    requires
        ds.contains(d),
        !v.contains(d),
    ensures
        printable(ds, v, false).contains(d),
    decreases ds.len(),
{
    let p = printable(ds, v, false);
    if ds.last() == d {
        assert(p[p.len() - 1] == d);
    } else {
        let j = choose|j: int| 0 <= j < ds.len() && ds[j] == d;
        assert(j != ds.len() - 1);
        assert(ds.drop_last()[j] == d);
        lemma_printable_has(ds.drop_last(), v, d);
        let q = printable(ds.drop_last(), v, false);
        let i = choose|i: int| 0 <= i < q.len() && q[i] == d;
        assert(p[i] == d);
    }
}

/// In the default mode, with fuel above the number of nodes not yet visited,
/// `render_list` visits every id of `entries`, and each id it newly visits has
/// all its dependencies visited by the end.
proof fn lemma_render_list_closed(
    g: &DependencyGraph,
    statuses: Seq<(String, Status)>,
    titles: Seq<(String, String)>,
    entries: Seq<TreeEntry>,
    visited: Set<Seq<char>>,
    fuel: nat,
)
    requires
        g.wf(),
        fuel > unvisited(g.node_ids(), visited),
        forall|i: int| 0 <= i < entries.len() ==> g.node_ids().contains((#[trigger] entries[i]).0),
    ensures
        visited.subset_of(g.render_list(statuses, titles, false, entries, visited, fuel).1),
        forall|i: int| 0 <= i < entries.len()
            ==> g.render_list(statuses, titles, false, entries, visited, fuel).1.contains((#[trigger] entries[i]).0),
        forall|x: Seq<char>, d: Seq<char>|
            #![trigger g.render_list(statuses, titles, false, entries, visited, fuel).1.contains(x), g.deps_of(x).contains(d)]
            g.render_list(statuses, titles, false, entries, visited, fuel).1.contains(x) && !visited.contains(x)
                && g.deps_of(x).contains(d) ==> g.render_list(statuses, titles, false, entries, visited, fuel).1.contains(d),
    decreases fuel, entries.len(),
{
    if entries.len() > 0 {
        let e = entries[0];
        let tail = entries.drop_first();
        assert forall|i: int| 0 <= i < tail.len() implies g.node_ids().contains((#[trigger] tail[i]).0) by {
            assert(tail[i] == entries[i + 1]);
        }
        let r = g.render_list(statuses, titles, false, entries, visited, fuel);
        if visited.contains(e.0) {
            lemma_render_list_closed(g, statuses, titles, tail, visited, fuel);
            assert forall|i: int| 0 <= i < entries.len() implies r.1.contains((#[trigger] entries[i]).0) by {
                if i > 0 {
                    assert(entries[i] == tail[i - 1]);
                }
            }
        } else {
            assert(g.node_ids().contains(e.0));
            lemma_unvisited_insert(g.node_ids(), visited, e.0);
            let v1 = visited.insert(e.0);
            let kids = printable(g.deps_of(e.0), v1, false);
            let p2 = e.1 + if e.2 { blank() } else { vertical() };
            let ce = child_entries(kids, p2);
            assert forall|i: int| 0 <= i < ce.len() implies g.node_ids().contains((#[trigger] ce[i]).0) by {
                assert(ce[i].0 == kids[i]);
                lemma_printable_sub(g.deps_of(e.0), v1, false, i);
                g.lemma_dep_is_node(e.0, kids[i]);
            }
            lemma_render_list_closed(g, statuses, titles, ce, v1, (fuel - 1) as nat);
            let sub = g.render_list(statuses, titles, false, ce, v1, (fuel - 1) as nat);
            lemma_unvisited_mono(g.node_ids(), v1, sub.1);
            lemma_render_list_closed(g, statuses, titles, tail, sub.1, fuel);
            let rest = g.render_list(statuses, titles, false, tail, sub.1, fuel);
            assert(r.1 == rest.1);
            assert forall|i: int| 0 <= i < entries.len() implies r.1.contains((#[trigger] entries[i]).0) by {
                if i > 0 {
                    assert(entries[i] == tail[i - 1]);
                } else {
                    assert(v1.contains(e.0));
                }
            }
            assert forall|x: Seq<char>, d: Seq<char>|
                r.1.contains(x) && !visited.contains(x) && #[trigger] g.deps_of(x).contains(d) implies r.1.contains(d) by {
                if !sub.1.contains(x) {
                } else if !v1.contains(x) {
                    assert(sub.1.contains(d));
                } else {
                    assert(x == e.0);
                    if !v1.contains(d) {
                        lemma_printable_has(g.deps_of(e.0), v1, d);
                        let i = choose|i: int| 0 <= i < kids.len() && kids[i] == d;
                        assert(ce[i].0 == d);
                        assert(sub.1.contains(ce[i].0));
                    }
                }
            }
        }
    }
}

/// In the default mode (not `full`) the tree of `root` draws every id that
/// is reachable from `root` along dependencies, even where the graph has
/// cycles. With `lemma_render_lines`, the drawn ids are exactly the ids
/// reachable from `root`, and the tree has one line for each.
pub proof fn lemma_render_complete(
    g: &DependencyGraph,
    root: Seq<char>,
    statuses: Seq<(String, Status)>,
    titles: Seq<(String, String)>,
)
    requires
        g.wf(),
    ensures
        forall|x: Seq<char>| g.reaches(root, x) ==> #[trigger] drawn_ids(g, root, statuses, titles).contains(x),
{
    let v0 = Set::<Seq<char>>::empty().insert(root);
    let p = printable(g.deps_of(root), v0, false);
    let es = root_entries(p);
    assert forall|i: int| 0 <= i < es.len() implies g.node_ids().contains((#[trigger] es[i]).0) by {
        assert(es[i].0 == p[i]);
        lemma_printable_sub(g.deps_of(root), v0, false, i);
        g.lemma_dep_is_node(root, p[i]);
    }
    lemma_unvisited_bound(g.node_ids(), v0);
    assert(g.size() == g.node_ids().len());
    lemma_render_list_closed(g, statuses, titles, es, v0, g.size() + 1);
    let dr = drawn_ids(g, root, statuses, titles);
    assert forall|x: Seq<char>, d: Seq<char>| dr.contains(x) && #[trigger] g.deps_of(x).contains(d) implies dr.contains(d) by {
        if x == root {
            if d != root {
                lemma_printable_has(g.deps_of(root), v0, d);
                let i = choose|i: int| 0 <= i < p.len() && p[i] == d;
                assert(es[i].0 == d);
            } else {
                assert(v0.contains(root));
            }
        }
    }
    assert forall|x: Seq<char>| g.reaches(root, x) implies #[trigger] dr.contains(x) by {
        let w = choose|w: Seq<Seq<char>>| #[trigger] g.is_path(w) && w[0] == root && w.last() == x;
        assert(v0.contains(root));
        assert forall|k: int| 0 <= k < w.len() implies dr.contains(#[trigger] w[k]) by {
            lemma_path_drawn(g, dr, w, k);
        }
        assert(dr.contains(w[w.len() - 1]));
    }
}

/// A set that holds the first id of a walk and, with each id, its
/// dependencies, holds every id of the walk.
proof fn lemma_path_drawn(g: &DependencyGraph, dr: Set<Seq<char>>, w: Seq<Seq<char>>, k: int)
    requires
        g.is_path(w),
        dr.contains(w[0]),
        forall|x: Seq<char>, d: Seq<char>| dr.contains(x) && #[trigger] g.deps_of(x).contains(d) ==> dr.contains(d),
        0 <= k < w.len(),
    ensures
        dr.contains(w[k]),
    decreases k,
{
    if k > 0 {
        lemma_path_drawn(g, dr, w, k - 1);
        assert(g.has_edge(w[k - 1], w[k]));
    }
}

/// The tree of `root` in the default mode (not `full`) draws exactly the ids
/// reachable from `root` along dependencies, `root` included, each once, and
/// has one line per such id, even where the graph has cycles. Stated where
/// `root` and the titles hold no line feed.
pub proof fn lemma_render_reachable(
    g: &DependencyGraph,
    root: Seq<char>,
    statuses: Seq<(String, Status)>,
    titles: Seq<(String, String)>,
)
    requires
        g.wf(),
        titles_one_line(titles),
        no_nl(root),
    ensures
        drawn_ids(g, root, statuses, titles) == Set::new(|x: Seq<char>| g.reaches(root, x)),
        count_nl(g.render_spec(root, statuses, titles, false)) == Set::new(|x: Seq<char>| g.reaches(root, x)).len(),
{
    lemma_render_lines(g, root, statuses, titles);
    lemma_render_complete(g, root, statuses, titles);
    assert(drawn_ids(g, root, statuses, titles) =~= Set::new(|x: Seq<char>| g.reaches(root, x)));
}

/// Render a dependency tree as a string with box-drawing characters.
///
/// The first line names `root`; every other line draws a dependency with its
/// status and title under its dependent.  Without `full`, a ticket already
/// drawn is not drawn again; with `full` every path is drawn, which needs a
/// graph in which no cycle is reachable from `root`.
pub fn render_dep_tree(graph: &DependencyGraph, root: &str, statuses: &[(String, Status)],
    titles: &[(String, String)], full: bool) -> (r: String)
    requires
        graph.wf(),
        full ==> graph.bounded_from(root@),
    ensures
        r@ == graph.render_spec(root@, statuses@, titles@, full),
{
    let key = crate::text::owned(root);
    let mut output = crate::text::owned(root);
    push_status_title(&mut output, statuses, titles, &key);
    let mut visited: Vec<String> = Vec::new();
    visited.push(key.clone());
    let ghost v0 = Set::<Seq<char>>::empty().insert(root@);
    proof {
        lemma_push_to_set(Seq::<Seq<char>>::empty(), root@);
        assert(views(visited@) =~= Seq::<Seq<char>>::empty().push(root@));
        assert(Seq::<Seq<char>>::empty().to_set() =~= Set::<Seq<char>>::empty());
    }
    let kids = graph.printable_deps(&key, &visited, full);
    let ghost kv = views(kids@);
    let m = kids.len();
    let mut entries: Vec<(String, String, bool)> = Vec::new();
    for t in 0..m
        invariant
            m == kids@.len(),
            kv == views(kids@),
            entries@.len() == t,
            forall|q: int| 0 <= q < t ==> entry_view(#[trigger] entries@[q]) == root_entries(kv)[q],
    {
        let prefix = if t == m - 1 { crate::text::owned("    ") } else { crate::text::owned("\u{2502}   ") };
        proof {
            reveal_strlit("    ");
            reveal_strlit("\u{2502}   ");
            assert("    "@ =~= blank());
            assert("\u{2502}   "@ =~= vertical());
        }
        entries.push((kids[t].clone(), prefix, t == m - 1));
    }
    proof {
        let es = entries@.map_values(|e: (String, String, bool)| entry_view(e));
        assert(es.skip(0) =~= root_entries(kv));
        assert forall|q: int| 0 <= q < entries@.len() implies graph.node_ids().contains((#[trigger] entries@[q]).0@)
            && (full ==> graph.reaches_in(root@, entries@[q].0@, 2)) by {
            let c = kv[q];
            assert(entries@[q].0@ == c);
            lemma_printable_sub(graph.deps_of(root@), v0, full, q);
            graph.lemma_dep_is_node(root@, c);
            let w = seq![root@, c];
            assert(graph.is_path(w));
        }
        lemma_unvisited_bound(graph.node_ids(), v0);
    }
    graph.render_from(statuses, titles, full, &entries, 0, &mut output, &mut visited,
        Ghost((graph.size() + 1) as nat), Ghost(root@), Ghost(2));
    output
}

// ---------------------------------------------------------------------------
// Lemmas about the model
// ---------------------------------------------------------------------------

proof fn lemma_names_push(steps: Seq<Step>, s: Step)
    ensures
        names_of(steps.push(s)) == names_of(steps) + step_names(s),
{
    assert(steps.push(s).drop_last() =~= steps);
    assert(steps.push(s).last() == s);
    assert(steps.push(s).len() > 0);
}

pub proof fn lemma_first_occurrences_contains(s: Seq<Seq<char>>, x: Seq<char>)
    ensures
        first_occurrences(s).contains(x) <==> s.contains(x),
    decreases s.len(),
{
    if s.len() > 0 {
        lemma_first_occurrences_contains(s.drop_last(), x);
        if x == s.last() {
            assert(s.contains(x)) by { assert(s[s.len() - 1] == x); }
            let f = first_occurrences(s.drop_last());
            if !f.contains(s.last()) {
                assert(f.push(s.last())[f.len() as int] == x);
            }
        } else {
            if s.contains(x) {
                let i = choose|i: int| 0 <= i < s.len() && s[i] == x;
                assert(s.drop_last()[i] == x);
            }
            if s.drop_last().contains(x) {
                let i = choose|i: int| 0 <= i < s.drop_last().len() && s.drop_last()[i] == x;
                assert(s[i] == x);
            }
            if !first_occurrences(s.drop_last()).contains(s.last()) {
                let f = first_occurrences(s.drop_last());
                if f.push(s.last()).contains(x) {
                    let i = choose|i: int| 0 <= i < f.push(s.last()).len() && f.push(s.last())[i] == x;
                    assert(f[i] == x);
                }
                if f.contains(x) {
                    let i = choose|i: int| 0 <= i < f.len() && f[i] == x;
                    assert(f.push(s.last())[i] == x);
                }
            }
        }
    }
}

proof fn lemma_first_occurrences_idem(s: Seq<Seq<char>>)
    ensures
        first_occurrences(first_occurrences(s)) == first_occurrences(s),
    decreases s.len(),
{
    if s.len() > 0 {
        lemma_first_occurrences_idem(s.drop_last());
        let f = first_occurrences(s.drop_last());
        if !f.contains(s.last()) {
            assert(f.push(s.last()).drop_last() =~= f);
        }
    }
}

/// Adding a name after the first occurrences is adding it after the whole list.
proof fn lemma_first_occurrences_push(s: Seq<Seq<char>>, x: Seq<char>)
    ensures
        first_occurrences(s.push(x)) == if first_occurrences(s).contains(x) {
            first_occurrences(s)
        } else {
            first_occurrences(s).push(x)
        },
{
    assert(s.push(x).drop_last() =~= s);
}

} // verus!
