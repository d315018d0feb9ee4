//! The decisions of the `tk` commands: which tickets a listing shows and in
//! what order, the jq-style query filter, the dependency and link edits,
//! and the lines of the cycle report.

use vstd::prelude::*;
use crate::frontmatter::{split_on, strip_leading, strip_trailing};
use crate::graph::{lookup_title, tickets_where, title_of, DependencyGraph};
use crate::order::{derefs, insertion_sorted, order_before, sort_ticket_refs, TicketOrder};
use crate::render::bool_text;
use crate::storage::{opt_or, Ticket};
use crate::text::{
    chars_of, contains_str, copy_string, decimal, ends_with, find_str, opt_view, owned, push_str, range_contains,
    range_ends_with, range_find, range_starts_with, starts_with, str_eq, string_of_range, trim, trim_bounds, views,
};
use crate::types::Status;

verus! {

// ---------------------------------------------------------------------------
// The query filter
// ---------------------------------------------------------------------------

/// The expression of a filter, out of a `select(...)` wrapper, trimmed.
pub open spec fn jq_inner(filter: Seq<char>) -> Seq<char> {
    let f = trim(filter);
    if starts_with(f, "select("@) && ends_with(f, ")"@) {
        trim(f.subrange(7, f.len() - 1))
    } else {
        trim(f)
    }
}

/// The value a filter compares for the field `field` of a ticket; `None`
/// for a field it does not know.
pub open spec fn field_value(t: Ticket, field: Seq<char>) -> Option<Seq<char>> {
    if field == "status"@ {
        Some(t.metadata.status@)
    } else if field == "open"@ {
        Some(bool_text(t.metadata.open))
    } else if field == "type"@ {
        Some(t.metadata.metadata_type@)
    } else if field == "priority"@ {
        Some(decimal(t.metadata.priority.value()))
    } else if field == "assignee"@ {
        opt_view(t.metadata.assignee)
    } else {
        None
    }
}

/// Whether a ticket passes the filter `.field == "value"` (or `!=`),
/// optionally in `select(...)`. A filter that is no comparison, or names a
/// field without a value, passes every ticket.
pub open spec fn jq_matches(t: Ticket, filter: Seq<char>) -> bool {
    let inner = jq_inner(filter);
    let negate = contains_str(inner, "!="@);
    if !negate && !contains_str(inner, "=="@) {
        true
    } else {
        let op = if negate { "!="@ } else { "=="@ };
        match find_str(inner, op) {
            Some(i) => {
                let field = strip_leading(trim(inner.take(i)), '.');
                let value = trim(strip_trailing(strip_leading(trim(inner.skip(i + 2)), '"'), '"'));
                match field_value(t, field) {
                    Some(v) => if negate { v != value } else { v == value },
                    None => true,
                }
            },
            None => true,
        }
    }
}

/// The bounds of `v[lo..hi]` without any leading `c`.
fn strip_leading_range(v: &Vec<char>, lo: usize, hi: usize, c: char) -> (r: usize)
    requires
        lo <= hi <= v.len(),
    ensures
        lo <= r <= hi,
        v@.subrange(r as int, hi as int) == strip_leading(v@.subrange(lo as int, hi as int), c),
{
    let mut p = lo;
    while p < hi && v[p] == c
        invariant
            lo <= p <= hi <= v@.len(),
            forall|j: int| lo <= j < p ==> v@[j] == c,
        decreases hi - p,
    {
        p = p + 1;
    }
    proof {
        let t = v@.subrange(lo as int, hi as int);
        assert forall|j: int| 0 <= j < p - lo implies t[j] == c by { assert(t[j] == v@[lo + j]); }
        crate::frontmatter::lemma_strip_leading_skip(t, c, p - lo);
        assert(t.skip(p - lo) =~= v@.subrange(p as int, hi as int));
    }
    p
}

/// The bounds of `v[lo..hi]` without any trailing `c`.
fn strip_trailing_range(v: &Vec<char>, lo: usize, hi: usize, c: char) -> (r: usize)
    requires
        lo <= hi <= v.len(),
    ensures
        lo <= r <= hi,
        v@.subrange(lo as int, r as int) == strip_trailing(v@.subrange(lo as int, hi as int), c),
{
    let mut q = hi;
    while q > lo && v[q - 1] == c
        invariant
            lo <= q <= hi <= v@.len(),
            forall|j: int| q <= j < hi ==> v@[j] == c,
        decreases q - lo,
    {
        q = q - 1;
    }
    proof {
        let u = v@.subrange(lo as int, hi as int);
        assert forall|j: int| q - lo <= j < u.len() implies u[j] == c by { assert(u[j] == v@[lo + j]); }
        crate::frontmatter::lemma_strip_trailing_take(u, c, q - lo);
        assert(u.take(q - lo) =~= v@.subrange(lo as int, q as int));
    }
    q
}

/// The value the filter compares for the field `field` of a ticket.
fn ticket_field_value(t: &Ticket, field: &String) -> (r: Option<String>)
    ensures
        opt_view(r) == field_value(*t, field@),
{
    if str_eq(field, &owned("status")) {
        Some(copy_string(&t.metadata.status))
    } else if str_eq(field, &owned("open")) {
        Some(owned(if t.metadata.open { "true" } else { "false" }))
    } else if str_eq(field, &owned("type")) {
        Some(copy_string(&t.metadata.metadata_type))
    } else if str_eq(field, &owned("priority")) {
        Some(crate::text::decimal_string(t.metadata.priority.to_u8() as u64))
    } else if str_eq(field, &owned("assignee")) {
        crate::text::copy_opt_string(&t.metadata.assignee)
    } else {
        None
    }
}

/// Simple jq-like filter: `.field == "value"` or `.field != "value"`,
/// optionally wrapped in `select(...)`, over the fields status, open, type,
/// priority and assignee. Anything else passes every ticket.
pub fn matches_jq_filter(ticket: &Ticket, filter: &str) -> (r: bool)
    ensures
        r == jq_matches(*ticket, filter@),
{
    let v = chars_of(filter);
    assert(v@.subrange(0, v@.len() as int) =~= v@);
    let (a, b) = trim_bounds(&v, 0, v.len());
    let ghost f = v@.subrange(a as int, b as int);
    let sel = chars_of("select(");
    let close = chars_of(")");
    proof {
        reveal_strlit("select(");
        reveal_strlit(")");
    }
    let (x, y) = if range_starts_with(&v, a, b, &sel) && range_ends_with(&v, a, b, &close) {
        proof {
            assert(sel@ =~= seq!['s', 'e', 'l', 'e', 'c', 't', '(']);
            assert(close@ =~= seq![')']);
            assert(f.take(7)[6] == '(');
            assert(f.skip(f.len() - 1)[0] == ')');
            assert(f.len() >= 8);
        }
        assert(f.subrange(7, f.len() - 1) =~= v@.subrange(a + 7, b - 1));
        trim_bounds(&v, a + 7, b - 1)
    } else {
        trim_bounds(&v, a, b)
    };
    let ghost inner = v@.subrange(x as int, y as int);
    assert(inner == jq_inner(filter@));
    let ne = chars_of("!=");
    let eq = chars_of("==");
    let negate = range_contains(&v, x, y, &ne);
    if !negate && !range_contains(&v, x, y, &eq) {
        return true;
    }
    let op = if negate { ne } else { eq };
    proof {
        reveal_strlit("!=");
        reveal_strlit("==");
    }
    let i = match range_find(&v, x, y, &op) {
        Some(i) => i,
        None => { return true; },
    };
    proof {
        crate::text::lemma_find_str_bounds(inner, op@);
        assert(inner.take(i as int) =~= v@.subrange(x as int, x + i));
        assert(inner.skip(i + 2) =~= v@.subrange(x + i + 2, y as int));
    }
    let (fa, fb) = trim_bounds(&v, x, x + i);
    let fs = strip_leading_range(&v, fa, fb, '.');
    let field = string_of_range(&v, fs, fb);
    let (va, vb) = trim_bounds(&v, x + i + 2, y);
    let vs = strip_leading_range(&v, va, vb, '"');
    let ve = strip_trailing_range(&v, vs, vb, '"');
    let (wa, wb) = trim_bounds(&v, vs, ve);
    let value = string_of_range(&v, wa, wb);
    match ticket_field_value(ticket, &field) {
        Some(tv) => {
            if negate { !str_eq(&tv, &value) } else { str_eq(&tv, &value) }
        },
        None => true,
    }
}

// ---------------------------------------------------------------------------
// Listings
// ---------------------------------------------------------------------------

/// The status a listing shows for a ticket: closed once its `open` flag is
/// cleared, whatever its label says; in progress where its label says so;
/// else open. Blocker labels and the ready and blocked listings go by this.
pub open spec fn status_of_ticket(t: Ticket) -> Status {
    if !t.metadata.open {
        Status::Closed
    } else if t.metadata.status@ == "in_progress"@ {
        Status::InProgress
    } else {
        Status::Open
    }
}

/// The status a listing shows for a ticket.
pub fn ticket_status(t: &Ticket) -> (r: Status)
    ensures
        r == status_of_ticket(*t),
{
    if !t.metadata.open {
        Status::Closed
    } else if str_eq(&t.metadata.status, &owned("in_progress")) {
        Status::InProgress
    } else {
        Status::Open
    }
}

/// The id and shown status of each ticket, in order.
pub fn status_map(tickets: &[Ticket]) -> (r: Vec<(String, Status)>)
    ensures
        r@.len() == tickets@.len(),
        forall|k: int| 0 <= k < r@.len() ==>
            (#[trigger] r@[k]).0@ == tickets@[k].metadata.id@ && r@[k].1 == status_of_ticket(tickets@[k]),
{
    let mut r: Vec<(String, Status)> = Vec::new();
    for k in 0..tickets.len()
        invariant
            r@.len() == k,
            forall|j: int| 0 <= j < k ==>
                (#[trigger] r@[j]).0@ == tickets@[j].metadata.id@ && r@[j].1 == status_of_ticket(tickets@[j]),
    {
        r.push((copy_string(&tickets[k].metadata.id), ticket_status(&tickets[k])));
    }
    r
}

/// The id and title of each ticket, in order.
pub fn title_map(tickets: &[Ticket]) -> (r: Vec<(String, String)>)
    ensures
        r@.len() == tickets@.len(),
        forall|k: int| 0 <= k < r@.len() ==>
            (#[trigger] r@[k]).0@ == tickets@[k].metadata.id@ && r@[k].1@ == tickets@[k].data.title@,
{
    let mut r: Vec<(String, String)> = Vec::new();
    for k in 0..tickets.len()
        invariant
            r@.len() == k,
            forall|j: int| 0 <= j < k ==>
                (#[trigger] r@[j]).0@ == tickets@[j].metadata.id@ && r@[j].1@ == tickets@[j].data.title@,
    {
        r.push((copy_string(&tickets[k].metadata.id), copy_string(&tickets[k].data.title)));
    }
    r
}

/// The id and status label of each ticket, in order.
pub fn label_map(tickets: &[Ticket]) -> (r: Vec<(String, String)>)
    ensures
        r@.len() == tickets@.len(),
        forall|k: int| 0 <= k < r@.len() ==>
            (#[trigger] r@[k]).0@ == tickets@[k].metadata.id@ && r@[k].1@ == tickets@[k].metadata.status@,
{
    let mut r: Vec<(String, String)> = Vec::new();
    for k in 0..tickets.len()
        invariant
            r@.len() == k,
            forall|j: int| 0 <= j < k ==>
                (#[trigger] r@[j]).0@ == tickets@[j].metadata.id@ && r@[j].1@ == tickets@[j].metadata.status@,
    {
        r.push((copy_string(&tickets[k].metadata.id), copy_string(&tickets[k].metadata.status)));
    }
    r
}

/// The assignee and tag filters of a listing.
pub open spec fn listing_filter(t: Ticket, assignee: Option<Seq<char>>, tag: Option<Seq<char>>) -> bool {
    &&& (assignee matches Some(a) ==> opt_view(t.metadata.assignee) == Some(a))
    &&& (tag matches Some(g) ==> (t.metadata.tags matches Some(ts) && views(ts@).contains(g)))
}

/// Which tickets a listing shows.
pub enum Listing {
    /// Active tickets whose dependencies are all closed.
    Ready,
    /// Active tickets with a dependency that is not closed.
    Blocked,
    /// Tickets that are no longer active.
    Closed,
}

/// Whether the listing `l` shows the ticket `t` (before the filters).
pub open spec fn listed(
    l: Listing,
    graph: DependencyGraph,
    statuses: Seq<(String, Status)>,
    t: Ticket,
) -> bool {
    match l {
        Listing::Ready => t.metadata.open && crate::graph::all_closed(graph.deps_of(t.metadata.id@), statuses),
        Listing::Blocked => t.metadata.open && !crate::graph::all_closed(graph.deps_of(t.metadata.id@), statuses)
            && graph.deps_of(t.metadata.id@).len() > 0,
        Listing::Closed => !t.metadata.open,
    }
}

pub open spec fn listing_order(l: Listing) -> TicketOrder {
    match l {
        Listing::Closed => TicketOrder::NewestFirst,
        _ => TicketOrder::ByPriority,
    }
}

/// The tickets a listing shows, in its order: ready and blocked tickets by
/// priority then id, closed tickets newest first.
pub open spec fn listing(
    l: Listing,
    graph: DependencyGraph,
    statuses: Seq<(String, Status)>,
    tickets: Seq<Ticket>,
    assignee: Option<Seq<char>>,
    tag: Option<Seq<char>>,
) -> Seq<Ticket> {
    insertion_sorted(
        tickets_where(tickets, |t: Ticket| listed(l, graph, statuses, t) && listing_filter(t, assignee, tag)),
        order_before(listing_order(l)),
    )
}

/// Whether a ticket passes the assignee and tag filters of a listing.
fn passes_filter(t: &Ticket, assignee: &Option<String>, tag: &Option<String>) -> (r: bool)
    ensures
        r == listing_filter(*t, opt_view(*assignee), opt_view(*tag)),
{
    if let Some(a) = assignee {
        match &t.metadata.assignee {
            Some(x) => {
                if !str_eq(x, a) {
                    return false;
                }
            },
            None => {
                return false;
            },
        }
    }
    if let Some(g) = tag {
        match &t.metadata.tags {
            Some(ts) => crate::graph::contains_string(ts, g),
            None => false,
        }
    } else {
        true
    }
}

/// The tickets of the listing `l` (ready, blocked or closed) that pass the
/// assignee and tag filters, in the listing's order.
pub fn select_tickets<'a>(
    l: Listing,
    tickets: &'a [Ticket],
    graph: &DependencyGraph,
    statuses: &[(String, Status)],
    assignee: &Option<String>,
    tag: &Option<String>,
) -> (r: Vec<&'a Ticket>)
    requires
        graph.wf(),
    ensures
        derefs(r@) == listing(l, *graph, statuses@, tickets@, opt_view(*assignee), opt_view(*tag)),
{
    let ghost keep = |t: Ticket| listed(l, *graph, statuses@, t) && listing_filter(t, opt_view(*assignee), opt_view(*tag));
    let mut kept: Vec<&'a Ticket> = Vec::new();
    for k in 0..tickets.len()
        invariant
            graph.wf(),
            keep == |t: Ticket| listed(l, *graph, statuses@, t) && listing_filter(t, opt_view(*assignee), opt_view(*tag)),
            derefs(kept@) == tickets_where(tickets@.take(k as int), keep),
    {
        proof {
            assert(tickets@.take(k + 1).drop_last() =~= tickets@.take(k as int));
            assert(tickets@.take(k + 1).last() == tickets@[k as int]);
        }
        let t = &tickets[k];
        let shown = match l {
            Listing::Ready => t.metadata.open && graph.is_ready(t.metadata.id.as_str(), statuses),
            Listing::Blocked => t.metadata.open && graph.is_blocked(t.metadata.id.as_str(), statuses),
            Listing::Closed => !t.metadata.open,
        };
        if shown && passes_filter(t, assignee, tag) {
            let ghost before = derefs(kept@);
            kept.push(t);
            assert(derefs(kept@) =~= before.push(*t));
        }
    }
    assert(tickets@.take(tickets@.len() as int) =~= tickets@);
    let order = match l {
        Listing::Closed => TicketOrder::NewestFirst,
        _ => TicketOrder::ByPriority,
    };
    sort_ticket_refs(kept, order)
}

/// The first `limit` tickets of `ts`.
pub fn first_n<'a>(ts: Vec<&'a Ticket>, limit: usize) -> (r: Vec<&'a Ticket>)
    ensures
        r@ == ts@.take(if limit < ts@.len() { limit as int } else { ts@.len() as int }),
{
    let n = if limit < ts.len() { limit } else { ts.len() };
    let mut r: Vec<&'a Ticket> = Vec::new();
    for k in 0..n
        invariant
            n <= ts@.len(),
            r@ == ts@.take(k as int),
    {
        r.push(ts[k]);
        assert(r@ =~= ts@.take(k + 1));
    }
    r
}

/// The tickets that pass the query filter, in order.
pub fn filter_tickets<'a>(tickets: &'a [Ticket], filter: &str) -> (r: Vec<&'a Ticket>)
    ensures
        derefs(r@) == tickets_where(tickets@, |t: Ticket| jq_matches(t, filter@)),
{
    let ghost keep = |t: Ticket| jq_matches(t, filter@);
    let mut kept: Vec<&'a Ticket> = Vec::new();
    for k in 0..tickets.len()
        invariant
            keep == |t: Ticket| jq_matches(t, filter@),
            derefs(kept@) == tickets_where(tickets@.take(k as int), keep),
    {
        proof {
            assert(tickets@.take(k + 1).drop_last() =~= tickets@.take(k as int));
            assert(tickets@.take(k + 1).last() == tickets@[k as int]);
        }
        let t = &tickets[k];
        if matches_jq_filter(t, filter) {
            let ghost before = derefs(kept@);
            kept.push(t);
            assert(derefs(kept@) =~= before.push(*t));
        }
    }
    assert(tickets@.take(tickets@.len() as int) =~= tickets@);
    kept
}

/// The active tickets among `tickets`, in order.
pub fn active_tickets(tickets: Vec<Ticket>) -> (r: Vec<Ticket>)
    ensures
        r@ == tickets_where(tickets@, |t: Ticket| t.metadata.open),
{
    let ghost src = tickets@;
    let ghost keep = |t: Ticket| t.metadata.open;
    let n = tickets.len();
    let mut rest = tickets;
    let mut r: Vec<Ticket> = Vec::new();
    let mut k: usize = 0;
    while rest.len() > 0
        invariant
            k + rest@.len() == src.len(),
            src.len() == n,
            rest@ == src.skip(k as int),
            keep == |t: Ticket| t.metadata.open,
            r@ == tickets_where(src.take(k as int), keep),
        decreases rest@.len(),
    {
        let ghost old_rest = rest@;
        let t = rest.remove(0);
        proof {
            assert(old_rest[0] == src[k as int]);
            assert(src.take(k + 1).drop_last() =~= src.take(k as int));
            assert(src.take(k + 1).last() == src[k as int]);
        }
        if t.metadata.open {
            r.push(t);
        }
        proof {
            assert(rest@ =~= old_rest.skip(1));
            assert(old_rest.skip(1) =~= src.skip(k + 1));
        }
        k = k + 1;
    }
    assert(src.take(k as int) =~= src);
    r
}

// ---------------------------------------------------------------------------
// Dependency and link edits
// ---------------------------------------------------------------------------

/// What adding a dependency does.
#[derive(Debug)]
pub enum DepAdd {
    /// The ticket would depend on itself: refused.
    SelfDependency,
    /// The dependency is there already: nothing to do.
    AlreadyPresent,
    /// The new `deps:` value to write.
    Update(String),
}

/// Plan adding the dependency `dep` to the ticket `id` whose dependencies
/// are `deps`: refused for the ticket itself, nothing for a dependency
/// already there, else the list with `dep` appended.
pub fn plan_dep_add(id: &String, dep: &String, deps: &Vec<String>) -> (r: DepAdd)
    ensures
        id@ == dep@ ==> r is SelfDependency,
        id@ != dep@ && views(deps@).contains(dep@) ==> r is AlreadyPresent,
        id@ != dep@ && !views(deps@).contains(dep@) ==>
            (r matches DepAdd::Update(y) && y@ == crate::frontmatter::yaml_list_text(views(deps@).push(dep@))),
{
    if str_eq(id, dep) {
        return DepAdd::SelfDependency;
    }
    if crate::graph::contains_string(deps, dep) {
        return DepAdd::AlreadyPresent;
    }
    let mut new_deps = crate::text::copy_strings(deps);
    new_deps.push(copy_string(dep));
    assert(views(new_deps@) =~= views(deps@).push(dep@));
    DepAdd::Update(crate::frontmatter::format_yaml_array(new_deps.as_slice()))
}

/// `items` without the ones equal to `x` or `y`.
pub open spec fn without(items: Seq<Seq<char>>, x: Seq<char>, y: Seq<char>) -> Seq<Seq<char>>
    decreases items.len(),
{
    if items.len() == 0 {
        Seq::empty()
    } else if items.last() == x || items.last() == y {
        without(items.drop_last(), x, y)
    } else {
        without(items.drop_last(), x, y).push(items.last())
    }
}

proof fn lemma_push_contains(s: Seq<Seq<char>>, a: Seq<char>, z: Seq<char>)
    ensures
        s.push(a).contains(z) <==> (s.contains(z) || a == z),
{
    if s.contains(z) {
        let i = choose|i: int| 0 <= i < s.len() && s[i] == z;
        assert(s.push(a)[i] == z);
    }
    if a == z {
        assert(s.push(a)[s.len() as int] == z);
    }
    if s.push(a).contains(z) {
        let i = choose|i: int| 0 <= i < s.push(a).len() && s.push(a)[i] == z;
        if i < s.len() {
            assert(s[i] == z);
        }
    }
}

/// Removing `x` and `y` from a list leaves neither of them, and every other
/// item of the list.
pub proof fn lemma_without(items: Seq<Seq<char>>, x: Seq<char>, y: Seq<char>)
    ensures
        !without(items, x, y).contains(x),
        !without(items, x, y).contains(y),
        forall|z: Seq<char>| z != x && z != y ==> (without(items, x, y).contains(z) <==> items.contains(z)),
    decreases items.len(),
{
    if items.len() > 0 {
        let dl = items.drop_last();
        let a = items.last();
        lemma_without(dl, x, y);
        assert(items =~= dl.push(a));
        let w = without(dl, x, y);
        assert forall|z: Seq<char>| z != x && z != y implies (without(items, x, y).contains(z) <==> items.contains(
            z,
        )) by {
            lemma_push_contains(dl, a, z);
            if !(a == x || a == y) {
                lemma_push_contains(w, a, z);
            }
        }
        if !(a == x || a == y) {
            lemma_push_contains(w, a, x);
            lemma_push_contains(w, a, y);
        }
    }
}

/// Linking a ticket to the others of a list keeps its links in front, and
/// then it is linked to every other ticket of the list.
pub proof fn lemma_links_after(links: Seq<Seq<char>>, ids: Seq<Seq<char>>, me: int, k: int)
    requires
        0 <= k <= ids.len(),
    ensures
        links_after(links, ids, me, k).0.len() >= links.len(),
        links_after(links, ids, me, k).0.take(links.len() as int) == links,
        forall|j: int| 0 <= j < k && j != me ==> links_after(links, ids, me, k).0.contains(#[trigger] ids[j]),
    decreases k,
{
    if k > 0 {
        lemma_links_after(links, ids, me, k - 1);
        let cur = links_after(links, ids, me, k - 1).0;
        let next = links_after(links, ids, me, k).0;
        assert(next == cur || next == cur.push(ids[k - 1]));
        assert(next.take(links.len() as int) =~= cur.take(links.len() as int));
        assert forall|j: int| 0 <= j < k && j != me implies next.contains(#[trigger] ids[j]) by {
            if j < k - 1 {
                let i = choose|i: int| 0 <= i < cur.len() && cur[i] == ids[j];
                assert(next[i] == cur[i]);
            } else if !cur.contains(ids[k - 1]) {
                assert(next[cur.len() as int] == ids[k - 1]);
            }
        }
    }
}

/// `items` without the strings equal to `x` or `y`.
fn without_strings(items: &Vec<String>, x: &String, y: &String) -> (r: Vec<String>)
    ensures
        views(r@) == without(views(items@), x@, y@),
{
    let ghost vs = views(items@);
    let mut r: Vec<String> = Vec::new();
    for k in 0..items.len()
        invariant
            vs == views(items@),
            views(r@) == without(vs.take(k as int), x@, y@),
    {
        proof {
            assert(vs.take(k + 1).drop_last() =~= vs.take(k as int));
            assert(vs.take(k + 1).last() == items@[k as int]@);
        }
        if !str_eq(&items[k], x) && !str_eq(&items[k], y) {
            let ghost before = views(r@);
            r.push(copy_string(&items[k]));
            assert(views(r@) =~= before.push(items@[k as int]@));
        }
    }
    assert(vs.take(items@.len() as int) =~= vs);
    r
}

/// Plan removing the dependency `dep` from a ticket whose dependencies are
/// `deps`: the new `deps:` value, or `None` where `dep` is not among them.
pub fn plan_dep_remove(dep: &String, deps: &Vec<String>) -> (r: Option<String>)
    ensures
        match r {
            Some(y) => views(deps@).contains(dep@)
                && y@ == crate::frontmatter::yaml_list_text(without(views(deps@), dep@, dep@)),
            None => !views(deps@).contains(dep@),
        },
{
    if !crate::graph::contains_string(deps, dep) {
        return None;
    }
    let rest = without_strings(deps, dep, dep);
    Some(crate::frontmatter::format_yaml_array(rest.as_slice()))
}

/// Plan removing the link between `a` and `b` from a ticket whose links are
/// `links`: the new `links:` value, or `None` where it names neither.
pub fn plan_unlink(links: &Vec<String>, a: &String, b: &String) -> (r: Option<String>)
    ensures
        match r {
            Some(y) => (views(links@).contains(a@) || views(links@).contains(b@))
                && y@ == crate::frontmatter::yaml_list_text(without(views(links@), a@, b@)),
            None => !views(links@).contains(a@) && !views(links@).contains(b@),
        },
{
    if !crate::graph::contains_string(links, b) && !crate::graph::contains_string(links, a) {
        return None;
    }
    let rest = without_strings(links, a, b);
    Some(crate::frontmatter::format_yaml_array(rest.as_slice()))
}

/// The links of the ticket `ids[me]` after linking it to every other ticket
/// of `ids[..k]`, and how many links were added.
pub open spec fn links_after(links: Seq<Seq<char>>, ids: Seq<Seq<char>>, me: int, k: int) -> (Seq<Seq<char>>, nat)
    decreases k,
{
    if k <= 0 {
        (links, 0)
    } else {
        let (cur, n) = links_after(links, ids, me, k - 1);
        if k - 1 == me || cur.contains(ids[k - 1]) {
            (cur, n)
        } else {
            (cur.push(ids[k - 1]), n + 1)
        }
    }
}

/// Link the ticket `ids[me]`, whose links are `links`, to every other ticket
/// of `ids`: returns its new links (those missing appended, in order) and
/// how many were added.
pub fn plan_links(links: &Vec<String>, ids: &[String], me: usize) -> (r: (Vec<String>, usize))
    ensures
        views(r.0@) == links_after(views(links@), views(ids@), me as int, ids@.len() as int).0,
        r.1 == links_after(views(links@), views(ids@), me as int, ids@.len() as int).1,
{
    let ghost vs = views(ids@);
    let mut cur = crate::text::copy_strings(links);
    let mut added: usize = 0;
    for j in 0..ids.len()
        invariant
            vs == views(ids@),
            views(cur@) == links_after(views(links@), vs, me as int, j as int).0,
            added == links_after(views(links@), vs, me as int, j as int).1,
            added <= j,
    {
        assert(vs[j as int] == ids@[j as int]@);
        if j != me && !crate::graph::contains_string(&cur, &ids[j]) {
            let ghost before = views(cur@);
            cur.push(copy_string(&ids[j]));
            assert(views(cur@) =~= before.push(vs[j as int]));
            added = added + 1;
        }
    }
    (cur, added)
}

/// The tags of a comma-separated list, each trimmed.
pub fn split_tags(s: &str) -> (r: Vec<String>)
    ensures
        views(r@) == split_on(s@, ',').map_values(|p: Seq<char>| trim(p)),
{
    let v = chars_of(s);
    let n = v.len();
    let ghost all = split_on(s@, ',');
    let mut r: Vec<String> = Vec::new();
    let mut start: usize = 0;
    let ghost mut done: Seq<Seq<char>> = Seq::empty();
    assert(v@.subrange(0, n as int) =~= v@);
    loop
        invariant
            start <= n == v@.len(),
            v@ == s@,
            all == split_on(s@, ','),
            all == done + split_on(v@.subrange(start as int, n as int), ','),
            views(r@) == done.map_values(|p: Seq<char>| trim(p)),
        decreases n - start,
    {
        let ghost rest = v@.subrange(start as int, n as int);
        match crate::frontmatter::range_index_of(&v, start, n, ',') {
            Some(k) => {
                proof { crate::text::lemma_index_of_props(rest, ','); }
                let e = start + k;
                proof {
                    assert(rest.take(k as int) =~= v@.subrange(start as int, e as int));
                    assert(rest.skip(k + 1) =~= v@.subrange(e + 1, n as int));
                }
                let (x, y) = trim_bounds(&v, start, e);
                let ghost before = views(r@);
                r.push(string_of_range(&v, x, y));
                proof {
                    let piece = v@.subrange(start as int, e as int);
                    assert(views(r@) =~= before.push(trim(piece)));
                    assert(done.push(piece).map_values(|p: Seq<char>| trim(p))
                        =~= done.map_values(|p: Seq<char>| trim(p)).push(trim(piece)));
                    assert(all =~= done.push(piece) + split_on(v@.subrange(e + 1, n as int), ','));
                    done = done.push(piece);
                }
                start = e + 1;
            },
            None => {
                let (x, y) = trim_bounds(&v, start, n);
                let ghost before = views(r@);
                r.push(string_of_range(&v, x, y));
                proof {
                    assert(split_on(rest, ',') == seq![rest]);
                    assert(views(r@) =~= before.push(trim(rest)));
                    assert(done.push(rest).map_values(|p: Seq<char>| trim(p))
                        =~= done.map_values(|p: Seq<char>| trim(p)).push(trim(rest)));
                    assert(all =~= done.push(rest));
                }
                return r;
            },
        }
    }
}

/// The line of a cycle member in the cycle report: the padded id, its
/// status label (or `unknown`) and its title (or `(unknown)`).
pub open spec fn cycle_member_line(member: Seq<char>, labels: Seq<(String, String)>, titles: Seq<(String, String)>) -> Seq<char> {
    "  "@ + crate::display::padded(member, 8) + " ["@ + opt_or(title_of(labels, member), "unknown"@) + "] "@
        + opt_or(title_of(titles, member), "(unknown)"@)
}

/// Format the line of a cycle member in the cycle report.
pub fn format_cycle_member(member: &String, labels: &[(String, String)], titles: &[(String, String)]) -> (r: String)
    ensures
        r@ == cycle_member_line(member@, labels@, titles@),
{
    let mut r = owned("  ");
    crate::display::push_padded(&mut r, member);
    push_str(&mut r, " [");
    match lookup_title(labels, member) {
        Some(l) => push_str(&mut r, l.as_str()),
        None => push_str(&mut r, "unknown"),
    }
    push_str(&mut r, "] ");
    match lookup_title(titles, member) {
        Some(t) => push_str(&mut r, t.as_str()),
        None => push_str(&mut r, "(unknown)"),
    }
    assert(r@ =~= cycle_member_line(member@, labels@, titles@));
    r
}

/// A listing shows the tickets it selects, each once, in its order: ready
/// and blocked tickets by priority then id, closed tickets newest first.
pub proof fn lemma_listing_ordered(
    l: Listing,
    graph: DependencyGraph,
    statuses: Seq<(String, Status)>,
    tickets: Seq<Ticket>,
    assignee: Option<Seq<char>>,
    tag: Option<Seq<char>>,
)
    ensures
        crate::order::sorted_by(listing(l, graph, statuses, tickets, assignee, tag), order_before(listing_order(l))),
        listing(l, graph, statuses, tickets, assignee, tag).to_multiset()
            == tickets_where(tickets, |t: Ticket| listed(l, graph, statuses, t) && listing_filter(t, assignee, tag)).to_multiset(),
{
    crate::order::lemma_ticket_orders(listing_order(l));
    crate::order::lemma_insertion_sorted(
        tickets_where(tickets, |t: Ticket| listed(l, graph, statuses, t) && listing_filter(t, assignee, tag)),
        order_before(listing_order(l)),
    );
}

/// The query filter compares, for the field `open`, the text of the ticket's
/// own open flag: `"false"` for a closed ticket, `"true"` for an active one.
pub proof fn lemma_open_field_value(t: Ticket)
    ensures
        field_value(t, "open"@) == Some(if t.metadata.open { seq!['t', 'r', 'u', 'e'] } else { seq!['f', 'a', 'l', 's', 'e'] }),
        t.metadata.open ==> field_value(t, "open"@) != Some(seq!['f', 'a', 'l', 's', 'e']),
        !t.metadata.open ==> field_value(t, "open"@) == Some(seq!['f', 'a', 'l', 's', 'e']),
{
    reveal_strlit("open");
    reveal_strlit("status");
    reveal_strlit("true");
    reveal_strlit("false");
    assert("open"@ != "status"@) by {
        assert("open"@[0] != "status"@[0]);
    }
}

/// The ready and blocked listings are ordered by priority, highest first,
/// then by id: of any two tickets shown, the earlier has the smaller
/// priority number, or the same one and an id that is not greater.
pub proof fn lemma_ready_blocked_by_priority(
    l: Listing,
    graph: DependencyGraph,
    statuses: Seq<(String, Status)>,
    tickets: Seq<Ticket>,
    assignee: Option<Seq<char>>,
    tag: Option<Seq<char>>,
)
    requires
        !(l is Closed),
    ensures
        forall|i: int, j: int| 0 <= i < j < listing(l, graph, statuses, tickets, assignee, tag).len() ==> {
            let a = #[trigger] listing(l, graph, statuses, tickets, assignee, tag)[i];
            let b = #[trigger] listing(l, graph, statuses, tickets, assignee, tag)[j];
            a.metadata.priority.value() < b.metadata.priority.value()
                || (a.metadata.priority.value() == b.metadata.priority.value()
                    && !crate::graph::lex_lt(b.metadata.id@, a.metadata.id@))
        },
{
    lemma_listing_ordered(l, graph, statuses, tickets, assignee, tag);
    let r = listing(l, graph, statuses, tickets, assignee, tag);
    assert(order_before(listing_order(l)) == crate::order::priority_before());
    assert forall|i: int, j: int| 0 <= i < j < r.len() implies {
        let a = #[trigger] r[i];
        let b = #[trigger] r[j];
        a.metadata.priority.value() < b.metadata.priority.value()
            || (a.metadata.priority.value() == b.metadata.priority.value()
                && !crate::graph::lex_lt(b.metadata.id@, a.metadata.id@))
    } by {
        assert(!crate::order::priority_before()(r[j], r[i]));
    }
}

/// The filter `.open == <v>` for a plain value `v` compares `v` with the
/// text of the ticket's open flag.
proof fn lemma_query_open_is(t: Ticket, f: Seq<char>, v: Seq<char>)
    requires
        v.len() > 0,
        forall|i: int| 0 <= i < v.len() ==> !crate::text::is_ws(#[trigger] v[i]) && v[i] != '"' && v[i] != '!' && v[i] != '=',
        f == seq!['.', 'o', 'p', 'e', 'n', ' ', '=', '=', ' '] + v,
    ensures
        jq_matches(t, f) <==> bool_text(t.metadata.open) == v,
{
    reveal_strlit("select(");
    reveal_strlit("!=");
    reveal_strlit("==");
    reveal_strlit(")");
    reveal_strlit("open");
    reveal_strlit("status");
    assert(v[0] == f[9]);
    assert(f.last() == v.last());
    assert(!crate::text::is_ws(v[v.len() - 1]));
    crate::text::lemma_trim_fixed(f);
    assert(!starts_with(f, "select("@)) by {
        assert(f.take(7)[0] == '.');
    }
    assert(jq_inner(f) == f) by {
        crate::text::lemma_trim_fixed(f);
    }
    assert forall|i: int| 0 <= i < f.len() implies #[trigger] f[i] != '!' by {
        if i >= 9 {
            assert(f[i] == v[i - 9]);
        }
    }
    assert(!contains_str(f, "!="@)) by {
        if contains_str(f, "!="@) {
            let i = choose|i: int| crate::text::occurs_at(f, "!="@, i);
            assert(f.subrange(i, i + 2)[0] == f[i]);
        }
    }
    assert(crate::text::occurs_at(f, "=="@, 6)) by {
        assert(f.subrange(6, 8) =~= "=="@);
    }
    assert forall|j: int| 0 <= j < 6 implies !crate::text::occurs_at(f, "=="@, j) by {
        if crate::text::occurs_at(f, "=="@, j) {
            assert(f.subrange(j, j + 2)[0] == f[j]);
        }
    }
    crate::text::lemma_find_str_is(f, "=="@, 6);
    assert(contains_str(f, "=="@));
    // The field: ".open " trimmed, without its dot.
    let x = f.take(6);
    assert(crate::text::trim_start(x) == x);
    crate::text::lemma_trim_end_take(x, 5);
    let y = x.take(5);
    assert(crate::text::trim_end(y) == y) by {
        assert(y.last() == 'n');
    }
    assert(trim(x) == y);
    assert(strip_leading(y, '.') == strip_leading(y.drop_first(), '.'));
    assert(y.drop_first()[0] == 'o');
    assert(strip_leading(y.drop_first(), '.') == y.drop_first());
    assert(y.drop_first() =~= "open"@);
    // The value: " <v>" trimmed, without quotes.
    let z = f.skip(8);
    assert(z =~= seq![' '] + v);
    crate::text::lemma_trim_start_skip(z, 1);
    assert(z.skip(1) =~= v);
    assert(crate::text::trim_start(v) == v);
    crate::text::lemma_trim_fixed(v);
    assert(trim(z) == v);
    assert(strip_leading(v, '"') == v);
    assert(strip_trailing(v, '"') == v);
    assert("open"@ != "status"@) by {
        assert("open"@[0] != "status"@[0]);
    }
}

/// A plain filter value: no white space, quote, `!` or `=`.
proof fn lemma_plain_value(v: Seq<char>)
    requires
        v == seq!['f', 'a', 'l', 's', 'e'] || v == seq!['t', 'r', 'u', 'e'],
    ensures
        forall|i: int| 0 <= i < v.len() ==> !crate::text::is_ws(#[trigger] v[i]) && v[i] != '"' && v[i] != '!' && v[i] != '=',
{
    assert forall|i: int| 0 <= i < v.len() implies !crate::text::is_ws(#[trigger] v[i]) && v[i] != '"' && v[i] != '!'
        && v[i] != '=' by {
        let c = v[i];
        assert(c == 'f' || c == 'a' || c == 'l' || c == 's' || c == 'e' || c == 't' || c == 'r' || c == 'u');
    }
}

/// A query `.open == false` picks exactly the tickets whose open flag is
/// false.
#[verifier::spinoff_prover]
pub proof fn lemma_query_open_false(t: Ticket)
    ensures
        jq_matches(t, seq!['.', 'o', 'p', 'e', 'n', ' ', '=', '=', ' ', 'f', 'a', 'l', 's', 'e']) <==> !t.metadata.open,
{
    let v = seq!['f', 'a', 'l', 's', 'e'];
    let f = seq!['.', 'o', 'p', 'e', 'n', ' ', '=', '=', ' ', 'f', 'a', 'l', 's', 'e'];
    assert(f =~= seq!['.', 'o', 'p', 'e', 'n', ' ', '=', '=', ' '] + v);
    lemma_plain_value(v);
    lemma_query_open_is(t, f, v);
    reveal_strlit("false");
    reveal_strlit("true");
    assert("false"@ =~= v);
    assert("true"@ != v) by { assert("true"@.len() != v.len()); }
}

/// A query `.open == true` picks exactly the active tickets.
#[verifier::spinoff_prover]
pub proof fn lemma_query_open_true(t: Ticket)
    ensures
        jq_matches(t, seq!['.', 'o', 'p', 'e', 'n', ' ', '=', '=', ' ', 't', 'r', 'u', 'e']) <==> t.metadata.open,
{
    let v = seq!['t', 'r', 'u', 'e'];
    let f = seq!['.', 'o', 'p', 'e', 'n', ' ', '=', '=', ' ', 't', 'r', 'u', 'e'];
    assert(f =~= seq!['.', 'o', 'p', 'e', 'n', ' ', '=', '=', ' '] + v);
    lemma_plain_value(v);
    lemma_query_open_is(t, f, v);
    reveal_strlit("false");
    reveal_strlit("true");
    assert("true"@ =~= v);
    assert("false"@ != v) by { assert("false"@.len() != v.len()); }
}

} // verus!
