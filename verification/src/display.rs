//! Human-readable output of tickets: single ticket display (show) and the
//! lines of ticket listings (ls, ready, blocked, closed).

use vstd::prelude::*;
use crate::graph::{lookup_status, lookup_title, open_among, status_of, tickets_where, title_of, DependencyGraph};
use crate::render::{body_head, line, nl, notes_part, opt_line, push_body_head, push_line, push_notes_part, push_opt_line};
use crate::storage::{opt_or, tags_line, Ticket};
use crate::text::{decimal, join, join_strings, opt_view, owned, push_char, push_str, views};
use crate::types::{Status, TicketType};

verus! {

/// The label of a status.
pub open spec fn status_label(s: Status) -> Seq<char> {
    match s {
        Status::Open => "open"@,
        Status::InProgress => "in_progress"@,
        Status::Closed => "closed"@,
    }
}

/// The label of a looked-up status; nothing for an unknown one.
pub open spec fn status_text(s: Option<Status>) -> Seq<char> {
    match s {
        Some(x) => status_label(x),
        None => Seq::empty(),
    }
}

/// The label of a ticket type.
pub open spec fn type_label(t: TicketType) -> Seq<char> {
    match t {
        TicketType::Bug => "bug"@,
        TicketType::Feature => "feature"@,
        TicketType::Task => "task"@,
        TicketType::Epic => "epic"@,
        TicketType::Chore => "chore"@,
    }
}

/// A priority as it is shown: `P` and its number.
pub open spec fn priority_text(p: nat) -> Seq<char> {
    seq!['P'] + decimal(p)
}

pub open spec fn spaces(n: nat) -> Seq<char> {
    Seq::new(n, |i: int| ' ')
}

/// `s` padded with spaces on the right to `w` characters (`{:<w}`).
pub open spec fn padded(s: Seq<char>, w: nat) -> Seq<char> {
    if s.len() < w {
        s + spaces((w - s.len()) as nat)
    } else {
        s
    }
}

/// The start of a listing line: the padded id, priority, status and title.
pub open spec fn list_head(t: Ticket) -> Seq<char> {
    padded(t.metadata.id@, 8) + " ["@ + priority_text(t.metadata.priority.value()) + "]["@
        + t.metadata.status@ + "] - "@ + t.data.title@
}

/// A listing line, with the dependencies where they are asked for and there are some.
pub open spec fn list_line(t: Ticket, show_deps: bool) -> Seq<char> {
    list_head(t) + if show_deps && t.metadata.deps@.len() > 0 {
        " <- ["@ + join(views(t.metadata.deps@), ", "@) + "]"@
    } else {
        Seq::empty()
    }
}

/// A blocker as a blocked listing shows it: its id and its status.
pub open spec fn blocker_item(b: Seq<char>, statuses: Seq<(String, Status)>) -> Seq<char> {
    b + seq!['['] + status_text(status_of(statuses, b)) + seq![']']
}

/// A listing line of a blocked ticket, with its blockers.
pub open spec fn blocked_line(t: Ticket, blockers: Seq<Seq<char>>, statuses: Seq<(String, Status)>) -> Seq<char> {
    list_head(t) + " <- ["@
        + join(blockers.map_values(|b: Seq<char>| blocker_item(b, statuses)), ", "@) + "]"@
}

/// A list of ids with their titles: `[]`, or `[a (title), b (title)]`.
pub open spec fn id_list_text(ids: Seq<Seq<char>>, titles: Seq<(String, String)>) -> Seq<char> {
    if ids.len() == 0 {
        "[]"@
    } else {
        "["@ + join(ids.map_values(|id: Seq<char>| id + " ("@ + opt_or(title_of(titles, id), "(unknown)"@) + ")"@), ", "@)
            + "]"@
    }
}

/// The `parent:` line of a ticket display, with the parent's title.
pub open spec fn parent_line(parent: Option<Seq<char>>, titles: Seq<(String, String)>) -> Seq<char> {
    match parent {
        Some(p) => line("parent: "@, p + "  # "@ + opt_or(title_of(titles, p), "(not found)"@)),
        None => Seq::empty(),
    }
}

/// The field lines of a ticket display that every ticket has.
pub open spec fn show_core(t: Ticket, titles: Seq<(String, String)>) -> Seq<char> {
    let md = t.metadata;
    line("id: "@, md.id@)
        + line("status: "@, md.status@)
        + line("deps: "@, id_list_text(views(md.deps@), titles))
        + line("links: "@, id_list_text(views(md.links@), titles))
        + line("created: "@, md.created@)
        + line("type: "@, md.metadata_type@)
        + line("priority: "@, decimal(md.priority.value()))
}

/// The field lines of a ticket display written only where the field has a value.
pub open spec fn show_extra(t: Ticket, titles: Seq<(String, String)>) -> Seq<char> {
    let md = t.metadata;
    opt_line("assignee: "@, opt_view(md.assignee))
        + opt_line("external-ref: "@, opt_view(md.external_ref))
        + parent_line(opt_view(md.parent), titles)
        + tags_line(crate::frontmatter::opt_views(md.tags))
}

/// The field lines of a ticket display.
pub open spec fn show_fields(t: Ticket, titles: Seq<(String, String)>) -> Seq<char> {
    show_core(t, titles) + show_extra(t, titles)
}

/// One blocker line: id, status and title.
pub open spec fn blocker_entry(b: Seq<char>, statuses: Seq<(String, Status)>, titles: Seq<(String, String)>) -> Seq<char> {
    "- "@ + b + " ["@ + status_text(status_of(statuses, b)) + "] "@ + opt_or(title_of(titles, b), "(not found)"@) + nl()
}

pub open spec fn blocker_entries(bs: Seq<Seq<char>>, statuses: Seq<(String, Status)>, titles: Seq<(String, String)>) -> Seq<char>
    decreases bs.len(),
{
    if bs.len() == 0 {
        Seq::empty()
    } else {
        blocker_entries(bs.drop_last(), statuses, titles) + blocker_entry(bs.last(), statuses, titles)
    }
}

/// One ticket line of a display section: id, status and title.
pub open spec fn ticket_entry(t: Ticket) -> Seq<char> {
    "- "@ + t.metadata.id@ + " ["@ + t.metadata.status@ + "] "@ + t.data.title@ + nl()
}

pub open spec fn ticket_entries(ts: Seq<Ticket>) -> Seq<char>
    decreases ts.len(),
{
    if ts.len() == 0 {
        Seq::empty()
    } else {
        ticket_entries(ts.drop_last()) + ticket_entry(ts.last())
    }
}

/// A section of ticket lines under `heading`, written only where there are tickets.
pub open spec fn ticket_section(heading: Seq<char>, ts: Seq<Ticket>) -> Seq<char> {
    if ts.len() > 0 { heading + ticket_entries(ts) } else { Seq::empty() }
}

/// The Blockers section: the dependencies not known to be closed in
/// `statuses` (which `status_map` fills from the `open` flag).
pub open spec fn blockers_section(bs: Seq<Seq<char>>, statuses: Seq<(String, Status)>, titles: Seq<(String, String)>) -> Seq<char> {
    if bs.len() > 0 { "\n## Blockers\n"@ + blocker_entries(bs, statuses, titles) } else { Seq::empty() }
}

/// The active tickets that depend on `id`: activity is read from the
/// `open` flag, not from the status label.
pub open spec fn open_dependents(all: Seq<Ticket>, id: Seq<char>) -> Seq<Ticket> {
    tickets_where(tickets_where(all, |t: Ticket| views(t.metadata.deps@).contains(id)), |t: Ticket| t.metadata.open)
}

/// The tickets whose parent is `id`.
pub open spec fn children_of(all: Seq<Ticket>, id: Seq<char>) -> Seq<Ticket> {
    tickets_where(all, |t: Ticket| opt_view(t.metadata.parent) == Some(id))
}

/// The tickets that `links` names.
pub open spec fn linked_in(all: Seq<Ticket>, links: Seq<Seq<char>>) -> Seq<Ticket> {
    tickets_where(all, |t: Ticket| links.contains(t.metadata.id@))
}

/// The display of a ticket (`tk show`): its fields, body, the sections of
/// related tickets, and its notes.
pub open spec fn show_text(
    t: Ticket,
    statuses: Seq<(String, Status)>,
    titles: Seq<(String, String)>,
    deps: Seq<Seq<char>>,
    all: Seq<Ticket>,
) -> Seq<char> {
    let id = t.metadata.id@;
    show_fields(t, titles) + nl() + body_head(t.data)
        + blockers_section(open_among(deps, statuses), statuses, titles)
        + ticket_section("\n## Blocking\n"@, open_dependents(all, id))
        + ticket_section("\n## Children\n"@, children_of(all, id))
        + ticket_section("\n## Linked\n"@, linked_in(all, views(t.metadata.links@)))
        + notes_part(t.data.notes)
}

// ---------------------------------------------------------------------------
// Executable functions
// ---------------------------------------------------------------------------

/// Format a status for display.
pub fn format_status(status: &Status) -> (r: &'static str)
    ensures
        r@ == status_label(*status),
{
    match status {
        Status::Open => "open",
        Status::InProgress => "in_progress",
        Status::Closed => "closed",
    }
}

/// Format a ticket type for display.
pub fn format_ticket_type(t: &TicketType) -> (r: &'static str)
    ensures
        r@ == type_label(*t),
{
    match t {
        TicketType::Bug => "bug",
        TicketType::Feature => "feature",
        TicketType::Task => "task",
        TicketType::Epic => "epic",
        TicketType::Chore => "chore",
    }
}

/// Format a priority number for display: `P` and the number.
pub fn format_priority(p: u8) -> (r: String)
    ensures
        r@ == priority_text(p as nat),
{
    let mut r = String::new();
    push_char(&mut r, 'P');
    let d = crate::text::decimal_string(p as u64);
    push_str(&mut r, d.as_str());
    assert(r@ =~= priority_text(p as nat));
    r
}

/// The text of a looked-up status.
fn status_str(s: Option<Status>) -> (r: &'static str)
    ensures
        r@ == status_text(s),
{
    match s {
        Some(x) => format_status(&x),
        None => {
            let r = "";
            proof { reveal_strlit(""); assert(r@ =~= Seq::<char>::empty()); }
            r
        },
    }
}

/// The title recorded for `id`, or `default`.
fn title_or<'a>(titles: &'a [(String, String)], id: &String, default: &'a str) -> (r: &'a str)
    ensures
        r@ == opt_or(title_of(titles@, id@), default@),
{
    match lookup_title(titles, id) {
        Some(t) => t.as_str(),
        None => default,
    }
}

/// Appends `s` padded with spaces to 8 characters.
pub fn push_padded(out: &mut String, s: &String)
    ensures
        final(out)@ == old(out)@ + padded(s@, 8),
{
    let n = crate::text::chars_of(s.as_str()).len();
    push_str(out, s.as_str());
    let ghost mid = out@;
    let mut k = n;
    while k < 8
        invariant
            n == s@.len(),
            n <= k <= 8 || n > 8 && k == n,
            out@ == mid + spaces((k - n) as nat),
        decreases 8 - k,
    {
        push_char(out, ' ');
        assert(out@ =~= mid + spaces((k + 1 - n) as nat));
        k = k + 1;
    }
    proof {
        if n < 8 {
            assert(out@ =~= old(out)@ + (s@ + spaces((8 - n) as nat)));
        } else {
            assert(spaces(0) =~= Seq::<char>::empty());
            assert(out@ =~= old(out)@ + s@);
        }
    }
}

/// Appends the start of a listing line.
fn push_list_head(out: &mut String, ticket: &Ticket)
    ensures
        final(out)@ == old(out)@ + list_head(*ticket),
{
    let ghost start = out@;
    push_padded(out, &ticket.metadata.id);
    push_str(out, " [");
    let p = format_priority(ticket.metadata.priority.to_u8());
    push_str(out, p.as_str());
    push_str(out, "][");
    push_str(out, ticket.metadata.status.as_str());
    push_str(out, "] - ");
    push_str(out, ticket.data.title.as_str());
    assert(out@ =~= start + list_head(*ticket));
}

/// Format a ticket list entry (for ls, ready, blocked, closed): the padded
/// id, priority, status, title and, where `show_deps` is set, the dependencies.
pub fn format_ticket_list(ticket: &Ticket, show_deps: bool) -> (r: String)
    ensures
        r@ == list_line(*ticket, show_deps),
{
    let mut out = String::new();
    push_list_head(&mut out, ticket);
    let ghost head = out@;
    if show_deps && ticket.metadata.deps.len() > 0 {
        push_str(&mut out, " <- [");
        let ds = join_strings(&ticket.metadata.deps, ", ");
        push_str(&mut out, ds.as_str());
        push_str(&mut out, "]");
    }
    assert(out@ =~= Seq::<char>::empty() + list_line(*ticket, show_deps));
    out
}

/// Format a blocked ticket entry, with its blockers and their statuses.
pub fn format_ticket_blocked(ticket: &Ticket, blockers: &[String], statuses: &[(String, Status)]) -> (r: String)
    ensures
        r@ == blocked_line(*ticket, views(blockers@), statuses@),
{
    let ghost bs = views(blockers@);
    let mut items: Vec<String> = Vec::new();
    for k in 0..blockers.len()
        invariant
            bs == views(blockers@),
            views(items@) == bs.take(k as int).map_values(|b: Seq<char>| blocker_item(b, statuses@)),
    {
        let mut item = crate::text::copy_string(&blockers[k]);
        push_char(&mut item, '[');
        push_str(&mut item, status_str(lookup_status(statuses, &blockers[k])));
        push_char(&mut item, ']');
        let ghost before = views(items@);
        proof {
            assert(bs[k as int] == blockers@[k as int]@);
            assert(item@ =~= blocker_item(bs[k as int], statuses@));
        }
        items.push(item);
        proof {
            assert(views(items@) =~= before.push(blocker_item(bs[k as int], statuses@)));
            assert(bs.take(k + 1).map_values(|b: Seq<char>| blocker_item(b, statuses@))
                =~= bs.take(k as int).map_values(|b: Seq<char>| blocker_item(b, statuses@)).push(blocker_item(bs[k as int], statuses@)));
        }
    }
    assert(bs.take(blockers@.len() as int) =~= bs);
    let mut out = String::new();
    push_list_head(&mut out, ticket);
    push_str(&mut out, " <- [");
    let list = join_strings(&items, ", ");
    push_str(&mut out, list.as_str());
    push_str(&mut out, "]");
    assert(out@ =~= blocked_line(*ticket, bs, statuses@));
    out
}

/// Format a list of ids with their titles in parentheses.
pub fn format_id_list(ids: &[String], titles: &[(String, String)]) -> (r: String)
    ensures
        r@ == id_list_text(views(ids@), titles@),
{
    if ids.len() == 0 {
        return owned("[]");
    }
    let ghost vs = views(ids@);
    let ghost f = |id: Seq<char>| id + " ("@ + opt_or(title_of(titles@, id), "(unknown)"@) + ")"@;
    let mut items: Vec<String> = Vec::new();
    for k in 0..ids.len()
        invariant
            vs == views(ids@),
            f == |id: Seq<char>| id + " ("@ + opt_or(title_of(titles@, id), "(unknown)"@) + ")"@,
            views(items@) == vs.take(k as int).map_values(f),
    {
        let mut item = crate::text::copy_string(&ids[k]);
        push_str(&mut item, " (");
        push_str(&mut item, title_or(titles, &ids[k], "(unknown)"));
        push_str(&mut item, ")");
        let ghost before = views(items@);
        proof {
            assert(vs[k as int] == ids@[k as int]@);
            assert(item@ =~= f(vs[k as int]));
        }
        items.push(item);
        proof {
            assert(views(items@) =~= before.push(f(vs[k as int])));
            assert(vs.take(k + 1).map_values(f) =~= vs.take(k as int).map_values(f).push(f(vs[k as int])));
        }
    }
    assert(vs.take(ids@.len() as int) =~= vs);
    let mut out = owned("[");
    let list = join_strings(&items, ", ");
    push_str(&mut out, list.as_str());
    push_str(&mut out, "]");
    assert(out@ =~= id_list_text(vs, titles@));
    out
}

fn push_show_core(out: &mut String, ticket: &Ticket, titles: &[(String, String)])
    ensures
        final(out)@ == old(out)@ + show_core(*ticket, titles@),
{
    let ghost start = out@;
    let md = &ticket.metadata;
    push_line(out, "id: ", md.id.as_str());
    push_line(out, "status: ", md.status.as_str());
    let deps = format_id_list(md.deps.as_slice(), titles);
    push_line(out, "deps: ", deps.as_str());
    let links = format_id_list(md.links.as_slice(), titles);
    push_line(out, "links: ", links.as_str());
    push_line(out, "created: ", md.created.as_str());
    push_line(out, "type: ", md.metadata_type.as_str());
    let p = crate::text::decimal_string(md.priority.to_u8() as u64);
    push_line(out, "priority: ", p.as_str());
    assert(out@ =~= start + show_core(*ticket, titles@));
}

fn push_show_extra(out: &mut String, ticket: &Ticket, titles: &[(String, String)])
    ensures
        final(out)@ == old(out)@ + show_extra(*ticket, titles@),
{
    let ghost start = out@;
    let md = &ticket.metadata;
    push_opt_line(out, "assignee: ", &md.assignee);
    push_opt_line(out, "external-ref: ", &md.external_ref);
    let ghost before_parent = out@;
    match &md.parent {
        Some(p) => {
            let mut v = crate::text::copy_string(p);
            push_str(&mut v, "  # ");
            push_str(&mut v, title_or(titles, p, "(not found)"));
            push_line(out, "parent: ", v.as_str());
        },
        None => {},
    }
    assert(out@ =~= before_parent + parent_line(opt_view(md.parent), titles@));
    let ghost before_tags = out@;
    match &md.tags {
        Some(ts) => {
            if ts.len() > 0 {
                let t = crate::frontmatter::format_yaml_array(ts.as_slice());
                push_line(out, "tags: ", t.as_str());
            }
        },
        None => {},
    }
    assert(out@ =~= before_tags + tags_line(crate::frontmatter::opt_views(md.tags)));
    assert(out@ =~= start + show_extra(*ticket, titles@));
}

/// Appends the Blockers section for the blockers `bs`.
fn push_blockers_section(out: &mut String, bs: &Vec<String>, statuses: &[(String, Status)], titles: &[(String, String)])
    ensures
        final(out)@ == old(out)@ + blockers_section(views(bs@), statuses@, titles@),
{
    if bs.len() == 0 {
        assert(out@ =~= old(out)@ + Seq::<char>::empty());
        return;
    }
    push_str(out, "\n## Blockers\n");
    let ghost start = out@;
    let ghost vs = views(bs@);
    for k in 0..bs.len()
        invariant
            vs == views(bs@),
            out@ == start + blocker_entries(vs.take(k as int), statuses@, titles@),
    {
        proof {
            assert(vs.take(k + 1).drop_last() =~= vs.take(k as int));
            assert(vs[k as int] == bs@[k as int]@);
        }
        let ghost before = out@;
        push_str(out, "- ");
        push_str(out, bs[k].as_str());
        push_str(out, " [");
        push_str(out, status_str(lookup_status(statuses, &bs[k])));
        push_str(out, "] ");
        push_str(out, title_or(titles, &bs[k], "(not found)"));
        push_char(out, '\n');
        assert(out@ =~= before + blocker_entry(vs[k as int], statuses@, titles@));
    }
    assert(vs.take(bs@.len() as int) =~= vs);
}

/// Appends a section of ticket lines under `heading`, where there are tickets.
fn push_ticket_section(out: &mut String, heading: &str, ts: &Vec<&Ticket>)
    ensures
        final(out)@ == old(out)@ + ticket_section(heading@, crate::order::derefs(ts@)),
{
    let ghost vs = crate::order::derefs(ts@);
    if ts.len() == 0 {
        assert(out@ =~= old(out)@ + Seq::<char>::empty());
        return;
    }
    push_str(out, heading);
    let ghost start = out@;
    for k in 0..ts.len()
        invariant
            vs == crate::order::derefs(ts@),
            out@ == start + ticket_entries(vs.take(k as int)),
    {
        proof {
            assert(vs.take(k + 1).drop_last() =~= vs.take(k as int));
            assert(vs[k as int] == *ts@[k as int]);
        }
        let t = ts[k];
        let ghost before = out@;
        push_str(out, "- ");
        push_str(out, t.metadata.id.as_str());
        push_str(out, " [");
        push_str(out, t.metadata.status.as_str());
        push_str(out, "] ");
        push_str(out, t.data.title.as_str());
        push_char(out, '\n');
        assert(out@ =~= before + ticket_entry(vs[k as int]));
    }
    assert(vs.take(ts@.len() as int) =~= vs);
}

/// The active tickets among `ts`.
fn active_only<'a>(ts: &Vec<&'a Ticket>) -> (r: Vec<&'a Ticket>)
    ensures
        crate::order::derefs(r@) == tickets_where(crate::order::derefs(ts@), |t: Ticket| t.metadata.open),
{
    let ghost vs = crate::order::derefs(ts@);
    let ghost keep = |t: Ticket| t.metadata.open;
    let mut r: Vec<&'a Ticket> = Vec::new();
    for k in 0..ts.len()
        invariant
            vs == crate::order::derefs(ts@),
            keep == |t: Ticket| t.metadata.open,
            crate::order::derefs(r@) == tickets_where(vs.take(k as int), keep),
    {
        proof {
            assert(vs.take(k + 1).drop_last() =~= vs.take(k as int));
            assert(vs.take(k + 1).last() == *ts@[k as int]);
        }
        let t = ts[k];
        if t.metadata.open {
            let ghost before = crate::order::derefs(r@);
            r.push(t);
            assert(crate::order::derefs(r@) =~= before.push(*t));
        }
    }
    assert(vs.take(ts@.len() as int) =~= vs);
    r
}

/// The tickets among `all` whose id `links` names.
fn linked_tickets<'a>(links: &Vec<String>, all: &'a [Ticket]) -> (r: Vec<&'a Ticket>)
    ensures
        crate::order::derefs(r@) == linked_in(all@, views(links@)),
{
    let ghost keep = |t: Ticket| views(links@).contains(t.metadata.id@);
    let mut r: Vec<&'a Ticket> = Vec::new();
    for k in 0..all.len()
        invariant
            keep == |t: Ticket| views(links@).contains(t.metadata.id@),
            crate::order::derefs(r@) == tickets_where(all@.take(k as int), keep),
    {
        proof {
            assert(all@.take(k + 1).drop_last() =~= all@.take(k as int));
            assert(all@.take(k + 1).last() == all@[k as int]);
        }
        let t = &all[k];
        if crate::graph::contains_string(links, &t.metadata.id) {
            let ghost before = crate::order::derefs(r@);
            r.push(t);
            assert(crate::order::derefs(r@) =~= before.push(*t));
        }
    }
    assert(all@.take(all@.len() as int) =~= all@);
    r
}

/// Format a ticket for display (like `tk show`): its fields (with the
/// titles of its dependencies, links and parent), its body, its blockers
/// (dependencies not known to be closed), the active tickets it blocks, its
/// children, the tickets it links to, and its notes.
pub fn format_ticket_show(
    ticket: &Ticket,
    statuses: &[(String, Status)],
    titles: &[(String, String)],
    graph: &DependencyGraph,
    all_tickets: &[Ticket],
) -> (r: String)
    requires
        graph.wf(),
    ensures
        r@ == show_text(*ticket, statuses@, titles@, graph.deps_of(ticket.metadata.id@), all_tickets@),
{
    let id = ticket.metadata.id.as_str();
    let mut out = String::new();
    push_show_core(&mut out, ticket, titles);
    push_show_extra(&mut out, ticket, titles);
    push_char(&mut out, '\n');
    push_body_head(&mut out, &ticket.data);
    let blockers = graph.blockers(id, statuses);
    push_blockers_section(&mut out, &blockers, statuses, titles);
    let blocking = graph.blocking(id, all_tickets);
    let open_blocking = active_only(&blocking);
    push_ticket_section(&mut out, "\n## Blocking\n", &open_blocking);
    let children = graph.children(id, all_tickets);
    push_ticket_section(&mut out, "\n## Children\n", &children);
    let linked = linked_tickets(&ticket.metadata.links, all_tickets);
    push_ticket_section(&mut out, "\n## Linked\n", &linked);
    push_notes_part(&mut out, &ticket.data.notes);
    assert(out@ =~= show_text(*ticket, statuses@, titles@, graph.deps_of(ticket.metadata.id@), all_tickets@));
    out
}

/// The Blocking section of `tk show` lists only active tickets that depend
/// on the shown ticket, all of them, in the order of `all`: no closed ticket
/// is listed there.
pub proof fn lemma_blocking_section_active(all: Seq<Ticket>, id: Seq<char>)
    ensures
        forall|i: int| 0 <= i < open_dependents(all, id).len() ==> {
            let t = #[trigger] open_dependents(all, id)[i];
            &&& t.metadata.open
            &&& views(t.metadata.deps@).contains(id)
            &&& all.contains(t)
        },
        forall|j: int| 0 <= j < all.len() && (#[trigger] all[j]).metadata.open && views(all[j].metadata.deps@).contains(id)
            ==> open_dependents(all, id).contains(all[j]),
{
    let dep = |t: Ticket| views(t.metadata.deps@).contains(id);
    let act = |t: Ticket| t.metadata.open;
    let d = tickets_where(all, dep);
    crate::graph::lemma_tickets_where_members(all, dep);
    crate::graph::lemma_tickets_where_members(d, act);
    let r = open_dependents(all, id);
    assert(r == tickets_where(d, act));
    assert forall|i: int| 0 <= i < r.len() implies {
        let t = #[trigger] r[i];
        &&& t.metadata.open
        &&& views(t.metadata.deps@).contains(id)
        &&& all.contains(t)
    } by {
        assert(act(r[i]) && d.contains(r[i]));
        let k = choose|k: int| 0 <= k < d.len() && d[k] == r[i];
        assert(dep(d[k]) && all.contains(d[k]));
    }
    assert forall|j: int| 0 <= j < all.len() && (#[trigger] all[j]).metadata.open && views(all[j].metadata.deps@).contains(id)
        implies r.contains(all[j]) by {
        assert(dep(all[j]));
        assert(d.contains(all[j]));
        let k = choose|k: int| 0 <= k < d.len() && d[k] == all[j];
        assert(act(d[k]));
    }
}

/// The text of `tk show` holds, after the Blockers section, the Blocking
/// section of exactly the tickets `open_dependents` gives: with
/// `lemma_blocking_section_active`, only active tickets that depend on the
/// shown one are listed there.
pub proof fn lemma_show_blocking_section(
    t: Ticket,
    statuses: Seq<(String, Status)>,
    titles: Seq<(String, String)>,
    deps: Seq<Seq<char>>,
    all: Seq<Ticket>,
)
    ensures
        crate::text::contains_str(
            show_text(t, statuses, titles, deps, all),
            ticket_section("\n## Blocking\n"@, open_dependents(all, t.metadata.id@)),
        ),
{
    let id = t.metadata.id@;
    let pre = show_fields(t, titles) + nl() + body_head(t.data)
        + blockers_section(open_among(deps, statuses), statuses, titles);
    let sec = ticket_section("\n## Blocking\n"@, open_dependents(all, id));
    let post = ticket_section("\n## Children\n"@, children_of(all, id))
        + ticket_section("\n## Linked\n"@, linked_in(all, views(t.metadata.links@)))
        + notes_part(t.data.notes);
    let s = show_text(t, statuses, titles, deps, all);
    assert(s =~= pre + sec + post);
    assert(s.subrange(pre.len() as int, (pre.len() + sec.len()) as int) =~= sec);
    assert(crate::text::occurs_at(s, sec, pre.len() as int));
}

} // verus!
