//! Ticket files: parsing and writing them, searching tickets, and the index
//! of ticket ids of a `.tickets/` directory.

use vstd::prelude::*;
use crate::body::{data_matches, nonstandard_names, parse_body, sections};
use crate::frontmatter::{frontmatter_model, opt_views, parse_frontmatter_range, yaml_list_text, format_yaml_array, MetaModel};
use crate::text::{
    chars_of, find_str, opt_view, push_str, range_find, range_starts_with, starts_with, string_of_range, trim,
    trim_bounds, views,
};
use crate::render::{
    body_head, bool_text, line, notes_part, opt_line, push_body_head, push_line, push_notes_part,
    push_opt_line,
};
use crate::text::decimal;
use crate::types::{CreateOptions, Data, Metadata, Priority};

verus! {

/// A parsed ticket file.
#[derive(Debug, Clone)]
pub struct Ticket {
    pub metadata: Metadata,
    pub data: Data,
    /// `##` section headings in the body that are not part of the known schema
    /// (description before the first heading / Design / Acceptance Criteria / Notes).
    /// Their content is parsed but not kept, so that a display can warn about it.
    pub non_standard_sections: Vec<String>,
}

/// Why a ticket file could not be read.
#[derive(Debug, Clone, Copy, PartialEq, Eq, Structural)]
pub enum ParseError {
    /// The file opens a front matter with `---` and never closes it.
    MissingClosingDelimiter,
    /// The file has no front matter.
    MissingFrontmatter,
}

impl ParseError {
    pub open spec fn message_spec(self) -> Seq<char> {
        match self {
            ParseError::MissingClosingDelimiter => "Ticket file missing closing --- frontmatter delimiter"@,
            ParseError::MissingFrontmatter => "Missing YAML frontmatter"@,
        }
    }

    /// The message that explains the error.
    pub fn message(&self) -> (m: String)
        ensures
            m@ == self.message_spec(),
    {
        match self {
            ParseError::MissingClosingDelimiter => crate::text::owned("Ticket file missing closing --- frontmatter delimiter"),
            ParseError::MissingFrontmatter => crate::text::owned("Missing YAML frontmatter"),
        }
    }
}

pub open spec fn delimiter() -> Seq<char> {
    seq!['-', '-', '-']
}

/// The front matter text and the body text of a ticket file, or why there is none.
pub open spec fn split_file(content: Seq<char>) -> Result<(Seq<char>, Seq<char>), ParseError> {
    let c = trim(content);
    if starts_with(c, delimiter()) {
        let rest = c.skip(3);
        match find_str(rest, delimiter()) {
            Some(e) => if trim(rest.take(e)).len() == 0 {
                Err(ParseError::MissingFrontmatter)
            } else {
                Ok((trim(rest.take(e)), trim(rest.skip(e + 3))))
            },
            None => Err(ParseError::MissingClosingDelimiter),
        }
    } else {
        Err(ParseError::MissingFrontmatter)
    }
}

pub open spec fn closed_label() -> Seq<char> {
    seq!['c', 'l', 'o', 's', 'e', 'd']
}

/// Whether the ticket is active: the `open:` field, or, where it is missing,
/// whether the status is something other than `closed`.
pub open spec fn open_value(m: MetaModel) -> bool {
    match m.open {
        Some(b) => b,
        None => m.status != closed_label(),
    }
}

/// The metadata `md` holds what the front matter says, with `now` as the
/// creation time where the front matter gives none.
pub open spec fn meta_matches(md: Metadata, m: MetaModel, now: Seq<char>) -> bool {
    &&& md.id@ == m.id
    &&& md.status@ == m.status
    &&& md.open == open_value(m)
    &&& views(md.deps@) == m.deps
    &&& views(md.links@) == m.links
    &&& md.created@ == if m.created.len() == 0 { now } else { m.created }
    &&& md.metadata_type@ == m.mtype
    &&& md.priority == m.priority
    &&& opt_view(md.assignee) == m.assignee
    &&& opt_view(md.external_ref) == m.external_ref
    &&& opt_view(md.parent) == m.parent
    &&& opt_views(md.tags) == m.tags
}

/// The ticket `t` is what the file text `content` says, for a file named
/// `default_id`, with `now` as the creation time where the file gives none.
pub open spec fn parsed_as(t: Ticket, content: Seq<char>, default_id: Seq<char>, now: Seq<char>) -> bool {
    match split_file(content) {
        Ok((yaml, body)) => {
            &&& meta_matches(t.metadata, frontmatter_model(yaml, default_id), now)
            &&& data_matches(t.data, body)
            &&& views(t.non_standard_sections@) == nonstandard_names(sections(trim(body)))
        },
        Err(_) => false,
    }
}

/// The current UTC time as `YYYY-MM-DDTHH:MM:SSZ`.
///
/// Calls `chrono::Utc::now()` and formats it; nothing is claimed of the text,
/// which depends on the clock.
#[verifier::external_body]
pub(crate) fn utc_timestamp() -> (s: String) {
    chrono::Utc::now().format("%Y-%m-%dT%H:%M:%SZ").to_string()
}

/// The `tags:` line of a front matter: written only for a nonempty list.
pub open spec fn tags_line(tags: Option<Seq<Seq<char>>>) -> Seq<char> {
    match tags {
        Some(ts) => if ts.len() > 0 { line("tags: "@, yaml_list_text(ts)) } else { Seq::empty() },
        None => Seq::empty(),
    }
}

/// The front matter lines that every ticket has, in their canonical order.
pub open spec fn metadata_core(md: Metadata) -> Seq<char> {
    line("id: "@, md.id@)
        + line("status: "@, md.status@)
        + line("open: "@, bool_text(md.open))
        + line("deps: "@, yaml_list_text(views(md.deps@)))
        + line("links: "@, yaml_list_text(views(md.links@)))
        + line("created: "@, md.created@)
        + line("type: "@, md.metadata_type@)
        + line("priority: "@, decimal(md.priority.value()))
}

/// The front matter lines written only where the field has a value.
pub open spec fn metadata_extra(md: Metadata) -> Seq<char> {
    opt_line("assignee: "@, opt_view(md.assignee))
        + opt_line("external-ref: "@, opt_view(md.external_ref))
        + opt_line("parent: "@, opt_view(md.parent))
        + tags_line(opt_views(md.tags))
}

/// The front matter lines of a ticket, in their canonical order.
pub open spec fn metadata_lines(md: Metadata) -> Seq<char> {
    metadata_core(md) + metadata_extra(md)
}

/// The file text of a ticket.
pub open spec fn ticket_text(t: Ticket) -> Seq<char> {
    "---\n"@ + metadata_lines(t.metadata) + "---\n"@ + body_head(t.data) + notes_part(t.data.notes)
}

fn push_metadata_core(out: &mut String, md: &Metadata)
    ensures
        final(out)@ == old(out)@ + metadata_core(*md),
{
    let ghost start = out@;
    push_line(out, "id: ", md.id.as_str());
    push_line(out, "status: ", md.status.as_str());
    let b = if md.open { "true" } else { "false" };
    assert(b@ == bool_text(md.open));
    push_line(out, "open: ", b);
    let deps = format_yaml_array(md.deps.as_slice());
    push_line(out, "deps: ", deps.as_str());
    let links = format_yaml_array(md.links.as_slice());
    push_line(out, "links: ", links.as_str());
    push_line(out, "created: ", md.created.as_str());
    push_line(out, "type: ", md.metadata_type.as_str());
    let p = crate::text::decimal_string(md.priority.to_u8() as u64);
    push_line(out, "priority: ", p.as_str());
    assert(out@ =~= start + metadata_core(*md));
}

fn push_metadata_extra(out: &mut String, md: &Metadata)
    ensures
        final(out)@ == old(out)@ + metadata_extra(*md),
{
    let ghost start = out@;
    push_opt_line(out, "assignee: ", &md.assignee);
    push_opt_line(out, "external-ref: ", &md.external_ref);
    push_opt_line(out, "parent: ", &md.parent);
    let ghost before_tags = out@;
    match &md.tags {
        Some(ts) => {
            if ts.len() > 0 {
                let t = format_yaml_array(ts.as_slice());
                push_line(out, "tags: ", t.as_str());
            }
        },
        None => {},
    }
    assert(out@ =~= before_tags + tags_line(opt_views(md.tags)));
    assert(out@ =~= start + metadata_extra(*md));
}

impl Ticket {
    /// The file text of the ticket: `---`, the front matter in canonical
    /// order, `---`, then the markdown body.
    pub fn to_text(&self) -> (s: String)
        ensures
            s@ == ticket_text(*self),
    {
        let mut out = crate::text::owned("---\n");
        push_metadata_core(&mut out, &self.metadata);
        push_metadata_extra(&mut out, &self.metadata);
        push_str(&mut out, "---\n");
        push_body_head(&mut out, &self.data);
        push_notes_part(&mut out, &self.data.notes);
        out
    }

    /// Parse a ticket from its file content, with `now` as the creation time
    /// where the file gives none.
    pub fn parse_at(content: &str, default_id: &str, now: &str) -> (r: Result<Ticket, ParseError>)
        ensures
            match r {
                Ok(t) => parsed_as(t, content@, default_id@, now@),
                Err(e) => split_file(content@) == Err::<(Seq<char>, Seq<char>), ParseError>(e),
            },
    {
        let v = chars_of(content);
        let (a, b) = trim_bounds(&v, 0, v.len());
        assert(v@.subrange(0, v@.len() as int) =~= v@);
        let ghost c = v@.subrange(a as int, b as int);
        let delim: Vec<char> = vec!['-', '-', '-'];
        if !range_starts_with(&v, a, b, &delim) {
            return Err(ParseError::MissingFrontmatter);
        }
        let s = a + 3;
        assert(c.skip(3) =~= v@.subrange(s as int, b as int));
        let e = match range_find(&v, s, b, &delim) {
            Some(e) => e,
            None => { return Err(ParseError::MissingClosingDelimiter); },
        };
        proof {
            crate::text::lemma_find_str_bounds(v@.subrange(s as int, b as int), delim@);
        }
        let (ya, yb) = trim_bounds(&v, s, s + e);
        let (ba, bb) = trim_bounds(&v, s + e + 3, b);
        proof {
            let rest = v@.subrange(s as int, b as int);
            assert(rest.take(e as int) =~= v@.subrange(s as int, s + e));
            assert(rest.skip(e + 3) =~= v@.subrange(s + e + 3, b as int));
        }
        if ya == yb {
            return Err(ParseError::MissingFrontmatter);
        }
        let fm = parse_frontmatter_range(&v, ya, yb, default_id);
        let body_text = string_of_range(&v, ba, bb);
        let (data, non_standard_sections) = parse_body(body_text.as_str());
        let open = match fm.open {
            Some(o) => o,
            None => {
                let st = chars_of(fm.status.as_str());
                !crate::types::chars_eq(&st, &vec!['c', 'l', 'o', 's', 'e', 'd'])
            },
        };
        let created = if fm.created.as_str().is_empty() { crate::text::owned(now) } else { fm.created };
        let metadata = Metadata {
            id: fm.id,
            status: fm.status,
            open,
            deps: fm.deps,
            links: fm.links,
            created,
            metadata_type: fm.metadata_type,
            priority: fm.priority,
            assignee: fm.assignee,
            external_ref: fm.external_ref,
            parent: fm.parent,
            tags: fm.tags,
        };
        Ok(Ticket { metadata, data, non_standard_sections })
    }

    /// Parse a ticket from its file content; a file without a creation time
    /// gets the current time.
    pub fn parse(content: &str, default_id: &str) -> (r: Result<Ticket, ParseError>)
        ensures
            match r {
                Ok(t) => exists|now: Seq<char>| parsed_as(t, content@, default_id@, now),
                Err(e) => split_file(content@) == Err::<(Seq<char>, Seq<char>), ParseError>(e),
            },
    {
        let now = utc_timestamp();
        Ticket::parse_at(content, default_id, now.as_str())
    }
}

// ---------------------------------------------------------------------------
// Searching
// ---------------------------------------------------------------------------

/// The lowercase form of a text, as `str::to_lowercase` gives it.
pub uninterp spec fn lowercase(s: Seq<char>) -> Seq<char>;

/// The lowercase equivalent of a string: calls `str::to_lowercase`. Claimed:
/// the result is `lowercase` of the text, a function of the text alone; what
/// that function is (Unicode's lowercase mapping) is not written out.
#[verifier::external_body]
fn to_lowercase(s: &str) -> (r: String)
    ensures
        r@ == lowercase(s@),
{
    s.to_lowercase()
}

/// Search/filter query for tickets.
#[derive(Debug)]
pub struct SearchQuery {
    pub open: Option<bool>,
    pub status: Option<String>,
    pub assignee: Option<String>,
    pub ticket_type: Option<String>,
    pub tags: Option<Vec<String>>,
    pub search: Option<String>,
    pub dedup: bool,
}

impl Default for SearchQuery {
    /// The query that every ticket matches.
    fn default() -> (q: Self)
        ensures
            q.open is None,
            q.status is None,
            q.assignee is None,
            q.ticket_type is None,
            q.tags is None,
            q.search is None,
            !q.dedup,
    {
        SearchQuery {
            open: None,
            status: None,
            assignee: None,
            ticket_type: None,
            tags: None,
            search: None,
            dedup: false,
        }
    }
}

/// The tags of a ticket; none where it has no tag list.
pub open spec fn tags_of(t: Ticket) -> Seq<Seq<char>> {
    match t.metadata.tags {
        Some(v) => views(v@),
        None => Seq::empty(),
    }
}

/// Whether the ticket passes every filter that the query sets.
pub open spec fn query_matches(q: SearchQuery, t: Ticket) -> bool {
    &&& (q.open matches Some(o) ==> t.metadata.open == o)
    &&& (q.status matches Some(s) ==> t.metadata.status@ == s@)
    &&& (q.assignee matches Some(a) ==> opt_view(t.metadata.assignee) == Some(a@))
    &&& (q.ticket_type matches Some(ty) ==> t.metadata.metadata_type@ == ty@)
    &&& (q.tags matches Some(tags) ==> forall|i: int| 0 <= i < tags@.len() ==> tags_of(t).contains(#[trigger] tags@[i]@))
    &&& (q.search matches Some(s) ==> crate::text::contains_str(lowercase(t.data.title@), lowercase(s@)))
}

/// Whether every string of `wanted` is among `have`.
fn has_all(have: &Vec<String>, wanted: &Vec<String>) -> (r: bool)
    ensures
        r == forall|i: int| 0 <= i < wanted@.len() ==> views(have@).contains(#[trigger] wanted@[i]@),
{
    for k in 0..wanted.len()
        invariant
            forall|i: int| 0 <= i < k ==> views(have@).contains(#[trigger] wanted@[i]@),
    {
        if !crate::graph::contains_string(have, &wanted[k]) {
            assert(!views(have@).contains(wanted@[k as int]@));
            return false;
        }
    }
    true
}

impl SearchQuery {
    /// Whether the ticket passes every filter that the query sets: the
    /// active flag, the status, assignee and type labels, every tag, and the
    /// search text, found in the title with case ignored.
    pub fn matches(&self, ticket: &Ticket) -> (r: bool)
        ensures
            r == query_matches(*self, *ticket),
    {
        if let Some(open) = self.open {
            if ticket.metadata.open != open {
                return false;
            }
        }
        if let Some(status) = &self.status {
            if !crate::text::str_eq(&ticket.metadata.status, status) {
                return false;
            }
        }
        if let Some(assignee) = &self.assignee {
            match &ticket.metadata.assignee {
                Some(a) => {
                    if !crate::text::str_eq(a, assignee) {
                        return false;
                    }
                },
                None => {
                    return false;
                },
            }
        }
        if let Some(ticket_type) = &self.ticket_type {
            if !crate::text::str_eq(&ticket.metadata.metadata_type, ticket_type) {
                return false;
            }
        }
        if let Some(tags) = &self.tags {
            let empty: Vec<String> = Vec::new();
            let ticket_tags = match &ticket.metadata.tags {
                Some(v) => v,
                None => &empty,
            };
            assert(views(ticket_tags@) == tags_of(*ticket));
            if !has_all(ticket_tags, tags) {
                return false;
            }
        }
        if let Some(search) = &self.search {
            let search_lower = to_lowercase(search.as_str());
            let title_lower = to_lowercase(ticket.data.title.as_str());
            if !crate::text::str_contains(&title_lower, &search_lower) {
                return false;
            }
        }
        true
    }
}

// ---------------------------------------------------------------------------
// New tickets
// ---------------------------------------------------------------------------

/// The user name in the output of `git config user.name`: the trimmed text,
/// where it is not empty.
pub open spec fn user_name(output: Option<Seq<char>>) -> Option<Seq<char>> {
    match output {
        Some(o) => if trim(o).len() > 0 { Some(trim(o)) } else { None },
        None => None,
    }
}

pub open spec fn opt_or(o: Option<Seq<char>>, d: Seq<char>) -> Seq<char> {
    match o {
        Some(x) => x,
        None => d,
    }
}

pub open spec fn opt_else(o: Option<Seq<char>>, d: Option<Seq<char>>) -> Option<Seq<char>> {
    match o {
        Some(x) => Some(x),
        None => d,
    }
}

/// The ticket `t` is the one made from the options `opts`, with id `id`,
/// creation time `now` and the output `git_output` of `git config user.name`.
pub open spec fn made_from(
    t: Ticket,
    opts: CreateOptions,
    id: Seq<char>,
    now: Seq<char>,
    git_output: Option<Seq<char>>,
) -> bool {
    let md = t.metadata;
    &&& md.id@ == id
    &&& md.status@ == "open"@
    &&& md.open
    &&& md.deps@.len() == 0
    &&& md.links@.len() == 0
    &&& md.created@ == now
    &&& md.metadata_type@ == opt_or(opt_view(opts.create_type), "task"@)
    &&& md.priority == match opts.priority { Some(p) => p, None => Priority::P2 }
    &&& opt_view(md.assignee) == opt_else(opt_view(opts.assignee), user_name(git_output))
    &&& opt_view(md.external_ref) == opt_view(opts.external_ref)
    &&& opt_view(md.parent) == opt_view(opts.parent)
    &&& opt_views(md.tags) == opt_views(opts.tags)
    &&& t.data.title@ == opt_or(opt_view(opts.title), "Untitled"@)
    &&& opt_view(t.data.description) == opt_view(opts.description)
    &&& opt_view(t.data.design) == opt_view(opts.design)
    &&& opt_view(t.data.acceptance) == opt_view(opts.acceptance)
    &&& t.data.notes is None
    &&& t.non_standard_sections@.len() == 0
}

fn copy_opt_strings(o: &Option<Vec<String>>) -> (r: Option<Vec<String>>)
    ensures
        opt_views(r) == opt_views(*o),
{
    match o {
        Some(v) => Some(crate::text::copy_strings(v)),
        None => None,
    }
}

fn string_or(o: &Option<String>, d: &str) -> (r: String)
    ensures
        r@ == opt_or(opt_view(*o), d@),
{
    match o {
        Some(x) => crate::text::copy_string(x),
        None => crate::text::owned(d),
    }
}

impl Ticket {
    /// The new ticket made from `opts`, with id `id`, creation time `now`,
    /// status `open`, and as assignee, where the options name none, the user
    /// name in `git_output` (the output of `git config user.name`).
    pub fn from_options(opts: &CreateOptions, id: String, now: String, git_output: Option<String>) -> (t: Ticket)
        ensures
            made_from(t, *opts, id@, now@, opt_view(git_output)),
    {
        let assignee = match &opts.assignee {
            Some(a) => Some(crate::text::copy_string(a)),
            None => match &git_output {
                Some(o) => {
                    let s = crate::text::trimmed(o.as_str());
                    if s.as_str().is_empty() { None } else { Some(s) }
                },
                None => None,
            },
        };
        let metadata = Metadata {
            id,
            status: crate::text::owned("open"),
            open: true,
            deps: Vec::new(),
            links: Vec::new(),
            created: now,
            metadata_type: string_or(&opts.create_type, "task"),
            priority: match opts.priority { Some(p) => p, None => Priority::P2 },
            assignee,
            external_ref: crate::text::copy_opt_string(&opts.external_ref),
            parent: crate::text::copy_opt_string(&opts.parent),
            tags: copy_opt_strings(&opts.tags),
        };
        let data = Data {
            title: string_or(&opts.title, "Untitled"),
            description: crate::text::copy_opt_string(&opts.description),
            design: crate::text::copy_opt_string(&opts.design),
            acceptance: crate::text::copy_opt_string(&opts.acceptance),
            notes: None,
        };
        Ticket { metadata, data, non_standard_sections: Vec::new() }
    }

    /// A new ticket made from `opts` in the directory named `dir_name`: a
    /// fresh id and the current time (see `from_options`).
    pub fn create(opts: &CreateOptions, dir_name: &str, git_output: Option<String>) -> (t: Ticket)
        ensures
            made_from(t, *opts, t.metadata.id@, t.metadata.created@, opt_view(git_output)),
            exists|draws: Seq<usize>|
                draws.len() == 4
                && (forall|k: int| 0 <= k < 4 ==> #[trigger] draws[k] < 36)
                && t.metadata.id@ == crate::id::id_from_draws(dir_name@, draws),
    {
        let id = crate::id::generate_id(dir_name);
        let now = utc_timestamp();
        Ticket::from_options(opts, id, now, git_output)
    }
}

} // verus!
