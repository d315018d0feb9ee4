//! What reading a written ticket file gives back.

use vstd::prelude::*;
use crate::frontmatter::{
    apply_line, apply_lines, frontmatter_model, initial_meta, key_assignee, key_created, key_deps, key_external_ref,
    key_id, key_links, key_open, key_parent, key_priority, key_status, key_tags, key_type, opt_views, plain_item,
    set_field, word_true, yaml_array, yaml_list_text, MetaModel,
};
use crate::render::{bool_text, nl};
use crate::storage::{
    metadata_core, metadata_extra, metadata_lines, parsed_as, split_file, tags_line,
    ticket_text, ParseError, Ticket,
};
use crate::text::{decimal, is_ws, join, lines, opt_view, strip_cr, trim, trim_end, trim_start, views};
use crate::types::{Metadata, Priority};

verus! {

/// A value that a `key: value` line writes and reads back unchanged: no
/// line feed, and no white space at either end.
pub open spec fn line_value(v: Seq<char>) -> bool {
    &&& forall|k: int| 0 <= k < v.len() ==> #[trigger] v[k] != '\n'
    &&& v.len() > 0 ==> !is_ws(v[0]) && !is_ws(v.last())
}

/// A line that `lines` reads back unchanged.
pub open spec fn clean_line(l: Seq<char>) -> bool {
    &&& forall|k: int| 0 <= k < l.len() ==> #[trigger] l[k] != '\n'
    &&& l.len() > 0 ==> l.last() != '\r'
}

/// The lines, each ended by a line feed.
pub open spec fn lines_text(ls: Seq<Seq<char>>) -> Seq<char>
    decreases ls.len(),
{
    if ls.len() == 0 {
        Seq::empty()
    } else {
        lines_text(ls.drop_last()) + ls.last() + nl()
    }
}

pub proof fn lemma_lines_text_front(ls: Seq<Seq<char>>)
    requires
        ls.len() > 0,
    ensures
        lines_text(ls) == ls[0] + nl() + lines_text(ls.drop_first()),
    decreases ls.len(),
{
    if ls.len() > 1 {
        lemma_lines_text_front(ls.drop_last());
        assert(ls.drop_last().drop_first() =~= ls.drop_first().drop_last());
        assert(ls.drop_first().last() == ls.last());
        assert(lines_text(ls) =~= ls[0] + nl() + lines_text(ls.drop_first()));
    } else {
        assert(ls.drop_last() =~= Seq::<Seq<char>>::empty());
        assert(ls.drop_first() =~= Seq::<Seq<char>>::empty());
        assert(lines_text(ls) =~= ls[0] + nl() + lines_text(ls.drop_first()));
    }
}

/// A clean line followed by a line feed is the first line.
pub proof fn lemma_lines_cons(l: Seq<char>, rest: Seq<char>)
    requires
        clean_line(l),
    ensures
        lines(l + nl() + rest) == seq![l] + lines(rest),
{
    let s = l + nl() + rest;
    assert(s[l.len() as int] == '\n');
    assert forall|j: int| 0 <= j < l.len() implies s[j] != '\n' by {
        assert(s[j] == l[j]);
    }
    crate::text::lemma_index_of_is(s, '\n', l.len() as int);
    assert(s.take(l.len() as int) =~= l);
    assert(strip_cr(l) == l);
    assert(s.skip(l.len() as int + 1) =~= rest);
}

/// Lines written one after the other read back as the same lines.
pub proof fn lemma_lines_of_lines_text(ls: Seq<Seq<char>>)
    requires
        forall|k: int| 0 <= k < ls.len() ==> clean_line(#[trigger] ls[k]),
    ensures
        lines(lines_text(ls)) == ls,
    decreases ls.len(),
{
    if ls.len() > 0 {
        lemma_lines_text_front(ls);
        assert(clean_line(ls[0]));
        lemma_lines_cons(ls[0], lines_text(ls.drop_first()));
        assert forall|k: int| 0 <= k < ls.drop_first().len() implies clean_line(#[trigger] ls.drop_first()[k]) by {
            assert(ls.drop_first()[k] == ls[k + 1]);
        }
        lemma_lines_of_lines_text(ls.drop_first());
        assert(seq![ls[0]] + ls.drop_first() =~= ls);
    } else {
        assert(ls =~= Seq::<Seq<char>>::empty());
    }
}

/// Lines and then a last line without a line feed read back as those lines.
pub proof fn lemma_lines_of_lines_text_and(ls: Seq<Seq<char>>, q: Seq<char>)
    requires
        forall|k: int| 0 <= k < ls.len() ==> clean_line(#[trigger] ls[k]),
        q.len() > 0,
        forall|k: int| 0 <= k < q.len() ==> #[trigger] q[k] != '\n',
    ensures
        lines(lines_text(ls) + q) == ls.push(q),
    decreases ls.len(),
{
    if ls.len() > 0 {
        lemma_lines_text_front(ls);
        assert(clean_line(ls[0]));
        assert(lines_text(ls) + q =~= ls[0] + nl() + (lines_text(ls.drop_first()) + q));
        lemma_lines_cons(ls[0], lines_text(ls.drop_first()) + q);
        assert forall|k: int| 0 <= k < ls.drop_first().len() implies clean_line(#[trigger] ls.drop_first()[k]) by {
            assert(ls.drop_first()[k] == ls[k + 1]);
        }
        lemma_lines_of_lines_text_and(ls.drop_first(), q);
        assert(seq![ls[0]] + ls.drop_first().push(q) =~= ls.push(q));
    } else {
        crate::text::lemma_index_of_none(q, '\n');
        assert(lines_text(ls) + q =~= q);
        assert(seq![q] =~= ls.push(q));
    }
}

/// Trailing white space after text that has a character that is no white
/// space goes, and only it.
proof fn lemma_trim_end_concat(a: Seq<char>, x: Seq<char>, k: int)
    requires
        0 <= k < x.len(),
        !is_ws(x[k]),
    ensures
        trim_end(a + x) == a + trim_end(x),
    decreases x.len(),
{
    if is_ws(x.last()) {
        assert((a + x).drop_last() =~= a + x.drop_last());
        assert(x.drop_last()[k] == x[k]);
        lemma_trim_end_concat(a, x.drop_last(), k);
    } else {
        assert((a + x).last() == x.last());
    }
}

/// Trimming after trimming the end is trimming.
pub proof fn lemma_trim_trim_end(x: Seq<char>)
    ensures
        trim(trim_end(x)) == trim(x),
{
    crate::text::lemma_trim_end_len(x);
    let n = trim_end(x).len() as int;
    crate::text::lemma_trim_start_len(x);
    let a = x.len() - trim_start(x).len();
    if n == 0 {
        // everything is white space
        assert(trim_end(x) =~= Seq::<char>::empty());
        assert forall|j: int| 0 <= j < x.len() implies is_ws(x[j]) by {
            lemma_all_ws_after_trim_end(x, j);
        }
        crate::text::lemma_trim_start_skip(x, x.len() as int);
        assert(x.skip(x.len() as int) =~= Seq::<char>::empty());
    } else {
        assert forall|j: int| n <= j < x.len() implies is_ws(x[j]) by {
            lemma_all_ws_after_trim_end(x, j);
        }
        assert forall|j: int| 0 <= j < a implies is_ws(x[j]) by {
            lemma_all_ws_before_trim_start(x, j);
        }
        // x[n - 1] is no white space, so the leading white space ends before n
        assert(!is_ws(trim_end(x).last()));
        assert(trim_end(x).last() == x[n - 1]);
        assert(a <= n - 1) by {
            if a > n - 1 {
                assert(is_ws(x[n - 1]));
            }
        }
        let te = x.take(n);
        crate::text::lemma_trim_start_skip(te, a);
        crate::text::lemma_trim_start_skip(x, a);
        assert(te.skip(a) =~= x.subrange(a, n));
        let mid = x.subrange(a, n);
        if a < x.len() {
            assert(trim_start(x) == x.skip(a));
        }
        assert(!is_ws(mid[0])) by {
            assert(trim_start(x)[0] == x[a]);
        }
        assert(trim_start(mid) == mid);
        crate::text::lemma_trim_end_take(x.skip(a), n - a);
        assert(x.skip(a).take(n - a) =~= mid);
        assert(mid.last() == x[n - 1]);
        assert(trim_end(mid) == mid);
    }
}

proof fn lemma_all_ws_after_trim_end(x: Seq<char>, j: int)
    requires
        trim_end(x).len() <= j < x.len(),
    ensures
        is_ws(x[j]),
    decreases x.len(),
{
    if x.len() > 0 && is_ws(x.last()) {
        if j < x.len() - 1 {
            lemma_all_ws_after_trim_end(x.drop_last(), j);
        }
    }
}

proof fn lemma_all_ws_before_trim_start(x: Seq<char>, j: int)
    requires
        0 <= j < x.len() - trim_start(x).len(),
    ensures
        is_ws(x[j]),
    decreases x.len(),
{
    if x.len() > 0 && is_ws(x[0]) {
        if j > 0 {
            lemma_all_ws_before_trim_start(x.drop_first(), j - 1);
            assert(x.drop_first()[j - 1] == x[j]);
        }
    }
}

/// A `key: value` line sets the field `key` to `value`.
pub proof fn lemma_apply_field(m: MetaModel, key: Seq<char>, v: Seq<char>)
    requires
        key.len() > 0,
        !is_ws(key[0]),
        !is_ws(key.last()),
        forall|k: int| 0 <= k < key.len() ==> #[trigger] key[k] != ':',
        line_value(v),
    ensures
        apply_line(m, key + seq![':', ' '] + v) == set_field(m, key, v),
{
    let line = key + seq![':', ' '] + v;
    crate::text::lemma_trim_fixed(key);
    let l = trim(line);
    if v.len() > 0 {
        assert(line[0] == key[0]);
        assert(line.last() == v.last());
        crate::text::lemma_trim_fixed(line);
        assert(l == line);
        assert(l[key.len() as int] == ':');
        assert forall|j: int| 0 <= j < key.len() implies l[j] != ':' by {
            assert(l[j] == key[j]);
        }
        crate::text::lemma_index_of_is(l, ':', key.len() as int);
        assert(l.take(key.len() as int) =~= key);
        let rest = l.skip(key.len() as int + 1);
        assert(rest =~= seq![' '] + v);
        assert(rest.drop_first() =~= v);
        assert(is_ws(rest[0]));
        assert(trim_start(rest) == trim_start(v));
        crate::text::lemma_trim_fixed(v);
    } else {
        let k2 = key + seq![':'];
        assert(line =~= k2 + seq![' ']);
        assert(line.drop_last() =~= k2);
        assert(trim_start(line) == line);
        assert(trim_end(line) == trim_end(k2));
        assert(k2.last() == ':');
        assert(trim_end(k2) == k2);
        assert(l == k2);
        assert forall|j: int| 0 <= j < key.len() implies l[j] != ':' by {
            assert(l[j] == key[j]);
        }
        crate::text::lemma_index_of_is(l, ':', key.len() as int);
        assert(l.take(key.len() as int) =~= key);
        assert(l.skip(key.len() as int + 1) =~= Seq::<char>::empty());
        assert(trim(Seq::<char>::empty()) =~= Seq::<char>::empty());
        assert(v =~= Seq::<char>::empty());
    }
}

// ---------------------------------------------------------------------------
// The front matter lines
// ---------------------------------------------------------------------------

pub proof fn lemma_lines_text_push(ls: Seq<Seq<char>>, x: Seq<char>)
    ensures
        lines_text(ls.push(x)) == lines_text(ls) + x + nl(),
{
    assert(ls.push(x).drop_last() =~= ls);
}

/// The line `key` `value` where there is a value.
pub open spec fn push_opt(ls: Seq<Seq<char>>, key: Seq<char>, value: Option<Seq<char>>) -> Seq<Seq<char>> {
    match value {
        Some(v) => ls.push(key + v),
        None => ls,
    }
}

/// The front matter values of a ticket, as text.
pub ghost struct MetaView {
    pub id: Seq<char>,
    pub status: Seq<char>,
    pub open: bool,
    pub deps: Seq<Seq<char>>,
    pub links: Seq<Seq<char>>,
    pub created: Seq<char>,
    pub mtype: Seq<char>,
    pub priority: Priority,
    pub assignee: Option<Seq<char>>,
    pub external_ref: Option<Seq<char>>,
    pub parent: Option<Seq<char>>,
    pub tags: Option<Seq<Seq<char>>>,
}

pub open spec fn meta_view(md: Metadata) -> MetaView {
    MetaView {
        id: md.id@,
        status: md.status@,
        open: md.open,
        deps: views(md.deps@),
        links: views(md.links@),
        created: md.created@,
        mtype: md.metadata_type@,
        priority: md.priority,
        assignee: opt_view(md.assignee),
        external_ref: opt_view(md.external_ref),
        parent: opt_view(md.parent),
        tags: opt_views(md.tags),
    }
}

/// The front matter lines of a ticket, without their line feeds.
pub open spec fn meta_line_list(md: MetaView) -> Seq<Seq<char>> {
    let core = Seq::<Seq<char>>::empty()
        .push("id: "@ + md.id)
        .push("status: "@ + md.status)
        .push("open: "@ + bool_text(md.open))
        .push("deps: "@ + yaml_list_text(md.deps))
        .push("links: "@ + yaml_list_text(md.links))
        .push("created: "@ + md.created)
        .push("type: "@ + md.mtype)
        .push("priority: "@ + decimal(md.priority.value()));
    let a = push_opt(core, "assignee: "@, md.assignee);
    let b = push_opt(a, "external-ref: "@, md.external_ref);
    let c = push_opt(b, "parent: "@, md.parent);
    match md.tags {
        Some(ts) => if ts.len() > 0 { c.push("tags: "@ + yaml_list_text(ts)) } else { c },
        None => c,
    }
}

proof fn lemma_push_opt_text(ls: Seq<Seq<char>>, key: Seq<char>, value: Option<Seq<char>>)
    ensures
        lines_text(push_opt(ls, key, value)) == lines_text(ls) + crate::render::opt_line(key, value),
{
    match value {
        Some(v) => {
            lemma_lines_text_push(ls, key + v);
            assert(lines_text(ls) + (key + v) + nl() =~= lines_text(ls) + (key + v + nl()));
        },
        None => {
            assert(lines_text(ls) + Seq::<char>::empty() =~= lines_text(ls));
        },
    }
}

/// The front matter text is the front matter lines, each ended by a line feed.
#[verifier::rlimit(50)]
#[verifier::spinoff_prover]
pub proof fn lemma_metadata_lines(md: Metadata)
    ensures
        metadata_lines(md) == lines_text(meta_line_list(meta_view(md))),
{
    let e = Seq::<Seq<char>>::empty();
    let l1 = e.push("id: "@ + md.id@);
    let l2 = l1.push("status: "@ + md.status@);
    let l3 = l2.push("open: "@ + bool_text(md.open));
    let l4 = l3.push("deps: "@ + yaml_list_text(views(md.deps@)));
    let l5 = l4.push("links: "@ + yaml_list_text(views(md.links@)));
    let l6 = l5.push("created: "@ + md.created@);
    let l7 = l6.push("type: "@ + md.metadata_type@);
    let l8 = l7.push("priority: "@ + decimal(md.priority.value()));
    lemma_lines_text_push(e, "id: "@ + md.id@);
    lemma_lines_text_push(l1, "status: "@ + md.status@);
    lemma_lines_text_push(l2, "open: "@ + bool_text(md.open));
    lemma_lines_text_push(l3, "deps: "@ + yaml_list_text(views(md.deps@)));
    lemma_lines_text_push(l4, "links: "@ + yaml_list_text(views(md.links@)));
    lemma_lines_text_push(l5, "created: "@ + md.created@);
    lemma_lines_text_push(l6, "type: "@ + md.metadata_type@);
    lemma_lines_text_push(l7, "priority: "@ + decimal(md.priority.value()));
    assert(lines_text(e) =~= Seq::<char>::empty());
    assert(lines_text(l8) =~= metadata_core(md));
    let a = push_opt(l8, "assignee: "@, opt_view(md.assignee));
    let b = push_opt(a, "external-ref: "@, opt_view(md.external_ref));
    let c = push_opt(b, "parent: "@, opt_view(md.parent));
    lemma_push_opt_text(l8, "assignee: "@, opt_view(md.assignee));
    lemma_push_opt_text(a, "external-ref: "@, opt_view(md.external_ref));
    lemma_push_opt_text(b, "parent: "@, opt_view(md.parent));
    match opt_views(md.tags) {
        Some(ts) => if ts.len() > 0 {
            lemma_lines_text_push(c, "tags: "@ + yaml_list_text(ts));
            assert(lines_text(meta_line_list(meta_view(md))) =~= lines_text(c) + tags_line(opt_views(md.tags)));
        } else {
            assert(lines_text(meta_line_list(meta_view(md))) =~= lines_text(c) + tags_line(opt_views(md.tags)));
        },
        None => {
            assert(lines_text(meta_line_list(meta_view(md))) =~= lines_text(c) + tags_line(opt_views(md.tags)));
        },
    }
    assert(lines_text(meta_line_list(meta_view(md))) =~= metadata_core(md) + metadata_extra(md));
}

/// A list item that a front matter line writes and reads back unchanged.
pub open spec fn list_item(x: Seq<char>) -> bool {
    plain_item(x) && forall|k: int| 0 <= k < x.len() ==> #[trigger] x[k] != '\n'
}

pub open spec fn list_items(xs: Seq<Seq<char>>) -> bool {
    forall|k: int| 0 <= k < xs.len() ==> list_item(#[trigger] xs[k])
}

pub open spec fn opt_line_value(o: Option<Seq<char>>) -> bool {
    match o {
        Some(v) => line_value(v),
        None => true,
    }
}

/// The front matter values of a ticket are ones that the front matter lines
/// write and read back unchanged.
pub open spec fn writable_metadata(md: MetaView) -> bool {
    &&& line_value(md.id)
    &&& line_value(md.status)
    &&& line_value(md.created)
    &&& line_value(md.mtype)
    &&& list_items(md.deps)
    &&& list_items(md.links)
    &&& opt_line_value(md.assignee)
    &&& opt_line_value(md.external_ref)
    &&& opt_line_value(md.parent)
    &&& match md.tags { Some(ts) => list_items(ts), None => true }
}

/// The tags that a written front matter reads back: a nonempty list, else none.
pub open spec fn written_tags(tags: Option<Seq<Seq<char>>>) -> Option<Seq<Seq<char>>> {
    match tags {
        Some(ts) => if ts.len() > 0 { Some(ts) } else { None },
        None => None,
    }
}

/// What the written front matter of a ticket reads back as.
pub open spec fn written_model(md: MetaView) -> MetaModel {
    MetaModel {
        id: md.id,
        status: md.status,
        open: Some(md.open),
        deps: md.deps,
        links: md.links,
        created: md.created,
        mtype: md.mtype,
        priority: md.priority,
        assignee: md.assignee,
        external_ref: md.external_ref,
        parent: md.parent,
        tags: written_tags(md.tags),
    }
}

proof fn lemma_apply_lines_push(m: MetaModel, ls: Seq<Seq<char>>, l: Seq<char>)
    ensures
        apply_lines(m, ls.push(l)) == apply_line(apply_lines(m, ls), l),
{
    assert(ls.push(l).drop_last() =~= ls);
}

/// A priority written in decimal reads back as itself.
proof fn lemma_priority_text(p: Priority)
    ensures
        crate::frontmatter::priority_field(decimal(p.value())) == p,
        line_value(decimal(p.value())),
{
    let d = decimal(p.value());
    assert(d =~= seq![crate::text::digit_char(p.value())]);
    assert(crate::frontmatter::unsigned_digits(d) == d);
    assert(d.drop_last() =~= Seq::<char>::empty());
    assert(('0' as u32) == 48);
    assert(('1' as u32) == 49);
    assert(('2' as u32) == 50);
    assert(('3' as u32) == 51);
    assert(('4' as u32) == 52);
    assert(crate::frontmatter::digits_value(d.drop_last()) == 0);
    assert(crate::frontmatter::digits_value(d) == crate::frontmatter::digit_value(d.last()));
    assert(crate::frontmatter::all_digits(d));
}

/// A list written with `[a, b]` is a line value.
proof fn lemma_list_line_value(items: Seq<Seq<char>>)
    requires
        list_items(items),
    ensures
        line_value(yaml_list_text(items)),
        yaml_array(yaml_list_text(items)) == items,
{
    assert forall|k: int| 0 <= k < items.len() implies plain_item(#[trigger] items[k]) by {
        assert(list_item(items[k]));
    }
    crate::frontmatter::lemma_yaml_list_roundtrip(items);
    if items.len() > 0 {
        lemma_join_no_newline(items);
        let t = yaml_list_text(items);
        let j = join(items, seq![',', ' ']);
        assert(no_newline(j));
        assert forall|k: int| 0 <= k < t.len() implies #[trigger] t[k] != '\n' by {
            if 0 < k < t.len() - 1 {
                assert(t[k] == j[k - 1]);
            }
        }
    } else {
        assert(yaml_list_text(items) =~= seq!['[', ']']);
    }
}

pub open spec fn no_newline(s: Seq<char>) -> bool {
    forall|k: int| 0 <= k < s.len() ==> #[trigger] s[k] != '\n'
}

proof fn lemma_join_no_newline(items: Seq<Seq<char>>)
    requires
        list_items(items),
    ensures
        no_newline(join(items, seq![',', ' '])),
    decreases items.len(),
{
    if items.len() == 1 {
        assert(list_item(items[0]));
    } else if items.len() > 1 {
        let dl = items.drop_last();
        assert forall|k: int| 0 <= k < dl.len() implies list_item(#[trigger] dl[k]) by {
            assert(dl[k] == items[k]);
        }
        lemma_join_no_newline(dl);
        assert(list_item(items[items.len() - 1]));
        let a = join(dl, seq![',', ' ']);
        assert(no_newline(a));
        let j = join(items, seq![',', ' ']);
        assert(j == a + seq![',', ' '] + items.last());
        assert forall|k: int| 0 <= k < j.len() implies #[trigger] j[k] != '\n' by {
            if k < a.len() {
                assert(j[k] == a[k]);
            } else if k >= a.len() + 2 {
                assert(j[k] == items.last()[k - a.len() - 2]);
            }
        }
    }
}

/// Reading the line `key: value` of a front matter.
proof fn lemma_read_field(m: MetaModel, lit: Seq<char>, key: Seq<char>, v: Seq<char>)
    requires
        lit == key + seq![':', ' '],
        key.len() > 0,
        !is_ws(key[0]),
        !is_ws(key.last()),
        forall|k: int| 0 <= k < key.len() ==> #[trigger] key[k] != ':',
        line_value(v),
    ensures
        apply_line(m, lit + v) == set_field(m, key, v),
{
    lemma_apply_field(m, key, v);
}

/// The written front matter lines read back as the ticket's front matter.
#[verifier::rlimit(60)]
#[verifier::spinoff_prover]
pub proof fn lemma_read_metadata_lines(md: MetaView, default_id: Seq<char>)
    requires
        writable_metadata(md),
    ensures
        apply_lines(initial_meta(default_id), meta_line_list(md)) == written_model(md),
{
    reveal_strlit("id: ");
    reveal_strlit("status: ");
    reveal_strlit("open: ");
    reveal_strlit("deps: ");
    reveal_strlit("links: ");
    reveal_strlit("created: ");
    reveal_strlit("type: ");
    reveal_strlit("priority: ");
    reveal_strlit("assignee: ");
    reveal_strlit("external-ref: ");
    reveal_strlit("parent: ");
    reveal_strlit("tags: ");
    reveal_strlit("true");
    reveal_strlit("false");
    let sep = seq![':', ' '];
    assert("id: "@ =~= key_id() + sep);
    assert("status: "@ =~= key_status() + sep);
    assert("open: "@ =~= key_open() + sep);
    assert("deps: "@ =~= key_deps() + sep);
    assert("links: "@ =~= key_links() + sep);
    assert("created: "@ =~= key_created() + sep);
    assert("type: "@ =~= key_type() + sep);
    assert("priority: "@ =~= key_priority() + sep);
    assert("assignee: "@ =~= key_assignee() + sep);
    assert("external-ref: "@ =~= key_external_ref() + sep);
    assert("parent: "@ =~= key_parent() + sep);
    assert("tags: "@ =~= key_tags() + sep);
    assert("true"@ =~= word_true());
    assert("false"@ =~= seq!['f', 'a', 'l', 's', 'e']);
    assert("false"@.len() != word_true().len());
    assert(bool_text(md.open) == word_true() <==> md.open);
    assert(line_value(bool_text(md.open)));
    lemma_list_line_value(md.deps);
    lemma_list_line_value(md.links);
    lemma_priority_text(md.priority);

    let m0 = initial_meta(default_id);
    let e = Seq::<Seq<char>>::empty();
    let l1 = e.push("id: "@ + md.id);
    let l2 = l1.push("status: "@ + md.status);
    let l3 = l2.push("open: "@ + bool_text(md.open));
    let l4 = l3.push("deps: "@ + yaml_list_text(md.deps));
    let l5 = l4.push("links: "@ + yaml_list_text(md.links));
    let l6 = l5.push("created: "@ + md.created);
    let l7 = l6.push("type: "@ + md.mtype);
    let l8 = l7.push("priority: "@ + decimal(md.priority.value()));
    assert(apply_lines(m0, e) == m0);
    lemma_apply_lines_push(m0, e, "id: "@ + md.id);
    lemma_read_field(m0, "id: "@, key_id(), md.id);
    let m1 = apply_lines(m0, l1);
    lemma_apply_lines_push(m0, l1, "status: "@ + md.status);
    lemma_read_field(m1, "status: "@, key_status(), md.status);
    let m2 = apply_lines(m0, l2);
    lemma_apply_lines_push(m0, l2, "open: "@ + bool_text(md.open));
    lemma_read_field(m2, "open: "@, key_open(), bool_text(md.open));
    let m3 = apply_lines(m0, l3);
    lemma_apply_lines_push(m0, l3, "deps: "@ + yaml_list_text(md.deps));
    lemma_read_field(m3, "deps: "@, key_deps(), yaml_list_text(md.deps));
    let m4 = apply_lines(m0, l4);
    lemma_apply_lines_push(m0, l4, "links: "@ + yaml_list_text(md.links));
    lemma_read_field(m4, "links: "@, key_links(), yaml_list_text(md.links));
    let m5 = apply_lines(m0, l5);
    lemma_apply_lines_push(m0, l5, "created: "@ + md.created);
    lemma_read_field(m5, "created: "@, key_created(), md.created);
    let m6 = apply_lines(m0, l6);
    lemma_apply_lines_push(m0, l6, "type: "@ + md.mtype);
    lemma_read_field(m6, "type: "@, key_type(), md.mtype);
    let m7 = apply_lines(m0, l7);
    lemma_apply_lines_push(m0, l7, "priority: "@ + decimal(md.priority.value()));
    lemma_read_field(m7, "priority: "@, key_priority(), decimal(md.priority.value()));
    let m8 = apply_lines(m0, l8);
    assert(m8.id == md.id && m8.status == md.status && m8.open == Some(md.open));
    assert(m8.deps == md.deps && m8.links == md.links && m8.created == md.created);
    assert(m8.mtype == md.mtype && m8.priority == md.priority);
    assert(m8.assignee is None && m8.external_ref is None && m8.parent is None && m8.tags is None);

    let a = push_opt(l8, "assignee: "@, md.assignee);
    lemma_read_opt(m0, l8, "assignee: "@, key_assignee(), md.assignee);
    let ma = apply_lines(m0, a);
    let b = push_opt(a, "external-ref: "@, md.external_ref);
    lemma_read_opt(m0, a, "external-ref: "@, key_external_ref(), md.external_ref);
    let mb = apply_lines(m0, b);
    let c = push_opt(b, "parent: "@, md.parent);
    lemma_read_opt(m0, b, "parent: "@, key_parent(), md.parent);
    let mc = apply_lines(m0, c);
    assert(mc.assignee == md.assignee);
    assert(mc.external_ref == md.external_ref);
    assert(mc.parent == md.parent);
    assert(mc.id == md.id && mc.status == md.status && mc.open == Some(md.open));
    assert(mc.deps == md.deps && mc.links == md.links && mc.created == md.created);
    assert(mc.mtype == md.mtype && mc.priority == md.priority && mc.tags is None);
    match md.tags {
        Some(ts) => if ts.len() > 0 {
            lemma_list_line_value(ts);
            lemma_apply_lines_push(m0, c, "tags: "@ + yaml_list_text(ts));
            lemma_read_field(mc, "tags: "@, key_tags(), yaml_list_text(ts));
        },
        None => {},
    }
}

/// Reading an optional `key: value` line.
proof fn lemma_read_opt(m0: MetaModel, ls: Seq<Seq<char>>, lit: Seq<char>, key: Seq<char>, o: Option<Seq<char>>)
    requires
        lit == key + seq![':', ' '],
        key.len() > 0,
        !is_ws(key[0]),
        !is_ws(key.last()),
        forall|k: int| 0 <= k < key.len() ==> #[trigger] key[k] != ':',
        opt_line_value(o),
    ensures
        apply_lines(m0, push_opt(ls, lit, o)) == match o {
            Some(v) => set_field(apply_lines(m0, ls), key, v),
            None => apply_lines(m0, ls),
        },
{
    if let Some(v) = o {
        lemma_apply_lines_push(m0, ls, lit + v);
        lemma_read_field(apply_lines(m0, ls), lit, key, v);
    }
}

/// A front matter line: clean, and starting with a character that is no
/// white space.
pub open spec fn field_line(l: Seq<char>) -> bool {
    clean_line(l) && l.len() > 0 && !is_ws(l[0])
}

pub open spec fn field_lines(ls: Seq<Seq<char>>) -> bool {
    forall|k: int| 0 <= k < ls.len() ==> field_line(#[trigger] ls[k])
}

proof fn lemma_field_line(lit: Seq<char>, v: Seq<char>)
    requires
        lit.len() > 0,
        !is_ws(lit[0]),
        lit.last() == ' ',
        no_newline(lit),
        line_value(v),
    ensures
        field_line(lit + v),
{
    let l = lit + v;
    assert forall|k: int| 0 <= k < l.len() implies #[trigger] l[k] != '\n' by {
        if k < lit.len() {
            assert(l[k] == lit[k]);
        } else {
            assert(l[k] == v[k - lit.len()]);
        }
    }
    if v.len() > 0 {
        assert(l.last() == v.last());
    } else {
        assert(l.last() == lit.last());
    }
    assert(l[0] == lit[0]);
}

proof fn lemma_push_field(ls: Seq<Seq<char>>, x: Seq<char>)
    requires
        field_lines(ls),
        field_line(x),
    ensures
        field_lines(ls.push(x)),
{
    assert forall|k: int| 0 <= k < ls.push(x).len() implies field_line(#[trigger] ls.push(x)[k]) by {
        if k < ls.len() {
            assert(ls.push(x)[k] == ls[k]);
        }
    }
}

proof fn lemma_push_opt_field(ls: Seq<Seq<char>>, lit: Seq<char>, o: Option<Seq<char>>)
    requires
        field_lines(ls),
        lit.len() > 0,
        !is_ws(lit[0]),
        lit.last() == ' ',
        no_newline(lit),
        opt_line_value(o),
    ensures
        field_lines(push_opt(ls, lit, o)),
{
    if let Some(v) = o {
        lemma_field_line(lit, v);
        lemma_push_field(ls, lit + v);
    }
}

/// The written front matter lines are front matter lines.
#[verifier::rlimit(40)]
pub proof fn lemma_meta_lines_clean(md: MetaView)
    requires
        writable_metadata(md),
    ensures
        field_lines(meta_line_list(md)),
        meta_line_list(md).len() >= 8,
{
    reveal_strlit("id: ");
    reveal_strlit("status: ");
    reveal_strlit("open: ");
    reveal_strlit("deps: ");
    reveal_strlit("links: ");
    reveal_strlit("created: ");
    reveal_strlit("type: ");
    reveal_strlit("priority: ");
    reveal_strlit("assignee: ");
    reveal_strlit("external-ref: ");
    reveal_strlit("parent: ");
    reveal_strlit("tags: ");
    reveal_strlit("true");
    reveal_strlit("false");
    lemma_list_line_value(md.deps);
    lemma_list_line_value(md.links);
    lemma_priority_text(md.priority);
    assert(line_value(bool_text(md.open)));
    let e = Seq::<Seq<char>>::empty();
    let l1 = e.push("id: "@ + md.id);
    let l2 = l1.push("status: "@ + md.status);
    let l3 = l2.push("open: "@ + bool_text(md.open));
    let l4 = l3.push("deps: "@ + yaml_list_text(md.deps));
    let l5 = l4.push("links: "@ + yaml_list_text(md.links));
    let l6 = l5.push("created: "@ + md.created);
    let l7 = l6.push("type: "@ + md.mtype);
    let l8 = l7.push("priority: "@ + decimal(md.priority.value()));
    lemma_field_line("id: "@, md.id);
    lemma_push_field(e, "id: "@ + md.id);
    lemma_field_line("status: "@, md.status);
    lemma_push_field(l1, "status: "@ + md.status);
    lemma_field_line("open: "@, bool_text(md.open));
    lemma_push_field(l2, "open: "@ + bool_text(md.open));
    lemma_field_line("deps: "@, yaml_list_text(md.deps));
    lemma_push_field(l3, "deps: "@ + yaml_list_text(md.deps));
    lemma_field_line("links: "@, yaml_list_text(md.links));
    lemma_push_field(l4, "links: "@ + yaml_list_text(md.links));
    lemma_field_line("created: "@, md.created);
    lemma_push_field(l5, "created: "@ + md.created);
    lemma_field_line("type: "@, md.mtype);
    lemma_push_field(l6, "type: "@ + md.mtype);
    lemma_field_line("priority: "@, decimal(md.priority.value()));
    lemma_push_field(l7, "priority: "@ + decimal(md.priority.value()));
    let a = push_opt(l8, "assignee: "@, md.assignee);
    lemma_push_opt_field(l8, "assignee: "@, md.assignee);
    let b = push_opt(a, "external-ref: "@, md.external_ref);
    lemma_push_opt_field(a, "external-ref: "@, md.external_ref);
    let c = push_opt(b, "parent: "@, md.parent);
    lemma_push_opt_field(b, "parent: "@, md.parent);
    match md.tags {
        Some(ts) => if ts.len() > 0 {
            lemma_list_line_value(ts);
            lemma_field_line("tags: "@, yaml_list_text(ts));
            lemma_push_field(c, "tags: "@ + yaml_list_text(ts));
        },
        None => {},
    }
}

/// The front matter text, trimmed as a file's front matter is, reads as its lines.
pub proof fn lemma_model_of_trimmed(ls: Seq<Seq<char>>, d: Seq<char>)
    requires
        ls.len() > 0,
        field_lines(ls),
    ensures
        frontmatter_model(trim_end(lines_text(ls)), d) == apply_lines(initial_meta(d), ls),
{
    let dl = ls.drop_last();
    let last = ls.last();
    assert(field_line(ls[ls.len() - 1]));
    assert forall|k: int| 0 <= k < dl.len() implies clean_line(#[trigger] dl[k]) by {
        assert(field_line(ls[k]));
        assert(dl[k] == ls[k]);
    }
    let x = lines_text(dl) + last;
    assert(lines_text(ls) == x + nl());
    assert((x + nl()).drop_last() =~= x);
    assert(is_ws((x + nl()).last()));
    assert(trim_end(x + nl()) == trim_end(x));
    lemma_trim_end_concat(lines_text(dl), last, 0);
    let te = trim_end(last);
    crate::text::lemma_trim_end_len(last);
    assert(te.len() > 0) by {
        if te.len() == 0 {
            lemma_all_ws_after_trim_end(last, 0);
        }
    }
    assert forall|k: int| 0 <= k < te.len() implies #[trigger] te[k] != '\n' by {
        assert(te[k] == last[k]);
    }
    lemma_lines_of_lines_text_and(dl, te);
    lemma_apply_lines_push(initial_meta(d), dl, te);
    lemma_apply_lines_push(initial_meta(d), dl, last);
    lemma_trim_trim_end(last);
    assert(dl.push(last) =~= ls);
}

// ---------------------------------------------------------------------------
// The whole file
// ---------------------------------------------------------------------------

pub proof fn lemma_trim_end_idem(x: Seq<char>)
    ensures
        trim_end(trim_end(x)) == trim_end(x),
{
    crate::text::lemma_trim_end_len(x);
}

/// Trailing white space after text that ends in a character that is no
/// white space goes from what follows.
proof fn lemma_trim_end_after(a: Seq<char>, y: Seq<char>)
    requires
        a.len() > 0,
        !is_ws(a.last()),
    ensures
        trim_end(a + y) == a + trim_end(y),
    decreases y.len(),
{
    if y.len() == 0 {
        assert(a + y =~= a);
        assert(a + Seq::<char>::empty() =~= a);
    } else if is_ws(y.last()) {
        assert((a + y).drop_last() =~= a + y.drop_last());
        lemma_trim_end_after(a, y.drop_last());
    } else {
        assert((a + y).last() == y.last());
    }
}

/// A `---` at `j` in text that holds `ml` from position 1 on is in `ml`.
proof fn lemma_occurrence_inside(rest: Seq<char>, ml: Seq<char>, j: int)
    requires
        1 <= j,
        j + 3 <= 1 + ml.len(),
        1 + ml.len() <= rest.len(),
        forall|k: int| 1 <= k < 1 + ml.len() ==> rest[k] == ml[k - 1],
        crate::text::occurs_at(rest, crate::storage::delimiter(), j),
    ensures
        crate::text::contains_str(ml, crate::storage::delimiter()),
{
    let d = crate::storage::delimiter();
    assert(rest.subrange(j, j + 3) == d);
    assert forall|i: int| 0 <= i < 3 implies ml.subrange(j - 1, j + 2)[i] == d[i] by {
        assert(rest.subrange(j, j + 3)[i] == rest[j + i]);
        assert(rest[j + i] == ml[j + i - 1]);
    }
    assert(ml.subrange(j - 1, j + 2) =~= d);
    assert(crate::text::occurs_at(ml, d, j - 1));
}

/// No `---` covers a line feed.
proof fn lemma_no_occurrence_over(rest: Seq<char>, j: int, k: int)
    requires
        0 <= j <= k < j + 3,
        k < rest.len(),
        rest[k] == '\n',
    ensures
        !crate::text::occurs_at(rest, crate::storage::delimiter(), j),
{
    if crate::text::occurs_at(rest, crate::storage::delimiter(), j) {
        assert(rest.subrange(j, j + 3)[k - j] == rest[k]);
    }
}

/// The closing `---` is the first `---` after the opening one.
proof fn lemma_find_closing_at(rest: Seq<char>, ml: Seq<char>)
    requires
        ml.len() > 0,
        ml.last() == '\n',
        !crate::text::contains_str(ml, crate::storage::delimiter()),
        rest.len() >= 4 + ml.len(),
        rest[0] == '\n',
        forall|k: int| 1 <= k < 1 + ml.len() ==> rest[k] == ml[k - 1],
        crate::text::occurs_at(rest, crate::storage::delimiter(), 1 + ml.len() as int),
    ensures
        crate::text::find_str(rest, crate::storage::delimiter()) == Some(1 + ml.len() as int),
{
    let d = crate::storage::delimiter();
    let e: int = 1 + ml.len() as int;
    assert(rest[e - 1] == '\n');
    assert forall|j: int| 0 <= j < e implies !crate::text::occurs_at(rest, d, j) by {
        if j == 0 {
            lemma_no_occurrence_over(rest, 0, 0);
        } else if j + 3 <= e {
            if crate::text::occurs_at(rest, d, j) {
                lemma_occurrence_inside(rest, ml, j);
            }
        } else {
            lemma_no_occurrence_over(rest, j, e - 1);
        }
    }
    crate::text::lemma_find_str_is(rest, d, e);
}

/// The closing `---` is the first `---` after the opening one.
proof fn lemma_find_closing(ml: Seq<char>, x: Seq<char>)
    requires
        ml.len() > 0,
        ml.last() == '\n',
        !crate::text::contains_str(ml, crate::storage::delimiter()),
    ensures
        crate::text::find_str(nl() + ml + crate::storage::delimiter() + x, crate::storage::delimiter())
            == Some(1 + ml.len() as int),
{
    let d = crate::storage::delimiter();
    let rest = nl() + ml + d + x;
    let e: int = 1 + ml.len() as int;
    assert forall|k: int| 1 <= k < e implies rest[k] == ml[k - 1] by {}
    assert(rest.subrange(e, e + 3) =~= d);
    lemma_find_closing_at(rest, ml);
}

/// Trimming text whose first character is no white space trims its end only,
/// and keeps that first character.
pub proof fn lemma_trim_leading_solid(x: Seq<char>)
    requires
        x.len() > 0,
        !is_ws(x[0]),
    ensures
        trim(x) == trim_end(x),
        trim_end(x).len() > 0,
        trim_end(x)[0] == x[0],
{
    lemma_trim_end_after(seq![x[0]], x.drop_first());
    assert(seq![x[0]] + x.drop_first() =~= x);
}

/// How `split_file` reads a file whose trimmed text opens with `---` and
/// whose next `---` is at `e`.
proof fn lemma_split_at(content: Seq<char>, e: int, a: Seq<char>, b: Seq<char>)
    requires
        crate::text::starts_with(trim(content), crate::storage::delimiter()),
        crate::text::find_str(trim(content).skip(3), crate::storage::delimiter()) == Some(e),
        trim(trim(content).skip(3).take(e)) == a,
        trim(trim(content).skip(3).skip(e + 3)) == b,
        a.len() > 0,
    ensures
        split_file(content) == Ok::<(Seq<char>, Seq<char>), ParseError>((a, b)),
{
}

/// The trimmed file text of a written ticket.
proof fn lemma_trim_written(ml: Seq<char>, body: Seq<char>)
    requires
        body.len() > 0,
        !is_ws(body[0]),
    ensures
        trim("---\n"@ + ml + "---\n"@ + body)
            == crate::storage::delimiter() + nl() + ml + crate::storage::delimiter() + nl() + trim_end(body),
{
    reveal_strlit("---\n");
    let d = crate::storage::delimiter();
    let content = "---\n"@ + ml + "---\n"@ + body;
    let pre = d + nl() + ml + d + nl();
    assert("---\n"@ =~= d + nl());
    assert(content =~= pre + body);
    lemma_trim_end_concat(pre, body, 0);
    assert(content[0] == '-');
    lemma_trim_leading_solid(content);
}

/// The front matter part: the text between the delimiters, trimmed.
proof fn lemma_head_trimmed(ml: Seq<char>)
    requires
        ml.len() > 0,
        !is_ws(ml[0]),
    ensures
        trim(nl() + ml) == trim_end(ml),
        trim_end(ml).len() > 0,
{
    let head = nl() + ml;
    assert(head.drop_first() =~= ml);
    assert(trim_start(head) == trim_start(ml));
    lemma_trim_leading_solid(ml);
}

/// The body part: the text after the closing delimiter, trimmed.
proof fn lemma_tail_trimmed(body: Seq<char>)
    requires
        body.len() > 0,
        !is_ws(body[0]),
    ensures
        trim(nl() + trim_end(body)) == trim_end(body),
{
    let x = nl() + trim_end(body);
    lemma_trim_leading_solid(body);
    assert(x.drop_first() =~= trim_end(body));
    assert(trim_start(x) == trim_start(trim_end(body)));
    lemma_trim_leading_solid(trim_end(body));
    lemma_trim_end_idem(body);
}

/// The parts of the trimmed file text after its opening delimiter.
proof fn lemma_parts_after_open(ml: Seq<char>, y: Seq<char>)
    ensures
        ({
            let d = crate::storage::delimiter();
            let c = d + nl() + ml + d + nl() + y;
            let e: int = 1 + ml.len() as int;
            &&& c.take(3) == d
            &&& c.skip(3) == nl() + ml + d + (nl() + y)
            &&& c.skip(3).take(e) == nl() + ml
            &&& c.skip(3).skip(e + 3) == nl() + y
        }),
{
    let d = crate::storage::delimiter();
    let c = d + nl() + ml + d + nl() + y;
    let e: int = 1 + ml.len() as int;
    assert(c.take(3) =~= d);
    let r = nl() + ml + d + (nl() + y);
    assert(c.skip(3) =~= r);
    assert(r.take(e) =~= nl() + ml);
    assert(r.skip(e + 3) =~= nl() + y);
}

/// The front matter text ends in a line feed and starts with a character
/// that is no white space.
proof fn lemma_lines_text_ends(ls: Seq<Seq<char>>)
    requires
        ls.len() > 0,
        field_lines(ls),
    ensures
        lines_text(ls).len() > 0,
        lines_text(ls).last() == '\n',
        !is_ws(lines_text(ls)[0]),
{
    assert(field_line(ls[0]));
    lemma_lines_text_front(ls);
}

/// Splitting the file text of a ticket whose front matter lines hold no
/// `---`: the front matter lines without their last line feed, and the body.
proof fn lemma_split_written(ls: Seq<Seq<char>>, body: Seq<char>)
    requires
        ls.len() > 0,
        field_lines(ls),
        !crate::text::contains_str(lines_text(ls), crate::storage::delimiter()),
        body.len() > 0,
        !is_ws(body[0]),
    ensures
        split_file("---\n"@ + lines_text(ls) + "---\n"@ + body)
            == Ok::<(Seq<char>, Seq<char>), ParseError>((trim_end(lines_text(ls)), trim_end(body))),
{
    let ml = lines_text(ls);
    let content = "---\n"@ + ml + "---\n"@ + body;
    lemma_trim_written(ml, body);
    lemma_parts_after_open(ml, trim_end(body));
    lemma_lines_text_ends(ls);
    lemma_find_closing(ml, nl() + trim_end(body));
    lemma_head_trimmed(ml);
    lemma_tail_trimmed(body);
    lemma_split_at(content, 1 + ml.len() as int, trim_end(ml), trim_end(body));
}

/// A title that a body writes and reads back unchanged: a line value that
/// is not empty and does not start with `# `.
pub open spec fn writable_title(title: Seq<char>) -> bool {
    &&& line_value(title)
    &&& title.len() > 0
    &&& !crate::text::starts_with(title, crate::body::title_marker())
}

/// The title of a written body reads back.
pub proof fn lemma_title_written(title: Seq<char>, r: Seq<char>)
    requires
        writable_title(title),
    ensures
        crate::body::body_title(trim(trim_end("# "@ + title + nl() + r))) == title,
        trim_end("# "@ + title + nl() + r).len() > 0,
        trim_end("# "@ + title + nl() + r)[0] == '#',
{
    reveal_strlit("# ");
    let h = "# "@ + title;
    assert("# "@ =~= crate::body::title_marker());
    assert(h.last() == title.last());
    assert(h[0] == '#');
    let b = h + nl() + r;
    assert(b =~= h + (nl() + r));
    lemma_trim_end_after(h, nl() + r);
    let z = trim_end(nl() + r);
    let tb = h + z;
    assert(trim_end(b) == tb);
    assert(tb[0] == '#');
    assert(trim_start(tb) == tb);
    lemma_trim_end_idem(b);
    assert(trim(tb) == tb);
    assert(clean_line(h)) by {
        assert forall|k: int| 0 <= k < h.len() implies #[trigger] h[k] != '\n' by {
            if k >= 2 {
                assert(h[k] == title[k - 2]);
            }
        }
    }
    crate::text::lemma_trim_end_len(nl() + r);
    if z.len() == 0 {
        assert(tb =~= h);
        crate::text::lemma_index_of_none(h, '\n');
    } else {
        assert(z[0] == '\n');
        assert(z =~= nl() + z.drop_first());
        assert(tb =~= h + nl() + z.drop_first());
        lemma_lines_cons(h, z.drop_first());
    }
    let ls = lines(tb);
    assert(ls.len() > 0 && ls[0] == h);
    crate::text::lemma_trim_fixed(h);
    assert(h.take(2) =~= crate::body::title_marker());
    assert(crate::text::starts_with(h, crate::body::title_marker()));
    assert(h.skip(2) =~= title);
    assert(crate::body::strip_prefix_all(h, crate::body::title_marker())
        == crate::body::strip_prefix_all(title, crate::body::title_marker()));
    assert(crate::body::strip_prefix_all(title, crate::body::title_marker()) == title);
    assert(crate::body::first_heading(ls) == Some(title));
}

/// The file text written from the front matter values `md`, a title and
/// what follows the title line.
pub open spec fn written_text(md: MetaView, title: Seq<char>, rest: Seq<char>) -> Seq<char> {
    "---\n"@ + lines_text(meta_line_list(md)) + "---\n"@ + ("# "@ + title + nl() + rest)
}

/// The ticket `r` holds the front matter values `md` as a written front
/// matter reads them back (the creation time falls back to `now` where it
/// is empty, and an empty tag list is not written), and the title `title`.
pub open spec fn reads_back(r: Ticket, md: MetaView, title: Seq<char>, now: Seq<char>) -> bool {
    &&& r.metadata.id@ == md.id
    &&& r.metadata.status@ == md.status
    &&& r.metadata.open == md.open
    &&& views(r.metadata.deps@) == md.deps
    &&& views(r.metadata.links@) == md.links
    &&& r.metadata.created@ == if md.created.len() == 0 { now } else { md.created }
    &&& r.metadata.metadata_type@ == md.mtype
    &&& r.metadata.priority == md.priority
    &&& opt_view(r.metadata.assignee) == md.assignee
    &&& opt_view(r.metadata.external_ref) == md.external_ref
    &&& opt_view(r.metadata.parent) == md.parent
    &&& opt_views(r.metadata.tags) == written_tags(md.tags)
    &&& r.data.title@ == title
}

/// Written front matter values and a written title read back, whatever
/// follows the title line.
#[verifier::rlimit(50)]
#[verifier::spinoff_prover]
pub proof fn lemma_written_reads(
    md: MetaView,
    title: Seq<char>,
    rest: Seq<char>,
    default_id: Seq<char>,
    now: Seq<char>,
    r: Ticket,
)
    requires
        writable_metadata(md),
        writable_title(title),
        !crate::text::contains_str(lines_text(meta_line_list(md)), crate::storage::delimiter()),
    ensures
        split_file(written_text(md, title, rest)) == Ok::<(Seq<char>, Seq<char>), ParseError>(
            (trim_end(lines_text(meta_line_list(md))), trim_end("# "@ + title + nl() + rest)),
        ),
        parsed_as(r, written_text(md, title, rest), default_id, now) ==> reads_back(r, md, title, now),
{
    let ls = meta_line_list(md);
    lemma_meta_lines_clean(md);
    let body = "# "@ + title + nl() + rest;
    lemma_title_written(title, rest);
    reveal_strlit("# ");
    assert(body[0] == '#');
    lemma_split_written(ls, body);
    lemma_model_of_trimmed(ls, default_id);
    lemma_read_metadata_lines(md, default_id);
    lemma_trim_end_idem(body);
}

/// What a written ticket file reads back: for a ticket whose front matter
/// values and title are ones that lines write and read back unchanged, and
/// whose front matter lines hold no `---`, parsing its text succeeds and
/// gives back its front matter (the creation time falls back to `now` where
/// it is empty, and an empty tag list is not written) and its title.
pub proof fn lemma_text_roundtrip(t: Ticket, default_id: Seq<char>, now: Seq<char>, r: Ticket)
    requires
        writable_metadata(meta_view(t.metadata)),
        writable_title(t.data.title@),
        !crate::text::contains_str(metadata_lines(t.metadata), crate::storage::delimiter()),
    ensures
        split_file(ticket_text(t)) is Ok,
        parsed_as(r, ticket_text(t), default_id, now) ==> {
            &&& r.metadata.id@ == t.metadata.id@
            &&& r.metadata.status@ == t.metadata.status@
            &&& r.metadata.open == t.metadata.open
            &&& views(r.metadata.deps@) == views(t.metadata.deps@)
            &&& views(r.metadata.links@) == views(t.metadata.links@)
            &&& r.metadata.created@ == if t.metadata.created@.len() == 0 { now } else { t.metadata.created@ }
            &&& r.metadata.metadata_type@ == t.metadata.metadata_type@
            &&& r.metadata.priority == t.metadata.priority
            &&& opt_view(r.metadata.assignee) == opt_view(t.metadata.assignee)
            &&& opt_view(r.metadata.external_ref) == opt_view(t.metadata.external_ref)
            &&& opt_view(r.metadata.parent) == opt_view(t.metadata.parent)
            &&& opt_views(r.metadata.tags) == written_tags(opt_views(t.metadata.tags))
            &&& r.data.title@ == t.data.title@
        },
{
    let md = meta_view(t.metadata);
    lemma_metadata_lines(t.metadata);
    let rest = ticket_rest(t.data);
    lemma_ticket_text_written(t);
    lemma_written_reads(md, t.data.title@, rest, default_id, now, r);
}

/// What follows the title line in the text of a ticket.
pub open spec fn ticket_rest(d: crate::types::Data) -> Seq<char> {
    crate::render::description_part(opt_view(d.description))
        + crate::render::section_part(crate::render::design_heading(), opt_view(d.design))
        + crate::render::section_part(crate::render::acceptance_heading(), opt_view(d.acceptance))
        + crate::render::notes_part(d.notes)
}

/// The text of a ticket is the text written from its front matter values,
/// its title and what follows the title line.
pub proof fn lemma_ticket_text_written(t: Ticket)
    ensures
        ticket_text(t) == written_text(meta_view(t.metadata), t.data.title@, ticket_rest(t.data)),
{
    lemma_metadata_lines(t.metadata);
    assert(crate::render::body_head(t.data) + crate::render::notes_part(t.data.notes)
        =~= "# "@ + t.data.title@ + nl() + ticket_rest(t.data));
    assert(ticket_text(t) =~= written_text(meta_view(t.metadata), t.data.title@, ticket_rest(t.data)));
}

} // verus!
