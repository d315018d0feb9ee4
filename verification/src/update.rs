//! Setting a front matter field of a written ticket file in place, and what
//! the file reads back afterwards.

use vstd::prelude::*;
use crate::edit::{delimiter_line, replace_step, replace_steps, replaced_field, ReplaceState};
use crate::frontmatter::yaml_list_text;
use crate::render::{bool_text, nl};
use crate::roundtrip::{
    clean_line, field_line, lemma_lines_cons, lemma_lines_text_front, lemma_lines_text_push,
    lemma_meta_lines_clean, lemma_ticket_text_written, list_items, lemma_trim_leading_solid, lemma_written_reads, line_value,
    lines_text, meta_line_list, meta_view, push_opt, reads_back, ticket_rest, writable_metadata, writable_title,
    written_text, MetaView,
};
use crate::storage::{parsed_as, ticket_text, Ticket};
use crate::storage::delimiter;
use crate::text::{contains_str, decimal, is_ws, join, lines, starts_with, trim};

verus! {

// ---------------------------------------------------------------------------
// The field replacement, run from any state
// ---------------------------------------------------------------------------

/// The field replacement run from the state `st` over the lines `ls`.
pub open spec fn replace_from(st: ReplaceState, ls: Seq<Seq<char>>, field: Seq<char>, value: Seq<char>) -> ReplaceState
    decreases ls.len(),
{
    if ls.len() == 0 {
        st
    } else {
        replace_step(replace_from(st, ls.drop_last(), field, value), ls.last(), field, value)
    }
}

/// Where a field replacement starts: outside the front matter, nothing met,
/// nothing kept.
pub open spec fn start_state() -> ReplaceState {
    ReplaceState { in_frontmatter: false, closed: false, found: false, out: Seq::empty() }
}

proof fn lemma_replace_steps_from(ls: Seq<Seq<char>>, field: Seq<char>, value: Seq<char>)
    ensures
        replace_steps(ls, field, value) == replace_from(start_state(), ls, field, value),
    decreases ls.len(),
{
    if ls.len() > 0 {
        lemma_replace_steps_from(ls.drop_last(), field, value);
    }
}

proof fn lemma_replace_from_concat(
    st: ReplaceState,
    a: Seq<Seq<char>>,
    b: Seq<Seq<char>>,
    field: Seq<char>,
    value: Seq<char>,
)
    ensures
        replace_from(st, a + b, field, value) == replace_from(replace_from(st, a, field, value), b, field, value),
    decreases b.len(),
{
    if b.len() == 0 {
        assert(a + b =~= a);
    } else {
        assert((a + b).drop_last() =~= a + b.drop_last());
        assert((a + b).last() == b.last());
        lemma_replace_from_concat(st, a, b.drop_last(), field, value);
    }
}

proof fn lemma_replace_from_one(st: ReplaceState, l: Seq<char>, field: Seq<char>, value: Seq<char>)
    ensures
        replace_from(st, seq![l], field, value) == replace_step(st, l, field, value),
{
    assert(seq![l].drop_last() =~= Seq::<Seq<char>>::empty());
    assert(replace_from(st, Seq::<Seq<char>>::empty(), field, value) == st);
    assert(seq![l].last() == l);
}

/// A field replacement from a state that has kept some lines keeps them in
/// front of what it keeps from no lines.
proof fn lemma_replace_from_shift(
    in_frontmatter: bool,
    closed: bool,
    found: bool,
    o: Seq<Seq<char>>,
    ls: Seq<Seq<char>>,
    field: Seq<char>,
    value: Seq<char>,
)
    ensures
        ({
            let r1 = replace_from(ReplaceState { in_frontmatter, closed, found, out: o }, ls, field, value);
            let r2 = replace_from(ReplaceState { in_frontmatter, closed, found, out: Seq::empty() }, ls, field, value);
            &&& r1.in_frontmatter == r2.in_frontmatter
            &&& r1.closed == r2.closed
            &&& r1.found == r2.found
            &&& found ==> r1.found
            &&& r1.out == o + r2.out
        }),
    decreases ls.len(),
{
    if ls.len() == 0 {
        assert(o + Seq::<Seq<char>>::empty() =~= o);
    } else {
        lemma_replace_from_shift(in_frontmatter, closed, found, o, ls.drop_last(), field, value);
        let p2 = replace_from(ReplaceState { in_frontmatter, closed, found, out: Seq::empty() }, ls.drop_last(), field, value);
        let l = ls.last();
        assert(forall|y: Seq<char>| (o + p2.out).push(y) =~= o + p2.out.push(y));
    }
}

/// Inside the front matter, lines that are no delimiter and do not start
/// with `field:` are kept as they are.
proof fn lemma_replace_plain(st: ReplaceState, xs: Seq<Seq<char>>, field: Seq<char>, value: Seq<char>)
    requires
        st.in_frontmatter,
        forall|k: int|
            0 <= k < xs.len() ==> trim(#[trigger] xs[k]) != delimiter_line() && !starts_with(
                xs[k],
                field + seq![':'],
            ),
    ensures
        replace_from(st, xs, field, value) == (ReplaceState { in_frontmatter: true, closed: st.closed, found: st.found, out: st.out + xs }),
    decreases xs.len(),
{
    if xs.len() == 0 {
        assert(st.out + xs =~= st.out);
    } else {
        let dl = xs.drop_last();
        assert forall|k: int|
            0 <= k < dl.len() implies trim(#[trigger] dl[k]) != delimiter_line() && !starts_with(
                dl[k],
                field + seq![':'],
            ) by {
            assert(dl[k] == xs[k]);
        }
        lemma_replace_plain(st, dl, field, value);
        assert(xs.last() == xs[xs.len() - 1]);
        assert((st.out + dl).push(xs.last()) =~= st.out + xs);
    }
}

// ---------------------------------------------------------------------------
// Lines and their text
// ---------------------------------------------------------------------------

pub proof fn lemma_lines_text_concat(a: Seq<Seq<char>>, b: Seq<Seq<char>>)
    ensures
        lines_text(a + b) == lines_text(a) + lines_text(b),
    decreases b.len(),
{
    if b.len() == 0 {
        assert(a + b =~= a);
        assert(lines_text(a) + lines_text(b) =~= lines_text(a));
    } else {
        assert((a + b).drop_last() =~= a + b.drop_last());
        assert((a + b).last() == b.last());
        lemma_lines_text_concat(a, b.drop_last());
        assert(lines_text(a + b) =~= lines_text(a) + lines_text(b));
    }
}

/// Clean lines written one after the other, then any text: the lines come
/// first.
proof fn lemma_lines_after(xs: Seq<Seq<char>>, rest: Seq<char>)
    requires
        forall|k: int| 0 <= k < xs.len() ==> clean_line(#[trigger] xs[k]),
    ensures
        lines(lines_text(xs) + rest) == xs + lines(rest),
    decreases xs.len(),
{
    if xs.len() == 0 {
        assert(lines_text(xs) + rest =~= rest);
        assert(xs + lines(rest) =~= lines(rest));
    } else {
        lemma_lines_text_front(xs);
        assert(clean_line(xs[0]));
        let tail = xs.drop_first();
        assert(lines_text(xs) + rest =~= xs[0] + nl() + (lines_text(tail) + rest));
        lemma_lines_cons(xs[0], lines_text(tail) + rest);
        assert forall|k: int| 0 <= k < tail.len() implies clean_line(#[trigger] tail[k]) by {
            assert(tail[k] == xs[k + 1]);
        }
        lemma_lines_after(tail, rest);
        assert(seq![xs[0]] + (tail + lines(rest)) =~= xs + lines(rest));
    }
}

/// Lines joined by line feeds, with a last line feed, are the lines each
/// ended by a line feed.
pub proof fn lemma_join_lines_text(xs: Seq<Seq<char>>)
    requires
        xs.len() > 0,
    ensures
        join(xs, nl()) + nl() == lines_text(xs),
    decreases xs.len(),
{
    if xs.len() == 1 {
        assert(xs.drop_last() =~= Seq::<Seq<char>>::empty());
        assert(lines_text(Seq::<Seq<char>>::empty()) =~= Seq::<char>::empty());
        assert(xs.last() == xs[0]);
        assert(lines_text(xs) =~= xs[0] + nl());
    } else {
        lemma_join_lines_text(xs.drop_last());
        assert(join(xs, nl()) + nl() =~= (join(xs.drop_last(), nl()) + nl()) + xs.last() + nl());
    }
}

// ---------------------------------------------------------------------------
// The written front matter lines
// ---------------------------------------------------------------------------

/// A front matter line from the sixth on: its first character is no white
/// space, no `-`, and none of `s`, `o`, `d` and `l`, which start the lines
/// of the fields that are set in place.
pub open spec fn later_line(l: Seq<char>) -> bool {
    &&& l.len() > 0
    &&& !is_ws(l[0])
    &&& l[0] != '-'
    &&& l[0] != 's'
    &&& l[0] != 'o'
    &&& l[0] != 'd'
    &&& l[0] != 'l'
}

pub open spec fn later_lines(ls: Seq<Seq<char>>) -> bool {
    forall|k: int| 5 <= k < ls.len() ==> later_line(#[trigger] ls[k])
}

proof fn lemma_push_later(ls: Seq<Seq<char>>, x: Seq<char>)
    requires
        later_lines(ls),
        later_line(x),
    ensures
        later_lines(ls.push(x)),
{
    assert forall|k: int| 5 <= k < ls.push(x).len() implies later_line(#[trigger] ls.push(x)[k]) by {
        if k < ls.len() {
            assert(ls.push(x)[k] == ls[k]);
        }
    }
}

proof fn lemma_push_opt_later(ls: Seq<Seq<char>>, key: Seq<char>, o: Option<Seq<char>>)
    requires
        later_lines(ls),
        later_line(key),
    ensures
        later_lines(push_opt(ls, key, o)),
{
    match o {
        Some(v) => {
            assert((key + v)[0] == key[0]);
            lemma_push_later(ls, key + v);
        },
        None => {},
    }
}

/// The written front matter opens with the `id:`, `status:`, `open:`,
/// `deps:` and `links:` lines, and the lines after them are `later_line`s.
#[verifier::rlimit(40)]
#[verifier::spinoff_prover]
proof fn lemma_meta_line_heads(md: MetaView)
    ensures
        meta_line_list(md).len() >= 8,
        meta_line_list(md)[0] == "id: "@ + md.id,
        meta_line_list(md)[1] == "status: "@ + md.status,
        meta_line_list(md)[2] == "open: "@ + bool_text(md.open),
        meta_line_list(md)[3] == "deps: "@ + yaml_list_text(md.deps),
        meta_line_list(md)[4] == "links: "@ + yaml_list_text(md.links),
        later_lines(meta_line_list(md)),
{
    reveal_strlit("created: ");
    reveal_strlit("type: ");
    reveal_strlit("priority: ");
    reveal_strlit("assignee: ");
    reveal_strlit("external-ref: ");
    reveal_strlit("parent: ");
    reveal_strlit("tags: ");
    let l5 = Seq::<Seq<char>>::empty()
        .push("id: "@ + md.id)
        .push("status: "@ + md.status)
        .push("open: "@ + bool_text(md.open))
        .push("deps: "@ + yaml_list_text(md.deps))
        .push("links: "@ + yaml_list_text(md.links));
    assert(later_lines(l5));
    let x6 = "created: "@ + md.created;
    let x7 = "type: "@ + md.mtype;
    let x8 = "priority: "@ + decimal(md.priority.value());
    assert(x6[0] == 'c' && x7[0] == 't' && x8[0] == 'p');
    lemma_push_later(l5, x6);
    lemma_push_later(l5.push(x6), x7);
    lemma_push_later(l5.push(x6).push(x7), x8);
    let core = l5.push(x6).push(x7).push(x8);
    lemma_push_opt_later(core, "assignee: "@, md.assignee);
    let a = push_opt(core, "assignee: "@, md.assignee);
    lemma_push_opt_later(a, "external-ref: "@, md.external_ref);
    let b = push_opt(a, "external-ref: "@, md.external_ref);
    lemma_push_opt_later(b, "parent: "@, md.parent);
    let c = push_opt(b, "parent: "@, md.parent);
    match md.tags {
        Some(ts) => if ts.len() > 0 {
            let xt = "tags: "@ + yaml_list_text(ts);
            assert(xt[0] == 't');
            lemma_push_later(c, xt);
        },
        None => {},
    }
    assert(c.len() >= 8);
    assert(forall|k: int| 0 <= k < 5 ==> c[k] == #[trigger] l5[k]);
}

/// Line `i` of the written front matter, one of the lines of the fields set
/// in place, is the only line that starts with its first character, and no
/// line starts with white space or `-`.
#[verifier::rlimit(40)]
#[verifier::spinoff_prover]
proof fn lemma_unique_head(md: MetaView, i: int)
    requires
        1 <= i < 5,
    ensures
        forall|j: int|
            0 <= j < meta_line_list(md).len() ==> {
                &&& (#[trigger] meta_line_list(md)[j]).len() > 0
                &&& !is_ws(meta_line_list(md)[j][0])
                &&& meta_line_list(md)[j][0] != '-'
                &&& (j != i ==> meta_line_list(md)[j][0] != meta_line_list(md)[i][0])
            },
{
    reveal_strlit("id: ");
    reveal_strlit("status: ");
    reveal_strlit("open: ");
    reveal_strlit("deps: ");
    reveal_strlit("links: ");
    lemma_meta_line_heads(md);
    let ls = meta_line_list(md);
    assert(ls[0][0] == 'i' && ls[1][0] == 's' && ls[2][0] == 'o' && ls[3][0] == 'd' && ls[4][0] == 'l');
    assert forall|j: int| 0 <= j < ls.len() implies {
        &&& (#[trigger] ls[j]).len() > 0
        &&& !is_ws(ls[j][0])
        &&& ls[j][0] != '-'
        &&& (j != i ==> ls[j][0] != ls[i][0])
    } by {
        if j >= 5 {
            assert(later_line(ls[j]));
        }
    }
}

/// The front matter values `md` with the status `v`.
pub open spec fn with_status(md: MetaView, v: Seq<char>) -> MetaView {
    MetaView { status: v, ..md }
}

/// The front matter values `md` with the `open` flag `b`.
pub open spec fn with_open(md: MetaView, b: bool) -> MetaView {
    MetaView { open: b, ..md }
}

/// The front matter values `md` with the dependencies `ds`.
pub open spec fn with_deps(md: MetaView, ds: Seq<Seq<char>>) -> MetaView {
    MetaView { deps: ds, ..md }
}

/// The front matter values `md` with the links `ls`.
pub open spec fn with_links(md: MetaView, ls: Seq<Seq<char>>) -> MetaView {
    MetaView { links: ls, ..md }
}

proof fn lemma_push_opt_update(ls: Seq<Seq<char>>, i: int, x: Seq<char>, key: Seq<char>, o: Option<Seq<char>>)
    requires
        0 <= i < ls.len(),
    ensures
        push_opt(ls.update(i, x), key, o) == push_opt(ls, key, o).update(i, x),
{
    match o {
        Some(v) => {
            assert(ls.update(i, x).push(key + v) =~= ls.push(key + v).update(i, x));
        },
        None => {},
    }
}

/// Front matter values that differ from `md` in one of the first five lines
/// only: their front matter lines differ in that line only.
#[verifier::rlimit(40)]
#[verifier::spinoff_prover]
proof fn lemma_lines_differ(md: MetaView, md2: MetaView, i: int, x: Seq<char>)
    requires
        0 <= i < 8,
        md2.assignee == md.assignee,
        md2.external_ref == md.external_ref,
        md2.parent == md.parent,
        md2.tags == md.tags,
        ({
            let c1 = core_lines(md);
            let c2 = core_lines(md2);
            c2 == c1.update(i, x)
        }),
    ensures
        meta_line_list(md2) == meta_line_list(md).update(i, x),
{
    let c1 = core_lines(md);
    lemma_push_opt_update(c1, i, x, "assignee: "@, md.assignee);
    let a1 = push_opt(c1, "assignee: "@, md.assignee);
    lemma_push_opt_update(a1, i, x, "external-ref: "@, md.external_ref);
    let b1 = push_opt(a1, "external-ref: "@, md.external_ref);
    lemma_push_opt_update(b1, i, x, "parent: "@, md.parent);
    let d1 = push_opt(b1, "parent: "@, md.parent);
    match md.tags {
        Some(ts) => if ts.len() > 0 {
            let xt = "tags: "@ + yaml_list_text(ts);
            assert(d1.update(i, x).push(xt) =~= d1.push(xt).update(i, x));
        },
        None => {},
    }
}

/// The lines that every written front matter has.
pub open spec fn core_lines(md: MetaView) -> Seq<Seq<char>> {
    Seq::<Seq<char>>::empty()
        .push("id: "@ + md.id)
        .push("status: "@ + md.status)
        .push("open: "@ + bool_text(md.open))
        .push("deps: "@ + yaml_list_text(md.deps))
        .push("links: "@ + yaml_list_text(md.links))
        .push("created: "@ + md.created)
        .push("type: "@ + md.mtype)
        .push("priority: "@ + decimal(md.priority.value()))
}

// ---------------------------------------------------------------------------
// Setting a field of a written file
// ---------------------------------------------------------------------------

/// A line whose first character is no white space and no `-` is no
/// delimiter line.
proof fn lemma_not_delimiter(x: Seq<char>)
    requires
        x.len() > 0,
        !is_ws(x[0]),
        x[0] != '-',
    ensures
        trim(x) != delimiter_line(),
{
    lemma_trim_leading_solid(x);
    assert(delimiter_line()[0] == '-');
}

/// A line that is no delimiter and does not start with the first character
/// of `key` is kept by a replacement of `key`.
proof fn lemma_kept(x: Seq<char>, key: Seq<char>)
    requires
        x.len() > 0,
        !is_ws(x[0]),
        x[0] != '-',
        key.len() > 0,
        x[0] != key[0],
    ensures
        trim(x) != delimiter_line(),
        !starts_with(x, key + seq![':']),
{
    lemma_not_delimiter(x);
    if starts_with(x, key + seq![':']) {
        assert(x.take(key.len() as int + 1)[0] == x[0]);
        assert((key + seq![':'])[0] == key[0]);
    }
}

/// Inside the front matter, the replacement of `key` over lines of which
/// only line `i` starts with `key:`: that line becomes `key: v`, and the
/// field is met.
#[verifier::rlimit(40)]
#[verifier::spinoff_prover]
proof fn lemma_field_pass(o: Seq<Seq<char>>, ls: Seq<Seq<char>>, i: int, key: Seq<char>, v: Seq<char>)
    requires
        0 <= i < ls.len(),
        key.len() > 0,
        starts_with(ls[i], key + seq![':']),
        forall|j: int|
            0 <= j < ls.len() ==> {
                &&& (#[trigger] ls[j]).len() > 0
                &&& !is_ws(ls[j][0])
                &&& ls[j][0] != '-'
                &&& (j != i ==> ls[j][0] != key[0])
            },
    ensures
        replace_from(ReplaceState { in_frontmatter: true, closed: false, found: false, out: o }, ls, key, v)
            == (ReplaceState { in_frontmatter: true, closed: false, found: true, out: o + ls.update(i, key + seq![':', ' '] + v) }),
{
    let st0 = ReplaceState { in_frontmatter: true, closed: false, found: false, out: o };
    let a = ls.take(i);
    let b = seq![ls[i]];
    let c = ls.skip(i + 1);
    assert(ls =~= a + b + c);
    lemma_replace_from_concat(st0, a + b, c, key, v);
    lemma_replace_from_concat(st0, a, b, key, v);
    assert forall|k: int|
        0 <= k < a.len() implies trim(#[trigger] a[k]) != delimiter_line() && !starts_with(
            a[k],
            key + seq![':'],
        ) by {
        assert(a[k] == ls[k]);
        assert(ls[k].len() > 0);
        lemma_kept(ls[k], key);
    }
    lemma_replace_plain(st0, a, key, v);
    let st1 = ReplaceState { in_frontmatter: true, closed: false, found: false, out: o + a };
    lemma_replace_from_one(st1, ls[i], key, v);
    assert(ls[i].len() > 0);
    lemma_not_delimiter(ls[i]);
    let x = key + seq![':', ' '] + v;
    let st2 = ReplaceState { in_frontmatter: true, closed: false, found: true, out: (o + a).push(x) };
    assert(replace_from(st1, b, key, v) == st2);
    assert forall|k: int|
        0 <= k < c.len() implies trim(#[trigger] c[k]) != delimiter_line() && !starts_with(
            c[k],
            key + seq![':'],
        ) by {
        assert(c[k] == ls[k + i + 1]);
        assert(ls[k + i + 1].len() > 0);
        lemma_kept(ls[k + i + 1], key);
    }
    lemma_replace_plain(st2, c, key, v);
    assert((o + a).push(x) + c =~= o + ls.update(i, x));
}

/// What follows the title line once a field was set: its lines, each ended
/// by a line feed (the body is kept; only line ends are made uniform).
pub open spec fn kept_rest(rest: Seq<char>) -> Seq<char> {
    lines_text(lines(rest))
}

/// Past the closed front matter every line is kept.
proof fn lemma_replace_after_close(st: ReplaceState, xs: Seq<Seq<char>>, field: Seq<char>, value: Seq<char>)
    requires
        st.closed,
        !st.in_frontmatter,
    ensures
        replace_from(st, xs, field, value) == (ReplaceState { out: st.out + xs, ..st }),
    decreases xs.len(),
{
    if xs.len() == 0 {
        assert(st.out + xs =~= st.out);
    } else {
        lemma_replace_after_close(st, xs.drop_last(), field, value);
        assert((st.out + xs.drop_last()).push(xs.last()) =~= st.out + xs);
    }
}

/// Setting the field on line `i` of a written file: the file written with
/// that line changed.
#[verifier::rlimit(40)]
#[verifier::spinoff_prover]
proof fn lemma_field_set(md: MetaView, title: Seq<char>, rest: Seq<char>, i: int, key: Seq<char>, v: Seq<char>, md2: MetaView)
    requires
        writable_metadata(md),
        writable_title(title),
        1 <= i < 5,
        key.len() > 0,
        starts_with(meta_line_list(md)[i], key + seq![':']),
        meta_line_list(md2) == meta_line_list(md).update(i, key + seq![':', ' '] + v),
    ensures
        replaced_field(written_text(md, title, rest), key, v) == Some(written_text(md2, title, kept_rest(rest))),
{
    reveal_strlit("# ");
    reveal_strlit("---\n");
    let ls = meta_line_list(md);
    let ls2 = meta_line_list(md2);
    let d = delimiter_line();
    let h = "# "@ + title;
    lemma_meta_lines_clean(md);
    lemma_meta_line_heads(md);
    lemma_unique_head(md, i);
    assert(ls[i][0] == key[0]) by {
        assert(ls[i].take(key.len() as int + 1)[0] == ls[i][0]);
        assert((key + seq![':'])[0] == key[0]);
    }
    // The lines of the file text.
    let pre = seq![d] + ls + seq![d, h];
    assert forall|k: int| 0 <= k < pre.len() implies clean_line(#[trigger] pre[k]) by {
        if 1 <= k < 1 + ls.len() {
            assert(pre[k] == ls[k - 1]);
            assert(field_line(ls[k - 1]));
        }
    }
    lemma_lines_text_concat(seq![d] + ls, seq![d, h]);
    lemma_lines_text_concat(seq![d], ls);
    lemma_lines_text_push(Seq::<Seq<char>>::empty(), d);
    assert(seq![d] =~= Seq::<Seq<char>>::empty().push(d));
    lemma_lines_text_push(seq![d], h);
    assert(seq![d, h] =~= seq![d].push(h));
    assert("---\n"@ =~= d + nl());
    assert(written_text(md, title, rest) =~= lines_text(pre) + rest);
    lemma_lines_after(pre, rest);
    let all = pre + lines(rest);
    assert(lines(written_text(md, title, rest)) == all);
    // The replacement over them.
    lemma_replace_steps_from(all, key, v);
    lemma_replace_from_concat(start_state(), pre, lines(rest), key, v);
    lemma_replace_from_concat(start_state(), seq![d] + ls, seq![d, h], key, v);
    lemma_replace_from_concat(start_state(), seq![d], ls, key, v);
    lemma_replace_from_one(start_state(), d, key, v);
    crate::text::lemma_trim_fixed(d);
    let s1 = ReplaceState { in_frontmatter: true, closed: false, found: false, out: seq![d] };
    assert(replace_from(start_state(), seq![d], key, v) == s1);
    lemma_field_pass(seq![d], ls, i, key, v);
    let s2 = ReplaceState { in_frontmatter: true, closed: false, found: true, out: seq![d] + ls2 };
    assert(replace_from(s1, ls, key, v) == s2);
    assert(seq![d, h] =~= seq![d] + seq![h]);
    lemma_replace_from_concat(s2, seq![d], seq![h], key, v);
    lemma_replace_from_one(s2, d, key, v);
    let s3 = ReplaceState { in_frontmatter: false, closed: true, found: true, out: (seq![d] + ls2).push(d) };
    assert(replace_from(s2, seq![d], key, v) == s3);
    lemma_replace_from_one(s3, h, key, v);
    assert(h[0] == '#');
    lemma_not_delimiter(h);
    let out4 = seq![d] + ls2 + seq![d, h];
    assert((seq![d] + ls2).push(d).push(h) =~= out4);
    let s4 = ReplaceState { in_frontmatter: false, closed: true, found: true, out: out4 };
    assert(replace_from(s3, seq![h], key, v) == s4);
    assert(replace_from(start_state(), pre, key, v) == s4);
    // What follows the title line.
    let fin = replace_from(s4, lines(rest), key, v);
    lemma_replace_from_shift(false, true, true, out4, lines(rest), key, v);
    let q = lines(rest);
    lemma_replace_after_close(s4, q, key, v);
    assert(fin.out == out4 + q);
    assert(replace_steps(all, key, v) == fin);
    lemma_join_lines_text(fin.out);
    lemma_lines_text_concat(out4, q);
    lemma_lines_text_concat(seq![d] + ls2, seq![d, h]);
    lemma_lines_text_concat(seq![d], ls2);
    assert(replaced_field(written_text(md, title, rest), key, v) == Some(join(fin.out, nl()) + nl()));
    assert(lines_text(fin.out) =~= written_text(md2, title, kept_rest(rest)));
}

/// Setting the status of a written ticket file gives the file written with
/// the new status, the lines after the title kept (`kept_rest`).
#[verifier::rlimit(40)]
#[verifier::spinoff_prover]
pub proof fn lemma_set_status(md: MetaView, title: Seq<char>, rest: Seq<char>, v: Seq<char>)
    requires
        writable_metadata(md),
        writable_title(title),
    ensures
        replaced_field(written_text(md, title, rest), "status"@, v)
            == Some(written_text(with_status(md, v), title, kept_rest(rest))),
{
    reveal_strlit("status");
    reveal_strlit("status: ");
    lemma_meta_line_heads(md);
    let x = "status"@ + seq![':', ' '] + v;
    assert(x =~= "status: "@ + v);
    assert(core_lines(with_status(md, v)) =~= core_lines(md).update(1, x));
    lemma_lines_differ(md, with_status(md, v), 1, x);
    assert(meta_line_list(md)[1].take(7) =~= "status"@ + seq![':']);
    lemma_field_set(md, title, rest, 1, "status"@, v, with_status(md, v));
}

/// Setting the `open` flag of a written ticket file gives the file written
/// with the new flag, the lines after the title kept (`kept_rest`).
#[verifier::rlimit(40)]
#[verifier::spinoff_prover]
pub proof fn lemma_set_open(md: MetaView, title: Seq<char>, rest: Seq<char>, b: bool)
    requires
        writable_metadata(md),
        writable_title(title),
    ensures
        replaced_field(written_text(md, title, rest), "open"@, bool_text(b))
            == Some(written_text(with_open(md, b), title, kept_rest(rest))),
{
    reveal_strlit("open");
    reveal_strlit("open: ");
    lemma_meta_line_heads(md);
    let x = "open"@ + seq![':', ' '] + bool_text(b);
    assert(x =~= "open: "@ + bool_text(b));
    assert(core_lines(with_open(md, b)) =~= core_lines(md).update(2, x));
    lemma_lines_differ(md, with_open(md, b), 2, x);
    assert(meta_line_list(md)[2].take(5) =~= "open"@ + seq![':']);
    lemma_field_set(md, title, rest, 2, "open"@, bool_text(b), with_open(md, b));
}

/// Setting the dependencies of a written ticket file to the list `ds` gives
/// the file written with those dependencies, the lines after the title
/// kept (`kept_rest`).
#[verifier::rlimit(40)]
#[verifier::spinoff_prover]
pub proof fn lemma_set_deps(md: MetaView, title: Seq<char>, rest: Seq<char>, ds: Seq<Seq<char>>)
    requires
        writable_metadata(md),
        writable_title(title),
    ensures
        replaced_field(written_text(md, title, rest), "deps"@, yaml_list_text(ds))
            == Some(written_text(with_deps(md, ds), title, kept_rest(rest))),
{
    reveal_strlit("deps");
    reveal_strlit("deps: ");
    lemma_meta_line_heads(md);
    let x = "deps"@ + seq![':', ' '] + yaml_list_text(ds);
    assert(x =~= "deps: "@ + yaml_list_text(ds));
    assert(core_lines(with_deps(md, ds)) =~= core_lines(md).update(3, x));
    lemma_lines_differ(md, with_deps(md, ds), 3, x);
    assert(meta_line_list(md)[3].take(5) =~= "deps"@ + seq![':']);
    lemma_field_set(md, title, rest, 3, "deps"@, yaml_list_text(ds), with_deps(md, ds));
}

/// Setting the links of a written ticket file to the list `ls` gives the
/// file written with those links, the lines after the title kept
/// (`kept_rest`).
#[verifier::rlimit(40)]
#[verifier::spinoff_prover]
pub proof fn lemma_set_links(md: MetaView, title: Seq<char>, rest: Seq<char>, ls: Seq<Seq<char>>)
    requires
        writable_metadata(md),
        writable_title(title),
    ensures
        replaced_field(written_text(md, title, rest), "links"@, yaml_list_text(ls))
            == Some(written_text(with_links(md, ls), title, kept_rest(rest))),
{
    reveal_strlit("links");
    reveal_strlit("links: ");
    lemma_meta_line_heads(md);
    let x = "links"@ + seq![':', ' '] + yaml_list_text(ls);
    assert(x =~= "links: "@ + yaml_list_text(ls));
    assert(core_lines(with_links(md, ls)) =~= core_lines(md).update(4, x));
    lemma_lines_differ(md, with_links(md, ls), 4, x);
    assert(meta_line_list(md)[4].take(6) =~= "links"@ + seq![':']);
    lemma_field_set(md, title, rest, 4, "links"@, yaml_list_text(ls), with_links(md, ls));
}

// ---------------------------------------------------------------------------
// Reading a ticket back after a field was set
// ---------------------------------------------------------------------------

/// Setting the status of a written ticket, then reading its file: the field
/// is found, and the file reads back the new status with the rest of the
/// front matter and the title as they were (for a status that a line writes
/// and reads back unchanged, and front matter lines that, with it, hold no
/// `---`).
#[verifier::rlimit(40)]
#[verifier::spinoff_prover]
pub proof fn lemma_status_update(t: Ticket, v: Seq<char>, default_id: Seq<char>, now: Seq<char>, r: Ticket)
    requires
        writable_metadata(meta_view(t.metadata)),
        writable_title(t.data.title@),
        line_value(v),
        !contains_str(lines_text(meta_line_list(with_status(meta_view(t.metadata), v))), delimiter()),
    ensures
        replaced_field(ticket_text(t), "status"@, v) is Some,
        parsed_as(r, replaced_field(ticket_text(t), "status"@, v).unwrap(), default_id, now) ==> reads_back(
            r,
            with_status(meta_view(t.metadata), v),
            t.data.title@,
            now,
        ),
{
    let md = meta_view(t.metadata);
    let title = t.data.title@;
    let rest = ticket_rest(t.data);
    lemma_ticket_text_written(t);
    lemma_set_status(md, title, rest, v);
    lemma_written_reads(with_status(md, v), title, kept_rest(rest), default_id, now, r);
}

/// Starting, closing or reopening a written ticket (setting its `open` flag
/// to `b`, then its status to `s`), then reading its file: both fields are
/// found, and the file reads back the new flag and status with the rest of
/// the front matter and the title as they were.
#[verifier::rlimit(40)]
#[verifier::spinoff_prover]
pub proof fn lemma_lifecycle_update(
    t: Ticket,
    b: bool,
    s: Seq<char>,
    default_id: Seq<char>,
    now: Seq<char>,
    r: Ticket,
)
    requires
        writable_metadata(meta_view(t.metadata)),
        writable_title(t.data.title@),
        line_value(s),
        !contains_str(
            lines_text(meta_line_list(with_status(with_open(meta_view(t.metadata), b), s))),
            delimiter(),
        ),
    ensures
        replaced_field(ticket_text(t), "open"@, bool_text(b)) is Some,
        replaced_field(replaced_field(ticket_text(t), "open"@, bool_text(b)).unwrap(), "status"@, s) is Some,
        parsed_as(
            r,
            replaced_field(replaced_field(ticket_text(t), "open"@, bool_text(b)).unwrap(), "status"@, s).unwrap(),
            default_id,
            now,
        ) ==> reads_back(r, with_status(with_open(meta_view(t.metadata), b), s), t.data.title@, now),
{
    let md = meta_view(t.metadata);
    let title = t.data.title@;
    let rest = ticket_rest(t.data);
    lemma_ticket_text_written(t);
    lemma_set_open(md, title, rest, b);
    let rest1 = kept_rest(rest);
    lemma_set_status(with_open(md, b), title, rest1, s);
    let md2 = with_status(with_open(md, b), s);
    lemma_written_reads(md2, title, kept_rest(rest1), default_id, now, r);
}

/// Setting the dependencies of a written ticket to the list `ds`, then
/// reading its file: the field is found, and the file reads back those
/// dependencies with the rest of the front matter and the title as they were
/// (for items that a list writes and reads back unchanged, and front matter
/// lines that, with them, hold no `---`).
#[verifier::rlimit(40)]
#[verifier::spinoff_prover]
pub proof fn lemma_deps_update(t: Ticket, ds: Seq<Seq<char>>, default_id: Seq<char>, now: Seq<char>, r: Ticket)
    requires
        writable_metadata(meta_view(t.metadata)),
        writable_title(t.data.title@),
        list_items(ds),
        !contains_str(lines_text(meta_line_list(with_deps(meta_view(t.metadata), ds))), delimiter()),
    ensures
        replaced_field(ticket_text(t), "deps"@, yaml_list_text(ds)) is Some,
        parsed_as(r, replaced_field(ticket_text(t), "deps"@, yaml_list_text(ds)).unwrap(), default_id, now)
            ==> reads_back(r, with_deps(meta_view(t.metadata), ds), t.data.title@, now),
{
    let md = meta_view(t.metadata);
    let title = t.data.title@;
    let rest = ticket_rest(t.data);
    lemma_ticket_text_written(t);
    lemma_set_deps(md, title, rest, ds);
    lemma_written_reads(with_deps(md, ds), title, kept_rest(rest), default_id, now, r);
}

/// Setting the links of a written ticket to the list `ls`, then reading its
/// file: the field is found, and the file reads back those links with the
/// rest of the front matter and the title as they were (for items that a
/// list writes and reads back unchanged, and front matter lines that, with
/// them, hold no `---`).
#[verifier::rlimit(40)]
#[verifier::spinoff_prover]
pub proof fn lemma_links_update(t: Ticket, ls: Seq<Seq<char>>, default_id: Seq<char>, now: Seq<char>, r: Ticket)
    requires
        writable_metadata(meta_view(t.metadata)),
        writable_title(t.data.title@),
        list_items(ls),
        !contains_str(lines_text(meta_line_list(with_links(meta_view(t.metadata), ls))), delimiter()),
    ensures
        replaced_field(ticket_text(t), "links"@, yaml_list_text(ls)) is Some,
        parsed_as(r, replaced_field(ticket_text(t), "links"@, yaml_list_text(ls)).unwrap(), default_id, now)
            ==> reads_back(r, with_links(meta_view(t.metadata), ls), t.data.title@, now),
{
    let md = meta_view(t.metadata);
    let title = t.data.title@;
    let rest = ticket_rest(t.data);
    lemma_ticket_text_written(t);
    lemma_set_links(md, title, rest, ls);
    lemma_written_reads(with_links(md, ls), title, kept_rest(rest), default_id, now, r);
}

} // verus!
