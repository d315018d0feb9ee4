//! What reading the body of a written ticket gives back: its description,
//! design and acceptance criteria.

use vstd::prelude::*;
use crate::body::{
    flush_note, flush_section, initial_notes, initial_sections, name_acceptance, name_design, name_notes, note_marker,
    note_step, note_steps, notes_model, section_marker, section_named, section_step, section_steps, sections,
    title_marker, NoteState, SectionState,
};
use crate::frontmatter::{strip_leading, strip_trailing};
use crate::render::{acceptance_heading, description_part, design_heading, nl, note_text, notes_part, notes_text, section_part};
use crate::roundtrip::{clean_line, lemma_lines_text_front, lines_text};
use crate::text::{ends_with, index_of, is_ws, join, lines, starts_with, strip_cr, trim, trim_end, trim_start};

verus! {

// ---------------------------------------------------------------------------
// Lines of text without carriage returns
// ---------------------------------------------------------------------------

pub open spec fn no_cr(s: Seq<char>) -> bool {
    forall|k: int| 0 <= k < s.len() ==> #[trigger] s[k] != '\r'
}

/// The lines of text without carriage returns are clean and hold none.
proof fn lemma_lines_clean(s: Seq<char>)
    requires
        no_cr(s),
    ensures
        forall|k: int| 0 <= k < lines(s).len() ==> clean_line(#[trigger] lines(s)[k]) && no_cr(lines(s)[k]),
    decreases s.len(),
{
    if s.len() > 0 {
        match index_of(s, '\n') {
            Some(i) => {
                crate::text::lemma_index_of_props(s, '\n');
                let a = s.take(i);
                let rest = s.skip(i + 1);
                assert forall|k: int| 0 <= k < rest.len() implies #[trigger] rest[k] != '\r' by {
                    assert(rest[k] == s[k + i + 1]);
                }
                lemma_lines_clean(rest);
                assert(strip_cr(a) == a) by {
                    if a.len() > 0 {
                        assert(a.last() == s[i - 1]);
                    }
                }
                assert forall|k: int| 0 <= k < a.len() implies #[trigger] a[k] != '\n' && a[k] != '\r' by {
                    assert(a[k] == s[k]);
                }
                let ls = lines(s);
                assert(ls == seq![a] + lines(rest));
                assert forall|k: int| 0 <= k < ls.len() implies clean_line(#[trigger] ls[k]) && no_cr(ls[k]) by {
                    if k > 0 {
                        assert(ls[k] == lines(rest)[k - 1]);
                    }
                }
            },
            None => {
                crate::text::lemma_index_of_props(s, '\n');
                assert(lines(s) == seq![s]);
                assert(forall|k: int| 0 <= k < s.len() ==> #[trigger] s[k] != '\n');
            },
        }
    }
}

/// Text without carriage returns that ends in a line feed is its lines,
/// each ended by a line feed.
proof fn lemma_lines_text_lines(s: Seq<char>)
    requires
        no_cr(s),
        s.len() > 0 ==> s.last() == '\n',
    ensures
        lines_text(lines(s)) == s,
    decreases s.len(),
{
    if s.len() == 0 {
        assert(lines(s) =~= Seq::<Seq<char>>::empty());
    } else {
        crate::text::lemma_index_of_props(s, '\n');
        match index_of(s, '\n') {
            Some(i) => {
                let a = s.take(i);
                let rest = s.skip(i + 1);
                assert forall|k: int| 0 <= k < rest.len() implies #[trigger] rest[k] != '\r' by {
                    assert(rest[k] == s[k + i + 1]);
                }
                if rest.len() > 0 {
                    assert(rest.last() == s.last());
                }
                lemma_lines_text_lines(rest);
                assert(strip_cr(a) == a) by {
                    if a.len() > 0 {
                        assert(a.last() == s[i - 1]);
                    }
                }
                let ls = lines(s);
                assert(ls == seq![a] + lines(rest));
                lemma_lines_text_front(ls);
                assert(ls.drop_first() =~= lines(rest));
                assert(s =~= a + nl() + rest);
            },
            None => {
                assert(s[s.len() - 1] == '\n');
            },
        }
    }
}

/// Text of lines, each ended by a line feed, whose last line is not empty
/// and ends in no white space: trimming its end drops the last line feed
/// only, and what is left reads as the same lines.
proof fn lemma_lines_of_trimmed(ls: Seq<Seq<char>>)
    requires
        ls.len() > 0,
        forall|k: int| 0 <= k < ls.len() ==> clean_line(#[trigger] ls[k]),
        ls.last().len() > 0,
        !is_ws(ls.last().last()),
    ensures
        lines(trim_end(lines_text(ls))) == ls,
        trim_end(lines_text(ls)) == lines_text(ls.drop_last()) + ls.last(),
{
    let dl = ls.drop_last();
    let x = lines_text(dl) + ls.last();
    assert(lines_text(ls) == x + nl());
    assert((x + nl()).drop_last() =~= x);
    assert(x.last() == ls.last().last());
    assert(trim_end(x) == x);
    assert(trim_end(x + nl()) == trim_end(x));
    assert forall|k: int| 0 <= k < dl.len() implies clean_line(#[trigger] dl[k]) by {
        assert(dl[k] == ls[k]);
    }
    assert(clean_line(ls[ls.len() - 1]));
    crate::roundtrip::lemma_lines_of_lines_text_and(dl, ls.last());
    assert(dl.push(ls.last()) =~= ls);
}

// ---------------------------------------------------------------------------
// The lines of a written body
// ---------------------------------------------------------------------------

/// A line that splitting a body into sections keeps as content: trimmed, it
/// starts with neither `## ` nor `# `.
pub open spec fn plain_line(l: Seq<char>) -> bool {
    !starts_with(trim(l), section_marker()) && !starts_with(trim(l), title_marker())
}

/// The lines that the text `x` of a section is written as.
pub open spec fn text_lines(x: Seq<char>) -> Seq<Seq<char>> {
    lines(x + nl())
}

/// Text that a body section writes and reads back unchanged: no carriage
/// return, no white space at either end, and no line that, trimmed, starts
/// with `## ` or `# `.
pub open spec fn section_text(x: Seq<char>) -> bool {
    &&& no_cr(x)
    &&& x.len() > 0 ==> !is_ws(x[0]) && !is_ws(x.last())
    &&& forall|k: int| 0 <= k < text_lines(x).len() ==> plain_line(#[trigger] text_lines(x)[k])
}

pub open spec fn opt_section_text(o: Option<Seq<char>>) -> bool {
    match o {
        Some(x) => section_text(x),
        None => true,
    }
}

/// The lines of a written description.
pub open spec fn desc_block(o: Option<Seq<char>>) -> Seq<Seq<char>> {
    match o {
        Some(x) => seq![Seq::<char>::empty()] + text_lines(x),
        None => Seq::empty(),
    }
}

/// The lines of a written `## name` section.
pub open spec fn sec_block(name: Seq<char>, o: Option<Seq<char>>) -> Seq<Seq<char>> {
    match o {
        Some(y) => seq![Seq::<char>::empty(), section_marker() + name, Seq::<char>::empty()] + text_lines(y),
        None => Seq::empty(),
    }
}

/// The lines of a written Notes section.
pub open spec fn notes_block(ns: Seq<(Seq<char>, Seq<char>)>) -> Seq<Seq<char>> {
    if ns.len() > 0 {
        seq![Seq::<char>::empty(), section_marker() + name_notes()] + notes_lines(ns)
    } else {
        Seq::empty()
    }
}

/// The text of a written Notes section.
pub open spec fn notes_section_text(ns: Seq<(Seq<char>, Seq<char>)>) -> Seq<char> {
    if ns.len() > 0 {
        crate::render::notes_heading() + notes_text(ns)
    } else {
        Seq::empty()
    }
}

/// The lines of a written body after its title line.
pub open spec fn section_lines(
    desc: Option<Seq<char>>,
    design: Option<Seq<char>>,
    acc: Option<Seq<char>>,
    ns: Seq<(Seq<char>, Seq<char>)>,
) -> Seq<Seq<char>> {
    three_lines(desc, design, acc) + notes_block(ns)
}

/// The lines of the written description, design and acceptance criteria.
pub open spec fn three_lines(desc: Option<Seq<char>>, design: Option<Seq<char>>, acc: Option<Seq<char>>) -> Seq<
    Seq<char>,
> {
    desc_block(desc) + sec_block(name_design(), design) + sec_block(name_acceptance(), acc)
}

proof fn lemma_text_lines_text(x: Seq<char>)
    requires
        no_cr(x),
    ensures
        lines_text(text_lines(x)) == x + nl(),
        forall|k: int| 0 <= k < text_lines(x).len() ==> clean_line(#[trigger] text_lines(x)[k]),
{
    assert forall|k: int| 0 <= k < (x + nl()).len() implies #[trigger] (x + nl())[k] != '\r' by {
        if k < x.len() {
            assert((x + nl())[k] == x[k]);
        }
    }
    lemma_lines_text_lines(x + nl());
    lemma_lines_clean(x + nl());
}

proof fn lemma_one_line_text(l: Seq<char>)
    ensures
        lines_text(seq![l]) == l + nl(),
{
    assert(seq![l].drop_last() =~= Seq::<Seq<char>>::empty());
    assert(lines_text(Seq::<Seq<char>>::empty()) =~= Seq::<char>::empty());
}

proof fn lemma_triple_text(a: Seq<char>, b: Seq<char>, c: Seq<char>)
    ensures
        lines_text(seq![a, b, c]) == a + nl() + b + nl() + c + nl(),
{
    assert(seq![a, b, c].drop_last() =~= seq![a, b]);
    assert(seq![a, b].drop_last() =~= seq![a]);
    assert(seq![a, b, c].last() == c);
    assert(seq![a, b].last() == b);
    lemma_one_line_text(a);
    assert(lines_text(seq![a, b]) == lines_text(seq![a]) + b + nl());
    assert(lines_text(seq![a, b, c]) == lines_text(seq![a, b]) + c + nl());
    assert(lines_text(seq![a, b, c]) =~= a + nl() + b + nl() + c + nl());
}

/// The description, design and acceptance criteria of a body are their
/// lines, each ended by a line feed.
#[verifier::rlimit(40)]
#[verifier::spinoff_prover]
proof fn lemma_parts_text(desc: Option<Seq<char>>, design: Option<Seq<char>>, acc: Option<Seq<char>>)
    requires
        opt_section_text(desc),
        opt_section_text(design),
        opt_section_text(acc),
    ensures
        description_part(desc) + section_part(design_heading(), design) + section_part(acceptance_heading(), acc)
            == lines_text(three_lines(desc, design, acc)),
        forall|k: int|
            0 <= k < three_lines(desc, design, acc).len() ==> clean_line(
                #[trigger] three_lines(desc, design, acc)[k],
            ),
{
    reveal_strlit("\n## Design\n\n");
    reveal_strlit("\n## Acceptance Criteria\n\n");
    let e = Seq::<char>::empty();
    let db = desc_block(desc);
    let sb = sec_block(name_design(), design);
    let ab = sec_block(name_acceptance(), acc);
    crate::update::lemma_lines_text_concat(db + sb, ab);
    crate::update::lemma_lines_text_concat(db, sb);
    assert(lines_text(Seq::<Seq<char>>::empty()) =~= Seq::<char>::empty());
    match desc {
        Some(x) => {
            lemma_text_lines_text(x);
            crate::update::lemma_lines_text_concat(seq![e], text_lines(x));
            lemma_one_line_text(e);
            assert(description_part(desc) =~= lines_text(db));
        },
        None => {},
    }
    match design {
        Some(y) => {
            lemma_text_lines_text(y);
            let h = seq![e, section_marker() + name_design(), e];
            crate::update::lemma_lines_text_concat(h, text_lines(y));
            lemma_triple_text(e, section_marker() + name_design(), e);
            assert(design_heading() =~= lines_text(h));
            assert(section_part(design_heading(), design) =~= lines_text(sb));
        },
        None => {},
    }
    match acc {
        Some(z) => {
            lemma_text_lines_text(z);
            let h = seq![e, section_marker() + name_acceptance(), e];
            crate::update::lemma_lines_text_concat(h, text_lines(z));
            lemma_triple_text(e, section_marker() + name_acceptance(), e);
            assert(acceptance_heading() =~= lines_text(h));
            assert(section_part(acceptance_heading(), acc) =~= lines_text(ab));
        },
        None => {},
    }
    assert(description_part(desc) + section_part(design_heading(), design) + section_part(acceptance_heading(), acc)
        =~= lines_text(three_lines(desc, design, acc)));
    let all = three_lines(desc, design, acc);
    assert forall|k: int| 0 <= k < all.len() implies clean_line(#[trigger] all[k]) by {
        let n1 = db.len() as int;
        let n2 = n1 + sb.len();
        if k < n1 {
            assert(all[k] == db[k]);
            if k > 0 {
                let x = desc->0;
                assert(db[k] == text_lines(x)[k - 1]);
            }
        } else if k < n2 {
            assert(all[k] == sb[k - n1]);
            if k - n1 == 1 {
                assert(sb[1] == section_marker() + name_design());
                assert(clean_line(section_marker() + name_design())) by {
                    assert(section_marker() + name_design() =~= seq!['#', '#', ' ', 'D', 'e', 's', 'i', 'g', 'n']);
                }
            } else if k - n1 > 2 {
                let y = design->0;
                assert(sb[k - n1] == text_lines(y)[k - n1 - 3]);
            }
        } else {
            assert(all[k] == ab[k - n2]);
            if k - n2 == 1 {
                assert(ab[1] == section_marker() + name_acceptance());
                let l = section_marker() + name_acceptance();
                assert(clean_line(l)) by {
                    assert forall|i: int| 0 <= i < l.len() implies #[trigger] l[i] != '\n' by {
                        if i >= 3 {
                            assert(l[i] == name_acceptance()[i - 3]);
                        }
                    }
                }
            } else if k - n2 > 2 {
                let z = acc->0;
                assert(ab[k - n2] == text_lines(z)[k - n2 - 3]);
            }
        }
    }
}

// ---------------------------------------------------------------------------
// Splitting the written lines into sections
// ---------------------------------------------------------------------------

proof fn lemma_sections_concat(st: SectionState, a: Seq<Seq<char>>, b: Seq<Seq<char>>)
    ensures
        section_steps(st, a + b) == section_steps(section_steps(st, a), b),
    decreases b.len(),
{
    if b.len() == 0 {
        assert(a + b =~= a);
    } else {
        assert((a + b).drop_last() =~= a + b.drop_last());
        assert((a + b).last() == b.last());
        lemma_sections_concat(st, a, b.drop_last());
    }
}

proof fn lemma_sections_one(st: SectionState, l: Seq<char>)
    ensures
        section_steps(st, seq![l]) == section_step(st, l),
{
    assert(seq![l].drop_last() =~= Seq::<Seq<char>>::empty());
    assert(section_steps(st, Seq::<Seq<char>>::empty()) == st);
    assert(seq![l].last() == l);
}

/// Plain lines go to the content of the current section.
proof fn lemma_sections_plain(st: SectionState, xs: Seq<Seq<char>>)
    requires
        forall|k: int| 0 <= k < xs.len() ==> plain_line(#[trigger] xs[k]),
    ensures
        section_steps(st, xs) == (SectionState { name: st.name, content: st.content + xs, saved: st.saved }),
    decreases xs.len(),
{
    if xs.len() == 0 {
        assert(st.content + xs =~= st.content);
    } else {
        let dl = xs.drop_last();
        assert forall|k: int| 0 <= k < dl.len() implies plain_line(#[trigger] dl[k]) by {
            assert(dl[k] == xs[k]);
        }
        lemma_sections_plain(st, dl);
        assert(plain_line(xs[xs.len() - 1]));
        assert((st.content + dl).push(xs.last()) =~= st.content + xs);
    }
}

proof fn lemma_empty_plain()
    ensures
        plain_line(Seq::<char>::empty()),
{
    assert(trim(Seq::<char>::empty()) =~= Seq::<char>::empty());
}

/// A `## name` line saves the current section and opens `name`.
proof fn lemma_heading_step(st: SectionState, name: Seq<char>)
    requires
        name.len() > 0,
        name[0] != '#',
        !is_ws(name[0]),
        !is_ws(name.last()),
    ensures
        section_step(st, section_marker() + name) == (SectionState {
            name: name,
            content: Seq::empty(),
            saved: flush_section(st),
        }),
{
    let l = section_marker() + name;
    assert(l[0] == '#');
    assert(l.last() == name.last());
    crate::text::lemma_trim_fixed(l);
    assert(l.take(3) =~= section_marker());
    assert(l.skip(3) =~= name);
    assert(!starts_with(name, section_marker())) by {
        if starts_with(name, section_marker()) {
            assert(name.take(3)[0] == name[0]);
        }
    }
    crate::text::lemma_trim_fixed(name);
    assert(trim(l) == l);
    assert(starts_with(l, section_marker()));
    assert(crate::body::strip_prefix_all(l, section_marker()) == crate::body::strip_prefix_all(name, section_marker()));
    assert(crate::body::strip_prefix_all(name, section_marker()) == name);
}

/// The title line is no section content.
proof fn lemma_title_step(st: SectionState, title: Seq<char>)
    requires
        crate::roundtrip::writable_title(title),
    ensures
        section_step(st, title_marker() + title) == st,
{
    let l = title_marker() + title;
    assert(l[0] == '#');
    assert(l.last() == title.last());
    crate::text::lemma_trim_fixed(l);
    assert(l.take(2) =~= title_marker());
    assert(l[1] == ' ');
    assert(!starts_with(l, section_marker())) by {
        if starts_with(l, section_marker()) {
            assert(l.take(3)[1] == section_marker()[1]);
        }
    }
}

/// The state after the lines of a written description.
proof fn lemma_desc_block(st: SectionState, x: Seq<char>)
    requires
        section_text(x),
    ensures
        section_steps(st, desc_block(Some(x))) == (SectionState {
            name: st.name,
            content: st.content + (seq![Seq::<char>::empty()] + text_lines(x)),
            saved: st.saved,
        }),
{
    let b = desc_block(Some(x));
    lemma_empty_plain();
    assert forall|k: int| 0 <= k < b.len() implies plain_line(#[trigger] b[k]) by {
        if k > 0 {
            assert(b[k] == text_lines(x)[k - 1]);
        }
    }
    lemma_sections_plain(st, b);
}

/// The state after the lines of a written `## name` section.
proof fn lemma_sec_block(st: SectionState, name: Seq<char>, y: Seq<char>)
    requires
        section_text(y),
        name.len() > 0,
        name[0] != '#',
        !is_ws(name[0]),
        !is_ws(name.last()),
    ensures
        section_steps(st, sec_block(name, Some(y))) == (SectionState {
            name: name,
            content: seq![Seq::<char>::empty()] + text_lines(y),
            saved: flush_section(SectionState { content: st.content.push(Seq::<char>::empty()), ..st }),
        }),
{
    let e = Seq::<char>::empty();
    let b = sec_block(name, Some(y));
    lemma_empty_plain();
    assert(b =~= seq![e] + seq![section_marker() + name] + (seq![e] + text_lines(y)));
    lemma_sections_concat(st, seq![e] + seq![section_marker() + name], seq![e] + text_lines(y));
    lemma_sections_concat(st, seq![e], seq![section_marker() + name]);
    lemma_sections_one(st, e);
    let st1 = SectionState { content: st.content.push(e), ..st };
    assert(section_step(st, e) == st1);
    lemma_sections_one(st1, section_marker() + name);
    lemma_heading_step(st1, name);
    let st2 = SectionState { name: name, content: Seq::empty(), saved: flush_section(st1) };
    let rest = seq![e] + text_lines(y);
    assert forall|k: int| 0 <= k < rest.len() implies plain_line(#[trigger] rest[k]) by {
        if k > 0 {
            assert(rest[k] == text_lines(y)[k - 1]);
        }
    }
    lemma_sections_plain(st2, rest);
    assert(st2.content + rest =~= rest);
}

// ---------------------------------------------------------------------------
// The sections a written body reads as
// ---------------------------------------------------------------------------

/// The content lines of a section written with the text `o`.
pub open spec fn content_of(o: Option<Seq<char>>) -> Seq<Seq<char>> {
    match o {
        Some(w) => seq![Seq::<char>::empty()] + text_lines(w),
        None => Seq::empty(),
    }
}

/// The text a section's content reads as once a blank line followed it.
pub open spec fn text_or_blank(o: Option<Seq<char>>) -> Seq<char> {
    match o {
        Some(w) => w,
        None => Seq::empty(),
    }
}

pub open spec fn opt_entry(name: Seq<char>, o: Option<Seq<char>>) -> Seq<(Seq<char>, Seq<char>)> {
    match o {
        Some(y) => seq![(name, y)],
        None => Seq::empty(),
    }
}

/// The sections a written body reads as: the description (empty where
/// there is none but a later section), then the design, the acceptance
/// criteria and the notes where there are some.
pub open spec fn written_sections(
    desc: Option<Seq<char>>,
    design: Option<Seq<char>>,
    acc: Option<Seq<char>>,
    ns: Seq<(Seq<char>, Seq<char>)>,
) -> Seq<(Seq<char>, Seq<char>)> {
    let d = match desc {
        Some(x) => seq![(Seq::<char>::empty(), x)],
        None => if design is Some || acc is Some || ns.len() > 0 {
            seq![(Seq::<char>::empty(), Seq::<char>::empty())]
        } else {
            Seq::empty()
        },
    };
    let n = if ns.len() > 0 { seq![(name_notes(), notes_value(ns))] } else { Seq::empty() };
    d + opt_entry(name_design(), design) + opt_entry(name_acceptance(), acc) + n
}

proof fn lemma_join_text_lines(x: Seq<char>)
    requires
        no_cr(x),
    ensures
        text_lines(x).len() > 0,
        join(text_lines(x), nl()) == x,
{
    lemma_text_lines_text(x);
    let tl = text_lines(x);
    if tl.len() == 0 {
        assert(lines_text(tl) =~= Seq::<char>::empty());
        assert((x + nl()).len() > 0);
    }
    crate::update::lemma_join_lines_text(tl);
    assert((join(tl, nl()) + nl()).drop_last() =~= join(tl, nl()));
    assert((x + nl()).drop_last() =~= x);
}

proof fn lemma_trim_nl_x(x: Seq<char>)
    requires
        x.len() > 0 ==> !is_ws(x[0]) && !is_ws(x.last()),
    ensures
        trim(nl() + x) == x,
        trim(nl() + x + nl()) == x,
{
    assert((nl() + x).drop_first() =~= x);
    assert(trim_start(nl() + x) == trim_start(x));
    assert((nl() + x + nl()).drop_first() =~= x + nl());
    assert(trim_start(nl() + x + nl()) == trim_start(x + nl()));
    if x.len() > 0 {
        assert(trim_start(x) == x);
        assert((x + nl())[0] == x[0]);
        assert(trim_start(x + nl()) == x + nl());
        assert((x + nl()).drop_last() =~= x);
        assert(trim_end(x + nl()) == trim_end(x));
        assert(trim_end(x) == x);
    } else {
        assert(x + nl() =~= nl());
        assert(nl().drop_first() =~= Seq::<char>::empty());
        assert(trim_start(nl()) == trim_start(Seq::<char>::empty()));
        assert(nl() + x =~= nl());
    }
}

/// What the content of a written section reads as.
proof fn lemma_content_values(o: Option<Seq<char>>)
    requires
        opt_section_text(o),
    ensures
        trim(join(content_of(o).push(Seq::<char>::empty()), crate::body::newline())) == text_or_blank(o),
        o is Some ==> content_of(o).len() > 0 && trim(join(content_of(o), crate::body::newline())) == o->0,
{
    let e = Seq::<char>::empty();
    assert(crate::body::newline() =~= nl());
    match o {
        Some(w) => {
            lemma_join_text_lines(w);
            let c = content_of(o);
            crate::edit::lemma_join_front(c);
            assert(c.drop_first() =~= text_lines(w));
            assert(join(c, nl()) == nl() + w);
            crate::text::lemma_join_push(c, nl(), e);
            assert(join(c.push(e), nl()) =~= nl() + w + nl());
            lemma_trim_nl_x(w);
        },
        None => {
            assert(content_of(o).push(e) =~= seq![e]);
            assert(join(seq![e], nl()) == e);
            assert(trim(e) =~= e);
        },
    }
}

proof fn lemma_names_ok()
    ensures
        name_design().len() > 0,
        name_design()[0] != '#',
        !is_ws(name_design()[0]),
        !is_ws(name_design().last()),
        name_acceptance().len() > 0,
        name_acceptance()[0] != '#',
        !is_ws(name_acceptance()[0]),
        !is_ws(name_acceptance().last()),
{
}

/// The written lines of a body, title first, split into sections.
#[verifier::rlimit(60)]
#[verifier::spinoff_prover]
proof fn lemma_body_sections(
    title: Seq<char>,
    desc: Option<Seq<char>>,
    design: Option<Seq<char>>,
    acc: Option<Seq<char>>,
    ns: Seq<(Seq<char>, Seq<char>)>,
)
    requires
        crate::roundtrip::writable_title(title),
        opt_section_text(desc),
        opt_section_text(design),
        opt_section_text(acc),
        writable_notes(ns),
    ensures
        flush_section(section_steps(initial_sections(), seq![title_marker() + title] + section_lines(desc, design, acc, ns)))
            == written_sections(desc, design, acc, ns),
{
    lemma_names_ok();
    let e = Seq::<char>::empty();
    let t = title_marker() + title;
    let db = desc_block(desc);
    let sb = sec_block(name_design(), design);
    let ab = sec_block(name_acceptance(), acc);
    let nb = notes_block(ns);
    assert(seq![t] + section_lines(desc, design, acc, ns) =~= (((seq![t] + db) + sb) + ab) + nb);
    lemma_sections_concat(initial_sections(), ((seq![t] + db) + sb) + ab, nb);
    lemma_sections_concat(initial_sections(), (seq![t] + db) + sb, ab);
    lemma_sections_concat(initial_sections(), seq![t] + db, sb);
    lemma_sections_concat(initial_sections(), seq![t], db);
    lemma_sections_one(initial_sections(), t);
    lemma_title_step(initial_sections(), title);
    let s0 = initial_sections();
    let s1 = SectionState { name: e, content: content_of(desc), saved: Seq::empty() };
    match desc {
        Some(x) => {
            lemma_desc_block(s0, x);
            assert(s0.content + (seq![e] + text_lines(x)) =~= content_of(desc));
        },
        None => {},
    }
    assert(section_steps(s0, db) == s1);
    lemma_content_values(desc);
    lemma_content_values(design);
    lemma_content_values(acc);
    let s2 = match design {
        Some(y) => SectionState {
            name: name_design(),
            content: content_of(design),
            saved: seq![(e, text_or_blank(desc))],
        },
        None => s1,
    };
    match design {
        Some(y) => {
            lemma_sec_block(s1, name_design(), y);
            assert(flush_section(SectionState { content: s1.content.push(e), ..s1 }) =~= seq![(e, text_or_blank(desc))]);
        },
        None => {},
    }
    assert(section_steps(s1, sb) == s2);
    let s3 = match acc {
        Some(z) => SectionState {
            name: name_acceptance(),
            content: content_of(acc),
            saved: s2.saved.push((s2.name, trim(join(s2.content.push(e), crate::body::newline())))),
        },
        None => s2,
    };
    match acc {
        Some(z) => {
            lemma_sec_block(s2, name_acceptance(), z);
        },
        None => {},
    }
    assert(section_steps(s2, ab) == s3);
    // The sections before the notes.
    let before = match desc {
        Some(x) => seq![(e, x)],
        None => if design is Some || acc is Some { seq![(e, e)] } else { Seq::<(Seq<char>, Seq<char>)>::empty() },
    } + opt_entry(name_design(), design) + opt_entry(name_acceptance(), acc);
    match (design, acc) {
        (Some(y), Some(z)) => {
            assert(s2.content == content_of(design));
            assert(flush_section(s3) =~= before);
            assert(s3.saved.push((s3.name, trim(join(s3.content.push(e), crate::body::newline()))))
                =~= seq![(e, text_or_blank(desc))] + opt_entry(name_design(), design) + opt_entry(name_acceptance(), acc));
        },
        (Some(y), None) => {
            assert(flush_section(s3) =~= before);
        },
        (None, Some(z)) => {
            assert(s2.saved.push((s2.name, text_or_blank(desc))) =~= seq![(e, text_or_blank(desc))]);
            assert(flush_section(s3) =~= before);
        },
        (None, None) => {
            assert(flush_section(s3) =~= before);
        },
    }
    if ns.len() > 0 {
        // The Notes section closes the one before it and holds the notes.
        lemma_notes_lines_text(ns);
        let sm = section_marker() + name_notes();
        assert(nb =~= (seq![e] + seq![sm]) + notes_lines(ns));
        lemma_sections_concat(s3, seq![e] + seq![sm], notes_lines(ns));
        lemma_sections_concat(s3, seq![e], seq![sm]);
        lemma_sections_one(s3, e);
        lemma_empty_plain();
        let s3b = SectionState { content: s3.content.push(e), ..s3 };
        assert(section_step(s3, e) == s3b);
        lemma_sections_one(s3b, sm);
        assert(name_notes()[0] == 'N' && name_notes().last() == 's');
        lemma_heading_step(s3b, name_notes());
        let s4 = SectionState { name: name_notes(), content: Seq::empty(), saved: flush_section(s3b) };
        lemma_sections_plain(s4, notes_lines(ns));
        assert(s4.content + notes_lines(ns) =~= notes_lines(ns));
        lemma_notes_lines_head(ns);
        let pre = seq![(e, text_or_blank(desc))] + opt_entry(name_design(), design) + opt_entry(name_acceptance(), acc);
        match (design, acc) {
            (Some(y), Some(z)) => {
                assert(flush_section(s3b) =~= pre);
            },
            (Some(y), None) => {
                assert(flush_section(s3b) =~= pre);
            },
            (None, Some(z)) => {
                assert(s2.saved.push((s2.name, text_or_blank(desc))) =~= seq![(e, text_or_blank(desc))]);
                assert(flush_section(s3b) =~= pre);
            },
            (None, None) => {
                assert(flush_section(s3b) =~= pre);
            },
        }
        assert(written_sections(desc, design, acc, ns) =~= pre.push((name_notes(), notes_value(ns))));
    } else {
        assert(nb =~= Seq::<Seq<char>>::empty());
        assert(section_steps(s3, nb) == s3);
        assert(written_sections(desc, design, acc, ns) =~= before);
    }
}

// ---------------------------------------------------------------------------
// Reading back a written body
// ---------------------------------------------------------------------------

proof fn lemma_named_push(a: Seq<(Seq<char>, Seq<char>)>, p: (Seq<char>, Seq<char>), n: Seq<char>)
    ensures
        section_named(a.push(p), n) == if p.0 == n { Some(p.1) } else { section_named(a, n) },
{
    assert(a.push(p).drop_last() =~= a);
}

proof fn lemma_named_entry(a: Seq<(Seq<char>, Seq<char>)>, name: Seq<char>, o: Option<Seq<char>>, n: Seq<char>)
    ensures
        section_named(a + opt_entry(name, o), n) == if o is Some && name == n { o } else { section_named(a, n) },
{
    match o {
        Some(y) => {
            assert(a + opt_entry(name, o) =~= a.push((name, y)));
            lemma_named_push(a, (name, y), n);
        },
        None => {
            assert(a + opt_entry(name, o) =~= a);
        },
    }
}

/// The description of a body as it reads back: where there is none but a
/// later section, the empty text.
pub open spec fn written_description(
    desc: Option<Seq<char>>,
    design: Option<Seq<char>>,
    acc: Option<Seq<char>>,
    ns: Seq<(Seq<char>, Seq<char>)>,
) -> Option<Seq<char>> {
    match desc {
        Some(x) => Some(x),
        None => if design is Some || acc is Some || ns.len() > 0 { Some(Seq::empty()) } else { None },
    }
}

#[verifier::rlimit(40)]
#[verifier::spinoff_prover]
proof fn lemma_named_written(
    desc: Option<Seq<char>>,
    design: Option<Seq<char>>,
    acc: Option<Seq<char>>,
    ns: Seq<(Seq<char>, Seq<char>)>,
)
    ensures
        section_named(written_sections(desc, design, acc, ns), Seq::empty()) == written_description(desc, design, acc, ns),
        section_named(written_sections(desc, design, acc, ns), name_design()) == design,
        section_named(written_sections(desc, design, acc, ns), name_acceptance()) == acc,
        section_named(written_sections(desc, design, acc, ns), name_notes()) == if ns.len() > 0 {
            Some(notes_value(ns))
        } else {
            None
        },
{
    let e = Seq::<char>::empty();
    let d = match desc {
        Some(x) => seq![(e, x)],
        None => if design is Some || acc is Some || ns.len() > 0 {
            seq![(e, e)]
        } else {
            Seq::<(Seq<char>, Seq<char>)>::empty()
        },
    };
    let d2 = d + opt_entry(name_design(), design);
    let d3 = d2 + opt_entry(name_acceptance(), acc);
    let no = if ns.len() > 0 { Some(notes_value(ns)) } else { None };
    assert(written_sections(desc, design, acc, ns) == d3 + opt_entry(name_notes(), no));
    assert(e.len() == 0);
    assert(name_design().len() == 6);
    assert(name_acceptance().len() == 19);
    assert(name_notes().len() == 5);
    assert(name_design() != e);
    assert(name_acceptance() != e && name_acceptance() != name_design());
    assert(name_notes() != e && name_notes() != name_design() && name_notes() != name_acceptance());
    let names = seq![e, name_design(), name_acceptance(), name_notes()];
    assert forall|i: int| 0 <= i < 4 implies {
        &&& section_named(d, #[trigger] names[i]) == if names[i] == e {
            written_description(desc, design, acc, ns)
        } else {
            None::<Seq<char>>
        }
    } by {
        let n = names[i];
        assert(section_named(Seq::<(Seq<char>, Seq<char>)>::empty(), n) is None);
        match desc {
            Some(x) => {
                assert(d =~= Seq::<(Seq<char>, Seq<char>)>::empty().push((e, x)));
                lemma_named_push(Seq::empty(), (e, x), n);
            },
            None => if design is Some || acc is Some || ns.len() > 0 {
                assert(d =~= Seq::<(Seq<char>, Seq<char>)>::empty().push((e, e)));
                lemma_named_push(Seq::empty(), (e, e), n);
            },
        }
    }
    assert(names[0] == e && names[1] == name_design() && names[2] == name_acceptance() && names[3] == name_notes());
    lemma_named_entry(d, name_design(), design, e);
    lemma_named_entry(d, name_design(), design, name_design());
    lemma_named_entry(d, name_design(), design, name_acceptance());
    lemma_named_entry(d, name_design(), design, name_notes());
    lemma_named_entry(d2, name_acceptance(), acc, e);
    lemma_named_entry(d2, name_acceptance(), acc, name_design());
    lemma_named_entry(d2, name_acceptance(), acc, name_acceptance());
    lemma_named_entry(d2, name_acceptance(), acc, name_notes());
    lemma_named_entry(d3, name_notes(), no, e);
    lemma_named_entry(d3, name_notes(), no, name_design());
    lemma_named_entry(d3, name_notes(), no, name_acceptance());
    lemma_named_entry(d3, name_notes(), no, name_notes());
}

/// The last line of written section text ends as the text does.
proof fn lemma_text_lines_last(w: Seq<char>)
    requires
        section_text(w),
        w.len() > 0,
    ensures
        text_lines(w).len() > 0,
        text_lines(w).last().len() > 0,
        text_lines(w).last().last() == w.last(),
{
    lemma_text_lines_text(w);
    lemma_join_text_lines(w);
    let tl = text_lines(w);
    let dl = tl.drop_last();
    assert(lines_text(tl) == lines_text(dl) + tl.last() + nl());
    assert((lines_text(dl) + tl.last() + nl()).drop_last() =~= lines_text(dl) + tl.last());
    assert((w + nl()).drop_last() =~= w);
    assert(lines_text(dl) + tl.last() == w);
    if tl.last().len() == 0 {
        assert(lines_text(dl) + tl.last() =~= lines_text(dl));
        if dl.len() > 0 {
            assert(lines_text(dl) == lines_text(dl.drop_last()) + dl.last() + nl());
            assert(lines_text(dl).last() == '\n');
        }
        assert(false);
    }
    assert((lines_text(dl) + tl.last()).last() == tl.last().last());
}

/// The last line of a body whose last section is not empty ends in no
/// white space.
#[verifier::rlimit(40)]
#[verifier::spinoff_prover]
proof fn lemma_last_line_solid(
    title: Seq<char>,
    desc: Option<Seq<char>>,
    design: Option<Seq<char>>,
    acc: Option<Seq<char>>,
    ns: Seq<(Seq<char>, Seq<char>)>,
)
    requires
        crate::roundtrip::writable_title(title),
        opt_section_text(desc),
        opt_section_text(design),
        opt_section_text(acc),
        writable_notes(ns),
        last_section_filled(desc, design, acc, ns),
    ensures
        ({
            let ls = seq![title_marker() + title] + section_lines(desc, design, acc, ns);
            &&& ls.last().len() > 0
            &&& !is_ws(ls.last().last())
        }),
{
    let t = title_marker() + title;
    let db = desc_block(desc);
    let sb = sec_block(name_design(), design);
    let ab = sec_block(name_acceptance(), acc);
    let nb = notes_block(ns);
    let ls = seq![t] + section_lines(desc, design, acc, ns);
    assert(ls =~= (((seq![t] + db) + sb) + ab) + nb);
    if ns.len() > 0 {
        lemma_notes_value(ns);
        assert(ls.last() == nb.last());
        assert(nb.last() == notes_lines(ns).last());
    } else {
        assert(nb =~= Seq::<Seq<char>>::empty());
        assert(ls =~= ((seq![t] + db) + sb) + ab);
        match acc {
            Some(z) => {
                lemma_text_lines_last(z);
                assert(ls.last() == ab.last());
                assert(ab.last() == text_lines(z).last());
            },
            None => match design {
                Some(y) => {
                    lemma_text_lines_last(y);
                    assert(ls.last() == sb.last());
                    assert(sb.last() == text_lines(y).last());
                },
                None => match desc {
                    Some(x) => {
                        lemma_text_lines_last(x);
                        assert(ls.last() == db.last());
                        assert(db.last() == text_lines(x).last());
                    },
                    None => {
                        assert(ls =~= seq![t]);
                        assert(t.last() == title.last());
                    },
                },
            },
        }
    }
}

/// The last section that a body writes is not empty: the body of its last
/// note, else its acceptance criteria, design or description.
pub open spec fn last_section_filled(
    desc: Option<Seq<char>>,
    design: Option<Seq<char>>,
    acc: Option<Seq<char>>,
    ns: Seq<(Seq<char>, Seq<char>)>,
) -> bool {
    if ns.len() > 0 {
        ns.last().1.len() > 0
    } else {
        match acc {
            Some(z) => z.len() > 0,
            None => match design {
                Some(y) => y.len() > 0,
                None => match desc {
                    Some(x) => x.len() > 0,
                    None => true,
                },
            },
        }
    }
}

/// The notes of a ticket, as (timestamp, body) pairs; none where it has none.
pub open spec fn notes_of(d: crate::types::Data) -> Seq<(Seq<char>, Seq<char>)> {
    match d.notes {
        Some(ns) => crate::body::note_views(ns@),
        None => Seq::empty(),
    }
}

/// The parts of a body after its title line are its section lines, each
/// ended by a line feed.
#[verifier::rlimit(40)]
#[verifier::spinoff_prover]
proof fn lemma_section_lines_text(
    desc: Option<Seq<char>>,
    design: Option<Seq<char>>,
    acc: Option<Seq<char>>,
    ns: Seq<(Seq<char>, Seq<char>)>,
)
    requires
        opt_section_text(desc),
        opt_section_text(design),
        opt_section_text(acc),
        writable_notes(ns),
    ensures
        description_part(desc) + section_part(design_heading(), design) + section_part(acceptance_heading(), acc)
            + notes_section_text(ns) == lines_text(section_lines(desc, design, acc, ns)),
        forall|k: int|
            0 <= k < section_lines(desc, design, acc, ns).len() ==> clean_line(
                #[trigger] section_lines(desc, design, acc, ns)[k],
            ),
{
    reveal_strlit("\n## Notes\n");
    let e = Seq::<char>::empty();
    let tl = three_lines(desc, design, acc);
    let nb = notes_block(ns);
    lemma_parts_text(desc, design, acc);
    crate::update::lemma_lines_text_concat(tl, nb);
    if ns.len() > 0 {
        let sm = section_marker() + name_notes();
        lemma_notes_lines_text(ns);
        crate::update::lemma_lines_text_concat(seq![e, sm], notes_lines(ns));
        assert(seq![e, sm].drop_last() =~= seq![e]);
        assert(seq![e, sm].last() == sm);
        lemma_one_line_text(e);
        assert(lines_text(seq![e, sm]) == lines_text(seq![e]) + sm + nl());
        assert(crate::render::notes_heading() =~= lines_text(seq![e, sm]));
        assert(notes_section_text(ns) =~= lines_text(nb));
    } else {
        assert(nb =~= Seq::<Seq<char>>::empty());
        assert(lines_text(nb) =~= Seq::<char>::empty());
        assert(notes_section_text(ns) =~= Seq::<char>::empty());
    }
    let all = section_lines(desc, design, acc, ns);
    assert forall|k: int| 0 <= k < all.len() implies clean_line(#[trigger] all[k]) by {
        if k < tl.len() {
            assert(all[k] == tl[k]);
        } else {
            assert(all[k] == nb[k - tl.len()]);
            let i = k - tl.len();
            if i == 1 {
                let l = section_marker() + name_notes();
                assert(nb[1] == l);
                assert(l =~= seq!['#', '#', ' ', 'N', 'o', 't', 'e', 's']);
            } else if i > 1 {
                assert(nb[i] == notes_lines(ns)[i - 2]);
            }
        }
    }
}

/// The sections that a written body, title first, reads as once trimmed.
#[verifier::rlimit(60)]
#[verifier::spinoff_prover]
proof fn lemma_body_reads(
    title: Seq<char>,
    desc: Option<Seq<char>>,
    design: Option<Seq<char>>,
    acc: Option<Seq<char>>,
    ns: Seq<(Seq<char>, Seq<char>)>,
)
    requires
        crate::roundtrip::writable_title(title),
        opt_section_text(desc),
        opt_section_text(design),
        opt_section_text(acc),
        writable_notes(ns),
        last_section_filled(desc, design, acc, ns),
    ensures
        ({
            let rest = description_part(desc) + section_part(design_heading(), design) + section_part(
                acceptance_heading(),
                acc,
            ) + notes_section_text(ns);
            sections(trim(trim_end("# "@ + title + nl() + rest))) == written_sections(desc, design, acc, ns)
        }),
{
    let rest = description_part(desc) + section_part(design_heading(), design) + section_part(acceptance_heading(), acc)
        + notes_section_text(ns);
    reveal_strlit("# ");
    lemma_section_lines_text(desc, design, acc, ns);
    let h = title_marker() + title;
    assert("# "@ =~= title_marker());
    let sl = section_lines(desc, design, acc, ns);
    let ls = seq![h] + sl;
    crate::update::lemma_lines_text_concat(seq![h], sl);
    lemma_one_line_text(h);
    let body = "# "@ + title + nl() + rest;
    assert(body =~= lines_text(ls));
    assert(clean_line(h)) by {
        assert forall|k: int| 0 <= k < h.len() implies #[trigger] h[k] != '\n' by {
            if k >= 2 {
                assert(h[k] == title[k - 2]);
            }
        }
        assert(h.last() == title.last());
    }
    assert forall|k: int| 0 <= k < ls.len() implies clean_line(#[trigger] ls[k]) by {
        if k > 0 {
            assert(ls[k] == sl[k - 1]);
        }
    }
    lemma_last_line_solid(title, desc, design, acc, ns);
    lemma_lines_of_trimmed(ls);
    crate::roundtrip::lemma_title_written(title, rest);
    let tb = trim_end(body);
    assert(trim_start(tb) == tb);
    crate::roundtrip::lemma_trim_end_idem(body);
    assert(trim(tb) == tb);
    lemma_body_sections(title, desc, design, acc, ns);
}

/// Names that are all part of the known schema leave no unknown name.
proof fn lemma_unknown_none(names: Seq<Seq<char>>)
    requires
        forall|k: int| 0 <= k < names.len() ==> crate::body::is_known_section(#[trigger] names[k]),
    ensures
        crate::body::unknown_names(names) == Seq::<Seq<char>>::empty(),
    decreases names.len(),
{
    if names.len() > 0 {
        let dl = names.drop_last();
        assert forall|k: int| 0 <= k < dl.len() implies crate::body::is_known_section(#[trigger] dl[k]) by {
            assert(dl[k] == names[k]);
        }
        lemma_unknown_none(dl);
        assert(crate::body::is_known_section(names[names.len() - 1]));
    }
}

/// A written body has no section outside the known schema.
#[verifier::rlimit(40)]
#[verifier::spinoff_prover]
proof fn lemma_written_all_known(
    desc: Option<Seq<char>>,
    design: Option<Seq<char>>,
    acc: Option<Seq<char>>,
    ns: Seq<(Seq<char>, Seq<char>)>,
)
    ensures
        crate::body::nonstandard_names(written_sections(desc, design, acc, ns)) == Seq::<Seq<char>>::empty(),
{
    let ws = written_sections(desc, design, acc, ns);
    let names = ws.map_values(|s: (Seq<char>, Seq<char>)| s.0);
    assert forall|k: int| 0 <= k < ws.len() implies crate::body::is_known_section(#[trigger] ws[k].0) by {
        let e = Seq::<char>::empty();
        let d = match desc {
            Some(x) => seq![(e, x)],
            None => if design is Some || acc is Some || ns.len() > 0 {
                seq![(e, e)]
            } else {
                Seq::<(Seq<char>, Seq<char>)>::empty()
            },
        };
        let a = opt_entry(name_design(), design);
        let b = opt_entry(name_acceptance(), acc);
        let n = if ns.len() > 0 { seq![(name_notes(), notes_value(ns))] } else { Seq::<(Seq<char>, Seq<char>)>::empty() };
        assert(ws == d + a + b + n);
        if k < d.len() {
            assert(ws[k] == d[k]);
        } else if k < d.len() + a.len() {
            assert(ws[k] == a[k - d.len()]);
        } else if k < d.len() + a.len() + b.len() {
            assert(ws[k] == b[k - d.len() - a.len()]);
        } else {
            assert(ws[k] == n[k - d.len() - a.len() - b.len()]);
        }
    }
    let f = crate::graph::first_occurrences(names);
    assert forall|k: int| 0 <= k < f.len() implies crate::body::is_known_section(#[trigger] f[k]) by {
        assert(f.contains(f[k]));
        crate::graph::lemma_first_occurrences_contains(names, f[k]);
        let i = choose|i: int| 0 <= i < names.len() && names[i] == f[k];
        assert(names[i] == ws[i].0);
    }
    lemma_unknown_none(f);
}

/// What a written ticket's body reads back: for a ticket whose front matter
/// and title read back (see `lemma_text_roundtrip`), whose description,
/// design, acceptance criteria and note bodies are texts that a section
/// writes and reads back unchanged, whose note timestamps a note line writes
/// and reads back, and whose last written section is not empty, parsing its
/// text gives back the design, the acceptance criteria and the notes (none
/// where it has none), the description (the empty text where there is none
/// but a later section), and no section outside the known schema.
#[verifier::rlimit(60)]
#[verifier::spinoff_prover]
pub proof fn lemma_body_roundtrip(t: crate::storage::Ticket, default_id: Seq<char>, now: Seq<char>, r: crate::storage::Ticket)
    requires
        crate::roundtrip::writable_metadata(crate::roundtrip::meta_view(t.metadata)),
        crate::roundtrip::writable_title(t.data.title@),
        !crate::text::contains_str(crate::storage::metadata_lines(t.metadata), crate::storage::delimiter()),
        opt_section_text(crate::text::opt_view(t.data.description)),
        opt_section_text(crate::text::opt_view(t.data.design)),
        opt_section_text(crate::text::opt_view(t.data.acceptance)),
        writable_notes(notes_of(t.data)),
        last_section_filled(
            crate::text::opt_view(t.data.description),
            crate::text::opt_view(t.data.design),
            crate::text::opt_view(t.data.acceptance),
            notes_of(t.data),
        ),
    ensures
        crate::storage::parsed_as(r, crate::storage::ticket_text(t), default_id, now) ==> {
            &&& crate::text::opt_view(r.data.description) == written_description(
                crate::text::opt_view(t.data.description),
                crate::text::opt_view(t.data.design),
                crate::text::opt_view(t.data.acceptance),
                notes_of(t.data),
            )
            &&& crate::text::opt_view(r.data.design) == crate::text::opt_view(t.data.design)
            &&& crate::text::opt_view(r.data.acceptance) == crate::text::opt_view(t.data.acceptance)
            &&& notes_of(t.data).len() > 0 ==> r.data.notes is Some && notes_of(r.data) == notes_of(t.data)
            &&& notes_of(t.data).len() == 0 ==> r.data.notes is None
            &&& r.non_standard_sections@.len() == 0
        },
{
    let desc = crate::text::opt_view(t.data.description);
    let design = crate::text::opt_view(t.data.design);
    let acc = crate::text::opt_view(t.data.acceptance);
    let ns = notes_of(t.data);
    let title = t.data.title@;
    let md = crate::roundtrip::meta_view(t.metadata);
    let rest = crate::roundtrip::ticket_rest(t.data);
    crate::roundtrip::lemma_metadata_lines(t.metadata);
    crate::roundtrip::lemma_ticket_text_written(t);
    crate::roundtrip::lemma_written_reads(md, title, rest, default_id, now, r);
    assert(notes_part(t.data.notes) =~= notes_section_text(ns));
    assert(rest =~= description_part(desc) + section_part(design_heading(), design) + section_part(acceptance_heading(), acc)
        + notes_section_text(ns));
    lemma_body_reads(title, desc, design, acc, ns);
    lemma_named_written(desc, design, acc, ns);
    lemma_written_all_known(desc, design, acc, ns);
    if ns.len() > 0 {
        lemma_notes_value(ns);
    }
}

// ---------------------------------------------------------------------------
// Notes
// ---------------------------------------------------------------------------

/// A line that opens a note: trimmed, it starts and ends with `**`.
pub open spec fn note_line(l: Seq<char>) -> bool {
    starts_with(trim(l), note_marker()) && ends_with(trim(l), note_marker())
}

/// A timestamp that a note line writes and reads back: not empty, one line,
/// and no white space or `*` at either end.
pub open spec fn note_stamp(ts: Seq<char>) -> bool {
    &&& ts.len() > 0
    &&& no_cr(ts)
    &&& forall|k: int| 0 <= k < ts.len() ==> #[trigger] ts[k] != '\n'
    &&& !is_ws(ts[0]) && !is_ws(ts.last())
    &&& ts[0] != '*' && ts.last() != '*'
}

/// A note body that reads back unchanged: section text none of whose lines
/// opens a note.
pub open spec fn note_body(b: Seq<char>) -> bool {
    &&& section_text(b)
    &&& forall|k: int| 0 <= k < text_lines(b).len() ==> !note_line(#[trigger] text_lines(b)[k])
}

pub open spec fn writable_notes(ns: Seq<(Seq<char>, Seq<char>)>) -> bool {
    forall|k: int| 0 <= k < ns.len() ==> note_stamp(#[trigger] ns[k].0) && note_body(ns[k].1)
}

/// The line that opens the note stamped `ts`.
pub open spec fn stamp_line(ts: Seq<char>) -> Seq<char> {
    note_marker() + ts + note_marker()
}

/// The lines of a written note.
pub open spec fn note_block(n: (Seq<char>, Seq<char>)) -> Seq<Seq<char>> {
    seq![Seq::<char>::empty(), stamp_line(n.0), Seq::<char>::empty()] + text_lines(n.1)
}

/// The lines of written notes.
pub open spec fn notes_lines(ns: Seq<(Seq<char>, Seq<char>)>) -> Seq<Seq<char>>
    decreases ns.len(),
{
    if ns.len() == 0 {
        Seq::empty()
    } else {
        notes_lines(ns.drop_last()) + note_block(ns.last())
    }
}

proof fn lemma_stamp_line(ts: Seq<char>)
    requires
        note_stamp(ts),
    ensures
        clean_line(stamp_line(ts)),
        trim(stamp_line(ts)) == stamp_line(ts),
        plain_line(stamp_line(ts)),
        note_line(stamp_line(ts)),
        strip_trailing(strip_leading(stamp_line(ts), '*'), '*') == ts,
        stamp_line(ts).len() > 0,
        stamp_line(ts)[0] == '*',
{
    let l = stamp_line(ts);
    let m = note_marker();
    assert(l[0] == '*' && l[1] == '*');
    assert(l.last() == '*');
    assert forall|k: int| 0 <= k < l.len() implies #[trigger] l[k] != '\n' by {
        if 2 <= k < 2 + ts.len() {
            assert(l[k] == ts[k - 2]);
        }
    }
    crate::text::lemma_trim_fixed(l);
    assert(l.take(2) =~= m);
    assert(l.skip(l.len() - 2) =~= m);
    assert(!starts_with(l, section_marker())) by {
        if starts_with(l, section_marker()) {
            assert(l.take(3)[0] == l[0]);
        }
    }
    assert(!starts_with(l, title_marker())) by {
        if starts_with(l, title_marker()) {
            assert(l.take(2)[0] == l[0]);
        }
    }
    assert(l.drop_first().drop_first() =~= ts + m);
    assert(strip_leading(l, '*') == strip_leading(l.drop_first(), '*'));
    assert(l.drop_first()[0] == '*');
    assert(strip_leading(l.drop_first(), '*') == strip_leading(ts + m, '*'));
    assert((ts + m)[0] == ts[0]);
    assert(strip_leading(ts + m, '*') == ts + m);
    assert((ts + m).drop_last().drop_last() =~= ts);
    assert(strip_trailing(ts + m, '*') == strip_trailing((ts + m).drop_last(), '*'));
    assert((ts + m).drop_last().last() == '*');
    assert(strip_trailing((ts + m).drop_last(), '*') == strip_trailing(ts, '*'));
    assert(strip_trailing(ts, '*') == ts);
}

/// The text of written notes is their lines, each ended by a line feed.
#[verifier::rlimit(40)]
#[verifier::spinoff_prover]
proof fn lemma_notes_lines_text(ns: Seq<(Seq<char>, Seq<char>)>)
    requires
        writable_notes(ns),
    ensures
        lines_text(notes_lines(ns)) == notes_text(ns),
        forall|k: int| 0 <= k < notes_lines(ns).len() ==> clean_line(#[trigger] notes_lines(ns)[k]) && plain_line(
            notes_lines(ns)[k],
        ),
    decreases ns.len(),
{
    reveal_strlit("\n**");
    reveal_strlit("**\n\n");
    if ns.len() == 0 {
        assert(lines_text(Seq::<Seq<char>>::empty()) =~= Seq::<char>::empty());
    } else {
        let dl = ns.drop_last();
        assert forall|k: int| 0 <= k < dl.len() implies note_stamp(#[trigger] dl[k].0) && note_body(dl[k].1) by {
            assert(dl[k] == ns[k]);
        }
        lemma_notes_lines_text(dl);
        let n = ns.last();
        assert(note_stamp(ns[ns.len() - 1].0) && note_body(ns[ns.len() - 1].1));
        let e = Seq::<char>::empty();
        let b = note_block(n);
        lemma_text_lines_text(n.1);
        lemma_stamp_line(n.0);
        lemma_triple_text(e, stamp_line(n.0), e);
        crate::update::lemma_lines_text_concat(seq![e, stamp_line(n.0), e], text_lines(n.1));
        assert(lines_text(b) =~= note_text(n));
        crate::update::lemma_lines_text_concat(notes_lines(dl), b);
        lemma_empty_plain();
        assert(notes_lines(ns) == notes_lines(dl) + b);
        assert forall|k: int| 0 <= k < notes_lines(ns).len() implies clean_line(#[trigger] notes_lines(ns)[k]) && plain_line(
            notes_lines(ns)[k],
        ) by {
            let m = notes_lines(dl).len() as int;
            if k < m {
                assert(notes_lines(ns)[k] == notes_lines(dl)[k]);
            } else {
                assert(notes_lines(ns)[k] == b[k - m]);
                if k - m > 2 {
                    assert(b[k - m] == text_lines(n.1)[k - m - 3]);
                }
            }
        }
    }
}

proof fn lemma_notes_concat(st: NoteState, a: Seq<Seq<char>>, b: Seq<Seq<char>>)
    ensures
        note_steps(st, a + b) == note_steps(note_steps(st, a), b),
    decreases b.len(),
{
    if b.len() == 0 {
        assert(a + b =~= a);
    } else {
        assert((a + b).drop_last() =~= a + b.drop_last());
        assert((a + b).last() == b.last());
        lemma_notes_concat(st, a, b.drop_last());
    }
}

proof fn lemma_notes_one(st: NoteState, l: Seq<char>)
    ensures
        note_steps(st, seq![l]) == note_step(st, l),
{
    assert(seq![l].drop_last() =~= Seq::<Seq<char>>::empty());
    assert(note_steps(st, Seq::<Seq<char>>::empty()) == st);
    assert(seq![l].last() == l);
}

/// Inside a note, lines that open none go to its body.
proof fn lemma_note_body_lines(st: NoteState, xs: Seq<Seq<char>>)
    requires
        st.in_note,
        forall|k: int| 0 <= k < xs.len() ==> !note_line(#[trigger] xs[k]),
    ensures
        note_steps(st, xs) == (NoteState { body: st.body + xs, ..st }),
    decreases xs.len(),
{
    if xs.len() == 0 {
        assert(st.body + xs =~= st.body);
    } else {
        let dl = xs.drop_last();
        assert forall|k: int| 0 <= k < dl.len() implies !note_line(#[trigger] dl[k]) by {
            assert(dl[k] == xs[k]);
        }
        lemma_note_body_lines(st, dl);
        assert(!note_line(xs[xs.len() - 1]));
        assert((st.body + dl).push(xs.last()) =~= st.body + xs);
    }
}

/// The lines of a note after its blank first line: it opens, and its body
/// follows.
proof fn lemma_note_lines_after_blank(st: NoteState, n: (Seq<char>, Seq<char>))
    requires
        note_stamp(n.0),
        note_body(n.1),
    ensures
        note_steps(st, note_block(n).drop_first()) == (NoteState {
            timestamp: n.0,
            body: seq![Seq::<char>::empty()] + text_lines(n.1),
            in_note: true,
            notes: flush_note(st),
        }),
{
    let e = Seq::<char>::empty();
    lemma_stamp_line(n.0);
    let l = stamp_line(n.0);
    assert(note_block(n).drop_first() =~= seq![l] + (seq![e] + text_lines(n.1)));
    lemma_notes_concat(st, seq![l], seq![e] + text_lines(n.1));
    lemma_notes_one(st, l);
    let st1 = NoteState { timestamp: n.0, body: Seq::empty(), in_note: true, notes: flush_note(st) };
    assert(note_step(st, l) == st1);
    assert(!note_line(e)) by {
        assert(trim(e) =~= e);
    }
    let rest = seq![e] + text_lines(n.1);
    assert forall|k: int| 0 <= k < rest.len() implies !note_line(#[trigger] rest[k]) by {
        if k > 0 {
            assert(rest[k] == text_lines(n.1)[k - 1]);
        }
    }
    lemma_note_body_lines(st1, rest);
    assert(st1.body + rest =~= rest);
}

/// Reading the lines of written notes, from the second on: each note but
/// the last is done, and the last is open with its body so far.
#[verifier::rlimit(60)]
#[verifier::spinoff_prover]
proof fn lemma_notes_fold(ns: Seq<(Seq<char>, Seq<char>)>)
    requires
        ns.len() > 0,
        writable_notes(ns),
    ensures
        note_steps(initial_notes(), notes_lines(ns).drop_first()) == (NoteState {
            timestamp: ns.last().0,
            body: seq![Seq::<char>::empty()] + text_lines(ns.last().1),
            in_note: true,
            notes: ns.drop_last(),
        }),
    decreases ns.len(),
{
    let e = Seq::<char>::empty();
    let n = ns.last();
    assert(note_stamp(ns[ns.len() - 1].0) && note_body(ns[ns.len() - 1].1));
    let dl = ns.drop_last();
    if ns.len() == 1 {
        assert(notes_lines(dl) =~= Seq::<Seq<char>>::empty());
        assert(notes_lines(ns) =~= note_block(n));
        lemma_note_lines_after_blank(initial_notes(), n);
        assert(flush_note(initial_notes()) =~= dl);
    } else {
        assert forall|k: int| 0 <= k < dl.len() implies note_stamp(#[trigger] dl[k].0) && note_body(dl[k].1) by {
            assert(dl[k] == ns[k]);
        }
        lemma_notes_fold(dl);
        let prev = note_steps(initial_notes(), notes_lines(dl).drop_first());
        assert(notes_lines(dl).len() > 0) by {
            assert(notes_lines(dl) == notes_lines(dl.drop_last()) + note_block(dl.last()));
        }
        assert(notes_lines(ns).drop_first() =~= notes_lines(dl).drop_first() + note_block(n));
        lemma_notes_concat(initial_notes(), notes_lines(dl).drop_first(), note_block(n));
        assert(note_block(n) =~= seq![e] + note_block(n).drop_first());
        lemma_notes_concat(prev, seq![e], note_block(n).drop_first());
        lemma_notes_one(prev, e);
        assert(trim(e) =~= e);
        let p2 = NoteState { body: prev.body.push(e), ..prev };
        assert(note_step(prev, e) == p2);
        lemma_note_lines_after_blank(p2, n);
        let pl = dl.last();
        assert(note_stamp(dl[dl.len() - 1].0) && note_body(dl[dl.len() - 1].1));
        lemma_content_values(Some(pl.1));
        assert(content_of(Some(pl.1)) == seq![e] + text_lines(pl.1));
        assert(crate::body::newline() =~= nl());
        assert(flush_note(p2) == dl.drop_last().push((pl.0, pl.1)));
        assert(dl.drop_last().push(pl) =~= dl);
    }
}

/// Written notes, from their stamp line on, read back as the same notes.
proof fn lemma_notes_read(ns: Seq<(Seq<char>, Seq<char>)>)
    requires
        ns.len() > 0,
        writable_notes(ns),
    ensures
        flush_note(note_steps(initial_notes(), notes_lines(ns).drop_first())) == ns,
{
    lemma_notes_fold(ns);
    let n = ns.last();
    assert(note_stamp(ns[ns.len() - 1].0) && note_body(ns[ns.len() - 1].1));
    lemma_content_values(Some(n.1));
    assert(crate::body::newline() =~= nl());
    assert(ns.drop_last().push(n) =~= ns);
}

proof fn lemma_notes_lines_head(ns: Seq<(Seq<char>, Seq<char>)>)
    requires
        ns.len() > 0,
    ensures
        notes_lines(ns).len() >= 3,
        notes_lines(ns)[0] == Seq::<char>::empty(),
        notes_lines(ns)[1] == stamp_line(ns[0].0),
    decreases ns.len(),
{
    let dl = ns.drop_last();
    if ns.len() == 1 {
        assert(notes_lines(dl) =~= Seq::<Seq<char>>::empty());
        assert(notes_lines(ns) =~= note_block(ns.last()));
    } else {
        lemma_notes_lines_head(dl);
        assert(dl[0] == ns[0]);
        assert(notes_lines(ns) == notes_lines(dl) + note_block(ns.last()));
    }
}

/// The text a Notes section of written notes reads as.
pub open spec fn notes_value(ns: Seq<(Seq<char>, Seq<char>)>) -> Seq<char> {
    trim(join(notes_lines(ns), crate::body::newline()))
}

/// Written notes whose last body is not empty read back from the text of
/// their Notes section.
#[verifier::rlimit(60)]
#[verifier::spinoff_prover]
proof fn lemma_notes_value(ns: Seq<(Seq<char>, Seq<char>)>)
    requires
        ns.len() > 0,
        writable_notes(ns),
        ns.last().1.len() > 0,
    ensures
        notes_model(notes_value(ns)) == ns,
        notes_lines(ns).last().len() > 0,
        !is_ws(notes_lines(ns).last().last()),
{
    let e = Seq::<char>::empty();
    let nl_ = crate::body::newline();
    assert(nl_ =~= nl());
    let n_ = notes_lines(ns);
    lemma_notes_lines_head(ns);
    lemma_notes_lines_text(ns);
    let m = n_.drop_first();
    let n = ns.last();
    assert(note_stamp(ns[ns.len() - 1].0) && note_body(ns[ns.len() - 1].1));
    assert(note_stamp(ns[0].0) && note_body(ns[0].1));
    lemma_text_lines_last(n.1);
    assert(n_ == notes_lines(ns.drop_last()) + note_block(n));
    assert(n_.last() == note_block(n).last());
    assert(note_block(n).last() == text_lines(n.1).last());
    // The joined lines, without the first blank one.
    crate::edit::lemma_join_front(n_);
    assert(join(n_, nl()) == nl() + join(m, nl()));
    assert forall|k: int| 0 <= k < m.len() implies clean_line(#[trigger] m[k]) by {
        assert(m[k] == n_[k + 1]);
    }
    crate::update::lemma_join_lines_text(m);
    let mdl = m.drop_last();
    assert(lines_text(m) == lines_text(mdl) + m.last() + nl());
    assert((join(m, nl()) + nl()).drop_last() =~= join(m, nl()));
    assert((lines_text(mdl) + m.last() + nl()).drop_last() =~= lines_text(mdl) + m.last());
    let j = join(m, nl());
    assert(j == lines_text(mdl) + m.last());
    assert(m.last() == n_.last());
    assert(j.last() == m.last().last());
    lemma_stamp_line(ns[0].0);
    assert(m[0] == stamp_line(ns[0].0));
    if m.len() >= 2 {
        crate::edit::lemma_join_front(m);
    } else {
        assert(j == m[0]);
    }
    assert(j[0] == '*');
    lemma_trim_nl_x(j);
    assert(notes_value(ns) == j);
    assert forall|k: int| 0 <= k < mdl.len() implies clean_line(#[trigger] mdl[k]) by {
        assert(mdl[k] == m[k]);
    }
    assert(forall|k: int| 0 <= k < m.last().len() ==> #[trigger] m.last()[k] != '\n') by {
        assert(clean_line(m[m.len() - 1]));
    }
    crate::roundtrip::lemma_lines_of_lines_text_and(mdl, m.last());
    assert(mdl.push(m.last()) =~= m);
    assert(lines(j) == m);
    lemma_notes_read(ns);
}

// ---------------------------------------------------------------------------
// Adding a note
// ---------------------------------------------------------------------------

/// A written body ends with a line feed after a character that is no white
/// space.
#[verifier::rlimit(60)]
#[verifier::spinoff_prover]
proof fn lemma_body_end(
    title: Seq<char>,
    desc: Option<Seq<char>>,
    design: Option<Seq<char>>,
    acc: Option<Seq<char>>,
    ns: Seq<(Seq<char>, Seq<char>)>,
)
    requires
        crate::roundtrip::writable_title(title),
        opt_section_text(desc),
        opt_section_text(design),
        opt_section_text(acc),
        writable_notes(ns),
        last_section_filled(desc, design, acc, ns),
    ensures
        ({
            let b = "# "@ + title + nl() + (description_part(desc) + section_part(design_heading(), design)
                + section_part(acceptance_heading(), acc) + notes_section_text(ns));
            &&& b.len() >= 2
            &&& b.last() == '\n'
            &&& !is_ws(b.drop_last().last())
        }),
{
    let rest = description_part(desc) + section_part(design_heading(), design) + section_part(acceptance_heading(), acc)
        + notes_section_text(ns);
    reveal_strlit("# ");
    lemma_section_lines_text(desc, design, acc, ns);
    let h = title_marker() + title;
    assert("# "@ =~= title_marker());
    let sl = section_lines(desc, design, acc, ns);
    let ls = seq![h] + sl;
    crate::update::lemma_lines_text_concat(seq![h], sl);
    lemma_one_line_text(h);
    let b = "# "@ + title + nl() + rest;
    assert(b =~= lines_text(ls));
    lemma_last_line_solid(title, desc, design, acc, ns);
    let dl = ls.drop_last();
    assert(lines_text(ls) == lines_text(dl) + ls.last() + nl());
    assert(b.drop_last() =~= lines_text(dl) + ls.last());
    assert(b.drop_last().last() == ls.last().last());
}

/// Notes written one after the other: the text of one more note is the text
/// of the notes before it, then that note.
proof fn lemma_notes_text_push(ns: Seq<(Seq<char>, Seq<char>)>, n: (Seq<char>, Seq<char>))
    ensures
        notes_text(ns.push(n)) == notes_text(ns) + note_text(n),
{
    assert(ns.push(n).drop_last() =~= ns);
}

/// The text of a written file whose front matter is `md`, title `title` and
/// body sections `desc`, `design`, `acc` and notes `ns`.
pub open spec fn file_text(
    md: crate::roundtrip::MetaView,
    title: Seq<char>,
    desc: Option<Seq<char>>,
    design: Option<Seq<char>>,
    acc: Option<Seq<char>>,
    ns: Seq<(Seq<char>, Seq<char>)>,
) -> Seq<char> {
    crate::roundtrip::written_text(
        md,
        title,
        description_part(desc) + section_part(design_heading(), design) + section_part(acceptance_heading(), acc)
            + notes_section_text(ns),
    )
}

/// Adding a note to a written file gives the file written with that note
/// after its other notes, where the file has notes or holds no `## Notes`
/// at all.
#[verifier::rlimit(80)]
#[verifier::spinoff_prover]
proof fn lemma_note_added(
    md: crate::roundtrip::MetaView,
    title: Seq<char>,
    desc: Option<Seq<char>>,
    design: Option<Seq<char>>,
    acc: Option<Seq<char>>,
    ns: Seq<(Seq<char>, Seq<char>)>,
    ts: Seq<char>,
    b: Seq<char>,
)
    requires
        crate::roundtrip::writable_title(title),
        opt_section_text(desc),
        opt_section_text(design),
        opt_section_text(acc),
        writable_notes(ns),
        last_section_filled(desc, design, acc, ns),
        ns.len() > 0 || !crate::text::contains_str(file_text(md, title, desc, design, acc, ns), "## Notes"@),
    ensures
        crate::edit::with_note(file_text(md, title, desc, design, acc, ns), ts, b)
            == file_text(md, title, desc, design, acc, ns.push((ts, b))),
{
    reveal_strlit("## Notes");
    reveal_strlit("\n## Notes\n");
    reveal_strlit("\n\n## Notes\n");
    let c = file_text(md, title, desc, design, acc, ns);
    let parts = description_part(desc) + section_part(design_heading(), design) + section_part(acceptance_heading(), acc);
    let body = "# "@ + title + nl() + (parts + notes_section_text(ns));
    lemma_body_end(title, desc, design, acc, ns);
    let pre = "---\n"@ + lines_text(crate::roundtrip::meta_line_list(md)) + "---\n"@;
    assert(c =~= pre + body);
    assert(c.last() == '\n');
    assert(c.drop_last() =~= pre + body.drop_last());
    assert(c.drop_last().last() == body.drop_last().last());
    assert(trim_end(c) == trim_end(c.drop_last()));
    assert(trim_end(c.drop_last()) == c.drop_last());
    assert(c.drop_last() + nl() =~= c);
    let n = (ts, b);
    lemma_notes_text_push(ns, n);
    if ns.len() > 0 {
        // The Notes heading is in the file.
        let k = (pre.len() + "# "@.len() + title.len() + 1 + parts.len() + 1) as int;
        assert(notes_section_text(ns) == "\n## Notes\n"@ + notes_text(ns));
        assert(c.subrange(k, k + 8) =~= "## Notes"@);
        assert(crate::text::occurs_at(c, "## Notes"@, k));
        assert(file_text(md, title, desc, design, acc, ns.push(n)) =~= c + note_text(n));
    } else {
        assert(notes_section_text(ns) =~= Seq::<char>::empty());
        assert(ns.push(n) =~= seq![n]);
        assert(notes_text(seq![n]) == notes_text(Seq::<(Seq<char>, Seq<char>)>::empty()) + note_text(n)) by {
            assert(seq![n].drop_last() =~= Seq::<(Seq<char>, Seq<char>)>::empty());
        }
        assert(notes_text(Seq::<(Seq<char>, Seq<char>)>::empty()) =~= Seq::<char>::empty());
        assert(file_text(md, title, desc, design, acc, ns.push(n)) =~= c.drop_last() + "\n\n## Notes\n"@ + note_text(n));
    }
}


/// Adding a note to a written ticket, then reading its file: the file reads
/// back the ticket's notes with the new one last, its design and acceptance
/// criteria, its description (the empty text where there was none), and its
/// front matter and title as `lemma_text_roundtrip` says; for a ticket as
/// `lemma_body_roundtrip` asks, a timestamp that a note line writes and
/// reads back, a body that a section writes and reads back and that is not
/// empty, and a file that has notes already or holds no `## Notes` at all.
#[verifier::rlimit(60)]
#[verifier::spinoff_prover]
pub proof fn lemma_add_note_reads(
    t: crate::storage::Ticket,
    ts: Seq<char>,
    b: Seq<char>,
    default_id: Seq<char>,
    now: Seq<char>,
    r: crate::storage::Ticket,
)
    requires
        crate::roundtrip::writable_metadata(crate::roundtrip::meta_view(t.metadata)),
        crate::roundtrip::writable_title(t.data.title@),
        !crate::text::contains_str(crate::storage::metadata_lines(t.metadata), crate::storage::delimiter()),
        opt_section_text(crate::text::opt_view(t.data.description)),
        opt_section_text(crate::text::opt_view(t.data.design)),
        opt_section_text(crate::text::opt_view(t.data.acceptance)),
        writable_notes(notes_of(t.data)),
        last_section_filled(
            crate::text::opt_view(t.data.description),
            crate::text::opt_view(t.data.design),
            crate::text::opt_view(t.data.acceptance),
            notes_of(t.data),
        ),
        note_stamp(ts),
        note_body(b),
        b.len() > 0,
        notes_of(t.data).len() > 0 || !crate::text::contains_str(crate::storage::ticket_text(t), "## Notes"@),
    ensures
        crate::storage::parsed_as(r, crate::edit::with_note(crate::storage::ticket_text(t), ts, b), default_id, now) ==> {
            &&& crate::roundtrip::reads_back(r, crate::roundtrip::meta_view(t.metadata), t.data.title@, now)
            &&& crate::text::opt_view(r.data.description) == written_description(
                crate::text::opt_view(t.data.description),
                crate::text::opt_view(t.data.design),
                crate::text::opt_view(t.data.acceptance),
                notes_of(t.data).push((ts, b)),
            )
            &&& crate::text::opt_view(r.data.design) == crate::text::opt_view(t.data.design)
            &&& crate::text::opt_view(r.data.acceptance) == crate::text::opt_view(t.data.acceptance)
            &&& r.data.notes is Some
            &&& notes_of(r.data) == notes_of(t.data).push((ts, b))
        },
{
    let desc = crate::text::opt_view(t.data.description);
    let design = crate::text::opt_view(t.data.design);
    let acc = crate::text::opt_view(t.data.acceptance);
    let ns = notes_of(t.data);
    let ns2 = ns.push((ts, b));
    let title = t.data.title@;
    let md = crate::roundtrip::meta_view(t.metadata);
    crate::roundtrip::lemma_metadata_lines(t.metadata);
    crate::roundtrip::lemma_ticket_text_written(t);
    assert(notes_part(t.data.notes) =~= notes_section_text(ns));
    assert(crate::storage::ticket_text(t) == file_text(md, title, desc, design, acc, ns));
    lemma_note_added(md, title, desc, design, acc, ns, ts, b);
    assert forall|k: int| 0 <= k < ns2.len() implies note_stamp(#[trigger] ns2[k].0) && note_body(ns2[k].1) by {
        if k < ns.len() {
            assert(ns2[k] == ns[k]);
        }
    }
    let rest2 = description_part(desc) + section_part(design_heading(), design) + section_part(acceptance_heading(), acc)
        + notes_section_text(ns2);
    crate::roundtrip::lemma_written_reads(md, title, rest2, default_id, now, r);
    lemma_body_reads(title, desc, design, acc, ns2);
    lemma_named_written(desc, design, acc, ns2);
    lemma_notes_value(ns2);
}

} // verus!
