//! The markdown body of a ticket file: the `# ` title, the `## ` sections and
//! the timestamped notes.

use vstd::prelude::*;
use crate::text::{
    chars_of, join, lemma_join_push, line_bounds, lines, opt_view, starts_with, ends_with,
    string_of_range, trim, trim_bounds, views, range_starts_with, range_ends_with,
};
use crate::frontmatter::{lemma_strip_leading_skip, lemma_strip_trailing_take, strip_leading, strip_trailing};
use crate::graph::first_occurrences;
use crate::types::{Data, Note};

verus! {

// ---------------------------------------------------------------------------
// Specifications
// ---------------------------------------------------------------------------

pub open spec fn title_marker() -> Seq<char> { seq!['#', ' '] }
pub open spec fn section_marker() -> Seq<char> { seq!['#', '#', ' '] }
pub open spec fn note_marker() -> Seq<char> { seq!['*', '*'] }
pub open spec fn untitled() -> Seq<char> { seq!['U', 'n', 't', 'i', 't', 'l', 'e', 'd'] }
pub open spec fn newline() -> Seq<char> { seq!['\n'] }
pub open spec fn name_design() -> Seq<char> { seq!['D', 'e', 's', 'i', 'g', 'n'] }
pub open spec fn name_acceptance() -> Seq<char> {
    seq!['A', 'c', 'c', 'e', 'p', 't', 'a', 'n', 'c', 'e', ' ', 'C', 'r', 'i', 't', 'e', 'r', 'i', 'a']
}
pub open spec fn name_notes() -> Seq<char> { seq!['N', 'o', 't', 'e', 's'] }

/// `s` without any number of leading copies of `p` (`str::trim_start_matches`).
pub open spec fn strip_prefix_all(s: Seq<char>, p: Seq<char>) -> Seq<char>
    decreases s.len(),
{
    if p.len() > 0 && starts_with(s, p) {
        strip_prefix_all(s.skip(p.len() as int), p)
    } else {
        s
    }
}

/// The text of the first line that starts with `# `, without that marker.
pub open spec fn first_heading(ls: Seq<Seq<char>>) -> Option<Seq<char>>
    decreases ls.len(),
{
    if ls.len() == 0 {
        None
    } else if starts_with(trim(ls[0]), title_marker()) {
        Some(strip_prefix_all(trim(ls[0]), title_marker()))
    } else {
        first_heading(ls.drop_first())
    }
}

/// The title of a body: its first `# ` heading, else "Untitled".
pub open spec fn body_title(body: Seq<char>) -> Seq<char> {
    match first_heading(lines(body)) {
        Some(t) => t,
        None => untitled(),
    }
}

/// The state of splitting a body into sections.
pub ghost struct SectionState {
    pub name: Seq<char>,
    pub content: Seq<Seq<char>>,
    pub saved: Seq<(Seq<char>, Seq<char>)>,
}

/// The sections so far, with the current one saved when it has any line.
pub open spec fn flush_section(st: SectionState) -> Seq<(Seq<char>, Seq<char>)> {
    if st.content.len() > 0 {
        st.saved.push((st.name, trim(join(st.content, newline()))))
    } else {
        st.saved
    }
}

pub open spec fn section_step(st: SectionState, line: Seq<char>) -> SectionState {
    let t = trim(line);
    if starts_with(t, section_marker()) {
        SectionState {
            name: trim(strip_prefix_all(t, section_marker())),
            content: Seq::empty(),
            saved: flush_section(st),
        }
    } else if starts_with(t, title_marker()) {
        st
    } else {
        SectionState { content: st.content.push(line), ..st }
    }
}

pub open spec fn section_steps(st: SectionState, ls: Seq<Seq<char>>) -> SectionState
    decreases ls.len(),
{
    if ls.len() == 0 {
        st
    } else {
        section_step(section_steps(st, ls.drop_last()), ls.last())
    }
}

pub open spec fn initial_sections() -> SectionState {
    SectionState { name: Seq::empty(), content: Seq::empty(), saved: Seq::empty() }
}

/// The sections of a body, in order, as (heading, trimmed content): the text
/// before the first `## ` heading has the empty heading; sections with no
/// line are left out.
pub open spec fn sections(body: Seq<char>) -> Seq<(Seq<char>, Seq<char>)> {
    flush_section(section_steps(initial_sections(), lines(body)))
}

/// The content of the last section named `name`.
pub open spec fn section_named(secs: Seq<(Seq<char>, Seq<char>)>, name: Seq<char>) -> Option<Seq<char>>
    decreases secs.len(),
{
    if secs.len() == 0 {
        None
    } else if secs.last().0 == name {
        Some(secs.last().1)
    } else {
        section_named(secs.drop_last(), name)
    }
}

pub open spec fn is_known_section(name: Seq<char>) -> bool {
    name.len() == 0 || name == name_design() || name == name_acceptance() || name == name_notes()
}

/// The names among `names` that are not part of the known schema.
pub open spec fn unknown_names(names: Seq<Seq<char>>) -> Seq<Seq<char>>
    decreases names.len(),
{
    if names.len() == 0 {
        Seq::empty()
    } else if is_known_section(names.last()) {
        unknown_names(names.drop_last())
    } else {
        unknown_names(names.drop_last()).push(names.last())
    }
}

/// The headings of the sections that the known schema does not hold, each once.
pub open spec fn nonstandard_names(secs: Seq<(Seq<char>, Seq<char>)>) -> Seq<Seq<char>> {
    unknown_names(first_occurrences(secs.map_values(|s: (Seq<char>, Seq<char>)| s.0)))
}

/// The state of reading notes.
pub ghost struct NoteState {
    pub timestamp: Seq<char>,
    pub body: Seq<Seq<char>>,
    pub in_note: bool,
    pub notes: Seq<(Seq<char>, Seq<char>)>,
}

pub open spec fn flush_note(st: NoteState) -> Seq<(Seq<char>, Seq<char>)> {
    if st.timestamp.len() > 0 {
        st.notes.push((st.timestamp, trim(join(st.body, newline()))))
    } else {
        st.notes
    }
}

/// A line `**...**` opens a note whose timestamp is the line without the stars.
pub open spec fn note_step(st: NoteState, line: Seq<char>) -> NoteState {
    let t = trim(line);
    if starts_with(t, note_marker()) && ends_with(t, note_marker()) {
        NoteState {
            timestamp: strip_trailing(strip_leading(t, '*'), '*'),
            body: Seq::empty(),
            in_note: true,
            notes: flush_note(st),
        }
    } else if st.in_note {
        NoteState { body: st.body.push(line), ..st }
    } else {
        st
    }
}

pub open spec fn note_steps(st: NoteState, ls: Seq<Seq<char>>) -> NoteState
    decreases ls.len(),
{
    if ls.len() == 0 {
        st
    } else {
        note_step(note_steps(st, ls.drop_last()), ls.last())
    }
}

pub open spec fn initial_notes() -> NoteState {
    NoteState { timestamp: Seq::empty(), body: Seq::empty(), in_note: false, notes: Seq::empty() }
}

/// The notes of a Notes section, as (timestamp, trimmed body).
pub open spec fn notes_model(text: Seq<char>) -> Seq<(Seq<char>, Seq<char>)> {
    flush_note(note_steps(initial_notes(), lines(text)))
}

pub open spec fn note_views(notes: Seq<Note>) -> Seq<(Seq<char>, Seq<char>)> {
    notes.map_values(|n: Note| (n.timestamp@, n.body@))
}

/// What `parse_body` gives for the body text `body`.
pub open spec fn data_matches(d: Data, body: Seq<char>) -> bool {
    let b = trim(body);
    let secs = sections(b);
    &&& d.title@ == body_title(b)
    &&& opt_view(d.description) == section_named(secs, Seq::empty())
    &&& opt_view(d.design) == section_named(secs, name_design())
    &&& opt_view(d.acceptance) == section_named(secs, name_acceptance())
    &&& match section_named(secs, name_notes()) {
        Some(text) => d.notes is Some && note_views(d.notes->0@) == notes_model(text),
        None => d.notes is None,
    }
}

// ---------------------------------------------------------------------------
// Lemmas
// ---------------------------------------------------------------------------

proof fn lemma_section_steps_push(st: SectionState, ls: Seq<Seq<char>>, l: Seq<char>)
    ensures
        section_steps(st, ls.push(l)) == section_step(section_steps(st, ls), l),
{
    assert(ls.push(l).drop_last() =~= ls);
}

proof fn lemma_note_steps_push(st: NoteState, ls: Seq<Seq<char>>, l: Seq<char>)
    ensures
        note_steps(st, ls.push(l)) == note_step(note_steps(st, ls), l),
{
    assert(ls.push(l).drop_last() =~= ls);
}

// ---------------------------------------------------------------------------
// Executable functions
// ---------------------------------------------------------------------------

/// `strip_prefix_all(v[lo..hi], p)`, as the position where it starts.
fn strip_prefix_all_range(v: &Vec<char>, lo: usize, hi: usize, p: &Vec<char>) -> (r: usize)
    requires
        lo <= hi <= v.len(),
        p@.len() > 0,
    ensures
        lo <= r <= hi,
        v@.subrange(r as int, hi as int) == strip_prefix_all(v@.subrange(lo as int, hi as int), p@),
{
    let mut a = lo;
    while range_starts_with(v, a, hi, p)
        invariant
            lo <= a <= hi <= v.len(),
            p@.len() > 0,
            strip_prefix_all(v@.subrange(lo as int, hi as int), p@) == strip_prefix_all(v@.subrange(a as int, hi as int), p@),
        decreases hi - a,
    {
        assert(v@.subrange(a as int, hi as int).skip(p@.len() as int) =~= v@.subrange(a + p@.len(), hi as int));
        a = a + p.len();
    }
    a
}

/// The text of the lines `ls` of `v` joined with line feeds, trimmed.
fn joined_trimmed(v: &Vec<char>, ls: &Vec<(usize, usize)>) -> (r: String)
    requires
        forall|t: int| 0 <= t < ls@.len() ==> (#[trigger] ls@[t]).0 <= ls@[t].1 <= v@.len(),
    ensures
        r@ == trim(join(ls@.map_values(|b: (usize, usize)| v@.subrange(b.0 as int, b.1 as int)), newline())),
{
    let ghost parts = ls@.map_values(|b: (usize, usize)| v@.subrange(b.0 as int, b.1 as int));
    let mut buf: Vec<char> = Vec::new();
    for k in 0..ls.len()
        invariant
            parts == ls@.map_values(|b: (usize, usize)| v@.subrange(b.0 as int, b.1 as int)),
            forall|t: int| 0 <= t < ls@.len() ==> (#[trigger] ls@[t]).0 <= ls@[t].1 <= v@.len(),
            buf@ == join(parts.take(k as int), newline()),
    {
        proof {
            assert(parts.take(k + 1) =~= parts.take(k as int).push(parts[k as int]));
            lemma_join_push(parts.take(k as int), newline(), parts[k as int]);
        }
        if k > 0 {
            buf.push('\n');
        }
        let (a, b) = ls[k];
        let mut i = a;
        let ghost start = buf@;
        while i < b
            invariant
                a <= i <= b <= v@.len(),
                buf@ == start + v@.subrange(a as int, i as int),
            decreases b - i,
        {
            buf.push(v[i]);
            assert(buf@ =~= start + v@.subrange(a as int, i + 1));
            i = i + 1;
        }
        proof {
            if k == 0 {
                assert(buf@ =~= parts[0]);
            } else {
                assert(buf@ =~= join(parts.take(k as int), newline()) + newline() + parts[k as int]);
            }
        }
    }
    assert(parts.take(ls@.len() as int) =~= parts);
    let (x, y) = trim_bounds(&buf, 0, buf.len());
    assert(buf@.subrange(0, buf@.len() as int) =~= buf@);
    string_of_range(&buf, x, y)
}

pub open spec fn range_texts(v: Seq<char>, ls: Seq<(usize, usize)>) -> Seq<Seq<char>> {
    ls.map_values(|b: (usize, usize)| v.subrange(b.0 as int, b.1 as int))
}

/// Parse the notes of a Notes section: each `**timestamp**` line opens a
/// note, whose body is the following lines, trimmed.
pub fn parse_notes(text: &str) -> (r: Vec<Note>)
    ensures
        note_views(r@) == notes_model(text@),
{
    let v = chars_of(text);
    let ls = line_bounds(&v, 0, v.len());
    let ghost all = lines(text@);
    assert(v@.subrange(0, v@.len() as int) =~= v@);
    let star: Vec<char> = vec!['*', '*'];
    let mut notes: Vec<Note> = Vec::new();
    let mut timestamp = String::new();
    let mut body: Vec<(usize, usize)> = Vec::new();
    let mut in_note = false;
    let ghost mut st = initial_notes();
    proof {
        assert(note_views(notes@) =~= st.notes);
        assert(range_texts(v@, body@) =~= st.body);
    }
    for k in 0..ls.len()
        invariant
            v@ == text@,
            star@ == note_marker(),
            all == lines(text@),
            ls@.len() == all.len(),
            forall|t: int| 0 <= t < ls@.len() ==> (#[trigger] ls@[t]).0 <= ls@[t].1 <= v@.len(),
            forall|t: int| 0 <= t < ls@.len() ==> v@.subrange(#[trigger] ls@[t].0 as int, ls@[t].1 as int) == all[t],
            forall|t: int| 0 <= t < body@.len() ==> (#[trigger] body@[t]).0 <= body@[t].1 <= v@.len(),
            st == note_steps(initial_notes(), all.take(k as int)),
            note_views(notes@) == st.notes,
            timestamp@ == st.timestamp,
            range_texts(v@, body@) == st.body,
            in_note == st.in_note,
    {
        let (a, b) = ls[k];
        proof {
            assert(all.take(k + 1) =~= all.take(k as int).push(all[k as int]));
            lemma_note_steps_push(initial_notes(), all.take(k as int), all[k as int]);
        }
        let (x, y) = trim_bounds(&v, a, b);
        if range_starts_with(&v, x, y, &star) && range_ends_with(&v, x, y, &star) {
            if !timestamp.as_str().is_empty() {
                let bt = joined_trimmed(&v, &body);
                let ghost before = note_views(notes@);
                notes.push(Note { timestamp, body: bt });
                assert(note_views(notes@) =~= before.push((st.timestamp, trim(join(st.body, newline())))));
            }
            let mut p = x;
            while p < y && v[p] == '*'
                invariant
                    x <= p <= y <= v@.len(),
                    forall|j: int| x <= j < p ==> v@[j] == '*',
                decreases y - p,
            {
                p = p + 1;
            }
            let mut q = y;
            while q > p && v[q - 1] == '*'
                invariant
                    p <= q <= y <= v@.len(),
                    forall|j: int| q <= j < y ==> v@[j] == '*',
                decreases q - p,
            {
                q = q - 1;
            }
            proof {
                lemma_strip_stars(v@, x as int, p as int, q as int, y as int);
            }
            timestamp = string_of_range(&v, p, q);
            body = Vec::new();
            in_note = true;
            proof {
                st = note_step(st, all[k as int]);
                assert(range_texts(v@, body@) =~= st.body);
            }
        } else if in_note {
            body.push((a, b));
            proof {
                st = note_step(st, all[k as int]);
                assert(range_texts(v@, body@) =~= st.body);
            }
        } else {
            proof {
                st = note_step(st, all[k as int]);
            }
        }
    }
    proof {
        assert(all.take(ls@.len() as int) =~= all);
    }
    if !timestamp.as_str().is_empty() {
        let bt = joined_trimmed(&v, &body);
        let ghost before = note_views(notes@);
        notes.push(Note { timestamp, body: bt });
        assert(note_views(notes@) =~= before.push((st.timestamp, trim(join(st.body, newline())))));
    }
    notes
}

/// The stars trimmed off both ends of `v[x..y]` leave `v[p..q]`.
proof fn lemma_strip_stars(v: Seq<char>, x: int, p: int, q: int, y: int)
    requires
        0 <= x <= p <= q <= y <= v.len(),
        forall|j: int| x <= j < p ==> v[j] == '*',
        p < y ==> v[p] != '*',
        forall|j: int| q <= j < y ==> v[j] == '*',
        q > p ==> v[q - 1] != '*',
    ensures
        strip_trailing(strip_leading(v.subrange(x, y), '*'), '*') == v.subrange(p, q),
{
    let s = v.subrange(x, y);
    assert forall|j: int| 0 <= j < p - x implies s[j] == '*' by { assert(s[j] == v[x + j]); }
    lemma_strip_leading_skip(s, '*', p - x);
    assert(s.skip(p - x) =~= v.subrange(p, y));
    let u = v.subrange(p, y);
    if p < y {
        assert(u[0] == v[p]);
    }
    assert(strip_leading(u, '*') == u);
    assert forall|j: int| q - p <= j < u.len() implies u[j] == '*' by { assert(u[j] == v[p + j]); }
    lemma_strip_trailing_take(u, '*', q - p);
    assert(u.take(q - p) =~= v.subrange(p, q));
    if q > p {
        assert(v.subrange(p, q).last() == v[q - 1]);
    }
}

proof fn lemma_first_heading_skip(ls: Seq<Seq<char>>, k: int)
    requires
        0 <= k <= ls.len(),
        forall|j: int| 0 <= j < k ==> !starts_with(trim(#[trigger] ls[j]), title_marker()),
    ensures
        first_heading(ls) == first_heading(ls.skip(k)),
    decreases k,
{
    if k > 0 {
        assert(ls.drop_first().skip(k - 1) =~= ls.skip(k));
        assert forall|j: int| 0 <= j < k - 1 implies !starts_with(trim(#[trigger] ls.drop_first()[j]), title_marker()) by {
            assert(ls.drop_first()[j] == ls[j + 1]);
        }
        lemma_first_heading_skip(ls.drop_first(), k - 1);
    } else {
        assert(ls.skip(0) =~= ls);
    }
}

/// The title of the body whose lines are `ls` in `v`.
fn title_of_lines(v: &Vec<char>, ls: &Vec<(usize, usize)>, Ghost(all): Ghost<Seq<Seq<char>>>) -> (r: String)
    requires
        ls@.len() == all.len(),
        forall|t: int| 0 <= t < ls@.len() ==> (#[trigger] ls@[t]).0 <= ls@[t].1 <= v@.len(),
        forall|t: int| 0 <= t < ls@.len() ==> v@.subrange(#[trigger] ls@[t].0 as int, ls@[t].1 as int) == all[t],
    ensures
        r@ == match first_heading(all) {
            Some(t) => t,
            None => untitled(),
        },
{
    let marker: Vec<char> = vec!['#', ' '];
    let mut k: usize = 0;
    while k < ls.len()
        invariant
            k <= ls@.len(),
            marker@ == title_marker(),
            ls@.len() == all.len(),
            forall|t: int| 0 <= t < ls@.len() ==> (#[trigger] ls@[t]).0 <= ls@[t].1 <= v@.len(),
            forall|t: int| 0 <= t < ls@.len() ==> v@.subrange(#[trigger] ls@[t].0 as int, ls@[t].1 as int) == all[t],
            forall|j: int| 0 <= j < k ==> !starts_with(trim(#[trigger] all[j]), title_marker()),
        decreases ls@.len() - k,
    {
        let (a, b) = ls[k];
        let (x, y) = trim_bounds(v, a, b);
        if range_starts_with(v, x, y, &marker) {
            let p = strip_prefix_all_range(v, x, y, &marker);
            proof {
                lemma_first_heading_skip(all, k as int);
                assert(all.skip(k as int)[0] == all[k as int]);
            }
            return string_of_range(v, p, y);
        }
        k = k + 1;
    }
    proof {
        lemma_first_heading_skip(all, k as int);
        assert(all.skip(k as int).len() == 0);
    }
    let u = crate::text::owned("Untitled");
    proof { reveal_strlit("Untitled"); assert(u@ =~= untitled()); }
    u
}

pub open spec fn saved_views(saved: Seq<(String, String)>) -> Seq<(Seq<char>, Seq<char>)> {
    saved.map_values(|p: (String, String)| (p.0@, p.1@))
}

/// The sections of the body whose lines are `ls` in `v`.
fn sections_of_lines(v: &Vec<char>, ls: &Vec<(usize, usize)>, Ghost(all): Ghost<Seq<Seq<char>>>) -> (r: Vec<(String, String)>)
    requires
        ls@.len() == all.len(),
        forall|t: int| 0 <= t < ls@.len() ==> (#[trigger] ls@[t]).0 <= ls@[t].1 <= v@.len(),
        forall|t: int| 0 <= t < ls@.len() ==> v@.subrange(#[trigger] ls@[t].0 as int, ls@[t].1 as int) == all[t],
    ensures
        saved_views(r@) == flush_section(section_steps(initial_sections(), all)),
{
    let sec: Vec<char> = vec!['#', '#', ' '];
    let title: Vec<char> = vec!['#', ' '];
    let mut name = String::new();
    let mut content: Vec<(usize, usize)> = Vec::new();
    let mut saved: Vec<(String, String)> = Vec::new();
    let ghost mut st = initial_sections();
    proof {
        assert(saved_views(saved@) =~= st.saved);
        assert(range_texts(v@, content@) =~= st.content);
    }
    for k in 0..ls.len()
        invariant
            sec@ == section_marker(),
            title@ == title_marker(),
            ls@.len() == all.len(),
            forall|t: int| 0 <= t < ls@.len() ==> (#[trigger] ls@[t]).0 <= ls@[t].1 <= v@.len(),
            forall|t: int| 0 <= t < ls@.len() ==> v@.subrange(#[trigger] ls@[t].0 as int, ls@[t].1 as int) == all[t],
            forall|t: int| 0 <= t < content@.len() ==> (#[trigger] content@[t]).0 <= content@[t].1 <= v@.len(),
            st == section_steps(initial_sections(), all.take(k as int)),
            saved_views(saved@) == st.saved,
            name@ == st.name,
            range_texts(v@, content@) == st.content,
    {
        let (a, b) = ls[k];
        proof {
            assert(all.take(k + 1) =~= all.take(k as int).push(all[k as int]));
            lemma_section_steps_push(initial_sections(), all.take(k as int), all[k as int]);
        }
        let (x, y) = trim_bounds(v, a, b);
        if range_starts_with(v, x, y, &sec) {
            if content.len() > 0 {
                let text = joined_trimmed(v, &content);
                let ghost before = saved_views(saved@);
                saved.push((name, text));
                assert(saved_views(saved@) =~= before.push((st.name, trim(join(st.content, newline())))));
            }
            let p = strip_prefix_all_range(v, x, y, &sec);
            let (na, nb) = trim_bounds(v, p, y);
            name = string_of_range(v, na, nb);
            content = Vec::new();
            proof {
                st = section_step(st, all[k as int]);
                assert(range_texts(v@, content@) =~= st.content);
            }
        } else if range_starts_with(v, x, y, &title) {
            proof {
                st = section_step(st, all[k as int]);
            }
        } else {
            content.push((a, b));
            proof {
                st = section_step(st, all[k as int]);
                assert(range_texts(v@, content@) =~= st.content);
            }
        }
    }
    proof {
        assert(all.take(ls@.len() as int) =~= all);
    }
    if content.len() > 0 {
        let text = joined_trimmed(v, &content);
        let ghost before = saved_views(saved@);
        saved.push((name, text));
        assert(saved_views(saved@) =~= before.push((st.name, trim(join(st.content, newline())))));
    }
    saved
}

/// The content of the last section named `name`, if any.
fn find_section(saved: &Vec<(String, String)>, name: &Vec<char>) -> (r: Option<String>)
    ensures
        opt_view(r) == section_named(saved_views(saved@), name@),
{
    let ghost sv = saved_views(saved@);
    let mut i = saved.len();
    assert(sv.take(i as int) =~= sv);
    while i > 0
        invariant
            i <= saved@.len(),
            sv == saved_views(saved@),
            section_named(sv, name@) == section_named(sv.take(i as int), name@),
        decreases i,
    {
        proof {
            assert(sv.take(i as int).drop_last() =~= sv.take(i - 1));
        }
        let n = chars_of(saved[i - 1].0.as_str());
        if crate::types::chars_eq(&n, name) {
            return Some(saved[i - 1].1.clone());
        }
        i = i - 1;
    }
    None
}

/// The headings of `saved` that the known schema does not hold, each once, in order.
fn nonstandard_of(saved: &Vec<(String, String)>) -> (r: Vec<String>)
    ensures
        views(r@) == nonstandard_names(saved_views(saved@)),
{
    let ghost names = saved_views(saved@).map_values(|s: (Seq<char>, Seq<char>)| s.0);
    let mut firsts: Vec<String> = Vec::new();
    for k in 0..saved.len()
        invariant
            names == saved_views(saved@).map_values(|s: (Seq<char>, Seq<char>)| s.0),
            views(firsts@) == first_occurrences(names.take(k as int)),
    {
        proof {
            assert(names.take(k + 1).drop_last() =~= names.take(k as int));
            assert(names[k as int] == saved@[k as int].0@);
        }
        if !crate::graph::contains_string(&firsts, &saved[k].0) {
            let ghost before = views(firsts@);
            firsts.push(saved[k].0.clone());
            assert(views(firsts@) =~= before.push(names[k as int]));
        }
    }
    assert(names.take(saved@.len() as int) =~= names);
    let ghost fs = views(firsts@);
    let mut r: Vec<String> = Vec::new();
    for k in 0..firsts.len()
        invariant
            fs == views(firsts@),
            views(r@) == unknown_names(fs.take(k as int)),
    {
        proof {
            assert(fs.take(k + 1).drop_last() =~= fs.take(k as int));
        }
        let n = chars_of(firsts[k].as_str());
        let known = n.len() == 0
            || crate::types::chars_eq(&n, &vec!['D', 'e', 's', 'i', 'g', 'n'])
            || crate::types::chars_eq(&n, &vec!['A', 'c', 'c', 'e', 'p', 't', 'a', 'n', 'c', 'e', ' ', 'C', 'r', 'i', 't', 'e', 'r', 'i', 'a'])
            || crate::types::chars_eq(&n, &vec!['N', 'o', 't', 'e', 's']);
        if !known {
            let ghost before = views(r@);
            r.push(firsts[k].clone());
            assert(views(r@) =~= before.push(fs[k as int]));
        }
    }
    assert(fs.take(firsts@.len() as int) =~= fs);
    r
}

/// Parse the body of a ticket (the markdown after the front matter): the
/// title, the known sections, and the headings of the unknown ones.
pub fn parse_body(body_str: &str) -> (r: (Data, Vec<String>))
    ensures
        data_matches(r.0, body_str@),
        views(r.1@) == nonstandard_names(sections(trim(body_str@))),
{
    let v = chars_of(body_str);
    let (a, b) = trim_bounds(&v, 0, v.len());
    assert(v@.subrange(0, v@.len() as int) =~= v@);
    let ghost body = v@.subrange(a as int, b as int);
    let ls = line_bounds(&v, a, b);
    let title = title_of_lines(&v, &ls, Ghost(lines(body)));
    let saved = sections_of_lines(&v, &ls, Ghost(lines(body)));
    let no_name: Vec<char> = Vec::new();
    let description = find_section(&saved, &no_name);
    let design = find_section(&saved, &vec!['D', 'e', 's', 'i', 'g', 'n']);
    let acceptance = find_section(&saved, &vec!['A', 'c', 'c', 'e', 'p', 't', 'a', 'n', 'c', 'e', ' ', 'C', 'r', 'i', 't', 'e', 'r', 'i', 'a']);
    let notes = match find_section(&saved, &vec!['N', 'o', 't', 'e', 's']) {
        Some(text) => Some(parse_notes(text.as_str())),
        None => None,
    };
    let nonstd = nonstandard_of(&saved);
    assert(no_name@ =~= Seq::<char>::empty());
    let data = Data { title, description, design, acceptance, notes };
    (data, nonstd)
}

} // verus!
