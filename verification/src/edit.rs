//! Edits of ticket file text: replacing a front matter field, adding the
//! `open:` field, appending a note.

use vstd::prelude::*;
use crate::frontmatter::range_eq;
use crate::render::{bool_text, nl};
use crate::text::{
    chars_of, index_of, join, join_strings, line_bounds, lines, push_char, push_str, range_starts_with, starts_with,
    string_of_range, trim, trim_bounds, trim_end, views,
};

verus! {

pub open spec fn delimiter_line() -> Seq<char> {
    seq!['-', '-', '-']
}

// ---------------------------------------------------------------------------
// Replacing a field
// ---------------------------------------------------------------------------

/// Where a field replacement stands after some lines: inside the front
/// matter or not, whether the front matter was closed, whether the field was
/// met, and the lines kept so far.
pub ghost struct ReplaceState {
    pub in_frontmatter: bool,
    pub closed: bool,
    pub found: bool,
    pub out: Seq<Seq<char>>,
}

/// One line of a field replacement: until the front matter is closed, a
/// `---` line opens or closes it; inside it, the first line that starts with
/// `field:` becomes `field: value` and later ones are dropped; every other
/// line, the body's `---` lines among them, is kept.
pub open spec fn replace_step(st: ReplaceState, l: Seq<char>, field: Seq<char>, value: Seq<char>) -> ReplaceState {
    if trim(l) == delimiter_line() && !st.closed {
        ReplaceState { in_frontmatter: !st.in_frontmatter, closed: st.in_frontmatter, found: st.found, out: st.out.push(l) }
    } else if st.in_frontmatter && starts_with(l, field + seq![':']) {
        if !st.found {
            ReplaceState { found: true, out: st.out.push(field + seq![':', ' '] + value), ..st }
        } else {
            st
        }
    } else {
        ReplaceState { out: st.out.push(l), ..st }
    }
}

pub open spec fn replace_steps(ls: Seq<Seq<char>>, field: Seq<char>, value: Seq<char>) -> ReplaceState
    decreases ls.len(),
{
    if ls.len() == 0 {
        ReplaceState { in_frontmatter: false, closed: false, found: false, out: Seq::empty() }
    } else {
        replace_step(replace_steps(ls.drop_last(), field, value), ls.last(), field, value)
    }
}

/// The file text with the front matter field `field` set to `value`, or
/// `None` where the front matter has no such field.
pub open spec fn replaced_field(content: Seq<char>, field: Seq<char>, value: Seq<char>) -> Option<Seq<char>> {
    let st = replace_steps(lines(content), field, value);
    if st.found {
        Some(join(st.out, nl()) + nl())
    } else {
        None
    }
}

/// Set the front matter field `field` of the ticket file text `content` to
/// `value`: the first `field:` line of the front matter is replaced and
/// later ones in the front matter dropped; the body is left as it is; the
/// lines are written back each ended by a line feed. `None` where the
/// front matter has no such field.
pub fn replace_field(content: &str, field: &str, value: &str) -> (r: Option<String>)
    ensures
        opt_seq(r) == replaced_field(content@, field@, value@),
{
    let v = chars_of(content);
    assert(v@.subrange(0, v@.len() as int) =~= v@);
    let ls = line_bounds(&v, 0, v.len());
    let ghost all = lines(content@);
    let mut key = crate::text::owned(field);
    push_char(&mut key, ':');
    let kv = chars_of(key.as_str());
    let mut new_line = crate::text::owned(key.as_str());
    push_char(&mut new_line, ' ');
    push_str(&mut new_line, value);
    assert(new_line@ =~= field@ + seq![':', ' '] + value@);
    let delim: Vec<char> = vec!['-', '-', '-'];
    let mut in_frontmatter = false;
    let mut closed = false;
    let mut found = false;
    let mut out: Vec<String> = Vec::new();
    for k in 0..ls.len()
        invariant
            ls@.len() == all.len(),
            all == lines(v@),
            forall|t: int| 0 <= t < ls@.len() ==> {
                &&& 0 <= (#[trigger] ls@[t]).0 <= ls@[t].1 <= v@.len()
                &&& v@.subrange(ls@[t].0 as int, ls@[t].1 as int) == all[t]
            },
            kv@ == field@ + seq![':'],
            new_line@ == field@ + seq![':', ' '] + value@,
            delim@ == delimiter_line(),
            ({
                let st = replace_steps(all.take(k as int), field@, value@);
                st.in_frontmatter == in_frontmatter && st.closed == closed && st.found == found && st.out == views(out@)
            }),
    {
        let (a, b) = ls[k];
        let ghost l = all[k as int];
        proof {
            assert(all.take(k + 1).drop_last() =~= all.take(k as int));
            assert(all.take(k + 1).last() == l);
        }
        let (x, y) = trim_bounds(&v, a, b);
        if !closed && range_eq(&v, x, y, &delim) {
            closed = in_frontmatter;
            in_frontmatter = !in_frontmatter;
            out.push(string_of_range(&v, a, b));
            assert(views(out@) =~= replace_steps(all.take(k + 1), field@, value@).out);
        } else if in_frontmatter && range_starts_with(&v, a, b, &kv) {
            if !found {
                out.push(crate::text::copy_string(&new_line));
                found = true;
                assert(views(out@) =~= replace_steps(all.take(k + 1), field@, value@).out);
            }
        } else {
            out.push(string_of_range(&v, a, b));
            assert(views(out@) =~= replace_steps(all.take(k + 1), field@, value@).out);
        }
    }
    assert(all.take(ls@.len() as int) =~= all);
    if !found {
        return None;
    }
    let mut text = join_strings(&out, "\n");
    proof { reveal_strlit("\n"); assert("\n"@ =~= nl()); }
    push_char(&mut text, '\n');
    Some(text)
}

pub open spec fn opt_seq(o: Option<String>) -> Option<Seq<char>> {
    match o {
        Some(s) => Some(s@),
        None => None,
    }
}

// ---------------------------------------------------------------------------
// Adding the `open:` field
// ---------------------------------------------------------------------------

/// The first line at or after `i` that is `---` once trimmed.
pub open spec fn delim_from(ls: Seq<Seq<char>>, i: int) -> Option<int>
    decreases ls.len() - i,
{
    if i < 0 || i >= ls.len() {
        None
    } else if trim(ls[i]) == delimiter_line() {
        Some(i)
    } else {
        delim_from(ls, i + 1)
    }
}

/// The first line at or after `i` that starts with `p` once trimmed.
pub open spec fn prefixed_from(ls: Seq<Seq<char>>, i: int, p: Seq<char>) -> Option<int>
    decreases ls.len() - i,
{
    if i < 0 || i >= ls.len() {
        None
    } else if starts_with(trim(ls[i]), p) {
        Some(i)
    } else {
        prefixed_from(ls, i + 1, p)
    }
}

/// The value of the `status:` line of front matter lines, or nothing.
pub open spec fn status_value(fm: Seq<Seq<char>>) -> Seq<char> {
    match prefixed_from(fm, 0, "status:"@) {
        Some(i) => trim(trim(fm[i]).skip(7)),
        None => Seq::empty(),
    }
}

/// Where the `open:` line goes in the file whose front matter opens at line
/// `s`: after the `status:` line, else after the `id:` line, else first.
pub open spec fn open_line_at(fm: Seq<Seq<char>>, s: int) -> int {
    match prefixed_from(fm, 0, "status:"@) {
        Some(i) => s + 2 + i,
        None => match prefixed_from(fm, 0, "id:"@) {
            Some(i) => s + 2 + i,
            None => s + 1,
        },
    }
}

/// The file text with an `open:` line added to its front matter, and the
/// value written; `None` where the file has no front matter block or its
/// front matter already has an `open:` line.
pub open spec fn with_open_field(content: Seq<char>) -> Option<(Seq<char>, bool)> {
    let ls = lines(content);
    match delim_from(ls, 0) {
        None => None,
        Some(s) => match delim_from(ls, s + 1) {
            None => None,
            Some(e) => {
                let fm = ls.subrange(s + 1, e);
                if prefixed_from(fm, 0, "open:"@) is Some {
                    None
                } else {
                    let open = status_value(fm) != "closed"@;
                    let new_ls = ls.insert(open_line_at(fm, s), "open: "@ + bool_text(open));
                    let tail = if crate::text::ends_with(content, nl()) { nl() } else { Seq::<char>::empty() };
                    Some((join(new_ls, nl()) + tail, open))
                }
            },
        },
    }
}

/// The strings of the lines of `s`.
fn line_strings(s: &str) -> (r: Vec<String>)
    ensures
        views(r@) == lines(s@),
{
    let v = chars_of(s);
    assert(v@.subrange(0, v@.len() as int) =~= v@);
    let ls = line_bounds(&v, 0, v.len());
    let ghost all = lines(s@);
    let mut r: Vec<String> = Vec::new();
    for k in 0..ls.len()
        invariant
            ls@.len() == all.len(),
            all == lines(v@),
            v@ == s@,
            forall|t: int| 0 <= t < ls@.len() ==> {
                &&& 0 <= (#[trigger] ls@[t]).0 <= ls@[t].1 <= v@.len()
                &&& v@.subrange(ls@[t].0 as int, ls@[t].1 as int) == all[t]
            },
            views(r@) == all.take(k as int),
    {
        let (a, b) = ls[k];
        let piece = string_of_range(&v, a, b);
        let ghost before = r@;
        r.push(piece);
        assert(all.take(k + 1) =~= all.take(k as int).push(all[k as int]));
        assert(views(r@) =~= views(before).push(piece@));
    }
    assert(all.take(ls@.len() as int) =~= all);
    r
}

/// The first line at or after `from` that is `---` once trimmed.
fn find_delim(ls: &Vec<String>, from: usize) -> (r: Option<usize>)
    ensures
        match r {
            Some(i) => delim_from(views(ls@), from as int) == Some(i as int) && from <= i < ls@.len(),
            None => delim_from(views(ls@), from as int) is None,
        },
{
    let ghost vs = views(ls@);
    let mut i = from;
    let delim = crate::text::owned("---");
    proof { reveal_strlit("---"); assert(delim@ =~= delimiter_line()); }
    while i < ls.len()
        invariant
            from <= i,
            vs == views(ls@),
            delim@ == delimiter_line(),
            delim_from(vs, from as int) == delim_from(vs, i as int),
        decreases ls.len() - i,
    {
        let t = crate::text::trimmed(ls[i].as_str());
        if crate::text::str_eq(&t, &delim) {
            return Some(i);
        }
        i = i + 1;
    }
    None
}

/// The first of the lines `ls[lo..hi]` that starts with `p` once trimmed,
/// counted from `lo`.
fn find_prefixed(ls: &Vec<String>, lo: usize, hi: usize, p: &str) -> (r: Option<usize>)
    requires
        lo <= hi <= ls@.len(),
    ensures
        match r {
            Some(i) => prefixed_from(views(ls@).subrange(lo as int, hi as int), 0, p@) == Some(i as int) && i < hi - lo,
            None => prefixed_from(views(ls@).subrange(lo as int, hi as int), 0, p@) is None,
        },
{
    let ghost fm = views(ls@).subrange(lo as int, hi as int);
    let q = crate::text::owned(p);
    let mut i = lo;
    while i < hi
        invariant
            lo <= i <= hi <= ls@.len(),
            fm == views(ls@).subrange(lo as int, hi as int),
            q@ == p@,
            prefixed_from(fm, 0, p@) == prefixed_from(fm, i - lo, p@),
        decreases hi - i,
    {
        let t = crate::text::trimmed(ls[i].as_str());
        assert(fm[i - lo] == ls@[i as int]@);
        if crate::text::str_starts_with(&t, &q) {
            return Some(i - lo);
        }
        i = i + 1;
    }
    None
}

proof fn lemma_prefixed_from(ls: Seq<Seq<char>>, j: int, p: Seq<char>)
    ensures
        prefixed_from(ls, j, p) matches Some(i) ==> j <= i < ls.len() && starts_with(trim(ls[i]), p),
    decreases ls.len() - j,
{
    if 0 <= j < ls.len() && !starts_with(trim(ls[j]), p) {
        lemma_prefixed_from(ls, j + 1, p);
    }
}

/// The front matter of the file text `content` has an `open:` line.
pub open spec fn has_open_field(content: Seq<char>) -> bool {
    let ls = lines(content);
    match delim_from(ls, 0) {
        None => false,
        Some(s) => match delim_from(ls, s + 1) {
            None => false,
            Some(e) => prefixed_from(ls.subrange(s + 1, e), 0, "open:"@) is Some,
        },
    }
}

/// Whether the front matter of the file text `content` has an `open:` line.
pub fn front_matter_has_open(content: &str) -> (r: bool)
    ensures
        r == has_open_field(content@),
{
    let ls = line_strings(content);
    let s = match find_delim(&ls, 0) {
        Some(s) => s,
        None => { return false; },
    };
    let e = match find_delim(&ls, s + 1) {
        Some(e) => e,
        None => { return false; },
    };
    find_prefixed(&ls, s + 1, e, "open:").is_some()
}

/// Add an `open:` field to the front matter of the ticket file text
/// `content`: `false` where its `status:` is `closed`, else `true`, on a line
/// after the `status:` line (or after the `id:` line, or first). Returns the
/// new text and the value; `None` where the file has no front matter block or
/// already has an `open:` line.
pub fn insert_open_field(content: &str) -> (r: Option<(String, bool)>)
    ensures
        match r {
            Some((text, open)) => with_open_field(content@) == Some((text@, open)),
            None => with_open_field(content@) is None,
        },
{
    let mut ls = line_strings(content);
    let ghost all = lines(content@);
    let n = ls.len();
    let s = match find_delim(&ls, 0) {
        Some(s) => s,
        None => { return None; },
    };
    assert(s < n);
    let e = match find_delim(&ls, s + 1) {
        Some(e) => e,
        None => { return None; },
    };
    let ghost fm = all.subrange(s + 1, e as int);
    if find_prefixed(&ls, s + 1, e, "open:").is_some() {
        return None;
    }
    let st = find_prefixed(&ls, s + 1, e, "status:");
    let value = match st {
        Some(i) => {
            let t = crate::text::trimmed(ls[s + 1 + i].as_str());
            let tv = chars_of(t.as_str());
            proof { reveal_strlit("status:"); }
            let (x, y) = trim_bounds(&tv, if 7 <= tv.len() { 7 } else { tv.len() }, tv.len());
            proof {
                assert(fm[i as int] == ls@[s + 1 + i]@);
                lemma_prefixed_from(fm, 0, "status:"@);
                assert(tv@.subrange(7, tv@.len() as int) =~= t@.skip(7));
            }
            string_of_range(&tv, x, y)
        },
        None => String::new(),
    };
    assert(value@ == status_value(fm));
    let closed = crate::text::owned("closed");
    let open = !crate::text::str_eq(&value, &closed);
    let at = match st {
        Some(i) => s + 2 + i,
        None => match find_prefixed(&ls, s + 1, e, "id:") {
            Some(i) => s + 2 + i,
            None => s + 1,
        },
    };
    let mut line = crate::text::owned("open: ");
    push_str(&mut line, if open { "true" } else { "false" });
    let ghost before = views(ls@);
    ls.insert(at, line);
    assert(views(ls@) =~= before.insert(at as int, "open: "@ + bool_text(open)));
    let mut text = join_strings(&ls, "\n");
    proof { reveal_strlit("\n"); assert("\n"@ =~= nl()); }
    let cv = chars_of(content);
    if cv.len() > 0 && cv[cv.len() - 1] == '\n' {
        push_char(&mut text, '\n');
        assert(content@.skip(content@.len() - 1) =~= nl());
    } else {
        if cv.len() > 0 {
            assert(content@.skip(content@.len() - 1)[0] != nl()[0]);
        }
        assert(text@ + Seq::<char>::empty() =~= text@);
    }
    Some((text, open))
}

// ---------------------------------------------------------------------------
// Appending a note
// ---------------------------------------------------------------------------

/// The file text with the note `(timestamp, body)` appended: to the Notes
/// section where the text has one, else under a new Notes heading.
pub open spec fn with_note(content: Seq<char>, timestamp: Seq<char>, body: Seq<char>) -> Seq<char> {
    let note = crate::render::note_text((timestamp, body));
    if crate::text::contains_str(content, "## Notes"@) {
        trim_end(content) + nl() + note
    } else {
        trim_end(content) + "\n\n## Notes\n"@ + note
    }
}

/// The length of `v` without its trailing white space.
fn trim_end_len(v: &Vec<char>) -> (n: usize)
    ensures
        n <= v@.len(),
        v@.take(n as int) == trim_end(v@),
{
    let mut n = v.len();
    while n > 0 && crate::text::is_whitespace(v[n - 1])
        invariant
            n <= v@.len(),
            forall|j: int| n <= j < v@.len() ==> crate::text::is_ws(v@[j]),
        decreases n,
    {
        n = n - 1;
    }
    proof {
        crate::text::lemma_trim_end_take(v@, n as int);
        assert(v@.take(n as int).take(n as int) =~= v@.take(n as int));
        if n > 0 {
            assert(v@.take(n as int).last() == v@[n - 1]);
        }
    }
    n
}

/// Append the note `body`, stamped `timestamp`, to the ticket file text
/// `content`: after the text, trimmed at its end, and under a new `## Notes`
/// heading where the text has none.
pub fn append_note(content: &str, timestamp: &str, body: &str) -> (r: String)
    ensures
        r@ == with_note(content@, timestamp@, body@),
{
    let v = chars_of(content);
    let n = trim_end_len(&v);
    let mut out = string_of_range(&v, 0, n);
    assert(v@.subrange(0, n as int) =~= v@.take(n as int));
    let heading = crate::text::owned("## Notes");
    let whole = crate::text::owned(content);
    let ghost base = out@;
    if crate::text::str_contains(&whole, &heading) {
        push_char(&mut out, '\n');
    } else {
        push_str(&mut out, "\n\n## Notes\n");
    }
    let ghost mid = out@;
    push_str(&mut out, "\n**");
    push_str(&mut out, timestamp);
    push_str(&mut out, "**\n\n");
    push_str(&mut out, body);
    push_char(&mut out, '\n');
    assert(out@ =~= mid + crate::render::note_text((timestamp@, body@)));
    out
}

// ---------------------------------------------------------------------------
// Adding the `open:` field twice
// ---------------------------------------------------------------------------

/// Two lists of lines that are equal once each line is trimmed.
pub open spec fn trim_eq(a: Seq<Seq<char>>, b: Seq<Seq<char>>) -> bool {
    a.len() == b.len() && forall|k: int| 0 <= k < a.len() ==> trim(#[trigger] a[k]) == trim(b[k])
}

/// Trailing white space does not change what trimming gives.
proof fn lemma_trim_drop_ws(l: Seq<char>)
    requires
        l.len() > 0,
        crate::text::is_ws(l.last()),
    ensures
        trim(l.drop_last()) == trim(l),
{
    crate::roundtrip::lemma_trim_trim_end(l);
    crate::roundtrip::lemma_trim_trim_end(l.drop_last());
}

proof fn lemma_trim_strip_cr(l: Seq<char>)
    ensures
        trim(crate::text::strip_cr(l)) == trim(l),
{
    if l.len() > 0 && l.last() == '\r' {
        lemma_trim_drop_ws(l);
    }
}

/// A line and a line feed before more text.
proof fn lemma_lines_front(l: Seq<char>, rest: Seq<char>)
    requires
        forall|k: int| 0 <= k < l.len() ==> #[trigger] l[k] != '\n',
    ensures
        lines(l + nl() + rest) == seq![crate::text::strip_cr(l)] + lines(rest),
{
    let s = l + nl() + rest;
    assert(s[l.len() as int] == '\n');
    assert forall|j: int| 0 <= j < l.len() implies s[j] != '\n' by {
        assert(s[j] == l[j]);
    }
    crate::text::lemma_index_of_is(s, '\n', l.len() as int);
    assert(s.take(l.len() as int) =~= l);
    assert(s.skip(l.len() as int + 1) =~= rest);
}

pub proof fn lemma_join_front(ms: Seq<Seq<char>>)
    requires
        ms.len() >= 2,
    ensures
        join(ms, nl()) == ms[0] + nl() + join(ms.drop_first(), nl()),
    decreases ms.len(),
{
    if ms.len() > 2 {
        lemma_join_front(ms.drop_last());
        assert(ms.drop_last().drop_first() =~= ms.drop_first().drop_last());
        assert(ms.drop_first().last() == ms.last());
        assert(join(ms, nl()) =~= ms[0] + nl() + join(ms.drop_first(), nl()));
    } else {
        assert(ms.drop_last().len() == 1);
        assert(join(ms.drop_last(), nl()) == ms.drop_last()[0]);
        assert(ms.drop_first().len() == 1);
        assert(join(ms.drop_first(), nl()) == ms.drop_first()[0]);
        assert(ms.drop_first()[0] == ms.last());
    }
}

/// Lines joined with line feeds read back as the same lines, up to
/// trimming.
proof fn lemma_lines_of_join(ms: Seq<Seq<char>>, tail: Seq<char>)
    requires
        ms.len() > 0,
        forall|i: int, k: int| 0 <= i < ms.len() && 0 <= k < ms[i].len() ==> #[trigger] ms[i][k] != '\n',
        tail == nl() || (tail.len() == 0 && ms.last().len() > 0),
    ensures
        trim_eq(lines(join(ms, nl()) + tail), ms),
    decreases ms.len(),
{
    if ms.len() == 1 {
        assert(join(ms, nl()) == ms[0]);
        if tail.len() == 0 {
            assert(ms[0] + tail =~= ms[0]);
            assert forall|k: int| 0 <= k < ms[0].len() implies ms[0][k] != '\n' by {
                assert(ms[0][k] != '\n');
            }
            crate::text::lemma_index_of_none(ms[0], '\n');
            assert(lines(ms[0]) == seq![ms[0]]);
        } else {
            assert(ms[0] + tail =~= ms[0] + nl() + Seq::<char>::empty());
            lemma_lines_front(ms[0], Seq::<char>::empty());
            lemma_trim_strip_cr(ms[0]);
        }
    } else {
        lemma_join_front(ms);
        let rest = ms.drop_first();
        assert(join(ms, nl()) + tail =~= ms[0] + nl() + (join(rest, nl()) + tail));
        lemma_lines_front(ms[0], join(rest, nl()) + tail);
        lemma_trim_strip_cr(ms[0]);
        assert forall|i: int, k: int| 0 <= i < rest.len() && 0 <= k < rest[i].len() implies #[trigger] rest[i][k] != '\n' by {
            assert(rest[i] == ms[i + 1]);
        }
        assert(rest.last() == ms.last());
        lemma_lines_of_join(rest, tail);
        let got = lines(join(ms, nl()) + tail);
        assert(got == seq![crate::text::strip_cr(ms[0])] + lines(join(rest, nl()) + tail));
        assert forall|k: int| 0 <= k < got.len() implies trim(#[trigger] got[k]) == trim(ms[k]) by {
            if k > 0 {
                assert(got[k] == lines(join(rest, nl()) + tail)[k - 1]);
                assert(ms[k] == rest[k - 1]);
            }
        }
    }
}

/// Where the first `---` line at or after `i` is.
proof fn lemma_delim_from_is(ls: Seq<Seq<char>>, i: int, j: int)
    requires
        0 <= i <= j < ls.len(),
        trim(ls[j]) == delimiter_line(),
        forall|k: int| i <= k < j ==> trim(#[trigger] ls[k]) != delimiter_line(),
    ensures
        delim_from(ls, i) == Some(j),
    decreases j - i,
{
    if i < j {
        lemma_delim_from_is(ls, i + 1, j);
    }
}

/// What the first `---` line at or after `i` says of the lines before it.
proof fn lemma_delim_from_props(ls: Seq<Seq<char>>, i: int)
    requires
        0 <= i,
    ensures
        delim_from(ls, i) matches Some(j) ==> i <= j < ls.len() && trim(ls[j]) == delimiter_line()
            && forall|k: int| i <= k < j ==> trim(#[trigger] ls[k]) != delimiter_line(),
    decreases ls.len() - i,
{
    if i < ls.len() && trim(ls[i]) != delimiter_line() {
        lemma_delim_from_props(ls, i + 1);
    }
}

/// A line that starts with `p` once trimmed is found.
proof fn lemma_prefixed_found(ls: Seq<Seq<char>>, i: int, k: int, p: Seq<char>)
    requires
        0 <= i <= k < ls.len(),
        starts_with(trim(ls[k]), p),
    ensures
        prefixed_from(ls, i, p) is Some,
    decreases k - i,
{
    if i < k && !starts_with(trim(ls[i]), p) {
        lemma_prefixed_found(ls, i + 1, k, p);
    }
}

/// `delim_from` looks at the lines only once they are trimmed.
proof fn lemma_delim_from_trim_eq(a: Seq<Seq<char>>, b: Seq<Seq<char>>, i: int)
    requires
        trim_eq(a, b),
        0 <= i,
    ensures
        delim_from(a, i) == delim_from(b, i),
    decreases a.len() - i,
{
    if i < a.len() {
        assert(trim(a[i]) == trim(b[i]));
        lemma_delim_from_trim_eq(a, b, i + 1);
    }
}

/// Adding the `open:` field leaves a file that has one: a second run
/// changes nothing.
pub proof fn lemma_open_field_once(content: Seq<char>)
    ensures
        with_open_field(content) matches Some((text, _)) ==> with_open_field(text) is None,
{
    if let Some((text, open)) = with_open_field(content) {
        reveal_strlit("open: ");
        reveal_strlit("true");
        reveal_strlit("false");
        reveal_strlit("open:");
        let ls = lines(content);
        let s = delim_from(ls, 0)->0;
        let e = delim_from(ls, s + 1)->0;
        lemma_delim_from_props(ls, 0);
        lemma_delim_from_props(ls, s + 1);
        let fm = ls.subrange(s + 1, e);
        let line = "open: "@ + bool_text(open);
        let at = open_line_at(fm, s);
        lemma_prefixed_from(fm, 0, "status:"@);
        lemma_prefixed_from(fm, 0, "id:"@);
        assert(s + 1 <= at <= e);
        let ms = ls.insert(at, line);
        // the lines of the new text
        lemma_lines_no_newline(content);
        assert forall|i: int, k: int| 0 <= i < ms.len() && 0 <= k < ms[i].len() implies #[trigger] ms[i][k] != '\n' by {
            if i < at {
                assert(ms[i] == ls[i]);
            } else if i == at {
                assert(ms[i] == line);
            } else {
                assert(ms[i] == ls[i - 1]);
            }
        }
        let tail = if crate::text::ends_with(content, nl()) { nl() } else { Seq::<char>::empty() };
        if tail.len() == 0 {
            lemma_last_line_nonempty(content);
            assert(ms.last() == ls.last());
        }
        lemma_lines_of_join(ms, tail);
        let nls = lines(text);
        assert(text == join(ms, nl()) + tail);
        // the delimiters of the new text
        assert(trim(line) == line) by {
            crate::text::lemma_trim_fixed(line);
        }
        assert(line.len() != 3);
        lemma_delim_from_is(ms, 0, s);
        assert forall|k: int| s + 1 <= k < e + 1 implies trim(#[trigger] ms[k]) != delimiter_line() by {
            if k < at {
                assert(ms[k] == ls[k]);
            } else if k == at {
                assert(ms[k] == line);
            } else {
                assert(ms[k] == ls[k - 1]);
            }
        }
        assert(ms[e + 1] == ls[e]);
        lemma_delim_from_is(ms, s + 1, e + 1);
        lemma_delim_from_trim_eq(nls, ms, 0);
        lemma_delim_from_trim_eq(nls, ms, s + 1);
        // the new front matter has the `open:` line
        let fm2 = nls.subrange(s + 1, e + 1);
        assert(trim(fm2[at - s - 1]) == trim(ms[at]));
        assert(line.take(5) =~= "open:"@);
        lemma_prefixed_found(fm2, 0, at - s - 1, "open:"@);
    }
}

/// The lines of a text hold no line feed.
proof fn lemma_lines_no_newline(c: Seq<char>)
    ensures
        forall|i: int, k: int| 0 <= i < lines(c).len() && 0 <= k < lines(c)[i].len() ==> #[trigger] lines(c)[i][k] != '\n',
    decreases c.len(),
{
    if c.len() > 0 {
        crate::text::lemma_index_of_props(c, '\n');
        match index_of(c, '\n') {
            Some(i) => {
                lemma_lines_no_newline(c.skip(i + 1));
                let first = crate::text::strip_cr(c.take(i));
                assert forall|i2: int, k: int| 0 <= i2 < lines(c).len() && 0 <= k < lines(c)[i2].len()
                    implies #[trigger] lines(c)[i2][k] != '\n' by {
                    if i2 == 0 {
                        assert(lines(c)[0] == first);
                        assert(first[k] == c[k]);
                    } else {
                        assert(lines(c)[i2] == lines(c.skip(i + 1))[i2 - 1]);
                    }
                }
            },
            None => {},
        }
    }
}

/// The last line of a text that does not end in a line feed is not empty.
proof fn lemma_last_line_nonempty(c: Seq<char>)
    requires
        !crate::text::ends_with(c, nl()),
        lines(c).len() > 0,
    ensures
        lines(c).last().len() > 0,
    decreases c.len(),
{
    crate::text::lemma_index_of_props(c, '\n');
    match index_of(c, '\n') {
        Some(i) => {
            let rest = c.skip(i + 1);
            if rest.len() == 0 {
                assert(c.skip(c.len() - 1) =~= nl());
            } else {
                assert(rest.skip(rest.len() - 1) =~= c.skip(c.len() - 1));
                lemma_last_line_nonempty(rest);
                assert(lines(c).last() == lines(rest).last());
            }
        },
        None => {},
    }
}

/// Migration writes `open: false` exactly for a ticket whose front matter
/// says `status: closed`; any other status value (`open`, `in_progress`, a
/// missing status line) gets `open: true`.
pub proof fn lemma_migrated_open_value(content: Seq<char>)
    ensures
        with_open_field(content) matches Some((text, open)) ==> {
            let ls = lines(content);
            let s = delim_from(ls, 0)->0;
            let e = delim_from(ls, s + 1)->0;
            let fm = ls.subrange(s + 1, e);
            &&& delim_from(ls, 0) is Some
            &&& delim_from(ls, s + 1) is Some
            &&& (open <==> status_value(fm) != seq!['c', 'l', 'o', 's', 'e', 'd'])
        },
{
    reveal_strlit("closed");
    assert("closed"@ =~= seq!['c', 'l', 'o', 's', 'e', 'd']);
}

} // verus!
