//! Building blocks of the text the library writes: `key: value` lines and
//! the markdown sections of a ticket body.

use vstd::prelude::*;
use crate::body::note_views;
use crate::text::{decimal, decimal_string, opt_view, push_char, push_str};
use crate::types::{Data, Note};

verus! {

pub open spec fn nl() -> Seq<char> {
    seq!['\n']
}

/// The line `key` `value` and a line feed (`key` holds its own `: `).
pub open spec fn line(key: Seq<char>, value: Seq<char>) -> Seq<char> {
    key + value + nl()
}

/// The line `key` `value`, where there is a value.
pub open spec fn opt_line(key: Seq<char>, value: Option<Seq<char>>) -> Seq<char> {
    match value {
        Some(v) => line(key, v),
        None => Seq::empty(),
    }
}

pub open spec fn bool_text(b: bool) -> Seq<char> {
    if b { "true"@ } else { "false"@ }
}

/// The description paragraph of a body.
pub open spec fn description_part(d: Option<Seq<char>>) -> Seq<char> {
    match d {
        Some(x) => nl() + x + nl(),
        None => Seq::empty(),
    }
}

/// A `## ` section of a body whose heading text (with its blank lines) is `heading`.
pub open spec fn section_part(heading: Seq<char>, d: Option<Seq<char>>) -> Seq<char> {
    match d {
        Some(x) => heading + x + nl(),
        None => Seq::empty(),
    }
}

pub open spec fn design_heading() -> Seq<char> {
    "\n## Design\n\n"@
}

pub open spec fn acceptance_heading() -> Seq<char> {
    "\n## Acceptance Criteria\n\n"@
}

pub open spec fn notes_heading() -> Seq<char> {
    "\n## Notes\n"@
}

/// One note: a blank line, `**timestamp**`, a blank line, its body.
pub open spec fn note_text(n: (Seq<char>, Seq<char>)) -> Seq<char> {
    "\n**"@ + n.0 + "**\n\n"@ + n.1 + nl()
}

/// The notes, one after the other.
pub open spec fn notes_text(ns: Seq<(Seq<char>, Seq<char>)>) -> Seq<char>
    decreases ns.len(),
{
    if ns.len() == 0 {
        Seq::empty()
    } else {
        notes_text(ns.drop_last()) + note_text(ns.last())
    }
}

/// The Notes section of a body, written only where there are notes.
pub open spec fn notes_part(notes: Option<Vec<Note>>) -> Seq<char> {
    match notes {
        Some(ns) => if ns@.len() > 0 {
            notes_heading() + notes_text(note_views(ns@))
        } else {
            Seq::empty()
        },
        None => Seq::empty(),
    }
}

/// The title line, description, Design and Acceptance Criteria of a body.
pub open spec fn body_head(d: Data) -> Seq<char> {
    line("# "@, d.title@)
        + description_part(opt_view(d.description))
        + section_part(design_heading(), opt_view(d.design))
        + section_part(acceptance_heading(), opt_view(d.acceptance))
}

// ---------------------------------------------------------------------------
// Executable helpers
// ---------------------------------------------------------------------------

/// Appends the line `key` `value`.
pub fn push_line(out: &mut String, key: &str, value: &str)
    ensures
        final(out)@ == old(out)@ + line(key@, value@),
{
    push_str(out, key);
    push_str(out, value);
    push_char(out, '\n');
    assert(out@ =~= old(out)@ + line(key@, value@));
}

/// Appends the line `key` `value` where there is a value.
pub fn push_opt_line(out: &mut String, key: &str, value: &Option<String>)
    ensures
        final(out)@ == old(out)@ + opt_line(key@, opt_view(*value)),
{
    match value {
        Some(v) => push_line(out, key, v.as_str()),
        None => {
            assert(old(out)@ + Seq::<char>::empty() =~= old(out)@);
        },
    }
}

/// Appends the number `n` in decimal.
pub fn push_decimal(out: &mut String, n: u64)
    ensures
        final(out)@ == old(out)@ + decimal(n as nat),
{
    let d = decimal_string(n);
    push_str(out, d.as_str());
}

/// Appends the title line, description, Design and Acceptance Criteria of a body.
pub fn push_body_head(out: &mut String, d: &Data)
    ensures
        final(out)@ == old(out)@ + body_head(*d),
{
    let ghost start = out@;
    push_line(out, "# ", d.title.as_str());
    let ghost s1 = out@;
    match &d.description {
        Some(x) => {
            push_char(out, '\n');
            push_str(out, x.as_str());
            push_char(out, '\n');
        },
        None => {},
    }
    assert(out@ =~= s1 + description_part(opt_view(d.description)));
    let ghost s2 = out@;
    match &d.design {
        Some(x) => {
            push_str(out, "\n## Design\n\n");
            push_str(out, x.as_str());
            push_char(out, '\n');
        },
        None => {},
    }
    assert(out@ =~= s2 + section_part(design_heading(), opt_view(d.design)));
    let ghost s3 = out@;
    match &d.acceptance {
        Some(x) => {
            push_str(out, "\n## Acceptance Criteria\n\n");
            push_str(out, x.as_str());
            push_char(out, '\n');
        },
        None => {},
    }
    assert(out@ =~= s3 + section_part(acceptance_heading(), opt_view(d.acceptance)));
    assert(out@ =~= start + body_head(*d));
}

/// Appends the notes `ns`.
pub fn push_notes(out: &mut String, ns: &Vec<Note>)
    ensures
        final(out)@ == old(out)@ + notes_text(note_views(ns@)),
{
    let ghost start = out@;
    let ghost vs = note_views(ns@);
    for k in 0..ns.len()
        invariant
            vs == note_views(ns@),
            out@ == start + notes_text(vs.take(k as int)),
    {
        proof {
            assert(vs.take(k + 1).drop_last() =~= vs.take(k as int));
        }
        let ghost before = out@;
        push_str(out, "\n**");
        push_str(out, ns[k].timestamp.as_str());
        push_str(out, "**\n\n");
        push_str(out, ns[k].body.as_str());
        push_char(out, '\n');
        assert(out@ =~= before + note_text(vs[k as int]));
        assert(out@ =~= start + notes_text(vs.take(k + 1)));
    }
    assert(vs.take(ns@.len() as int) =~= vs);
}

/// Appends the Notes section of a body, where there are notes.
pub fn push_notes_part(out: &mut String, notes: &Option<Vec<Note>>)
    ensures
        final(out)@ == old(out)@ + notes_part(*notes),
{
    match notes {
        Some(ns) => {
            if ns.len() > 0 {
                push_str(out, "\n## Notes\n");
                push_notes(out, ns);
                assert(out@ =~= old(out)@ + notes_part(*notes));
            } else {
                assert(old(out)@ + Seq::<char>::empty() =~= old(out)@);
            }
        },
        None => {
            assert(old(out)@ + Seq::<char>::empty() =~= old(out)@);
        },
    }
}

} // verus!
