//! JSON output of tickets (one object per line, as `tk query` prints them).

use vstd::prelude::*;
use crate::storage::Ticket;
use crate::render::nl;
use crate::text::{decimal, join, join_strings, lines, opt_view, owned, push_char, push_str, views};

verus! {

/// How one character is written inside a JSON string.
pub open spec fn escape_char(c: char) -> Seq<char> {
    if c == '\\' {
        seq!['\\', '\\']
    } else if c == '"' {
        seq!['\\', '"']
    } else if c == '\n' {
        seq!['\\', 'n']
    } else if c == '\r' {
        seq!['\\', 'r']
    } else if c == '\t' {
        seq!['\\', 't']
    } else {
        seq![c]
    }
}

/// `s` with backslash, double quote, line feed, carriage return and tab escaped.
pub open spec fn escaped(s: Seq<char>) -> Seq<char>
    decreases s.len(),
{
    if s.len() == 0 {
        Seq::empty()
    } else {
        escaped(s.drop_last()) + escape_char(s.last())
    }
}

/// `s` as a JSON string: escaped, in double quotes.
pub open spec fn quoted(s: Seq<char>) -> Seq<char> {
    seq!['"'] + escaped(s) + seq!['"']
}

/// A list of strings as a JSON array.
pub open spec fn json_array_text(items: Seq<Seq<char>>) -> Seq<char> {
    if items.len() == 0 {
        "[]"@
    } else {
        seq!['['] + join(items.map_values(|s: Seq<char>| quoted(s)), seq![',']) + seq![']']
    }
}

/// The member `"key":value`.
pub open spec fn member(key: Seq<char>, value: Seq<char>) -> Seq<char> {
    quoted(key) + seq![':'] + value
}

/// The member `"key":"value"` where there is a value.
pub open spec fn opt_member(key: Seq<char>, value: Option<Seq<char>>) -> Seq<Seq<char>> {
    match value {
        Some(v) => seq![member(key, quoted(v))],
        None => Seq::empty(),
    }
}

/// The `"tags"` member, written only for a nonempty list.
pub open spec fn tags_member(tags: Option<Vec<String>>) -> Seq<Seq<char>> {
    match tags {
        Some(ts) => if ts@.len() > 0 { seq![member("tags"@, json_array_text(views(ts@)))] } else { Seq::empty() },
        None => Seq::empty(),
    }
}

/// The members of the JSON object of a ticket, in order.
pub open spec fn json_members(t: Ticket) -> Seq<Seq<char>> {
    let md = t.metadata;
    seq![
        member("id"@, quoted(md.id@)) + seq![','] + member("status"@, quoted(md.status@)),
        member("deps"@, json_array_text(views(md.deps@))),
        member("links"@, json_array_text(views(md.links@))),
        member("created"@, quoted(md.created@)),
        member("type"@, quoted(md.metadata_type@)),
        member("priority"@, decimal(md.priority.value())),
    ]
        + opt_member("assignee"@, opt_view(md.assignee))
        + opt_member("externalRef"@, opt_view(md.external_ref))
        + opt_member("parent"@, opt_view(md.parent))
        + tags_member(md.tags)
        + seq![member("title"@, quoted(t.data.title@))]
        + opt_member("description"@, opt_view(t.data.description))
}

/// The JSON object of a ticket.
pub open spec fn json_object(t: Ticket) -> Seq<char> {
    seq!['{'] + join(json_members(t), seq![',']) + seq!['}']
}

/// Escape a string for JSON: backslash, double quote, line feed, carriage
/// return and tab.
pub fn json_escape(s: &str) -> (r: String)
    ensures
        r@ == escaped(s@),
{
    let v = crate::text::chars_of(s);
    let mut r = String::new();
    for k in 0..v.len()
        invariant
            v@ == s@,
            r@ == escaped(v@.take(k as int)),
    {
        proof {
            assert(v@.take(k + 1).drop_last() =~= v@.take(k as int));
        }
        let c = v[k];
        let ghost before = r@;
        if c == '\\' {
            push_char(&mut r, '\\');
            push_char(&mut r, '\\');
        } else if c == '"' {
            push_char(&mut r, '\\');
            push_char(&mut r, '"');
        } else if c == '\n' {
            push_char(&mut r, '\\');
            push_char(&mut r, 'n');
        } else if c == '\r' {
            push_char(&mut r, '\\');
            push_char(&mut r, 'r');
        } else if c == '\t' {
            push_char(&mut r, '\\');
            push_char(&mut r, 't');
        } else {
            push_char(&mut r, c);
        }
        assert(r@ =~= before + escape_char(c));
    }
    assert(v@.take(v@.len() as int) =~= v@);
    r
}

/// `s` as a JSON string.
fn quote(s: &str) -> (r: String)
    ensures
        r@ == quoted(s@),
{
    let mut r = String::new();
    push_char(&mut r, '"');
    let e = json_escape(s);
    push_str(&mut r, e.as_str());
    push_char(&mut r, '"');
    assert(r@ =~= quoted(s@));
    r
}

/// A list of strings as a JSON array: `[]`, or `["a","b"]`.
pub fn json_array(items: &[String]) -> (r: String)
    ensures
        r@ == json_array_text(views(items@)),
{
    if items.len() == 0 {
        let r = owned("[]");
        return r;
    }
    let ghost vs = views(items@);
    let mut parts: Vec<String> = Vec::new();
    for k in 0..items.len()
        invariant
            vs == views(items@),
            views(parts@) == vs.take(k as int).map_values(|s: Seq<char>| quoted(s)),
    {
        let q = quote(items[k].as_str());
        let ghost before = views(parts@);
        parts.push(q);
        proof {
            assert(vs[k as int] == items@[k as int]@);
            assert(views(parts@) =~= before.push(q@));
            assert(vs.take(k + 1).map_values(|s: Seq<char>| quoted(s))
                =~= vs.take(k as int).map_values(|s: Seq<char>| quoted(s)).push(quoted(vs[k as int])));
        }
    }
    assert(vs.take(items@.len() as int) =~= vs);
    let inner = join_strings(&parts, ",");
    proof { reveal_strlit(","); assert(","@ =~= seq![',']); }
    let mut r = String::new();
    push_char(&mut r, '[');
    push_str(&mut r, inner.as_str());
    push_char(&mut r, ']');
    assert(r@ =~= json_array_text(vs));
    r
}

/// The member `"key":` followed by `value`.
fn make_member(key: &str, value: &str) -> (r: String)
    ensures
        r@ == member(key@, value@),
{
    let mut r = quote(key);
    push_char(&mut r, ':');
    push_str(&mut r, value);
    assert(r@ =~= member(key@, value@));
    r
}

/// Appends the member `"key":"value"` where there is a value.
fn push_opt_member(parts: &mut Vec<String>, key: &str, value: &Option<String>)
    ensures
        views(final(parts)@) == views(old(parts)@) + opt_member(key@, opt_view(*value)),
{
    match value {
        Some(v) => {
            let q = quote(v.as_str());
            let m = make_member(key, q.as_str());
            let ghost before = views(parts@);
            parts.push(m);
            assert(views(parts@) =~= before + opt_member(key@, opt_view(*value)));
        },
        None => {
            assert(views(parts@) =~= views(parts@) + Seq::<Seq<char>>::empty());
        },
    }
}

/// Serialize a single ticket to a JSON object.
pub fn ticket_to_json(ticket: &Ticket) -> (r: String)
    ensures
        r@ == json_object(*ticket),
{
    let md = &ticket.metadata;
    let mut first = make_member("id", quote(md.id.as_str()).as_str());
    push_char(&mut first, ',');
    let status = make_member("status", quote(md.status.as_str()).as_str());
    push_str(&mut first, status.as_str());
    assert(first@ =~= member("id"@, quoted(md.id@)) + seq![','] + member("status"@, quoted(md.status@)));
    let m2 = make_member("deps", json_array(md.deps.as_slice()).as_str());
    let m3 = make_member("links", json_array(md.links.as_slice()).as_str());
    let m4 = make_member("created", quote(md.created.as_str()).as_str());
    let m5 = make_member("type", quote(md.metadata_type.as_str()).as_str());
    let p = crate::text::decimal_string(md.priority.to_u8() as u64);
    let m6 = make_member("priority", p.as_str());
    let ghost six = seq![first@, m2@, m3@, m4@, m5@, m6@];
    let mut parts: Vec<String> = vec![first, m2, m3, m4, m5, m6];
    assert(views(parts@) =~= six);
    let ghost base = views(parts@);
    push_opt_member(&mut parts, "assignee", &md.assignee);
    let ghost a1 = views(parts@);
    push_opt_member(&mut parts, "externalRef", &md.external_ref);
    let ghost a2 = views(parts@);
    push_opt_member(&mut parts, "parent", &md.parent);
    let ghost before_tags = views(parts@);
    match &md.tags {
        Some(ts) => {
            if ts.len() > 0 {
                parts.push(make_member("tags", json_array(ts.as_slice()).as_str()));
            }
        },
        None => {},
    }
    assert(views(parts@) =~= before_tags + tags_member(md.tags));
    let ghost before_title = views(parts@);
    let title = make_member("title", quote(ticket.data.title.as_str()).as_str());
    parts.push(title);
    assert(views(parts@) =~= before_title + seq![title@]);
    push_opt_member(&mut parts, "description", &ticket.data.description);
    proof {
        let ms = json_members(*ticket);
        assert(base == six);
        assert(a1 == six + opt_member("assignee"@, opt_view(md.assignee)));
        assert(views(parts@) == before_title + seq![title@] + opt_member("description"@, opt_view(ticket.data.description)));
        assert(views(parts@) =~= ms);
    }
    let inner = join_strings(&parts, ",");
    proof { reveal_strlit(","); assert(","@ =~= seq![',']); }
    let mut r = String::new();
    push_char(&mut r, '{');
    push_str(&mut r, inner.as_str());
    push_char(&mut r, '}');
    assert(r@ =~= json_object(*ticket));
    r
}

/// Format tickets as JSONL: one JSON object per line, joined by line feeds.
pub fn format_tickets_jsonl(tickets: &[Ticket]) -> (r: String)
    ensures
        r@ == join(tickets@.map_values(|t: Ticket| json_object(t)), seq!['\n']),
{
    let ghost objs = tickets@.map_values(|t: Ticket| json_object(t));
    let mut lines: Vec<String> = Vec::new();
    for k in 0..tickets.len()
        invariant
            objs == tickets@.map_values(|t: Ticket| json_object(t)),
            views(lines@) == objs.take(k as int),
    {
        let j = ticket_to_json(&tickets[k]);
        let ghost before = views(lines@);
        lines.push(j);
        proof {
            assert(views(lines@) =~= before.push(j@));
            assert(objs.take(k + 1) =~= objs.take(k as int).push(objs[k as int]));
        }
    }
    assert(objs.take(tickets@.len() as int) =~= objs);
    let r = join_strings(&lines, "\n");
    proof { reveal_strlit("\n"); assert("\n"@ =~= seq!['\n']); }
    r
}

// ---------------------------------------------------------------------------
// One object per line
// ---------------------------------------------------------------------------

/// Text that holds no line feed, carriage return or tab.
pub open spec fn one_line(s: Seq<char>) -> bool {
    forall|k: int| 0 <= k < s.len() ==> #[trigger] s[k] != '\n' && s[k] != '\r' && s[k] != '\t'
}

proof fn lemma_concat_one_line(a: Seq<char>, b: Seq<char>)
    requires
        one_line(a),
        one_line(b),
    ensures
        one_line(a + b),
{
    assert forall|k: int| 0 <= k < (a + b).len() implies #[trigger] (a + b)[k] != '\n' && (a + b)[k] != '\r' && (a + b)[k] != '\t' by {
        if k < a.len() {
            assert((a + b)[k] == a[k]);
        } else {
            assert((a + b)[k] == b[k - a.len()]);
        }
    }
}

proof fn lemma_escaped_one_line(s: Seq<char>)
    ensures
        one_line(escaped(s)),
    decreases s.len(),
{
    if s.len() > 0 {
        lemma_escaped_one_line(s.drop_last());
        let c = s.last();
        assert(one_line(escape_char(c)));
        lemma_concat_one_line(escaped(s.drop_last()), escape_char(c));
    }
}

proof fn lemma_quoted_one_line(s: Seq<char>)
    ensures
        one_line(quoted(s)),
{
    lemma_escaped_one_line(s);
    lemma_concat_one_line(seq!['"'], escaped(s));
    lemma_concat_one_line(seq!['"'] + escaped(s), seq!['"']);
}

proof fn lemma_join_one_line(parts: Seq<Seq<char>>, sep: Seq<char>)
    requires
        one_line(sep),
        forall|i: int| 0 <= i < parts.len() ==> one_line(#[trigger] parts[i]),
    ensures
        one_line(join(parts, sep)),
    decreases parts.len(),
{
    if parts.len() == 1 {
        assert(one_line(parts[0]));
    } else if parts.len() > 1 {
        let front = parts.drop_last();
        assert forall|i: int| 0 <= i < front.len() implies one_line(#[trigger] front[i]) by {
            assert(front[i] == parts[i]);
        }
        lemma_join_one_line(front, sep);
        assert(one_line(parts[parts.len() - 1]));
        lemma_concat_one_line(join(front, sep), sep);
        lemma_concat_one_line(join(front, sep) + sep, parts.last());
    }
}

proof fn lemma_decimal_one_line(n: nat)
    ensures
        one_line(decimal(n)),
    decreases n,
{
    if n >= 10 {
        lemma_decimal_one_line(n / 10);
        lemma_concat_one_line(decimal(n / 10), seq![crate::text::digit_char(n % 10)]);
        assert(decimal(n) =~= decimal(n / 10) + seq![crate::text::digit_char(n % 10)]);
    }
}

proof fn lemma_member_one_line(key: Seq<char>, value: Seq<char>)
    requires
        one_line(value),
    ensures
        one_line(member(key, value)),
{
    lemma_quoted_one_line(key);
    lemma_concat_one_line(quoted(key), seq![':']);
    lemma_concat_one_line(quoted(key) + seq![':'], value);
}

proof fn lemma_array_one_line(items: Seq<Seq<char>>)
    ensures
        one_line(json_array_text(items)),
{
    if items.len() == 0 {
        reveal_strlit("[]");
    } else {
        let qs = items.map_values(|s: Seq<char>| quoted(s));
        assert forall|i: int| 0 <= i < qs.len() implies one_line(#[trigger] qs[i]) by {
            lemma_quoted_one_line(items[i]);
        }
        lemma_join_one_line(qs, seq![',']);
        lemma_concat_one_line(seq!['['], join(qs, seq![',']));
        lemma_concat_one_line(seq!['['] + join(qs, seq![',']), seq![']']);
    }
}

proof fn lemma_opt_member_one_line(key: Seq<char>, value: Option<Seq<char>>)
    ensures
        forall|i: int| 0 <= i < opt_member(key, value).len() ==> one_line(#[trigger] opt_member(key, value)[i]),
{
    if let Some(v) = value {
        lemma_quoted_one_line(v);
        lemma_member_one_line(key, quoted(v));
    }
}

proof fn lemma_all_one_line(a: Seq<Seq<char>>, b: Seq<Seq<char>>)
    requires
        forall|i: int| 0 <= i < a.len() ==> one_line(#[trigger] a[i]),
        forall|i: int| 0 <= i < b.len() ==> one_line(#[trigger] b[i]),
    ensures
        forall|i: int| 0 <= i < (a + b).len() ==> one_line(#[trigger] (a + b)[i]),
{
    assert forall|i: int| 0 <= i < (a + b).len() implies one_line(#[trigger] (a + b)[i]) by {
        if i < a.len() {
            assert((a + b)[i] == a[i]);
        } else {
            assert((a + b)[i] == b[i - a.len()]);
        }
    }
}

/// The JSON object of a ticket holds no line feed, carriage return or tab,
/// whatever the ticket's fields hold, and is not empty: it is one line.
pub proof fn lemma_json_object_one_line(t: Ticket)
    ensures
        one_line(json_object(t)),
        json_object(t).len() > 0,
{
    let md = t.metadata;
    lemma_quoted_one_line(md.id@);
    lemma_quoted_one_line(md.status@);
    lemma_member_one_line("id"@, quoted(md.id@));
    lemma_member_one_line("status"@, quoted(md.status@));
    lemma_concat_one_line(member("id"@, quoted(md.id@)), seq![',']);
    lemma_concat_one_line(member("id"@, quoted(md.id@)) + seq![','], member("status"@, quoted(md.status@)));
    lemma_array_one_line(views(md.deps@));
    lemma_member_one_line("deps"@, json_array_text(views(md.deps@)));
    lemma_array_one_line(views(md.links@));
    lemma_member_one_line("links"@, json_array_text(views(md.links@)));
    lemma_quoted_one_line(md.created@);
    lemma_member_one_line("created"@, quoted(md.created@));
    lemma_quoted_one_line(md.metadata_type@);
    lemma_member_one_line("type"@, quoted(md.metadata_type@));
    lemma_decimal_one_line(md.priority.value());
    lemma_member_one_line("priority"@, decimal(md.priority.value()));
    let six = seq![
        member("id"@, quoted(md.id@)) + seq![','] + member("status"@, quoted(md.status@)),
        member("deps"@, json_array_text(views(md.deps@))),
        member("links"@, json_array_text(views(md.links@))),
        member("created"@, quoted(md.created@)),
        member("type"@, quoted(md.metadata_type@)),
        member("priority"@, decimal(md.priority.value())),
    ];
    assert forall|i: int| 0 <= i < six.len() implies one_line(#[trigger] six[i]) by {
        if i == 0 {} else if i == 1 {} else if i == 2 {} else if i == 3 {} else if i == 4 {} else {}
    }
    let a = opt_member("assignee"@, opt_view(md.assignee));
    let e = opt_member("externalRef"@, opt_view(md.external_ref));
    let p = opt_member("parent"@, opt_view(md.parent));
    let tg = tags_member(md.tags);
    let ti = seq![member("title"@, quoted(t.data.title@))];
    let d = opt_member("description"@, opt_view(t.data.description));
    lemma_opt_member_one_line("assignee"@, opt_view(md.assignee));
    lemma_opt_member_one_line("externalRef"@, opt_view(md.external_ref));
    lemma_opt_member_one_line("parent"@, opt_view(md.parent));
    lemma_opt_member_one_line("description"@, opt_view(t.data.description));
    match md.tags {
        Some(ts) => {
            lemma_array_one_line(views(ts@));
            lemma_member_one_line("tags"@, json_array_text(views(ts@)));
        },
        None => {},
    }
    assert forall|i: int| 0 <= i < tg.len() implies one_line(#[trigger] tg[i]) by {}
    lemma_quoted_one_line(t.data.title@);
    lemma_member_one_line("title"@, quoted(t.data.title@));
    assert forall|i: int| 0 <= i < ti.len() implies one_line(#[trigger] ti[i]) by {}
    lemma_all_one_line(six, a);
    lemma_all_one_line(six + a, e);
    lemma_all_one_line(six + a + e, p);
    lemma_all_one_line(six + a + e + p, tg);
    lemma_all_one_line(six + a + e + p + tg, ti);
    lemma_all_one_line(six + a + e + p + tg + ti, d);
    let ms = json_members(t);
    assert(ms == six + a + e + p + tg + ti + d);
    lemma_join_one_line(ms, seq![',']);
    lemma_concat_one_line(seq!['{'], join(ms, seq![',']));
    lemma_concat_one_line(seq!['{'] + join(ms, seq![',']), seq!['}']);
}

/// Nonempty one-line texts joined by line feeds read back, line by line, as
/// the same texts.
pub proof fn lemma_lines_of_joined(objs: Seq<Seq<char>>)
    requires
        forall|i: int| 0 <= i < objs.len() ==> one_line(#[trigger] objs[i]) && objs[i].len() > 0,
    ensures
        lines(join(objs, seq!['\n'])) == objs,
    decreases objs.len(),
{
    if objs.len() == 0 {
        assert(lines(Seq::<char>::empty()) =~= Seq::<Seq<char>>::empty());
        assert(objs =~= Seq::<Seq<char>>::empty());
    } else if objs.len() == 1 {
        let o = objs[0];
        assert(one_line(o) && o.len() > 0);
        crate::text::lemma_index_of_none(o, '\n');
        assert(lines(o) == seq![o]);
        assert(objs =~= seq![o]);
    } else {
        let rest = objs.drop_first();
        assert forall|i: int| 0 <= i < rest.len() implies one_line(#[trigger] rest[i]) && rest[i].len() > 0 by {
            assert(rest[i] == objs[i + 1]);
        }
        lemma_lines_of_joined(rest);
        assert(nl() =~= seq!['\n']);
        crate::edit::lemma_join_front(objs);
        let o = objs[0];
        assert(one_line(o) && o.len() > 0);
        assert(crate::roundtrip::clean_line(o));
        assert(nl() =~= seq!['\n']);
        crate::roundtrip::lemma_lines_cons(o, join(rest, seq!['\n']));
        assert(objs =~= seq![o] + rest);
    }
}

/// JSONL: the lines of what `format_tickets_jsonl` writes are the tickets'
/// JSON objects, one per ticket, in order; no object spans two lines.
pub proof fn lemma_jsonl_lines(tickets: Seq<Ticket>)
    ensures
        lines(join(tickets.map_values(|t: Ticket| json_object(t)), seq!['\n']))
            == tickets.map_values(|t: Ticket| json_object(t)),
        lines(join(tickets.map_values(|t: Ticket| json_object(t)), seq!['\n'])).len() == tickets.len(),
{
    let objs = tickets.map_values(|t: Ticket| json_object(t));
    assert forall|i: int| 0 <= i < objs.len() implies one_line(#[trigger] objs[i]) && objs[i].len() > 0 by {
        lemma_json_object_one_line(tickets[i]);
    }
    lemma_lines_of_joined(objs);
}

} // verus!
