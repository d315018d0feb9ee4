//! The YAML front matter of a ticket file: `key: value` lines, with lists
//! written as `[a, b, c]`.

use vstd::prelude::*;
use crate::text::{
    chars_of, index_of, join, lemma_index_of_props, lemma_join_push, line_bounds, lines, push_str,
    string_of_range, trim, trim_bounds, views, lemma_index_of_is, lemma_index_of_none,
};
use crate::types::Priority;

verus! {

// ---------------------------------------------------------------------------
// Lists: `[a, b, c]`
// ---------------------------------------------------------------------------

/// `s` without any leading `c` (`str::trim_start_matches` with a char).
pub open spec fn strip_leading(s: Seq<char>, c: char) -> Seq<char>
    decreases s.len(),
{
    if s.len() > 0 && s[0] == c {
        strip_leading(s.drop_first(), c)
    } else {
        s
    }
}

/// `s` without any trailing `c` (`str::trim_end_matches` with a char).
pub open spec fn strip_trailing(s: Seq<char>, c: char) -> Seq<char>
    decreases s.len(),
{
    if s.len() > 0 && s.last() == c {
        strip_trailing(s.drop_last(), c)
    } else {
        s
    }
}

/// The pieces of `s` between the separators `c` (`str::split`).
pub open spec fn split_on(s: Seq<char>, c: char) -> Seq<Seq<char>>
    decreases s.len(),
{
    match index_of(s, c) {
        Some(i) => {
            proof { lemma_index_of_props(s, c); }
            seq![s.take(i)] + split_on(s.skip(i + 1), c)
        },
        None => seq![s],
    }
}

/// The trimmed pieces, without the empty ones.
pub open spec fn nonempty_trimmed(pieces: Seq<Seq<char>>) -> Seq<Seq<char>>
    decreases pieces.len(),
{
    if pieces.len() == 0 {
        Seq::empty()
    } else if trim(pieces.last()).len() == 0 {
        nonempty_trimmed(pieces.drop_last())
    } else {
        nonempty_trimmed(pieces.drop_last()).push(trim(pieces.last()))
    }
}

pub open spec fn empty_list_text() -> Seq<char> {
    seq!['[', ']']
}

/// The items of the list written `s`, such as `[foo, bar]`.
pub open spec fn yaml_array(s: Seq<char>) -> Seq<Seq<char>> {
    let t = trim(s);
    if t.len() == 0 || t == empty_list_text() {
        Seq::empty()
    } else {
        let inner = strip_trailing(strip_leading(t, '['), ']');
        if inner.len() == 0 {
            Seq::empty()
        } else {
            nonempty_trimmed(split_on(inner, ','))
        }
    }
}

/// How a list is written: `[]`, or `[a, b]`.
pub open spec fn yaml_list_text(items: Seq<Seq<char>>) -> Seq<char> {
    if items.len() == 0 {
        empty_list_text()
    } else {
        seq!['['] + join(items, seq![',', ' ']) + seq![']']
    }
}

// ---------------------------------------------------------------------------
// Numbers
// ---------------------------------------------------------------------------

pub open spec fn is_digit(c: char) -> bool {
    '0' <= c && c <= '9'
}

pub open spec fn digit_value(c: char) -> nat {
    ((c as u32) - ('0' as u32)) as nat
}

/// The decimal value of a string of digits.
pub open spec fn digits_value(s: Seq<char>) -> nat
    decreases s.len(),
{
    if s.len() == 0 {
        0
    } else {
        digits_value(s.drop_last()) * 10 + digit_value(s.last())
    }
}

/// The text after an optional leading `+`.
pub open spec fn unsigned_digits(s: Seq<char>) -> Seq<char> {
    if s.len() > 0 && s[0] == '+' { s.drop_first() } else { s }
}

pub open spec fn all_digits(d: Seq<char>) -> bool {
    forall|i: int| 0 <= i < d.len() ==> is_digit(#[trigger] d[i])
}

/// `str::parse::<u8>`: an optional `+`, then at least one digit, at most 255 in value.
pub open spec fn parse_u8(s: Seq<char>) -> Option<nat> {
    let d = unsigned_digits(s);
    if d.len() > 0 && all_digits(d) && digits_value(d) <= 255 {
        Some(digits_value(d))
    } else {
        None
    }
}

/// The priority numbered `n`.
pub open spec fn priority_of_value(n: nat) -> Option<Priority> {
    if n == 0 { Some(Priority::P0) } else if n == 1 { Some(Priority::P1) } else if n == 2 { Some(Priority::P2) }
    else if n == 3 { Some(Priority::P3) } else if n == 4 { Some(Priority::P4) } else { None }
}

/// The priority a `priority:` value gives: its number, or 2 when it names none.
pub open spec fn priority_field(value: Seq<char>) -> Priority {
    match parse_u8(value) {
        Some(n) => match priority_of_value(n) {
            Some(p) => p,
            None => Priority::P2,
        },
        None => Priority::P2,
    }
}

// ---------------------------------------------------------------------------
// The front matter
// ---------------------------------------------------------------------------

/// The fields read from a front matter; `open` and `created` may be missing.
pub ghost struct MetaModel {
    pub id: Seq<char>,
    pub status: Seq<char>,
    pub open: Option<bool>,
    pub deps: Seq<Seq<char>>,
    pub links: Seq<Seq<char>>,
    pub created: Seq<char>,
    pub mtype: Seq<char>,
    pub priority: Priority,
    pub assignee: Option<Seq<char>>,
    pub external_ref: Option<Seq<char>>,
    pub parent: Option<Seq<char>>,
    pub tags: Option<Seq<Seq<char>>>,
}

pub open spec fn initial_meta(default_id: Seq<char>) -> MetaModel {
    MetaModel {
        id: default_id,
        status: Seq::empty(),
        open: None,
        deps: Seq::empty(),
        links: Seq::empty(),
        created: Seq::empty(),
        mtype: Seq::empty(),
        priority: Priority::P2,
        assignee: None,
        external_ref: None,
        parent: None,
        tags: None,
    }
}

pub open spec fn key_id() -> Seq<char> { seq!['i', 'd'] }
pub open spec fn key_status() -> Seq<char> { seq!['s', 't', 'a', 't', 'u', 's'] }
pub open spec fn key_open() -> Seq<char> { seq!['o', 'p', 'e', 'n'] }
pub open spec fn key_deps() -> Seq<char> { seq!['d', 'e', 'p', 's'] }
pub open spec fn key_links() -> Seq<char> { seq!['l', 'i', 'n', 'k', 's'] }
pub open spec fn key_created() -> Seq<char> { seq!['c', 'r', 'e', 'a', 't', 'e', 'd'] }
pub open spec fn key_type() -> Seq<char> { seq!['t', 'y', 'p', 'e'] }
pub open spec fn key_priority() -> Seq<char> { seq!['p', 'r', 'i', 'o', 'r', 'i', 't', 'y'] }
pub open spec fn key_assignee() -> Seq<char> { seq!['a', 's', 's', 'i', 'g', 'n', 'e', 'e'] }
pub open spec fn key_external_ref() -> Seq<char> { seq!['e', 'x', 't', 'e', 'r', 'n', 'a', 'l', '-', 'r', 'e', 'f'] }
pub open spec fn key_parent() -> Seq<char> { seq!['p', 'a', 'r', 'e', 'n', 't'] }
pub open spec fn key_tags() -> Seq<char> { seq!['t', 'a', 'g', 's'] }
pub open spec fn word_true() -> Seq<char> { seq!['t', 'r', 'u', 'e'] }

/// The front matter after reading the field `key: value`.
pub open spec fn set_field(m: MetaModel, key: Seq<char>, value: Seq<char>) -> MetaModel {
    if key == key_id() {
        MetaModel { id: value, ..m }
    } else if key == key_status() {
        MetaModel { status: value, ..m }
    } else if key == key_open() {
        MetaModel { open: Some(value == word_true()), ..m }
    } else if key == key_deps() {
        MetaModel { deps: yaml_array(value), ..m }
    } else if key == key_links() {
        MetaModel { links: yaml_array(value), ..m }
    } else if key == key_created() {
        MetaModel { created: value, ..m }
    } else if key == key_type() {
        MetaModel { mtype: value, ..m }
    } else if key == key_priority() {
        MetaModel { priority: priority_field(value), ..m }
    } else if key == key_assignee() {
        MetaModel { assignee: Some(value), ..m }
    } else if key == key_external_ref() {
        MetaModel { external_ref: Some(value), ..m }
    } else if key == key_parent() {
        MetaModel { parent: Some(value), ..m }
    } else if key == key_tags() {
        MetaModel { tags: Some(yaml_array(value)), ..m }
    } else {
        m
    }
}

/// The front matter after reading one line: `key: value`, split at the first
/// colon, both sides trimmed; blank lines and lines without a colon are skipped.
pub open spec fn apply_line(m: MetaModel, line: Seq<char>) -> MetaModel {
    let l = trim(line);
    if l.len() == 0 {
        m
    } else {
        match index_of(l, ':') {
            Some(k) => set_field(m, trim(l.take(k)), trim(l.skip(k + 1))),
            None => m,
        }
    }
}

/// The front matter after reading the lines in order.
pub open spec fn apply_lines(m: MetaModel, ls: Seq<Seq<char>>) -> MetaModel
    decreases ls.len(),
{
    if ls.len() == 0 {
        m
    } else {
        apply_line(apply_lines(m, ls.drop_last()), ls.last())
    }
}

/// What the front matter text `yaml` says, for a ticket whose file names `default_id`.
pub open spec fn frontmatter_model(yaml: Seq<char>, default_id: Seq<char>) -> MetaModel {
    apply_lines(initial_meta(default_id), lines(yaml))
}

/// The front matter being read.
pub struct FrontMatter {
    pub id: String,
    pub status: String,
    pub open: Option<bool>,
    pub deps: Vec<String>,
    pub links: Vec<String>,
    pub created: String,
    pub metadata_type: String,
    pub priority: Priority,
    pub assignee: Option<String>,
    pub external_ref: Option<String>,
    pub parent: Option<String>,
    pub tags: Option<Vec<String>>,
}

pub open spec fn opt_views(o: Option<Vec<String>>) -> Option<Seq<Seq<char>>> {
    match o {
        Some(v) => Some(views(v@)),
        None => None,
    }
}

impl FrontMatter {
    pub open spec fn model(&self) -> MetaModel {
        MetaModel {
            id: self.id@,
            status: self.status@,
            open: self.open,
            deps: views(self.deps@),
            links: views(self.links@),
            created: self.created@,
            mtype: self.metadata_type@,
            priority: self.priority,
            assignee: crate::text::opt_view(self.assignee),
            external_ref: crate::text::opt_view(self.external_ref),
            parent: crate::text::opt_view(self.parent),
            tags: opt_views(self.tags),
        }
    }
}

// ---------------------------------------------------------------------------
// Lemmas
// ---------------------------------------------------------------------------

pub proof fn lemma_strip_leading_skip(s: Seq<char>, c: char, i: int)
    requires
        0 <= i <= s.len(),
        forall|j: int| 0 <= j < i ==> s[j] == c,
    ensures
        strip_leading(s, c) == strip_leading(s.skip(i), c),
    decreases i,
{
    if i > 0 {
        assert(s.drop_first().skip(i - 1) =~= s.skip(i));
        lemma_strip_leading_skip(s.drop_first(), c, i - 1);
    } else {
        assert(s.skip(0) =~= s);
    }
}

pub proof fn lemma_strip_trailing_take(s: Seq<char>, c: char, i: int)
    requires
        0 <= i <= s.len(),
        forall|j: int| i <= j < s.len() ==> s[j] == c,
    ensures
        strip_trailing(s, c) == strip_trailing(s.take(i), c),
    decreases s.len() - i,
{
    if i < s.len() {
        assert(s.drop_last().take(i) =~= s.take(i));
        lemma_strip_trailing_take(s.drop_last(), c, i);
    } else {
        assert(s.take(i) =~= s);
    }
}

proof fn lemma_nonempty_trimmed_push(p: Seq<Seq<char>>, x: Seq<char>)
    ensures
        nonempty_trimmed(p.push(x)) == if trim(x).len() == 0 {
            nonempty_trimmed(p)
        } else {
            nonempty_trimmed(p).push(trim(x))
        },
{
    assert(p.push(x).drop_last() =~= p);
}

/// Splitting text at a separator splits it at each occurrence.
pub proof fn lemma_split_on_concat(x: Seq<char>, c: char, y: Seq<char>)
    ensures
        split_on(x + seq![c] + y, c) == split_on(x, c) + split_on(y, c),
    decreases x.len(),
{
    let s = x + seq![c] + y;
    lemma_index_of_props(x, c);
    match index_of(x, c) {
        Some(i) => {
            assert(s[i] == c);
            assert forall|j: int| 0 <= j < i implies s[j] != c by {
                assert(s[j] == x[j]);
            }
            lemma_index_of_is(s, c, i);
            assert(s.take(i) =~= x.take(i));
            assert(s.skip(i + 1) =~= x.skip(i + 1) + seq![c] + y);
            lemma_split_on_concat(x.skip(i + 1), c, y);
            assert(split_on(x, c) == seq![x.take(i)] + split_on(x.skip(i + 1), c));
            assert(split_on(s, c) =~= split_on(x, c) + split_on(y, c));
        },
        None => {
            assert(s[x.len() as int] == c);
            assert forall|j: int| 0 <= j < x.len() implies s[j] != c by {
                assert(s[j] == x[j]);
            }
            lemma_index_of_is(s, c, x.len() as int);
            assert(s.take(x.len() as int) =~= x);
            assert(s.skip(x.len() as int + 1) =~= y);
            assert(split_on(x, c) == seq![x]);
        },
    }
}

/// An item that a list writes and reads back unchanged: not empty, no
/// white space at either end, and none of `,`, `[`, `]`.
pub open spec fn plain_item(s: Seq<char>) -> bool {
    &&& s.len() > 0
    &&& !crate::text::is_ws(s[0])
    &&& !crate::text::is_ws(s.last())
    &&& forall|k: int| 0 <= k < s.len() ==> #[trigger] s[k] != ',' && s[k] != '[' && s[k] != ']'
}

/// The pieces that splitting a written list at `,` gives: the first item,
/// then each later item after its space.
pub open spec fn list_pieces(items: Seq<Seq<char>>) -> Seq<Seq<char>>
    decreases items.len(),
{
    if items.len() <= 1 {
        items
    } else {
        list_pieces(items.drop_last()).push(seq![' '] + items.last())
    }
}

proof fn lemma_split_on_plain(s: Seq<char>, c: char)
    requires
        forall|k: int| 0 <= k < s.len() ==> s[k] != c,
    ensures
        split_on(s, c) == seq![s],
{
    lemma_index_of_props(s, c);
    if let Some(i) = index_of(s, c) {
        assert(s[i] == c);
    }
}

proof fn lemma_split_joined(items: Seq<Seq<char>>)
    requires
        items.len() > 0,
        forall|k: int| 0 <= k < items.len() ==> plain_item(#[trigger] items[k]),
    ensures
        split_on(join(items, seq![',', ' ']), ',') == list_pieces(items),
    decreases items.len(),
{
    if items.len() == 1 {
        assert(plain_item(items[0]));
        lemma_split_on_plain(items[0], ',');
        assert(seq![items[0]] =~= items);
    } else {
        let dl = items.drop_last();
        let x = items.last();
        assert(plain_item(items[items.len() - 1]));
        assert forall|k: int| 0 <= k < dl.len() implies plain_item(#[trigger] dl[k]) by {
            assert(dl[k] == items[k]);
        }
        lemma_split_joined(dl);
        let y = seq![' '] + x;
        assert(join(items, seq![',', ' ']) =~= join(dl, seq![',', ' ']) + seq![','] + y);
        lemma_split_on_concat(join(dl, seq![',', ' ']), ',', y);
        assert forall|k: int| 0 <= k < y.len() implies y[k] != ',' by {
            if k > 0 {
                assert(y[k] == x[k - 1]);
            }
        }
        lemma_split_on_plain(y, ',');
    }
}

proof fn lemma_trim_spaced(x: Seq<char>)
    requires
        plain_item(x),
    ensures
        trim(seq![' '] + x) == x,
        trim(x) == x,
{
    let y = seq![' '] + x;
    assert(y.drop_first() =~= x);
    assert(crate::text::is_ws(y[0]));
    assert(crate::text::trim_start(y) == crate::text::trim_start(x));
    crate::text::lemma_trim_fixed(x);
}

proof fn lemma_pieces_trimmed(items: Seq<Seq<char>>)
    requires
        forall|k: int| 0 <= k < items.len() ==> plain_item(#[trigger] items[k]),
    ensures
        nonempty_trimmed(list_pieces(items)) == items,
    decreases items.len(),
{
    if items.len() == 0 {
    } else if items.len() == 1 {
        assert(plain_item(items[0]));
        lemma_trim_spaced(items[0]);
        lemma_nonempty_trimmed_push(Seq::empty(), items[0]);
        assert(Seq::<Seq<char>>::empty().push(items[0]) =~= items);
    } else {
        let dl = items.drop_last();
        assert forall|k: int| 0 <= k < dl.len() implies plain_item(#[trigger] dl[k]) by {
            assert(dl[k] == items[k]);
        }
        lemma_pieces_trimmed(dl);
        assert(plain_item(items[items.len() - 1]));
        lemma_trim_spaced(items.last());
        lemma_nonempty_trimmed_push(list_pieces(dl), seq![' '] + items.last());
        assert(dl.push(items.last()) =~= items);
    }
}

/// The first and last characters of items joined with `, `.
proof fn lemma_join_ends(items: Seq<Seq<char>>)
    requires
        items.len() > 0,
        forall|k: int| 0 <= k < items.len() ==> plain_item(#[trigger] items[k]),
    ensures
        join(items, seq![',', ' ']).len() > 0,
        join(items, seq![',', ' '])[0] == items[0][0],
        join(items, seq![',', ' ']).last() == items.last().last(),
    decreases items.len(),
{
    assert(plain_item(items[0]));
    assert(plain_item(items[items.len() - 1]));
    if items.len() > 1 {
        let dl = items.drop_last();
        assert forall|k: int| 0 <= k < dl.len() implies plain_item(#[trigger] dl[k]) by {
            assert(dl[k] == items[k]);
        }
        lemma_join_ends(dl);
    }
}

/// A list written with `format_yaml_array` reads back as the same items
/// with `parse_yaml_array`, for items that are not empty, have no white
/// space at either end, and hold none of `,`, `[`, `]`.
pub proof fn lemma_yaml_list_roundtrip(items: Seq<Seq<char>>)
    requires
        forall|k: int| 0 <= k < items.len() ==> plain_item(#[trigger] items[k]),
    ensures
        yaml_array(yaml_list_text(items)) == items,
{
    if items.len() == 0 {
        assert(trim(empty_list_text()) == empty_list_text());
        assert(items =~= Seq::<Seq<char>>::empty());
    } else {
        let j = join(items, seq![',', ' ']);
        lemma_join_ends(items);
        assert(plain_item(items[0]));
        assert(plain_item(items[items.len() - 1]));
        let t = seq!['['] + j + seq![']'];
        assert(t[0] == '[' && t.last() == ']');
        crate::text::lemma_trim_fixed(t);
        assert(t.len() > 2);
        assert(t != empty_list_text());
        assert(t.drop_first() =~= j + seq![']']);
        assert((j + seq![']'])[0] == items[0][0]);
        assert(strip_leading(j + seq![']'], '[') == j + seq![']']);
        assert((j + seq![']']).drop_last() =~= j);
        assert(strip_trailing(j, ']') == j);
        assert(strip_trailing(j + seq![']'], ']') == j);
        lemma_split_joined(items);
        lemma_pieces_trimmed(items);
    }
}

proof fn lemma_apply_lines_push(m: MetaModel, ls: Seq<Seq<char>>, l: Seq<char>)
    ensures
        apply_lines(m, ls.push(l)) == apply_line(apply_lines(m, ls), l),
{
    assert(ls.push(l).drop_last() =~= ls);
}

proof fn lemma_digits_value_push(s: Seq<char>, c: char)
    ensures
        digits_value(s.push(c)) == digits_value(s) * 10 + digit_value(c),
{
    assert(s.push(c).drop_last() =~= s);
}

// ---------------------------------------------------------------------------
// Executable functions
// ---------------------------------------------------------------------------

/// Whether `v[lo..hi]` equals `w`.
pub fn range_eq(v: &Vec<char>, lo: usize, hi: usize, w: &Vec<char>) -> (r: bool)
    requires
        lo <= hi <= v.len(),
    ensures
        r == (v@.subrange(lo as int, hi as int) == w@),
{
    if hi - lo != w.len() {
        return false;
    }
    let mut i: usize = 0;
    while i < w.len()
        invariant
            i <= w@.len(),
            hi - lo == w@.len(),
            lo <= hi <= v@.len(),
            forall|j: int| 0 <= j < i ==> v@[lo + j] == w@[j],
        decreases w@.len() - i,
    {
        if v[lo + i] != w[i] {
            assert(v@.subrange(lo as int, hi as int)[i as int] != w@[i as int]);
            return false;
        }
        i = i + 1;
    }
    assert(v@.subrange(lo as int, hi as int) =~= w@);
    true
}

/// The position of the first `c` in `v[lo..hi]`, relative to `lo`.
pub fn range_index_of(v: &Vec<char>, lo: usize, hi: usize, c: char) -> (r: Option<usize>)
    requires
        lo <= hi <= v.len(),
    ensures
        match r {
            Some(k) => index_of(v@.subrange(lo as int, hi as int), c) == Some(k as int),
            None => index_of(v@.subrange(lo as int, hi as int), c) is None,
        },
{
    let ghost s = v@.subrange(lo as int, hi as int);
    let mut i = lo;
    while i < hi
        invariant
            lo <= i <= hi <= v@.len(),
            s == v@.subrange(lo as int, hi as int),
            forall|j: int| 0 <= j < i - lo ==> s[j] != c,
        decreases hi - i,
    {
        if v[i] == c {
            proof { lemma_index_of_is(s, c, i - lo); }
            return Some(i - lo);
        }
        i = i + 1;
    }
    proof { lemma_index_of_none(s, c); }
    None
}

/// The items of the list written in `v[lo..hi]`.
pub fn yaml_array_of_range(v: &Vec<char>, lo: usize, hi: usize) -> (r: Vec<String>)
    requires
        lo <= hi <= v.len(),
    ensures
        views(r@) == yaml_array(v@.subrange(lo as int, hi as int)),
{
    let (a, b) = trim_bounds(v, lo, hi);
    let ghost t = v@.subrange(a as int, b as int);
    let empty: Vec<char> = vec!['[', ']'];
    if a == b || range_eq(v, a, b, &empty) {
        proof {
            if a == b {
                assert(t.len() == 0);
            } else {
                assert(t == empty_list_text());
            }
        }
        return Vec::new();
    }
    assert(t != empty_list_text());
    // strip the leading '[' and trailing ']'
    let mut p = a;
    while p < b && v[p] == '['
        invariant
            a <= p <= b <= v@.len(),
            forall|j: int| a <= j < p ==> v@[j] == '[',
        decreases b - p,
    {
        p = p + 1;
    }
    proof {
        assert forall|j: int| 0 <= j < p - a implies t[j] == '[' by { assert(t[j] == v@[a + j]); }
        lemma_strip_leading_skip(t, '[', p - a);
        assert(t.skip(p - a) =~= v@.subrange(p as int, b as int));
        if p < b {
            assert(strip_leading(v@.subrange(p as int, b as int), '[') == v@.subrange(p as int, b as int));
        }
    }
    let ghost u = v@.subrange(p as int, b as int);
    let mut q = b;
    while q > p && v[q - 1] == ']'
        invariant
            p <= q <= b <= v@.len(),
            forall|j: int| q <= j < b ==> v@[j] == ']',
        decreases q - p,
    {
        q = q - 1;
    }
    proof {
        assert forall|j: int| q - p <= j < u.len() implies u[j] == ']' by { assert(u[j] == v@[p + j]); }
        lemma_strip_trailing_take(u, ']', q - p);
        assert(u.take(q - p) =~= v@.subrange(p as int, q as int));
    }
    let ghost inner = v@.subrange(p as int, q as int);
    assert(inner == strip_trailing(strip_leading(t, '['), ']'));
    if p == q {
        return Vec::new();
    }
    // split at ',' and keep the non-empty trimmed pieces
    let mut r: Vec<String> = Vec::new();
    let mut start = p;
    let ghost mut done: Seq<Seq<char>> = Seq::empty();
    loop
        invariant
            p <= start <= q <= v@.len(),
            inner == v@.subrange(p as int, q as int),
            t == trim(v@.subrange(lo as int, hi as int)),
            t.len() > 0,
            t != empty_list_text(),
            inner.len() > 0,
            inner == strip_trailing(strip_leading(t, '['), ']'),
            split_on(inner, ',') == done + split_on(v@.subrange(start as int, q as int), ','),
            views(r@) == nonempty_trimmed(done),
        decreases q - start,
    {
        let ghost rest = v@.subrange(start as int, q as int);
        match range_index_of(v, start, q, ',') {
            Some(k) => {
                proof { lemma_index_of_props(rest, ','); }
                let e = start + k;
                proof {
                    assert(rest.take(k as int) =~= v@.subrange(start as int, e as int));
                    assert(rest.skip(k + 1) =~= v@.subrange(e + 1, q as int));
                    assert(split_on(rest, ',') == seq![v@.subrange(start as int, e as int)] + split_on(v@.subrange(e + 1, q as int), ','));
                    lemma_nonempty_trimmed_push(done, v@.subrange(start as int, e as int));
                }
                let (x, y) = trim_bounds(v, start, e);
                if x < y {
                    let ghost before = views(r@);
                    r.push(string_of_range(v, x, y));
                    assert(views(r@) =~= before.push(v@.subrange(x as int, y as int)));
                }
                proof {
                    assert(split_on(inner, ',') =~= done.push(v@.subrange(start as int, e as int)) + split_on(v@.subrange(e + 1, q as int), ','));
                    done = done.push(v@.subrange(start as int, e as int));
                }
                start = e + 1;
            },
            None => {
                proof {
                    assert(split_on(rest, ',') == seq![rest]);
                    lemma_nonempty_trimmed_push(done, rest);
                }
                let (x, y) = trim_bounds(v, start, q);
                if x < y {
                    let ghost before = views(r@);
                    r.push(string_of_range(v, x, y));
                    assert(views(r@) =~= before.push(v@.subrange(x as int, y as int)));
                }
                proof {
                    assert(split_on(inner, ',') =~= done.push(rest));
                }
                return r;
            },
        }
    }
}

/// Parse a YAML array string like `[foo, bar]` into its items.
pub fn parse_yaml_array(s: &str) -> (r: Vec<String>)
    ensures
        views(r@) == yaml_array(s@),
{
    let v = chars_of(s);
    assert(v@.subrange(0, v@.len() as int) =~= v@);
    yaml_array_of_range(&v, 0, v.len())
}

/// Format a list of strings as a YAML array string: `[]`, or `[a, b]`.
pub fn format_yaml_array(items: &[String]) -> (r: String)
    ensures
        r@ == yaml_list_text(views(items@)),
{
    if items.len() == 0 {
        let r = crate::text::owned("[]");
        proof { reveal_strlit("[]"); assert(r@ =~= empty_list_text()); }
        return r;
    }
    let mut r = crate::text::owned("[");
    let mut k: usize = 0;
    let ghost vs = views(items@);
    proof {
        reveal_strlit("[");
        assert(vs.take(0) =~= Seq::<Seq<char>>::empty());
        assert(r@ =~= seq!['['] + join(vs.take(0), seq![',', ' ']));
    }
    while k < items.len()
        invariant
            k <= items@.len(),
            vs == views(items@),
            items@.len() > 0,
            r@ == seq!['['] + join(vs.take(k as int), seq![',', ' ']),
        decreases items@.len() - k,
    {
        proof {
            assert(vs.take(k + 1) =~= vs.take(k as int).push(vs[k as int]));
            lemma_join_push(vs.take(k as int), seq![',', ' '], vs[k as int]);
        }
        if k > 0 {
            push_str(&mut r, ", ");
            proof { reveal_strlit(", "); }
        }
        push_str(&mut r, items[k].as_str());
        proof {
            reveal_strlit(", ");
            if k == 0 {
                assert(vs.take(1) =~= seq![vs[0]]);
            }
            assert(r@ =~= seq!['['] + join(vs.take(k + 1), seq![',', ' ']));
        }
        k = k + 1;
    }
    push_str(&mut r, "]");
    proof {
        reveal_strlit("[");
        reveal_strlit("]");
        assert(vs.take(items@.len() as int) =~= vs);
        assert(r@ =~= yaml_list_text(vs));
    }
    r
}

/// `str::parse::<u8>` of `v[lo..hi]`.
pub fn parse_u8_range(v: &Vec<char>, lo: usize, hi: usize) -> (r: Option<u8>)
    requires
        lo <= hi <= v.len(),
    ensures
        match r {
            Some(n) => parse_u8(v@.subrange(lo as int, hi as int)) == Some(n as nat),
            None => parse_u8(v@.subrange(lo as int, hi as int)) is None,
        },
{
    let ghost s = v@.subrange(lo as int, hi as int);
    let mut a = lo;
    if a < hi && v[a] == '+' {
        a = a + 1;
    }
    let ghost d = unsigned_digits(s);
    assert(d =~= v@.subrange(a as int, hi as int));
    if a == hi {
        assert(d.len() == 0);
        assert(parse_u8(s) is None);
        return None;
    }
    let mut val: u32 = 0;
    let mut i = a;
    while i < hi
        invariant
            lo <= a <= i <= hi <= v@.len(),
            d == v@.subrange(a as int, hi as int),
            s == v@.subrange(lo as int, hi as int),
            d == unsigned_digits(s),
            forall|j: int| 0 <= j < i - a ==> is_digit(#[trigger] d[j]),
            val == if digits_value(d.take(i - a)) > 256 { 256 } else { digits_value(d.take(i - a)) },
        decreases hi - i,
    {
        let c = v[i];
        if !('0' <= c && c <= '9') {
            assert(!is_digit(d[i - a]));
            assert(!all_digits(d));
            assert(parse_u8(s) is None);
            return None;
        }
        proof {
            assert(d.take(i - a + 1) =~= d.take(i - a).push(c));
            lemma_digits_value_push(d.take(i - a), c);
        }
        let dv = (c as u32) - ('0' as u32);
        let next = val * 10 + dv;
        val = if next > 256 { 256 } else { next };
        i = i + 1;
    }
    assert(d.take(i - a) =~= d);
    if val > 255 {
        None
    } else {
        Some(val as u8)
    }
}

/// The priority a `priority:` value in `v[lo..hi]` gives.
fn priority_of_range(v: &Vec<char>, lo: usize, hi: usize) -> (p: Priority)
    requires
        lo <= hi <= v.len(),
    ensures
        p == priority_field(v@.subrange(lo as int, hi as int)),
{
    match parse_u8_range(v, lo, hi) {
        Some(n) => match Priority::from_u8(n) {
            Some(p) => p,
            None => Priority::P2,
        },
        None => Priority::P2,
    }
}

/// Reads the field `key: value` of the line `v[lo..hi]` into `fm`.
fn apply_line_range(fm: &mut FrontMatter, v: &Vec<char>, lo: usize, hi: usize)
    requires
        lo <= hi <= v.len(),
    ensures
        final(fm).model() == apply_line(old(fm).model(), v@.subrange(lo as int, hi as int)),
{
    let (x, y) = trim_bounds(v, lo, hi);
    if x == y {
        return;
    }
    let ghost l = v@.subrange(x as int, y as int);
    let k = match range_index_of(v, x, y, ':') {
        Some(k) => k,
        None => { return; },
    };
    proof { lemma_index_of_props(l, ':'); }
    let c = x + k;
    let (ka, kb) = trim_bounds(v, x, c);
    let (va, vb) = trim_bounds(v, c + 1, y);
    proof {
        assert(l.take(k as int) =~= v@.subrange(x as int, c as int));
        assert(l.skip(k + 1) =~= v@.subrange(c + 1, y as int));
    }
    let ghost key = v@.subrange(ka as int, kb as int);
    let ghost value = v@.subrange(va as int, vb as int);
    let ghost m = fm.model();
    if range_eq(v, ka, kb, &vec!['i', 'd']) {
        fm.id = string_of_range(v, va, vb);
    } else if range_eq(v, ka, kb, &vec!['s', 't', 'a', 't', 'u', 's']) {
        fm.status = string_of_range(v, va, vb);
    } else if range_eq(v, ka, kb, &vec!['o', 'p', 'e', 'n']) {
        fm.open = Some(range_eq(v, va, vb, &vec!['t', 'r', 'u', 'e']));
    } else if range_eq(v, ka, kb, &vec!['d', 'e', 'p', 's']) {
        fm.deps = yaml_array_of_range(v, va, vb);
    } else if range_eq(v, ka, kb, &vec!['l', 'i', 'n', 'k', 's']) {
        fm.links = yaml_array_of_range(v, va, vb);
    } else if range_eq(v, ka, kb, &vec!['c', 'r', 'e', 'a', 't', 'e', 'd']) {
        fm.created = string_of_range(v, va, vb);
    } else if range_eq(v, ka, kb, &vec!['t', 'y', 'p', 'e']) {
        fm.metadata_type = string_of_range(v, va, vb);
    } else if range_eq(v, ka, kb, &vec!['p', 'r', 'i', 'o', 'r', 'i', 't', 'y']) {
        fm.priority = priority_of_range(v, va, vb);
    } else if range_eq(v, ka, kb, &vec!['a', 's', 's', 'i', 'g', 'n', 'e', 'e']) {
        fm.assignee = Some(string_of_range(v, va, vb));
    } else if range_eq(v, ka, kb, &vec!['e', 'x', 't', 'e', 'r', 'n', 'a', 'l', '-', 'r', 'e', 'f']) {
        fm.external_ref = Some(string_of_range(v, va, vb));
    } else if range_eq(v, ka, kb, &vec!['p', 'a', 'r', 'e', 'n', 't']) {
        fm.parent = Some(string_of_range(v, va, vb));
    } else if range_eq(v, ka, kb, &vec!['t', 'a', 'g', 's']) {
        fm.tags = Some(yaml_array_of_range(v, va, vb));
    }
    assert(fm.model() =~= set_field(m, key, value));
}

/// Reads the front matter text `v[lo..hi]` of a ticket whose file names `default_id`.
#[verifier::spinoff_prover]
pub fn parse_frontmatter_range(v: &Vec<char>, lo: usize, hi: usize, default_id: &str) -> (fm: FrontMatter)
    requires
        lo <= hi <= v.len(),
    ensures
        fm.model() == frontmatter_model(v@.subrange(lo as int, hi as int), default_id@),
{
    let mut fm = FrontMatter {
        id: crate::text::owned(default_id),
        status: String::new(),
        open: None,
        deps: Vec::new(),
        links: Vec::new(),
        created: String::new(),
        metadata_type: String::new(),
        priority: Priority::P2,
        assignee: None,
        external_ref: None,
        parent: None,
        tags: None,
    };
    proof {
        assert(views(Seq::<String>::empty()) =~= Seq::<Seq<char>>::empty());
        assert(fm.model() =~= initial_meta(default_id@));
    }
    let ls = line_bounds(v, lo, hi);
    let ghost all = lines(v@.subrange(lo as int, hi as int));
    for k in 0..ls.len()
        invariant
            ls@.len() == all.len(),
            all == lines(v@.subrange(lo as int, hi as int)),
            forall|t: int| 0 <= t < ls@.len() ==> {
                &&& lo <= (#[trigger] ls@[t]).0 <= ls@[t].1 <= hi
                &&& v@.subrange(ls@[t].0 as int, ls@[t].1 as int) == all[t]
            },
            lo <= hi <= v@.len(),
            fm.model() == apply_lines(initial_meta(default_id@), all.take(k as int)),
    {
        let (a, b) = ls[k];
        proof {
            assert(all.take(k + 1) =~= all.take(k as int).push(all[k as int]));
            lemma_apply_lines_push(initial_meta(default_id@), all.take(k as int), all[k as int]);
            assert(v@.subrange(a as int, b as int) == all[k as int]);
        }
        apply_line_range(&mut fm, v, a, b);
    }
    assert(all.take(ls@.len() as int) =~= all);
    fm
}

} // verus!
