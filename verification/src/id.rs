//! Ticket ID generation and resolution.
//!
//! An id reads `<prefix>-<suffix>`: the prefix is the first letter of each
//! hyphen- or underscore-separated segment of the directory name (or its
//! first three characters), the suffix four random characters out of
//! `a-z0-9`, e.g. "nw-5c46", "tk-ab12".

use vstd::prelude::*;
use crate::text::{
    chars_of, contains_str, ends_with, join, owned, push_char, push_str, starts_with, str_contains, str_ends_with, str_eq,
    str_starts_with,
    string_of_range, trim, trimmed, views, index_of, lemma_index_of_props, range_ends_with,
};

verus! {

// ---------------------------------------------------------------------------
// Specifications
// ---------------------------------------------------------------------------

/// Number of bytes of the UTF-8 encoding of `c`.
pub open spec fn utf8_width(c: char) -> nat {
    if (c as u32) < 0x80 { 1 } else if (c as u32) < 0x800 { 2 } else if (c as u32) < 0x10000 { 3 } else { 4 }
}

/// Number of bytes of the UTF-8 encoding of `s` (`str::len`).
pub open spec fn utf8_len(s: Seq<char>) -> nat
    decreases s.len(),
{
    if s.len() == 0 {
        0
    } else {
        utf8_len(s.drop_last()) + utf8_width(s.last())
    }
}

pub open spec fn is_separator(c: char) -> bool {
    c == '-' || c == '_'
}

/// The first character of each non-empty segment of `s` between `-` and `_`.
pub open spec fn initials(s: Seq<char>) -> Seq<char>
    decreases s.len(),
{
    if s.len() == 0 {
        Seq::empty()
    } else {
        let starts_segment = !is_separator(s.last()) && (s.len() == 1 || is_separator(s[s.len() - 2]));
        if starts_segment {
            initials(s.drop_last()).push(s.last())
        } else {
            initials(s.drop_last())
        }
    }
}

/// The prefix of the ids made in a directory named `dir`.
pub open spec fn id_prefix(dir: Seq<char>) -> Seq<char> {
    if utf8_len(initials(dir)) < 2 {
        dir.take(if dir.len() < 3 { dir.len() as int } else { 3 })
    } else {
        initials(dir)
    }
}

/// The characters an id suffix is drawn from.
pub open spec fn suffix_alphabet() -> Seq<char> {
    seq!['a', 'b', 'c', 'd', 'e', 'f', 'g', 'h', 'i', 'j', 'k', 'l', 'm', 'n', 'o', 'p', 'q', 'r',
        's', 't', 'u', 'v', 'w', 'x', 'y', 'z', '0', '1', '2', '3', '4', '5', '6', '7', '8', '9']
}

pub open spec fn is_suffix_char(c: char) -> bool {
    ('a' <= c && c <= 'z') || ('0' <= c && c <= '9')
}

/// The id made in directory `dir` with the suffix characters picked by `draws`.
pub open spec fn id_from_draws(dir: Seq<char>, draws: Seq<usize>) -> Seq<char> {
    id_prefix(dir) + seq!['-'] + draws.map_values(|d: usize| suffix_alphabet()[d as int])
}

/// The file name of the ticket `id`.
pub open spec fn filename_of(id: Seq<char>) -> Seq<char> {
    id + seq!['.', 'm', 'd']
}

/// The ticket id a file name stands for, if it is a ticket file name.
pub open spec fn id_of_filename(f: Seq<char>) -> Option<Seq<char>> {
    if ends_with(f, seq!['.', 'm', 'd']) {
        Some(f.take(f.len() - 3))
    } else {
        None
    }
}

/// Whether `s` reads `<prefix>-<suffix>` with a suffix of four characters of `a-z0-9`,
/// and is at most 64 bytes long.
pub open spec fn valid_id(s: Seq<char>) -> bool {
    &&& s.len() > 0
    &&& utf8_len(s) <= 64
    &&& match index_of(s, '-') {
        Some(k) => {
            let suffix = s.skip(k + 1);
            utf8_len(suffix) == 4 && forall|j: int| 0 <= j < suffix.len() ==> is_suffix_char(#[trigger] suffix[j])
        },
        None => false,
    }
}

/// Whether `id` matches the query `p` in the way `kind` names: 0 as a
/// suffix, 1 as a prefix, otherwise as a substring.
pub open spec fn matches_kind(id: Seq<char>, p: Seq<char>, kind: nat) -> bool {
    if kind == 0 {
        ends_with(id, p)
    } else if kind == 1 {
        starts_with(id, p)
    } else {
        contains_str(id, p)
    }
}

/// The ids among `ids` that match `p` in the way `kind` names, in order.
pub open spec fn matching(ids: Seq<Seq<char>>, p: Seq<char>, kind: nat) -> Seq<Seq<char>>
    decreases ids.len(),
{
    if ids.len() == 0 {
        Seq::empty()
    } else if matches_kind(ids.last(), p, kind) {
        matching(ids.drop_last(), p, kind).push(ids.last())
    } else {
        matching(ids.drop_last(), p, kind)
    }
}

/// The candidates for a query that is no id: the ids that end with it;
/// where there are none, those that start with it; where there are none,
/// those that contain it.
pub open spec fn candidates(ids: Seq<Seq<char>>, p: Seq<char>) -> Seq<Seq<char>> {
    if matching(ids, p, 0).len() > 0 {
        matching(ids, p, 0)
    } else if matching(ids, p, 1).len() > 0 {
        matching(ids, p, 1)
    } else {
        matching(ids, p, 2)
    }
}

/// Why a partial id could not be resolved.
#[derive(Debug, Clone)]
pub enum ResolveError {
    /// No id equals, ends with, starts with or contains the query.
    NotFound { partial: String },
    /// Several ids match the query in the first way that any id does, and none
    /// equals it.
    Ambiguous { partial: String, matches: Vec<String> },
}

pub open spec fn not_found_message(p: Seq<char>) -> Seq<char> {
    seq!['t', 'i', 'c', 'k', 'e', 't', ' ', '\''] + p + seq!['\'', ' ', 'n', 'o', 't', ' ', 'f', 'o', 'u', 'n', 'd']
}

pub open spec fn ambiguous_message(p: Seq<char>, matches: Seq<Seq<char>>) -> Seq<char> {
    seq!['a', 'm', 'b', 'i', 'g', 'u', 'o', 'u', 's', ' ', 'I', 'D', ' ', '\''] + p
        + seq!['\'', ' ', 'm', 'a', 't', 'c', 'h', 'e', 's', ' ', 'm', 'u', 'l', 't', 'i', 'p', 'l', 'e', ' ',
            't', 'i', 'c', 'k', 'e', 't', 's', ':', ' '] + join(matches, seq![',', ' '])
}

impl ResolveError {
    pub open spec fn message_spec(&self) -> Seq<char> {
        match self {
            ResolveError::NotFound { partial } => not_found_message(partial@),
            ResolveError::Ambiguous { partial, matches } => ambiguous_message(partial@, views(matches@)),
        }
    }

    /// The message that explains the error.
    pub fn message(&self) -> (m: String)
        ensures
            m@ == self.message_spec(),
    {
        match self {
            ResolveError::NotFound { partial } => {
                let mut m = owned("ticket '");
                push_str(&mut m, partial.as_str());
                push_str(&mut m, "' not found");
                proof {
                    reveal_strlit("ticket '");
                    reveal_strlit("' not found");
                    assert(m@ =~= not_found_message(partial@));
                }
                m
            },
            ResolveError::Ambiguous { partial, matches } => {
                let mut m = owned("ambiguous ID '");
                push_str(&mut m, partial.as_str());
                push_str(&mut m, "' matches multiple tickets: ");
                let list = crate::text::join_strings(matches, ", ");
                push_str(&mut m, list.as_str());
                proof {
                    reveal_strlit("ambiguous ID '");
                    reveal_strlit("' matches multiple tickets: ");
                    reveal_strlit(", ");
                    assert(", "@ =~= seq![',', ' ']);
                    assert(m@ =~= ambiguous_message(partial@, views(matches@)));
                }
                m
            },
        }
    }
}

// ---------------------------------------------------------------------------
// Lemmas
// ---------------------------------------------------------------------------

pub proof fn lemma_matching_take(ids: Seq<Seq<char>>, p: Seq<char>, kind: nat, i: int)
    requires
        0 <= i < ids.len(),
    ensures
        matching(ids.take(i + 1), p, kind) == if matches_kind(ids[i], p, kind) {
            matching(ids.take(i), p, kind).push(ids[i])
        } else {
            matching(ids.take(i), p, kind)
        },
{
    assert(ids.take(i + 1).drop_last() =~= ids.take(i));
}

/// An id made in a directory reads as a valid id wherever its prefix holds
/// no `-` and the whole id is at most 64 bytes long: the prefix, `-`, and
/// four suffix characters of `a-z0-9`.
pub proof fn lemma_generated_id_valid(dir: Seq<char>, draws: Seq<usize>)
    requires
        draws.len() == 4,
        forall|k: int| 0 <= k < 4 ==> #[trigger] draws[k] < 36,
        forall|k: int| 0 <= k < id_prefix(dir).len() ==> #[trigger] id_prefix(dir)[k] != '-',
        utf8_len(id_from_draws(dir, draws)) <= 64,
    ensures
        valid_id(id_from_draws(dir, draws)),
{
    let p = id_prefix(dir);
    let suffix = draws.map_values(|d: usize| suffix_alphabet()[d as int]);
    let s = id_from_draws(dir, draws);
    assert(s[p.len() as int] == '-');
    assert forall|j: int| 0 <= j < p.len() implies s[j] != '-' by {
        assert(s[j] == p[j]);
    }
    crate::text::lemma_index_of_is(s, '-', p.len() as int);
    assert(s.skip(p.len() as int + 1) =~= suffix);
    assert forall|j: int| 0 <= j < suffix.len() implies is_suffix_char(#[trigger] suffix[j]) by {
        assert(suffix[j] == suffix_alphabet()[draws[j] as int]);
        assert(draws[j] < 36);
    }
    assert forall|j: int| 0 <= j < 4 implies utf8_width(#[trigger] suffix[j]) == 1 by {
        assert(is_suffix_char(suffix[j]));
    }
    let s3 = suffix.drop_last();
    let s2 = s3.drop_last();
    let s1 = s2.drop_last();
    let s0 = s1.drop_last();
    assert(s0 =~= Seq::<char>::empty());
    assert(utf8_width(suffix[3]) == 1 && utf8_width(suffix[2]) == 1 && utf8_width(suffix[1]) == 1
        && utf8_width(suffix[0]) == 1);
    assert(utf8_len(s0) == 0);
    assert(s1.last() == suffix[0]);
    assert(utf8_len(s1) == 1);
    assert(s2.last() == suffix[1]);
    assert(utf8_len(s2) == 2);
    assert(s3.last() == suffix[2]);
    assert(utf8_len(s3) == 3);
    assert(suffix.last() == suffix[3]);
    assert(utf8_len(suffix) == 4);
}

/// The file name of a ticket gives its id back.
pub proof fn lemma_filename_roundtrip(id: Seq<char>)
    ensures
        id_of_filename(filename_of(id)) == Some(id),
{
    let f = filename_of(id);
    assert(f.skip(f.len() - 3) =~= seq!['.', 'm', 'd']);
    assert(f.take(f.len() - 3) =~= id);
}

/// Only names that end in `.md` are ticket files, and the id is the name
/// without that extension.
pub proof fn lemma_filename_of_id(f: Seq<char>)
    requires
        id_of_filename(f) is Some,
    ensures
        filename_of(id_of_filename(f).unwrap()) == f,
{
    let id = f.take(f.len() - 3);
    assert(id + seq!['.', 'm', 'd'] =~= f);
}

proof fn lemma_utf8_len_push(s: Seq<char>, c: char)
    ensures
        utf8_len(s.push(c)) == utf8_len(s) + utf8_width(c),
{
    assert(s.push(c).drop_last() =~= s);
}

// ---------------------------------------------------------------------------
// Executable functions
// ---------------------------------------------------------------------------

/// Number of bytes of the UTF-8 encoding of `c`.
fn char_width(c: char) -> (n: u64)
    ensures
        n == utf8_width(c),
{
    let u = c as u32;
    if u < 0x80 { 1 } else if u < 0x800 { 2 } else if u < 0x10000 { 3 } else { 4 }
}

/// Number of bytes of the UTF-8 encoding of `v[lo..hi]`, or `None` past `u64::MAX`.
fn utf8_len_of_range(v: &Vec<char>, lo: usize, hi: usize) -> (n: u64)
    requires
        lo <= hi <= v.len(),
        hi - lo <= 0x1000_0000_0000,
    ensures
        n == utf8_len(v@.subrange(lo as int, hi as int)),
{
    let mut n: u64 = 0;
    let mut i = lo;
    while i < hi
        invariant
            lo <= i <= hi <= v.len(),
            hi - lo <= 0x1000_0000_0000,
            n == utf8_len(v@.subrange(lo as int, i as int)),
            n <= 4 * (i - lo),
        decreases hi - i,
    {
        proof {
            assert(v@.subrange(lo as int, i + 1) =~= v@.subrange(lo as int, i as int).push(v@[i as int]));
            lemma_utf8_len_push(v@.subrange(lo as int, i as int), v@[i as int]);
        }
        n = n + char_width(v[i]);
        i = i + 1;
    }
    n
}

/// Whether the characters `v[lo..hi]` are at most `limit` bytes long in UTF-8.
fn utf8_len_at_most(v: &Vec<char>, lo: usize, hi: usize, limit: u64) -> (r: bool)
    requires
        lo <= hi <= v.len(),
        limit < 0x1000_0000,
    ensures
        r == (utf8_len(v@.subrange(lo as int, hi as int)) <= limit),
{
    let mut n: u64 = 0;
    let mut i = lo;
    while i < hi
        invariant
            lo <= i <= hi <= v.len(),
            n == utf8_len(v@.subrange(lo as int, i as int)),
            n <= limit,
            limit < 0x1000_0000,
        decreases hi - i,
    {
        proof {
            assert(v@.subrange(lo as int, i + 1) =~= v@.subrange(lo as int, i as int).push(v@[i as int]));
            lemma_utf8_len_push(v@.subrange(lo as int, i as int), v@[i as int]);
        }
        n = n + char_width(v[i]);
        if n > limit {
            proof { lemma_utf8_len_prefix_le(v@.subrange(lo as int, hi as int), i + 1 - lo); }
            assert(v@.subrange(lo as int, hi as int).take(i + 1 - lo) =~= v@.subrange(lo as int, i + 1));
            return false;
        }
        i = i + 1;
    }
    true
}

proof fn lemma_utf8_len_prefix_le(s: Seq<char>, k: int)
    requires
        0 <= k <= s.len(),
    ensures
        utf8_len(s.take(k)) <= utf8_len(s),
    decreases s.len() - k,
{
    if k < s.len() {
        assert(s.take(k) =~= s.drop_last().take(k));
        lemma_utf8_len_prefix_le(s.drop_last(), k);
    } else {
        assert(s.take(k) =~= s);
    }
}

/// The prefix of the ids made in the directory named `dir_name`.
pub fn make_id_prefix(dir_name: &str) -> (r: String)
    ensures
        r@ == id_prefix(dir_name@),
{
    let v = chars_of(dir_name);
    let mut init: Vec<char> = Vec::new();
    let mut i: usize = 0;
    while i < v.len()
        invariant
            i <= v.len(),
            v@ == dir_name@,
            init@ == initials(v@.take(i as int)),
        decreases v.len() - i,
    {
        let c = v[i];
        let sep = c == '-' || c == '_';
        let starts = !sep && (i == 0 || v[i - 1] == '-' || v[i - 1] == '_');
        proof {
            let t = v@.take(i + 1);
            assert(t.drop_last() =~= v@.take(i as int));
            assert(t.last() == c);
            if i > 0 {
                assert(t[t.len() - 2] == v@[i - 1]);
            }
        }
        if starts {
            init.push(c);
        }
        i = i + 1;
    }
    assert(v@.take(v.len() as int) =~= v@);
    let wide = utf8_len_at_most(&init, 0, init.len(), 1);
    assert(init@.subrange(0, init@.len() as int) =~= init@);
    if wide {
        let k: usize = if v.len() < 3 { v.len() } else { 3 };
        let r = string_of_range(&v, 0, k);
        assert(v@.subrange(0, k as int) =~= v@.take(k as int));
        r
    } else {
        crate::text::string_of(&init)
    }
}

/// The id made in the directory named `dir_name` with the suffix characters
/// picked by `draws` (each an index into `a-z0-9`).
pub fn id_with_draws(dir_name: &str, draws: &Vec<usize>) -> (r: String)
    requires
        forall|k: int| 0 <= k < draws@.len() ==> #[trigger] draws@[k] < 36,
    ensures
        r@ == id_from_draws(dir_name@, draws@),
{
    let alphabet = chars_of("abcdefghijklmnopqrstuvwxyz0123456789");
    proof {
        reveal_strlit("abcdefghijklmnopqrstuvwxyz0123456789");
        assert(alphabet@ =~= suffix_alphabet());
    }
    let mut r = make_id_prefix(dir_name);
    push_char(&mut r, '-');
    let ghost base = r@;
    for k in 0..draws.len()
        invariant
            alphabet@ == suffix_alphabet(),
            forall|j: int| 0 <= j < draws@.len() ==> #[trigger] draws@[j] < 36,
            r@ == base + draws@.take(k as int).map_values(|d: usize| suffix_alphabet()[d as int]),
    {
        let d = draws[k];
        push_char(&mut r, alphabet[d]);
        proof {
            assert(draws@.take(k + 1) =~= draws@.take(k as int).push(d));
            assert(draws@.take(k + 1).map_values(|d: usize| suffix_alphabet()[d as int])
                =~= draws@.take(k as int).map_values(|d: usize| suffix_alphabet()[d as int]).push(
                suffix_alphabet()[d as int]));
        }
    }
    assert(draws@.take(draws.len() as int) =~= draws@);
    assert(r@ =~= id_from_draws(dir_name@, draws@));
    r
}

/// A random index below `bound`: calls `fastrand::usize(..bound)`, which
/// panics on an empty range (hence `bound > 0`). Claimed: only that the
/// result is below `bound`; which index comes is chance.
#[verifier::external_body]
fn random_below(bound: usize) -> (r: usize)
    requires
        bound > 0,
    ensures
        r < bound,
{
    fastrand::usize(..bound)
}

/// Generate a ticket ID from the directory name and a random four-character suffix.
pub fn generate_id(dir_name: &str) -> (r: String)
    ensures
        exists|draws: Seq<usize>|
            draws.len() == 4
            && (forall|k: int| 0 <= k < 4 ==> #[trigger] draws[k] < 36)
            && r@ == id_from_draws(dir_name@, draws),
{
    let mut draws: Vec<usize> = Vec::new();
    for k in 0..4usize
        invariant
            draws@.len() == k,
            forall|j: int| 0 <= j < draws@.len() ==> #[trigger] draws@[j] < 36,
    {
        draws.push(random_below(36));
    }
    id_with_draws(dir_name, &draws)
}

/// The ids among `ids` that match `p` in the way `kind` names (see
/// `matches_kind`), and the position of the first of them.
fn collect_matches(ids: &[String], p: &String, kind: u8) -> (r: (Vec<String>, usize))
    ensures
        views(r.0@) == matching(views(ids@), p@, kind as nat),
        r.0@.len() > 0 ==> r.1 < ids@.len() && ids@[r.1 as int]@ == r.0@[0]@,
{
    let ghost vs = views(ids@);
    let mut matches: Vec<String> = Vec::new();
    let mut first: usize = 0;
    let mut k: usize = 0;
    while k < ids.len()
        invariant
            k <= ids@.len(),
            vs == views(ids@),
            views(matches@) == matching(vs.take(k as int), p@, kind as nat),
            matches@.len() > 0 ==> first < ids@.len() && ids@[first as int]@ == matches@[0]@,
        decreases ids.len() - k,
    {
        proof { lemma_matching_take(vs, p@, kind as nat, k as int); }
        let hit = if kind == 0 {
            str_ends_with(&ids[k], p)
        } else if kind == 1 {
            str_starts_with(&ids[k], p)
        } else {
            str_contains(&ids[k], p)
        };
        assert(vs[k as int] == ids@[k as int]@);
        if hit {
            if matches.len() == 0 {
                first = k;
            }
            matches.push(ids[k].clone());
            proof {
                assert(views(matches@) =~= matching(vs.take(k as int), p@, kind as nat).push(vs[k as int]));
            }
        }
        k = k + 1;
    }
    assert(vs.take(ids.len() as int) =~= vs);
    (matches, first)
}

/// Resolve a partial ID to a full ticket ID.
///
/// Matching order:
/// 1. Exact match
/// 2. Suffix match (id ends with the query)
/// 3. Prefix match (id starts with the query)
/// 4. Substring match (id contains the query)
///
/// The first of these that finds any id decides: one id is the answer,
/// several are an ambiguity, none at all is "not found".
pub fn resolve_id<'a>(ids: &'a [String], partial: &str) -> (r: Result<&'a String, ResolveError>)
    ensures
        ({
            let p = trim(partial@);
            let vs = views(ids@);
            let m = candidates(vs, p);
            if vs.contains(p) {
                r matches Ok(id) && id@ == p
            } else if m.len() == 0 {
                r matches Err(ResolveError::NotFound { partial }) && partial@ == p
            } else if m.len() == 1 {
                r matches Ok(id) && id@ == m[0]
            } else {
                r matches Err(ResolveError::Ambiguous { partial, matches })
                    && partial@ == p && views(matches@) == m
            }
        }),
{
    let p = trimmed(partial);
    let ghost vs = views(ids@);
    // 1. Exact match
    let mut i: usize = 0;
    while i < ids.len()
        invariant
            i <= ids@.len(),
            vs == views(ids@),
            p@ == trim(partial@),
            forall|j: int| 0 <= j < i ==> ids@[j]@ != p@,
        decreases ids.len() - i,
    {
        if str_eq(&ids[i], &p) {
            let found = &ids[i];
            assert(vs[i as int] == p@);
            assert(found@ == p@);
            assert(vs.contains(p@));
            return Ok(found);
        }
        i = i + 1;
    }
    assert(!vs.contains(p@)) by {
        if vs.contains(p@) {
            let j = choose|j: int| 0 <= j < vs.len() && vs[j] == p@;
            assert(ids@[j]@ == vs[j]);
        }
    }
    // 2.-4. Suffix, then prefix, then substring
    let (suffix, f0) = collect_matches(ids, &p, 0);
    let (matches, first) = if suffix.len() > 0 {
        (suffix, f0)
    } else {
        let (prefix, f1) = collect_matches(ids, &p, 1);
        if prefix.len() > 0 {
            (prefix, f1)
        } else {
            collect_matches(ids, &p, 2)
        }
    };
    assert(views(matches@) == candidates(vs, p@));
    if matches.len() == 0 {
        Err(ResolveError::NotFound { partial: p })
    } else if matches.len() == 1 {
        assert(views(matches@)[0] == matches@[0]@);
        Ok(&ids[first])
    } else {
        Err(ResolveError::Ambiguous { partial: p, matches })
    }
}

/// The file name of the ticket `id`.
pub fn ticket_filename(id: &str) -> (r: String)
    ensures
        r@ == filename_of(id@),
{
    let mut r = owned(id);
    push_str(&mut r, ".md");
    proof {
        reveal_strlit(".md");
        assert(r@ =~= filename_of(id@));
    }
    r
}

/// The ticket id a file name stands for: the name without `.md`.
pub fn ticket_id_from_filename(filename: &str) -> (r: Option<String>)
    ensures
        match r {
            Some(id) => id_of_filename(filename@) == Some(id@),
            None => id_of_filename(filename@) is None,
        },
{
    let v = chars_of(filename);
    let ext = chars_of(".md");
    proof {
        reveal_strlit(".md");
        assert(ext@ =~= seq!['.', 'm', 'd']);
        assert(v@.subrange(0, v@.len() as int) =~= v@);
    }
    if range_ends_with(&v, 0, v.len(), &ext) {
        let r = string_of_range(&v, 0, v.len() - 3);
        assert(v@.subrange(0, v.len() - 3) =~= v@.take(v@.len() - 3));
        Some(r)
    } else {
        None
    }
}

/// Whether `s` looks like a ticket id: `<prefix>-<suffix>` with a suffix of
/// four lower-case letters or digits, at most 64 bytes in all.
pub fn is_valid_id(s: &str) -> (r: bool)
    ensures
        r == valid_id(s@),
{
    let v = chars_of(s);
    assert(v@.subrange(0, v@.len() as int) =~= v@);
    if v.len() == 0 || v.len() > 64 {
        proof {
            if v.len() > 64 {
                lemma_utf8_len_at_least_len(v@);
            }
        }
        return false;
    }
    if !utf8_len_at_most(&v, 0, v.len(), 64) {
        return false;
    }
    let mut k: usize = 0;
    while k < v.len() && v[k] != '-'
        invariant
            k <= v.len(),
            forall|j: int| 0 <= j < k ==> v@[j] != '-',
        decreases v.len() - k,
    {
        k = k + 1;
    }
    proof { lemma_index_of_props(v@, '-'); }
    if k == v.len() {
        return false;
    }
    let ghost suffix = v@.skip(k + 1);
    assert(index_of(v@, '-') == Some(k as int));
    assert(v@.subrange(k + 1, v@.len() as int) =~= suffix);
    if v.len() - (k + 1) > 4 {
        proof { lemma_utf8_len_at_least_len(suffix); }
        return false;
    }
    let n = utf8_len_of_range(&v, k + 1, v.len());
    if n != 4 {
        return false;
    }
    let mut j = k + 1;
    while j < v.len()
        invariant
            k + 1 <= j <= v.len(),
            v@ == s@,
            index_of(v@, '-') == Some(k as int),
            suffix == v@.skip(k + 1),
            forall|t: int| 0 <= t < j - (k + 1) ==> is_suffix_char(#[trigger] suffix[t]),
        decreases v.len() - j,
    {
        let c = v[j];
        if !(('a' <= c && c <= 'z') || ('0' <= c && c <= '9')) {
            assert(suffix[j - (k + 1)] == c);
            return false;
        }
        j = j + 1;
    }
    true
}

proof fn lemma_utf8_len_at_least_len(s: Seq<char>)
    ensures
        utf8_len(s) >= s.len(),
    decreases s.len(),
{
    if s.len() > 0 {
        lemma_utf8_len_at_least_len(s.drop_last());
    }
}

/// Where the initials of the segments of the directory name take fewer than
/// two bytes (as for a name of one segment, such as `backend`), the id
/// prefix is the name's first three characters, or the whole name when it
/// is shorter; otherwise it is the initials.
pub proof fn lemma_id_prefix_fallback(dir: Seq<char>)
    ensures
        utf8_len(initials(dir)) < 2 ==> {
            &&& id_prefix(dir).len() == if dir.len() < 3 { dir.len() } else { 3 }
            &&& id_prefix(dir).len() <= 3
            &&& forall|i: int| 0 <= i < id_prefix(dir).len() ==> #[trigger] id_prefix(dir)[i] == dir[i]
        },
        utf8_len(initials(dir)) >= 2 ==> id_prefix(dir) == initials(dir),
{
}

/// A name without `-` or `_` has at most one initial, its first character.
proof fn lemma_initials_one_segment(dir: Seq<char>)
    requires
        forall|i: int| 0 <= i < dir.len() ==> !is_separator(#[trigger] dir[i]),
    ensures
        initials(dir) == if dir.len() == 0 { Seq::<char>::empty() } else { seq![dir[0]] },
    decreases dir.len(),
{
    if dir.len() > 1 {
        let d = dir.drop_last();
        assert forall|i: int| 0 <= i < d.len() implies !is_separator(#[trigger] d[i]) by {
            assert(d[i] == dir[i]);
        }
        lemma_initials_one_segment(d);
        assert(!is_separator(dir[dir.len() - 2]));
        assert(d[0] == dir[0]);
        assert(initials(dir) == initials(d));
    } else if dir.len() == 1 {
        assert(dir.drop_last() =~= Seq::<char>::empty());
        assert(initials(dir.drop_last()) == Seq::<char>::empty());
        assert(!is_separator(dir[0]));
        assert(dir.last() == dir[0]);
        assert(initials(dir) == Seq::<char>::empty().push(dir[0]));
        assert(Seq::<char>::empty().push(dir[0]) =~= seq![dir[0]]);
    } else {
        assert(initials(dir) == Seq::<char>::empty());
    }
}

/// A directory name of one segment (no `-` or `_`) that starts with an
/// ASCII character gives ids whose prefix is its first three characters:
/// `backend` gives `bac`.
pub proof fn lemma_one_segment_prefix(dir: Seq<char>)
    requires
        forall|i: int| 0 <= i < dir.len() ==> !is_separator(#[trigger] dir[i]),
        dir.len() > 0 ==> (dir[0] as u32) < 0x80,
    ensures
        id_prefix(dir) == dir.take(if dir.len() < 3 { dir.len() as int } else { 3 }),
        id_prefix(dir).len() <= 3,
{
    lemma_initials_one_segment(dir);
    if dir.len() > 0 {
        let s = seq![dir[0]];
        assert(s.drop_last() =~= Seq::<char>::empty());
        assert(s.last() == dir[0]);
        assert(utf8_len(Seq::<char>::empty()) == 0);
        assert(utf8_width(dir[0]) == 1);
        assert(utf8_len(s) == utf8_len(s.drop_last()) + utf8_width(s.last()));
        assert(utf8_len(initials(dir)) == 1);
    }
}

} // verus!
