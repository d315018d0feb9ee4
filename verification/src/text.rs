//! Character-level text model and the small string routines the rest of the
//! library is built from.  Every routine works on `Seq<char>` in its contract.

use vstd::prelude::*;

verus! {

// ---------------------------------------------------------------------------
// Specifications
// ---------------------------------------------------------------------------

/// Unicode `White_Space`, the set that `char::is_whitespace` (and so
/// `str::trim`) uses.
pub open spec fn is_ws(c: char) -> bool {
    ||| c == '\t' || c == '\n' || c == '\x0B' || c == '\x0C' || c == '\r' || c == ' '
    ||| c == '\u{85}' || c == '\u{A0}' || c == '\u{1680}'
    ||| ('\u{2000}' <= c && c <= '\u{200A}')
    ||| c == '\u{2028}' || c == '\u{2029}' || c == '\u{202F}' || c == '\u{205F}' || c == '\u{3000}'
}

/// `s` without its leading white space.
pub open spec fn trim_start(s: Seq<char>) -> Seq<char>
    decreases s.len(),
{
    if s.len() > 0 && is_ws(s[0]) {
        trim_start(s.drop_first())
    } else {
        s
    }
}

/// `s` without its trailing white space.
pub open spec fn trim_end(s: Seq<char>) -> Seq<char>
    decreases s.len(),
{
    if s.len() > 0 && is_ws(s.last()) {
        trim_end(s.drop_last())
    } else {
        s
    }
}

/// `s` without leading and trailing white space (`str::trim`).
pub open spec fn trim(s: Seq<char>) -> Seq<char> {
    trim_end(trim_start(s))
}

pub open spec fn starts_with(s: Seq<char>, p: Seq<char>) -> bool {
    p.len() <= s.len() && s.take(p.len() as int) == p
}

pub open spec fn ends_with(s: Seq<char>, p: Seq<char>) -> bool {
    p.len() <= s.len() && s.skip(s.len() - p.len()) == p
}

/// `p` occurs in `s` starting at index `i`.
pub open spec fn occurs_at(s: Seq<char>, p: Seq<char>, i: int) -> bool {
    0 <= i && i + p.len() <= s.len() && s.subrange(i, i + p.len()) == p
}

/// `p` is a substring of `s` (`str::contains`).
pub open spec fn contains_str(s: Seq<char>, p: Seq<char>) -> bool {
    exists|i: int| occurs_at(s, p, i)
}

/// Index of the first occurrence of `p` in `s` (`str::find`).
pub open spec fn find_str(s: Seq<char>, p: Seq<char>) -> Option<int> {
    if contains_str(s, p) {
        Some(choose|i: int| occurs_at(s, p, i) && forall|j: int| 0 <= j < i ==> !occurs_at(s, p, j))
    } else {
        None
    }
}

/// Index of the first `c` in `s`.
pub open spec fn index_of(s: Seq<char>, c: char) -> Option<int>
    decreases s.len(),
{
    if s.len() == 0 {
        None
    } else if s[0] == c {
        Some(0)
    } else {
        match index_of(s.drop_first(), c) {
            Some(i) => Some(i + 1),
            None => None,
        }
    }
}

/// A line as `str::lines` yields it: the line feed is gone, and a carriage
/// return right before it too.
pub open spec fn strip_cr(s: Seq<char>) -> Seq<char> {
    if s.len() > 0 && s.last() == '\r' {
        s.drop_last()
    } else {
        s
    }
}

/// The lines of `s`, as `str::lines` yields them.
pub open spec fn lines(s: Seq<char>) -> Seq<Seq<char>>
    decreases s.len(),
{
    if s.len() == 0 {
        Seq::empty()
    } else {
        match index_of(s, '\n') {
            Some(i) => {
                proof { lemma_index_of_props(s, '\n'); }
                seq![strip_cr(s.take(i))] + lines(s.skip(i + 1))
            },
            None => seq![s],
        }
    }
}

/// The pieces joined with `sep` between them (`[T]::join`).
pub open spec fn join(parts: Seq<Seq<char>>, sep: Seq<char>) -> Seq<char>
    decreases parts.len(),
{
    if parts.len() == 0 {
        Seq::empty()
    } else if parts.len() == 1 {
        parts[0]
    } else {
        join(parts.drop_last(), sep) + sep + parts.last()
    }
}

/// Decimal digits of `n`, without leading zeros.
pub open spec fn decimal(n: nat) -> Seq<char>
    decreases n,
{
    if n < 10 {
        seq![digit_char(n)]
    } else {
        decimal(n / 10).push(digit_char(n % 10))
    }
}

pub open spec fn digit_char(d: nat) -> char {
    if d == 0 { '0' } else if d == 1 { '1' } else if d == 2 { '2' } else if d == 3 { '3' }
    else if d == 4 { '4' } else if d == 5 { '5' } else if d == 6 { '6' } else if d == 7 { '7' }
    else if d == 8 { '8' } else { '9' }
}

/// The strings of a vector, as character sequences.
pub open spec fn views(v: Seq<String>) -> Seq<Seq<char>> {
    v.map_values(|s: String| s@)
}

pub open spec fn opt_view(o: Option<String>) -> Option<Seq<char>> {
    match o {
        Some(s) => Some(s@),
        None => None,
    }
}

// ---------------------------------------------------------------------------
// Lemmas
// ---------------------------------------------------------------------------

pub proof fn lemma_trim_start_skip(s: Seq<char>, i: int)
    requires
        0 <= i <= s.len(),
        forall|j: int| 0 <= j < i ==> is_ws(s[j]),
    ensures
        trim_start(s) == trim_start(s.skip(i)),
    decreases i,
{
    if i > 0 {
        assert(s.drop_first().skip(i - 1) =~= s.skip(i));
        lemma_trim_start_skip(s.drop_first(), i - 1);
    } else {
        assert(s.skip(0) =~= s);
    }
}

pub proof fn lemma_trim_end_take(s: Seq<char>, i: int)
    requires
        0 <= i <= s.len(),
        forall|j: int| i <= j < s.len() ==> is_ws(s[j]),
    ensures
        trim_end(s) == trim_end(s.take(i)),
    decreases s.len() - i,
{
    if i < s.len() {
        assert(s.drop_last().take(i) =~= s.take(i));
        lemma_trim_end_take(s.drop_last(), i);
    } else {
        assert(s.take(i) =~= s);
    }
}

pub proof fn lemma_trim_start_len(s: Seq<char>)
    ensures
        trim_start(s).len() <= s.len(),
        trim_start(s).len() > 0 ==> !is_ws(trim_start(s)[0]),
        trim_start(s) == s.skip(s.len() - trim_start(s).len()),
    decreases s.len(),
{
    if s.len() > 0 && is_ws(s[0]) {
        lemma_trim_start_len(s.drop_first());
        assert(s.drop_first().skip(s.drop_first().len() - trim_start(s).len())
            =~= s.skip(s.len() - trim_start(s).len()));
    } else {
        assert(s.skip(0) =~= s);
    }
}

pub proof fn lemma_trim_end_len(s: Seq<char>)
    ensures
        trim_end(s).len() <= s.len(),
        trim_end(s).len() > 0 ==> !is_ws(trim_end(s).last()),
        trim_end(s) == s.take(trim_end(s).len() as int),
    decreases s.len(),
{
    if s.len() > 0 && is_ws(s.last()) {
        lemma_trim_end_len(s.drop_last());
        assert(s.drop_last().take(trim_end(s).len() as int) =~= s.take(trim_end(s).len() as int));
    } else {
        assert(s.take(s.len() as int) =~= s);
    }
}

/// Trimming a string that starts and ends with non-blank characters leaves it alone.
pub proof fn lemma_trim_fixed(s: Seq<char>)
    requires
        s.len() > 0 ==> !is_ws(s[0]) && !is_ws(s.last()),
    ensures
        trim(s) == s,
{
}

pub proof fn lemma_join_push(parts: Seq<Seq<char>>, sep: Seq<char>, p: Seq<char>)
    ensures
        join(parts.push(p), sep) == if parts.len() == 0 { p } else { join(parts, sep) + sep + p },
{
    assert(parts.push(p).drop_last() =~= parts);
}

pub proof fn lemma_index_of_props(s: Seq<char>, c: char)
    ensures
        match index_of(s, c) {
            Some(i) => 0 <= i < s.len() && s[i] == c && forall|j: int| 0 <= j < i ==> s[j] != c,
            None => forall|j: int| 0 <= j < s.len() ==> s[j] != c,
        },
    decreases s.len(),
{
    if s.len() > 0 && s[0] != c {
        lemma_index_of_props(s.drop_first(), c);
        match index_of(s.drop_first(), c) {
            Some(i) => {
                assert forall|j: int| 0 <= j < i + 1 implies s[j] != c by {
                    if j > 0 {
                        assert(s[j] == s.drop_first()[j - 1]);
                    }
                }
            },
            None => {
                assert forall|j: int| 0 <= j < s.len() implies s[j] != c by {
                    if j > 0 {
                        assert(s[j] == s.drop_first()[j - 1]);
                    }
                }
            },
        }
    }
}

/// `index_of` is determined by the first match.
pub proof fn lemma_index_of_is(s: Seq<char>, c: char, i: int)
    requires
        0 <= i < s.len(),
        s[i] == c,
        forall|j: int| 0 <= j < i ==> s[j] != c,
    ensures
        index_of(s, c) == Some(i),
{
    lemma_index_of_props(s, c);
}

pub proof fn lemma_index_of_none(s: Seq<char>, c: char)
    requires
        forall|j: int| 0 <= j < s.len() ==> s[j] != c,
    ensures
        index_of(s, c) is None,
{
    lemma_index_of_props(s, c);
}

pub proof fn lemma_find_str_is(s: Seq<char>, p: Seq<char>, i: int)
    requires
        occurs_at(s, p, i),
        forall|j: int| 0 <= j < i ==> !occurs_at(s, p, j),
    ensures
        find_str(s, p) == Some(i),
{
    assert(contains_str(s, p));
    let k = choose|k: int| occurs_at(s, p, k) && forall|j: int| 0 <= j < k ==> !occurs_at(s, p, j);
    if k < i {
        assert(!occurs_at(s, p, k));
    } else if k > i {
        assert(!occurs_at(s, p, i));
    }
}

pub proof fn lemma_find_str_bounds(s: Seq<char>, p: Seq<char>)
    ensures
        match find_str(s, p) {
            Some(i) => occurs_at(s, p, i) && forall|j: int| 0 <= j < i ==> !occurs_at(s, p, j),
            None => !contains_str(s, p),
        },
{
    if contains_str(s, p) {
        let k = choose|k: int| occurs_at(s, p, k);
        lemma_first_occurrence_exists(s, p, k);
    }
}

/// Where `p` occurs, it occurs a first time.
proof fn lemma_first_occurrence_exists(s: Seq<char>, p: Seq<char>, k: int)
    requires
        occurs_at(s, p, k),
    ensures
        exists|i: int| occurs_at(s, p, i) && forall|j: int| 0 <= j < i ==> !occurs_at(s, p, j),
    decreases k,
{
    if exists|j: int| 0 <= j < k && occurs_at(s, p, j) {
        let j = choose|j: int| 0 <= j < k && occurs_at(s, p, j);
        lemma_first_occurrence_exists(s, p, j);
    } else {
        assert(occurs_at(s, p, k) && forall|j: int| 0 <= j < k ==> !occurs_at(s, p, j));
    }
}

pub proof fn lemma_decimal_len(n: nat)
    ensures
        decimal(n).len() >= 1,
        n < 10 ==> decimal(n).len() == 1,
    decreases n,
{
    if n >= 10 {
        lemma_decimal_len(n / 10);
    }
}

// ---------------------------------------------------------------------------
// Executable routines
// ---------------------------------------------------------------------------

/// Appends one character to a string: calls `String::push`. Claimed: the
/// string afterwards is the one before with `c` at the end.
#[verifier::external_body]
pub(crate) fn push_char(s: &mut String, c: char)
    ensures
        final(s)@ == old(s)@.push(c),
{
    s.push(c)
}

/// The characters of a string slice.
pub fn chars_of(s: &str) -> (v: Vec<char>)
    ensures
        v@ == s@,
{
    let mut v: Vec<char> = Vec::new();
    for c in it: s.chars()
        invariant
            v@ == it.seq().take(it.index() as int),
    {
        v.push(c);
    }
    v
}

/// The string made of the characters `v[lo..hi]`.
pub fn string_of_range(v: &Vec<char>, lo: usize, hi: usize) -> (s: String)
    requires
        lo <= hi <= v.len(),
    ensures
        s@ == v@.subrange(lo as int, hi as int),
{
    let mut s = String::new();
    let mut i = lo;
    while i < hi
        invariant
            lo <= i <= hi <= v.len(),
            s@ == v@.subrange(lo as int, i as int),
        decreases hi - i,
    {
        push_char(&mut s, v[i]);
        assert(v@.subrange(lo as int, i + 1) =~= v@.subrange(lo as int, i as int).push(v@[i as int]));
        i = i + 1;
    }
    s
}

/// The string made of the characters of `v`.
pub fn string_of(v: &Vec<char>) -> (s: String)
    ensures
        s@ == v@,
{
    let s = string_of_range(v, 0, v.len());
    assert(v@.subrange(0, v.len() as int) =~= v@);
    s
}

/// Appends a string slice.
pub fn push_str(out: &mut String, s: &str)
    ensures
        final(out)@ == old(out)@ + s@,
{
    let cs = chars_of(s);
    let mut i: usize = 0;
    while i < cs.len()
        invariant
            i <= cs.len(),
            cs@ == s@,
            out@ == old(out)@ + cs@.take(i as int),
        decreases cs.len() - i,
    {
        push_char(out, cs[i]);
        assert(cs@.take(i + 1) =~= cs@.take(i as int).push(cs@[i as int]));
        assert(old(out)@ + cs@.take(i + 1) =~= (old(out)@ + cs@.take(i as int)).push(cs@[i as int]));
        i = i + 1;
    }
    assert(cs@.take(cs.len() as int) =~= cs@);
}

/// Appends characters `v[lo..hi]`.
pub fn push_range(out: &mut String, v: &Vec<char>, lo: usize, hi: usize)
    requires
        lo <= hi <= v.len(),
    ensures
        final(out)@ == old(out)@ + v@.subrange(lo as int, hi as int),
{
    let mut i = lo;
    while i < hi
        invariant
            lo <= i <= hi <= v.len(),
            out@ == old(out)@ + v@.subrange(lo as int, i as int),
        decreases hi - i,
    {
        push_char(out, v[i]);
        assert(v@.subrange(lo as int, i + 1) =~= v@.subrange(lo as int, i as int).push(v@[i as int]));
        assert(old(out)@ + v@.subrange(lo as int, i + 1) =~= (old(out)@ + v@.subrange(lo as int, i as int)).push(v@[i as int]));
        i = i + 1;
    }
}

/// A copy of a string.
pub fn copy_string(s: &String) -> (r: String)
    ensures
        r@ == s@,
{
    s.clone()
}

/// A copy of a vector of strings.
pub fn copy_strings(v: &Vec<String>) -> (r: Vec<String>)
    ensures
        views(r@) == views(v@),
        r@.len() == v@.len(),
{
    let mut r: Vec<String> = Vec::new();
    for i in 0..v.len()
        invariant
            r@.len() == i,
            i <= v@.len(),
            forall|j: int| 0 <= j < i ==> r@[j]@ == v@[j]@,
    {
        r.push(v[i].clone());
    }
    assert(views(r@) =~= views(v@));
    r
}

pub fn copy_opt_string(o: &Option<String>) -> (r: Option<String>)
    ensures
        opt_view(r) == opt_view(*o),
{
    match o {
        Some(s) => Some(s.clone()),
        None => None,
    }
}

/// Equality of two strings.
pub fn str_eq(a: &String, b: &String) -> (r: bool)
    ensures
        r == (a@ == b@),
{
    a.eq(b)
}

/// An owned copy of a string slice.
pub fn owned(s: &str) -> (r: String)
    ensures
        r@ == s@,
{
    let mut r = String::new();
    push_str(&mut r, s);
    assert(Seq::<char>::empty() + s@ =~= s@);
    r
}

pub fn is_whitespace(c: char) -> (r: bool)
    ensures
        r == is_ws(c),
{
    c == '\t' || c == '\n' || c == '\x0B' || c == '\x0C' || c == '\r' || c == ' '
        || c == '\u{85}' || c == '\u{A0}' || c == '\u{1680}'
        || ('\u{2000}' <= c && c <= '\u{200A}')
        || c == '\u{2028}' || c == '\u{2029}' || c == '\u{202F}' || c == '\u{205F}' || c == '\u{3000}'
}

/// The bounds of `trim(v[lo..hi])` inside `v`.
pub fn trim_bounds(v: &Vec<char>, lo: usize, hi: usize) -> (r: (usize, usize))
    requires
        lo <= hi <= v.len(),
    ensures
        lo <= r.0 <= r.1 <= hi,
        v@.subrange(r.0 as int, r.1 as int) == trim(v@.subrange(lo as int, hi as int)),
{
    let ghost s = v@.subrange(lo as int, hi as int);
    let mut a = lo;
    while a < hi && is_whitespace(v[a])
        invariant
            lo <= a <= hi <= v.len(),
            s == v@.subrange(lo as int, hi as int),
            forall|j: int| lo <= j < a ==> is_ws(v@[j]),
        decreases hi - a,
    {
        a = a + 1;
    }
    proof {
        assert forall|j: int| 0 <= j < a - lo implies is_ws(s[j]) by {
            assert(s[j] == v@[lo + j]);
        }
        lemma_trim_start_skip(s, a - lo);
        assert(s.skip(a - lo) =~= v@.subrange(a as int, hi as int));
        if a < hi {
            assert(trim_start(v@.subrange(a as int, hi as int)) == v@.subrange(a as int, hi as int));
        } else {
            assert(v@.subrange(a as int, hi as int).len() == 0);
        }
    }
    let ghost t = v@.subrange(a as int, hi as int);
    let mut b = hi;
    while b > a && is_whitespace(v[b - 1])
        invariant
            lo <= a <= b <= hi <= v.len(),
            t == v@.subrange(a as int, hi as int),
            forall|j: int| b <= j < hi ==> is_ws(v@[j]),
        decreases b - a,
    {
        b = b - 1;
    }
    proof {
        assert forall|j: int| b - a <= j < t.len() implies is_ws(t[j]) by {
            assert(t[j] == v@[a + j]);
        }
        lemma_trim_end_take(t, b - a);
        assert(t.take(b - a) =~= v@.subrange(a as int, b as int));
    }
    (a, b)
}

/// `v[lo..hi]` starts with `p`.
pub fn range_starts_with(v: &Vec<char>, lo: usize, hi: usize, p: &Vec<char>) -> (r: bool)
    requires
        lo <= hi <= v.len(),
    ensures
        r == starts_with(v@.subrange(lo as int, hi as int), p@),
{
    if p.len() > hi - lo {
        return false;
    }
    let mut i: usize = 0;
    while i < p.len()
        invariant
            i <= p.len() <= hi - lo,
            lo <= hi <= v.len(),
            forall|j: int| 0 <= j < i ==> v@[lo + j] == p@[j],
        decreases p.len() - i,
    {
        if v[lo + i] != p[i] {
            assert(v@.subrange(lo as int, hi as int).take(p.len() as int)[i as int] != p@[i as int]);
            return false;
        }
        i = i + 1;
    }
    assert(v@.subrange(lo as int, hi as int).take(p.len() as int) =~= p@);
    true
}

/// `v[lo..hi]` ends with `p`.
pub fn range_ends_with(v: &Vec<char>, lo: usize, hi: usize, p: &Vec<char>) -> (r: bool)
    requires
        lo <= hi <= v.len(),
    ensures
        r == ends_with(v@.subrange(lo as int, hi as int), p@),
{
    if p.len() > hi - lo {
        return false;
    }
    let start = hi - p.len();
    let mut i: usize = 0;
    while i < p.len()
        invariant
            i <= p.len() <= hi - lo,
            start == hi - p.len(),
            lo <= hi <= v.len(),
            forall|j: int| 0 <= j < i ==> v@[start + j] == p@[j],
        decreases p.len() - i,
    {
        if v[start + i] != p[i] {
            let ghost s = v@.subrange(lo as int, hi as int);
            assert(s.skip(s.len() - p.len())[i as int] != p@[i as int]);
            return false;
        }
        i = i + 1;
    }
    let ghost s = v@.subrange(lo as int, hi as int);
    assert(s.skip(s.len() - p.len()) =~= p@);
    true
}

/// `p` occurs in `v[lo..hi]` at relative index `i`.
pub fn range_occurs_at(v: &Vec<char>, lo: usize, hi: usize, p: &Vec<char>, i: usize) -> (r: bool)
    requires
        lo <= hi <= v.len(),
    ensures
        r == occurs_at(v@.subrange(lo as int, hi as int), p@, i as int),
{
    let ghost s = v@.subrange(lo as int, hi as int);
    if i > hi - lo || p.len() > hi - lo - i {
        return false;
    }
    let mut k: usize = 0;
    while k < p.len()
        invariant
            k <= p.len(),
            i + p.len() <= hi - lo,
            lo <= hi <= v.len(),
            s == v@.subrange(lo as int, hi as int),
            forall|j: int| 0 <= j < k ==> v@[lo + i + j] == p@[j],
        decreases p.len() - k,
    {
        if v[lo + i + k] != p[k] {
            assert(s.subrange(i as int, i + p.len())[k as int] != p@[k as int]);
            return false;
        }
        k = k + 1;
    }
    assert(s.subrange(i as int, i + p.len()) =~= p@);
    true
}

/// The first index at which `p` occurs in `v[lo..hi]`, relative to `lo`.
pub fn range_find(v: &Vec<char>, lo: usize, hi: usize, p: &Vec<char>) -> (r: Option<usize>)
    requires
        lo <= hi <= v.len(),
    ensures
        match r {
            Some(i) => find_str(v@.subrange(lo as int, hi as int), p@) == Some(i as int),
            None => find_str(v@.subrange(lo as int, hi as int), p@) is None,
        },
{
    let ghost s = v@.subrange(lo as int, hi as int);
    if p.len() > hi - lo {
        assert(!contains_str(s, p@)) by {
            if contains_str(s, p@) {
                let k = choose|k: int| occurs_at(s, p@, k);
            }
        }
        return None;
    }
    let m = hi - lo - p.len();
    let mut i: usize = 0;
    loop
        invariant
            lo <= hi <= v.len(),
            m == hi - lo - p.len(),
            i <= m,
            s == v@.subrange(lo as int, hi as int),
            forall|j: int| 0 <= j < i ==> !occurs_at(s, p@, j),
        ensures
            forall|j: int| 0 <= j <= m ==> !occurs_at(s, p@, j),
        decreases m - i,
    {
        if range_occurs_at(v, lo, hi, p, i) {
            proof { lemma_find_str_is(s, p@, i as int); }
            return Some(i);
        }
        if i == m {
            break;
        }
        i = i + 1;
    }
    assert(!contains_str(s, p@)) by {
        if contains_str(s, p@) {
            let k = choose|k: int| occurs_at(s, p@, k);
            assert(!occurs_at(s, p@, k));
        }
    }
    None
}

/// Whether `p` occurs in `v[lo..hi]`.
pub fn range_contains(v: &Vec<char>, lo: usize, hi: usize, p: &Vec<char>) -> (r: bool)
    requires
        lo <= hi <= v.len(),
    ensures
        r == contains_str(v@.subrange(lo as int, hi as int), p@),
{
    match range_find(v, lo, hi, p) {
        Some(i) => {
            proof {
                let s = v@.subrange(lo as int, hi as int);
                assert(contains_str(s, p@));
            }
            true
        },
        None => false,
    }
}

/// Whether the string `s` contains `p`.
pub fn str_contains(s: &String, p: &String) -> (r: bool)
    ensures
        r == contains_str(s@, p@),
{
    let v = chars_of(s.as_str());
    let q = chars_of(p.as_str());
    let r = range_contains(&v, 0, v.len(), &q);
    assert(v@.subrange(0, v@.len() as int) =~= v@);
    r
}

/// Whether the string `s` starts with `p`.
pub fn str_starts_with(s: &String, p: &String) -> (r: bool)
    ensures
        r == starts_with(s@, p@),
{
    let v = chars_of(s.as_str());
    let q = chars_of(p.as_str());
    assert(v@.subrange(0, v@.len() as int) =~= v@);
    range_starts_with(&v, 0, v.len(), &q)
}

/// Whether the string `s` ends with `p`.
pub fn str_ends_with(s: &String, p: &String) -> (r: bool)
    ensures
        r == ends_with(s@, p@),
{
    let v = chars_of(s.as_str());
    let q = chars_of(p.as_str());
    assert(v@.subrange(0, v@.len() as int) =~= v@);
    range_ends_with(&v, 0, v.len(), &q)
}

/// The trimmed copy of a string.
pub fn trimmed(s: &str) -> (r: String)
    ensures
        r@ == trim(s@),
{
    let v = chars_of(s);
    let (a, b) = trim_bounds(&v, 0, v.len());
    assert(v@.subrange(0, v@.len() as int) =~= v@);
    string_of_range(&v, a, b)
}

/// The lines of `v[lo..hi]` as `(start, end)` index pairs.
pub fn line_bounds(v: &Vec<char>, lo: usize, hi: usize) -> (r: Vec<(usize, usize)>)
    requires
        lo <= hi <= v.len(),
    ensures
        r@.len() == lines(v@.subrange(lo as int, hi as int)).len(),
        forall|k: int| 0 <= k < r@.len() ==> lo <= #[trigger] r@[k].0 <= r@[k].1 <= hi,
        forall|k: int| 0 <= k < r@.len() ==>
            v@.subrange(#[trigger] r@[k].0 as int, r@[k].1 as int) == lines(v@.subrange(lo as int, hi as int))[k],
{
    let mut r: Vec<(usize, usize)> = Vec::new();
    let mut start = lo;
    let ghost full = v@.subrange(lo as int, hi as int);
    let ghost mut done: Seq<Seq<char>> = Seq::empty();
    while start < hi
        invariant
            lo <= start <= hi <= v.len(),
            full == v@.subrange(lo as int, hi as int),
            lines(full) == done + lines(v@.subrange(start as int, hi as int)),
            r@.len() == done.len(),
            forall|k: int| 0 <= k < r@.len() ==> lo <= #[trigger] r@[k].0 <= r@[k].1 <= hi,
            forall|k: int| 0 <= k < r@.len() ==> v@.subrange(#[trigger] r@[k].0 as int, r@[k].1 as int) == done[k],
        decreases hi - start,
    {
        let ghost rest = v@.subrange(start as int, hi as int);
        let mut e = start;
        while e < hi && v[e] != '\n'
            invariant
                start <= e <= hi <= v.len(),
                forall|j: int| start <= j < e ==> v@[j] != '\n',
            decreases hi - e,
        {
            e = e + 1;
        }
        if e < hi {
            proof {
                lemma_index_of_is(rest, '\n', e - start);
                assert(rest.take(e - start) =~= v@.subrange(start as int, e as int));
                assert(rest.skip(e - start + 1) =~= v@.subrange(e + 1, hi as int));
            }
            let mut ce = e;
            if ce > start && v[ce - 1] == '\r' {
                ce = ce - 1;
                proof {
                    assert(v@.subrange(start as int, e as int).drop_last() =~= v@.subrange(start as int, ce as int));
                }
            }
            r.push((start, ce));
            proof {
                done = done.push(strip_cr(v@.subrange(start as int, e as int)));
                assert(seq![strip_cr(rest.take(e - start))] + lines(rest.skip(e - start + 1))
                    == lines(rest));
                assert(lines(full) =~= done + lines(v@.subrange(e + 1, hi as int)));
            }
            start = e + 1;
        } else {
            proof {
                lemma_index_of_none(rest, '\n');
                assert(lines(rest) == seq![rest]);
            }
            r.push((start, hi));
            proof {
                done = done.push(rest);
                assert(v@.subrange(hi as int, hi as int).len() == 0);
                assert(lines(full) =~= done + lines(v@.subrange(hi as int, hi as int)));
            }
            start = hi;
        }
    }
    assert(v@.subrange(start as int, hi as int).len() == 0);
    assert(lines(full) =~= done);
    r
}

/// Decimal rendering of an integer.
pub fn decimal_string(n: u64) -> (s: String)
    ensures
        s@ == decimal(n as nat),
    decreases n,
{
    if n < 10 {
        let mut s = String::new();
        push_char(&mut s, digit(n as u8));
        assert(s@ =~= seq![digit_char(n as nat)]);
        s
    } else {
        let mut s = decimal_string(n / 10);
        push_char(&mut s, digit((n % 10) as u8));
        s
    }
}

/// The decimal digit for `d`.
pub fn digit(d: u8) -> (c: char)
    requires
        d < 10,
    ensures
        c == digit_char(d as nat),
{
    if d == 0 { '0' } else if d == 1 { '1' } else if d == 2 { '2' } else if d == 3 { '3' }
    else if d == 4 { '4' } else if d == 5 { '5' } else if d == 6 { '6' } else if d == 7 { '7' }
    else if d == 8 { '8' } else { '9' }
}

/// The strings of `parts` joined with `sep` between them.
pub fn join_strings(parts: &Vec<String>, sep: &str) -> (s: String)
    ensures
        s@ == join(views(parts@), sep@),
{
    let mut s = String::new();
    let ghost vs = views(parts@);
    for i in 0..parts.len()
        invariant
            vs == views(parts@),
            s@ == join(vs.take(i as int), sep@),
    {
        proof {
            assert(vs.take(i + 1) =~= vs.take(i as int).push(vs[i as int]));
            lemma_join_push(vs.take(i as int), sep@, vs[i as int]);
        }
        if i > 0 {
            push_str(&mut s, sep);
        }
        push_str(&mut s, parts[i].as_str());
        proof {
            if i == 0 {
                assert(s@ =~= vs[0]);
            }
        }
    }
    assert(vs.take(parts.len() as int) =~= vs);
    s
}

} // verus!
