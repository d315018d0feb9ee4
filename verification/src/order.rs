//! Stable insertion sorting of ids and tickets.

use vstd::prelude::*;
use crate::graph::{lex_less, lex_lt};
use crate::storage::Ticket;
use crate::text::views;

verus! {

/// Where a stable insertion puts `x` into `r`: after every element that `x`
/// does not come strictly before, scanning from the end.
pub open spec fn place<T>(r: Seq<T>, x: T, before: spec_fn(T, T) -> bool) -> int
    decreases r.len(),
{
    if r.len() == 0 {
        0
    } else if before(x, r.last()) {
        place(r.drop_last(), x, before)
    } else {
        r.len() as int
    }
}

/// `s` sorted by inserting its elements one by one, in order, each after
/// the elements it does not come strictly before: a stable sort.
pub open spec fn insertion_sorted<T>(s: Seq<T>, before: spec_fn(T, T) -> bool) -> Seq<T>
    decreases s.len(),
{
    if s.len() == 0 {
        Seq::empty()
    } else {
        let r = insertion_sorted(s.drop_last(), before);
        r.insert(place(r, s.last(), before), s.last())
    }
}

/// The order of strings (`Ord` for `String`).
pub open spec fn str_before() -> spec_fn(Seq<char>, Seq<char>) -> bool {
    |a: Seq<char>, b: Seq<char>| lex_lt(a, b)
}

/// The order of the ticket lists: by priority, then by id.
pub open spec fn priority_before() -> spec_fn(Ticket, Ticket) -> bool {
    |a: Ticket, b: Ticket|
        a.metadata.priority.value() < b.metadata.priority.value()
        || (a.metadata.priority.value() == b.metadata.priority.value() && lex_lt(a.metadata.id@, b.metadata.id@))
}

/// The order of recently closed tickets: newest creation time first.
pub open spec fn newest_before() -> spec_fn(Ticket, Ticket) -> bool {
    |a: Ticket, b: Ticket| lex_lt(b.metadata.created@, a.metadata.created@)
}

/// The order of `(id, value)` pairs: by id.
pub open spec fn pair_before() -> spec_fn((Seq<char>, bool), (Seq<char>, bool)) -> bool {
    |a: (Seq<char>, bool), b: (Seq<char>, bool)| lex_lt(a.0, b.0)
}

pub proof fn lemma_place_bounds<T>(r: Seq<T>, x: T, before: spec_fn(T, T) -> bool)
    ensures
        0 <= place(r, x, before) <= r.len(),
    decreases r.len(),
{
    if r.len() > 0 && before(x, r.last()) {
        lemma_place_bounds(r.drop_last(), x, before);
    }
}

pub proof fn lemma_insertion_sorted_len<T>(s: Seq<T>, before: spec_fn(T, T) -> bool)
    ensures
        insertion_sorted(s, before).len() == s.len(),
    decreases s.len(),
{
    if s.len() > 0 {
        lemma_insertion_sorted_len(s.drop_last(), before);
        lemma_place_bounds(insertion_sorted(s.drop_last(), before), s.last(), before);
    }
}

/// `place` scanning a prefix of `r`: the scan from the end of `r.take(j)`
/// gives the same place as from the end of `r` once every element after `j`
/// has been passed.
proof fn lemma_place_take<T>(r: Seq<T>, x: T, before: spec_fn(T, T) -> bool, j: int)
    requires
        0 <= j <= r.len(),
        forall|k: int| j <= k < r.len() ==> before(x, #[trigger] r[k]),
    ensures
        place(r, x, before) == place(r.take(j), x, before),
    decreases r.len() - j,
{
    if j < r.len() {
        assert(r.drop_last().take(j) =~= r.take(j));
        lemma_place_take(r.drop_last(), x, before, j);
    } else {
        assert(r.take(j) =~= r);
    }
}

/// No element of `r` comes strictly before an earlier one.
pub open spec fn sorted_by<T>(r: Seq<T>, before: spec_fn(T, T) -> bool) -> bool {
    forall|i: int, j: int| 0 <= i < j < r.len() ==> !before(#[trigger] r[j], #[trigger] r[i])
}

/// `before` is a strict weak order: asymmetric, and "not before" is transitive.
pub open spec fn strict_weak_order<T>(before: spec_fn(T, T) -> bool) -> bool {
    &&& forall|a: T, b: T| #[trigger] before(a, b) ==> !before(b, a)
    &&& forall|a: T, b: T, c: T| #![trigger before(a, b), before(b, c)]
        !before(a, b) && !before(b, c) ==> !before(a, c)
}

/// Inserting `x` where `place` puts it keeps a sorted sequence sorted.
proof fn lemma_insert_sorted<T>(r: Seq<T>, x: T, before: spec_fn(T, T) -> bool)
    requires
        strict_weak_order(before),
        sorted_by(r, before),
    ensures
        sorted_by(r.insert(place(r, x, before), x), before),
    decreases r.len(),
{
    let p = place(r, x, before);
    lemma_place_bounds(r, x, before);
    if r.len() > 0 && before(x, r.last()) {
        let dl = r.drop_last();
        assert forall|i: int, j: int| 0 <= i < j < dl.len() implies !before(#[trigger] dl[j], #[trigger] dl[i]) by {
            assert(dl[i] == r[i] && dl[j] == r[j]);
        }
        lemma_insert_sorted(dl, x, before);
        assert(p == place(dl, x, before));
        lemma_place_bounds(dl, x, before);
        let d2 = dl.insert(p, x);
        assert(r.insert(p, x) =~= d2.push(r.last()));
        let n = r.insert(p, x);
        assert forall|i: int, j: int| 0 <= i < j < n.len() implies !before(#[trigger] n[j], #[trigger] n[i]) by {
            if j == n.len() - 1 {
                assert(n[j] == r.last());
                if i == p {
                    assert(n[i] == x);
                } else if i < p {
                    assert(n[i] == r[i]);
                    assert(!before(r[r.len() - 1], r[i]));
                } else {
                    assert(n[i] == r[i - 1]);
                    assert(!before(r[r.len() - 1], r[i - 1]));
                }
            } else {
                assert(n[i] == d2[i] && n[j] == d2[j]);
            }
        }
    } else {
        assert(p == r.len());
        let n = r.push(x);
        assert(r.insert(p, x) =~= n);
        assert forall|i: int, j: int| 0 <= i < j < n.len() implies !before(#[trigger] n[j], #[trigger] n[i]) by {
            if j == n.len() - 1 {
                assert(n[j] == x);
                assert(n[i] == r[i]);
                if r.len() > 0 {
                    assert(!before(x, r[r.len() - 1]));
                    if i < r.len() - 1 {
                        assert(!before(r[r.len() - 1], r[i]));
                    }
                }
            } else {
                assert(n[i] == r[i] && n[j] == r[j]);
            }
        }
    }
}

/// A stable insertion sort by a strict weak order gives a sorted
/// rearrangement of its input: the same elements, as many times each.
pub proof fn lemma_insertion_sorted<T>(s: Seq<T>, before: spec_fn(T, T) -> bool)
    requires
        strict_weak_order(before),
    ensures
        sorted_by(insertion_sorted(s, before), before),
        insertion_sorted(s, before).to_multiset() == s.to_multiset(),
    decreases s.len(),
{
    broadcast use vstd::seq_lib::to_multiset_insert, vstd::seq_lib::to_multiset_build;
    if s.len() > 0 {
        let r = insertion_sorted(s.drop_last(), before);
        lemma_insertion_sorted(s.drop_last(), before);
        lemma_insert_sorted(r, s.last(), before);
        lemma_place_bounds(r, s.last(), before);
        assert(s.drop_last().push(s.last()) =~= s);
    } else {
        assert(insertion_sorted(s, before) =~= s);
    }
}

/// "Not before" is transitive for the order of strings.
proof fn lemma_lex_not_before(a: Seq<char>, b: Seq<char>, c: Seq<char>)
    requires
        !lex_lt(a, b),
        !lex_lt(b, c),
    ensures
        !lex_lt(a, c),
{
    crate::graph::lemma_lex_total(a, b);
    crate::graph::lemma_lex_total(b, c);
    if lex_lt(a, c) {
        if lex_lt(b, a) {
            crate::graph::lemma_lex_transitive(b, a, c);
            crate::graph::lemma_lex_asymmetric(b, c);
        }
    }
}

/// The order of strings is a strict weak order.
pub proof fn lemma_str_order()
    ensures
        strict_weak_order(str_before()),
{
    assert forall|a: Seq<char>, b: Seq<char>| #[trigger] str_before()(a, b) implies !str_before()(b, a) by {
        crate::graph::lemma_lex_asymmetric(a, b);
    }
    assert forall|a: Seq<char>, b: Seq<char>, c: Seq<char>|
        #![trigger str_before()(a, b), str_before()(b, c)]
        !str_before()(a, b) && !str_before()(b, c) implies !str_before()(a, c) by {
        lemma_lex_not_before(a, b, c);
    }
}

/// The order of ticket lists (priority, then id) is a strict weak order.
pub proof fn lemma_priority_order()
    ensures
        strict_weak_order(priority_before()),
{
    let f = priority_before();
    assert forall|a: Ticket, b: Ticket| #[trigger] f(a, b) implies !f(b, a) by {
        if a.metadata.priority.value() == b.metadata.priority.value() {
            crate::graph::lemma_lex_asymmetric(a.metadata.id@, b.metadata.id@);
        }
    }
    assert forall|a: Ticket, b: Ticket, c: Ticket| #![trigger f(a, b), f(b, c)]
        !f(a, b) && !f(b, c) implies !f(a, c) by {
        if a.metadata.priority.value() == c.metadata.priority.value() {
            lemma_lex_not_before(a.metadata.id@, b.metadata.id@, c.metadata.id@);
        }
    }
}

/// The order of recently closed tickets (newest first) is a strict weak order.
pub proof fn lemma_newest_order()
    ensures
        strict_weak_order(newest_before()),
{
    let f = newest_before();
    assert forall|a: Ticket, b: Ticket| #[trigger] f(a, b) implies !f(b, a) by {
        crate::graph::lemma_lex_asymmetric(b.metadata.created@, a.metadata.created@);
    }
    assert forall|a: Ticket, b: Ticket, c: Ticket| #![trigger f(a, b), f(b, c)]
        !f(a, b) && !f(b, c) implies !f(a, c) by {
        lemma_lex_not_before(c.metadata.created@, b.metadata.created@, a.metadata.created@);
    }
}

/// The order of `(id, value)` pairs (by id) is a strict weak order.
pub proof fn lemma_pair_order()
    ensures
        strict_weak_order(pair_before()),
{
    let f = pair_before();
    assert forall|a: (Seq<char>, bool), b: (Seq<char>, bool)| #[trigger] f(a, b) implies !f(b, a) by {
        crate::graph::lemma_lex_asymmetric(a.0, b.0);
    }
    assert forall|a: (Seq<char>, bool), b: (Seq<char>, bool), c: (Seq<char>, bool)| #![trigger f(a, b), f(b, c)]
        !f(a, b) && !f(b, c) implies !f(a, c) by {
        lemma_lex_not_before(a.0, b.0, c.0);
    }
}

/// Sort strings (stable insertion sort in the order of `String`).
pub fn sort_strings(v: Vec<String>) -> (r: Vec<String>)
    ensures
        views(r@) == insertion_sorted(views(v@), str_before()),
{
    let ghost src = views(v@);
    let n = v.len();
    let mut r: Vec<String> = Vec::new();
    let mut rest = v;
    let mut k: usize = 0;
    while rest.len() > 0
        invariant
            k + rest@.len() == src.len(),
            src.len() == n,
            views(rest@) == src.skip(k as int),
            views(r@) == insertion_sorted(src.take(k as int), str_before()),
        decreases rest@.len(),
    {
        let ghost old_rest = views(rest@);
        let x = rest.remove(0);
        proof {
            assert(src.take(k + 1).drop_last() =~= src.take(k as int));
            assert(old_rest[0] == x@);
            assert(src[k as int] == x@);
            lemma_insertion_sorted_len(src.take(k as int), str_before());
        }
        let mut j = r.len();
        while j > 0 && lex_less(&x, &r[j - 1])
            invariant
                j <= r@.len(),
                forall|i: int| j <= i < r@.len() ==> lex_lt(x@, #[trigger] views(r@)[i]),
            decreases j,
        {
            j = j - 1;
        }
        proof {
            lemma_place_take(views(r@), x@, str_before(), j as int);
            if j > 0 {
                assert(views(r@).take(j as int).last() == r@[j - 1]@);
            }
        }
        let ghost before = views(r@);
        r.insert(j, x);
        assert(views(r@) =~= before.insert(j as int, src[k as int]));
        proof {
            assert(views(rest@) =~= old_rest.skip(1));
            assert(old_rest.skip(1) =~= src.skip(k + 1));
        }
        k = k + 1;
    }
    assert(src.take(k as int) =~= src);
    r
}

/// The orders that ticket lists are shown in.
#[derive(Debug, Clone, Copy, PartialEq, Eq, Structural)]
pub enum TicketOrder {
    /// By priority, then by id.
    ByPriority,
    /// Newest creation time first.
    NewestFirst,
}

pub open spec fn order_before(o: TicketOrder) -> spec_fn(Ticket, Ticket) -> bool {
    match o {
        TicketOrder::ByPriority => priority_before(),
        TicketOrder::NewestFirst => newest_before(),
    }
}

/// Whether `a` comes strictly before `b` in the order `o`.
pub fn ticket_before(o: TicketOrder, a: &Ticket, b: &Ticket) -> (r: bool)
    ensures
        r == order_before(o)(*a, *b),
{
    match o {
        TicketOrder::ByPriority => {
            let pa = a.metadata.priority.to_u8();
            let pb = b.metadata.priority.to_u8();
            pa < pb || (pa == pb && lex_less(&a.metadata.id, &b.metadata.id))
        },
        TicketOrder::NewestFirst => lex_less(&b.metadata.created, &a.metadata.created),
    }
}

pub open spec fn derefs(v: Seq<&Ticket>) -> Seq<Ticket> {
    v.map_values(|t: &Ticket| *t)
}

/// Insert `x` into `r` where a stable insertion in the order `o` puts it.
pub fn insert_ticket(r: &mut Vec<Ticket>, x: Ticket, o: TicketOrder)
    ensures
        final(r)@ == old(r)@.insert(place(old(r)@, x, order_before(o)), x),
{
    let mut j = r.len();
    while j > 0 && ticket_before(o, &x, &r[j - 1])
        invariant
            j <= r@.len(),
            forall|i: int| j <= i < r@.len() ==> order_before(o)(x, #[trigger] r@[i]),
        decreases j,
    {
        j = j - 1;
    }
    proof {
        lemma_place_take(r@, x, order_before(o), j as int);
        if j > 0 {
            assert(r@.take(j as int).last() == r@[j - 1]);
        }
        if j == 0 {
            assert(r@.take(0) =~= Seq::<Ticket>::empty());
        }
    }
    r.insert(j, x);
}

/// Sort tickets (stable insertion sort in the order `o`).
pub fn sort_ticket_refs<'a>(v: Vec<&'a Ticket>, o: TicketOrder) -> (r: Vec<&'a Ticket>)
    ensures
        derefs(r@) == insertion_sorted(derefs(v@), order_before(o)),
{
    let ghost src = derefs(v@);
    let mut r: Vec<&'a Ticket> = Vec::new();
    for k in 0..v.len()
        invariant
            src == derefs(v@),
            derefs(r@) == insertion_sorted(src.take(k as int), order_before(o)),
    {
        let x = v[k];
        proof {
            assert(src.take(k + 1).drop_last() =~= src.take(k as int));
            assert(src[k as int] == *x);
        }
        let mut j = r.len();
        while j > 0 && ticket_before(o, x, r[j - 1])
            invariant
                j <= r@.len(),
                forall|i: int| j <= i < r@.len() ==> order_before(o)(*x, #[trigger] derefs(r@)[i]),
            decreases j,
        {
            j = j - 1;
        }
        proof {
            lemma_place_take(derefs(r@), *x, order_before(o), j as int);
            if j > 0 {
                assert(derefs(r@).take(j as int).last() == *r@[j - 1]);
            }
        }
        let ghost before = derefs(r@);
        r.insert(j, x);
        assert(derefs(r@) =~= before.insert(j as int, src[k as int]));
    }
    assert(src.take(v@.len() as int) =~= src);
    r
}

pub open spec fn pair_views(v: Seq<(String, bool)>) -> Seq<(Seq<char>, bool)> {
    v.map_values(|p: (String, bool)| (p.0@, p.1))
}

/// Sort `(id, value)` pairs by id (stable insertion sort).
pub fn sort_pairs(v: Vec<(String, bool)>) -> (r: Vec<(String, bool)>)
    ensures
        pair_views(r@) == insertion_sorted(pair_views(v@), pair_before()),
{
    let ghost src = pair_views(v@);
    let n = v.len();
    let mut r: Vec<(String, bool)> = Vec::new();
    let mut rest = v;
    let mut k: usize = 0;
    while rest.len() > 0
        invariant
            k + rest@.len() == src.len(),
            src.len() == n,
            pair_views(rest@) == src.skip(k as int),
            pair_views(r@) == insertion_sorted(src.take(k as int), pair_before()),
        decreases rest@.len(),
    {
        let ghost old_rest = pair_views(rest@);
        let x = rest.remove(0);
        proof {
            assert(src.take(k + 1).drop_last() =~= src.take(k as int));
            assert(old_rest[0] == (x.0@, x.1));
            lemma_insertion_sorted_len(src.take(k as int), pair_before());
        }
        let mut j = r.len();
        while j > 0 && lex_less(&x.0, &r[j - 1].0)
            invariant
                j <= r@.len(),
                forall|i: int| j <= i < r@.len() ==> lex_lt(x.0@, #[trigger] pair_views(r@)[i].0),
            decreases j,
        {
            j = j - 1;
        }
        proof {
            lemma_place_take(pair_views(r@), (x.0@, x.1), pair_before(), j as int);
            if j > 0 {
                assert(pair_views(r@).take(j as int).last() == (r@[j - 1].0@, r@[j - 1].1));
            }
        }
        let ghost before = pair_views(r@);
        let ghost xv = (x.0@, x.1);
        r.insert(j, x);
        assert(pair_views(r@) =~= before.insert(j as int, xv));
        proof {
            assert(pair_views(rest@) =~= old_rest.skip(1));
            assert(old_rest.skip(1) =~= src.skip(k + 1));
        }
        k = k + 1;
    }
    assert(src.take(k as int) =~= src);
    r
}

/// Every order that ticket lists are shown in is a strict weak order.
pub proof fn lemma_ticket_orders(o: TicketOrder)
    ensures
        strict_weak_order(order_before(o)),
{
    match o {
        TicketOrder::ByPriority => lemma_priority_order(),
        TicketOrder::NewestFirst => lemma_newest_order(),
    }
}

} // verus!
