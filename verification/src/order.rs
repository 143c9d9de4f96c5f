//! The order of texts, and the one ascending sequence of a finite set.

use crate::chars::chars_of;
use vstd::prelude::*;
use vstd::relations::{connected, irreflexive, sorted_by, transitive};

verus! {

/// Whether the text `a` comes before the text `b`: texts are compared
/// character by character, and a text comes before every longer text that it
/// begins. (Texts stand in this order exactly as their UTF-8 bytes do.)
pub open spec fn text_lt(a: Seq<char>, b: Seq<char>) -> bool
    decreases a.len(),
{
    if b.len() == 0 {
        false
    } else if a.len() == 0 {
        true
    } else if a.first() == b.first() {
        text_lt(a.drop_first(), b.drop_first())
    } else {
        a.first() < b.first()
    }
}

/// Whether `a` comes before `b`, where an absent text comes before every
/// text.
pub open spec fn opt_text_lt(a: Option<Seq<char>>, b: Option<Seq<char>>) -> bool {
    match (a, b) {
        (None, Some(_)) => true,
        (Some(x), Some(y)) => text_lt(x, y),
        _ => false,
    }
}

/// The order of texts as a relation.
pub open spec fn text_order() -> spec_fn(Seq<char>, Seq<char>) -> bool {
    |a: Seq<char>, b: Seq<char>| text_lt(a, b)
}

/// No text comes before itself.
pub proof fn lemma_text_lt_irreflexive(a: Seq<char>)
    ensures
        !text_lt(a, a),
    decreases a.len(),
{
    if a.len() > 0 {
        lemma_text_lt_irreflexive(a.drop_first());
    }
}

/// If `a` comes before `b` and `b` before `c`, then `a` comes before `c`.
pub proof fn lemma_text_lt_transitive(a: Seq<char>, b: Seq<char>, c: Seq<char>)
    requires
        text_lt(a, b),
        text_lt(b, c),
    ensures
        text_lt(a, c),
    decreases a.len(),
{
    if a.len() > 0 && a.first() == b.first() && b.first() == c.first() {
        lemma_text_lt_transitive(a.drop_first(), b.drop_first(), c.drop_first());
    }
}

/// Of two different texts, one comes before the other.
pub proof fn lemma_text_lt_connected(a: Seq<char>, b: Seq<char>)
    requires
        a != b,
    ensures
        text_lt(a, b) || text_lt(b, a),
    decreases a.len(),
{
    if a.len() > 0 && b.len() > 0 && a.first() == b.first() {
        if a.drop_first() == b.drop_first() {
            assert(a =~= seq![a.first()] + a.drop_first());
            assert(b =~= seq![b.first()] + b.drop_first());
        }
        lemma_text_lt_connected(a.drop_first(), b.drop_first());
    } else if a.len() == 0 && b.len() == 0 {
        assert(a =~= b);
    }
}

/// No optional text comes before itself.
pub proof fn lemma_opt_text_lt_irreflexive(a: Option<Seq<char>>)
    ensures
        !opt_text_lt(a, a),
{
    if let Some(x) = a {
        lemma_text_lt_irreflexive(x);
    }
}

/// If `a` comes before `b` and `b` before `c`, then `a` comes before `c`.
pub proof fn lemma_opt_text_lt_transitive(
    a: Option<Seq<char>>,
    b: Option<Seq<char>>,
    c: Option<Seq<char>>,
)
    requires
        opt_text_lt(a, b),
        opt_text_lt(b, c),
    ensures
        opt_text_lt(a, c),
{
    if let (Some(x), Some(y), Some(z)) = (a, b, c) {
        lemma_text_lt_transitive(x, y, z);
    }
}

/// Of two different optional texts, one comes before the other.
pub proof fn lemma_opt_text_lt_connected(a: Option<Seq<char>>, b: Option<Seq<char>>)
    requires
        a != b,
    ensures
        opt_text_lt(a, b) || opt_text_lt(b, a),
{
    if let (Some(x), Some(y)) = (a, b) {
        lemma_text_lt_connected(x, y);
    }
}

/// The order of texts is a strict total order.
pub proof fn lemma_text_order()
    ensures
        irreflexive(text_order()),
        transitive(text_order()),
        connected(text_order()),
{
    assert forall|a: Seq<char>| #[trigger] text_order()(a, a) == false by {
        lemma_text_lt_irreflexive(a);
    }
    assert forall|a: Seq<char>, b: Seq<char>, c: Seq<char>| #[trigger]
        text_order()(a, b) && #[trigger] text_order()(b, c) implies text_order()(a, c) by {
        lemma_text_lt_transitive(a, b, c);
    }
    assert forall|a: Seq<char>, b: Seq<char>| a != b implies #[trigger] text_order()(a, b)
        || #[trigger] text_order()(b, a) by {
        lemma_text_lt_connected(a, b);
    }
}

/// Two ascending sequences that hold the same elements are one sequence.
pub proof fn lemma_ascending_same<A>(x: Seq<A>, y: Seq<A>, lt: spec_fn(A, A) -> bool)
    requires
        irreflexive(lt),
        transitive(lt),
        sorted_by(x, lt),
        sorted_by(y, lt),
        x.to_set() == y.to_set(),
    ensures
        x == y,
    decreases x.len(),
{
    if x.len() == 0 {
        if y.len() > 0 {
            assert(y.to_set().contains(y[0]));
            assert(x.contains(y[0]));
        }
        assert(x =~= y);
    } else if y.len() == 0 {
        assert(x.to_set().contains(x[0]));
        assert(y.contains(x[0]));
    } else {
        assert(x.to_set().contains(x[0]));
        assert(y.contains(x[0]));
        let j = choose|j: int| 0 <= j < y.len() && y[j] == x[0];
        assert(y.to_set().contains(y[0]));
        assert(x.contains(y[0]));
        let i = choose|i: int| 0 <= i < x.len() && x[i] == y[0];
        if j > 0 {
            assert(lt(y[0], y[j]));
            if i > 0 {
                assert(lt(x[0], x[i]));
            }
            assert(lt(x[0], x[0]));
        }
        assert(x[0] == y[0]);
        let x1 = x.drop_first();
        let y1 = y.drop_first();
        assert forall|e: A| x1.to_set().contains(e) <==> y1.to_set().contains(e) by {
            if x1.contains(e) {
                let k = choose|k: int| 0 <= k < x1.len() && x1[k] == e;
                assert(lt(x[0], x[k + 1]));
                assert(x.to_set().contains(x[k + 1]));
                assert(y.contains(e));
                let m = choose|m: int| 0 <= m < y.len() && y[m] == e;
                assert(y1[m - 1] == e);
            }
            if y1.contains(e) {
                let k = choose|k: int| 0 <= k < y1.len() && y1[k] == e;
                assert(lt(y[0], y[k + 1]));
                assert(y.to_set().contains(y[k + 1]));
                assert(x.contains(e));
                let m = choose|m: int| 0 <= m < x.len() && x[m] == e;
                assert(x1[m - 1] == e);
            }
        }
        assert(x1.to_set() =~= y1.to_set());
        assert forall|a: int, b: int| 0 <= a < b < x1.len() implies #[trigger] lt(x1[a], x1[b]) by {
            assert(lt(x[a + 1], x[b + 1]));
        }
        assert forall|a: int, b: int| 0 <= a < b < y1.len() implies #[trigger] lt(y1[a], y1[b]) by {
            assert(lt(y[a + 1], y[b + 1]));
        }
        lemma_ascending_same(x1, y1, lt);
        assert(x =~= seq![x[0]] + x1);
        assert(y =~= seq![y[0]] + y1);
    }
}

/// The elements of `set` in ascending order: the sequence that holds each
/// element of `set` once, every element before those that it comes before by
/// `lt`. (For a finite set and a strict total order there is one such
/// sequence, and only one.)
pub open spec fn in_order<A>(set: Set<A>, lt: spec_fn(A, A) -> bool) -> Seq<A> {
    choose|s: Seq<A>| sorted_by(s, lt) && s.to_set() == set
}

/// An ascending sequence is its own elements in ascending order.
pub proof fn lemma_in_order<A>(s: Seq<A>, lt: spec_fn(A, A) -> bool)
    requires
        irreflexive(lt),
        transitive(lt),
        sorted_by(s, lt),
    ensures
        in_order(s.to_set(), lt) == s,
{
    let c = in_order(s.to_set(), lt);
    assert(sorted_by(c, lt) && c.to_set() == s.to_set());
    lemma_ascending_same(c, s, lt);
}

/// Whether the text of `a` comes before the text of `b`.
pub fn chars_before(a: &Vec<char>, b: &Vec<char>) -> (r: bool)
    ensures
        r == text_lt(a@, b@),
{
    let mut i: usize = 0;
    assert(a@.skip(0) == a@ && b@.skip(0) == b@);
    while i < a.len() && i < b.len()
        invariant
            i <= a.len(),
            i <= b.len(),
            text_lt(a@, b@) == text_lt(a@.skip(i as int), b@.skip(i as int)),
        decreases a.len() - i,
    {
        if a[i] != b[i] {
            return a[i] < b[i];
        }
        assert(a@.skip(i as int).drop_first() == a@.skip(i + 1));
        assert(b@.skip(i as int).drop_first() == b@.skip(i + 1));
        i = i + 1;
    }
    i < b.len()
}

/// Whether the text `a` comes before the text `b`.
pub fn text_before(a: &str, b: &str) -> (r: bool)
    ensures
        r == text_lt(a@, b@),
{
    let x = chars_of(a);
    let y = chars_of(b);
    chars_before(&x, &y)
}

/// Whether `a` comes before `b`, where an absent text comes before every
/// text.
pub fn opt_text_before(a: &Option<String>, b: &Option<String>) -> (r: bool)
    ensures
        r == opt_text_lt(crate::chars::opt_text(*a), crate::chars::opt_text(*b)),
{
    match (a, b) {
        (None, Some(_)) => true,
        (Some(x), Some(y)) => text_before(x.as_str(), y.as_str()),
        _ => false,
    }
}

} // verus!
