//! A set of strings that hands its members out in ascending order.

use crate::chars::texts_of;
use crate::order::{
    lemma_in_order, lemma_text_lt_connected, lemma_text_lt_irreflexive, lemma_text_lt_transitive,
    lemma_text_order, in_order, text_before, text_lt, text_order,
};
use vstd::prelude::*;
use vstd::relations::sorted_by;

verus! {

/// A set of strings. A string is in the set once, however often it was
/// inserted.
#[derive(Debug)]
pub struct StringSet {
    items: Vec<String>,
}

impl View for StringSet {
    type V = Set<Seq<char>>;

    closed spec fn view(&self) -> Set<Seq<char>> {
        texts_of(self.items@).to_set()
    }
}

impl StringSet {
    #[verifier::type_invariant]
    spec fn ascending(self) -> bool {
        sorted_by(texts_of(self.items@), text_order())
    }

    /// The empty set.
    pub fn new() -> (r: StringSet)
        ensures
            r@ == Set::<Seq<char>>::empty(),
    {
        let r = StringSet { items: Vec::new() };
        assert(r@ =~= Set::<Seq<char>>::empty());
        r
    }

    /// The members of the set in ascending order.
    pub fn items(&self) -> (r: &Vec<String>)
        ensures
            texts_of(r@) == in_order(self@, text_order()),
    {
        proof {
            use_type_invariant(self);
            lemma_text_order();
            lemma_in_order(texts_of(self.items@), text_order());
        }
        &self.items
    }

    /// The number of members.
    pub fn len(&self) -> (n: usize)
        ensures
            self@.finite(),
            n == self@.len(),
    {
        proof {
            use_type_invariant(self);
            let t = texts_of(self.items@);
            assert forall|i: int, j: int| 0 <= i < j < t.len() implies t[i] != t[j] by {
                assert(text_order()(t[i], t[j]));
                lemma_text_lt_irreflexive(t[i]);
            }
            t.unique_seq_to_set();
        }
        self.items.len()
    }

    /// Whether the set has no member.
    pub fn is_empty(&self) -> (r: bool)
        ensures
            r == (self@ == Set::<Seq<char>>::empty()),
    {
        proof {
            let t = texts_of(self.items@);
            if t.len() > 0 {
                assert(t.to_set().contains(t[0]));
            } else {
                assert(t.to_set() =~= Set::<Seq<char>>::empty());
            }
        }
        self.items.len() == 0
    }

    /// Whether `value` is a member.
    pub fn contains(&self, value: &str) -> (r: bool)
        ensures
            r == self@.contains(value@),
    {
        let wanted = value.to_owned();
        let mut i: usize = 0;
        while i < self.items.len()
            invariant
                i <= self.items.len(),
                wanted@ == value@,
                forall|j: int| 0 <= j < i ==> texts_of(self.items@)[j] != value@,
            decreases self.items.len() - i,
        {
            if self.items[i] == wanted {
                assert(texts_of(self.items@)[i as int] == value@);
                return true;
            }
            i = i + 1;
        }
        false
    }

    /// Makes `value` a member; returns whether it was none before.
    pub fn insert(&mut self, value: String) -> (added: bool)
        ensures
            final(self)@ == old(self)@.insert(value@),
            added == !old(self)@.contains(value@),
    {
        proof {
            use_type_invariant(&*self);
        }
        let ghost before = texts_of(self.items@);
        let mut i: usize = 0;
        while i < self.items.len() && text_before(self.items[i].as_str(), value.as_str())
            invariant
                i <= self.items.len(),
                self.items@ == old(self).items@,
                before == texts_of(self.items@),
                forall|j: int| 0 <= j < i ==> text_lt(#[trigger] before[j], value@),
            decreases self.items.len() - i,
        {
            i = i + 1;
        }
        if i < self.items.len() && self.items[i] == value {
            assert(before[i as int] == value@);
            assert(before.to_set().contains(value@));
            assert(before.to_set().insert(value@) =~= before.to_set());
            false
        } else {
            proof {
                assert forall|j: int| i <= j < before.len() implies text_lt(
                    value@,
                    #[trigger] before[j],
                ) by {
                    if j > i {
                        assert(text_order()(before[i as int], before[j]));
                    }
                    if text_lt(before[j], value@) {
                        lemma_text_lt_transitive(before[i as int], before[j], value@);
                    }
                    if before[i as int] != value@ {
                        lemma_text_lt_connected(before[i as int], value@);
                    }
                    if j > i {
                        lemma_text_lt_transitive(value@, before[i as int], before[j]);
                    }
                }
                assert forall|j: int| 0 <= j < before.len() implies before[j] != value@ by {
                    lemma_text_lt_irreflexive(value@);
                }
            }
            let mut items: Vec<String> = Vec::new();
            std::mem::swap(&mut self.items, &mut items);
            items.insert(i, value);
            proof {
                let after = texts_of(items@);
                assert(after =~= before.insert(i as int, value@));
                assert forall|a: int, b: int| 0 <= a < b < after.len() implies #[trigger] text_order()(
                    after[a],
                    after[b],
                ) by {
                    if a < i && b > i {
                        assert(text_order()(before[a], before[b - 1]));
                    } else if a < i && b < i {
                        assert(text_order()(before[a], before[b]));
                    } else if a > i {
                        assert(text_order()(before[a - 1], before[b - 1]));
                    }
                }
                assert forall|e: Seq<char>| after.to_set().contains(e) <==> before.to_set().insert(
                    value@,
                ).contains(e) by {
                    if after.contains(e) {
                        let k = choose|k: int| 0 <= k < after.len() && after[k] == e;
                        if k < i {
                            assert(before[k] == e);
                        } else if k > i {
                            assert(before[k - 1] == e);
                        }
                    }
                    if before.contains(e) {
                        let k = choose|k: int| 0 <= k < before.len() && before[k] == e;
                        if k < i {
                            assert(after[k] == e);
                        } else {
                            assert(after[k + 1] == e);
                        }
                    }
                    if e == value@ {
                        assert(after[i as int] == e);
                    }
                }
                assert(after.to_set() =~= before.to_set().insert(value@));
            }
            self.items = items;
            true
        }
    }
}

} // verus!
