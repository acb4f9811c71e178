use vstd::prelude::*;

use crate::order::{
    lemma_lex_asymmetric, lemma_lex_connected, lemma_lex_irreflexive, lemma_lex_transitive, lex_lt,
    str_lt,
};

verus! {

/// A sequence of names is strictly sorted in the lexicographic order.
pub open spec fn strict_sorted(s: Seq<Seq<char>>) -> bool {
    forall|i: int, j: int| 0 <= i < j < s.len() ==> lex_lt(s[i], s[j])
}

/// A deduplicated collection of strings kept in sorted order, so that
/// iterating it is deterministic no matter in which order its elements
/// arrived.
#[derive(Debug)]
pub struct StrSet {
    items: Vec<String>,
}

impl StrSet {
    /// The elements in iteration order.
    pub closed spec fn seq(self) -> Seq<Seq<char>> {
        self.items.deep_view()
    }

    /// The elements as a set.
    pub open spec fn set(self) -> Set<Seq<char>> {
        self.seq().to_set()
    }

    /// Well-formedness: the backing sequence is strictly sorted, which also
    /// means it holds no duplicates.
    pub open spec fn wf(self) -> bool {
        strict_sorted(self.seq())
    }

    /// Creates an empty set.
    pub fn new() -> (s: Self)
        ensures
            s.wf(),
            s.seq() == Seq::<Seq<char>>::empty(),
    {
        let s = StrSet { items: Vec::new() };
        proof {
            assert(s.seq() =~= Seq::<Seq<char>>::empty());
        }
        s
    }

    /// The number of distinct elements.
    pub fn len(&self) -> (n: usize)
        ensures
            n == self.seq().len(),
    {
        self.items.len()
    }

    /// The element at a position of the sorted order.
    pub fn get(&self, i: usize) -> (s: &String)
        requires
            i < self.seq().len(),
        ensures
            s@ == self.seq()[i as int],
    {
        &self.items[i]
    }

    /// Inserts an element, keeping the collection sorted and deduplicated:
    /// the resulting set of elements grows by exactly the new element, and
    /// inserting a present element changes nothing.
    pub fn insert(&mut self, item: String)
        requires
            old(self).wf(),
        ensures
            final(self).wf(),
            final(self).set() == old(self).set().insert(item@),
    {
        let len = self.items.len();
        let mut i: usize = 0;
        while i < len && str_lt(self.items[i].as_str(), item.as_str())
            invariant
                0 <= i <= len,
                len == self.seq().len(),
                self.wf(),
                forall|j: int| 0 <= j < i ==> lex_lt(self.seq()[j], item@),
            decreases len - i,
        {
            i = i + 1;
        }
        if i < len && !str_lt(item.as_str(), self.items[i].as_str()) {
            // Neither orders below the other: the element is already present.
            proof {
                lemma_lex_connected(self.seq()[i as int], item@);
                assert(self.seq().contains(item@));
                assert(self.set().insert(item@) =~= self.set());
            }
            return ;
        }
        proof {
            if i < len {
                assert forall|j: int| i <= j < len implies lex_lt(item@, self.seq()[j]) by {
                    if j > i {
                        lemma_lex_transitive(item@, self.seq()[i as int], self.seq()[j]);
                    }
                }
            }
            assert forall|j: int| 0 <= j < len implies self.seq()[j] != item@ by {
                if j < i {
                    lemma_lex_irreflexive(item@);
                    if self.seq()[j] == item@ {
                        assert(lex_lt(item@, item@));
                    }
                } else {
                    lemma_lex_irreflexive(item@);
                    if self.seq()[j] == item@ {
                        assert(lex_lt(item@, item@));
                    }
                }
            }
        }
        let ghost old_seq = self.seq();
        self.items.insert(i, item);
        proof {
            assert(self.seq() =~= old_seq.insert(i as int, item@)) by {
                assert(self.items@ == old(self).items@.insert(i as int, item));
                assert forall|j: int| 0 <= j < self.seq().len() implies self.seq()[j]
                    == old_seq.insert(i as int, item@)[j] by {
                    if j < i {
                        assert(self.items@[j] == old(self).items@[j]);
                    } else if j == i {
                        assert(self.items@[j] == item);
                    } else {
                        assert(self.items@[j] == old(self).items@[j - 1]);
                    }
                }
            }
            let new_seq = old_seq.insert(i as int, item@);
            assert forall|p: int, q: int| 0 <= p < q < new_seq.len() implies lex_lt(
                new_seq[p],
                new_seq[q],
            ) by {
                if q < i {
                    assert(lex_lt(old_seq[p], old_seq[q]));
                } else if p < i && q == i {
                    assert(lex_lt(old_seq[p], item@));
                } else if p < i && q > i {
                    assert(lex_lt(old_seq[p], old_seq[q - 1]));
                } else if p == i {
                    assert(lex_lt(item@, old_seq[q - 1]));
                } else {
                    assert(lex_lt(old_seq[p - 1], old_seq[q - 1]));
                }
            }
            assert(self.set() =~= old(self).set().insert(item@)) by {
                assert forall|x: Seq<char>| self.set().contains(x) implies old(
                    self,
                ).set().insert(item@).contains(x) by {
                    let k = choose|k: int|
                        0 <= k < new_seq.len() && new_seq[k] == x;
                    if k < i {
                        assert(old_seq[k] == x);
                        assert(old_seq.contains(x));
                    } else if k == i {
                    } else {
                        assert(old_seq[k - 1] == x);
                        assert(old_seq.contains(x));
                    }
                }
                assert forall|x: Seq<char>|
                    old(self).set().insert(item@).contains(x) implies self.set().contains(x) by {
                    if x == item@ {
                        assert(new_seq[i as int] == x);
                        assert(new_seq.contains(x));
                    } else {
                        let k = choose|k: int| 0 <= k < old_seq.len() && old_seq[k] == x;
                        if k < i {
                            assert(new_seq[k] == x);
                        } else {
                            assert(new_seq[k + 1] == x);
                        }
                        assert(new_seq.contains(x));
                    }
                }
            }
        }
    }
}

/// A strictly sorted sequence holds no element twice.
pub proof fn lemma_sorted_no_duplicates(s: Seq<Seq<char>>)
    requires
        strict_sorted(s),
    ensures
        s.no_duplicates(),
{
    assert forall|i: int, j: int| 0 <= i < s.len() && 0 <= j < s.len() && i != j implies s[i]
        != s[j] by {
        if i < j {
            lemma_lex_irreflexive(s[i]);
            if s[i] == s[j] {
                assert(lex_lt(s[i], s[i]));
            }
        } else {
            lemma_lex_irreflexive(s[i]);
            if s[i] == s[j] {
                assert(lex_lt(s[j], s[j]));
            }
        }
    }
}

/// Two strictly sorted sequences with the same elements are the same
/// sequence: the sorted order of a set of names is unique.
pub proof fn lemma_sorted_set_unique(a: Seq<Seq<char>>, b: Seq<Seq<char>>)
    requires
        strict_sorted(a),
        strict_sorted(b),
        a.to_set() == b.to_set(),
    ensures
        a == b,
    decreases a.len(),
{
    if a.len() == 0 && b.len() == 0 {
        assert(a =~= b);
    } else if a.len() == 0 {
        assert(b.contains(b[0]));
        assert(b.to_set().contains(b[0]));
        assert(a.to_set().contains(b[0]));
        assert(false);
    } else if b.len() == 0 {
        assert(a.contains(a[0]));
        assert(a.to_set().contains(a[0]));
        assert(b.to_set().contains(a[0]));
        assert(false);
    } else {
        assert(a[0] == b[0]) by {
            assert(a.contains(a[0]));
            assert(b.to_set().contains(a[0]));
            let k = choose|k: int| 0 <= k < b.len() && b[k] == a[0];
            assert(b.contains(b[0]));
            assert(a.to_set().contains(b[0]));
            let m = choose|m: int| 0 <= m < a.len() && a[m] == b[0];
            if k > 0 && m > 0 {
                assert(lex_lt(b[0], b[k]));
                assert(lex_lt(a[0], a[m]));
                lemma_lex_asymmetric(b[0], a[0]);
                assert(false);
            }
        }
        let at = a.drop_first();
        let bt = b.drop_first();
        assert(at.to_set() =~= bt.to_set()) by {
            assert forall|x: Seq<char>| at.to_set().contains(x) implies bt.to_set().contains(
                x,
            ) by {
                lemma_sorted_tail_set(a, b, x);
            }
            assert forall|x: Seq<char>| bt.to_set().contains(x) implies at.to_set().contains(
                x,
            ) by {
                lemma_sorted_tail_set(b, a, x);
            }
        }
        lemma_sorted_set_unique(at, bt);
        assert(a =~= b) by {
            assert forall|j: int| 0 <= j < a.len() implies a[j] == b[j] by {
                if j > 0 {
                    assert(at[j - 1] == bt[j - 1]);
                }
            }
        }
    }
}

/// An element of the tail of a sorted sequence is an element of the tail of
/// any sorted sequence with the same elements and the same head.
proof fn lemma_sorted_tail_set(a: Seq<Seq<char>>, b: Seq<Seq<char>>, x: Seq<char>)
    requires
        strict_sorted(a),
        strict_sorted(b),
        a.to_set() == b.to_set(),
        a.len() > 0,
        b.len() > 0,
        a[0] == b[0],
        a.drop_first().to_set().contains(x),
    ensures
        b.drop_first().to_set().contains(x),
{
    let at = a.drop_first();
    let k = choose|k: int| 0 <= k < at.len() && at[k] == x;
    assert(a[k + 1] == x);
    assert(lex_lt(a[0], x));
    assert(a.contains(x));
    assert(b.to_set().contains(x));
    let m = choose|m: int| 0 <= m < b.len() && b[m] == x;
    if m == 0 {
        lemma_lex_irreflexive(x);
        assert(false);
    }
    assert(b.drop_first()[m - 1] == x);
    assert(b.drop_first().contains(x));
}

} // verus!
