use vstd::prelude::*;

use crate::strset::{lemma_sorted_no_duplicates, lemma_sorted_set_unique, strict_sorted, StrSet};
use crate::tokens::{collect_flag_values, flag_values, tokens_of};

verus! {

/// The values of all flags with the given marker over a whole list of
/// package-config outputs, one output per queried library.
pub open spec fn union_flag_values(outs: Seq<Seq<char>>, marker: char) -> Set<Seq<char>> {
    Set::new(
        |p: Seq<char>|
            exists|i: int|
                0 <= i < outs.len() && #[trigger] flag_values(tokens_of(outs[i]), marker).contains(
                    p,
                ),
    )
}

/// Taking one more output extends the union by that output's flag values.
proof fn lemma_union_take_step(outs: Seq<Seq<char>>, marker: char, i: int)
    requires
        0 <= i < outs.len(),
    ensures
        union_flag_values(outs.take(i + 1), marker) == union_flag_values(outs.take(i), marker)
            + flag_values(tokens_of(outs[i]), marker),
{
    let prev = union_flag_values(outs.take(i), marker);
    let next = union_flag_values(outs.take(i + 1), marker);
    let here = flag_values(tokens_of(outs[i]), marker);
    assert forall|p: Seq<char>| next.contains(p) implies (prev + here).contains(p) by {
        let j = choose|j: int|
            0 <= j < outs.take(i + 1).len() && #[trigger] flag_values(
                tokens_of(outs.take(i + 1)[j]),
                marker,
            ).contains(p);
        if j < i {
            assert(outs.take(i)[j] == outs.take(i + 1)[j]);
            assert(flag_values(tokens_of(outs.take(i)[j]), marker).contains(p));
        } else {
            assert(outs.take(i + 1)[j] == outs[i]);
        }
    }
    assert forall|p: Seq<char>| (prev + here).contains(p) implies next.contains(p) by {
        if prev.contains(p) {
            let j = choose|j: int|
                0 <= j < outs.take(i).len() && #[trigger] flag_values(
                    tokens_of(outs.take(i)[j]),
                    marker,
                ).contains(p);
            assert(outs.take(i + 1)[j] == outs.take(i)[j]);
            assert(flag_values(tokens_of(outs.take(i + 1)[j]), marker).contains(p));
        } else {
            assert(outs.take(i + 1)[i] == outs[i]);
            assert(flag_values(tokens_of(outs.take(i + 1)[i]), marker).contains(p));
        }
    }
    assert(next =~= prev + here);
}

/// Discovers the values of all flags with the given marker across the
/// outputs of every package-config query: the result is sorted and holds
/// exactly the union of the per-output flag values, no matter in which
/// order the outputs were produced.
pub fn discover_flag_values(outputs: &Vec<String>, marker: char) -> (s: StrSet)
    ensures
        s.wf(),
        s.set() == union_flag_values(outputs.deep_view(), marker),
{
    let ghost outs = outputs.deep_view();
    let mut s = StrSet::new();
    let n = outputs.len();
    let mut i: usize = 0;
    proof {
        assert(outs.take(0) =~= Seq::<Seq<char>>::empty());
        assert(s.set() =~= union_flag_values(outs.take(0), marker));
    }
    while i < n
        invariant
            0 <= i <= n,
            n == outs.len(),
            outs == outputs.deep_view(),
            s.wf(),
            s.set() == union_flag_values(outs.take(i as int), marker),
        decreases n - i,
    {
        proof {
            assert(outputs[i as int]@ == outs[i as int]);
            lemma_union_take_step(outs, marker, i as int);
        }
        collect_flag_values(outputs[i].as_str(), marker, &mut s);
        i = i + 1;
    }
    proof {
        assert(outs.take(n as int) =~= outs);
    }
    s
}

/// Discovery is order-independent and deduplicated: any two sorted
/// discovery results over permuted lists of the same tool outputs are the
/// same sequence, and hold no element twice.
pub proof fn lemma_discovery_order_independent(
    a: Seq<Seq<char>>,
    b: Seq<Seq<char>>,
    marker: char,
    ra: Seq<Seq<char>>,
    rb: Seq<Seq<char>>,
)
    requires
        a.to_multiset() == b.to_multiset(),
        strict_sorted(ra),
        strict_sorted(rb),
        ra.to_set() == union_flag_values(a, marker),
        rb.to_set() == union_flag_values(b, marker),
    ensures
        ra == rb,
        ra.no_duplicates(),
{
    a.to_multiset_ensures();
    b.to_multiset_ensures();
    assert(union_flag_values(a, marker) =~= union_flag_values(b, marker)) by {
        assert forall|p: Seq<char>| union_flag_values(a, marker).contains(p) implies
            union_flag_values(b, marker).contains(p) by {
            lemma_union_member_swap(a, b, marker, p);
        }
        assert forall|p: Seq<char>| union_flag_values(b, marker).contains(p) implies
            union_flag_values(a, marker).contains(p) by {
            lemma_union_member_swap(b, a, marker, p);
        }
    }
    lemma_sorted_set_unique(ra, rb);
    lemma_sorted_no_duplicates(ra);
}

/// A member of the union over one list of outputs is a member of the union
/// over any list holding the same outputs.
proof fn lemma_union_member_swap(a: Seq<Seq<char>>, b: Seq<Seq<char>>, marker: char, p: Seq<char>)
    requires
        a.to_multiset() == b.to_multiset(),
        union_flag_values(a, marker).contains(p),
    ensures
        union_flag_values(b, marker).contains(p),
{
    a.to_multiset_ensures();
    b.to_multiset_ensures();
    let i = choose|i: int|
        0 <= i < a.len() && #[trigger] flag_values(tokens_of(a[i]), marker).contains(p);
    assert(a.contains(a[i]));
    assert(a.to_multiset().count(a[i]) > 0);
    assert(b.contains(a[i]));
    let j = choose|j: int| 0 <= j < b.len() && b[j] == a[i];
    assert(flag_values(tokens_of(b[j]), marker).contains(p));
}

} // verus!
