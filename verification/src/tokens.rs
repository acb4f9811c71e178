use vstd::prelude::*;

use crate::strset::StrSet;

verus! {

/// The characters that separate flag tokens in package-config output.
pub open spec fn is_space(c: char) -> bool {
    c == ' ' || c == '\n' || c == '\t' || c == '\r'
}

/// Decides whether a character separates tokens.
pub fn is_space_char(c: char) -> (r: bool)
    ensures
        r == is_space(c),
{
    c == ' ' || c == '\n' || c == '\t' || c == '\r'
}

/// The state of a left-to-right whitespace split: the tokens finished so
/// far, and the token under construction.
pub open spec fn split_state(s: Seq<char>) -> (Seq<Seq<char>>, Seq<char>)
    decreases s.len(),
{
    if s.len() == 0 {
        (Seq::empty(), Seq::empty())
    } else {
        let st = split_state(s.drop_last());
        let c = s.last();
        if is_space(c) {
            if st.1.len() == 0 {
                st
            } else {
                (st.0.push(st.1), Seq::<char>::empty())
            }
        } else {
            (st.0, st.1.push(c))
        }
    }
}

/// The whitespace-separated tokens of a string, in order: maximal runs of
/// non-separator characters.
pub open spec fn tokens_of(s: Seq<char>) -> Seq<Seq<char>> {
    let st = split_state(s);
    if st.1.len() == 0 {
        st.0
    } else {
        st.0.push(st.1)
    }
}

/// Extending the split by one character updates its state as the fold step
/// says.
proof fn lemma_split_step(s: Seq<char>, i: int)
    requires
        0 <= i < s.len(),
    ensures
        ({
            let st = split_state(s.take(i));
            let c = s[i];
            split_state(s.take(i + 1)) == if is_space(c) {
                if st.1.len() == 0 {
                    st
                } else {
                    (st.0.push(st.1), Seq::<char>::empty())
                }
            } else {
                (st.0, st.1.push(c))
            }
        }),
{
    assert(s.take(i + 1).drop_last() =~= s.take(i));
    assert(s.take(i + 1).last() == s[i]);
}


/// Splits a string into its whitespace-separated tokens.
pub fn split_tokens(s: &str) -> (toks: Vec<String>)
    ensures
        toks.deep_view() == tokens_of(s@),
{
    let n = s.unicode_len();
    let mut toks: Vec<String> = Vec::new();
    let mut cur_start: Option<usize> = None;
    let mut i: usize = 0;
    proof {
        assert(toks.deep_view() =~= Seq::<Seq<char>>::empty());
        assert(s@.take(0) =~= Seq::<char>::empty());
    }
    while i < n
        invariant
            0 <= i <= n,
            n == s@.len(),
            match cur_start {
                None => split_state(s@.take(i as int)) == (
                    toks.deep_view(),
                    Seq::<char>::empty(),
                ),
                Some(st) => st < i && split_state(s@.take(i as int)) == (
                    toks.deep_view(),
                    s@.subrange(st as int, i as int),
                ),
            },
        decreases n - i,
    {
        let c = s.get_char(i);
        proof {
            lemma_split_step(s@, i as int);
        }
        if is_space_char(c) {
            if let Some(st) = cur_start {
                let tok = s.substring_char(st, i);
                let owned = tok.to_owned();
                let ghost tok_view = owned@;
                let ghost prev = toks@;
                let ghost prev_deep = toks.deep_view();
                toks.push(owned);
                proof {
                    assert(toks.deep_view() =~= prev_deep.push(tok_view)) by {
                        assert(toks@ == prev.push(owned));
                        assert forall|j: int| 0 <= j < toks.deep_view().len() implies
                            toks.deep_view()[j] == prev_deep.push(tok_view)[j] by {
                            if j < prev.len() {
                                assert(toks@[j] == prev[j]);
                            }
                        }
                    }
                }
                cur_start = None;
            }
        } else {
            match cur_start {
                None => {
                    cur_start = Some(i);
                    proof {
                        assert(s@.subrange(i as int, i + 1) =~= Seq::<char>::empty().push(
                            s@[i as int],
                        ));
                    }
                },
                Some(st) => {
                    proof {
                        assert(s@.subrange(st as int, i + 1) =~= s@.subrange(
                            st as int,
                            i as int,
                        ).push(s@[i as int]));
                    }
                },
            }
        }
        i = i + 1;
    }
    proof {
        assert(s@.take(n as int) =~= s@);
    }
    if let Some(st) = cur_start {
        let tok = s.substring_char(st, n);
        let owned = tok.to_owned();
        let ghost tok_view = owned@;
        let ghost prev = toks@;
        let ghost prev_deep = toks.deep_view();
        toks.push(owned);
        proof {
            assert(toks.deep_view() =~= prev_deep.push(tok_view)) by {
                assert(toks@ == prev.push(owned));
                assert forall|j: int| 0 <= j < toks.deep_view().len() implies
                    toks.deep_view()[j] == prev_deep.push(tok_view)[j] by {
                    if j < prev.len() {
                        assert(toks@[j] == prev[j]);
                    }
                }
            }
        }
    }
    toks
}

/// A token is a flag with the given marker letter when it starts with a dash
/// followed by that letter.
pub open spec fn is_flag_with(t: Seq<char>, marker: char) -> bool {
    t.len() >= 2 && t[0] == '-' && t[1] == marker
}

/// The value a flag token carries: everything after the two-character
/// prefix.
pub open spec fn flag_value(t: Seq<char>) -> Seq<char> {
    t.subrange(2, t.len() as int)
}

/// The values of all flags with the given marker among the tokens.
pub open spec fn flag_values(toks: Seq<Seq<char>>, marker: char) -> Set<Seq<char>> {
    Set::new(
        |p: Seq<char>|
            exists|k: int|
                0 <= k < toks.len() && #[trigger] is_flag_with(toks[k], marker) && p == flag_value(
                    toks[k],
                ),
    )
}

/// Taking one more token extends the collected flag values by that token's
/// value exactly when it is a flag with the marker.
proof fn lemma_flag_values_take_step(toks: Seq<Seq<char>>, marker: char, k: int)
    requires
        0 <= k < toks.len(),
    ensures
        flag_values(toks.take(k + 1), marker) == if is_flag_with(toks[k], marker) {
            flag_values(toks.take(k), marker).insert(flag_value(toks[k]))
        } else {
            flag_values(toks.take(k), marker)
        },
{
    let prev = flag_values(toks.take(k), marker);
    let next = flag_values(toks.take(k + 1), marker);
    assert forall|p: Seq<char>| next.contains(p) implies (prev.contains(p) || (is_flag_with(
        toks[k],
        marker,
    ) && p == flag_value(toks[k]))) by {
        let j = choose|j: int|
            0 <= j < toks.take(k + 1).len() && #[trigger] is_flag_with(toks.take(k + 1)[j], marker)
                && p == flag_value(toks.take(k + 1)[j]);
        if j < k {
            assert(toks.take(k)[j] == toks.take(k + 1)[j]);
            assert(is_flag_with(toks.take(k)[j], marker));
        } else {
            assert(toks.take(k + 1)[j] == toks[k]);
        }
    }
    assert forall|p: Seq<char>| prev.contains(p) implies next.contains(p) by {
        let j = choose|j: int|
            0 <= j < toks.take(k).len() && #[trigger] is_flag_with(toks.take(k)[j], marker) && p
                == flag_value(toks.take(k)[j]);
        assert(toks.take(k + 1)[j] == toks.take(k)[j]);
        assert(is_flag_with(toks.take(k + 1)[j], marker));
    }
    if is_flag_with(toks[k], marker) {
        assert(toks.take(k + 1)[k] == toks[k]);
        assert(next.contains(flag_value(toks[k])));
        assert(next =~= prev.insert(flag_value(toks[k])));
    } else {
        assert(next =~= prev);
    }
}

/// Collects into the accumulator the values of every token of the output
/// that is a flag with the given marker letter: exactly those values join
/// the set, deduplicated, and nothing leaves it. Tokens with any other
/// shape are discarded.
pub fn collect_flag_values(output: &str, marker: char, acc: &mut StrSet)
    requires
        old(acc).wf(),
    ensures
        final(acc).wf(),
        final(acc).set() == old(acc).set() + flag_values(tokens_of(output@), marker),
{
    let toks = split_tokens(output);
    let ghost tv = toks.deep_view();
    let m = toks.len();
    let mut k: usize = 0;
    proof {
        assert(tv.take(0) =~= Seq::<Seq<char>>::empty());
        assert(flag_values(tv.take(0), marker) =~= Set::<Seq<char>>::empty());
        assert(acc.set() =~= old(acc).set() + flag_values(tv.take(0), marker));
    }
    while k < m
        invariant
            0 <= k <= m,
            m == tv.len(),
            tv == toks.deep_view(),
            acc.wf(),
            acc.set() == old(acc).set() + flag_values(tv.take(k as int), marker),
        decreases m - k,
    {
        let t = &toks[k];
        proof {
            assert(t@ == tv[k as int]);
            lemma_flag_values_take_step(tv, marker, k as int);
        }
        let t_len = t.as_str().unicode_len();
        if t_len >= 2 && t.as_str().get_char(0) == '-' && t.as_str().get_char(1) == marker {
            let value = t.as_str().substring_char(2, t_len);
            acc.insert(value.to_owned());
            proof {
                assert(acc.set() =~= old(acc).set() + flag_values(tv.take(k + 1), marker));
            }
        } else {
            proof {
                assert(!is_flag_with(tv[k as int], marker));
            }
        }
        k = k + 1;
    }
    proof {
        assert(tv.take(m as int) =~= tv);
    }
}

} // verus!
