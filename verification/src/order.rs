use vstd::prelude::*;

verus! {

/// Character-code comparison used for the lexicographic order on names.
pub open spec fn char_lt(a: char, b: char) -> bool {
    (a as u32) < (b as u32)
}

/// Lexicographic order on character sequences, matching the byte order in
/// which a sorted set of UTF-8 strings iterates.
pub open spec fn lex_lt(a: Seq<char>, b: Seq<char>) -> bool
    decreases a.len(),
{
    if b.len() == 0 {
        false
    } else if a.len() == 0 {
        true
    } else if char_lt(a[0], b[0]) {
        true
    } else if char_lt(b[0], a[0]) {
        false
    } else {
        lex_lt(a.drop_first(), b.drop_first())
    }
}

/// Decides the lexicographic order on two strings.
pub fn str_lt(a: &str, b: &str) -> (r: bool)
    ensures
        r == lex_lt(a@, b@),
{
    let a_len = a.unicode_len();
    let b_len = b.unicode_len();
    let mut i: usize = 0;
    while i < a_len && i < b_len
        invariant
            0 <= i <= a_len,
            0 <= i <= b_len,
            a_len == a@.len(),
            b_len == b@.len(),
            a@.subrange(0, i as int) == b@.subrange(0, i as int),
        decreases a_len - i,
    {
        let ca = a.get_char(i);
        let cb = b.get_char(i);
        if (ca as u32) < (cb as u32) {
            assert(lex_lt(a@, b@)) by {
                lemma_lex_lt_at(a@, b@, i as int);
            }
            return true;
        }
        if (cb as u32) < (ca as u32) {
            assert(!lex_lt(a@, b@)) by {
                lemma_lex_lt_at(b@, a@, i as int);
                lemma_lex_asymmetric(b@, a@);
            }
            return false;
        }
        assert(ca == cb) by {
            lemma_char_code_injective(ca, cb);
        }
        assert(a@.subrange(0, i + 1) == b@.subrange(0, i + 1)) by {
            assert(a@.subrange(0, i + 1) =~= a@.subrange(0, i as int).push(a@[i as int]));
            assert(b@.subrange(0, i + 1) =~= b@.subrange(0, i as int).push(b@[i as int]));
        }
        i = i + 1;
    }
    if i < b_len {
        assert(lex_lt(a@, b@)) by {
            lemma_lex_prefix(a@, b@, i as int);
        }
        true
    } else {
        assert(!lex_lt(a@, b@)) by {
            if a_len == b_len {
                assert(a@ =~= b@) by {
                    assert(a@.subrange(0, i as int) =~= a@);
                    assert(b@.subrange(0, i as int) =~= b@);
                }
                lemma_lex_irreflexive(a@);
            } else {
                lemma_lex_prefix(b@, a@, i as int);
                lemma_lex_asymmetric(b@, a@);
            }
        }
        false
    }
}

/// Two characters with the same code are the same character.
proof fn lemma_char_code_injective(a: char, b: char)
    requires
        a as u32 == b as u32,
    ensures
        a == b,
{
}

/// If two sequences agree on a prefix and differ first at `i`, the one with
/// the smaller character there is lexicographically smaller.
proof fn lemma_lex_lt_at(a: Seq<char>, b: Seq<char>, i: int)
    requires
        0 <= i < a.len(),
        i < b.len(),
        a.subrange(0, i) == b.subrange(0, i),
        char_lt(a[i], b[i]),
    ensures
        lex_lt(a, b),
    decreases i,
{
    if i == 0 {
    } else {
        assert(a[0] == a.subrange(0, i)[0]);
        assert(b[0] == b.subrange(0, i)[0]);
        assert(a.drop_first().subrange(0, i - 1) =~= b.drop_first().subrange(0, i - 1)) by {
            assert forall|j: int| 0 <= j < i - 1 implies a.drop_first()[j] == b.drop_first()[j] by {
                assert(a.subrange(0, i)[j + 1] == b.subrange(0, i)[j + 1]);
                assert(a.subrange(0, i)[j + 1] == a[j + 1]);
                assert(b.subrange(0, i)[j + 1] == b[j + 1]);
                assert(a.drop_first()[j] == a[j + 1]);
                assert(b.drop_first()[j] == b[j + 1]);
            }
        }
        assert(a.drop_first()[i - 1] == a[i]);
        assert(b.drop_first()[i - 1] == b[i]);
        lemma_lex_lt_at(a.drop_first(), b.drop_first(), i - 1);
        assert(!char_lt(a[0], b[0]) && !char_lt(b[0], a[0])) by {
            assert(a[0] == b[0]);
        }
    }
}

/// A strict prefix is lexicographically smaller than the longer sequence.
proof fn lemma_lex_prefix(a: Seq<char>, b: Seq<char>, i: int)
    requires
        0 <= i == a.len(),
        i < b.len(),
        a.subrange(0, i) == b.subrange(0, i),
    ensures
        lex_lt(a, b),
    decreases i,
{
    if i == 0 {
    } else {
        assert(a[0] == a.subrange(0, i)[0]);
        assert(b[0] == b.subrange(0, i)[0]);
        assert(a.drop_first().subrange(0, i - 1) =~= b.drop_first().subrange(0, i - 1)) by {
            assert forall|j: int| 0 <= j < i - 1 implies a.drop_first()[j] == b.drop_first()[j] by {
                assert(a.subrange(0, i)[j + 1] == b.subrange(0, i)[j + 1]);
                assert(a.subrange(0, i)[j + 1] == a[j + 1]);
                assert(b.subrange(0, i)[j + 1] == b[j + 1]);
                assert(a.drop_first()[j] == a[j + 1]);
                assert(b.drop_first()[j] == b[j + 1]);
            }
        }
        lemma_lex_prefix(a.drop_first(), b.drop_first(), i - 1);
        assert(a[0] == b[0]);
    }
}

/// The lexicographic order is irreflexive.
pub proof fn lemma_lex_irreflexive(a: Seq<char>)
    ensures
        !lex_lt(a, a),
    decreases a.len(),
{
    if a.len() > 0 {
        lemma_lex_irreflexive(a.drop_first());
    }
}

/// The lexicographic order is asymmetric.
pub proof fn lemma_lex_asymmetric(a: Seq<char>, b: Seq<char>)
    requires
        lex_lt(a, b),
    ensures
        !lex_lt(b, a),
    decreases a.len(),
{
    if a.len() > 0 && b.len() > 0 && !char_lt(a[0], b[0]) && !char_lt(b[0], a[0]) {
        lemma_lex_asymmetric(a.drop_first(), b.drop_first());
    }
}

/// The lexicographic order is transitive.
pub proof fn lemma_lex_transitive(a: Seq<char>, b: Seq<char>, c: Seq<char>)
    requires
        lex_lt(a, b),
        lex_lt(b, c),
    ensures
        lex_lt(a, c),
    decreases a.len(),
{
    if a.len() == 0 {
    } else {
        if !char_lt(a[0], b[0]) && !char_lt(b[0], a[0]) && !char_lt(b[0], c[0]) && !char_lt(
            c[0],
            b[0],
        ) {
            lemma_char_code_injective(a[0], b[0]);
            lemma_char_code_injective(b[0], c[0]);
            lemma_lex_transitive(a.drop_first(), b.drop_first(), c.drop_first());
        }
    }
}

/// Two sequences that neither order below the other are equal.
pub proof fn lemma_lex_connected(a: Seq<char>, b: Seq<char>)
    requires
        !lex_lt(a, b),
        !lex_lt(b, a),
    ensures
        a == b,
    decreases a.len(),
{
    if a.len() == 0 || b.len() == 0 {
        assert(a =~= b);
    } else {
        lemma_char_code_injective(a[0], b[0]);
        lemma_lex_connected(a.drop_first(), b.drop_first());
        assert(a =~= b) by {
            assert forall|j: int| 0 <= j < a.len() implies a[j] == b[j] by {
                if j > 0 {
                    assert(a.drop_first()[j - 1] == b.drop_first()[j - 1]);
                }
            }
        }
    }
}

/// Decides string equality through the order: two names are equal exactly
/// when neither orders below the other.
pub fn str_eq(a: &str, b: &str) -> (r: bool)
    ensures
        r == (a@ == b@),
{
    let ab = str_lt(a, b);
    let ba = str_lt(b, a);
    proof {
        if !ab && !ba {
            lemma_lex_connected(a@, b@);
        }
        if a@ == b@ {
            lemma_lex_irreflexive(a@);
        }
    }
    !ab && !ba
}

} // verus!
