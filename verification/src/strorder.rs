//! Lexicographic order on character sequences, with a verified three-way
//! comparison on `&str`. Entry names are listed in this order.
use vstd::prelude::*;
use vstd::utf8::char_u32_cast;

verus! {

/// Strict lexicographic order on character sequences, comparing Unicode
/// scalar values position by position; a proper prefix sorts first.
pub open spec fn lex_lt(a: Seq<char>, b: Seq<char>) -> bool
    decreases a.len(),
{
    if b.len() == 0 {
        false
    } else if a.len() == 0 {
        true
    } else if (a[0] as u32) < (b[0] as u32) {
        true
    } else if (b[0] as u32) < (a[0] as u32) {
        false
    } else {
        lex_lt(a.drop_first(), b.drop_first())
    }
}

/// Exactly one of `lex_lt(a, b)`, `a == b`, `lex_lt(b, a)` holds.
pub proof fn lemma_lex_trichotomy(a: Seq<char>, b: Seq<char>)
    ensures
        lex_lt(a, b) ==> !lex_lt(b, a) && a != b,
        lex_lt(b, a) ==> !lex_lt(a, b) && a != b,
        !lex_lt(a, b) && !lex_lt(b, a) ==> a == b,
    decreases a.len(),
{
    if a.len() == 0 || b.len() == 0 {
        if a.len() == 0 && b.len() == 0 {
            assert(a =~= b);
        }
    } else {
        broadcast use char_u32_cast;

        lemma_lex_trichotomy(a.drop_first(), b.drop_first());
        if !lex_lt(a, b) && !lex_lt(b, a) {
            assert((a[0] as u32) == (b[0] as u32));
            assert(a[0] == b[0]) by {
                char_u32_cast(a[0], a[0] as u32);
                char_u32_cast(b[0], b[0] as u32);
            }
            assert(a.drop_first() =~= b.drop_first());
            assert(a =~= seq![a[0]] + a.drop_first());
            assert(b =~= seq![b[0]] + b.drop_first());
        }
        if a == b {
            assert(a.drop_first() =~= b.drop_first());
        }
    }
}

/// `lex_lt` is transitive.
pub proof fn lemma_lex_transitive(a: Seq<char>, b: Seq<char>, c: Seq<char>)
    requires
        lex_lt(a, b),
        lex_lt(b, c),
    ensures
        lex_lt(a, c),
    decreases a.len(),
{
    if a.len() == 0 || b.len() == 0 || c.len() == 0 {
    } else {
        if (a[0] as u32) == (b[0] as u32) && (b[0] as u32) == (c[0] as u32) {
            lemma_lex_transitive(a.drop_first(), b.drop_first(), c.drop_first());
        }
    }
}

/// Three-way comparison result for entry names.
#[derive(Clone, Copy, Debug, PartialEq, Eq, Structural)]
pub enum StrOrd {
    Less,
    Equal,
    Greater,
}

/// Compares two strings in the lexicographic order of their characters.
#[verifier::loop_isolation(false)]
pub fn str_cmp(a: &str, b: &str) -> (r: StrOrd)
    ensures
        r == StrOrd::Less <==> lex_lt(a@, b@),
        r == StrOrd::Equal <==> a@ == b@,
        r == StrOrd::Greater <==> lex_lt(b@, a@),
{
    proof {
        lemma_lex_trichotomy(a@, b@);
    }
    let alen = a.unicode_len();
    let blen = b.unicode_len();
    let mut i: usize = 0;
    loop
        invariant
            i <= alen,
            i <= blen,
            alen == a@.len(),
            blen == b@.len(),
            a@.subrange(0, i as int) =~= b@.subrange(0, i as int),
        decreases alen - i,
    {
        if i == alen || i == blen {
            proof {
                lemma_lex_of_prefix(a@, b@, i as int);
            }
            if alen == blen {
                proof {
                    assert(a@ =~= a@.subrange(0, i as int));
                    assert(b@ =~= b@.subrange(0, i as int));
                }
                return StrOrd::Equal;
            } else if alen < blen {
                return StrOrd::Less;
            } else {
                return StrOrd::Greater;
            }
        }
        let ca = a.get_char(i) as u32;
        let cb = b.get_char(i) as u32;
        if ca < cb {
            proof {
                lemma_lex_of_first_difference(a@, b@, i as int);
            }
            return StrOrd::Less;
        } else if cb < ca {
            proof {
                lemma_lex_of_first_difference(b@, a@, i as int);
            }
            return StrOrd::Greater;
        }
        i = i + 1;
        proof {
            broadcast use char_u32_cast;

            assert(a@.subrange(0, i as int) =~= b@.subrange(0, i as int));
        }
    }
}

/// If the first `i` characters agree and both sequences continue past `i`
/// with `a` holding the smaller character there, then `a` sorts first.
pub proof fn lemma_lex_of_first_difference(a: Seq<char>, b: Seq<char>, i: int)
    requires
        0 <= i < a.len(),
        i < b.len(),
        a.subrange(0, i) =~= b.subrange(0, i),
        (a[i] as u32) < (b[i] as u32),
    ensures
        lex_lt(a, b),
    decreases i,
{
    if i == 0 {
    } else {
        assert((a[0] as u32) == (b[0] as u32)) by {
            assert(a.subrange(0, i)[0] == b.subrange(0, i)[0]);
            broadcast use char_u32_cast;

        }
        assert(a.drop_first().subrange(0, i - 1) =~= b.drop_first().subrange(0, i - 1)) by {
            assert forall|j: int| 0 <= j < i - 1 implies a.drop_first()[j] == b.drop_first()[j] by {
                assert(a.subrange(0, i)[j + 1] == b.subrange(0, i)[j + 1]);
            }
        }
        lemma_lex_of_first_difference(a.drop_first(), b.drop_first(), i - 1);
    }
}

/// If the first `i` characters agree and one sequence ends at `i`, the
/// shorter sorts first (equal sequences sort under neither).
pub proof fn lemma_lex_of_prefix(a: Seq<char>, b: Seq<char>, i: int)
    requires
        0 <= i <= a.len(),
        i <= b.len(),
        i == a.len() || i == b.len(),
        a.subrange(0, i) =~= b.subrange(0, i),
    ensures
        a.len() < b.len() ==> lex_lt(a, b),
        b.len() < a.len() ==> lex_lt(b, a),
    decreases i,
{
    if i == 0 {
    } else {
        assert((a[0] as u32) == (b[0] as u32)) by {
            assert(a.subrange(0, i)[0] == b.subrange(0, i)[0]);
            broadcast use char_u32_cast;

        }
        assert(a.drop_first().subrange(0, i - 1) =~= b.drop_first().subrange(0, i - 1)) by {
            assert forall|j: int| 0 <= j < i - 1 implies a.drop_first()[j] == b.drop_first()[j] by {
                assert(a.subrange(0, i)[j + 1] == b.subrange(0, i)[j + 1]);
            }
        }
        lemma_lex_of_prefix(a.drop_first(), b.drop_first(), i - 1);
    }
}

} // verus!
