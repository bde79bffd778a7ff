use vstd::prelude::*;
use vstd::utf8::{encode_utf8, encode_utf8_decode_utf8};

verus! {

/// Strict byte-lexicographic order on byte strings: `a` comes before `b` when
/// `a` is a proper prefix of `b`, or when the first byte where they differ is
/// smaller in `a`.
pub open spec fn bytes_lt(a: Seq<u8>, b: Seq<u8>) -> bool
    decreases a.len(),
{
    if b.len() == 0 {
        false
    } else if a.len() == 0 {
        true
    } else if a[0] != b[0] {
        a[0] < b[0]
    } else {
        bytes_lt(a.drop_first(), b.drop_first())
    }
}

/// Strict order on strings: byte-lexicographic order of their UTF-8 encodings.
pub open spec fn str_below(a: Seq<char>, b: Seq<char>) -> bool {
    bytes_lt(encode_utf8(a), encode_utf8(b))
}

/// Lexicographic order on pairs of strings.
pub open spec fn pair_below(a: (Seq<char>, Seq<char>), b: (Seq<char>, Seq<char>)) -> bool {
    str_below(a.0, b.0) || (a.0 == b.0 && str_below(a.1, b.1))
}

/// Lexicographic order on triples of strings.
pub open spec fn triple_below(
    a: (Seq<char>, Seq<char>, Seq<char>),
    b: (Seq<char>, Seq<char>, Seq<char>),
) -> bool {
    str_below(a.0, b.0) || (a.0 == b.0 && str_below(a.1, b.1)) || (a.0 == b.0 && a.1 == b.1
        && str_below(a.2, b.2))
}

/// UTF-8 encoding is injective: equal encodings come from equal strings.
pub proof fn lemma_utf8_injective(a: Seq<char>, b: Seq<char>)
    requires
        encode_utf8(a) == encode_utf8(b),
    ensures
        a == b,
{
    encode_utf8_decode_utf8(a);
    encode_utf8_decode_utf8(b);
}

/// Exactly one of `bytes_lt(a, b)`, `a == b`, `bytes_lt(b, a)` holds.
pub proof fn lemma_bytes_trichotomy(a: Seq<u8>, b: Seq<u8>)
    ensures
        bytes_lt(a, b) || a == b || bytes_lt(b, a),
        bytes_lt(a, b) ==> a != b && !bytes_lt(b, a),
        a == b ==> !bytes_lt(a, b),
    decreases a.len(),
{
    if a.len() == 0 && b.len() == 0 {
        assert(a =~= b);
    } else if a.len() > 0 && b.len() > 0 {
        if a[0] == b[0] {
            lemma_bytes_trichotomy(a.drop_first(), b.drop_first());
            if a.drop_first() == b.drop_first() {
                assert forall|i: int| 0 <= i < a.len() implies a[i] == b[i] by {
                    if i > 0 {
                        assert(a[i] == a.drop_first()[i - 1]);
                        assert(b[i] == b.drop_first()[i - 1]);
                    }
                }
                assert(a =~= b);
            }
            if a == b {
                assert(a.drop_first() =~= b.drop_first());
            }
        } else {
            assert(a != b);
        }
    }
}

/// `bytes_lt` is transitive.
pub proof fn lemma_bytes_lt_trans(a: Seq<u8>, b: Seq<u8>, c: Seq<u8>)
    requires
        bytes_lt(a, b),
        bytes_lt(b, c),
    ensures
        bytes_lt(a, c),
    decreases a.len(),
{
    if a.len() > 0 && b.len() > 0 && c.len() > 0 {
        if a[0] == b[0] && b[0] == c[0] {
            lemma_bytes_lt_trans(a.drop_first(), b.drop_first(), c.drop_first());
        }
    }
}

/// Exactly one of `str_below(a, b)`, `a == b`, `str_below(b, a)` holds.
pub proof fn lemma_str_trichotomy(a: Seq<char>, b: Seq<char>)
    ensures
        str_below(a, b) || a == b || str_below(b, a),
        str_below(a, b) ==> a != b && !str_below(b, a),
        a == b ==> !str_below(a, b),
{
    lemma_bytes_trichotomy(encode_utf8(a), encode_utf8(b));
    if encode_utf8(a) == encode_utf8(b) {
        lemma_utf8_injective(a, b);
    }
}

/// `str_below` is transitive.
pub proof fn lemma_str_below_trans(a: Seq<char>, b: Seq<char>, c: Seq<char>)
    requires
        str_below(a, b),
        str_below(b, c),
    ensures
        str_below(a, c),
{
    lemma_bytes_lt_trans(encode_utf8(a), encode_utf8(b), encode_utf8(c));
}

/// Exactly one of `triple_below(a, b)`, `a == b`, `triple_below(b, a)` holds.
pub proof fn lemma_triple_trichotomy(
    a: (Seq<char>, Seq<char>, Seq<char>),
    b: (Seq<char>, Seq<char>, Seq<char>),
)
    ensures
        triple_below(a, b) || a == b || triple_below(b, a),
        triple_below(a, b) ==> a != b && !triple_below(b, a),
        a == b ==> !triple_below(a, b),
{
    lemma_str_trichotomy(a.0, b.0);
    lemma_str_trichotomy(a.1, b.1);
    lemma_str_trichotomy(a.2, b.2);
}

/// `triple_below` is transitive.
pub proof fn lemma_triple_below_trans(
    a: (Seq<char>, Seq<char>, Seq<char>),
    b: (Seq<char>, Seq<char>, Seq<char>),
    c: (Seq<char>, Seq<char>, Seq<char>),
)
    requires
        triple_below(a, b),
        triple_below(b, c),
    ensures
        triple_below(a, c),
{
    lemma_str_trichotomy(a.0, b.0);
    lemma_str_trichotomy(b.0, c.0);
    lemma_str_trichotomy(a.1, b.1);
    lemma_str_trichotomy(b.1, c.1);
    if str_below(a.0, b.0) && str_below(b.0, c.0) {
        lemma_str_below_trans(a.0, b.0, c.0);
    }
    if a.0 == b.0 && a.1 == b.1 && b.0 == c.0 && b.1 == c.1 {
        lemma_str_below_trans(a.2, b.2, c.2);
    } else if a.0 == b.0 && b.0 == c.0 && str_below(a.1, b.1) && str_below(b.1, c.1) {
        lemma_str_below_trans(a.1, b.1, c.1);
    }
}

/// The result of a three-way comparison.
#[derive(Clone, Copy, Debug, PartialEq, Eq, Structural)]
pub enum Rel {
    Below,
    Equal,
    Above,
}

/// Three-way byte-lexicographic comparison of two byte slices.
pub fn cmp_bytes(a: &[u8], b: &[u8]) -> (r: Rel)
    ensures
        (r == Rel::Below) == bytes_lt(a@, b@),
        (r == Rel::Equal) == (a@ == b@),
        (r == Rel::Above) == bytes_lt(b@, a@),
{
    proof {
        lemma_bytes_trichotomy(a@, b@);
        assert(a@.skip(0) =~= a@);
        assert(b@.skip(0) =~= b@);
    }
    let a_len = a.len();
    let b_len = b.len();
    let min: usize = if a_len < b_len {
        a_len
    } else {
        b_len
    };
    let mut i: usize = 0;
    while i < min
        invariant
            i <= min,
            min <= a@.len(),
            min <= b@.len(),
            a_len == a@.len(),
            b_len == b@.len(),
            min == if a_len < b_len {
                a_len
            } else {
                b_len
            },
            bytes_lt(a@, b@) == bytes_lt(a@.skip(i as int), b@.skip(i as int)),
            bytes_lt(b@, a@) == bytes_lt(b@.skip(i as int), a@.skip(i as int)),
            (a@ == b@) == (a@.skip(i as int) == b@.skip(i as int)),
        decreases min - i,
    {
        let x = a[i];
        let y = b[i];
        proof {
            lemma_bytes_trichotomy(a@.skip(i as int), b@.skip(i as int));
        }
        if x < y {
            proof {
                lemma_bytes_trichotomy(a@, b@);
            }
            return Rel::Below;
        }
        if y < x {
            proof {
                lemma_bytes_trichotomy(a@, b@);
            }
            return Rel::Above;
        }
        proof {
            assert(a@.skip(i as int).drop_first() =~= a@.skip(i as int + 1));
            assert(b@.skip(i as int).drop_first() =~= b@.skip(i as int + 1));
            if a@.skip(i as int) == b@.skip(i as int) {
                assert(a@.skip(i as int + 1) =~= b@.skip(i as int + 1));
            }
            if a@.skip(i as int + 1) == b@.skip(i as int + 1) {
                assert(a@.skip(i as int) =~= b@.skip(i as int));
            }
        }
        i = i + 1;
    }
    proof {
        lemma_bytes_trichotomy(a@, b@);
    }
    if a_len == b_len {
        proof {
            assert(a@.skip(i as int) =~= b@.skip(i as int));
        }
        Rel::Equal
    } else if a_len < b_len {
        Rel::Below
    } else {
        Rel::Above
    }
}

/// Three-way comparison of two strings in `str_below` order.
pub fn cmp_str(a: &str, b: &str) -> (r: Rel)
    ensures
        (r == Rel::Below) == str_below(a@, b@),
        (r == Rel::Equal) == (a@ == b@),
        (r == Rel::Above) == str_below(b@, a@),
{
    let r = cmp_bytes(a.as_bytes(), b.as_bytes());
    proof {
        if encode_utf8(a@) == encode_utf8(b@) {
            lemma_utf8_injective(a@, b@);
        }
    }
    r
}

} // verus!
