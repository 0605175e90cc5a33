//! Lexicographic ordering of text lines.
//!
//! Lines are compared by their sequences of Unicode scalar values, which for
//! valid UTF-8 text coincides with the byte-wise ordering the classic tools
//! use. The executable comparison walks the two lines character by character
//! and is proved to decide the spec-level order exactly.

use vstd::prelude::*;
use vstd::string::StrSliceExecFns;

verus! {

/// Outcome of a three-way comparison of two lines.
pub enum LineOrder {
    Less,
    Equal,
    Greater,
}

/// Strict lexicographic order on character sequences: characters are ranked
/// by their Unicode scalar value, and a proper prefix precedes each of its
/// extensions.
pub open spec fn seq_lt(a: Seq<char>, b: Seq<char>) -> bool
    decreases a.len(),
{
    if b.len() == 0 {
        false
    } else if a.len() == 0 {
        true
    } else if (a[0] as u32) < (b[0] as u32) {
        true
    } else if a[0] != b[0] {
        false
    } else {
        seq_lt(a.drop_first(), b.drop_first())
    }
}

/// Non-strict lexicographic order.
pub open spec fn seq_le(a: Seq<char>, b: Seq<char>) -> bool {
    a == b || seq_lt(a, b)
}

/// A line sequence is sorted when every pair of positions is ordered.
pub open spec fn sorted(lines: Seq<Seq<char>>) -> bool {
    forall|i: int, j: int| 0 <= i < j < lines.len() ==> seq_le(lines[i], lines[j])
}

/// Exactly one of `a == b`, `seq_lt(a, b)` and `seq_lt(b, a)` holds.
pub proof fn lemma_trichotomy(a: Seq<char>, b: Seq<char>)
    ensures
        a == b || seq_lt(a, b) || seq_lt(b, a),
        a == b ==> !seq_lt(a, b) && !seq_lt(b, a),
        seq_lt(a, b) ==> a != b && !seq_lt(b, a),
    decreases a.len(),
{
    if a.len() == 0 && b.len() == 0 {
        assert(a =~= b);
    } else if a.len() > 0 && b.len() > 0 {
        if a[0] == b[0] {
            lemma_trichotomy(a.drop_first(), b.drop_first());
            if a.drop_first() == b.drop_first() {
                assert forall|k: int| 0 <= k < a.len() implies a[k] == b[k] by {
                    if k > 0 {
                        assert(a[k] == a.drop_first()[k - 1]);
                        assert(b[k] == b.drop_first()[k - 1]);
                    }
                }
                assert(a =~= b);
            }
            if a == b {
                assert(a.drop_first() =~= b.drop_first());
            }
        } else {
            if a[0] as u32 == b[0] as u32 {
                vstd::utf8::char_u32_cast(a[0], a[0] as u32);
                vstd::utf8::char_u32_cast(b[0], b[0] as u32);
            }
            assert(a != b) by {
                assert(a[0] != b[0]);
            }
        }
    }
}

/// Strict lexicographic order is transitive.
pub proof fn lemma_lt_trans(a: Seq<char>, b: Seq<char>, c: Seq<char>)
    requires
        seq_lt(a, b),
        seq_lt(b, c),
    ensures
        seq_lt(a, c),
    decreases a.len(),
{
    if a.len() > 0 && b.len() > 0 && c.len() > 0 {
        if a[0] == b[0] && b[0] == c[0] {
            lemma_lt_trans(a.drop_first(), b.drop_first(), c.drop_first());
        }
    }
}

/// Non-strict lexicographic order is transitive.
pub proof fn lemma_le_trans(a: Seq<char>, b: Seq<char>, c: Seq<char>)
    requires
        seq_le(a, b),
        seq_le(b, c),
    ensures
        seq_le(a, c),
{
    if a == b || b == c {
    } else {
        lemma_lt_trans(a, b, c);
    }
}

/// If two sequences agree up to position `i` and either `a` ends there or
/// `a` has the smaller character at `i`, then `a` comes first.
proof fn lemma_lt_from_prefix(a: Seq<char>, b: Seq<char>, i: int)
    requires
        0 <= i <= a.len(),
        i < b.len(),
        forall|k: int| 0 <= k < i ==> a[k] == b[k],
        i == a.len() || (a[i] as u32) < (b[i] as u32),
    ensures
        seq_lt(a, b),
    decreases i,
{
    if i == 0 {
    } else {
        lemma_lt_from_prefix(a.drop_first(), b.drop_first(), i - 1);
    }
}

/// Three-way comparison of two lines, deciding the lexicographic order of
/// their character sequences.
pub fn compare_lines(a: &str, b: &str) -> (r: LineOrder)
    ensures
        r is Equal <==> a@ == b@,
        r is Less <==> seq_lt(a@, b@),
        r is Greater <==> seq_lt(b@, a@),
{
    let alen = a.unicode_len();
    let blen = b.unicode_len();
    let mut i: usize = 0;
    while i < alen && i < blen
        invariant
            i <= alen,
            i <= blen,
            alen == a@.len(),
            blen == b@.len(),
            forall|k: int| 0 <= k < i ==> a@[k] == b@[k],
        decreases alen - i,
    {
        let ca = a.get_char(i);
        let cb = b.get_char(i);
        if (ca as u32) < (cb as u32) {
            proof {
                lemma_lt_from_prefix(a@, b@, i as int);
                lemma_trichotomy(a@, b@);
            }
            return LineOrder::Less;
        }
        if (cb as u32) < (ca as u32) {
            proof {
                lemma_lt_from_prefix(b@, a@, i as int);
                lemma_trichotomy(b@, a@);
                lemma_trichotomy(a@, b@);
            }
            return LineOrder::Greater;
        }
        proof {
            vstd::utf8::char_u32_cast(ca, ca as u32);
            vstd::utf8::char_u32_cast(cb, cb as u32);
        }
        i = i + 1;
    }
    if alen == blen {
        proof {
            assert(a@ =~= b@);
            lemma_trichotomy(a@, b@);
        }
        LineOrder::Equal
    } else if alen < blen {
        proof {
            lemma_lt_from_prefix(a@, b@, alen as int);
            lemma_trichotomy(a@, b@);
        }
        LineOrder::Less
    } else {
        proof {
            lemma_lt_from_prefix(b@, a@, blen as int);
            lemma_trichotomy(b@, a@);
            lemma_trichotomy(a@, b@);
        }
        LineOrder::Greater
    }
}

} // verus!
