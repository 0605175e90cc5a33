//! Parsing the positive-integer command-line arguments the tools take for
//! their line and byte counts.

use crate::digits::{
    all_digits, char_digit, dec_value, is_digit_char, lemma_dec_value_prefix,
    lemma_dec_value_step,
};
use vstd::prelude::*;
use vstd::string::{StrSliceExecFns, StringExecFns};

verus! {

/// The digits of a decimal argument: an optional leading plus sign is not
/// part of the number.
pub open spec fn strip_plus(s: Seq<char>) -> Seq<char> {
    if s.len() > 0 && s[0] == '+' {
        s.drop_first()
    } else {
        s
    }
}

/// Parse a positive decimal count. The text, after an optional leading plus
/// sign, must be one or more decimal digits whose value is positive and fits
/// the machine word; any other text comes back unchanged as the error.
pub fn parse_positive_int(val: &str) -> (r: Result<usize, String>)
    ensures
        r is Ok ==> all_digits(strip_plus(val@)) && dec_value(strip_plus(val@)) == r->Ok_0
            && r->Ok_0 > 0,
        r is Err ==> r->Err_0@ == val@ && (!all_digits(strip_plus(val@)) || dec_value(
            strip_plus(val@),
        ) == 0 || dec_value(strip_plus(val@)) > usize::MAX),
{
    let n = val.unicode_len();
    let mut start: usize = 0;
    if n > 0 && val.get_char(0) == '+' {
        start = 1;
    }
    let ghost ds = strip_plus(val@);
    proof {
        assert(ds =~= val@.skip(start as int));
    }
    if start == n {
        return Err(String::from_str(val));
    }
    let mut acc: usize = 0;
    let mut i: usize = start;
    while i < n
        invariant
            start <= i <= n,
            n == val@.len(),
            ds == strip_plus(val@),
            ds == val@.skip(start as int),
            ds.len() == n - start,
            forall|k: int| 0 <= k < i - start ==> is_digit_char(ds[k]),
            acc == dec_value(ds.take(i - start)),
        decreases n - i,
    {
        let c = val.get_char(i);
        let cu = c as u32;
        proof {
            assert(ds[i - start] == val@[i as int]);
        }
        if cu < 48 || cu > 57 {
            proof {
                assert(!is_digit_char(ds[i - start]));
                assert(!all_digits(ds));
            }
            return Err(String::from_str(val));
        }
        let d = (cu - 48) as usize;
        proof {
            lemma_dec_value_step(ds, i - start);
        }
        if acc > usize::MAX / 10 || (acc == usize::MAX / 10 && d > usize::MAX % 10) {
            proof {
                let q = usize::MAX / 10;
                let m = usize::MAX % 10;
                assert(usize::MAX == q * 10 + m) by {
                    vstd::arithmetic::div_mod::lemma_fundamental_div_mod(usize::MAX as int, 10);
                }
                assert(acc * 10 + d > usize::MAX) by (nonlinear_arith)
                    requires
                        acc > q || (acc == q && d > m),
                        usize::MAX == q * 10 + m,
                        m < 10,
                        d >= 0,
                ;
                if all_digits(ds) {
                    assert(char_digit(ds[i - start]) == d);
                    assert(dec_value(ds.take(i - start + 1)) == acc * 10 + d);
                    lemma_dec_value_prefix(ds, i - start + 1);
                    assert(dec_value(ds) > usize::MAX);
                }
            }
            return Err(String::from_str(val));
        }
        acc = acc * 10 + d;
        proof {
            assert(acc == dec_value(ds.take(i - start + 1)));
        }
        i = i + 1;
    }
    proof {
        assert(ds.take(n - start) =~= ds);
        assert(all_digits(ds));
    }
    if acc == 0 {
        Err(String::from_str(val))
    } else {
        Ok(acc)
    }
}

} // verus!
