//! The restricted-grammar fixed-point parser: a decimal literal with an
//! optional leading minus, one or more integer digits, a single period and
//! exactly one fractional digit is read into its value times ten. The parser
//! accumulates digits positionally, treats the period as a no-op, and negates
//! at the end if a minus was seen; malformed input is excluded by
//! precondition, not detected.

use vstd::prelude::*;

use crate::model::{
    all_digits, digits_value, is_digit, is_unsigned_lit, is_value_lit,
    lemma_digits_value_nonneg, lemma_digits_value_prefix_le, lit_value, unsigned_lit_value, MINUS,
    PERIOD,
};

verus! {

/// Parse a value literal into its fixed-point (tenths) value.
#[verifier::loop_isolation(false)]
pub fn parse_ascii_to_int(buffer: &[u8]) -> (r: i32)
    requires
        is_value_lit(buffer@),
        -(i32::MAX as int) <= lit_value(buffer@) <= i32::MAX as int,
    ensures
        r as int == lit_value(buffer@),
{
    let ghost s = buffer@;
    let ghost len = s.len() as int;
    let ghost off: int = if s[0] == MINUS {
        1int
    } else {
        0int
    };
    let ghost u = s.subrange(off, len);
    let ghost uval = unsigned_lit_value(u);
    let ghost dall = s.subrange(off, len - 2).push(s[len - 1]);

    proof {
        if off == 0 {
            assert(u =~= s);
        }
        assert(is_unsigned_lit(u));
        assert(u.len() == len - off);
        assert(len >= off + 3);
        // Byte classes at each position.
        assert(u.subrange(0, u.len() - 2) =~= s.subrange(off, len - 2));
        assert forall|k: int| off <= k < len - 2 implies is_digit(#[trigger] s[k]) by {
            assert(s.subrange(off, len - 2)[k - off] == s[k]);
        }
        assert(s[len - 2] == u[u.len() - 2]);
        assert(is_digit(s[len - 1]));
        if off == 0 {
            assert(is_digit(s[0]));
        }
        // The full digit string and its value.
        assert(all_digits(dall));
        assert(dall.drop_last() =~= s.subrange(off, len - 2));
        assert(uval == digits_value(dall));
        lemma_digits_value_nonneg(dall);
        assert(uval <= i32::MAX as int);
    }

    let mut acc: i32 = 0;
    let mut is_neg = false;
    let mut j: usize = 0;
    while j < buffer.len()
        invariant
            0 <= j <= len,
            is_neg <==> (off == 1 && j >= 1),
            acc as int == (if j <= off {
                0int
            } else if j <= len - 2 {
                digits_value(s.subrange(off, j as int))
            } else if j == len - 1 {
                digits_value(s.subrange(off, len - 2))
            } else {
                uval
            }),
            0 <= acc as int <= uval,
        decreases len - j,
    {
        let val = buffer[j];
        if val == PERIOD {
            proof {
                assert(j == len - 2);
            }
        } else if val == MINUS {
            proof {
                assert(j == 0 && off == 1);
            }
            is_neg = true;
        } else {
            proof {
                assert(off <= j < len && j != len - 2 && is_digit(s[j as int]));
                if j < len - 2 {
                    let p = s.subrange(off, j as int);
                    let pn = s.subrange(off, j + 1);
                    if j == off {
                        assert(p.len() == 0);
                        assert(digits_value(p) == 0);
                    }
                    assert(acc as int == digits_value(p));
                    assert(pn.drop_last() =~= p);
                    assert(pn.last() == s[j as int]);
                    assert(digits_value(pn) == acc * 10 + (s[j as int] - 48));
                    assert(pn =~= dall.take(j + 1 - off));
                    lemma_digits_value_prefix_le(dall, j + 1 - off);
                } else {
                    assert(j == len - 1);
                    assert(acc * 10 + (s[j as int] - 48) == uval);
                }
            }
            acc = acc * 10 + (val as i32 - 48);
        }
        j += 1;
    }
    if is_neg {
        -acc
    } else {
        acc
    }
}

} // verus!
