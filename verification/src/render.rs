//! The output formatter: renders the ordered table into the canonical
//! report. Every numeric field is printed in fixed point with exactly one
//! fractional digit; the displayed average is the bucket's sum over its
//! count, rounded to nearest with ties away from zero. Station names must be
//! valid UTF-8 at render time; earlier phases stay encoding-agnostic.

use vstd::prelude::*;
use vstd::string::StringExecFns;
use vstd::string::StringSliceAdditionalSpecFns;
use vstd::utf8::{decode_utf8, valid_utf8};

use crate::measurement::{Measurement, StatsModel};
use crate::model::{
    all_digits, digits_value, is_value_lit, lemma_digits_value_nonneg,
    lemma_digits_value_prefix_le, lit_value, unsigned_lit_value, MINUS, PERIOD,
};
use crate::order::entry_views;

verus! {

/// Why rendering can fail.
#[derive(Clone, Copy, Debug, PartialEq, Eq, Structural)]
pub enum BrcError {
    /// A station key's bytes are not valid displayable text.
    Encoding,
}

pub open spec fn digit_char(d: int) -> char {
    if d == 0 {
        '0'
    } else if d == 1 {
        '1'
    } else if d == 2 {
        '2'
    } else if d == 3 {
        '3'
    } else if d == 4 {
        '4'
    } else if d == 5 {
        '5'
    } else if d == 6 {
        '6'
    } else if d == 7 {
        '7'
    } else if d == 8 {
        '8'
    } else {
        '9'
    }
}

/// Decimal digit string of a non-negative integer, most significant first.
pub open spec fn dec_chars(n: int) -> Seq<char>
    recommends
        n >= 0,
    decreases n,
{
    if n < 10 {
        seq![digit_char(n)]
    } else {
        dec_chars(n / 10).push(digit_char(n % 10))
    }
}

/// Rendering of a fixed-point (tenths) value with one fractional digit.
pub open spec fn whole_tenths_chars(n: int) -> Seq<char>
    recommends
        n >= 0,
{
    dec_chars(n / 10) + seq!['.'] + seq![digit_char(n % 10)]
}

pub open spec fn tenths_chars(t: int) -> Seq<char> {
    if t < 0 {
        seq!['-'] + whole_tenths_chars(-t)
    } else {
        whole_tenths_chars(t)
    }
}

/// The displayed average in tenths: sum over count rounded to the nearest
/// tenth, ties away from zero.
pub open spec fn avg_tenths(sum: int, count: int) -> int
    recommends
        count >= 1,
{
    if sum >= 0 {
        (2 * sum + count) / (2 * count)
    } else {
        -((2 * -sum + count) / (2 * count))
    }
}

/// Rendering of one report entry: `<station>=<min>/<avg>/<max>`.
pub open spec fn entry_chars(k: Seq<u8>, t: StatsModel) -> Seq<char> {
    decode_utf8(k) + seq!['='] + tenths_chars(t.0) + seq!['/'] + tenths_chars(
        avg_tenths(t.2, t.3),
    ) + seq!['/'] + tenths_chars(t.1)
}

/// Rendering of the entry list, separated by `", "`.
pub open spec fn entries_chars(vs: Seq<(Seq<u8>, StatsModel)>) -> Seq<char>
    decreases vs.len(),
{
    if vs.len() == 0 {
        Seq::empty()
    } else if vs.len() == 1 {
        entry_chars(vs[0].0, vs[0].1)
    } else {
        entries_chars(vs.drop_last()) + seq![',', ' '] + entry_chars(vs.last().0, vs.last().1)
    }
}

/// The whole report: entries wrapped in braces, newline-terminated.
pub open spec fn report_chars(vs: Seq<(Seq<u8>, StatsModel)>) -> Seq<char> {
    seq!['{'] + entries_chars(vs) + seq!['}', '\n']
}

/// Every station key decodes as UTF-8.
pub open spec fn keys_utf8(vs: Seq<(Seq<u8>, StatsModel)>) -> bool {
    forall|i: int| 0 <= i < vs.len() ==> valid_utf8((#[trigger] vs[i]).0)
}

/// The character a value-literal byte stands for.
pub open spec fn lit_char(b: u8) -> char {
    if b == MINUS {
        '-'
    } else if b == PERIOD {
        '.'
    } else {
        digit_char(b - 48)
    }
}

/// The text a value literal's bytes spell.
pub open spec fn lit_chars(s: Seq<u8>) -> Seq<char> {
    s.map_values(|b: u8| lit_char(b))
}

/// A canonical value literal: in the grammar, no leading zero before a
/// multi-digit integer part, and no minus sign on zero.
pub open spec fn is_canonical_lit(s: Seq<u8>) -> bool {
    &&& is_value_lit(s)
    &&& {
        let u = if s[0] == MINUS {
            s.subrange(1, s.len() as int)
        } else {
            s
        };
        u.len() == 3 || u[0] != 48
    }
    &&& s[0] == MINUS ==> lit_value(s) != 0
}

/// Rendering a canonical digit string's value reproduces its text.
proof fn lemma_dec_chars_digits(d: Seq<u8>)
    requires
        all_digits(d),
        d.len() >= 1,
        d.len() == 1 || d[0] != 48,
    ensures
        dec_chars(digits_value(d)) == lit_chars(d),
    decreases d.len(),
{
    lemma_digits_value_nonneg(d);
    if d.len() == 1 {
        assert(d.drop_last().len() == 0);
        assert(digits_value(d.drop_last()) == 0);
        assert(digits_value(d) == d[0] - 48);
        assert(lit_chars(d) =~= seq![lit_char(d[0])]);
    } else {
        let dp = d.drop_last();
        let l = d.last();
        assert(all_digits(dp));
        lemma_digits_value_nonneg(dp);
        assert(dp.take(1) =~= seq![d[0]]);
        assert(dp.take(1).drop_last().len() == 0);
        assert(digits_value(dp.take(1).drop_last()) == 0);
        assert(digits_value(dp.take(1)) == d[0] - 48);
        lemma_digits_value_prefix_le(dp, 1);
        assert(digits_value(dp) >= 1);
        let n = digits_value(d);
        assert(n == digits_value(dp) * 10 + (l - 48));
        assert(n / 10 == digits_value(dp) && n % 10 == l - 48) by (nonlinear_arith)
            requires
                n == digits_value(dp) * 10 + (l - 48),
                digits_value(dp) >= 0,
                0 <= l - 48 <= 9,
        ;
        assert(n >= 10) by (nonlinear_arith)
            requires
                n == digits_value(dp) * 10 + (l - 48),
                digits_value(dp) >= 1,
                l - 48 >= 0,
        ;
        lemma_dec_chars_digits(dp);
        assert(lit_chars(d) =~= lit_chars(dp).push(lit_char(l)));
        assert(dec_chars(n) == dec_chars(digits_value(dp)).push(digit_char((l - 48) as int)));
    }
}

/// Law: for every canonical decimal literal in the supported grammar,
/// parsing to the fixed-point value and rendering with one fractional digit
/// reproduces the original text.
pub proof fn lemma_parse_render_round_trip(s: Seq<u8>)
    requires
        is_canonical_lit(s),
    ensures
        tenths_chars(lit_value(s)) == lit_chars(s),
{
    let len = s.len() as int;
    let neg = s[0] == MINUS;
    let u = if neg {
        s.subrange(1, len)
    } else {
        s
    };
    let ul = u.len() as int;
    let d = u.subrange(0, ul - 2);
    let l = u[ul - 1];
    assert(all_digits(d));
    lemma_digits_value_nonneg(d);
    let n = unsigned_lit_value(u);
    assert(n == digits_value(d) * 10 + (l - 48));
    assert(n / 10 == digits_value(d) && n % 10 == l - 48 && n >= 0) by (nonlinear_arith)
        requires
            n == digits_value(d) * 10 + (l - 48),
            digits_value(d) >= 0,
            0 <= l - 48 <= 9,
    ;
    assert(d.len() == 1 || d[0] != 48);
    lemma_dec_chars_digits(d);
    assert(u =~= d + seq![u[ul - 2]] + seq![l]);
    assert(u[ul - 2] == PERIOD);
    assert(lit_chars(u) =~= lit_chars(d) + seq!['.'] + seq![digit_char((l - 48) as int)]);
    assert(whole_tenths_chars(n) == lit_chars(u));
    if neg {
        assert(lit_value(s) == -n);
        assert(n != 0);
        assert(tenths_chars(-n) == seq!['-'] + whole_tenths_chars(n));
        assert(lit_chars(s) =~= seq![lit_char(s[0])] + lit_chars(u));
        assert(tenths_chars(lit_value(s)) =~= lit_chars(s));
    } else {
        assert(lit_value(s) == n);
        assert(lit_chars(s) == lit_chars(u));
        assert(tenths_chars(lit_value(s)) =~= lit_chars(s));
    }
}

/// Relies on core::str::from_utf8: succeeds exactly on valid UTF-8 input and
/// returns the string viewing those bytes.
#[verifier::external_body]
fn bytes_to_str(bytes: &[u8]) -> (r: Option<&str>)
    ensures
        (r is Some) <==> valid_utf8(bytes@),
        r matches Some(s) ==> s.spec_bytes() == bytes@ && s@ == decode_utf8(bytes@),
{
    core::str::from_utf8(bytes).ok()
}

/// One-character string for a decimal digit.
fn digit_str(d: u8) -> (r: &'static str)
    requires
        d < 10,
    ensures
        r@ =~= seq![digit_char(d as int)],
{
    if d == 0 {
        proof {
            reveal_strlit("0");
        }
        "0"
    } else if d == 1 {
        proof {
            reveal_strlit("1");
        }
        "1"
    } else if d == 2 {
        proof {
            reveal_strlit("2");
        }
        "2"
    } else if d == 3 {
        proof {
            reveal_strlit("3");
        }
        "3"
    } else if d == 4 {
        proof {
            reveal_strlit("4");
        }
        "4"
    } else if d == 5 {
        proof {
            reveal_strlit("5");
        }
        "5"
    } else if d == 6 {
        proof {
            reveal_strlit("6");
        }
        "6"
    } else if d == 7 {
        proof {
            reveal_strlit("7");
        }
        "7"
    } else if d == 8 {
        proof {
            reveal_strlit("8");
        }
        "8"
    } else {
        proof {
            reveal_strlit("9");
        }
        "9"
    }
}

/// Append the decimal digits of `n`.
fn push_decimal(out: &mut String, n: u64)
    ensures
        final(out)@ == old(out)@ + dec_chars(n as int),
    decreases n,
{
    if n < 10 {
        out.append(digit_str(n as u8));
        proof {
            assert(old(out)@ + dec_chars(n as int) =~= old(out)@ + seq![digit_char(n as int)]);
        }
    } else {
        proof {
            assert(n / 10 < n) by (nonlinear_arith)
                requires
                    n >= 10,
            ;
        }
        push_decimal(out, n / 10);
        out.append(digit_str((n % 10) as u8));
        proof {
            assert(old(out)@ + dec_chars((n / 10) as int) + seq![digit_char((n % 10) as int)]
                =~= old(out)@ + dec_chars(n as int));
        }
    }
}

/// Append a fixed-point (tenths) value with one fractional digit.
fn push_tenths(out: &mut String, t: i64)
    requires
        t > i64::MIN,
    ensures
        final(out)@ == old(out)@ + tenths_chars(t as int),
{
    let ghost before = out@;
    let n: u64 = if t < 0 {
        proof {
            reveal_strlit("-");
        }
        out.append("-");
        (-t) as u64
    } else {
        t as u64
    };
    let ghost mid = out@;
    proof {
        if t < 0 {
            assert(mid =~= before + seq!['-']);
        }
        assert(n as int == (if t < 0 {
            -(t as int)
        } else {
            t as int
        }));
    }
    push_decimal(out, n / 10);
    proof {
        reveal_strlit(".");
    }
    out.append(".");
    out.append(digit_str((n % 10) as u8));
    proof {
        assert(out@ =~= mid + whole_tenths_chars(n as int));
        if t < 0 {
            assert(out@ =~= before + tenths_chars(t as int));
        }
    }
}

/// The displayed average in tenths, computed exactly.
pub fn compute_avg_tenths(sum: i64, count: i64) -> (r: i64)
    requires
        count >= 1,
    ensures
        r as int == avg_tenths(sum as int, count as int),
        -crate::model::abs_val(sum as int) <= r as int <= crate::model::abs_val(sum as int),
{
    let s2: i128 = 2 * (sum as i128);
    let c: i128 = count as i128;
    let q: i128 = if sum >= 0 {
        (s2 + c) / (2 * c)
    } else {
        -((-s2 + c) / (2 * c))
    };
    proof {
        let a: int = if sum >= 0 {
            sum as int
        } else {
            -(sum as int)
        };
        assert(0 <= (2 * a + count) / (2 * count) <= a) by (nonlinear_arith)
            requires
                a >= 0,
                count >= 1,
        ;
    }
    q as i64
}

/// Render the ordered entries into the canonical report text. Fails exactly
/// when some station key is not valid UTF-8.
#[verifier::loop_isolation(false)]
#[verifier::rlimit(60)]
pub fn format_report(entries: &Vec<(Vec<u8>, Measurement)>) -> (r: Result<String, BrcError>)
    requires
        entries@.len() >= 1,
        forall|i: int|
            0 <= i < entries@.len() ==> (#[trigger] entries@[i]).1@.3 >= 1 && entries@[i].1@.0
                > i64::MIN && entries@[i].1@.1 > i64::MIN && entries@[i].1@.2 > i64::MIN,
    ensures
        (r is Ok) <==> keys_utf8(entry_views(entries@)),
        r matches Ok(s) ==> s@ == report_chars(entry_views(entries@)),
{
    let ghost vs = entry_views(entries@);
    let mut out = String::new();
    proof {
        reveal_strlit("{");
    }
    out.append("{");
    let mut i: usize = 0;
    while i < entries.len()
        invariant
            0 <= i <= entries@.len(),
            out@ == seq!['{'] + entries_chars(vs.take(i as int)),
            keys_utf8(vs.take(i as int)),
        decreases entries@.len() - i,
    {
        let ghost out0 = out@;
        if i > 0 {
            proof {
                reveal_strlit(", ");
            }
            out.append(", ");
        }
        let name = match bytes_to_str(entries[i].0.as_slice()) {
            Some(name) => name,
            None => {
                proof {
                    assert(!valid_utf8(vs[i as int].0));
                    assert(!keys_utf8(vs));
                }
                return Err(BrcError::Encoding);
            },
        };
        out.append(name);
        proof {
            reveal_strlit("=");
            reveal_strlit("/");
        }
        out.append("=");
        push_tenths(&mut out, entries[i].1.minimum);
        out.append("/");
        let avg = compute_avg_tenths(entries[i].1.sum, entries[i].1.count);
        push_tenths(&mut out, avg);
        out.append("/");
        push_tenths(&mut out, entries[i].1.maximum);
        proof {
            let t = vs[i as int].1;
            assert(out@ =~= out0 + (if i > 0 {
                seq![',', ' ']
            } else {
                Seq::<char>::empty()
            }) + entry_chars(vs[i as int].0, t));
            assert(vs.take(i + 1).drop_last() =~= vs.take(i as int));
            assert(vs.take(i + 1).last() == vs[i as int]);
            if i == 0 {
                assert(entries_chars(vs.take(1)) == entry_chars(vs.take(1)[0].0, vs.take(1)[0].1));
                assert(vs.take(1)[0] == vs[0]);
            }
            assert(out@ =~= seq!['{'] + entries_chars(vs.take(i + 1)));
            assert forall|k: int| 0 <= k < i + 1 implies valid_utf8(
                (#[trigger] vs.take(i + 1)[k]).0,
            ) by {
                assert(vs.take(i + 1)[k] == vs[k]);
                if k < i {
                    assert(vs.take(i as int)[k] == vs[k]);
                }
            }
        }
        i = i + 1;
    }
    proof {
        reveal_strlit("}");
        reveal_strlit("\n");
    }
    out.append("}");
    out.append("\n");
    proof {
        assert(vs.take(vs.len() as int) =~= vs);
        assert(out@ =~= report_chars(vs));
        assert(keys_utf8(vs));
    }
    Ok(out)
}

} // verus!
