//! Small text helpers for progress reporting: spinner frames, durations,
//! and human-readable counts and sizes, rendered as ASCII bytes.

use vstd::prelude::*;

use crate::num::dec_digits;
use crate::num::push_u64;

verus! {

/// The spinner glyph for a frame counter.
pub fn spinner(frame: usize) -> (r: &'static str)
    ensures
        frame % 4 == 0 ==> r == "/",
        frame % 4 == 1 ==> r == "-",
        frame % 4 == 2 ==> r == "\\",
        frame % 4 == 3 ==> r == "|",
{
    let i = frame % 4;
    if i == 0 {
        "/"
    } else if i == 1 {
        "-"
    } else if i == 2 {
        "\\"
    } else {
        "|"
    }
}

/// `whole.frac` with one decimal place, as bytes.
pub open spec fn one_decimal(whole: nat, frac: nat) -> Seq<u8> {
    dec_digits(whole) + seq![46u8] + dec_digits(frac)
}

/// The rendering of a duration: seconds with one decimal under a minute,
/// then minutes and seconds, then hours, minutes and seconds.
pub open spec fn duration_spec(ms: u64) -> Seq<u8> {
    let secs = ms / 1000;
    if secs < 60 {
        one_decimal(secs as nat, ((ms % 1000) / 100) as nat) + seq![115u8]
    } else if secs < 3600 {
        dec_digits((secs / 60) as nat) + seq![109u8, 32u8] + two_digit((secs % 60) as nat) + seq![
            115u8,
        ]
    } else {
        dec_digits((secs / 3600) as nat) + seq![104u8, 32u8] + two_digit(
            (((secs % 3600) / 60)) as nat,
        ) + seq![109u8, 32u8] + two_digit((secs % 60) as nat) + seq![115u8]
    }
}

/// A value below one hundred, padded to two places.
pub open spec fn two_digit(v: nat) -> Seq<u8> {
    if v < 10 {
        seq![48u8] + dec_digits(v)
    } else {
        dec_digits(v)
    }
}

/// Append a value below one hundred, padded to two places.
fn push_two_digit(out: &mut Vec<u8>, v: u64)
    requires
        v < 100,
    ensures
        final(out)@ == old(out)@ + two_digit(v as nat),
{
    if v < 10 {
        out.push(48);
    }
    push_u64(out, v);
}

/// Render a duration in milliseconds: `1.5s`, `1m 30s` or `1h 01m 01s`.
pub fn format_duration(ms: u64) -> (r: Vec<u8>)
    ensures
        r@ == duration_spec(ms),
{
    let mut out: Vec<u8> = Vec::new();
    let secs = ms / 1000;
    if secs < 60 {
        push_u64(&mut out, secs);
        out.push(46);
        push_u64(&mut out, (ms % 1000) / 100);
        out.push(115);
        proof {
            assert(out@ =~= duration_spec(ms));
        }
    } else if secs < 3600 {
        push_u64(&mut out, secs / 60);
        out.push(109);
        out.push(32);
        push_two_digit(&mut out, secs % 60);
        out.push(115);
        proof {
            assert(out@ =~= duration_spec(ms));
        }
    } else {
        push_u64(&mut out, secs / 3600);
        out.push(104);
        out.push(32);
        push_two_digit(&mut out, (secs % 3600) / 60);
        out.push(109);
        out.push(32);
        push_two_digit(&mut out, secs % 60);
        out.push(115);
        proof {
            assert(out@ =~= duration_spec(ms));
        }
    }
    out
}

/// The scale a count is shown at: how often it divides by a thousand before
/// falling under a thousand, capped at four.
pub open spec fn count_unit(n: u64) -> int {
    if n < 1000 {
        0
    } else if n < 1000000 {
        1
    } else if n < 1000000000 {
        2
    } else if n < 1000000000000 {
        3
    } else {
        4
    }
}

pub open spec fn count_divisor(u: int) -> int {
    if u == 0 {
        1
    } else if u == 1 {
        1000
    } else if u == 2 {
        1000000
    } else if u == 3 {
        1000000000
    } else {
        1000000000000
    }
}

pub open spec fn count_suffix(u: int) -> Seq<u8> {
    if u == 1 {
        seq![75u8]
    } else if u == 2 {
        seq![77u8]
    } else if u == 3 {
        seq![66u8]
    } else {
        seq![84u8]
    }
}

/// A scaled value in tenths, rounded half up.
pub open spec fn scaled_tenths(n: u64, d: int) -> int {
    (n * 10 + d / 2) / d
}

/// The rendering of a count: plain below a thousand, otherwise one decimal
/// place and a scale letter.
pub open spec fn human_count_spec(n: u64) -> Seq<u8> {
    let u = count_unit(n);
    if u == 0 {
        dec_digits(n as nat)
    } else {
        let t = scaled_tenths(n, count_divisor(u));
        one_decimal((t / 10) as nat, (t % 10) as nat) + count_suffix(u)
    }
}

/// Render a count for people: `999`, `1.5K`, `2.5M`, `1.0B`, `1.0T`.
pub fn human_count(n: u64) -> (r: Vec<u8>)
    ensures
        r@ == human_count_spec(n),
{
    let mut out: Vec<u8> = Vec::new();
    if n < 1000 {
        push_u64(&mut out, n);
        return out;
    }
    let d: u64 = if n < 1000000 {
        1000
    } else if n < 1000000000 {
        1000000
    } else if n < 1000000000000 {
        1000000000
    } else {
        1000000000000
    };
    let wide: u128 = (n as u128) * 10 + ((d / 2) as u128);
    let t: u64 = (wide / (d as u128)) as u64;
    proof {
        assert(t == scaled_tenths(n, d as int)) by {
            assert(wide as int == n * 10 + (d as int) / 2);
        };
        assert(t * (d as int) <= wide as int) by {
            assert((wide as int) / (d as int) * (d as int) <= wide as int) by (nonlinear_arith)
                requires
                    d > 0 && wide >= 0,
            ;
        };
    }
    push_u64(&mut out, t / 10);
    out.push(46);
    push_u64(&mut out, t % 10);
    if n < 1000000 {
        out.push(75);
    } else if n < 1000000000 {
        out.push(77);
    } else if n < 1000000000000 {
        out.push(66);
    } else {
        out.push(84);
    }
    proof {
        assert(out@ =~= human_count_spec(n));
    }
    out
}

/// The scale a byte size is shown at: powers of 1024, capped at four.
pub open spec fn bytes_unit(n: u64) -> int {
    if n < 1024 {
        0
    } else if n < 0x100000 {
        1
    } else if n < 0x40000000 {
        2
    } else if n < 0x10000000000 {
        3
    } else {
        4
    }
}

pub open spec fn bytes_divisor(u: int) -> int {
    if u == 0 {
        1
    } else if u == 1 {
        1024
    } else if u == 2 {
        0x100000
    } else if u == 3 {
        0x40000000
    } else {
        0x10000000000
    }
}

pub open spec fn bytes_suffix(u: int) -> Seq<u8> {
    if u == 0 {
        seq![66u8]
    } else if u == 1 {
        seq![75u8, 66u8]
    } else if u == 2 {
        seq![77u8, 66u8]
    } else if u == 3 {
        seq![71u8, 66u8]
    } else {
        seq![84u8, 66u8]
    }
}

/// The rendering of a byte size: plain below a kilobyte, otherwise one
/// decimal place and a scale suffix.
pub open spec fn human_bytes_spec(n: u64) -> Seq<u8> {
    let u = bytes_unit(n);
    if u == 0 {
        dec_digits(n as nat) + bytes_suffix(0)
    } else {
        let t = scaled_tenths(n, bytes_divisor(u));
        one_decimal((t / 10) as nat, (t % 10) as nat) + bytes_suffix(u)
    }
}

/// Render a byte size for people: `1023B`, `1.0KB`, `1.5MB`, `1.0GB`.
pub fn human_bytes(n: u64) -> (r: Vec<u8>)
    ensures
        r@ == human_bytes_spec(n),
{
    let mut out: Vec<u8> = Vec::new();
    if n < 1024 {
        push_u64(&mut out, n);
        out.push(66);
        proof {
            assert(out@ =~= human_bytes_spec(n));
        }
        return out;
    }
    let d: u64 = if n < 0x100000 {
        1024
    } else if n < 0x40000000 {
        0x100000
    } else if n < 0x10000000000 {
        0x40000000
    } else {
        0x10000000000
    };
    let wide: u128 = (n as u128) * 10 + ((d / 2) as u128);
    let t: u64 = (wide / (d as u128)) as u64;
    proof {
        assert(t == scaled_tenths(n, d as int)) by {
            assert(wide as int == n * 10 + (d as int) / 2);
        };
        assert(t * (d as int) <= wide as int) by {
            assert((wide as int) / (d as int) * (d as int) <= wide as int) by (nonlinear_arith)
                requires
                    d > 0 && wide >= 0,
            ;
        };
    }
    push_u64(&mut out, t / 10);
    out.push(46);
    push_u64(&mut out, t % 10);
    if n < 0x100000 {
        out.push(75);
        out.push(66);
    } else if n < 0x40000000 {
        out.push(77);
        out.push(66);
    } else if n < 0x10000000000 {
        out.push(71);
        out.push(66);
    } else {
        out.push(84);
        out.push(66);
    }
    proof {
        assert(out@ =~= human_bytes_spec(n));
    }
    out
}

/// The digit and dot bytes of the hint, in order.
pub open spec fn hint_num(s: Seq<u8>) -> Seq<u8>
    decreases s.len(),
{
    if s.len() == 0 {
        Seq::empty()
    } else {
        let rest = hint_num(s.drop_last());
        if crate::num::is_digit(s.last()) || s.last() == 46 {
            rest + seq![s.last()]
        } else {
            rest
        }
    }
}

/// The unit bytes of the hint: everything but digits, dots and whitespace,
/// case folded.
pub open spec fn hint_unit(s: Seq<u8>) -> Seq<u8>
    decreases s.len(),
{
    if s.len() == 0 {
        Seq::empty()
    } else {
        let rest = hint_unit(s.drop_last());
        let b = s.last();
        if crate::num::is_digit(b) || b == 46 || crate::num::is_ascii_ws(b) {
            rest
        } else {
            rest + seq![
                if 65 <= b <= 90 {
                    (b + 32) as u8
                } else {
                    b
                },
            ]
        }
    }
}

/// The multiplier a unit names: none, thousand, million or billion.
pub open spec fn unit_mul(u: Seq<u8>) -> Option<u64> {
    if u.len() == 0 {
        Some(1u64)
    } else if u == seq![107u8] {
        Some(1000u64)
    } else if u == seq![109u8] {
        Some(1000000u64)
    } else if u == seq![103u8] {
        Some(1000000000u64)
    } else {
        None
    }
}

/// Index of the first dot, or the length when none occurs.
pub open spec fn first_dot(s: Seq<u8>) -> int
    decreases s.len(),
{
    if s.len() == 0 {
        0
    } else if s[0] == 46 {
        0
    } else {
        1 + first_dot(s.drop_first())
    }
}

proof fn lemma_first_dot_end(s: Seq<u8>, n: int)
    requires
        0 <= n <= s.len(),
        forall|k: int| 0 <= k < n ==> s[k] != 46,
        n == s.len() || s[n] == 46,
    ensures
        n == first_dot(s),
    decreases s.len(),
{
    if s.len() == 0 {
    } else if n == 0 {
    } else {
        let t = s.drop_first();
        assert forall|k: int| 0 <= k < n - 1 implies t[k] != 46 by {
            assert(t[k] == s[k + 1]);
        }
        if n < s.len() {
            assert(s[n] == t[n - 1]);
        }
        lemma_first_dot_end(t, n - 1);
    }
}

/// What the fractional digits contribute: each one scales the remaining
/// tenth of the multiplier, truncated.
pub open spec fn frac_value(fr: Seq<u8>, scale: u64) -> int
    decreases fr.len(),
{
    if fr.len() == 0 {
        0
    } else {
        let sc = scale / 10;
        (if sc > 0 {
            (fr[0] - 48) * sc
        } else {
            0
        }) + frac_value(fr.drop_first(), sc)
    }
}

/// The number part holds a second dot.
pub open spec fn hint_two_dots(t: Seq<u8>) -> bool {
    let num = hint_num(t);
    let d = first_dot(num);
    d < num.len() && first_dot(num.skip(d + 1)) < num.len() - d - 1
}

/// The value a parsed hint must carry: the whole part scaled by the unit,
/// plus the truncated fractional contribution.
pub open spec fn hint_value_is(t: Seq<u8>, v: u64) -> bool {
    let num = hint_num(t);
    let d = first_dot(num);
    let m = unit_mul(hint_unit(t)).unwrap();
    let ip = num.take(
        if d < num.len() {
            d
        } else {
            num.len() as int
        },
    );
    let fp = if d < num.len() {
        num.skip(d + 1)
    } else {
        Seq::<u8>::empty()
    };
    let whole: int = if ip.len() > 0 {
        crate::num::dec_val(ip) as int
    } else {
        0
    };
    v as int == whole * m + frac_value(fp, m)
}

/// A plain hint: digits only, a known unit, and a product that fits.
pub open spec fn hint_plain_ok(t: Seq<u8>) -> bool {
    let num = hint_num(t);
    &&& num.len() > 0
    &&& crate::num::all_digits(num)
    &&& unit_mul(hint_unit(t)) is Some
    &&& crate::num::dec_val(num) <= u64::MAX as nat / unit_mul(hint_unit(t)).unwrap() as nat
}

/// The count a plain hint names.
pub open spec fn hint_plain_value(t: Seq<u8>) -> u64 {
    (crate::num::dec_val(hint_num(t)) * unit_mul(hint_unit(t)).unwrap()) as u64
}

/// Parse a file-count hint such as `750`, `1.5k`, `2m` or `0.5g` into a
/// plain count: the number (one optional dot) scaled by the unit; unknown
/// units and broken numbers give nothing.
#[verifier::loop_isolation(false)]
#[verifier::rlimit(100)]
pub fn parse_file_hint(s: &[u8]) -> (r: Option<u64>)
    ensures
        crate::num::trim_spec(s@).len() == 0 ==> r is None,
        unit_mul(hint_unit(crate::num::trim_spec(s@))) is None ==> r is None,
        hint_num(crate::num::trim_spec(s@)).len() == 0 ==> r is None,
        hint_two_dots(crate::num::trim_spec(s@)) ==> r is None,
        r matches Some(v) ==> hint_value_is(crate::num::trim_spec(s@), v),
        hint_plain_ok(crate::num::trim_spec(s@)) ==> r == Some(hint_plain_value(
            crate::num::trim_spec(s@),
        )),
{
    let trimmed = crate::num::trim_ascii(s);
    let ghost t = crate::num::trim_spec(s@);
    if trimmed.len() == 0 {
        return None;
    }
    let n = trimmed.len();
    let mut num: Vec<u8> = Vec::new();
    let mut unit: Vec<u8> = Vec::new();
    let mut i: usize = 0;
    proof {
        assert(hint_num(t.take(0)) =~= Seq::<u8>::empty());
        assert(hint_unit(t.take(0)) =~= Seq::<u8>::empty());
    }
    while i < n
        invariant
            0 <= i <= n,
            n == t.len(),
            trimmed@ == t,
            num@ == hint_num(t.take(i as int)),
            unit@ == hint_unit(t.take(i as int)),
        decreases n - i,
    {
        let b = trimmed[i];
        proof {
            assert(t.take(i + 1).drop_last() =~= t.take(i as int));
            assert(t.take(i + 1).last() == t[i as int]);
        }
        if (b >= 48 && b <= 57) || b == 46 {
            num.push(b);
        } else if !(b == 32 || b == 9 || b == 10 || b == 12 || b == 13) {
            unit.push(
                if b >= 65 && b <= 90 {
                    b + 32
                } else {
                    b
                },
            );
        }
        i = i + 1;
    }
    proof {
        assert(t.take(n as int) =~= t);
    }
    let ghost numv = hint_num(t);
    let ghost d_spec = first_dot(numv);
    // split the number at one optional dot
    let mut dot: usize = num.len();
    let mut j: usize = 0;
    while j < num.len()
        invariant
            0 <= j <= num@.len(),
            num@ == numv,
            dot == num@.len() || (dot < j && num@[dot as int] == 46),
            dot == num@.len() ==> forall|k: int| 0 <= k < j ==> num@[k] != 46,
            dot < num@.len() ==> forall|k: int| 0 <= k < dot ==> num@[k] != 46,
            dot < num@.len() ==> forall|k: int| dot < k < j ==> num@[k] != 46,
        decreases num@.len() - j,
    {
        if num[j] == 46 {
            if dot < num.len() {
                // a second dot breaks the number
                proof {
                    lemma_first_dot_end(numv, dot as int);
                    let fp0 = numv.skip(d_spec + 1);
                    assert forall|k: int| 0 <= k < j - dot - 1 implies fp0[k] != 46 by {
                        assert(fp0[k] == numv[dot + 1 + k]);
                    }
                    assert(fp0[j - dot - 1] == numv[j as int]);
                    lemma_first_dot_end(fp0, j - dot - 1);
                }
                return None;
            }
            dot = j;
        }
        j = j + 1;
    }
    proof {
        if dot < num@.len() {
            lemma_first_dot_end(numv, dot as int);
            assert(d_spec == dot as int);
            let fp0 = numv.skip(d_spec + 1);
            assert forall|k: int| 0 <= k < fp0.len() implies fp0[k] != 46 by {
                assert(fp0[k] == numv[dot + 1 + k]);
            }
            lemma_first_dot_end(fp0, fp0.len() as int);
            assert(!hint_two_dots(t));
        } else {
            lemma_first_dot_end(numv, numv.len() as int);
            assert(!hint_two_dots(t));
        }
        assert(d_spec == dot as int);
    }
    let int_part = vstd::slice::slice_subrange(num.as_slice(), 0, if dot < num.len() {
        dot
    } else {
        num.len()
    });
    let frac_part: &[u8] = if dot < num.len() {
        vstd::slice::slice_subrange(num.as_slice(), dot + 1, num.len())
    } else {
        vstd::slice::slice_subrange(num.as_slice(), num.len(), num.len())
    };
    proof {
        assert(int_part@ =~= numv.take(
            if d_spec < numv.len() {
                d_spec
            } else {
                numv.len() as int
            },
        ));
        if d_spec < numv.len() {
            assert(frac_part@ =~= numv.skip(d_spec + 1));
        } else {
            assert(frac_part@ =~= Seq::<u8>::empty());
        }
    }
    if int_part.len() == 0 && frac_part.len() == 0 {
        return None;
    }
    let whole = match crate::num::parse_dec_u64(int_part) {
        Some(v) => v,
        None => {
            if int_part.len() == 0 {
                0
            } else {
                proof {
                    if crate::num::all_digits(numv) && crate::num::dec_val(numv) <= u64::MAX as nat
                        && d_spec == numv.len() {
                        assert(int_part@ =~= numv);
                        assert(false);
                    }
                    if crate::num::all_digits(numv) && d_spec < numv.len() {
                        assert(crate::num::is_digit(numv[d_spec]));
                        assert(false);
                    }
                }
                return None;
            }
        },
    };
    let mul: u64 = if unit.len() == 0 {
        1
    } else if unit.len() == 1 && unit[0] == 107 {
        1000
    } else if unit.len() == 1 && unit[0] == 109 {
        1000000
    } else if unit.len() == 1 && unit[0] == 103 {
        1000000000
    } else {
        proof {
            assert(unit@ != Seq::<u8>::empty());
            if unit@.len() == 1 {
                assert(unit@ =~= seq![unit@[0]]);
            }
            assert(unit_mul(unit@) is None);
        }
        return None;
    };
    proof {
        if unit@.len() == 1 {
            assert(unit@ =~= seq![unit@[0]]);
        }
        assert(unit_mul(hint_unit(t)) == Some(mul));
    }
    if whole > u64::MAX / mul {
        proof {
            if crate::num::all_digits(numv) && d_spec == numv.len() {
                assert(int_part@ =~= numv);
            }
        }
        return None;
    }
    proof {
        assert(whole * mul <= u64::MAX) by (nonlinear_arith)
            requires
                mul > 0 && whole <= u64::MAX as int / mul as int,
        ;
    }
    let mut total: u64 = whole * mul;
    // fractional digits contribute the remaining tenths of the multiplier
    let mut scale: u64 = mul;
    let mut k: usize = 0;
    let ghost fp = frac_part@;
    let ghost whole_spec: int = if int_part@.len() > 0 {
        crate::num::dec_val(int_part@) as int
    } else {
        0int
    };
    proof {
        assert(fp.skip(0) =~= fp);
    }
    while k < frac_part.len()
        invariant
            0 <= k <= fp.len(),
            fp == frac_part@,
            scale <= 1000000000,
            mul >= 1,
            whole_spec * mul + frac_value(fp, mul) == total + frac_value(
                fp.skip(k as int),
                scale,
            ),
        decreases fp.len() - k,
    {
        let b = frac_part[k];
        proof {
            assert(fp.skip(k as int)[0] == fp[k as int]);
            assert(fp.skip(k as int).drop_first() =~= fp.skip(k + 1));
        }
        if b < 48 || b > 57 {
            return None;
        }
        scale = scale / 10;
        let add = (b - 48) as u64;
        if scale > 0 {
            if total > u64::MAX - scale * 9 {
                return None;
            }
            proof {
                assert(add * scale <= 9 * scale) by (nonlinear_arith)
                    requires
                        add <= 9 && scale >= 0,
                ;
            }
            total = total + add * scale;
        }
        k = k + 1;
    }
    proof {
        assert(fp.skip(fp.len() as int) =~= Seq::<u8>::empty());
        if crate::num::all_digits(numv) && numv.len() > 0 && crate::num::dec_val(numv)
            <= u64::MAX as nat / mul as nat {
            if d_spec < numv.len() {
                assert(crate::num::is_digit(numv[d_spec]));
                assert(false);
            }
            assert(int_part@ =~= numv);
            assert(fp.len() == 0);
        }
    }
    Some(total)
}

} // verus!
