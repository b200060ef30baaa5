//! Decimal numerals: byte-level formatting and parsing of the integers that
//! appear in row CSV lines, with round-trip lemmas.

use vstd::prelude::*;

verus! {

/// ASCII decimal digit.
pub open spec fn is_digit(b: u8) -> bool {
    48 <= b <= 57
}

/// The decimal digits of `v`, most significant first (`0` is `"0"`).
pub open spec fn dec_digits(v: nat) -> Seq<u8>
    decreases v,
{
    if v < 10 {
        seq![(v + 48) as u8]
    } else {
        dec_digits(v / 10) + seq![((v % 10) + 48) as u8]
    }
}

/// Value of a string of decimal digits (most significant first).
pub open spec fn dec_val(s: Seq<u8>) -> nat
    decreases s.len(),
{
    if s.len() == 0 {
        0
    } else {
        (dec_val(s.drop_last()) * 10 + (s.last() - 48)) as nat
    }
}

pub open spec fn all_digits(s: Seq<u8>) -> bool {
    forall|i: int| 0 <= i < s.len() ==> is_digit(#[trigger] s[i])
}

/// The decimal form of a signed value: a leading `-` for negatives.
pub open spec fn dec_digits_i64(v: i64) -> Seq<u8> {
    if v >= 0 {
        dec_digits(v as nat)
    } else {
        seq![45u8] + dec_digits((-(v as int)) as nat)
    }
}

pub proof fn lemma_dec_digits_all_digits(v: nat)
    ensures
        all_digits(dec_digits(v)),
        dec_digits(v).len() >= 1,
    decreases v,
{
    if v >= 10 {
        lemma_dec_digits_all_digits(v / 10);
    }
}

/// Parsing inverts formatting.
pub proof fn lemma_dec_val_of_digits(v: nat)
    ensures
        dec_val(dec_digits(v)) == v,
    decreases v,
{
    if v < 10 {
        let s = dec_digits(v);
        assert(s.drop_last() =~= Seq::<u8>::empty());
        assert(s.last() == (v + 48) as u8);
        assert(dec_val(s) == (dec_val(Seq::<u8>::empty()) * 10 + ((v + 48) as u8 - 48)) as nat);
    } else {
        lemma_dec_val_of_digits(v / 10);
        let s = dec_digits(v);
        assert(s.drop_last() =~= dec_digits(v / 10));
        assert(s.last() == ((v % 10) + 48) as u8);
        assert(dec_val(s) == (dec_val(dec_digits(v / 10)) * 10 + (((v % 10) + 48) as u8
            - 48)) as nat);
        assert((v / 10) * 10 + v % 10 == v);
    }
}

/// A longer digit string never has a smaller value.
pub proof fn lemma_dec_val_prefix_le(s: Seq<u8>, n: int)
    requires
        0 <= n <= s.len(),
        all_digits(s),
    ensures
        dec_val(s.take(n)) <= dec_val(s),
    decreases s.len(),
{
    if n < s.len() {
        let t = s.drop_last();
        assert forall|i: int| 0 <= i < t.len() implies is_digit(#[trigger] t[i]) by {
            assert(t[i] == s[i]);
        }
        lemma_dec_val_prefix_le(t, n);
        assert(t.take(n) =~= s.take(n));
        assert(is_digit(s.last()));
        assert(dec_val(s) == (dec_val(t) * 10 + (s.last() - 48)) as nat);
        assert(dec_val(t) * 10 + (s.last() - 48) >= dec_val(t));
    } else {
        assert(s.take(n) =~= s);
    }
}

/// Append the decimal digits of `v` to `out`.
#[verifier::loop_isolation(false)]
pub fn push_u64(out: &mut Vec<u8>, v: u64)
    ensures
        final(out)@ == old(out)@ + dec_digits(v as nat),
{
    let mut tmp: Vec<u8> = Vec::new();
    let mut x: u64 = v;
    tmp.push((x % 10) as u8 + 48);
    x = x / 10;
    proof {
        assert(tmp@.reverse() =~= seq![((v as nat % 10) + 48) as u8]);
        if x > 0 {
            assert(dec_digits(v as nat) == dec_digits(x as nat) + tmp@.reverse());
        } else {
            assert(dec_digits(v as nat) =~= tmp@.reverse());
        }
    }
    while x > 0
        invariant
            x > 0 ==> dec_digits(v as nat) == dec_digits(x as nat) + tmp@.reverse(),
            x == 0 ==> dec_digits(v as nat) == tmp@.reverse(),
            tmp@.len() >= 1,
        decreases x,
    {
        let d: u8 = (x % 10) as u8 + 48;
        let ghost pre = tmp@;
        let ghost xpre = x as nat;
        tmp.push(d);
        x = x / 10;
        proof {
            assert(tmp@.reverse() =~= seq![d] + pre.reverse());
            if x > 0 {
                assert(dec_digits(xpre) == dec_digits(x as nat) + seq![d]);
                assert(dec_digits(x as nat) + seq![d] + pre.reverse() =~= dec_digits(x as nat)
                    + tmp@.reverse());
            } else {
                assert(dec_digits(xpre) =~= seq![d]);
                assert(seq![d] + pre.reverse() =~= tmp@.reverse());
            }
        }
    }
    let n = tmp.len();
    let mut k: usize = 0;
    while k < n
        invariant
            n == tmp@.len(),
            0 <= k <= n,
            out@ =~= old(out)@ + tmp@.reverse().take(k as int),
        decreases n - k,
    {
        out.push(tmp[n - 1 - k]);
        k = k + 1;
        proof {
            assert(out@ =~= old(out)@ + tmp@.reverse().take(k as int));
        }
    }
    proof {
        assert(tmp@.reverse().take(n as int) =~= tmp@.reverse());
    }
}

/// Append the decimal digits of `v` to `out`.
pub fn push_u32(out: &mut Vec<u8>, v: u32)
    ensures
        final(out)@ == old(out)@ + dec_digits(v as nat),
{
    push_u64(out, v as u64);
}

/// Append the decimal form of `v` to `out`, with a `-` sign for negatives.
pub fn push_i64(out: &mut Vec<u8>, v: i64)
    ensures
        final(out)@ == old(out)@ + dec_digits_i64(v),
{
    if v >= 0 {
        push_u64(out, v as u64);
    } else {
        out.push(45);
        let ghost mid = out@;
        // the magnitude of i64::MIN does not fit in i64, so treat it apart
        let mag: u64 = if v == -9223372036854775807i64 - 1 {
            9223372036854775808u64
        } else {
            (-v) as u64
        };
        assert(mag == -(v as int));
        push_u64(out, mag);
        proof {
            assert(out@ =~= old(out)@ + dec_digits_i64(v));
        }
    }
}

/// ASCII whitespace as `u8::is_ascii_whitespace` has it.
pub open spec fn is_ascii_ws(b: u8) -> bool {
    b == 32 || b == 9 || b == 10 || b == 12 || b == 13
}

/// `s` with ASCII whitespace stripped from both ends.
pub open spec fn trim_spec(s: Seq<u8>) -> Seq<u8>
    decreases s.len(),
{
    if s.len() == 0 {
        s
    } else if is_ascii_ws(s[0]) {
        trim_spec(s.drop_first())
    } else if is_ascii_ws(s.last()) {
        trim_spec(s.drop_last())
    } else {
        s
    }
}

/// Length of the longest prefix of decimal digits.
pub open spec fn digit_prefix_len(s: Seq<u8>) -> int
    decreases s.len(),
{
    if s.len() == 0 || !is_digit(s[0]) {
        0
    } else {
        1 + digit_prefix_len(s.drop_first())
    }
}

pub proof fn lemma_digit_prefix_props(s: Seq<u8>)
    ensures
        0 <= digit_prefix_len(s) <= s.len(),
        all_digits(s.take(digit_prefix_len(s))),
        digit_prefix_len(s) == s.len() || !is_digit(s[digit_prefix_len(s)]),
    decreases s.len(),
{
    if s.len() > 0 && is_digit(s[0]) {
        let t = s.drop_first();
        lemma_digit_prefix_props(t);
        let n = digit_prefix_len(s);
        assert(s.take(n)[0] == s[0]);
        assert forall|i: int| 0 <= i < n implies is_digit(#[trigger] s.take(n)[i]) by {
            if i > 0 {
                assert(s.take(n)[i] == t.take(n - 1)[i - 1]);
            }
        }
        if n < s.len() {
            assert(s[n] == t[n - 1]);
        }
    }
}

/// A scan that stopped at the first non-digit found the digit prefix.
pub proof fn lemma_digit_prefix_end(s: Seq<u8>, n: int)
    requires
        0 <= n <= s.len(),
        all_digits(s.take(n)),
        n == s.len() || !is_digit(s[n]),
    ensures
        n == digit_prefix_len(s),
    decreases s.len(),
{
    if s.len() == 0 {
    } else if n == 0 {
        if is_digit(s[0]) {
            assert(false);
        }
    } else {
        assert(is_digit(s.take(n)[0]));
        let t = s.drop_first();
        assert forall|i: int| 0 <= i < n - 1 implies is_digit(#[trigger] t.take(n - 1)[i]) by {
            assert(t.take(n - 1)[i] == s.take(n)[i + 1]);
        }
        if n < s.len() {
            assert(s[n] == t[n - 1]);
        }
        lemma_digit_prefix_end(t, n - 1);
    }
}

/// Recognize ASCII whitespace.
pub fn is_ws_byte(b: u8) -> (r: bool)
    ensures
        r == is_ascii_ws(b),
{
    b == 32 || b == 9 || b == 10 || b == 12 || b == 13
}

/// Recognize an ASCII decimal digit.
pub fn is_digit_byte(b: u8) -> (r: bool)
    ensures
        r == is_digit(b),
{
    48 <= b && b <= 57
}

/// Strip ASCII whitespace from both ends of a byte string.
#[verifier::loop_isolation(false)]
pub fn trim_ascii(s: &[u8]) -> (r: &[u8])
    ensures
        r@ == trim_spec(s@),
{
    let mut lo: usize = 0;
    let mut hi: usize = s.len();
    proof {
        assert(s@.subrange(0, s@.len() as int) =~= s@);
    }
    while lo < hi && is_ws_byte(s[lo])
        invariant
            0 <= lo <= hi <= s@.len(),
            trim_spec(s@) == trim_spec(s@.subrange(lo as int, hi as int)),
        decreases hi - lo,
    {
        proof {
            assert(s@.subrange(lo as int, hi as int).drop_first() =~= s@.subrange(
                lo as int + 1,
                hi as int,
            ));
        }
        lo = lo + 1;
    }
    while lo < hi && is_ws_byte(s[hi - 1])
        invariant
            0 <= lo <= hi <= s@.len(),
            trim_spec(s@) == trim_spec(s@.subrange(lo as int, hi as int)),
            lo < hi ==> !is_ascii_ws(s@[lo as int]),
        decreases hi - lo,
    {
        proof {
            assert(s@.subrange(lo as int, hi as int).drop_last() =~= s@.subrange(
                lo as int,
                hi as int - 1,
            ));
        }
        hi = hi - 1;
    }
    proof {
        let sub = s@.subrange(lo as int, hi as int);
        if lo < hi {
            assert(sub[0] == s@[lo as int]);
            assert(sub.last() == s@[hi as int - 1]);
            assert(trim_spec(sub) == sub);
        } else {
            assert(sub =~= Seq::<u8>::empty());
        }
    }
    vstd::slice::slice_subrange(s, lo, hi)
}

/// Whether the trimmed input carries a minus sign.
pub open spec fn tol_neg(s: Seq<u8>) -> bool {
    let t = trim_spec(s);
    t.len() > 0 && t[0] == 45
}

/// The trimmed input with one optional sign removed.
pub open spec fn tol_rest(s: Seq<u8>) -> Seq<u8> {
    let t = trim_spec(s);
    if t.len() > 0 && (t[0] == 43 || t[0] == 45) {
        t.drop_first()
    } else {
        t
    }
}

/// Whether at least one digit follows the optional sign.
pub open spec fn tol_has(s: Seq<u8>) -> bool {
    digit_prefix_len(tol_rest(s)) > 0
}

/// The magnitude read from the digit prefix after the optional sign.
pub open spec fn tol_mag(s: Seq<u8>) -> nat {
    dec_val(tol_rest(s).take(digit_prefix_len(tol_rest(s))))
}

/// Tolerant unsigned reading: `0` on no digits, a sign, or overflow.
pub open spec fn tolerant_unsigned(s: Seq<u8>, max: nat) -> nat {
    if !tol_has(s) || tol_neg(s) || tol_mag(s) > max {
        0
    } else {
        tol_mag(s)
    }
}

/// Tolerant signed reading: `0` on no digits or overflow.
pub open spec fn tolerant_signed(s: Seq<u8>, min: int, max: int) -> int {
    if !tol_has(s) {
        0
    } else if tol_neg(s) {
        if -(tol_mag(s) as int) >= min {
            -(tol_mag(s) as int)
        } else {
            0
        }
    } else {
        if tol_mag(s) as int <= max {
            tol_mag(s) as int
        } else {
            0
        }
    }
}

/// Sign, presence of digits, and magnitude of the digit prefix, with `None`
/// standing for a magnitude beyond `u64`.
#[verifier::loop_isolation(false)]
fn tolerant_parse_core(s: &[u8]) -> (r: (bool, bool, Option<u64>))
    ensures
        r.0 == tol_neg(s@),
        r.1 == tol_has(s@),
        tol_mag(s@) <= u64::MAX ==> r.2 == Some((tol_mag(s@) as u64)),
        tol_mag(s@) > u64::MAX ==> r.2 is None,
{
    let t = trim_ascii(s);
    let neg = t.len() > 0 && t[0] == 45;
    let off: usize = if t.len() > 0 && (t[0] == 43 || t[0] == 45) {
        1
    } else {
        0
    };
    let ghost rest = tol_rest(s@);
    proof {
        assert(rest =~= t@.subrange(off as int, t@.len() as int));
        lemma_digit_prefix_props(rest);
    }
    let mut j: usize = off;
    let mut acc: u64 = 0;
    let n = t.len();
    while j < n && is_digit_byte(t[j])
        invariant
            off <= j <= n,
            n == t@.len(),
            rest =~= t@.subrange(off as int, n as int),
            all_digits(rest.take(j - off)),
            acc == dec_val(rest.take(j - off)),
        decreases n - j,
    {
        let d: u8 = t[j] - 48;
        proof {
            assert(rest[j - off] == t@[j as int]);
            assert(rest.take(j - off + 1).drop_last() =~= rest.take(j - off));
            assert(rest.take(j - off + 1).last() == rest[j - off]);
        }
        if acc > (u64::MAX - d as u64) / 10 {
            // the full digit prefix can only be larger still
            proof {
                let npre = digit_prefix_len(rest);
                assert(acc * 10 + d > u64::MAX) by {
                    assert(((u64::MAX - d as u64) / 10) * 10 + 10 > u64::MAX - d as u64);
                };
                assert(dec_val(rest.take(j - off + 1)) > u64::MAX);
                if npre < j - off + 1 {
                    assert(is_digit(rest.take(j - off + 1)[npre]));
                    assert(false);
                }
                lemma_dec_val_prefix_le(rest.take(npre), j - off + 1);
                assert(rest.take(npre).take(j - off + 1) =~= rest.take(j - off + 1));
                assert(tol_mag(s@) > u64::MAX);
            }
            return (neg, true, None);
        }
        acc = acc * 10 + d as u64;
        j = j + 1;
    }
    proof {
        lemma_digit_prefix_end(rest, j - off);
        if j < n {
            assert(rest[j - off] == t@[j as int]);
        }
    }
    (neg, j > off, Some(acc))
}

/// Tolerant reading of a `u64` from an optional byte field.
pub fn parse_int_u64(b: Option<&[u8]>) -> (r: u64)
    ensures
        b matches Some(s) ==> r == tolerant_unsigned(s@, u64::MAX as nat),
        b is None ==> r == 0,
{
    match b {
        None => 0,
        Some(s) => {
            let (neg, got, mag) = tolerant_parse_core(s);
            if !got || neg {
                0
            } else {
                match mag {
                    Some(v) => v,
                    None => 0,
                }
            }
        },
    }
}

/// Tolerant reading of a `u32`.
pub fn parse_int_u32(b: Option<&[u8]>) -> (r: u32)
    ensures
        b matches Some(s) ==> r == tolerant_unsigned(s@, u32::MAX as nat),
        b is None ==> r == 0,
{
    match b {
        None => 0,
        Some(s) => {
            let (neg, got, mag) = tolerant_parse_core(s);
            if !got || neg {
                0
            } else {
                match mag {
                    Some(v) if v <= u32::MAX as u64 => v as u32,
                    _ => 0,
                }
            }
        },
    }
}

/// Tolerant reading of a `u8`.
pub fn parse_int_u8(b: Option<&[u8]>) -> (r: u8)
    ensures
        b matches Some(s) ==> r == tolerant_unsigned(s@, u8::MAX as nat),
        b is None ==> r == 0,
{
    match b {
        None => 0,
        Some(s) => {
            let (neg, got, mag) = tolerant_parse_core(s);
            if !got || neg {
                0
            } else {
                match mag {
                    Some(v) if v <= u8::MAX as u64 => v as u8,
                    _ => 0,
                }
            }
        },
    }
}

/// Tolerant reading of an `i64`.
pub fn parse_int_i64(b: Option<&[u8]>) -> (r: i64)
    ensures
        b matches Some(s) ==> r as int == tolerant_signed(s@, i64::MIN as int, i64::MAX as int),
        b is None ==> r == 0,
{
    match b {
        None => 0,
        Some(s) => {
            let (neg, got, mag) = tolerant_parse_core(s);
            if !got {
                0
            } else {
                match mag {
                    Some(v) => {
                        if neg {
                            if v <= 9223372036854775807u64 {
                                -(v as i64)
                            } else if v == 9223372036854775808u64 {
                                -9223372036854775807i64 - 1
                            } else {
                                0
                            }
                        } else {
                            if v <= 9223372036854775807u64 {
                                v as i64
                            } else {
                                0
                            }
                        }
                    },
                    None => 0,
                }
            }
        },
    }
}

/// Tolerant reading of an `i32`.
pub fn parse_int_i32(b: Option<&[u8]>) -> (r: i32)
    ensures
        b matches Some(s) ==> r as int == tolerant_signed(s@, i32::MIN as int, i32::MAX as int),
        b is None ==> r == 0,
{
    match b {
        None => 0,
        Some(s) => {
            let (neg, got, mag) = tolerant_parse_core(s);
            if !got {
                0
            } else {
                match mag {
                    Some(v) => {
                        if neg {
                            if v <= 2147483648u64 {
                                (-(v as i64)) as i32
                            } else {
                                0
                            }
                        } else {
                            if v <= 2147483647u64 {
                                v as i32
                            } else {
                                0
                            }
                        }
                    },
                    None => 0,
                }
            }
        },
    }
}

/// Tolerant reading of an `i8`.
pub fn parse_int_i8(b: Option<&[u8]>) -> (r: i8)
    ensures
        b matches Some(s) ==> r as int == tolerant_signed(s@, i8::MIN as int, i8::MAX as int),
        b is None ==> r == 0,
{
    match b {
        None => 0,
        Some(s) => {
            let (neg, got, mag) = tolerant_parse_core(s);
            if !got {
                0
            } else {
                match mag {
                    Some(v) => {
                        if neg {
                            if v <= 128u64 {
                                (-(v as i64)) as i8
                            } else {
                                0
                            }
                        } else {
                            if v <= 127u64 {
                                v as i8
                            } else {
                                0
                            }
                        }
                    },
                    None => 0,
                }
            }
        },
    }
}

/// Strict reading of an unsigned decimal: every byte must be a digit and the
/// value must fit in `u64`.
#[verifier::loop_isolation(false)]
pub fn parse_dec_u64(s: &[u8]) -> (r: Option<u64>)
    ensures
        r matches Some(v) ==> s@.len() > 0 && all_digits(s@) && v == dec_val(s@),
        r is None ==> s@.len() == 0 || !all_digits(s@) || dec_val(s@) > u64::MAX,
{
    if s.len() == 0 {
        return None;
    }
    let mut acc: u64 = 0;
    let mut j: usize = 0;
    let n = s.len();
    while j < n
        invariant
            0 <= j <= n,
            n == s@.len(),
            all_digits(s@.take(j as int)),
            acc == dec_val(s@.take(j as int)),
        decreases n - j,
    {
        let b = s[j];
        if b < 48 || b > 57 {
            return None;
        }
        let d: u8 = b - 48;
        proof {
            assert(s@.take(j + 1).drop_last() =~= s@.take(j as int));
            assert(s@.take(j + 1).last() == s@[j as int]);
        }
        if acc > (u64::MAX - d as u64) / 10 {
            proof {
                assert(acc * 10 + d > u64::MAX) by {
                    assert(((u64::MAX - d as u64) / 10) * 10 + 10 > u64::MAX - d as u64);
                };
                assert(dec_val(s@.take(j + 1)) > u64::MAX);
                assert forall|i: int| 0 <= i < n implies is_digit(#[trigger] s@[i]) || !all_digits(
                    s@,
                ) by {}
                if all_digits(s@) {
                    lemma_dec_val_prefix_le(s@, j + 1);
                }
            }
            return None;
        }
        acc = acc * 10 + d as u64;
        j = j + 1;
    }
    proof {
        assert(s@.take(n as int) =~= s@);
    }
    Some(acc)
}

} // verus!
