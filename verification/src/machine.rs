//! Conversion of vendor object-store listing lines into the raw row CSV:
//! find the payload behind the `;NUMBER!` marker, turn dates into Unix
//! seconds and permission strings into mode bits, and requote the path.

use vstd::prelude::*;

use crate::num::{all_digits, dec_digits, dec_digits_i64, dec_val, is_digit, parse_dec_u64};
use crate::quoting::{escape_quotes, push_all};

verus! {

/// Why a listing line does not convert.
#[derive(Debug, Clone, PartialEq, Eq, Structural)]
pub enum MachineError {
    /// No `;NUMBER!` marker introduces a CSV payload.
    NoCsvStart,
    /// The payload has fewer than nine fields.
    NotEnoughFields,
    /// A date field is too short or not a calendar date.
    BadDate,
    /// A permission field is not ten bytes of `rwx` notation.
    BadPermissions,
    /// A numeric field overflows when scaled to bytes.
    Overflow,
}

impl MachineError {
    /// A single-line description for reports.
    pub fn message(&self) -> (r: &'static str) {
        match self {
            MachineError::NoCsvStart => "no CSV data found",
            MachineError::NotEnoughFields => "not enough fields",
            MachineError::BadDate => "invalid date",
            MachineError::BadPermissions => "permission string must be 10 bytes",
            MachineError::Overflow => "numeric field too large",
        }
    }
}

/// Start of the digit run that ends at `j`, scanning left and stopping at
/// index zero.
pub open spec fn digit_run_start(line: Seq<u8>, j: int) -> int
    decreases (if j > 0 {
        j
    } else {
        0
    }),
{
    if j > 0 && 0 <= j < line.len() && is_digit(line[j]) {
        digit_run_start(line, j - 1)
    } else {
        j
    }
}

/// A `;NUMBER!` or `;-NUMBER!` marker ends at the bang at `i`.
pub open spec fn marker_at(line: Seq<u8>, i: int) -> bool {
    1 <= i < line.len() && line[i] == 33 && {
        let j0 = digit_run_start(line, i - 1);
        let j1 = if j0 > 0 && 0 <= j0 < line.len() && line[j0] == 45 {
            j0 - 1
        } else {
            j0
        };
        0 <= j1 < line.len() && line[j1] == 59 && j1 < i - 1
    }
}

/// The payload start: one past the last marker bang, scanning backwards.
pub open spec fn find_csv_start_rec(line: Seq<u8>, i: int) -> Option<int>
    decreases (if i > 0 {
        i
    } else {
        0
    }),
{
    if i <= 0 {
        None
    } else if marker_at(line, i) {
        Some(i + 1)
    } else {
        find_csv_start_rec(line, i - 1)
    }
}

pub open spec fn find_csv_start_spec(line: Seq<u8>) -> Option<int> {
    if line.len() == 0 {
        None
    } else {
        find_csv_start_rec(line, line.len() - 1)
    }
}

/// Find where the CSV payload begins: just after the rightmost `;NUMBER!`
/// marker.
#[verifier::loop_isolation(false)]
pub fn find_csv_start(line: &[u8]) -> (r: Option<usize>)
    ensures
        match r {
            Some(v) => find_csv_start_spec(line@) == Some(v as int) && 0 < v <= line@.len(),
            None => find_csv_start_spec(line@) is None,
        },
{
    let n = line.len();
    if n == 0 {
        return None;
    }
    let mut i: usize = n - 1;
    while i > 0
        invariant
            0 <= i < n,
            n == line@.len(),
            find_csv_start_rec(line@, n - 1) == find_csv_start_rec(line@, i as int),
        decreases i,
    {
        if line[i] == 33 {
            let mut j: usize = i - 1;
            while j > 0 && line[j] >= 48 && line[j] <= 57
                invariant
                    0 <= j <= i - 1,
                    i < n,
                    n == line@.len(),
                    digit_run_start(line@, i - 1) == digit_run_start(line@, j as int),
                decreases j,
            {
                j = j - 1;
            }
            proof {
                assert(digit_run_start(line@, j as int) == j);
            }
            if j > 0 && line[j] == 45 {
                j = j - 1;
            }
            if line[j] == 59 && j < i - 1 {
                proof {
                    assert(marker_at(line@, i as int));
                }
                return Some(i + 1);
            }
            proof {
                assert(!marker_at(line@, i as int));
            }
        }
        i = i - 1;
    }
    proof {
        assert(find_csv_start_rec(line@, 0) is None);
    }
    None
}

/// The raw comma-separated fields of the payload: quotes toggle protection
/// against splitting and stay inside the field bytes.
pub open spec fn mfields(s: Seq<u8>, in_q: bool, cur: Seq<u8>) -> Seq<Seq<u8>>
    decreases s.len(),
{
    if s.len() == 0 {
        seq![cur]
    } else {
        let b = s[0];
        if b == 34 {
            mfields(s.drop_first(), !in_q, cur.push(34))
        } else if b == 44 && !in_q {
            seq![cur] + mfields(s.drop_first(), false, Seq::empty())
        } else {
            mfields(s.drop_first(), in_q, cur.push(b))
        }
    }
}

pub open spec fn machine_fields(s: Seq<u8>) -> Seq<Seq<u8>> {
    mfields(s, false, Seq::empty())
}

/// Split a payload into its raw fields.
#[verifier::loop_isolation(false)]
pub fn split_machine_fields(s: &[u8]) -> (r: Vec<Vec<u8>>)
    ensures
        crate::record::field_views(r@) == machine_fields(s@),
        r@.len() >= 1,
{
    let mut fields: Vec<Vec<u8>> = Vec::new();
    let mut cur: Vec<u8> = Vec::new();
    let mut in_q = false;
    let mut i: usize = 0;
    let n = s.len();
    proof {
        assert(s@.skip(0) =~= s@);
        assert(crate::record::field_views(fields@) =~= Seq::<Seq<u8>>::empty());
        assert(Seq::<Seq<u8>>::empty() + mfields(s@, false, cur@) =~= mfields(s@, false, cur@));
    }
    while i < n
        invariant
            0 <= i <= n,
            n == s@.len(),
            machine_fields(s@) == crate::record::field_views(fields@) + mfields(
                s@.skip(i as int),
                in_q,
                cur@,
            ),
        decreases n - i,
    {
        let b = s[i];
        proof {
            let rem = s@.skip(i as int);
            assert(rem[0] == s@[i as int]);
            assert(rem.drop_first() =~= s@.skip(i + 1));
        }
        if b == 34 {
            cur.push(34);
            in_q = !in_q;
        } else if b == 44 && !in_q {
            let done = cur;
            cur = Vec::new();
            fields.push(done);
            proof {
                assert(crate::record::field_views(fields@) =~= crate::record::field_views(
                    fields@.drop_last(),
                ) + seq![fields@.last()@]);
                assert(crate::record::field_views(fields@.drop_last()) + (seq![fields@.last()@]
                    + mfields(s@.skip(i + 1), false, Seq::empty()))
                    =~= crate::record::field_views(fields@) + mfields(
                    s@.skip(i + 1),
                    false,
                    Seq::empty(),
                ));
            }
        } else {
            cur.push(b);
        }
        i = i + 1;
    }
    proof {
        assert(s@.skip(n as int) =~= Seq::<u8>::empty());
    }
    fields.push(cur);
    proof {
        assert(crate::record::field_views(fields@) =~= crate::record::field_views(
            fields@.drop_last(),
        ) + seq![fields@.last()@]);
    }
    fields
}

/// Days from the civil epoch 1970-01-01 for a calendar date.
pub open spec fn days_from_civil(y: int, m: int, d: int) -> int {
    let yy = if m <= 2 {
        y - 1
    } else {
        y
    };
    let era = yy / 400;
    let yoe = yy - era * 400;
    let mp = (m + 9) % 12;
    let doy = (153 * mp + 2) / 5 + d - 1;
    let doe = yoe * 365 + yoe / 4 - yoe / 100 + doy;
    era * 146097 + doe - 719468
}

pub open spec fn is_leap(y: int) -> bool {
    (y % 4 == 0 && y % 100 != 0) || y % 400 == 0
}

pub open spec fn days_in_month(y: int, m: int) -> int {
    if m == 2 {
        if is_leap(y) {
            29
        } else {
            28
        }
    } else if m == 4 || m == 6 || m == 9 || m == 11 {
        30
    } else {
        31
    }
}

/// A well-shaped `YYYY-MM-DD` prefix naming a real calendar date.
pub open spec fn date_ok(s: Seq<u8>) -> bool {
    &&& s.len() >= 10
    &&& all_digits(s.subrange(0, 4))
    &&& s[4] == 45
    &&& all_digits(s.subrange(5, 7))
    &&& s[7] == 45
    &&& all_digits(s.subrange(8, 10))
    &&& 1 <= dec_val(s.subrange(0, 4))
    &&& 1 <= dec_val(s.subrange(5, 7)) <= 12
    &&& 1 <= dec_val(s.subrange(8, 10)) <= days_in_month(
        dec_val(s.subrange(0, 4)) as int,
        dec_val(s.subrange(5, 7)) as int,
    )
}

/// The Unix timestamp of midnight on the date opening the field.
pub open spec fn date_unix(s: Seq<u8>) -> int {
    86400 * days_from_civil(
        dec_val(s.subrange(0, 4)) as int,
        dec_val(s.subrange(5, 7)) as int,
        dec_val(s.subrange(8, 10)) as int,
    )
}

/// Read the `YYYY-MM-DD` prefix of a date field as Unix seconds at
/// midnight.
#[verifier::loop_isolation(false)]
pub fn unix_time(date_bytes: &[u8]) -> (r: Result<i64, MachineError>)
    ensures
        r is Ok <==> date_ok(date_bytes@),
        r matches Ok(t) ==> t == date_unix(date_bytes@),
{
    if date_bytes.len() < 10 {
        return Err(MachineError::BadDate);
    }
    if date_bytes[4] != 45 || date_bytes[7] != 45 {
        return Err(MachineError::BadDate);
    }
    let ybytes = vstd::slice::slice_subrange(date_bytes, 0, 4);
    let mbytes = vstd::slice::slice_subrange(date_bytes, 5, 7);
    let dbytes = vstd::slice::slice_subrange(date_bytes, 8, 10);
    let y64 = match parse_dec_u64(ybytes) {
        Some(v) => v,
        None => {
            proof {
                if all_digits(ybytes@) {
                    lemma_small_digits_fit(ybytes@);
                }
            }
            return Err(MachineError::BadDate);
        },
    };
    let m64 = match parse_dec_u64(mbytes) {
        Some(v) => v,
        None => {
            proof {
                if all_digits(mbytes@) {
                    lemma_small_digits_fit(mbytes@);
                }
            }
            return Err(MachineError::BadDate);
        },
    };
    let d64 = match parse_dec_u64(dbytes) {
        Some(v) => v,
        None => {
            proof {
                if all_digits(dbytes@) {
                    lemma_small_digits_fit(dbytes@);
                }
            }
            return Err(MachineError::BadDate);
        },
    };
    proof {
        lemma_small_digits_fit(ybytes@);
        lemma_small_digits_fit(mbytes@);
        lemma_small_digits_fit(dbytes@);
    }
    let y = y64 as i64;
    let m = m64 as i64;
    let d = d64 as i64;
    if y < 1 || m < 1 || m > 12 {
        return Err(MachineError::BadDate);
    }
    let dim: i64 = if m == 2 {
        if (y % 4 == 0 && y % 100 != 0) || y % 400 == 0 {
            29
        } else {
            28
        }
    } else if m == 4 || m == 6 || m == 9 || m == 11 {
        30
    } else {
        31
    };
    if d < 1 || d > dim {
        return Err(MachineError::BadDate);
    }
    let yy: i64 = if m <= 2 {
        y - 1
    } else {
        y
    };
    let era: i64 = yy / 400;
    let yoe: i64 = yy - era * 400;
    let mp: i64 = (m + 9) % 12;
    let doy: i64 = (153 * mp + 2) / 5 + d - 1;
    let doe: i64 = yoe * 365 + yoe / 4 - yoe / 100 + doy;
    let days: i64 = era * 146097 + doe - 719468;
    Ok(86400 * days)
}

/// The file-type bits encoded by the first byte of an `ls`-style
/// permission string.
pub open spec fn type_bits(b: u8) -> Option<u32> {
    if b == 100 {
        Some(0o040000u32)
    } else if b == 45 {
        Some(0o100000u32)
    } else if b == 108 {
        Some(0o120000u32)
    } else if b == 99 {
        Some(0o020000u32)
    } else if b == 98 {
        Some(0o060000u32)
    } else if b == 112 {
        Some(0o010000u32)
    } else if b == 115 {
        Some(0o140000u32)
    } else {
        None
    }
}

/// The permission bit granted by position `i` of the nine `rwx` places.
pub open spec fn perm_bit(i: int) -> int {
    if i == 0 {
        0o400
    } else if i == 1 {
        0o200
    } else if i == 2 {
        0o100
    } else if i == 3 {
        0o040
    } else if i == 4 {
        0o020
    } else if i == 5 {
        0o010
    } else if i == 6 {
        0o004
    } else if i == 7 {
        0o002
    } else {
        0o001
    }
}

/// Sum of the bits granted from place `i` on: any byte but `-` grants.
pub open spec fn bits_from(s: Seq<u8>, i: int) -> int
    decreases 9 - i,
{
    if i < 0 || i >= 9 {
        0
    } else {
        (if s[i + 1] != 45 {
            perm_bit(i)
        } else {
            0
        }) + bits_from(s, i + 1)
    }
}

proof fn lemma_bits_from_bound(s: Seq<u8>, i: int)
    ensures
        0 <= bits_from(s, i) <= (if i <= 0 {
            511int
        } else if i == 1 {
            255
        } else if i == 2 {
            127
        } else if i == 3 {
            63
        } else if i == 4 {
            31
        } else if i == 5 {
            15
        } else if i == 6 {
            7
        } else if i == 7 {
            3
        } else if i == 8 {
            1
        } else {
            0
        }),
    decreases 9 - i,
{
    if 0 <= i < 9 {
        lemma_bits_from_bound(s, i + 1);
    }
}

/// A ten-byte permission string with a known type letter.
pub open spec fn perm_ok(s: Seq<u8>) -> bool {
    s.len() == 10 && type_bits(s[0]) is Some
}

/// The POSIX mode encoded by a permission string.
pub open spec fn mode_of(s: Seq<u8>) -> u32 {
    (type_bits(s[0]).unwrap() + bits_from(s, 0)) as u32
}

/// Turn a ten-byte `ls`-style permission string into POSIX mode bits.
#[verifier::loop_isolation(false)]
pub fn perm_to_mode(perm: &[u8]) -> (r: Result<u32, MachineError>)
    ensures
        r is Ok <==> perm_ok(perm@),
        r matches Ok(m) ==> m == mode_of(perm@),
{
    if perm.len() != 10 {
        return Err(MachineError::BadPermissions);
    }
    let t = perm[0];
    let tb: u32 = if t == 100 {
        0o040000
    } else if t == 45 {
        0o100000
    } else if t == 108 {
        0o120000
    } else if t == 99 {
        0o020000
    } else if t == 98 {
        0o060000
    } else if t == 112 {
        0o010000
    } else if t == 115 {
        0o140000
    } else {
        return Err(MachineError::BadPermissions);
    };
    let mut mode: u32 = tb;
    let mut i: usize = 0;
    proof {
        lemma_bits_from_bound(perm@, 0);
    }
    while i < 9
        invariant
            0 <= i <= 9,
            perm@.len() == 10,
            tb == type_bits(perm@[0]).unwrap(),
            tb <= 0o140000,
            mode_of(perm@) == mode + bits_from(perm@, i as int),
        decreases 9 - i,
    {
        proof {
            lemma_bits_from_bound(perm@, i as int);
            lemma_bits_from_bound(perm@, i + 1);
        }
        let bit: u32 = if i == 0 {
            0o400
        } else if i == 1 {
            0o200
        } else if i == 2 {
            0o100
        } else if i == 3 {
            0o040
        } else if i == 4 {
            0o020
        } else if i == 5 {
            0o010
        } else if i == 6 {
            0o004
        } else if i == 7 {
            0o002
        } else {
            0o001
        };
        if perm[i + 1] != 45 {
            mode = mode + bit;
        }
        i = i + 1;
    }
    Ok(mode)
}

/// The value a numeric listing field reads as: non-digits are skipped and
/// the accumulator wraps at the top of `u64`.
pub open spec fn machine_u64_rec(s: Seq<u8>, i: int, acc: u64) -> u64
    decreases s.len() - i,
{
    if i < 0 || i >= s.len() {
        acc
    } else {
        machine_u64_rec(
            s,
            i + 1,
            if is_digit(s[i]) {
                ((acc * 10 + (s[i] - 48)) % 0x10000000000000000) as u64
            } else {
                acc
            },
        )
    }
}

pub open spec fn machine_u64(s: Seq<u8>) -> u64 {
    machine_u64_rec(s, 0, 0)
}

/// Read a numeric listing field, skipping any non-digit bytes.
#[verifier::loop_isolation(false)]
pub fn parse_u64(b: &[u8]) -> (r: u64)
    ensures
        r == machine_u64(b@),
{
    let mut n: u64 = 0;
    let mut i: usize = 0;
    let len = b.len();
    while i < len
        invariant
            0 <= i <= len,
            len == b@.len(),
            machine_u64(b@) == machine_u64_rec(b@, i as int, n),
        decreases len - i,
    {
        let c = b[i];
        if c >= 48 && c <= 57 {
            let wide: u128 = (n as u128) * 10 + ((c - 48) as u128);
            let ghost pre = n;
            n = #[verifier::truncate] (wide as u64);
            proof {
                assert(n == (wide % 0x10000000000000000u128) as u64) by (bit_vector)
                    requires
                        n == #[verifier::truncate] (wide as u64),
                ;
                assert(wide as int == pre * 10 + (b@[i as int] - 48));
            }
        }
        i = i + 1;
    }
    n
}

/// A listing path field requoted for the raw CSV: already-quoted fields
/// pass through, anything else is wrapped with its quotes doubled.
pub open spec fn machine_quoted(s: Seq<u8>) -> Seq<u8> {
    if s.len() >= 2 && s[0] == 34 && s.last() == 34 {
        s
    } else {
        seq![34u8] + escape_quotes(s) + seq![34u8]
    }
}

/// Requote a listing path field for the raw CSV.
pub fn csv_quote_path(out: &mut Vec<u8>, path: &[u8])
    ensures
        final(out)@ == old(out)@ + machine_quoted(path@),
{
    if path.len() >= 2 && path[0] == 34 && path[path.len() - 1] == 34 {
        push_all(out, path);
    } else {
        out.push(34);
        crate::quoting::push_escaped(out, path);
        out.push(34);
        proof {
            assert(out@ =~= old(out)@ + machine_quoted(path@));
        }
    }
}

/// Digit strings of at most four places stay below ten thousand.
proof fn lemma_small_digits_fit(s: Seq<u8>)
    requires
        s.len() <= 4,
        all_digits(s),
    ensures
        dec_val(s) < 10000,
{
    lemma_dec_val_small(s);
    assert(pow10(0) == 1);
    assert(pow10(1) == 10);
    assert(pow10(2) == 100);
    assert(pow10(3) == 1000);
    assert(pow10(4) == 10000);
    if s.len() == 0 {
    } else if s.len() == 1 {
    } else if s.len() == 2 {
    } else if s.len() == 3 {
    } else {
    }
}

/// Ten to a small power.
pub open spec fn pow10(n: nat) -> nat
    decreases n,
{
    if n == 0 {
        1
    } else {
        10 * pow10((n - 1) as nat)
    }
}

/// A digit string of bounded width has a bounded value.
proof fn lemma_dec_val_small(s: Seq<u8>)
    requires
        all_digits(s),
    ensures
        dec_val(s) < pow10(s.len()),
    decreases s.len(),
{
    if s.len() > 0 {
        let t = s.drop_last();
        assert forall|i: int| 0 <= i < t.len() implies is_digit(#[trigger] t[i]) by {
            assert(t[i] == s[i]);
        }
        lemma_dec_val_small(t);
        assert(is_digit(s.last()));
        assert(dec_val(t) * 10 <= (pow10(t.len()) - 1) * 10);
    }
}

/// Every structural condition one listing line must meet to convert.
pub open spec fn line_convertible(line: Seq<u8>) -> bool {
    &&& find_csv_start_spec(line) is Some
    &&& {
        let fs = machine_fields(line.skip(find_csv_start_spec(line).unwrap()));
        &&& fs.len() >= 9
        &&& date_ok(fs[1])
        &&& date_ok(fs[2])
        &&& perm_ok(fs[5])
        &&& machine_u64(fs[7]) <= u64::MAX / 512
    }
}

/// The raw CSV row written for one convertible listing payload.
pub open spec fn converted_line(csv: Seq<u8>) -> Seq<u8> {
    let fs = machine_fields(csv);
    fs[0] + seq![44u8] + dec_digits_i64(date_unix(fs[1]) as i64) + seq![44u8] + dec_digits_i64(
        date_unix(fs[2]) as i64,
    ) + seq![44u8] + fs[3] + seq![44u8] + fs[4] + seq![44u8] + dec_digits(mode_of(fs[5]) as nat)
        + seq![44u8] + fs[6] + seq![44u8] + dec_digits((machine_u64(fs[7]) * 512) as nat)
        + seq![44u8] + machine_quoted(fs[8]) + seq![10u8]
}

/// Convert one listing line into a raw CSV row appended to `out`: the
/// INODE, UID, GID and SIZE fields pass through, dates become Unix seconds,
/// the permission string becomes mode bits, the disk field is scaled to
/// bytes, and the path is requoted.  On failure `out` is untouched.
#[verifier::rlimit(60)]
pub fn convert_line(line: &[u8], out: &mut Vec<u8>) -> (r: Result<(), MachineError>)
    ensures
        r is Ok <==> line_convertible(line@),
        r is Ok ==> final(out)@ == old(out)@ + converted_line(
            line@.skip(find_csv_start_spec(line@).unwrap()),
        ),
        r is Err ==> final(out)@ == old(out)@,
{
    let start = match find_csv_start(line) {
        Some(v) => v,
        None => {
            return Err(MachineError::NoCsvStart);
        },
    };
    let csv_part = vstd::slice::slice_subrange(line, start, line.len());
    proof {
        assert(csv_part@ =~= line@.skip(find_csv_start_spec(line@).unwrap()));
    }
    let fields = split_machine_fields(csv_part);
    if fields.len() < 9 {
        return Err(MachineError::NotEnoughFields);
    }
    let accessed = match unix_time(fields[1].as_slice()) {
        Ok(t) => t,
        Err(e) => {
            return Err(e);
        },
    };
    let modified = match unix_time(fields[2].as_slice()) {
        Ok(t) => t,
        Err(e) => {
            return Err(e);
        },
    };
    let mode = match perm_to_mode(fields[5].as_slice()) {
        Ok(m) => m,
        Err(e) => {
            return Err(e);
        },
    };
    let disk = parse_u64(fields[7].as_slice());
    if disk > u64::MAX / 512 {
        return Err(MachineError::Overflow);
    }
    let disk_bytes = disk * 512;
    push_all(out, fields[0].as_slice());
    out.push(44);
    crate::num::push_i64(out, accessed);
    out.push(44);
    crate::num::push_i64(out, modified);
    out.push(44);
    push_all(out, fields[3].as_slice());
    out.push(44);
    push_all(out, fields[4].as_slice());
    out.push(44);
    crate::num::push_u32(out, mode);
    out.push(44);
    push_all(out, fields[6].as_slice());
    out.push(44);
    crate::num::push_u64(out, disk_bytes);
    out.push(44);
    csv_quote_path(out, fields[8].as_slice());
    out.push(10);
    proof {
        assert(out@ =~= old(out)@ + converted_line(csv_part@));
    }
    Ok(())
}

} // verus!
