//! Per-owner usage statistics and the age-bucket rules.

use vstd::prelude::*;

verus! {

/// Seconds in one day.
pub const ONE_DAY_SECS: i64 = 86400;

/// Age thresholds in days: below `young` is recent, below `old` is middling,
/// the rest is old.
#[derive(Copy, Clone, Debug)]
pub struct AgeCfg {
    pub young: i64,
    pub old: i64,
}

impl Default for AgeCfg {
    /// The stock thresholds: 60 and 600 days.
    fn default() -> (r: Self)
        ensures
            r.young == 60 && r.old == 600,
    {
        AgeCfg { young: 60, old: 600 }
    }
}

impl AgeCfg {
    /// Thresholds from an optional command-line pair, the stock values
    /// otherwise.
    pub fn from_args(age: &Option<(i64, i64)>) -> (r: Self)
        ensures
            match age {
                Some(p) => r.young == p.0 && r.old == p.1,
                None => r.young == 60 && r.old == 600,
            },
    {
        match age {
            Some(p) => AgeCfg { young: p.0, old: p.1 },
            None => AgeCfg { young: 60, old: 600 },
        }
    }
}

/// Why an age pair does not parse.
#[derive(Debug, Clone, PartialEq, Eq, Structural)]
pub enum AgePairError {
    /// Fewer or more than two comma-separated values.
    WrongCount,
    /// A value is not an integer.
    NotAnInteger,
    /// The values are not positive and increasing.
    BadRange,
}

impl AgePairError {
    /// A single-line description for reports.
    pub fn message(&self) -> (r: &'static str) {
        match self {
            AgePairError::WrongCount => "expected exactly two values: YOUNG,OLD",
            AgePairError::NotAnInteger => "YOUNG and OLD must be integers",
            AgePairError::BadRange => "must be positive and increasing (e.g. 60,600)",
        }
    }
}

/// A well-formed signed integer field: one optional sign, then digits, in
/// the range of `i64`.
pub open spec fn signed_ok(s: Seq<u8>) -> bool {
    let d = if s.len() > 0 && (s[0] == 43 || s[0] == 45) {
        s.drop_first()
    } else {
        s
    };
    &&& d.len() > 0
    &&& crate::num::all_digits(d)
    &&& (if s.len() > 0 && s[0] == 45 {
        crate::num::dec_val(d) <= 0x8000000000000000
    } else {
        crate::num::dec_val(d) <= 0x7fffffffffffffff
    })
}

/// The value of a well-formed signed integer field.
pub open spec fn signed_val(s: Seq<u8>) -> int {
    let d = if s.len() > 0 && (s[0] == 43 || s[0] == 45) {
        s.drop_first()
    } else {
        s
    };
    if s.len() > 0 && s[0] == 45 {
        -(crate::num::dec_val(d) as int)
    } else {
        crate::num::dec_val(d) as int
    }
}

/// Strict signed reading: `None` unless the whole field is a signed decimal
/// integer in range.
pub fn parse_i64_strict(s: &[u8]) -> (r: Option<i64>)
    ensures
        r matches Some(v) ==> signed_ok(s@) && v as int == signed_val(s@),
        r is None ==> !signed_ok(s@),
{
    let (neg, off): (bool, usize) = if s.len() > 0 && (s[0] == 43 || s[0] == 45) {
        (s[0] == 45, 1)
    } else {
        (false, 0)
    };
    let d = vstd::slice::slice_subrange(s, off, s.len());
    proof {
        if off == 1 {
            assert(d@ =~= s@.drop_first());
        } else {
            assert(d@ =~= s@);
        }
    }
    match crate::num::parse_dec_u64(d) {
        Some(v) => {
            if neg {
                if v <= 9223372036854775807u64 {
                    Some(-(v as i64))
                } else if v == 9223372036854775808u64 {
                    Some(-9223372036854775807i64 - 1)
                } else {
                    None
                }
            } else {
                if v <= 9223372036854775807u64 {
                    Some(v as i64)
                } else {
                    None
                }
            }
        },
        None => None,
    }
}

/// The input splits on commas into exactly two pieces.
pub open spec fn age_pair_shape_ok(s: Seq<u8>) -> bool {
    let k = crate::query::first_comma(s);
    k < s.len() && crate::query::first_comma(s.skip(k + 1)) == s.len() - k - 1
}

/// The piece before the comma, trimmed.
pub open spec fn age_pair_first(s: Seq<u8>) -> Seq<u8> {
    crate::num::trim_spec(s.take(crate::query::first_comma(s)))
}

/// The piece after the comma, trimmed.
pub open spec fn age_pair_second(s: Seq<u8>) -> Seq<u8> {
    crate::num::trim_spec(s.skip(crate::query::first_comma(s) + 1))
}

/// Parse `YOUNG,OLD`: exactly two comma-separated pieces, each a trimmed
/// signed integer, positive and increasing; each failure is classified.
#[verifier::loop_isolation(false)]
pub fn parse_age_pair(s: &[u8]) -> (r: Result<(i64, i64), AgePairError>)
    ensures
        ({
            let nums_ok = signed_ok(age_pair_first(s@)) && signed_ok(age_pair_second(s@));
            let av = signed_val(age_pair_first(s@));
            let bv = signed_val(age_pair_second(s@));
            &&& (r is Ok <==> age_pair_shape_ok(s@) && nums_ok && 0 < av && 0 < bv && av < bv)
            &&& (r matches Ok(p) ==> p.0 == av && p.1 == bv)
            &&& (r matches Err(e) ==> (e is WrongCount <==> !age_pair_shape_ok(s@)))
            &&& (r matches Err(e) ==> (e is NotAnInteger <==> age_pair_shape_ok(s@) && !nums_ok))
            &&& (r matches Err(e) ==> (e is BadRange <==> age_pair_shape_ok(s@) && nums_ok && !(0
                < av && 0 < bv && av < bv)))
        }),
{
    let n = s.len();
    let mut comma: usize = 0;
    while comma < n && s[comma] != 44
        invariant
            0 <= comma <= n,
            n == s@.len(),
            forall|k: int| 0 <= k < comma ==> s@[k] != 44,
        decreases n - comma,
    {
        comma = comma + 1;
    }
    proof {
        crate::query::lemma_first_comma_props(s@);
        if crate::query::first_comma(s@) < comma {
            assert(s@[crate::query::first_comma(s@)] == 44);
            assert(false);
        }
        if comma < n && crate::query::first_comma(s@) > comma {
            assert(false);
        }
    }
    if comma == n {
        proof {
            assert(!age_pair_shape_ok(s@));
        }
        return Err(AgePairError::WrongCount);
    }
    let ghost rest = s@.skip(comma + 1);
    let mut second_comma: usize = comma + 1;
    while second_comma < n && s[second_comma] != 44
        invariant
            comma < second_comma <= n,
            n == s@.len(),
            forall|k: int| comma < k < second_comma ==> s@[k] != 44,
        decreases n - second_comma,
    {
        second_comma = second_comma + 1;
    }
    proof {
        crate::query::lemma_first_comma_props(rest);
        assert forall|k: int| 0 <= k < second_comma - comma - 1 implies rest[k] != 44 by {
            assert(rest[k] == s@[comma + 1 + k]);
        }
        if crate::query::first_comma(rest) < second_comma - comma - 1 {
            assert(rest[crate::query::first_comma(rest)] == 44);
            assert(false);
        }
        if second_comma < n {
            assert(rest[second_comma - comma - 1] == s@[second_comma as int]);
        }
    }
    if second_comma != n {
        proof {
            assert(crate::query::first_comma(rest) < rest.len());
            assert(!age_pair_shape_ok(s@));
        }
        return Err(AgePairError::WrongCount);
    }
    proof {
        assert(crate::query::first_comma(rest) == rest.len());
        assert(age_pair_shape_ok(s@));
    }
    let a_part = vstd::slice::slice_subrange(s, 0, comma);
    let b_part = vstd::slice::slice_subrange(s, comma + 1, n);
    proof {
        assert(a_part@ =~= s@.take(crate::query::first_comma(s@)));
        assert(b_part@ =~= s@.skip(crate::query::first_comma(s@) + 1));
    }
    let a = match parse_i64_strict(crate::num::trim_ascii(a_part)) {
        Some(v) => v,
        None => {
            return Err(AgePairError::NotAnInteger);
        },
    };
    let b = match parse_i64_strict(crate::num::trim_ascii(b_part)) {
        Some(v) => v,
        None => {
            return Err(AgePairError::NotAnInteger);
        },
    };
    if a <= 0 || b <= 0 || a >= b {
        return Err(AgePairError::BadRange);
    }
    Ok((a, b))
}

/// Accumulated usage for one (folder, owner, age) cell.
#[derive(Clone, Copy, Debug, PartialEq, Eq, Structural)]
pub struct UserStats {
    pub file_count: u64,
    pub file_size: u64,
    pub disk_size: u64,
    pub linked_size: u64,
    pub latest_atime: i64,
    pub latest_mtime: i64,
}

impl Default for UserStats {
    /// All counters zero.
    fn default() -> (r: Self)
        ensures
            r == UserStats::zero(),
    {
        UserStats {
            file_count: 0,
            file_size: 0,
            disk_size: 0,
            linked_size: 0,
            latest_atime: 0,
            latest_mtime: 0,
        }
    }
}

/// `a + b`, stuck at the top of `u64`.
pub open spec fn sat_add(a: u64, b: u64) -> u64 {
    if a + b > u64::MAX {
        u64::MAX
    } else {
        (a + b) as u64
    }
}

/// The larger of two times.
pub open spec fn max_i64(a: i64, b: i64) -> i64 {
    if a >= b {
        a
    } else {
        b
    }
}

impl UserStats {
    /// The empty cell.
    pub open spec fn zero() -> UserStats {
        UserStats {
            file_count: 0,
            file_size: 0,
            disk_size: 0,
            linked_size: 0,
            latest_atime: 0,
            latest_mtime: 0,
        }
    }

    /// The cell after accounting one file: counts and sizes saturate upward,
    /// times keep the maximum seen.
    pub open spec fn updated(self, size: u64, disk: u64, linked: u64, atime: i64, mtime: i64) -> UserStats {
        UserStats {
            file_count: sat_add(self.file_count, 1),
            file_size: sat_add(self.file_size, size),
            disk_size: sat_add(self.disk_size, disk),
            linked_size: sat_add(self.linked_size, linked),
            latest_atime: max_i64(self.latest_atime, atime),
            latest_mtime: max_i64(self.latest_mtime, mtime),
        }
    }

    /// Account one file into the cell.
    pub fn update(&mut self, size: u64, disk: u64, linked: u64, atime_secs: i64, mtime_secs: i64)
        ensures
            *final(self) == old(self).updated(size, disk, linked, atime_secs, mtime_secs),
    {
        self.file_count = self.file_count.saturating_add(1);
        self.file_size = self.file_size.saturating_add(size);
        self.disk_size = self.disk_size.saturating_add(disk);
        self.linked_size = self.linked_size.saturating_add(linked);
        if atime_secs > self.latest_atime {
            self.latest_atime = atime_secs;
        }
        if mtime_secs > self.latest_mtime {
            self.latest_mtime = mtime_secs;
        }
    }
}

/// Two accumulation steps commute: the cell after `u1` then `u2` equals the
/// cell after `u2` then `u1`, on every counter and both times.
pub proof fn lemma_update_commutes(
    s: UserStats,
    size1: u64,
    disk1: u64,
    linked1: u64,
    atime1: i64,
    mtime1: i64,
    size2: u64,
    disk2: u64,
    linked2: u64,
    atime2: i64,
    mtime2: i64,
)
    ensures
        s.updated(size1, disk1, linked1, atime1, mtime1).updated(
            size2,
            disk2,
            linked2,
            atime2,
            mtime2,
        ) == s.updated(size2, disk2, linked2, atime2, mtime2).updated(
            size1,
            disk1,
            linked1,
            atime1,
            mtime1,
        ),
{
}

/// A modification time more than one day in the future reads as unknown.
pub fn sanitize_mtime(now_ts: i64, mtime_ts: i64) -> (r: i64)
    requires
        now_ts <= i64::MAX - ONE_DAY_SECS,
    ensures
        r == (if mtime_ts > now_ts + ONE_DAY_SECS {
            0i64
        } else {
            mtime_ts
        }),
{
    if mtime_ts > now_ts + ONE_DAY_SECS {
        0
    } else {
        mtime_ts
    }
}

/// `now - mtime`, stuck at the ends of `i64`.
pub open spec fn sat_sub_i64(a: i64, b: i64) -> i64 {
    if a - b > i64::MAX {
        i64::MAX
    } else if a - b < i64::MIN {
        i64::MIN
    } else {
        (a - b) as i64
    }
}

/// Whole days in a signed span, rounded toward zero.
pub open spec fn days_of(age_secs: i64) -> int {
    if age_secs >= 0 {
        age_secs / ONE_DAY_SECS
    } else {
        -((-(age_secs as int)) / (ONE_DAY_SECS as int))
    }
}

/// The age bucket of a sanitized modification time: 0 below `young` days,
/// 1 below `old` days, 2 otherwise or for an unknown time.
pub open spec fn age_bucket_spec(now_ts: i64, mtime_ts: i64, cfg: AgeCfg) -> u8 {
    if mtime_ts <= 0 {
        2
    } else {
        let days = days_of(sat_sub_i64(now_ts, mtime_ts));
        if days < cfg.young {
            0
        } else if days < cfg.old {
            1
        } else {
            2
        }
    }
}

/// Classify a modification time into its age bucket.
pub fn age_bucket(now_ts: i64, mtime_ts: i64, cfg: AgeCfg) -> (r: u8)
    ensures
        r == age_bucket_spec(now_ts, mtime_ts, cfg),
{
    if mtime_ts <= 0 {
        return 2;
    }
    // saturating subtraction, in branches to stay inside i64
    let age_secs: i64 = if mtime_ts >= 0 {
        // now - mtime cannot overflow upward when mtime >= 0
        if now_ts >= 0 || now_ts >= i64::MIN + mtime_ts {
            now_ts - mtime_ts
        } else {
            i64::MIN
        }
    } else {
        i64::MAX
    };
    proof {
        assert(age_secs == sat_sub_i64(now_ts, mtime_ts));
    }
    let days: i64 = if age_secs >= 0 {
        age_secs / ONE_DAY_SECS
    } else {
        let mag: u64 = if age_secs == -9223372036854775807i64 - 1 {
            9223372036854775808u64
        } else {
            (-age_secs) as u64
        };
        -((mag / 86400u64) as i64)
    };
    proof {
        assert(days == days_of(age_secs));
    }
    if days < cfg.young {
        0
    } else if days < cfg.old {
        1
    } else {
        2
    }
}

} // verus!
