//! One metadata record and its CSV line form.
//!
//! A CSV line holds nine comma-separated fields, `INODE,ATIME,MTIME,UID,GID,
//! MODE,SIZE,DISK,PATH`, where `INODE` is `dev-ino` and `PATH` is smart-quoted
//! raw bytes.  Parsing works on bytes so that paths that are not valid UTF-8
//! survive unchanged.

use vstd::prelude::*;
use vstd::std_specs::cmp::PartialEqSpec;
use vstd::string::StringSliceAdditionalSpecFns;

use crate::num::{
    all_digits, dec_digits, dec_digits_i64, dec_val, is_digit, parse_dec_u64,
    lemma_dec_val_of_digits, lemma_dec_digits_all_digits,
};
use crate::quoting::{csv_push_bytes_smart_quoted, smart_quoted, needs_quoting, escape_quotes};
use crate::num::{push_i64, push_u32, push_u64};

verus! {

/// One row of the stat dump, as carried by both wire forms.
#[derive(Debug, Clone)]
pub struct BinaryRecord {
    pub path: Vec<u8>,
    pub dev: u64,
    pub ino: u64,
    pub atime: i64,
    pub mtime: i64,
    pub uid: u32,
    pub gid: u32,
    pub mode: u32,
    pub size: u64,
    pub disk: u64,
}

/// The mathematical content of a record: the raw path bytes and the nine
/// numeric fields.
pub struct RecView {
    pub path: Seq<u8>,
    pub dev: u64,
    pub ino: u64,
    pub atime: i64,
    pub mtime: i64,
    pub uid: u32,
    pub gid: u32,
    pub mode: u32,
    pub size: u64,
    pub disk: u64,
}

impl View for BinaryRecord {
    type V = RecView;

    open spec fn view(&self) -> RecView {
        RecView {
            path: self.path@,
            dev: self.dev,
            ino: self.ino,
            atime: self.atime,
            mtime: self.mtime,
            uid: self.uid,
            gid: self.gid,
            mode: self.mode,
            size: self.size,
            disk: self.disk,
        }
    }
}

impl BinaryRecord {
    /// Field-wise equality, the meaning of `==` on records.
    pub open spec fn same(self, o: BinaryRecord) -> bool {
        &&& self.path@ == o.path@
        &&& self.dev == o.dev
        &&& self.ino == o.ino
        &&& self.atime == o.atime
        &&& self.mtime == o.mtime
        &&& self.uid == o.uid
        &&& self.gid == o.gid
        &&& self.mode == o.mode
        &&& self.size == o.size
        &&& self.disk == o.disk
    }
}

impl PartialEq for BinaryRecord {
    fn eq(&self, o: &BinaryRecord) -> (r: bool) {
        let paths_eq: bool = self.path == o.path;
        proof {
            if paths_eq {
                assert(self.path@ =~= o.path@);
            } else if self.path@ == o.path@ {
                assert(self.path.eq_spec(&o.path));
                assert(false);
            }
        }
        paths_eq && self.dev == o.dev && self.ino == o.ino && self.atime == o.atime && self.mtime
            == o.mtime && self.uid == o.uid && self.gid == o.gid && self.mode == o.mode
            && self.size == o.size && self.disk == o.disk
    }
}

impl vstd::std_specs::cmp::PartialEqSpecImpl for BinaryRecord {
    open spec fn obeys_eq_spec() -> bool {
        true
    }

    open spec fn eq_spec(&self, o: &BinaryRecord) -> bool {
        self.same(*o)
    }
}

/// Why a CSV line does not carry a record.
#[derive(Debug, Clone, PartialEq, Eq, Structural)]
pub enum RecordError {
    /// The line does not split into exactly nine fields.
    WrongFieldCount,
    /// The INODE field holds no `-` between device and inode numbers.
    BadInode,
}

impl RecordError {
    /// A single-line description for reports.
    pub fn message(&self) -> (r: &'static str) {
        match self {
            RecordError::WrongFieldCount => "CSV record must have 9 fields",
            RecordError::BadInode => "Invalid INODE format, expected dev-ino",
        }
    }
}

/// CSV splitting as a state machine over the remaining bytes: `in_q` says
/// whether the scan stands inside a quoted run, `cur` holds the field read
/// so far.
pub open spec fn split_rec(s: Seq<u8>, in_q: bool, cur: Seq<u8>) -> Seq<Seq<u8>>
    decreases s.len(),
{
    if s.len() == 0 {
        seq![cur]
    } else {
        let b = s[0];
        if b == 34 && !in_q {
            split_rec(s.drop_first(), true, cur)
        } else if b == 34 && in_q {
            if s.len() > 1 && s[1] == 34 {
                split_rec(s.skip(2), true, cur.push(34))
            } else {
                split_rec(s.drop_first(), false, cur)
            }
        } else if b == 44 && !in_q {
            seq![cur] + split_rec(s.drop_first(), false, Seq::empty())
        } else {
            split_rec(s.drop_first(), in_q, cur.push(b))
        }
    }
}

/// The fields of one CSV line, quotes unwrapped and `""` unescaped.
pub open spec fn split_csv(s: Seq<u8>) -> Seq<Seq<u8>> {
    split_rec(s, false, Seq::empty())
}

/// The views of a vector of byte fields.
pub open spec fn field_views(fs: Seq<Vec<u8>>) -> Seq<Seq<u8>> {
    fs.map_values(|f: Vec<u8>| f@)
}

/// Split one CSV line into its fields, respecting `"` quoting and the `""`
/// escape.
#[verifier::loop_isolation(false)]
pub fn parse_csv_line_bytes(line: &[u8]) -> (r: Vec<Vec<u8>>)
    ensures
        field_views(r@) == split_csv(line@),
        r@.len() >= 1,
{
    let mut fields: Vec<Vec<u8>> = Vec::new();
    let mut cur: Vec<u8> = Vec::new();
    let mut in_q = false;
    let mut i: usize = 0;
    let n = line.len();
    proof {
        assert(line@.skip(0) =~= line@);
        assert(field_views(fields@) =~= Seq::<Seq<u8>>::empty());
        assert(Seq::<Seq<u8>>::empty() + split_rec(line@, false, cur@) =~= split_rec(
            line@,
            false,
            cur@,
        ));
    }
    while i < n
        invariant
            0 <= i <= n,
            n == line@.len(),
            split_csv(line@) == field_views(fields@) + split_rec(
                line@.skip(i as int),
                in_q,
                cur@,
            ),
        decreases n - i,
    {
        let b = line[i];
        let ghost rest = line@.skip(i as int);
        proof {
            assert(rest[0] == line@[i as int]);
            assert(rest.drop_first() =~= line@.skip(i + 1));
        }
        if b == 34 && !in_q {
            in_q = true;
            i = i + 1;
        } else if b == 34 && in_q {
            if i + 1 < n && line[i + 1] == 34 {
                proof {
                    assert(rest[1] == line@[i as int + 1]);
                    assert(rest.skip(2) =~= line@.skip(i + 2));
                }
                cur.push(34);
                i = i + 2;
            } else {
                proof {
                    if i + 1 < n {
                        assert(rest[1] == line@[i as int + 1]);
                    }
                }
                in_q = false;
                i = i + 1;
            }
        } else if b == 44 && !in_q {
            let done = cur;
            cur = Vec::new();
            fields.push(done);
            i = i + 1;
            proof {
                assert(field_views(fields@) =~= field_views(fields@.drop_last()) + seq![
                    fields@.last()@,
                ]);
                assert(field_views(fields@.drop_last()) + (seq![fields@.last()@] + split_rec(
                    line@.skip(i as int),
                    false,
                    Seq::empty(),
                )) =~= field_views(fields@) + split_rec(line@.skip(i as int), false, Seq::empty()));
            }
        } else {
            cur.push(b);
            i = i + 1;
        }
    }
    proof {
        assert(line@.skip(n as int) =~= Seq::<u8>::empty());
    }
    fields.push(cur);
    proof {
        assert(field_views(fields@) =~= field_views(fields@.drop_last()) + seq![fields@.last()@]);
    }
    fields
}

/// Index of the first `-` in the field, or its length when none occurs.
pub open spec fn first_dash(s: Seq<u8>) -> int
    decreases s.len(),
{
    if s.len() == 0 {
        0
    } else if s[0] == 45 {
        0
    } else {
        1 + first_dash(s.drop_first())
    }
}

pub proof fn lemma_first_dash_props(s: Seq<u8>)
    ensures
        0 <= first_dash(s) <= s.len(),
        first_dash(s) < s.len() ==> s[first_dash(s)] == 45,
        forall|k: int| 0 <= k < first_dash(s) ==> s[k] != 45,
    decreases s.len(),
{
    if s.len() > 0 && s[0] != 45 {
        let t = s.drop_first();
        lemma_first_dash_props(t);
        assert forall|k: int| 0 <= k < first_dash(s) implies s[k] != 45 by {
            if k > 0 {
                assert(s[k] == t[k - 1]);
            }
        }
    }
}

/// A scan that stopped at the first dash found `first_dash`.
pub proof fn lemma_first_dash_end(s: Seq<u8>, n: int)
    requires
        0 <= n <= s.len(),
        forall|k: int| 0 <= k < n ==> s[k] != 45,
        n == s.len() || s[n] == 45,
    ensures
        n == first_dash(s),
    decreases s.len(),
{
    if s.len() == 0 {
    } else if n == 0 {
    } else {
        let t = s.drop_first();
        assert forall|k: int| 0 <= k < n - 1 implies t[k] != 45 by {
            assert(t[k] == s[k + 1]);
        }
        if n < s.len() {
            assert(s[n] == t[n - 1]);
        }
        lemma_first_dash_end(t, n - 1);
    }
}

/// Strict unsigned reading of a numeric field, zero on any failure.
pub open spec fn field_u64(s: Seq<u8>) -> u64 {
    if s.len() > 0 && all_digits(s) && dec_val(s) <= u64::MAX {
        dec_val(s) as u64
    } else {
        0
    }
}

pub open spec fn field_u32(s: Seq<u8>) -> u32 {
    if s.len() > 0 && all_digits(s) && dec_val(s) <= u32::MAX {
        dec_val(s) as u32
    } else {
        0
    }
}

/// Strict signed reading with one optional sign, zero on any failure.
pub open spec fn field_i64(s: Seq<u8>) -> i64 {
    let neg = s.len() > 0 && s[0] == 45;
    let d = if s.len() > 0 && (s[0] == 43 || s[0] == 45) {
        s.drop_first()
    } else {
        s
    };
    if d.len() > 0 && all_digits(d) {
        if neg {
            if dec_val(d) <= 0x8000000000000000 {
                (-(dec_val(d) as int)) as i64
            } else {
                0
            }
        } else {
            if dec_val(d) <= 0x7fffffffffffffff {
                dec_val(d) as i64
            } else {
                0
            }
        }
    } else {
        0
    }
}

/// Read an unsigned numeric field; corrupt fields read as zero.
pub fn parse_field_u64(s: &[u8]) -> (r: u64)
    ensures
        r == field_u64(s@),
{
    match parse_dec_u64(s) {
        Some(v) => v,
        None => 0,
    }
}

/// Read a 32-bit unsigned numeric field; corrupt fields read as zero.
pub fn parse_field_u32(s: &[u8]) -> (r: u32)
    ensures
        r == field_u32(s@),
{
    match parse_dec_u64(s) {
        Some(v) => {
            if v <= u32::MAX as u64 {
                v as u32
            } else {
                0
            }
        },
        None => 0,
    }
}

/// Read a signed numeric field; corrupt fields read as zero.
pub fn parse_field_i64(s: &[u8]) -> (r: i64)
    ensures
        r == field_i64(s@),
{
    let (neg, off): (bool, usize) = if s.len() > 0 && (s[0] == 43 || s[0] == 45) {
        (s[0] == 45, 1)
    } else {
        (false, 0)
    };
    let d = vstd::slice::slice_subrange(s, off, s.len());
    proof {
        if off == 1 {
            assert(d@ =~= s@.drop_first());
        } else {
            assert(d@ =~= s@);
        }
    }
    match parse_dec_u64(d) {
        Some(v) => {
            if neg {
                if v <= 9223372036854775807u64 {
                    -(v as i64)
                } else if v == 9223372036854775808u64 {
                    -9223372036854775807i64 - 1
                } else {
                    0
                }
            } else {
                if v <= 9223372036854775807u64 {
                    v as i64
                } else {
                    0
                }
            }
        },
        None => 0,
    }
}

/// Device number read from the INODE field: the digits before the first `-`.
pub open spec fn inode_dev(f: Seq<u8>) -> u64 {
    field_u64(f.take(first_dash(f)))
}

/// Inode number read from the INODE field: everything after the first `-`.
pub open spec fn inode_ino(f: Seq<u8>) -> u64 {
    field_u64(f.skip(first_dash(f) + 1))
}

/// Parse one CSV line (without its terminator) into a record.
///
/// Numeric fields read as zero when corrupt; only two failures are
/// structural: a field count other than nine, and an INODE without `-`.
#[verifier::loop_isolation(false)]
pub fn parse_csv_record_bytes(line: &[u8]) -> (r: Result<BinaryRecord, RecordError>)
    ensures
        r is Ok <==> split_csv(line@).len() == 9 && first_dash(split_csv(line@)[0]) < split_csv(
            line@,
        )[0].len(),
        r matches Ok(rec) ==> ({
            let fs = split_csv(line@);
            &&& rec.dev == inode_dev(fs[0])
            &&& rec.ino == inode_ino(fs[0])
            &&& rec.atime == field_i64(fs[1])
            &&& rec.mtime == field_i64(fs[2])
            &&& rec.uid == field_u32(fs[3])
            &&& rec.gid == field_u32(fs[4])
            &&& rec.mode == field_u32(fs[5])
            &&& rec.size == field_u64(fs[6])
            &&& rec.disk == field_u64(fs[7])
            &&& rec.path@ == fs[8]
        }),
        r matches Err(e) ==> ({
            let fs = split_csv(line@);
            &&& (e is WrongFieldCount <==> fs.len() != 9)
            &&& (e is BadInode ==> fs.len() == 9 && first_dash(fs[0]) == fs[0].len())
        }),
{
    let fields = parse_csv_line_bytes(line);
    let ghost fs = split_csv(line@);
    if fields.len() != 9 {
        return Err(RecordError::WrongFieldCount);
    }
    let inode = &fields[0];
    proof {
        assert(fs[0] == inode@);
    }
    let mut dash: usize = 0;
    let ilen = inode.len();
    while dash < ilen && inode[dash] != 45
        invariant
            0 <= dash <= ilen,
            ilen == inode@.len(),
            forall|k: int| 0 <= k < dash ==> inode@[k] != 45,
        decreases ilen - dash,
    {
        dash = dash + 1;
    }
    proof {
        lemma_first_dash_end(inode@, dash as int);
    }
    if dash == ilen {
        return Err(RecordError::BadInode);
    }
    let dev_part = vstd::slice::slice_subrange(inode.as_slice(), 0, dash);
    let ino_part = vstd::slice::slice_subrange(inode.as_slice(), dash + 1, ilen);
    proof {
        assert(dev_part@ =~= inode@.take(first_dash(inode@)));
        assert(ino_part@ =~= inode@.skip(first_dash(inode@) + 1));
        assert(fs[1] == fields@[1]@);
        assert(fs[2] == fields@[2]@);
        assert(fs[3] == fields@[3]@);
        assert(fs[4] == fields@[4]@);
        assert(fs[5] == fields@[5]@);
        assert(fs[6] == fields@[6]@);
        assert(fs[7] == fields@[7]@);
        assert(fs[8] == fields@[8]@);
    }
    let dev = parse_field_u64(dev_part);
    let ino = parse_field_u64(ino_part);
    let atime = parse_field_i64(fields[1].as_slice());
    let mtime = parse_field_i64(fields[2].as_slice());
    let uid = parse_field_u32(fields[3].as_slice());
    let gid = parse_field_u32(fields[4].as_slice());
    let mode = parse_field_u32(fields[5].as_slice());
    let size = parse_field_u64(fields[6].as_slice());
    let disk = parse_field_u64(fields[7].as_slice());
    let mut fields = fields;
    let path = fields.pop().unwrap();
    Ok(BinaryRecord { path, dev, ino, atime, mtime, uid, gid, mode, size, disk })
}

/// The CSV line of a record, without a terminator.
pub open spec fn csv_line_of(rec: RecView) -> Seq<u8> {
    dec_digits(rec.dev as nat) + seq![45u8] + dec_digits(rec.ino as nat) + seq![44u8]
        + dec_digits_i64(rec.atime) + seq![44u8] + dec_digits_i64(rec.mtime) + seq![44u8]
        + dec_digits(rec.uid as nat) + seq![44u8] + dec_digits(rec.gid as nat) + seq![44u8]
        + dec_digits(rec.mode as nat) + seq![44u8] + dec_digits(rec.size as nat) + seq![44u8]
        + dec_digits(rec.disk as nat) + seq![44u8] + smart_quoted(rec.path)
}

/// Format a record as its CSV line (without terminator), byte-exact.
pub fn format_csv_record(rec: &BinaryRecord) -> (r: Vec<u8>)
    ensures
        r@ == csv_line_of(rec@),
{
    let mut out: Vec<u8> = Vec::new();
    push_u64(&mut out, rec.dev);
    out.push(45);
    push_u64(&mut out, rec.ino);
    out.push(44);
    push_i64(&mut out, rec.atime);
    out.push(44);
    push_i64(&mut out, rec.mtime);
    out.push(44);
    push_u32(&mut out, rec.uid);
    out.push(44);
    push_u32(&mut out, rec.gid);
    out.push(44);
    push_u32(&mut out, rec.mode);
    out.push(44);
    push_u64(&mut out, rec.size);
    out.push(44);
    push_u64(&mut out, rec.disk);
    out.push(44);
    csv_push_bytes_smart_quoted(&mut out, rec.path.as_slice());
    proof {
        assert(out@ =~= csv_line_of(rec@));
    }
    out
}

/// A field that needs no quoting when written and contains no comma.
pub open spec fn field_clean(f: Seq<u8>) -> bool {
    forall|i: int| 0 <= i < f.len() ==> (#[trigger] f[i]) != 34 && f[i] != 44
}

/// A clean field at the end of the line is read back unchanged.
proof fn lemma_split_clean_last(f: Seq<u8>, cur: Seq<u8>)
    requires
        field_clean(f),
    ensures
        split_rec(f, false, cur) == seq![cur + f],
    decreases f.len(),
{
    if f.len() == 0 {
        assert(cur + f =~= cur);
        assert(seq![cur + f] =~= seq![cur]);
    } else {
        let b = f[0];
        let t = f.drop_first();
        assert forall|i: int| 0 <= i < t.len() implies (#[trigger] t[i]) != 34 && t[i] != 44 by {
            assert(t[i] == f[i + 1]);
        }
        lemma_split_clean_last(t, cur.push(b));
        assert(cur.push(b) + t =~= cur + f);
    }
}

/// A clean field before a comma is read back unchanged, and splitting goes on
/// behind the comma.
proof fn lemma_split_clean_field(f: Seq<u8>, rest: Seq<u8>, cur: Seq<u8>)
    requires
        field_clean(f),
    ensures
        split_rec(f + seq![44u8] + rest, false, cur) == seq![cur + f] + split_rec(
            rest,
            false,
            Seq::empty(),
        ),
    decreases f.len(),
{
    let s = f + seq![44u8] + rest;
    if f.len() == 0 {
        assert(s[0] == 44);
        assert(s.drop_first() =~= rest);
        assert(cur + f =~= cur);
        assert(seq![cur + f] =~= seq![cur]);
    } else {
        let b = f[0];
        assert(s[0] == b);
        let t = f.drop_first();
        assert forall|i: int| 0 <= i < t.len() implies (#[trigger] t[i]) != 34 && t[i] != 44 by {
            assert(t[i] == f[i + 1]);
        }
        assert(s.drop_first() =~= t + seq![44u8] + rest);
        lemma_split_clean_field(t, rest, cur.push(b));
        assert(cur.push(b) + t =~= cur + f);
    }
}

/// Escaping commutes with taking off the first byte.
proof fn lemma_escape_front(b: u8, t: Seq<u8>)
    ensures
        escape_quotes(seq![b] + t) == (if b == 34 {
            seq![34u8, 34u8]
        } else {
            seq![b]
        }) + escape_quotes(t),
    decreases t.len(),
{
    let s = seq![b] + t;
    let eb: Seq<u8> = if b == 34 {
        seq![34u8, 34u8]
    } else {
        seq![b]
    };
    if t.len() == 0 {
        assert(s.drop_last() =~= Seq::<u8>::empty());
        assert(s.last() == b);
        assert(escape_quotes(Seq::<u8>::empty()) == Seq::<u8>::empty());
        assert(escape_quotes(s) == escape_quotes(s.drop_last()) + eb);
        assert(Seq::<u8>::empty() + eb =~= eb);
        assert(eb + escape_quotes(t) =~= eb);
    } else {
        assert(s.drop_last() =~= seq![b] + t.drop_last());
        assert(s.last() == t.last());
        lemma_escape_front(b, t.drop_last());
        let et: Seq<u8> = if t.last() == 34 {
            seq![34u8, 34u8]
        } else {
            seq![t.last()]
        };
        assert(escape_quotes(s) == escape_quotes(seq![b] + t.drop_last()) + et);
        assert(eb + escape_quotes(t.drop_last()) + et =~= eb + (escape_quotes(t.drop_last())
            + et));
        assert(escape_quotes(t) == escape_quotes(t.drop_last()) + et);
    }
}

/// Inside quotes, an escaped run followed by the closing quote is read back
/// as the raw bytes.
proof fn lemma_split_quoted_tail(p: Seq<u8>, cur: Seq<u8>)
    ensures
        split_rec(escape_quotes(p) + seq![34u8], true, cur) == seq![cur + p],
    decreases p.len(),
{
    let s = escape_quotes(p) + seq![34u8];
    if p.len() == 0 {
        assert(s =~= seq![34u8]);
        assert(s.len() == 1);
        assert(s[0] == 34);
        assert(split_rec(s, true, cur) == split_rec(s.drop_first(), false, cur));
        assert(s.drop_first() =~= Seq::<u8>::empty());
        assert(split_rec(Seq::<u8>::empty(), false, cur) == seq![cur]);
        assert(cur + p =~= cur);
        assert(seq![cur + p] =~= seq![cur]);
    } else {
        let b = p[0];
        let t = p.drop_first();
        assert(p =~= seq![b] + t);
        lemma_escape_front(b, t);
        if b == 34 {
            assert(s =~= seq![34u8, 34u8] + (escape_quotes(t) + seq![34u8]));
            assert(s[0] == 34);
            assert(s[1] == 34);
            assert(s.len() > 1);
            assert(s.skip(2) =~= escape_quotes(t) + seq![34u8]);
            lemma_split_quoted_tail(t, cur.push(34));
            assert(cur.push(34) + t =~= cur + p);
        } else {
            assert(s =~= seq![b] + (escape_quotes(t) + seq![34u8]));
            assert(s[0] == b);
            assert(s.drop_first() =~= escape_quotes(t) + seq![34u8]);
            lemma_split_quoted_tail(t, cur.push(b));
            assert(cur.push(b) + t =~= cur + p);
        }
    }
}

/// A smart-quoted path standing as the last field is read back byte-exact.
proof fn lemma_split_smart_quoted(p: Seq<u8>)
    ensures
        split_rec(smart_quoted(p), false, Seq::empty()) == seq![p],
{
    if needs_quoting(p) {
        let s = seq![34u8] + escape_quotes(p) + seq![34u8];
        assert(smart_quoted(p) =~= s);
        assert(s[0] == 34);
        assert(s.drop_first() =~= escape_quotes(p) + seq![34u8]);
        lemma_split_quoted_tail(p, Seq::empty());
        assert(Seq::<u8>::empty() + p =~= p);
    } else {
        assert forall|i: int| 0 <= i < p.len() implies (#[trigger] p[i]) != 34 && p[i] != 44 by {
            assert(!crate::quoting::is_special(p[i]));
        }
        lemma_split_clean_last(p, Seq::empty());
        assert(Seq::<u8>::empty() + p =~= p);
    }
}

/// All bytes of a formatted unsigned number are digits, so never special.
proof fn lemma_digits_clean(v: nat)
    ensures
        field_clean(dec_digits(v)),
        all_digits(dec_digits(v)),
        dec_digits(v).len() >= 1,
{
    lemma_dec_digits_all_digits(v);
}

/// The formatted signed number holds only digits and possibly a leading `-`.
proof fn lemma_digits_i64_clean(v: i64)
    ensures
        field_clean(dec_digits_i64(v)),
        dec_digits_i64(v).len() >= 1,
{
    if v >= 0 {
        lemma_digits_clean(v as nat);
    } else {
        let m = (-(v as int)) as nat;
        lemma_digits_clean(m);
        let s = dec_digits_i64(v);
        assert forall|i: int| 0 <= i < s.len() implies (#[trigger] s[i]) != 34 && s[i] != 44 by {
            if i > 0 {
                assert(s[i] == dec_digits(m)[i - 1]);
            }
        }
    }
}

/// A signed numeric field is read back to the value it was formatted from.
proof fn lemma_field_i64_round(v: i64)
    ensures
        field_i64(dec_digits_i64(v)) == v,
{
    if v >= 0 {
        let s = dec_digits(v as nat);
        lemma_digits_clean(v as nat);
        assert(is_digit(s[0]));
        lemma_dec_val_of_digits(v as nat);
    } else {
        let m = (-(v as int)) as nat;
        let s = dec_digits_i64(v);
        assert(s[0] == 45);
        assert(s.drop_first() =~= dec_digits(m));
        lemma_digits_clean(m);
        lemma_dec_val_of_digits(m);
    }
}

/// Parsing a formatted record's CSV line recovers every field exactly: the
/// codec round-trips byte-for-byte, non-UTF-8 paths included.
#[verifier::rlimit(100)]
pub proof fn lemma_csv_round_trip(rec: RecView)
    ensures
        ({
            let fs = split_csv(csv_line_of(rec));
            &&& fs.len() == 9
            &&& first_dash(fs[0]) < fs[0].len()
            &&& inode_dev(fs[0]) == rec.dev
            &&& inode_ino(fs[0]) == rec.ino
            &&& field_i64(fs[1]) == rec.atime
            &&& field_i64(fs[2]) == rec.mtime
            &&& field_u32(fs[3]) == rec.uid
            &&& field_u32(fs[4]) == rec.gid
            &&& field_u32(fs[5]) == rec.mode
            &&& field_u64(fs[6]) == rec.size
            &&& field_u64(fs[7]) == rec.disk
            &&& fs[8] == rec.path
        }),
{
    let f0 = dec_digits(rec.dev as nat) + seq![45u8] + dec_digits(rec.ino as nat);
    let f1 = dec_digits_i64(rec.atime);
    let f2 = dec_digits_i64(rec.mtime);
    let f3 = dec_digits(rec.uid as nat);
    let f4 = dec_digits(rec.gid as nat);
    let f5 = dec_digits(rec.mode as nat);
    let f6 = dec_digits(rec.size as nat);
    let f7 = dec_digits(rec.disk as nat);
    let fp = smart_quoted(rec.path);
    lemma_digits_clean(rec.dev as nat);
    lemma_digits_clean(rec.ino as nat);
    lemma_digits_i64_clean(rec.atime);
    lemma_digits_i64_clean(rec.mtime);
    lemma_digits_clean(rec.uid as nat);
    lemma_digits_clean(rec.gid as nat);
    lemma_digits_clean(rec.mode as nat);
    lemma_digits_clean(rec.size as nat);
    lemma_digits_clean(rec.disk as nat);
    assert forall|i: int| 0 <= i < f0.len() implies (#[trigger] f0[i]) != 34 && f0[i] != 44 by {
        let dl = dec_digits(rec.dev as nat).len() as int;
        if i < dl {
            assert(f0[i] == dec_digits(rec.dev as nat)[i]);
        } else if i == dl {
            assert(f0[i] == 45);
        } else {
            assert(f0[i] == dec_digits(rec.ino as nat)[i - dl - 1]);
        }
    }
    let line = csv_line_of(rec);
    let rest1 = f1 + seq![44u8] + (f2 + seq![44u8] + (f3 + seq![44u8] + (f4 + seq![44u8] + (f5
        + seq![44u8] + (f6 + seq![44u8] + (f7 + seq![44u8] + fp))))));
    assert(line =~= f0 + seq![44u8] + rest1);
    lemma_split_clean_field(f0, rest1, Seq::empty());
    let rest2 = f2 + seq![44u8] + (f3 + seq![44u8] + (f4 + seq![44u8] + (f5 + seq![44u8] + (f6
        + seq![44u8] + (f7 + seq![44u8] + fp)))));
    assert(rest1 =~= f1 + seq![44u8] + rest2);
    lemma_split_clean_field(f1, rest2, Seq::empty());
    let rest3 = f3 + seq![44u8] + (f4 + seq![44u8] + (f5 + seq![44u8] + (f6 + seq![44u8] + (f7
        + seq![44u8] + fp))));
    assert(rest2 =~= f2 + seq![44u8] + rest3);
    lemma_split_clean_field(f2, rest3, Seq::empty());
    let rest4 = f4 + seq![44u8] + (f5 + seq![44u8] + (f6 + seq![44u8] + (f7 + seq![44u8] + fp)));
    assert(rest3 =~= f3 + seq![44u8] + rest4);
    lemma_split_clean_field(f3, rest4, Seq::empty());
    let rest5 = f5 + seq![44u8] + (f6 + seq![44u8] + (f7 + seq![44u8] + fp));
    assert(rest4 =~= f4 + seq![44u8] + rest5);
    lemma_split_clean_field(f4, rest5, Seq::empty());
    let rest6 = f6 + seq![44u8] + (f7 + seq![44u8] + fp);
    assert(rest5 =~= f5 + seq![44u8] + rest6);
    lemma_split_clean_field(f5, rest6, Seq::empty());
    let rest7 = f7 + seq![44u8] + fp;
    assert(rest6 =~= f6 + seq![44u8] + rest7);
    lemma_split_clean_field(f6, rest7, Seq::empty());
    assert(rest7 =~= f7 + seq![44u8] + fp);
    lemma_split_clean_field(f7, fp, Seq::empty());
    lemma_split_smart_quoted(rec.path);
    let fs = split_csv(line);
    assert(fs =~= seq![
        Seq::<u8>::empty() + f0,
        Seq::<u8>::empty() + f1,
        Seq::<u8>::empty() + f2,
        Seq::<u8>::empty() + f3,
        Seq::<u8>::empty() + f4,
        Seq::<u8>::empty() + f5,
        Seq::<u8>::empty() + f6,
        Seq::<u8>::empty() + f7,
        rec.path,
    ]);
    assert(fs[0] =~= f0);
    assert(fs[1] =~= f1);
    assert(fs[2] =~= f2);
    assert(fs[3] =~= f3);
    assert(fs[4] =~= f4);
    assert(fs[5] =~= f5);
    assert(fs[6] =~= f6);
    assert(fs[7] =~= f7);
    // INODE: the digits of dev hold no dash, so the first dash is theirs
    let dl = dec_digits(rec.dev as nat).len() as int;
    assert forall|k: int| 0 <= k < dl implies f0[k] != 45 by {
        assert(f0[k] == dec_digits(rec.dev as nat)[k]);
        assert(is_digit(dec_digits(rec.dev as nat)[k]));
    }
    assert(f0[dl] == 45);
    lemma_first_dash_end(f0, dl);
    assert(f0.take(dl) =~= dec_digits(rec.dev as nat));
    assert(f0.skip(dl + 1) =~= dec_digits(rec.ino as nat));
    lemma_dec_val_of_digits(rec.dev as nat);
    lemma_dec_val_of_digits(rec.ino as nat);
    lemma_field_i64_round(rec.atime);
    lemma_field_i64_round(rec.mtime);
    lemma_dec_val_of_digits(rec.uid as nat);
    lemma_dec_val_of_digits(rec.gid as nat);
    lemma_dec_val_of_digits(rec.mode as nat);
    lemma_dec_val_of_digits(rec.size as nat);
    lemma_dec_val_of_digits(rec.disk as nat);
}

/// Parse one CSV line given as text.
pub fn parse_csv_record(line: &str) -> (r: Result<BinaryRecord, RecordError>)
    ensures
        r is Ok <==> split_csv(line.spec_bytes()).len() == 9 && first_dash(
            split_csv(line.spec_bytes())[0],
        ) < split_csv(line.spec_bytes())[0].len(),
        r matches Ok(rec) ==> ({
            let fs = split_csv(line.spec_bytes());
            &&& rec.dev == inode_dev(fs[0])
            &&& rec.ino == inode_ino(fs[0])
            &&& rec.atime == field_i64(fs[1])
            &&& rec.mtime == field_i64(fs[2])
            &&& rec.uid == field_u32(fs[3])
            &&& rec.gid == field_u32(fs[4])
            &&& rec.mode == field_u32(fs[5])
            &&& rec.size == field_u64(fs[6])
            &&& rec.disk == field_u64(fs[7])
            &&& rec.path@ == fs[8]
        }),
{
    parse_csv_record_bytes(line.as_bytes())
}

/// The fields of one CSV line given as text, each shown lossily.
#[verifier::loop_isolation(false)]
pub fn parse_csv_line(line: &str) -> (r: Vec<String>)
    ensures
        r@.len() == split_csv(line.spec_bytes()).len(),
        forall|i: int|
            0 <= i < r@.len() ==> (#[trigger] r@[i])@ == crate::aggregate::lossy_of(
                split_csv(line.spec_bytes())[i],
            ),
{
    let fields = parse_csv_line_bytes(line.as_bytes());
    let mut out: Vec<String> = Vec::new();
    let n = fields.len();
    let mut i: usize = 0;
    while i < n
        invariant
            0 <= i <= n,
            n == fields@.len(),
            field_views(fields@) == split_csv(line.spec_bytes()),
            out@.len() == i,
            forall|k: int|
                0 <= k < i ==> (#[trigger] out@[k])@ == crate::aggregate::lossy_of(
                    split_csv(line.spec_bytes())[k],
                ),
        decreases n - i,
    {
        let s = crate::aggregate::bytes_to_safe_string(fields[i].as_slice());
        out.push(s);
        i = i + 1;
    }
    out
}

} // verus!
