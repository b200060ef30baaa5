//! The length-prefixed binary form of records and the stream codec.
//!
//! One record is laid out little-endian as `u32 path_len; path bytes;
//! u64 dev; u64 ino; i64 atime; i64 mtime; u32 uid; u32 gid; u32 mode;
//! u64 size; u64 disk`.  A stream is the records one after another with no
//! separators.

use vstd::prelude::*;
use vstd::bytes::{
    spec_u32_from_le_bytes, spec_u32_to_le_bytes, spec_u64_from_le_bytes, spec_u64_to_le_bytes,
    lemma_auto_spec_u32_to_from_le_bytes, lemma_auto_spec_u64_to_from_le_bytes, u32_from_le_bytes,
    u32_to_le_bytes, u64_from_le_bytes, u64_to_le_bytes,
};
use vstd::slice::{slice_subrange, slice_to_vec};

use crate::quoting::push_all;
use crate::record::{BinaryRecord, RecView};

verus! {

/// Little-endian form of a signed time value, two's complement.
pub open spec fn le_i64(x: i64) -> Seq<u8> {
    spec_u64_to_le_bytes(x as u64)
}

/// The wire bytes of one record.
pub open spec fn bin_bytes_of(v: RecView) -> Seq<u8> {
    spec_u32_to_le_bytes(v.path.len() as u32) + v.path + spec_u64_to_le_bytes(v.dev)
        + spec_u64_to_le_bytes(v.ino) + le_i64(v.atime) + le_i64(v.mtime) + spec_u32_to_le_bytes(
        v.uid,
    ) + spec_u32_to_le_bytes(v.gid) + spec_u32_to_le_bytes(v.mode) + spec_u64_to_le_bytes(v.size)
        + spec_u64_to_le_bytes(v.disk)
}

/// The wire bytes of a whole stream, order preserved.
pub open spec fn bin_stream_of(vs: Seq<RecView>) -> Seq<u8>
    decreases vs.len(),
{
    if vs.len() == 0 {
        Seq::empty()
    } else {
        bin_bytes_of(vs[0]) + bin_stream_of(vs.drop_first())
    }
}

/// Path length announced by the record standing at the head of `data`.
pub open spec fn bin_head_plen(data: Seq<u8>) -> int {
    spec_u32_from_le_bytes(data.subrange(0, 4)) as int
}

/// The record standing at the head of `data`, assuming enough bytes.
pub open spec fn bin_head_view(data: Seq<u8>) -> RecView {
    let base = 4 + bin_head_plen(data);
    RecView {
        path: data.subrange(4, base),
        dev: spec_u64_from_le_bytes(data.subrange(base, base + 8)),
        ino: spec_u64_from_le_bytes(data.subrange(base + 8, base + 16)),
        atime: spec_u64_from_le_bytes(data.subrange(base + 16, base + 24)) as i64,
        mtime: spec_u64_from_le_bytes(data.subrange(base + 24, base + 32)) as i64,
        uid: spec_u32_from_le_bytes(data.subrange(base + 32, base + 36)),
        gid: spec_u32_from_le_bytes(data.subrange(base + 36, base + 40)),
        mode: spec_u32_from_le_bytes(data.subrange(base + 40, base + 44)),
        size: spec_u64_from_le_bytes(data.subrange(base + 44, base + 52)),
        disk: spec_u64_from_le_bytes(data.subrange(base + 52, base + 60)),
    }
}

/// Whether `data` opens with one complete record.
pub open spec fn bin_head_fits(data: Seq<u8>) -> bool {
    data.len() >= 4 && data.len() >= 4 + bin_head_plen(data) + 60
}

/// The records read from `data` front to back; `None` on trailing garbage
/// or a truncated record.
pub open spec fn bin_decode_spec(data: Seq<u8>) -> Option<Seq<RecView>>
    decreases data.len(),
{
    if data.len() == 0 {
        Some(Seq::empty())
    } else if !bin_head_fits(data) {
        None
    } else {
        let v = bin_head_view(data);
        let rest = bin_decode_spec(data.skip(4 + bin_head_plen(data) + 60));
        match rest {
            None => None,
            Some(tail) => Some(seq![v] + tail),
        }
    }
}

/// The views of a vector of records.
pub open spec fn rec_views(rs: Seq<BinaryRecord>) -> Seq<RecView> {
    rs.map_values(|r: BinaryRecord| r@)
}

/// Reading a binary stream can fail only by running out of bytes.
#[derive(Debug, Clone, PartialEq, Eq, Structural)]
pub enum BinError {
    /// The bytes end inside a record.
    Truncated,
}

/// Append the wire bytes of one record to `out`.
pub fn write_binary_record(out: &mut Vec<u8>, rec: &BinaryRecord)
    requires
        rec.path@.len() <= u32::MAX,
    ensures
        final(out)@ == old(out)@ + bin_bytes_of(rec@),
{
    let plen = u32_to_le_bytes(rec.path.len() as u32);
    push_all(out, plen.as_slice());
    push_all(out, rec.path.as_slice());
    let dev = u64_to_le_bytes(rec.dev);
    push_all(out, dev.as_slice());
    let ino = u64_to_le_bytes(rec.ino);
    push_all(out, ino.as_slice());
    let atime = u64_to_le_bytes(rec.atime as u64);
    push_all(out, atime.as_slice());
    let mtime = u64_to_le_bytes(rec.mtime as u64);
    push_all(out, mtime.as_slice());
    let uid = u32_to_le_bytes(rec.uid);
    push_all(out, uid.as_slice());
    let gid = u32_to_le_bytes(rec.gid);
    push_all(out, gid.as_slice());
    let mode = u32_to_le_bytes(rec.mode);
    push_all(out, mode.as_slice());
    let size = u64_to_le_bytes(rec.size);
    push_all(out, size.as_slice());
    let disk = u64_to_le_bytes(rec.disk);
    push_all(out, disk.as_slice());
    proof {
        assert(out@ =~= old(out)@ + bin_bytes_of(rec@));
    }
}

/// Read one record beginning at `*pos`, or `None` cleanly at the end.
#[verifier::loop_isolation(false)]
pub fn read_binary_record(data: &[u8], pos: &mut usize) -> (r: Result<
    Option<BinaryRecord>,
    BinError,
>)
    requires
        *old(pos) <= data@.len(),
    ensures
        ({
            let rem = data@.skip(*old(pos) as int);
            match r {
                Ok(None) => rem.len() == 0 && *final(pos) == *old(pos),
                Ok(Some(rec)) => {
                    &&& bin_head_fits(rem)
                    &&& rec@ == bin_head_view(rem)
                    &&& *final(pos) == *old(pos) + 4 + bin_head_plen(rem) + 60
                },
                Err(_) => rem.len() > 0 && !bin_head_fits(rem),
            }
        }),
{
    let ghost rem = data@.skip(*pos as int);
    let len = data.len();
    if *pos == len {
        return Ok(None);
    }
    if len - *pos < 4 {
        return Err(BinError::Truncated);
    }
    let p0 = *pos;
    let plen_bytes = slice_subrange(data, p0, p0 + 4);
    proof {
        assert(plen_bytes@ =~= rem.subrange(0, 4));
    }
    let plen = u32_from_le_bytes(plen_bytes) as usize;
    let after_len = len - p0 - 4;
    if after_len < plen || after_len - plen < 60 {
        return Err(BinError::Truncated);
    }
    let base = p0 + 4 + plen;
    let path_slice = slice_subrange(data, p0 + 4, base);
    let dev_b = slice_subrange(data, base, base + 8);
    let ino_b = slice_subrange(data, base + 8, base + 16);
    let atime_b = slice_subrange(data, base + 16, base + 24);
    let mtime_b = slice_subrange(data, base + 24, base + 32);
    let uid_b = slice_subrange(data, base + 32, base + 36);
    let gid_b = slice_subrange(data, base + 36, base + 40);
    let mode_b = slice_subrange(data, base + 40, base + 44);
    let size_b = slice_subrange(data, base + 44, base + 52);
    let disk_b = slice_subrange(data, base + 52, base + 60);
    proof {
        let b = 4 + bin_head_plen(rem);
        assert(path_slice@ =~= rem.subrange(4, b));
        assert(dev_b@ =~= rem.subrange(b, b + 8));
        assert(ino_b@ =~= rem.subrange(b + 8, b + 16));
        assert(atime_b@ =~= rem.subrange(b + 16, b + 24));
        assert(mtime_b@ =~= rem.subrange(b + 24, b + 32));
        assert(uid_b@ =~= rem.subrange(b + 32, b + 36));
        assert(gid_b@ =~= rem.subrange(b + 36, b + 40));
        assert(mode_b@ =~= rem.subrange(b + 40, b + 44));
        assert(size_b@ =~= rem.subrange(b + 44, b + 52));
        assert(disk_b@ =~= rem.subrange(b + 52, b + 60));
    }
    let path = slice_to_vec(path_slice);
    let dev = u64_from_le_bytes(dev_b);
    let ino = u64_from_le_bytes(ino_b);
    let atime = u64_from_le_bytes(atime_b) as i64;
    let mtime = u64_from_le_bytes(mtime_b) as i64;
    let uid = u32_from_le_bytes(uid_b);
    let gid = u32_from_le_bytes(gid_b);
    let mode = u32_from_le_bytes(mode_b);
    let size = u64_from_le_bytes(size_b);
    let disk = u64_from_le_bytes(disk_b);
    *pos = base + 60;
    Ok(Some(BinaryRecord { path, dev, ino, atime, mtime, uid, gid, mode, size, disk }))
}

/// Appending one record to a stream appends its bytes.
pub proof fn lemma_bin_stream_push(vs: Seq<RecView>, v: RecView)
    ensures
        bin_stream_of(vs.push(v)) == bin_stream_of(vs) + bin_bytes_of(v),
    decreases vs.len(),
{
    if vs.len() == 0 {
        assert(vs.push(v)[0] == v);
        assert(vs.push(v).drop_first() =~= Seq::<RecView>::empty());
        assert(bin_stream_of(Seq::<RecView>::empty()) == Seq::<u8>::empty());
        assert(bin_bytes_of(v) + Seq::<u8>::empty() =~= bin_bytes_of(v));
        assert(bin_stream_of(vs) + bin_bytes_of(v) =~= bin_bytes_of(v));
    } else {
        assert(vs.push(v)[0] == vs[0]);
        assert(vs.push(v).drop_first() =~= vs.drop_first().push(v));
        lemma_bin_stream_push(vs.drop_first(), v);
        assert(bin_bytes_of(vs[0]) + (bin_stream_of(vs.drop_first()) + bin_bytes_of(v))
            =~= bin_stream_of(vs) + bin_bytes_of(v));
    }
}

/// Encode a whole stream of records, order preserved.
#[verifier::loop_isolation(false)]
pub fn bin_encode_stream(recs: &Vec<BinaryRecord>) -> (r: Vec<u8>)
    requires
        forall|i: int| 0 <= i < recs@.len() ==> (#[trigger] recs@[i])@.path.len() <= u32::MAX,
    ensures
        r@ == bin_stream_of(rec_views(recs@)),
{
    let mut out: Vec<u8> = Vec::new();
    let n = recs.len();
    let mut i: usize = 0;
    proof {
        assert(rec_views(recs@.take(0)) =~= Seq::<RecView>::empty());
    }
    while i < n
        invariant
            0 <= i <= n,
            n == recs@.len(),
            out@ == bin_stream_of(rec_views(recs@.take(i as int))),
        decreases n - i,
    {
        write_binary_record(&mut out, &recs[i]);
        i = i + 1;
        proof {
            assert(rec_views(recs@.take(i as int)) =~= rec_views(recs@.take(i - 1)).push(
                recs@[i - 1]@,
            ));
            lemma_bin_stream_push(rec_views(recs@.take(i - 1)), recs@[i - 1]@);
        }
    }
    proof {
        assert(recs@.take(n as int) =~= recs@);
    }
    out
}

/// `Some(a) ++ o`, absorbing a failed tail.
pub open spec fn opt_prepend(a: Seq<RecView>, o: Option<Seq<RecView>>) -> Option<Seq<RecView>> {
    match o {
        None => None,
        Some(b) => Some(a + b),
    }
}

/// Decode a whole stream of records; `Err` when the bytes end inside one.
#[verifier::loop_isolation(false)]
pub fn bin_decode_stream(data: &[u8]) -> (r: Result<Vec<BinaryRecord>, BinError>)
    ensures
        r is Ok <==> bin_decode_spec(data@) is Some,
        r matches Ok(out) ==> Some(rec_views(out@)) == bin_decode_spec(data@),
{
    let mut out: Vec<BinaryRecord> = Vec::new();
    let mut pos: usize = 0;
    proof {
        assert(data@.skip(0) =~= data@);
        assert(forall|o: Option<Seq<RecView>>|
            opt_prepend(rec_views(Seq::<BinaryRecord>::empty()), o) == o);
    }
    loop
        invariant
            pos <= data@.len(),
            bin_decode_spec(data@) == opt_prepend(
                rec_views(out@),
                bin_decode_spec(data@.skip(pos as int)),
            ),
        decreases data@.len() - pos,
    {
        let ghost rem = data@.skip(pos as int);
        let ghost pre = out@;
        match read_binary_record(data, &mut pos) {
            Err(e) => {
                return Err(e);
            },
            Ok(None) => {
                proof {
                    assert(rem =~= Seq::<u8>::empty());
                    assert(rec_views(out@) + Seq::<RecView>::empty() =~= rec_views(out@));
                }
                return Ok(out);
            },
            Ok(Some(rec)) => {
                proof {
                    let next = data@.skip(pos as int);
                    assert(next =~= rem.skip(4 + bin_head_plen(rem) + 60));
                    assert(bin_decode_spec(rem) == opt_prepend(
                        seq![bin_head_view(rem)],
                        bin_decode_spec(next),
                    ));
                }
                out.push(rec);
                proof {
                    assert(rec_views(out@) =~= rec_views(pre).push(out@.last()@));
                    assert forall|o: Option<Seq<RecView>>|
                        opt_prepend(rec_views(pre), opt_prepend(seq![out@.last()@], o))
                            == #[trigger] opt_prepend(rec_views(out@), o) by {
                        if o is Some {
                            assert(rec_views(pre) + (seq![out@.last()@] + o.unwrap()) =~= rec_views(
                                out@,
                            ) + o.unwrap());
                        }
                    }
                }
            },
        }
    }
}

/// A record's own bytes, followed by anything, read back as that record.
proof fn lemma_bin_head_of_bytes(v: RecView, rest: Seq<u8>)
    requires
        v.path.len() <= u32::MAX,
    ensures
        ({
            let data = bin_bytes_of(v) + rest;
            &&& bin_head_fits(data)
            &&& bin_head_plen(data) == v.path.len()
            &&& bin_head_view(data) == v
            &&& data.skip(4 + bin_head_plen(data) + 60) =~= rest
        }),
{
    lemma_auto_spec_u32_to_from_le_bytes();
    lemma_auto_spec_u64_to_from_le_bytes();
    let data = bin_bytes_of(v) + rest;
    let plen = v.path.len() as int;
    let base = 4 + plen;
    assert(data.subrange(0, 4) =~= spec_u32_to_le_bytes(v.path.len() as u32));
    assert(bin_head_plen(data) == plen);
    assert(data.subrange(4, base) =~= v.path);
    assert(data.subrange(base, base + 8) =~= spec_u64_to_le_bytes(v.dev));
    assert(data.subrange(base + 8, base + 16) =~= spec_u64_to_le_bytes(v.ino));
    assert(data.subrange(base + 16, base + 24) =~= spec_u64_to_le_bytes(v.atime as u64));
    assert(data.subrange(base + 24, base + 32) =~= spec_u64_to_le_bytes(v.mtime as u64));
    assert(data.subrange(base + 32, base + 36) =~= spec_u32_to_le_bytes(v.uid));
    assert(data.subrange(base + 36, base + 40) =~= spec_u32_to_le_bytes(v.gid));
    assert(data.subrange(base + 40, base + 44) =~= spec_u32_to_le_bytes(v.mode));
    assert(data.subrange(base + 44, base + 52) =~= spec_u64_to_le_bytes(v.size));
    assert(data.subrange(base + 52, base + 60) =~= spec_u64_to_le_bytes(v.disk));
    let a = v.atime;
    let m = v.mtime;
    assert((a as u64) as i64 == a) by (bit_vector);
    assert((m as u64) as i64 == m) by (bit_vector);
    assert(bin_head_view(data) == v);
    assert(data.skip(base + 60) =~= rest);
}

/// Decoding inverts encoding for a whole stream: the records and their order
/// come back exactly.
pub proof fn lemma_bin_stream_round_trip(vs: Seq<RecView>)
    requires
        forall|i: int| 0 <= i < vs.len() ==> (#[trigger] vs[i]).path.len() <= u32::MAX,
    ensures
        bin_decode_spec(bin_stream_of(vs)) == Some(vs),
    decreases vs.len(),
{
    if vs.len() == 0 {
        assert(bin_decode_spec(bin_stream_of(vs)) == Some(Seq::<RecView>::empty()));
        assert(Seq::<RecView>::empty() =~= vs);
    } else {
        let v = vs[0];
        let tail = vs.drop_first();
        let data = bin_stream_of(vs);
        assert(data == bin_bytes_of(v) + bin_stream_of(tail));
        lemma_bin_head_of_bytes(v, bin_stream_of(tail));
        assert(data.len() > 0) by {
            assert(bin_head_fits(data));
        }
        lemma_bin_stream_round_trip(tail);
        assert(bin_decode_spec(data.skip(4 + bin_head_plen(data) + 60)) == Some(tail));
        assert(seq![v] + tail =~= vs);
    }
}

/// The fixed header line of a row CSV file, without its newline.
pub open spec fn csv_header_spec() -> Seq<u8> {
    seq![
        73u8, 78u8, 79u8, 68u8, 69u8, 44u8, 65u8, 84u8, 73u8, 77u8, 69u8, 44u8, 77u8, 84u8, 73u8,
        77u8, 69u8, 44u8, 85u8, 73u8, 68u8, 44u8, 71u8, 73u8, 68u8, 44u8, 77u8, 79u8, 68u8, 69u8,
        44u8, 83u8, 73u8, 90u8, 69u8, 44u8, 68u8, 73u8, 83u8, 75u8, 44u8, 80u8, 65u8, 84u8, 72u8,
    ]
}

/// Build the header line `INODE,ATIME,MTIME,UID,GID,MODE,SIZE,DISK,PATH`.
pub fn csv_header() -> (r: Vec<u8>)
    ensures
        r@ == csv_header_spec(),
{
    let bytes: [u8; 45] = [
        73u8, 78u8, 79u8, 68u8, 69u8, 44u8, 65u8, 84u8, 73u8, 77u8, 69u8, 44u8, 77u8, 84u8, 73u8,
        77u8, 69u8, 44u8, 85u8, 73u8, 68u8, 44u8, 71u8, 73u8, 68u8, 44u8, 77u8, 79u8, 68u8, 69u8,
        44u8, 83u8, 73u8, 90u8, 69u8, 44u8, 68u8, 73u8, 83u8, 75u8, 44u8, 80u8, 65u8, 84u8, 72u8,
    ];
    let mut out: Vec<u8> = Vec::new();
    push_all(&mut out, bytes.as_slice());
    proof {
        assert(out@ =~= csv_header_spec());
    }
    out
}

/// Index one past the first `\n` at or after `pos`, or the end of the bytes.
pub open spec fn line_end(data: Seq<u8>, pos: int) -> int
    decreases data.len() - pos,
{
    if pos < 0 || pos >= data.len() {
        pos
    } else if data[pos] == 10 {
        pos + 1
    } else {
        line_end(data, pos + 1)
    }
}

pub proof fn lemma_line_end_props(data: Seq<u8>, pos: int)
    requires
        0 <= pos <= data.len(),
    ensures
        pos <= line_end(data, pos) <= data.len(),
        pos < data.len() ==> pos + 1 <= line_end(data, pos),
    decreases data.len() - pos,
{
    if pos < data.len() && data[pos] != 10 {
        lemma_line_end_props(data, pos + 1);
    }
}

/// Read one line into `buf`, newline included; the count of bytes read is
/// zero exactly at the end of the input.
#[verifier::loop_isolation(false)]
pub fn read_line_bytes(data: &[u8], pos: &mut usize, buf: &mut Vec<u8>) -> (n: usize)
    requires
        *old(pos) <= data@.len(),
    ensures
        *final(pos) == line_end(data@, *old(pos) as int),
        final(buf)@ == old(buf)@ + data@.subrange(*old(pos) as int, *final(pos) as int),
        n == *final(pos) - *old(pos),
{
    let start = *pos;
    let len = data.len();
    let mut i: usize = start;
    while i < len && data[i] != 10
        invariant
            start <= i <= len,
            len == data@.len(),
            line_end(data@, start as int) == line_end(data@, i as int),
        decreases len - i,
    {
        i = i + 1;
    }
    let e = if i < len {
        i + 1
    } else {
        i
    };
    proof {
        if i < len {
            assert(line_end(data@, i as int) == i + 1);
        } else {
            assert(line_end(data@, i as int) == i);
        }
    }
    let chunk = slice_subrange(data, start, e);
    push_all(buf, chunk);
    *pos = e;
    e - start
}

/// A line with its `\n` and a `\r` before it taken off.
pub open spec fn strip_eol(line: Seq<u8>) -> Seq<u8> {
    if line.len() > 0 && line.last() == 10 {
        let l2 = line.drop_last();
        if l2.len() > 0 && l2.last() == 13 {
            l2.drop_last()
        } else {
            l2
        }
    } else {
        line
    }
}

/// Whether a CSV line splits into nine fields with a dashed INODE.
pub open spec fn line_ok(line: Seq<u8>) -> bool {
    &&& crate::record::split_csv(line).len() == 9
    &&& crate::record::first_dash(crate::record::split_csv(line)[0]) < crate::record::split_csv(
        line,
    )[0].len()
}

/// The record read from one CSV line.
pub open spec fn rec_view_of_line(line: Seq<u8>) -> RecView {
    let fs = crate::record::split_csv(line);
    RecView {
        path: fs[8],
        dev: crate::record::inode_dev(fs[0]),
        ino: crate::record::inode_ino(fs[0]),
        atime: crate::record::field_i64(fs[1]),
        mtime: crate::record::field_i64(fs[2]),
        uid: crate::record::field_u32(fs[3]),
        gid: crate::record::field_u32(fs[4]),
        mode: crate::record::field_u32(fs[5]),
        size: crate::record::field_u64(fs[6]),
        disk: crate::record::field_u64(fs[7]),
    }
}

/// The binary stream encoding the data lines from `pos` on; `None` on a
/// structurally bad line or a path too long for the length prefix.
pub open spec fn csv_body_to_stream(data: Seq<u8>, pos: int) -> Option<Seq<u8>>
    decreases data.len() - pos,
    when 0 <= pos <= data.len()
    via csv_body_to_stream_decreases
{
    if pos >= data.len() {
        Some(Seq::empty())
    } else {
        let e = line_end(data, pos);
        let line = strip_eol(data.subrange(pos, e));
        let rest = csv_body_to_stream(data, e);
        if line.len() == 0 {
            rest
        } else if !line_ok(line) || rec_view_of_line(line).path.len() > u32::MAX {
            None
        } else {
            match rest {
                None => None,
                Some(tail) => Some(bin_bytes_of(rec_view_of_line(line)) + tail),
            }
        }
    }
}

#[via_fn]
proof fn csv_body_to_stream_decreases(data: Seq<u8>, pos: int) {
    if 0 <= pos <= data.len() && pos < data.len() {
        lemma_line_end_props(data, pos);
    }
}

/// Why a whole-file conversion failed.
#[derive(Debug, Clone, PartialEq, Eq, Structural)]
pub enum ConvError {
    /// The CSV input does not begin with the exact header line.
    BadHeader,
    /// A data line is structurally broken: not nine fields, or no dash in
    /// INODE.
    BadLine,
    /// A path is too long for the 32-bit length prefix.
    PathTooLong,
    /// The binary input does not begin with the zstd magic.
    BadMagic,
    /// The binary stream ends inside a record.
    Truncated,
    /// The compressor or decompressor itself failed.
    Zstd,
}

/// The packed stream for a whole CSV file: the header line must match, the
/// data lines follow.
pub open spec fn csv_to_bin_spec(data: Seq<u8>) -> Option<Seq<u8>> {
    let e = line_end(data, 0);
    if crate::num::trim_spec(data.subrange(0, e)) != csv_header_spec() {
        None
    } else {
        csv_body_to_stream(data, e)
    }
}

/// Convert the bytes of a row CSV file into the packed binary stream.
#[verifier::loop_isolation(false)]
pub fn csv_bytes_to_bin(data: &[u8]) -> (r: Result<Vec<u8>, ConvError>)
    ensures
        r is Ok <==> csv_to_bin_spec(data@) is Some,
        r matches Ok(out) ==> Some(out@) == csv_to_bin_spec(data@),
        r matches Err(e) ==> e is BadHeader || e is BadLine || e is PathTooLong,
        r matches Err(e) ==> (e is BadHeader <==> crate::num::trim_spec(
            data@.subrange(0, line_end(data@, 0)),
        ) != csv_header_spec()),
{
    let mut pos: usize = 0;
    let mut header_line: Vec<u8> = Vec::new();
    proof {
        lemma_line_end_props(data@, 0);
    }
    read_line_bytes(data, &mut pos, &mut header_line);
    let trimmed = crate::num::trim_ascii(header_line.as_slice());
    let header = csv_header();
    let same = crate::quoting::bytes_eq(trimmed, header.as_slice());
    proof {
        assert(header_line@ =~= data@.subrange(0, line_end(data@, 0)));
    }
    if !same {
        return Err(ConvError::BadHeader);
    }
    let mut out: Vec<u8> = Vec::new();
    let mut line: Vec<u8> = Vec::new();
    let len = data.len();
    proof {
        let rest0 = csv_body_to_stream(data@, pos as int);
        if rest0 is Some {
            assert(out@ + rest0.unwrap() =~= rest0.unwrap());
        }
    }
    while pos < len
        invariant
            pos <= len,
            len == data@.len(),
            csv_to_bin_spec(data@) == (match csv_body_to_stream(data@, pos as int) {
                None => None::<Seq<u8>>,
                Some(tail) => Some(out@ + tail),
            }),
        decreases len - pos,
    {
        let ghost p0 = pos as int;
        line.clear();
        read_line_bytes(data, &mut pos, &mut line);
        // take the newline and a carriage return before it off the line
        if line.len() > 0 && line[line.len() - 1] == 10 {
            line.pop();
            if line.len() > 0 && line[line.len() - 1] == 13 {
                line.pop();
            }
        }
        proof {
            assert(line@ =~= strip_eol(data@.subrange(p0, line_end(data@, p0))));
            lemma_line_end_props(data@, p0);
        }
        let ghost lv = line@;
        if line.len() == 0 {
            proof {
                assert(csv_body_to_stream(data@, p0) == csv_body_to_stream(data@, pos as int));
            }
            continue ;
        }
        let rec = match crate::record::parse_csv_record_bytes(line.as_slice()) {
            Ok(rec) => rec,
            Err(_) => {
                proof {
                    assert(!line_ok(lv));
                    assert(csv_body_to_stream(data@, p0) is None);
                }
                return Err(ConvError::BadLine);
            },
        };
        proof {
            assert(line_ok(lv));
            assert(rec@ == rec_view_of_line(lv));
        }
        if rec.path.len() > u32::MAX as usize {
            proof {
                assert(rec_view_of_line(lv).path.len() > u32::MAX);
                assert(csv_body_to_stream(data@, p0) is None);
            }
            return Err(ConvError::PathTooLong);
        }
        let ghost out_pre = out@;
        write_binary_record(&mut out, &rec);
        proof {
            let rest = csv_body_to_stream(data@, pos as int);
            assert(csv_body_to_stream(data@, p0) == (match rest {
                None => None::<Seq<u8>>,
                Some(tail) => Some(bin_bytes_of(rec_view_of_line(lv)) + tail),
            }));
            if rest is Some {
                assert(out_pre + (bin_bytes_of(rec@) + rest.unwrap()) =~= out@ + rest.unwrap());
            }
        }
    }
    proof {
        assert(csv_body_to_stream(data@, len as int) == Some(Seq::<u8>::empty()));
        assert(out@ + Seq::<u8>::empty() =~= out@);
    }
    Ok(out)
}

/// The CSV text for a stream of records: one line per record after the
/// header, each closed by `\n`.
pub open spec fn csv_stream_of(vs: Seq<RecView>) -> Seq<u8>
    decreases vs.len(),
{
    if vs.len() == 0 {
        Seq::empty()
    } else {
        crate::record::csv_line_of(vs[0]) + seq![10u8] + csv_stream_of(vs.drop_first())
    }
}

proof fn lemma_csv_stream_push(vs: Seq<RecView>, v: RecView)
    ensures
        csv_stream_of(vs.push(v)) == csv_stream_of(vs) + crate::record::csv_line_of(v)
            + seq![10u8],
    decreases vs.len(),
{
    let one = crate::record::csv_line_of(v) + seq![10u8];
    if vs.len() == 0 {
        assert(vs.push(v)[0] == v);
        assert(vs.push(v).drop_first() =~= Seq::<RecView>::empty());
        assert(csv_stream_of(Seq::<RecView>::empty()) == Seq::<u8>::empty());
        assert(crate::record::csv_line_of(v) + seq![10u8] + Seq::<u8>::empty() =~= csv_stream_of(
            vs,
        ) + crate::record::csv_line_of(v) + seq![10u8]);
    } else {
        assert(vs.push(v)[0] == vs[0]);
        assert(vs.push(v).drop_first() =~= vs.drop_first().push(v));
        lemma_csv_stream_push(vs.drop_first(), v);
        assert(crate::record::csv_line_of(vs[0]) + seq![10u8] + (csv_stream_of(vs.drop_first())
            + crate::record::csv_line_of(v) + seq![10u8]) =~= csv_stream_of(vs)
            + crate::record::csv_line_of(v) + seq![10u8]);
    }
}

/// Render a decoded stream as a full CSV file: header line, then one line
/// per record, order preserved.
#[verifier::loop_isolation(false)]
pub fn render_csv_stream(recs: &Vec<BinaryRecord>) -> (r: Vec<u8>)
    ensures
        r@ == csv_header_spec() + seq![10u8] + csv_stream_of(rec_views(recs@)),
{
    let mut out = csv_header();
    out.push(10);
    let ghost start = out@;
    let n = recs.len();
    let mut i: usize = 0;
    proof {
        assert(rec_views(recs@.take(0)) =~= Seq::<RecView>::empty());
        assert(out@ =~= start + csv_stream_of(rec_views(recs@.take(0))));
    }
    while i < n
        invariant
            0 <= i <= n,
            n == recs@.len(),
            start == csv_header_spec() + seq![10u8],
            out@ == start + csv_stream_of(rec_views(recs@.take(i as int))),
        decreases n - i,
    {
        let line = crate::record::format_csv_record(&recs[i]);
        push_all(&mut out, line.as_slice());
        out.push(10);
        i = i + 1;
        proof {
            assert(rec_views(recs@.take(i as int)) =~= rec_views(recs@.take(i - 1)).push(
                recs@[i - 1]@,
            ));
            lemma_csv_stream_push(rec_views(recs@.take(i - 1)), recs@[i - 1]@);
            assert(out@ =~= start + csv_stream_of(rec_views(recs@.take(i as int))));
        }
    }
    proof {
        assert(recs@.take(n as int) =~= recs@);
    }
    out
}

/// The zstd frame that compresses a byte string at level 1.  Compression is
/// deterministic for a fixed library version and level, so the frame is a
/// function of the content alone.
pub uninterp spec fn zstd_frame_of(s: Seq<u8>) -> Seq<u8>;

/// The little-endian zstd magic number.
pub open spec fn zstd_magic() -> u32 {
    0xFD2FB528u32
}

/// Relies on `zstd::stream::encode_all` at level 1: the result is the zstd
/// frame holding exactly the input bytes, and a frame begins with the zstd
/// magic number.
#[verifier::external_body]
fn zstd_compress(data: &[u8]) -> (r: Result<Vec<u8>, std::io::Error>)
    ensures
        r matches Ok(v) ==> v@ == zstd_frame_of(data@) && v@.len() >= 4 && spec_u32_from_le_bytes(
            v@.subrange(0, 4),
        ) == zstd_magic(),
{
    zstd::stream::encode_all(data, 1)
}

/// Relies on `zstd::stream::decode_all`: decompression is lossless, so the
/// frame of any byte string decodes back to exactly that byte string.
#[verifier::external_body]
fn zstd_decompress(data: &[u8]) -> (r: Result<Vec<u8>, std::io::Error>)
    ensures
        r matches Ok(v) ==> forall|s: Seq<u8>| data@ == #[trigger] zstd_frame_of(s) ==> v@ == s,
        r is Err ==> forall|s: Seq<u8>| data@ != #[trigger] zstd_frame_of(s),
{
    zstd::stream::decode_all(data)
}

/// The error type of `std::io`, carried through the zstd calls.
#[verifier::external_type_specification]
#[verifier::external_body]
pub struct ExIoError(std::io::Error);

/// Convert a whole row CSV file into its compressed binary form: the zstd
/// frame around the packed record stream.
pub fn csv_to_zst_bytes(data: &[u8]) -> (r: Result<Vec<u8>, ConvError>)
    ensures
        r matches Ok(v) ==> csv_to_bin_spec(data@) is Some && v@ == zstd_frame_of(
            csv_to_bin_spec(data@).unwrap(),
        ),
        csv_to_bin_spec(data@) is None ==> r is Err,
        r matches Err(e) ==> e is BadHeader || e is BadLine || e is PathTooLong || e is Zstd,
        r matches Err(e) ==> (e is BadHeader <==> crate::num::trim_spec(
            data@.subrange(0, line_end(data@, 0)),
        ) != csv_header_spec()),
{
    let stream = match csv_bytes_to_bin(data) {
        Ok(v) => v,
        Err(e) => {
            return Err(e);
        },
    };
    match zstd_compress(stream.as_slice()) {
        Ok(v) => Ok(v),
        Err(_) => Err(ConvError::Zstd),
    }
}

/// Convert a compressed binary row file back into CSV text, header line
/// included.
pub fn zst_to_csv_bytes(data: &[u8]) -> (r: Result<Vec<u8>, ConvError>)
    ensures
        (data@.len() < 4 || spec_u32_from_le_bytes(data@.subrange(0, 4)) != zstd_magic()) ==> (
        r matches Err(e) && e is BadMagic),
        r matches Err(e) && e is BadMagic ==> (data@.len() < 4 || spec_u32_from_le_bytes(
            data@.subrange(0, 4),
        ) != zstd_magic()),
        forall|s: Seq<u8>|
            (data@ == #[trigger] zstd_frame_of(s) && data@.len() >= 4 && spec_u32_from_le_bytes(
                data@.subrange(0, 4),
            ) == zstd_magic()) ==> ({
                &&& (r is Ok <==> bin_decode_spec(s) is Some)
                &&& (r is Ok ==> r->Ok_0@ == csv_header_spec() + seq![10u8] + csv_stream_of(
                    bin_decode_spec(s).unwrap(),
                ))
            }),
{
    if data.len() < 4 {
        return Err(ConvError::BadMagic);
    }
    let magic_bytes = slice_subrange(data, 0, 4);
    let magic = u32_from_le_bytes(magic_bytes);
    if magic != 0xFD2FB528u32 {
        return Err(ConvError::BadMagic);
    }
    let raw = match zstd_decompress(data) {
        Ok(v) => v,
        Err(_) => {
            return Err(ConvError::Zstd);
        },
    };
    let recs = match bin_decode_stream(raw.as_slice()) {
        Ok(v) => v,
        Err(_) => {
            return Err(ConvError::Truncated);
        },
    };
    Ok(render_csv_stream(&recs))
}

/// Decoding inverts encoding for one record.
pub proof fn lemma_bin_record_round_trip(v: RecView)
    requires
        v.path.len() <= u32::MAX,
    ensures
        bin_decode_spec(bin_bytes_of(v)) == Some(seq![v]),
{
    lemma_bin_stream_round_trip(seq![v]);
    assert(seq![v].drop_first() =~= Seq::<RecView>::empty());
    assert(bin_stream_of(Seq::<RecView>::empty()) == Seq::<u8>::empty());
    assert(bin_bytes_of(v) + Seq::<u8>::empty() =~= bin_bytes_of(v));
    assert(bin_stream_of(seq![v]) =~= bin_bytes_of(v));
}

} // verus!
