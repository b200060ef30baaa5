//! The scanner's stat row and its two wire writers.

use vstd::prelude::*;

use crate::binary::{bin_bytes_of, write_binary_record};
use crate::num::{push_i64, push_u32, push_u64};
use crate::quoting::{csv_push_bytes_smart_quoted, push_all, smart_quoted, strip_verbatim,
    strip_verbatim_prefix};
use crate::record::{csv_line_of, BinaryRecord, RecView};

verus! {

/// One stat record as the scanner reads it from the filesystem.
#[derive(Clone, Copy, Debug, PartialEq, Eq, Structural)]
pub struct Row {
    pub dev: u64,
    pub ino: u64,
    pub mode: u32,
    pub uid: u32,
    pub gid: u32,
    pub size: u64,
    pub blocks: u64,
    pub atime: i64,
    pub mtime: i64,
}

impl Row {
    /// The record this row writes for a path: disk bytes are the 512-byte
    /// blocks scaled up, and the access time is zeroed on request.
    pub open spec fn as_rec(self, path: Seq<u8>, no_atime: bool) -> RecView {
        RecView {
            path,
            dev: self.dev,
            ino: self.ino,
            atime: if no_atime {
                0i64
            } else {
                self.atime
            },
            mtime: self.mtime,
            uid: self.uid,
            gid: self.gid,
            mode: self.mode,
            size: self.size,
            disk: (self.blocks * 512) as u64,
        }
    }
}

/// Append one row as a CSV line, newline included.
#[verifier::rlimit(100)]
pub fn write_row_csv(buf: &mut Vec<u8>, path: &[u8], r: &Row, no_atime: bool)
    requires
        r.blocks <= u64::MAX / 512,
    ensures
        final(buf)@ == old(buf)@ + csv_line_of(r.as_rec(path@, no_atime)) + seq![10u8],
{
    push_u64(buf, r.dev);
    buf.push(45);
    push_u64(buf, r.ino);
    buf.push(44);
    if no_atime {
        push_i64(buf, 0);
    } else {
        push_i64(buf, r.atime);
    }
    buf.push(44);
    push_i64(buf, r.mtime);
    buf.push(44);
    push_u32(buf, r.uid);
    buf.push(44);
    push_u32(buf, r.gid);
    buf.push(44);
    push_u32(buf, r.mode);
    buf.push(44);
    push_u64(buf, r.size);
    buf.push(44);
    push_u64(buf, r.blocks * 512);
    buf.push(44);
    csv_push_bytes_smart_quoted(buf, path);
    buf.push(10);
    proof {
        assert(buf@ =~= old(buf)@ + csv_line_of(r.as_rec(path@, no_atime)) + seq![10u8]);
    }
}

/// Append one row in the length-prefixed binary form.
pub fn write_row_bin(buf: &mut Vec<u8>, path: &[u8], r: &Row, no_atime: bool)
    requires
        r.blocks <= u64::MAX / 512,
        path@.len() <= u32::MAX,
    ensures
        final(buf)@ == old(buf)@ + bin_bytes_of(r.as_rec(path@, no_atime)),
{
    let mut pathc: Vec<u8> = Vec::new();
    push_all(&mut pathc, path);
    proof {
        assert(pathc@ =~= path@);
    }
    let rec = BinaryRecord {
        path: pathc,
        dev: r.dev,
        ino: r.ino,
        atime: if no_atime {
            0
        } else {
            r.atime
        },
        mtime: r.mtime,
        uid: r.uid,
        gid: r.gid,
        mode: r.mode,
        size: r.size,
        disk: r.blocks * 512,
    };
    proof {
        assert(rec@ == r.as_rec(path@, no_atime));
    }
    write_binary_record(buf, &rec);
}

/// Append a raw path smart-quoted, as the CSV writer does.
pub fn csv_push_path_smart_quoted(buf: &mut Vec<u8>, path: &[u8])
    ensures
        final(buf)@ == old(buf)@ + smart_quoted(path@),
{
    csv_push_bytes_smart_quoted(buf, path);
}

/// Append a displayable path smart-quoted, with a Windows verbatim prefix
/// taken off first.
pub fn csv_push_str_smart_quoted(buf: &mut Vec<u8>, s: &[u8])
    ensures
        final(buf)@ == old(buf)@ + smart_quoted(strip_verbatim(s@)),
{
    let stripped = strip_verbatim_prefix(s);
    csv_push_bytes_smart_quoted(buf, stripped.as_slice());
}

} // verus!
