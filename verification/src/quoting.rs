//! CSV field quoting and path text helpers.
//!
//! A path field is written verbatim unless it holds a quote, comma, newline
//! or carriage return; then it is wrapped in quotes with every inner quote
//! doubled.  No other field is ever quoted.

use vstd::prelude::*;

verus! {

/// A byte that forces the field into quotes.
pub open spec fn is_special(b: u8) -> bool {
    b == 34 || b == 44 || b == 10 || b == 13
}

pub open spec fn needs_quoting(s: Seq<u8>) -> bool {
    exists|i: int| 0 <= i < s.len() && is_special(#[trigger] s[i])
}

/// `s` with every quote doubled.
pub open spec fn escape_quotes(s: Seq<u8>) -> Seq<u8>
    decreases s.len(),
{
    if s.len() == 0 {
        Seq::empty()
    } else if s.last() == 34 {
        escape_quotes(s.drop_last()) + seq![34u8, 34u8]
    } else {
        escape_quotes(s.drop_last()) + seq![s.last()]
    }
}

/// The smart-quoted form of a path field.
pub open spec fn smart_quoted(s: Seq<u8>) -> Seq<u8> {
    if needs_quoting(s) {
        seq![34u8] + escape_quotes(s) + seq![34u8]
    } else {
        s
    }
}

/// Whether `s` must be quoted as a CSV field.
#[verifier::loop_isolation(false)]
pub fn needs_quote_check(bytes: &[u8]) -> (r: bool)
    ensures
        r == needs_quoting(bytes@),
{
    let n = bytes.len();
    let mut i: usize = 0;
    while i < n
        invariant
            0 <= i <= n,
            n == bytes@.len(),
            forall|k: int| 0 <= k < i ==> !is_special(#[trigger] bytes@[k]),
        decreases n - i,
    {
        let b = bytes[i];
        if b == 34 || b == 44 || b == 10 || b == 13 {
            return true;
        }
        i = i + 1;
    }
    false
}

/// Append `bytes` to `buf` unchanged.
#[verifier::loop_isolation(false)]
pub fn push_all(buf: &mut Vec<u8>, bytes: &[u8])
    ensures
        final(buf)@ == old(buf)@ + bytes@,
{
    let n = bytes.len();
    let mut i: usize = 0;
    while i < n
        invariant
            0 <= i <= n,
            n == bytes@.len(),
            buf@ =~= old(buf)@ + bytes@.take(i as int),
        decreases n - i,
    {
        buf.push(bytes[i]);
        i = i + 1;
    }
    proof {
        assert(old(buf)@ + bytes@.take(n as int) =~= old(buf)@ + bytes@);
    }
}

/// Append `bytes` with every quote doubled.
#[verifier::loop_isolation(false)]
pub(crate) fn push_escaped(buf: &mut Vec<u8>, bytes: &[u8])
    ensures
        final(buf)@ == old(buf)@ + escape_quotes(bytes@),
{
    let n = bytes.len();
    let mut i: usize = 0;
    while i < n
        invariant
            0 <= i <= n,
            n == bytes@.len(),
            buf@ =~= old(buf)@ + escape_quotes(bytes@.take(i as int)),
        decreases n - i,
    {
        let b = bytes[i];
        proof {
            assert(bytes@.take(i + 1).drop_last() =~= bytes@.take(i as int));
            assert(bytes@.take(i + 1).last() == bytes@[i as int]);
        }
        if b == 34 {
            buf.push(34);
            buf.push(34);
        } else {
            buf.push(b);
        }
        i = i + 1;
    }
    proof {
        assert(bytes@.take(n as int) =~= bytes@);
    }
}

/// Append the smart-quoted form of a raw path to a CSV line buffer.
pub fn csv_push_bytes_smart_quoted(buf: &mut Vec<u8>, bytes: &[u8])
    ensures
        final(buf)@ == old(buf)@ + smart_quoted(bytes@),
{
    if !needs_quote_check(bytes) {
        push_all(buf, bytes);
    } else {
        buf.push(34);
        push_escaped(buf, bytes);
        buf.push(34);
        proof {
            assert(buf@ =~= old(buf)@ + smart_quoted(bytes@));
        }
    }
}

/// The path bytes with a Windows verbatim prefix removed.
pub open spec fn strip_verbatim(s: Seq<u8>) -> Seq<u8> {
    if s.len() >= 8 && s.take(8) == seq![92u8, 92u8, 63u8, 92u8, 85u8, 78u8, 67u8, 92u8] {
        seq![92u8, 92u8] + s.skip(8)
    } else if s.len() >= 4 && s.take(4) == seq![92u8, 92u8, 63u8, 92u8] {
        s.skip(4)
    } else {
        s
    }
}

/// Remove the `\\?\` or `\\?\UNC\` verbatim prefix from a path, if present.
#[verifier::loop_isolation(false)]
pub fn strip_verbatim_prefix(p: &[u8]) -> (r: Vec<u8>)
    ensures
        r@ == strip_verbatim(p@),
{
    let is_verbatim = p.len() >= 4 && p[0] == 92 && p[1] == 92 && p[2] == 63 && p[3] == 92;
    let is_unc = p.len() >= 8 && is_verbatim && p[4] == 85 && p[5] == 78 && p[6] == 67 && p[7]
        == 92;
    let mut out: Vec<u8> = Vec::new();
    if is_unc {
        proof {
            assert(p@.take(8) =~= seq![92u8, 92u8, 63u8, 92u8, 85u8, 78u8, 67u8, 92u8]);
        }
        out.push(92);
        out.push(92);
        let rest = vstd::slice::slice_subrange(p, 8, p.len());
        push_all(&mut out, rest);
        proof {
            assert(out@ =~= strip_verbatim(p@));
        }
    } else if is_verbatim {
        proof {
            assert(p@.take(4) =~= seq![92u8, 92u8, 63u8, 92u8]);
            if p@.len() >= 8 && p@.take(8) == seq![92u8, 92u8, 63u8, 92u8, 85u8, 78u8, 67u8, 92u8] {
                assert(p@[4] == p@.take(8)[4]);
                assert(false);
            }
        }
        let rest = vstd::slice::slice_subrange(p, 4, p.len());
        push_all(&mut out, rest);
    } else {
        proof {
            if p@.len() >= 4 && p@.take(4) == seq![92u8, 92u8, 63u8, 92u8] {
                assert(p@[0] == p@.take(4)[0]);
                assert(p@[1] == p@.take(4)[1]);
                assert(p@[2] == p@.take(4)[2]);
                assert(p@[3] == p@.take(4)[3]);
            }
            if p@.len() >= 8 && p@.take(8) == seq![92u8, 92u8, 63u8, 92u8, 85u8, 78u8, 67u8, 92u8] {
                assert(p@[0] == p@.take(8)[0]);
                assert(p@[1] == p@.take(8)[1]);
                assert(p@[2] == p@.take(8)[2]);
                assert(p@[3] == p@.take(8)[3]);
            }
        }
        push_all(&mut out, p);
    }
    out
}

/// Byte-for-byte equality of two slices.
#[verifier::loop_isolation(false)]
pub fn bytes_eq(a: &[u8], b: &[u8]) -> (r: bool)
    ensures
        r == (a@ == b@),
{
    if a.len() != b.len() {
        return false;
    }
    let n = a.len();
    let mut i: usize = 0;
    while i < n
        invariant
            0 <= i <= n,
            n == a@.len() == b@.len(),
            forall|k: int| 0 <= k < i ==> a@[k] == #[trigger] b@[k],
        decreases n - i,
    {
        if a[i] != b[i] {
            return false;
        }
        i = i + 1;
    }
    proof {
        assert(a@ =~= b@);
    }
    true
}

/// `needle` occurs as a contiguous run inside `haystack`.
pub open spec fn contains_sub(h: Seq<u8>, n: Seq<u8>) -> bool {
    exists|i: int| 0 <= i <= h.len() - n.len() && #[trigger] h.subrange(i, i + n.len()) == n
}

/// Substring search over raw bytes.
#[verifier::loop_isolation(false)]
pub fn contains_subslice(h: &[u8], n: &[u8]) -> (r: bool)
    ensures
        r == contains_sub(h@, n@),
{
    let hl = h.len();
    let nl = n.len();
    if nl > hl {
        return false;
    }
    if nl == 0 {
        proof {
            assert(h@.subrange(0, 0 + n@.len() as int) =~= n@);
        }
        return true;
    }
    let mut i: usize = 0;
    while i <= hl - nl
        invariant
            0 <= i <= hl - nl + 1,
            1 <= nl <= hl,
            hl == h@.len(),
            nl == n@.len(),
            forall|k: int| 0 <= k < i ==> #[trigger] h@.subrange(k, k + nl as int) != n@,
        decreases hl - i,
    {
        let mut j: usize = 0;
        let mut matched = true;
        while j < nl
            invariant
                0 <= j <= nl,
                0 <= i <= hl - nl,
                hl == h@.len(),
                nl == n@.len(),
                matched ==> forall|k: int| 0 <= k < j ==> h@[i + k] == #[trigger] n@[k],
                !matched ==> h@.subrange(i as int, i + nl as int) != n@,
            decreases nl - j,
        {
            if h[i + j] != n[j] {
                proof {
                    assert(h@.subrange(i as int, i + nl as int)[j as int] == h@[i + j]);
                }
                matched = false;
                j = nl;
            } else {
                j = j + 1;
            }
        }
        if matched {
            proof {
                assert(h@.subrange(i as int, i + nl as int) =~= n@);
            }
            return true;
        }
        i = i + 1;
    }
    false
}

/// Byte-lexicographic order, the order `sort` gives byte strings.
pub open spec fn lex_le(a: Seq<u8>, b: Seq<u8>) -> bool
    decreases a.len(),
{
    if a.len() == 0 {
        true
    } else if b.len() == 0 {
        false
    } else if a[0] < b[0] {
        true
    } else if a[0] > b[0] {
        false
    } else {
        lex_le(a.drop_first(), b.drop_first())
    }
}

/// One of two byte strings always precedes the other.
pub proof fn lemma_lex_total(a: Seq<u8>, b: Seq<u8>)
    ensures
        lex_le(a, b) || lex_le(b, a),
    decreases a.len(),
{
    if a.len() > 0 && b.len() > 0 && a[0] == b[0] {
        lemma_lex_total(a.drop_first(), b.drop_first());
    }
}

/// Compare two byte strings lexicographically.
#[verifier::loop_isolation(false)]
pub fn lex_le_bytes(a: &[u8], b: &[u8]) -> (r: bool)
    ensures
        r == lex_le(a@, b@),
{
    let an = a.len();
    let bn = b.len();
    let mut i: usize = 0;
    proof {
        assert(a@.skip(0) =~= a@);
        assert(b@.skip(0) =~= b@);
    }
    while i < an && i < bn && a[i] == b[i]
        invariant
            0 <= i <= an,
            i <= bn,
            an == a@.len(),
            bn == b@.len(),
            lex_le(a@, b@) == lex_le(a@.skip(i as int), b@.skip(i as int)),
            lex_le(b@, a@) == lex_le(b@.skip(i as int), a@.skip(i as int)),
        decreases an - i,
    {
        proof {
            let ar = a@.skip(i as int);
            let br = b@.skip(i as int);
            assert(ar[0] == a@[i as int]);
            assert(br[0] == b@[i as int]);
            assert(ar.drop_first() =~= a@.skip(i + 1));
            assert(br.drop_first() =~= b@.skip(i + 1));
        }
        i = i + 1;
    }
    proof {
        let ar = a@.skip(i as int);
        let br = b@.skip(i as int);
        if i < an {
            assert(ar[0] == a@[i as int]);
        }
        if i < bn {
            assert(br[0] == b@[i as int]);
        }
    }
    if i == an {
        true
    } else if i == bn {
        false
    } else {
        a[i] < b[i]
    }
}

/// Whether the scanner must skip this path: a set skip needle occurs in it.
pub fn should_skip(path: &[u8], skip: Option<&[u8]>) -> (r: bool)
    ensures
        r == match skip {
            Some(n) => contains_sub(path@, n@),
            None => false,
        },
{
    match skip {
        Some(n) => contains_subslice(path, n),
        None => false,
    }
}

} // verus!
