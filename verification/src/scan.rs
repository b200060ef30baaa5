//! The pure decisions of the parallel scanner: batching directory entries,
//! shard merging, and the shutdown rule of the dispatcher.

use vstd::prelude::*;

use crate::quoting::push_all;
use vstd::multiset::Multiset;

verus! {

/// Files are handed to workers in batches of this many entries.
pub const FILE_CHUNK: usize = 2048;

/// A worker flushes its buffer to the shard once it holds this many bytes.
pub const FLUSH_BYTES: usize = 4 * 1024 * 1024;

/// The two output forms of a scan.
#[derive(Clone, Copy, Debug, PartialEq, Eq, Structural)]
pub enum OutputFormat {
    Csv,
    Bin,
}

/// One worker's running totals.
#[derive(Clone, Copy, Debug, PartialEq, Eq, Structural)]
pub struct Stats {
    pub files: u64,
    pub errors: u64,
    pub bytes: u64,
}

impl Default for Stats {
    /// All counters zero.
    fn default() -> (r: Self)
        ensures
            r.files == 0 && r.errors == 0 && r.bytes == 0,
    {
        Stats { files: 0, errors: 0, bytes: 0 }
    }
}

/// What one worker is told: the skip needle, the output form, whether to
/// zero access times, the process id for shard names, and the verbosity.
#[derive(Debug, Clone)]
pub struct Config {
    pub skip: Option<Vec<u8>>,
    pub out_fmt: OutputFormat,
    pub no_atime: bool,
    pub pid: u32,
    pub verbose: u8,
}

/// The concatenation of a list of batches.
pub open spec fn concat_batches(bs: Seq<Seq<Seq<u8>>>) -> Seq<Seq<u8>>
    decreases bs.len(),
{
    if bs.len() == 0 {
        Seq::empty()
    } else {
        bs[0] + concat_batches(bs.drop_first())
    }
}

/// The views of a vector of batches of names.
pub open spec fn batch_views(bs: Seq<Vec<Vec<u8>>>) -> Seq<Seq<Seq<u8>>> {
    bs.map_values(|b: Vec<Vec<u8>>| crate::record::field_views(b@))
}

proof fn lemma_concat_batches_push(bs: Seq<Seq<Seq<u8>>>, b: Seq<Seq<u8>>)
    ensures
        concat_batches(bs.push(b)) == concat_batches(bs) + b,
    decreases bs.len(),
{
    if bs.len() == 0 {
        assert(bs.push(b)[0] == b);
        assert(bs.push(b).drop_first() =~= Seq::<Seq<Seq<u8>>>::empty());
        assert(concat_batches(Seq::<Seq<Seq<u8>>>::empty()) == Seq::<Seq<u8>>::empty());
        assert(b + Seq::<Seq<u8>>::empty() =~= b);
        assert(concat_batches(bs) + b =~= b);
    } else {
        assert(bs.push(b)[0] == bs[0]);
        assert(bs.push(b).drop_first() =~= bs.drop_first().push(b));
        lemma_concat_batches_push(bs.drop_first(), b);
        assert(bs[0] + (concat_batches(bs.drop_first()) + b) =~= concat_batches(bs) + b);
    }
}

/// Split file names into the batches the dispatcher enqueues: full chunks
/// of `FILE_CHUNK` names in input order, then one final partial batch.
#[verifier::loop_isolation(false)]
#[verifier::rlimit(60)]
pub fn chunk_files(names: Vec<Vec<u8>>) -> (r: Vec<Vec<Vec<u8>>>)
    ensures
        concat_batches(batch_views(r@)) == crate::record::field_views(names@),
        forall|i: int|
            0 <= i < r@.len() ==> 0 < (#[trigger] r@[i])@.len() <= FILE_CHUNK,
        forall|i: int| 0 <= i && i + 1 < r@.len() ==> (#[trigger] r@[i])@.len() == FILE_CHUNK,
{
    let mut out: Vec<Vec<Vec<u8>>> = Vec::new();
    let mut page: Vec<Vec<u8>> = Vec::new();
    let n = names.len();
    let mut i: usize = 0;
    // consume from the front to keep input order
    proof {
        assert(batch_views(out@) =~= Seq::<Seq<Seq<u8>>>::empty());
        assert(crate::record::field_views(page@) =~= Seq::<Seq<u8>>::empty());
        assert(crate::record::field_views(names@.take(0)) =~= Seq::<Seq<u8>>::empty());
        assert(concat_batches(batch_views(out@)) + crate::record::field_views(page@)
            =~= crate::record::field_views(names@.take(0)));
    }
    while i < n
        invariant
            0 <= i <= n,
            n == names@.len(),
            page@.len() < FILE_CHUNK,
            concat_batches(batch_views(out@)) + crate::record::field_views(page@)
                == crate::record::field_views(names@.take(i as int)),
            forall|k: int|
                0 <= k < out@.len() ==> (#[trigger] out@[k])@.len() == FILE_CHUNK,
        decreases n - i,
    {
        let mut name: Vec<u8> = Vec::new();
        push_all(&mut name, names[i].as_slice());
        proof {
            assert(name@ =~= names@[i as int]@);
        }
        page.push(name);
        i = i + 1;
        proof {
            assert(crate::record::field_views(page@) =~= crate::record::field_views(
                page@.drop_last(),
            ) + seq![page@.last()@]);
            assert(crate::record::field_views(names@.take(i as int)) =~= crate::record::field_views(
                names@.take(i - 1),
            ) + seq![names@[i - 1]@]);
        }
        if page.len() == FILE_CHUNK {
            let ghost pre = out@;
            let ghost pagev = page@;
            let full = page;
            page = Vec::new();
            out.push(full);
            proof {
                assert(out@.drop_last() =~= pre);
                assert(out@.last()@ =~= pagev);
                assert(batch_views(out@) =~= batch_views(pre).push(
                    crate::record::field_views(pagev),
                ));
                lemma_concat_batches_push(batch_views(pre), crate::record::field_views(pagev));
                assert(crate::record::field_views(page@) =~= Seq::<Seq<u8>>::empty());
                assert(concat_batches(batch_views(out@)) + crate::record::field_views(page@)
                    =~= concat_batches(batch_views(pre)) + crate::record::field_views(pagev));
                assert forall|k: int|
                    0 <= k < out@.len() implies (#[trigger] out@[k])@.len() == FILE_CHUNK by {
                    if k < out@.len() - 1 {
                        assert(out@[k] == pre[k]);
                    } else {
                        assert(out@[k]@ =~= pagev);
                    }
                }
            }
        }
    }
    proof {
        assert(names@.take(n as int) =~= names@);
    }
    if page.len() > 0 {
        let ghost pre = out@;
        let ghost pagev = page@;
        let ghost plen = page@.len();
        out.push(page);
        proof {
            assert(out@.drop_last() =~= pre);
            assert(out@.last()@ =~= pagev);
            assert(batch_views(out@) =~= batch_views(pre).push(
                crate::record::field_views(pagev),
            ));
            lemma_concat_batches_push(batch_views(pre), crate::record::field_views(pagev));
            assert(concat_batches(batch_views(out@)) =~= concat_batches(batch_views(pre))
                + crate::record::field_views(pagev));
            assert forall|k: int|
                0 <= k < out@.len() implies 0 < (#[trigger] out@[k])@.len() <= FILE_CHUNK by {
                if k < out@.len() - 1 {
                    assert(out@[k] == pre[k]);
                } else {
                    assert(out@[k]@.len() == plen);
                }
            }
            assert forall|k: int|
                0 <= k && k + 1 < out@.len() implies (#[trigger] out@[k])@.len() == FILE_CHUNK by {
                assert(out@[k] == pre[k]);
            }
        }
    } else {
        proof {
            assert(concat_batches(batch_views(out@)) + Seq::<Seq<u8>>::empty() =~= concat_batches(
                batch_views(out@),
            ));
            assert forall|k: int|
                0 <= k < out@.len() implies 0 < (#[trigger] out@[k])@.len() <= FILE_CHUNK by {}
        }
    }
    out
}

/// The dispatcher's shutdown rule: stop only after the in-flight counter
/// has read zero on five consecutive samples.
#[derive(Clone, Copy, Debug, PartialEq, Eq, Structural)]
pub struct ShutdownWatch {
    pub zeros: u8,
}

impl ShutdownWatch {
    /// A fresh watcher that has seen no zero yet.
    pub fn new() -> (r: ShutdownWatch)
        ensures
            r.zeros == 0,
    {
        ShutdownWatch { zeros: 0 }
    }

    /// Feed one sample of the in-flight counter; the answer says whether to
    /// send the shutdown now.  A nonzero sample starts the count over.
    pub fn observe(&mut self, inflight: usize) -> (fire: bool)
        ensures
            inflight > 0 ==> !fire && final(self).zeros == 0,
            inflight == 0 && old(self).zeros < 4 ==> !fire && final(self).zeros == old(
                self,
            ).zeros + 1,
            inflight == 0 && old(self).zeros >= 4 ==> fire && *final(self) == *old(self),
    {
        if inflight > 0 {
            self.zeros = 0;
            false
        } else if self.zeros >= 4 {
            true
        } else {
            self.zeros = self.zeros + 1;
            false
        }
    }
}

/// The merged bytes of the shards, in shard order.
pub open spec fn concat_shards(shards: Seq<Vec<u8>>) -> Seq<u8>
    decreases shards.len(),
{
    if shards.len() == 0 {
        Seq::empty()
    } else {
        shards[0]@ + concat_shards(shards.drop_first())
    }
}

proof fn lemma_concat_shards_push(shards: Seq<Vec<u8>>, s: Vec<u8>)
    ensures
        concat_shards(shards.push(s)) == concat_shards(shards) + s@,
    decreases shards.len(),
{
    if shards.len() == 0 {
        assert(shards.push(s)[0] == s);
        assert(shards.push(s).drop_first() =~= Seq::<Vec<u8>>::empty());
        assert(concat_shards(Seq::<Vec<u8>>::empty()) == Seq::<u8>::empty());
        assert(s@ + Seq::<u8>::empty() =~= s@);
        assert(concat_shards(shards) + s@ =~= s@);
    } else {
        assert(shards.push(s)[0] == shards[0]);
        assert(shards.push(s).drop_first() =~= shards.drop_first().push(s));
        lemma_concat_shards_push(shards.drop_first(), s);
        assert(shards[0]@ + (concat_shards(shards.drop_first()) + s@) =~= concat_shards(shards)
            + s@);
    }
}

/// Merge binary shards: plain concatenation, shard order kept.
#[verifier::loop_isolation(false)]
pub fn merge_bin_contents(shards: &Vec<Vec<u8>>) -> (r: Vec<u8>)
    ensures
        r@ == concat_shards(shards@),
{
    let mut out: Vec<u8> = Vec::new();
    let n = shards.len();
    let mut i: usize = 0;
    proof {
        assert(shards@.take(0) =~= Seq::<Vec<u8>>::empty());
    }
    while i < n
        invariant
            0 <= i <= n,
            n == shards@.len(),
            out@ == concat_shards(shards@.take(i as int)),
        decreases n - i,
    {
        push_all(&mut out, shards[i].as_slice());
        i = i + 1;
        proof {
            assert(shards@.take(i as int) =~= shards@.take(i - 1).push(shards@[i - 1]));
            lemma_concat_shards_push(shards@.take(i - 1), shards@[i - 1]);
        }
    }
    proof {
        assert(shards@.take(n as int) =~= shards@);
    }
    out
}

/// Merge CSV shards without sorting: the header line, then the shards one
/// after another.
pub fn merge_csv_contents(shards: &Vec<Vec<u8>>) -> (r: Vec<u8>)
    ensures
        r@ == crate::binary::csv_header_spec() + seq![10u8] + concat_shards(shards@),
{
    let mut out = crate::binary::csv_header();
    out.push(10);
    let ghost head = out@;
    let body = merge_bin_contents(shards);
    push_all(&mut out, body.as_slice());
    proof {
        assert(out@ =~= crate::binary::csv_header_spec() + seq![10u8] + concat_shards(shards@));
    }
    out
}

/// Lines sorted ascending by byte order.
pub open spec fn lines_sorted(lines: Seq<Vec<u8>>) -> bool {
    forall|i: int|
        0 <= i && i + 1 < lines.len() ==> crate::quoting::lex_le(
            (#[trigger] lines[i])@,
            lines[i + 1]@,
        )
}

/// Line views sorted ascending by byte order.
pub open spec fn line_views_sorted(lines: Seq<Seq<u8>>) -> bool {
    forall|i: int|
        0 <= i && i + 1 < lines.len() ==> crate::quoting::lex_le(#[trigger] lines[i], lines[i + 1])
}

/// The nonblank lines of a byte blob from `pos` on, each without its
/// closing newline; a line is blank when it trims to nothing.
pub open spec fn blob_lines(data: Seq<u8>, pos: int) -> Seq<Seq<u8>>
    decreases data.len() - pos,
    when 0 <= pos <= data.len()
    via blob_lines_decreases
{
    if pos >= data.len() {
        Seq::empty()
    } else {
        let e = crate::binary::line_end(data, pos);
        let raw = data.subrange(pos, e);
        let line = if raw.len() > 0 && raw.last() == 10 {
            raw.drop_last()
        } else {
            raw
        };
        let rest = blob_lines(data, e);
        if crate::num::trim_spec(line).len() == 0 {
            rest
        } else {
            seq![line] + rest
        }
    }
}

#[via_fn]
proof fn blob_lines_decreases(data: Seq<u8>, pos: int) {
    if 0 <= pos < data.len() {
        crate::binary::lemma_line_end_props(data, pos);
    }
}

/// Every nonblank line of every shard, in shard order.
pub open spec fn all_shard_lines(shards: Seq<Vec<u8>>) -> Seq<Seq<u8>>
    decreases shards.len(),
{
    if shards.len() == 0 {
        Seq::empty()
    } else {
        blob_lines(shards[0]@, 0) + all_shard_lines(shards.drop_first())
    }
}

proof fn lemma_all_shard_lines_push(shards: Seq<Vec<u8>>, s: Vec<u8>)
    ensures
        all_shard_lines(shards.push(s)) == all_shard_lines(shards) + blob_lines(s@, 0),
    decreases shards.len(),
{
    if shards.len() == 0 {
        assert(shards.push(s)[0] == s);
        assert(shards.push(s).drop_first() =~= Seq::<Vec<u8>>::empty());
        assert(all_shard_lines(Seq::<Vec<u8>>::empty()) == Seq::<Seq<u8>>::empty());
        assert(all_shard_lines(shards.push(s)) == blob_lines(s@, 0) + Seq::<Seq<u8>>::empty());
        assert(blob_lines(s@, 0) + Seq::<Seq<u8>>::empty() =~= blob_lines(s@, 0));
        assert(all_shard_lines(shards) + blob_lines(s@, 0) =~= blob_lines(s@, 0));
    } else {
        assert(shards.push(s)[0] == shards[0]);
        assert(shards.push(s).drop_first() =~= shards.drop_first().push(s));
        lemma_all_shard_lines_push(shards.drop_first(), s);
        assert(blob_lines(shards[0]@, 0) + (all_shard_lines(shards.drop_first()) + blob_lines(
            s@,
            0,
        )) =~= all_shard_lines(shards) + blob_lines(s@, 0));
    }
}

/// The byte run of a line list: each line closed by a newline.
pub open spec fn joined_lines(lines: Seq<Seq<u8>>) -> Seq<u8>
    decreases lines.len(),
{
    if lines.len() == 0 {
        Seq::empty()
    } else {
        lines[0] + seq![10u8] + joined_lines(lines.drop_first())
    }
}

proof fn lemma_joined_lines_push(lines: Seq<Seq<u8>>, l: Seq<u8>)
    ensures
        joined_lines(lines.push(l)) == joined_lines(lines) + l + seq![10u8],
    decreases lines.len(),
{
    if lines.len() == 0 {
        assert(lines.push(l)[0] == l);
        assert(lines.push(l).drop_first() =~= Seq::<Seq<u8>>::empty());
        assert(joined_lines(Seq::<Seq<u8>>::empty()) == Seq::<u8>::empty());
        assert(l + seq![10u8] + Seq::<u8>::empty() =~= joined_lines(lines) + l + seq![10u8]);
    } else {
        assert(lines.push(l)[0] == lines[0]);
        assert(lines.push(l).drop_first() =~= lines.drop_first().push(l));
        lemma_joined_lines_push(lines.drop_first(), l);
        assert(lines[0] + seq![10u8] + (joined_lines(lines.drop_first()) + l + seq![10u8])
            =~= joined_lines(lines) + l + seq![10u8]);
    }
}

/// Put one line into a sorted list, duplicates kept.
#[verifier::loop_isolation(false)]
pub fn insert_line_sorted(lines: &mut Vec<Vec<u8>>, line: Vec<u8>)
    requires
        lines_sorted(old(lines)@),
    ensures
        lines_sorted(final(lines)@),
        final(lines)@.len() == old(lines)@.len() + 1,
        crate::record::field_views(final(lines)@).to_multiset() == crate::record::field_views(
            old(lines)@,
        ).to_multiset().insert(line@),
{
    let n = lines.len();
    let mut pos: usize = 0;
    while pos < n && crate::quoting::lex_le_bytes(lines[pos].as_slice(), line.as_slice())
        invariant
            0 <= pos <= n,
            n == lines@.len(),
            lines@ == old(lines)@,
            forall|j: int|
                0 <= j < pos ==> crate::quoting::lex_le((#[trigger] lines@[j])@, line@),
        decreases n - pos,
    {
        pos = pos + 1;
    }
    proof {
        if pos < n {
            crate::quoting::lemma_lex_total(lines@[pos as int]@, line@);
        }
    }
    let ghost linev = line@;
    lines.insert(pos, line);
    proof {
        let oldv = old(lines)@;
        let new = lines@;
        oldv.insert_ensures(pos as int, new[pos as int]);
        let ins = oldv.insert(pos as int, new[pos as int]);
        assert(new == ins);
        assert(new[pos as int]@ == linev);
        assert(ins =~= oldv.subrange(0, pos as int).push(new[pos as int]) + oldv.subrange(
            pos as int,
            oldv.len() as int,
        ));
        assert forall|i: int| 0 <= i < pos implies #[trigger] ins[i] == oldv[i] by {
            assert(ins[i] == oldv.subrange(0, pos as int).push(new[pos as int])[i]);
            assert(oldv.subrange(0, pos as int)[i] == oldv[i]);
        }
        assert forall|i: int| pos <= i < oldv.len() implies #[trigger] ins[i + 1] == oldv[i] by {
            assert(ins[i + 1] == oldv.subrange(pos as int, oldv.len() as int)[i - pos]);
        }
        assert forall|i: int|
            0 <= i && i + 1 < new.len() implies crate::quoting::lex_le(
            (#[trigger] new[i])@,
            new[i + 1]@,
        ) by {
            if i + 1 < pos {
                assert(ins[i] == oldv[i]);
                assert(ins[i + 1] == oldv[i + 1]);
            } else if i + 1 == pos {
                assert(ins[i] == oldv[i]);
            } else if i == pos {
                assert(ins[i + 1] == oldv[i]);
            } else {
                assert(ins[i] == oldv[i - 1]);
                assert(ins[i + 1] == oldv[i]);
            }
        }
        assert(crate::record::field_views(new) =~= crate::record::field_views(oldv).insert(
            pos as int,
            linev,
        ));
        crate::sorting::lemma_insert_to_multiset(
            crate::record::field_views(oldv),
            pos as int,
            linev,
        );
    }
}

/// Merge CSV shards for reproducible output: the header line, then every
/// nonblank line of every shard, sorted ascending, one per line — a sorted
/// permutation of the shard lines.
#[verifier::loop_isolation(false)]
#[verifier::rlimit(60)]
pub fn merge_csv_contents_sorted(shards: &Vec<Vec<u8>>) -> (r: Vec<u8>)
    ensures
        exists|lines: Seq<Seq<u8>>|
            {
                &&& #[trigger] line_views_sorted(lines)
                &&& lines.to_multiset() == all_shard_lines(shards@).to_multiset()
                &&& r@ == crate::binary::csv_header_spec() + seq![10u8] + joined_lines(lines)
            },
{
    let mut lines: Vec<Vec<u8>> = Vec::new();
    let ns = shards.len();
    let mut si: usize = 0;
    proof {
        assert(crate::record::field_views(lines@) =~= Seq::<Seq<u8>>::empty());
        assert(shards@.take(0) =~= Seq::<Vec<u8>>::empty());
        assert(crate::record::field_views(lines@).to_multiset() =~= all_shard_lines(
            shards@.take(0),
        ).to_multiset());
    }
    while si < ns
        invariant
            0 <= si <= ns,
            ns == shards@.len(),
            lines_sorted(lines@),
            crate::record::field_views(lines@).to_multiset() == all_shard_lines(
                shards@.take(si as int),
            ).to_multiset(),
        decreases ns - si,
    {
        let shard = &shards[si];
        let ghost prior = all_shard_lines(shards@.take(si as int)).to_multiset();
        let mut pos: usize = 0;
        let mut line: Vec<u8> = Vec::new();
        proof {
            assert(crate::record::field_views(lines@).to_multiset().add(
                blob_lines(shard@, 0).to_multiset(),
            ) =~= prior.add(blob_lines(shard@, 0).to_multiset()));
        }
        while pos < shard.len()
            invariant
                pos <= shard@.len(),
                shard@ == shards@[si as int]@,
                si < ns,
                ns == shards@.len(),
                lines_sorted(lines@),
                crate::record::field_views(lines@).to_multiset().add(
                    blob_lines(shard@, pos as int).to_multiset(),
                ) == prior.add(blob_lines(shard@, 0).to_multiset()),
            decreases shard@.len() - pos,
        {
            broadcast use vstd::seq_lib::group_to_multiset_ensures;

            let ghost p0 = pos as int;
            proof {
                crate::binary::lemma_line_end_props(shard@, p0);
            }
            line.clear();
            crate::binary::read_line_bytes(shard.as_slice(), &mut pos, &mut line);
            if line.len() > 0 && line[line.len() - 1] == 10 {
                line.pop();
            }
            let ghost e = crate::binary::line_end(shard@, p0);
            let ghost raw = shard@.subrange(p0, e);
            proof {
                assert(line@ =~= (if raw.len() > 0 && raw.last() == 10 {
                    raw.drop_last()
                } else {
                    raw
                }));
            }
            let trimmed = crate::num::trim_ascii(line.as_slice());
            if trimmed.len() == 0 {
                proof {
                    assert(blob_lines(shard@, p0) == blob_lines(shard@, pos as int));
                }
                continue ;
            }
            let mut owned: Vec<u8> = Vec::new();
            push_all(&mut owned, line.as_slice());
            proof {
                assert(owned@ =~= line@);
            }
            let ghost lv = owned@;
            let ghost views_pre = crate::record::field_views(lines@);
            insert_line_sorted(&mut lines, owned);
            proof {
                assert(blob_lines(shard@, p0) =~= seq![lv] + blob_lines(shard@, pos as int));
                assert(blob_lines(shard@, p0).to_multiset() =~= blob_lines(
                    shard@,
                    pos as int,
                ).to_multiset().insert(lv)) by {
                    vstd::seq_lib::lemma_multiset_commutative(
                        seq![lv],
                        blob_lines(shard@, pos as int),
                    );
                    assert(seq![lv] =~= Seq::<Seq<u8>>::empty().push(lv));
                    assert(seq![lv].to_multiset() =~= Multiset::<Seq<u8>>::empty().insert(lv));
                    assert(Multiset::<Seq<u8>>::empty().insert(lv).add(
                        blob_lines(shard@, pos as int).to_multiset(),
                    ) =~= blob_lines(shard@, pos as int).to_multiset().insert(lv));
                };
                assert(crate::record::field_views(lines@).to_multiset().add(
                    blob_lines(shard@, pos as int).to_multiset(),
                ) =~= views_pre.to_multiset().insert(lv).add(
                    blob_lines(shard@, pos as int).to_multiset(),
                ));
                assert(views_pre.to_multiset().insert(lv).add(
                    blob_lines(shard@, pos as int).to_multiset(),
                ) =~= views_pre.to_multiset().add(blob_lines(shard@, p0).to_multiset()));
            }
        }
        si = si + 1;
        proof {
            broadcast use vstd::seq_lib::group_to_multiset_ensures;

            assert(blob_lines(shard@, pos as int) =~= Seq::<Seq<u8>>::empty());
            assert(blob_lines(shard@, pos as int).to_multiset() =~= Multiset::<Seq<u8>>::empty())
                by {
                let b = blob_lines(shard@, pos as int);
                assert forall|x: Seq<u8>| b.to_multiset().count(x) == 0 by {
                    if b.to_multiset().count(x) > 0 {
                        assert(b.contains(x));
                    }
                }
            };
            assert(crate::record::field_views(lines@).to_multiset().add(
                Multiset::<Seq<u8>>::empty(),
            ) =~= crate::record::field_views(lines@).to_multiset());
            assert(prior.add(blob_lines(shard@, 0).to_multiset()) =~= all_shard_lines(
                shards@.take(si as int),
            ).to_multiset()) by {
                assert(shards@.take(si as int) =~= shards@.take(si - 1).push(shards@[si - 1]));
                lemma_all_shard_lines_push(shards@.take(si - 1), shards@[si - 1]);
                vstd::seq_lib::lemma_multiset_commutative(
                    all_shard_lines(shards@.take(si - 1)),
                    blob_lines(shards@[si - 1]@, 0),
                );
            };
        }
    }
    proof {
        assert(shards@.take(ns as int) =~= shards@);
    }
    let mut out = crate::binary::csv_header();
    out.push(10);
    let ghost head = out@;
    proof {
        assert(head =~= crate::binary::csv_header_spec() + seq![10u8]);
        assert(crate::record::field_views(lines@).take(0) =~= Seq::<Seq<u8>>::empty());
        assert(out@ =~= head + joined_lines(crate::record::field_views(lines@).take(0)));
    }
    let nl = lines.len();
    let mut li: usize = 0;
    while li < nl
        invariant
            0 <= li <= nl,
            nl == lines@.len(),
            head == crate::binary::csv_header_spec() + seq![10u8],
            out@ == head + joined_lines(crate::record::field_views(lines@).take(li as int)),
        decreases nl - li,
    {
        push_all(&mut out, lines[li].as_slice());
        out.push(10);
        li = li + 1;
        proof {
            let views = crate::record::field_views(lines@);
            assert(views.take(li as int) =~= views.take(li - 1).push(views[li - 1]));
            lemma_joined_lines_push(views.take(li - 1), views[li - 1]);
            assert(out@ =~= head + joined_lines(views.take(li as int)));
        }
    }
    proof {
        let views = crate::record::field_views(lines@);
        assert(views.take(nl as int) =~= views);
        assert(line_views_sorted(views)) by {
            assert forall|i: int|
                0 <= i && i + 1 < views.len() implies crate::quoting::lex_le(
                #[trigger] views[i],
                views[i + 1],
            ) by {
                assert(views[i] == lines@[i]@);
                assert(views[i + 1] == lines@[i + 1]@);
            }
        };
    }
    out
}

} // verus!
