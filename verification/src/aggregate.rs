//! Folder ancestors of a row's path and the per-(folder, owner, age)
//! accumulation pass.

use vstd::prelude::*;

use crate::quoting::{bytes_eq, push_all};
use crate::stats::UserStats;

verus! {

/// Path bytes with every backslash turned into a forward slash.
pub open spec fn norm_slash(s: Seq<u8>) -> Seq<u8> {
    s.map_values(
        |b: u8|
            if b == 92 {
                47u8
            } else {
                b
            },
    )
}

/// Index of the last `/`, or `-1` when none occurs.
pub open spec fn last_slash_at(s: Seq<u8>) -> int
    decreases s.len(),
{
    if s.len() == 0 {
        -1
    } else if s.last() == 47 {
        s.len() - 1
    } else {
        last_slash_at(s.drop_last())
    }
}

/// Drop trailing slashes, keeping at least one byte.
pub open spec fn strip_trailing_slashes(s: Seq<u8>) -> Seq<u8>
    decreases s.len(),
{
    if s.len() > 1 && s.last() == 47 {
        strip_trailing_slashes(s.drop_last())
    } else {
        s
    }
}

/// Index of the first `/`, or the length when none occurs.
pub open spec fn first_slash(s: Seq<u8>) -> int
    decreases s.len(),
{
    if s.len() == 0 {
        0
    } else if s[0] == 47 {
        0
    } else {
        1 + first_slash(s.drop_first())
    }
}

pub proof fn lemma_first_slash_props(s: Seq<u8>)
    ensures
        0 <= first_slash(s) <= s.len(),
        first_slash(s) < s.len() ==> s[first_slash(s)] == 47,
        forall|k: int| 0 <= k < first_slash(s) ==> s[k] != 47,
    decreases s.len(),
{
    if s.len() > 0 && s[0] != 47 {
        let t = s.drop_first();
        lemma_first_slash_props(t);
        assert forall|k: int| 0 <= k < first_slash(s) implies s[k] != 47 by {
            if k > 0 {
                assert(s[k] == t[k - 1]);
            }
        }
    }
}

/// The folder paths grown from `cur` by the slash-separated segments of
/// `rem`, empty segments skipped.
pub open spec fn anc_build(rem: Seq<u8>, cur: Seq<u8>) -> Seq<Seq<u8>>
    decreases rem.len(),
    when true
    via anc_build_decreases
{
    if rem.len() == 0 {
        Seq::empty()
    } else if rem[0] == 47 {
        anc_build(rem.drop_first(), cur)
    } else {
        let k = first_slash(rem);
        let cur2 = key_step(cur, rem.take(k));
        seq![cur2] + anc_build(rem.skip(k), cur2)
    }
}

#[via_fn]
proof fn anc_build_decreases(rem: Seq<u8>, cur: Seq<u8>) {
    if rem.len() > 0 && rem[0] != 47 {
        lemma_first_slash_props(rem);
    }
}

/// The ancestor folder keys of a path: the root, then every proper parent
/// folder, shortest first.
pub open spec fn ancestors_spec(path: Seq<u8>) -> Seq<Seq<u8>> {
    let n = norm_slash(path);
    let pe = last_slash_at(n);
    if pe <= 0 {
        seq![seq![47u8]]
    } else {
        let folder = strip_trailing_slashes(n.take(pe));
        let trimmed = if folder.len() > 0 && folder[0] == 47 {
            folder.drop_first()
        } else {
            folder
        };
        seq![seq![47u8]] + anc_build(trimmed, seq![47u8])
    }
}

/// A path segment: nonempty, with no slash inside.
pub open spec fn is_segment(seg: Seq<u8>) -> bool {
    seg.len() > 0 && forall|j: int| 0 <= j < seg.len() ==> seg[j] != 47
}

/// One link of the ancestor chain: the next key adds one segment.
pub open spec fn chain_step(prev: Seq<u8>, cur: Seq<u8>) -> bool {
    exists|seg: Seq<u8>|
        #[trigger] is_segment(seg) && cur == (if prev.len() > 1 {
            prev + seq![47u8] + seg
        } else {
            prev + seg
        })
}

/// The shape every ancestor list has: it starts at the root and each entry
/// extends the one before it by a single nonempty segment, so the list is a
/// strictly growing prefix chain without duplicates, empty segments or
/// trailing slashes.
pub open spec fn ancestors_chain_ok(a: Seq<Seq<u8>>) -> bool {
    &&& a.len() >= 1
    &&& a[0] == seq![47u8]
    &&& forall|i: int| 1 <= i < a.len() ==> chain_step(a[i - 1], #[trigger] a[i])
}

proof fn lemma_anc_build_chain(rem: Seq<u8>, cur: Seq<u8>)
    requires
        cur.len() >= 1,
    ensures
        ({
            let a = anc_build(rem, cur);
            forall|i: int|
                0 <= i < a.len() ==> chain_step(
                    if i == 0 {
                        cur
                    } else {
                        a[i - 1]
                    },
                    #[trigger] a[i],
                )
        }),
    decreases rem.len(),
{
    if rem.len() == 0 {
    } else if rem[0] == 47 {
        lemma_anc_build_chain(rem.drop_first(), cur);
        let a = anc_build(rem, cur);
        let t = anc_build(rem.drop_first(), cur);
        assert(a == t);
        assert forall|i: int|
            0 <= i < a.len() implies chain_step(
            if i == 0 {
                cur
            } else {
                a[i - 1]
            },
            #[trigger] a[i],
        ) by {
            assert(a[i] == t[i]);
            if i > 0 {
                assert(a[i - 1] == t[i - 1]);
            }
        }
    } else {
        lemma_first_slash_props(rem);
        let k = first_slash(rem);
        let seg = rem.take(k);
        let cur2 = key_step(cur, seg);
        assert(is_segment(seg)) by {
            assert(k >= 1);
            assert forall|j: int| 0 <= j < seg.len() implies seg[j] != 47 by {
                assert(seg[j] == rem[j]);
            }
        }
        assert(chain_step(cur, cur2));
        lemma_anc_build_chain(rem.skip(k), cur2);
        let a = anc_build(rem, cur);
        let t = anc_build(rem.skip(k), cur2);
        assert(a == seq![cur2] + t);
        assert(a.len() == 1 + t.len());
        assert(cur2.len() >= 1);
        assert forall|i: int|
            0 <= i < a.len() implies chain_step(
            if i == 0 {
                cur
            } else {
                a[i - 1]
            },
            #[trigger] a[i],
        ) by {
            if i == 0 {
                assert(a[0] == cur2);
            } else {
                assert(a[i] == t[i - 1]);
                if i == 1 {
                    assert(a[0] == cur2);
                    assert(chain_step(cur2, t[0]));
                } else {
                    assert(a[i - 1] == t[i - 2]);
                }
            }
        }
    }
}

/// Every ancestor list is a chain: it begins with the root and each entry
/// adds exactly one nonempty segment to the one before it.
pub proof fn lemma_ancestors_chain(path: Seq<u8>)
    ensures
        ancestors_chain_ok(ancestors_spec(path)),
{
    let a = ancestors_spec(path);
    let n = norm_slash(path);
    let pe = last_slash_at(n);
    if pe <= 0 {
    } else {
        let folder = strip_trailing_slashes(n.take(pe));
        let trimmed = if folder.len() > 0 && folder[0] == 47 {
            folder.drop_first()
        } else {
            folder
        };
        lemma_anc_build_chain(trimmed, seq![47u8]);
        let b = anc_build(trimmed, seq![47u8]);
        assert forall|i: int| 1 <= i < a.len() implies chain_step(a[i - 1], #[trigger] a[i]) by {
            assert(a[i] == b[i - 1]);
            if i == 1 {
                assert(chain_step(seq![47u8], b[0]));
            } else {
                assert(a[i - 1] == b[i - 2]);
            }
        }
    }
}

/// One growth step of a folder key: a slash (unless at the root) and the
/// segment.
pub open spec fn key_step(cur: Seq<u8>, seg: Seq<u8>) -> Seq<u8> {
    if cur.len() > 1 {
        cur + seq![47u8] + seg
    } else {
        cur + seg
    }
}

/// The folder key grown from `cur` by a list of segments.
pub open spec fn extend_key(cur: Seq<u8>, segs: Seq<Seq<u8>>) -> Seq<u8>
    decreases segs.len(),
{
    if segs.len() == 0 {
        cur
    } else {
        key_step(extend_key(cur, segs.drop_last()), segs.last())
    }
}

/// The canonical key of the path's parent folder: its segments joined under
/// the root, repeated slashes collapsed.
pub open spec fn parent_key_spec(path: Seq<u8>) -> Seq<u8> {
    let n = norm_slash(path);
    let pe = last_slash_at(n);
    if pe <= 0 {
        seq![47u8]
    } else {
        let folder = strip_trailing_slashes(n.take(pe));
        let trimmed = if folder.len() > 0 && folder[0] == 47 {
            folder.drop_first()
        } else {
            folder
        };
        extend_key(seq![47u8], crate::index::split_segs(trimmed))
    }
}

proof fn lemma_extend_key_front(cur: Seq<u8>, s0: Seq<u8>, rest: Seq<Seq<u8>>)
    ensures
        extend_key(cur, seq![s0] + rest) == extend_key(key_step(cur, s0), rest),
    decreases rest.len(),
{
    let whole = seq![s0] + rest;
    assert(whole.len() > 0);
    assert(extend_key(cur, whole) == key_step(extend_key(cur, whole.drop_last()), whole.last()));
    if rest.len() == 0 {
        assert(whole.drop_last() =~= Seq::<Seq<u8>>::empty());
        assert(whole.last() == s0);
        assert(extend_key(cur, Seq::<Seq<u8>>::empty()) == cur);
        assert(extend_key(key_step(cur, s0), rest) == key_step(cur, s0));
    } else {
        assert(whole.drop_last() =~= seq![s0] + rest.drop_last());
        assert(whole.last() == rest.last());
        lemma_extend_key_front(cur, s0, rest.drop_last());
        assert(extend_key(key_step(cur, s0), rest) == key_step(
            extend_key(key_step(cur, s0), rest.drop_last()),
            rest.last(),
        ));
    }
}

proof fn lemma_anc_build_last(rem: Seq<u8>, cur: Seq<u8>)
    ensures
        anc_build(rem, cur).len() == crate::index::split_segs(rem).len(),
        anc_build(rem, cur).len() > 0 ==> anc_build(rem, cur).last() == extend_key(
            cur,
            crate::index::split_segs(rem),
        ),
    decreases rem.len(),
{
    if rem.len() == 0 {
    } else if rem[0] == 47 {
        lemma_anc_build_last(rem.drop_first(), cur);
    } else {
        lemma_first_slash_props(rem);
        let k = first_slash(rem);
        let seg = rem.take(k);
        let cur2 = key_step(cur, seg);
        assert(anc_build(rem, cur) == seq![cur2] + anc_build(rem.skip(k), cur2));
        lemma_anc_build_last(rem.skip(k), cur2);
        let segs = crate::index::split_segs(rem);
        assert(segs == seq![seg] + crate::index::split_segs(rem.skip(k)));
        lemma_extend_key_front(cur, seg, crate::index::split_segs(rem.skip(k)));
        let a = anc_build(rem, cur);
        let t = anc_build(rem.skip(k), cur2);
        assert(a.len() == 1 + t.len());
        if t.len() == 0 {
            assert(a.last() == cur2);
            assert(extend_key(cur2, crate::index::split_segs(rem.skip(k))) == cur2);
        } else {
            assert(a.last() == t.last());
        }
    }
}

/// Every ancestor list ends at the parent of the path: its last key is the
/// parent folder's segments joined under the root.
pub proof fn lemma_ancestors_end_at_parent(path: Seq<u8>)
    ensures
        ancestors_spec(path).len() >= 1,
        ancestors_spec(path).last() == parent_key_spec(path),
{
    let a = ancestors_spec(path);
    let n = norm_slash(path);
    let pe = last_slash_at(n);
    if pe <= 0 {
        assert(a.last() == seq![47u8]);
    } else {
        let folder = strip_trailing_slashes(n.take(pe));
        let trimmed = if folder.len() > 0 && folder[0] == 47 {
            folder.drop_first()
        } else {
            folder
        };
        lemma_anc_build_last(trimmed, seq![47u8]);
        let b = anc_build(trimmed, seq![47u8]);
        if b.len() == 0 {
            assert(a.last() == seq![47u8]);
            assert(crate::index::split_segs(trimmed).len() == 0);
            assert(extend_key(seq![47u8], crate::index::split_segs(trimmed)) == seq![47u8]);
        } else {
            assert(a.last() == b.last());
        }
    }
}

/// Within a chain, an earlier key is a strict prefix of every later one; in
/// particular the root is first and no key repeats.
pub proof fn lemma_ancestors_prefix_chain(a: Seq<Seq<u8>>, i: int, j: int)
    requires
        ancestors_chain_ok(a),
        0 <= i < j < a.len(),
    ensures
        a[i].len() < a[j].len(),
        a[j].take(a[i].len() as int) == a[i],
    decreases j - i,
{
    if i + 1 == j {
        let seg = choose|seg: Seq<u8>|
            #[trigger] is_segment(seg) && a[j] == (if a[i].len() > 1 {
                a[i] + seq![47u8] + seg
            } else {
                a[i] + seg
            });
        assert(a[j].take(a[i].len() as int) =~= a[i]);
    } else {
        lemma_ancestors_prefix_chain(a, i, j - 1);
        lemma_ancestors_prefix_chain(a, j - 1, j);
        assert(a[j].take(a[i].len() as int) =~= a[j].take(a[j - 1].len() as int).take(
            a[i].len() as int,
        ));
    }
}

/// List the ancestor folder keys of a raw path, shortest first.
#[verifier::loop_isolation(false)]
#[verifier::rlimit(100)]
pub fn get_folder_ancestors(path: &[u8]) -> (r: Vec<Vec<u8>>)
    ensures
        crate::record::field_views(r@) == ancestors_spec(path@),
{
    let n = path.len();
    let mut norm: Vec<u8> = Vec::new();
    let mut i: usize = 0;
    while i < n
        invariant
            0 <= i <= n,
            n == path@.len(),
            norm@ =~= norm_slash(path@.take(i as int)),
        decreases n - i,
    {
        let b = path[i];
        norm.push(
            if b == 92 {
                47
            } else {
                b
            },
        );
        i = i + 1;
        proof {
            assert(norm@ =~= norm_slash(path@.take(i as int)));
        }
    }
    proof {
        assert(path@.take(n as int) =~= path@);
        assert(norm@ =~= norm_slash(path@));
    }
    // find the last slash
    let mut j: usize = n;
    proof {
        assert(norm@.take(n as int) =~= norm@);
    }
    while j > 0 && norm[j - 1] != 47
        invariant
            0 <= j <= n,
            n == norm@.len(),
            last_slash_at(norm@) == last_slash_at(norm@.take(j as int)),
        decreases j,
    {
        proof {
            assert(norm@.take(j as int).last() == norm@[j - 1]);
            assert(norm@.take(j as int).drop_last() =~= norm@.take(j - 1));
        }
        j = j - 1;
    }
    let found = j > 0;
    let pe: usize = if found {
        j - 1
    } else {
        0
    };
    proof {
        if found {
            assert(norm@.take(j as int).last() == norm@[j - 1]);
            assert(last_slash_at(norm@.take(j as int)) == j - 1);
        } else {
            assert(last_slash_at(norm@.take(0)) == -1);
        }
    }
    let mut out: Vec<Vec<u8>> = Vec::new();
    let mut root: Vec<u8> = Vec::new();
    root.push(47);
    proof {
        assert(root@ =~= seq![47u8]);
        if !found {
            assert(last_slash_at(norm@.take(0)) == -1);
        }
    }
    if !found || pe == 0 {
        out.push(root);
        proof {
            assert(crate::record::field_views(out@) =~= ancestors_spec(path@));
        }
        return out;
    }
    // folder part before the last slash, trailing slashes dropped
    let mut fend: usize = pe;
    while fend > 1 && norm[fend - 1] == 47
        invariant
            1 <= fend <= pe,
            n == norm@.len(),
            pe < n,
            strip_trailing_slashes(norm@.take(pe as int)) == strip_trailing_slashes(
                norm@.take(fend as int),
            ),
        decreases fend,
    {
        proof {
            assert(norm@.take(fend as int).last() == norm@[fend - 1]);
            assert(norm@.take(fend as int).drop_last() =~= norm@.take(fend - 1));
        }
        fend = fend - 1;
    }
    proof {
        let f = norm@.take(fend as int);
        if f.len() > 1 && f.last() == 47 {
            assert(f.last() == norm@[fend - 1]);
            assert(false);
        }
        assert(strip_trailing_slashes(f) == f);
    }
    let ghost folder = strip_trailing_slashes(norm_slash(path@).take(pe as int));
    proof {
        assert(folder == norm@.take(fend as int));
    }
    let fstart: usize = if norm[0] == 47 {
        1
    } else {
        0
    };
    let ghost trimmed = if folder.len() > 0 && folder[0] == 47 {
        folder.drop_first()
    } else {
        folder
    };
    proof {
        assert(folder[0] == norm@[0]);
        assert(trimmed =~= norm@.subrange(fstart as int, fend as int));
    }
    out.push(root);
    let mut cur: Vec<u8> = Vec::new();
    cur.push(47);
    let mut p: usize = fstart;
    proof {
        assert(cur@ =~= seq![47u8]);
        assert(crate::record::field_views(out@) =~= seq![seq![47u8]]);
        assert(trimmed.skip(p - fstart) =~= trimmed);
        assert(ancestors_spec(path@) == seq![seq![47u8]] + anc_build(trimmed, seq![47u8]));
    }
    while p < fend
        invariant
            fstart <= p <= fend <= n,
            n == norm@.len(),
            trimmed =~= norm@.subrange(fstart as int, fend as int),
            cur@.len() >= 1,
            ancestors_spec(path@) == crate::record::field_views(out@) + anc_build(
                trimmed.skip(p - fstart),
                cur@,
            ),
        decreases fend - p,
    {
        let ghost rem = trimmed.skip(p - fstart);
        proof {
            assert(rem[0] == norm@[p as int]);
            assert(rem.drop_first() =~= trimmed.skip(p + 1 - fstart));
        }
        if norm[p] == 47 {
            p = p + 1;
            continue ;
        }
        // scan one segment
        let start = p;
        let mut q: usize = p;
        while q < fend && norm[q] != 47
            invariant
                start <= q <= fend,
                n == norm@.len(),
                fend <= n,
                forall|k: int| start <= k < q ==> norm@[k] != 47,
            decreases fend - q,
        {
            q = q + 1;
        }
        proof {
            assert forall|k: int| 0 <= k < q - start implies rem[k] != 47 by {
                assert(rem[k] == norm@[start + k]);
            }
            if q < fend {
                assert(rem[q - start] == norm@[q as int]);
            }
            lemma_first_slash_props(rem);
            if first_slash(rem) < q - start {
                assert(rem[first_slash(rem)] == 47);
                assert(false);
            }
            if first_slash(rem) > q - start {
                assert(false);
            }
            assert(first_slash(rem) == q - start);
        }
        let ghost cur_old = cur@;
        let ghost out_old = out@;
        let ghost k = first_slash(rem);
        if cur.len() > 1 {
            cur.push(47);
        }
        let seg = vstd::slice::slice_subrange(
            vstd::slice::slice_subrange(norm.as_slice(), 0, fend),
            start,
            q,
        );
        push_all(&mut cur, seg);
        let mut copy: Vec<u8> = Vec::new();
        push_all(&mut copy, cur.as_slice());
        out.push(copy);
        p = q;
        proof {
            assert(seg@ =~= rem.take(k));
            assert(rem.skip(k) =~= trimmed.skip(p - fstart));
            let cur2 = key_step(cur_old, rem.take(k));
            assert(cur@ =~= cur2);
            assert(anc_build(rem, cur_old) == seq![cur2] + anc_build(rem.skip(k), cur2));
            assert(crate::record::field_views(out@) =~= crate::record::field_views(out_old)
                + seq![cur2]);
            assert(crate::record::field_views(out_old) + (seq![cur2] + anc_build(
                trimmed.skip(p - fstart),
                cur2,
            )) =~= crate::record::field_views(out@) + anc_build(trimmed.skip(p - fstart), cur@));
        }
    }
    proof {
        assert(trimmed.skip(fend - fstart) =~= Seq::<u8>::empty());
        assert(crate::record::field_views(out@) + Seq::<Seq<u8>>::empty()
            =~= crate::record::field_views(out@));
    }
    out
}

/// The owner name standing for an unknown uid.
pub open spec fn unk_name() -> Seq<u8> {
    seq![85u8, 78u8, 75u8]
}

/// Some stored uid equals this one.
pub open spec fn uid_noted(s: Seq<u32>, uid: u32) -> bool {
    exists|i: int| 0 <= i < s.len() && s[i] == uid
}

/// One cell key of the rollup: folder key, owner name, age bucket.
#[derive(Debug)]
pub struct AggKey {
    pub path: Vec<u8>,
    pub user: Vec<u8>,
    pub age: u8,
}

impl AggKey {
    /// The mathematical key.
    pub open spec fn keyv(self) -> (Seq<u8>, Seq<u8>, u8) {
        (self.path@, self.user@, self.age)
    }
}

/// The rollup as a mapping from cell keys to their statistics.
pub open spec fn agg_map(keys: Seq<AggKey>, cells: Seq<UserStats>) -> Map<
    (Seq<u8>, Seq<u8>, u8),
    UserStats,
>
    decreases keys.len(),
{
    if keys.len() == 0 {
        Map::empty()
    } else {
        agg_map(keys.drop_last(), cells.drop_last()).insert(keys.last().keyv(), cells.last())
    }
}

pub open spec fn agg_keys_unique(keys: Seq<AggKey>) -> bool {
    forall|i: int, j: int|
        0 <= i < j < keys.len() ==> (#[trigger] keys[i]).keyv() != (#[trigger] keys[j]).keyv()
}

/// A found key owns its cell in the map.
proof fn lemma_agg_map_index(keys: Seq<AggKey>, cells: Seq<UserStats>, i: int)
    requires
        keys.len() == cells.len(),
        agg_keys_unique(keys),
        0 <= i < keys.len(),
    ensures
        agg_map(keys, cells).contains_key(keys[i].keyv()),
        agg_map(keys, cells)[keys[i].keyv()] == cells[i],
    decreases keys.len(),
{
    if i < keys.len() - 1 {
        lemma_agg_map_index(keys.drop_last(), cells.drop_last(), i);
        assert(keys.drop_last()[i] == keys[i]);
        assert(keys.last().keyv() != keys[i].keyv());
    }
}

/// A key matching no entry is not in the map.
proof fn lemma_agg_map_absent(keys: Seq<AggKey>, cells: Seq<UserStats>, k: (Seq<u8>, Seq<u8>, u8))
    requires
        keys.len() == cells.len(),
        forall|i: int| 0 <= i < keys.len() ==> (#[trigger] keys[i]).keyv() != k,
    ensures
        !agg_map(keys, cells).contains_key(k),
    decreases keys.len(),
{
    if keys.len() > 0 {
        lemma_agg_map_absent(keys.drop_last(), cells.drop_last(), k);
    }
}

/// Updating one cell in place updates its key in the map.
proof fn lemma_agg_map_update(keys: Seq<AggKey>, cells: Seq<UserStats>, i: int, v: UserStats)
    requires
        keys.len() == cells.len(),
        agg_keys_unique(keys),
        0 <= i < keys.len(),
    ensures
        agg_map(keys, cells.update(i, v)) == agg_map(keys, cells).insert(keys[i].keyv(), v),
    decreases keys.len(),
{
    let n = keys.len() as int;
    if i == n - 1 {
        assert(cells.update(i, v).drop_last() =~= cells.drop_last());
        assert(cells.update(i, v).last() == v);
        assert(agg_map(keys, cells.update(i, v)) =~= agg_map(keys, cells).insert(
            keys[i].keyv(),
            v,
        ));
    } else {
        assert(cells.update(i, v).drop_last() =~= cells.drop_last().update(i, v));
        assert(cells.update(i, v).last() == cells.last());
        lemma_agg_map_update(keys.drop_last(), cells.drop_last(), i, v);
        assert(keys.drop_last()[i] == keys[i]);
        assert(keys[i].keyv() != keys.last().keyv());
        assert(agg_map(keys.drop_last(), cells.drop_last()).insert(keys[i].keyv(), v).insert(
            keys.last().keyv(),
            cells.last(),
        ) =~= agg_map(keys, cells).insert(keys[i].keyv(), v));
    }
}

/// The state of one aggregation pass over the row CSV.
#[derive(Debug)]
pub struct Aggregator {
    pub keys: Vec<AggKey>,
    pub cells: Vec<UserStats>,
    pub seen_inodes: Vec<Vec<u8>>,
    pub unk_uids: Vec<u32>,
}

/// Some stored inode key equals these bytes.
pub open spec fn inode_seen(seen: Seq<Vec<u8>>, inode: Seq<u8>) -> bool {
    exists|i: int| 0 <= i < seen.len() && (#[trigger] seen[i])@ == inode
}

/// The fold of one row into the rollup: every ancestor's cell for this
/// owner and bucket takes one accumulation step.
pub open spec fn agg_fold(
    m: Map<(Seq<u8>, Seq<u8>, u8), UserStats>,
    ancs: Seq<Seq<u8>>,
    user: Seq<u8>,
    bucket: u8,
    size: u64,
    disk: u64,
    linked: u64,
    atime: i64,
    mtime: i64,
) -> Map<(Seq<u8>, Seq<u8>, u8), UserStats>
    decreases ancs.len(),
{
    if ancs.len() == 0 {
        m
    } else {
        let k = (ancs[0], user, bucket);
        let cell = if m.contains_key(k) {
            m[k]
        } else {
            UserStats::zero()
        };
        agg_fold(
            m.insert(k, cell.updated(size, disk, linked, atime, mtime)),
            ancs.drop_first(),
            user,
            bucket,
            size,
            disk,
            linked,
            atime,
            mtime,
        )
    }
}

impl Aggregator {
    /// Shape invariant: one cell per key, no key twice, no inode twice, no
    /// uid twice.
    pub open spec fn wf(self) -> bool {
        &&& self.keys@.len() == self.cells@.len()
        &&& agg_keys_unique(self.keys@)
        &&& forall|i: int, j: int|
            0 <= i < j < self.seen_inodes@.len() ==> (#[trigger] self.seen_inodes@[i])@ != (
            #[trigger] self.seen_inodes@[j])@
        &&& forall|i: int, j: int|
            0 <= i < j < self.unk_uids@.len() ==> self.unk_uids@[i] != self.unk_uids@[j]
    }

    /// The rollup built so far.
    pub open spec fn stats_map(self) -> Map<(Seq<u8>, Seq<u8>, u8), UserStats> {
        agg_map(self.keys@, self.cells@)
    }

    /// An empty pass.
    pub fn new() -> (r: Aggregator)
        ensures
            r.wf(),
            r.stats_map() == Map::<(Seq<u8>, Seq<u8>, u8), UserStats>::empty(),
            r.seen_inodes@.len() == 0,
            r.unk_uids@.len() == 0,
            r.keys@.len() == 0,
    {
        Aggregator { keys: Vec::new(), cells: Vec::new(), seen_inodes: Vec::new(), unk_uids: Vec::new() }
    }

    /// Note one inode key; the answer says whether it is new to this pass.
    #[verifier::loop_isolation(false)]
    pub fn note_inode(&mut self, inode: &[u8]) -> (first: bool)
        requires
            old(self).wf(),
        ensures
            final(self).wf(),
            first <==> !inode_seen(old(self).seen_inodes@, inode@),
            first ==> final(self).seen_inodes@.len() == old(self).seen_inodes@.len() + 1
                && final(self).seen_inodes@.last()@ == inode@ && (forall|i: int|
                0 <= i < old(self).seen_inodes@.len() ==> #[trigger] final(self).seen_inodes@[i]
                    == old(self).seen_inodes@[i]),
            !first ==> final(self).seen_inodes@ == old(self).seen_inodes@,
            final(self).keys@ == old(self).keys@,
            final(self).cells@ == old(self).cells@,
            final(self).unk_uids@ == old(self).unk_uids@,
            inode_seen(final(self).seen_inodes@, inode@),
    {
        let n = self.seen_inodes.len();
        let mut i: usize = 0;
        while i < n
            invariant
                0 <= i <= n,
                n == self.seen_inodes@.len(),
                forall|k: int| 0 <= k < i ==> (#[trigger] self.seen_inodes@[k])@ != inode@,
                self.keys@ == old(self).keys@,
                self.cells@ == old(self).cells@,
                self.seen_inodes@ == old(self).seen_inodes@,
                self.unk_uids@ == old(self).unk_uids@,
            decreases n - i,
        {
            if bytes_eq(self.seen_inodes[i].as_slice(), inode) {
                return false;
            }
            i = i + 1;
        }
        let mut copy: Vec<u8> = Vec::new();
        push_all(&mut copy, inode);
        proof {
            assert(copy@ =~= inode@);
        }
        self.seen_inodes.push(copy);
        proof {
            let s = self.seen_inodes@;
            assert(s[s.len() - 1]@ == inode@);
        }
        true
    }

    /// Note a uid whose owner resolved to the unknown marker.
    #[verifier::loop_isolation(false)]
    pub fn note_unknown_uid(&mut self, uid: u32)
        requires
            old(self).wf(),
        ensures
            final(self).wf(),
            uid_noted(final(self).unk_uids@, uid),
            forall|u: u32| u != uid ==> (uid_noted(final(self).unk_uids@, u) <==> uid_noted(
                old(self).unk_uids@,
                u,
            )),
            final(self).keys@ == old(self).keys@,
            final(self).cells@ == old(self).cells@,
            final(self).seen_inodes@ == old(self).seen_inodes@,
    {
        let n = self.unk_uids.len();
        let mut i: usize = 0;
        while i < n
            invariant
                0 <= i <= n,
                n == self.unk_uids@.len(),
                forall|k: int| 0 <= k < i ==> self.unk_uids@[k] != uid,
                self.unk_uids@ == old(self).unk_uids@,
                self.keys@ == old(self).keys@,
                self.cells@ == old(self).cells@,
                self.seen_inodes@ == old(self).seen_inodes@,
            decreases n - i,
        {
            if self.unk_uids[i] == uid {
                return ;
            }
            i = i + 1;
        }
        self.unk_uids.push(uid);
        proof {
            let s = self.unk_uids@;
            assert(s[s.len() - 1] == uid);
            assert forall|u: u32| u != uid implies (uid_noted(s, u) <==> uid_noted(
                old(self).unk_uids@,
                u,
            )) by {
                if uid_noted(s, u) {
                    let j = choose|j: int| 0 <= j < s.len() && s[j] == u;
                    assert(old(self).unk_uids@[j] == u);
                }
                if uid_noted(old(self).unk_uids@, u) {
                    let j = choose|j: int|
                        0 <= j < old(self).unk_uids@.len() && old(self).unk_uids@[j] == u;
                    assert(s[j] == u);
                }
            }
        }
    }

    /// Take one accumulation step in the cell of (folder, owner, bucket).
    #[verifier::loop_isolation(false)]
    pub fn add_into(
        &mut self,
        folder: &[u8],
        user: &[u8],
        bucket: u8,
        size: u64,
        disk: u64,
        linked: u64,
        atime: i64,
        mtime: i64,
    )
        requires
            old(self).wf(),
        ensures
            final(self).wf(),
            ({
                let k = (folder@, user@, bucket);
                let cell = if old(self).stats_map().contains_key(k) {
                    old(self).stats_map()[k]
                } else {
                    UserStats::zero()
                };
                final(self).stats_map() == old(self).stats_map().insert(
                    k,
                    cell.updated(size, disk, linked, atime, mtime),
                )
            }),
            final(self).seen_inodes@ == old(self).seen_inodes@,
            final(self).unk_uids@ == old(self).unk_uids@,
    {
        let ghost k = (folder@, user@, bucket);
        let n = self.keys.len();
        let mut i: usize = 0;
        while i < n
            invariant
                0 <= i <= n,
                n == self.keys@.len(),
                forall|j: int| 0 <= j < i ==> (#[trigger] self.keys@[j]).keyv() != k,
                self.keys@ == old(self).keys@,
                self.cells@ == old(self).cells@,
                self.seen_inodes@ == old(self).seen_inodes@,
                self.unk_uids@ == old(self).unk_uids@,
            decreases n - i,
        {
            let cand = &self.keys[i];
            if cand.age == bucket && bytes_eq(cand.path.as_slice(), folder) && bytes_eq(
                cand.user.as_slice(),
                user,
            ) {
                let mut cell = self.cells[i];
                cell.update(size, disk, linked, atime, mtime);
                proof {
                    lemma_agg_map_index(self.keys@, self.cells@, i as int);
                    lemma_agg_map_update(self.keys@, self.cells@, i as int, cell);
                }
                self.cells[i] = cell;
                return ;
            }
            i = i + 1;
        }
        proof {
            lemma_agg_map_absent(self.keys@, self.cells@, k);
        }
        let mut pathc: Vec<u8> = Vec::new();
        push_all(&mut pathc, folder);
        let mut userc: Vec<u8> = Vec::new();
        push_all(&mut userc, user);
        let mut cell = UserStats::default();
        cell.update(size, disk, linked, atime, mtime);
        let nk = AggKey { path: pathc, user: userc, age: bucket };
        proof {
            assert(nk.keyv() == k);
        }
        self.keys.push(nk);
        self.cells.push(cell);
        proof {
            assert(self.keys@.drop_last() =~= old(self).keys@);
            assert(self.cells@.drop_last() =~= old(self).cells@);
            assert(self.keys@.last().keyv() == k);
            assert forall|a: int, b: int|
                0 <= a < b < self.keys@.len() implies (#[trigger] self.keys@[a]).keyv() != (
            #[trigger] self.keys@[b]).keyv() by {
                if b < self.keys@.len() - 1 {
                    assert(self.keys@[a] == old(self).keys@[a]);
                    assert(self.keys@[b] == old(self).keys@[b]);
                } else {
                    assert(self.keys@[a] == old(self).keys@[a]);
                }
            }
        }
    }

    /// Fold one row of the merged CSV into the rollup, as the accumulation
    /// pass does: sanitize the times, zero a directory's access time, charge
    /// the disk bytes to the first sighting of the inode, classify the age,
    /// and account the row into every ancestor folder of its path.  Rows
    /// with an empty owner or an empty path only mark their inode as seen.
    #[verifier::rlimit(30)]
    pub fn add_row(
        &mut self,
        inode: &[u8],
        mode: u32,
        raw_atime: i64,
        raw_mtime: i64,
        uid: u32,
        user: &[u8],
        file_size: u64,
        raw_disk: u64,
        path: &[u8],
        now_ts: i64,
        cfg: crate::stats::AgeCfg,
    )
        requires
            old(self).wf(),
            now_ts <= i64::MAX - crate::stats::ONE_DAY_SECS,
        ensures
            final(self).wf(),
            ({
                let is_dir = mode & 0o170000u32 == 0o040000u32;
                let s_mtime: i64 = if raw_mtime > now_ts + crate::stats::ONE_DAY_SECS {
                    0i64
                } else {
                    raw_mtime
                };
                let s_atime: i64 = if is_dir {
                    0i64
                } else if raw_atime > now_ts + crate::stats::ONE_DAY_SECS {
                    0i64
                } else {
                    raw_atime
                };
                let first = !inode_seen(old(self).seen_inodes@, inode@);
                let disk_size: u64 = if first {
                    raw_disk
                } else {
                    0u64
                };
                let linked_size: u64 = if first {
                    0u64
                } else {
                    raw_disk
                };
                let bucket = crate::stats::age_bucket_spec(now_ts, s_mtime, cfg);
                let skip = user@.len() == 0 || path@.len() == 0;
                &&& inode_seen(final(self).seen_inodes@, inode@)
                &&& (user@ == unk_name() ==> uid_noted(final(self).unk_uids@, uid) && (forall|
                    u: u32,
                |
                    u != uid ==> (uid_noted(final(self).unk_uids@, u) <==> uid_noted(
                        old(self).unk_uids@,
                        u,
                    ))))
                &&& (user@ != unk_name() ==> final(self).unk_uids@ == old(self).unk_uids@)
                &&& (skip ==> final(self).stats_map() == old(self).stats_map())
                &&& (!skip ==> final(self).stats_map() == agg_fold(
                    old(self).stats_map(),
                    ancestors_spec(path@),
                    user@,
                    bucket,
                    file_size,
                    disk_size,
                    linked_size,
                    s_atime,
                    s_mtime,
                ))
            }),
    {
        let is_dir = mode & 0o170000u32 == 0o040000u32;
        let s_atime: i64 = if is_dir {
            0
        } else {
            crate::stats::sanitize_mtime(now_ts, raw_atime)
        };
        let s_mtime = crate::stats::sanitize_mtime(now_ts, raw_mtime);
        let unk = [85u8, 78u8, 75u8];
        if bytes_eq(user, unk.as_slice()) {
            proof {
                assert(unk@ =~= unk_name());
            }
            self.note_unknown_uid(uid);
        } else {
            proof {
                assert(unk@ =~= unk_name());
            }
        }
        let first = self.note_inode(inode);
        let (disk_size, linked_size): (u64, u64) = if first {
            (raw_disk, 0)
        } else {
            (0, raw_disk)
        };
        if user.len() == 0 || path.len() == 0 {
            proof {
                assert(self.stats_map() == old(self).stats_map());
            }
            return ;
        }
        let bucket = crate::stats::age_bucket(now_ts, s_mtime, cfg);
        let ancestors = get_folder_ancestors(path);
        let ghost m0 = self.stats_map();
        let ghost ancs = ancestors_spec(path@);
        let ghost seen_snap = self.seen_inodes@;
        let ghost unk_snap = self.unk_uids@;
        proof {
            assert(ancs.skip(0) =~= ancs);
        }
        let count = ancestors.len();
        let mut i: usize = 0;
        while i < count
            invariant
                0 <= i <= count,
                count == ancestors@.len(),
                crate::record::field_views(ancestors@) == ancs,
                self.wf(),
                agg_fold(
                    m0,
                    ancs,
                    user@,
                    bucket,
                    file_size,
                    disk_size,
                    linked_size,
                    s_atime,
                    s_mtime,
                ) == agg_fold(
                    self.stats_map(),
                    ancs.skip(i as int),
                    user@,
                    bucket,
                    file_size,
                    disk_size,
                    linked_size,
                    s_atime,
                    s_mtime,
                ),
                self.seen_inodes@ == seen_snap,
                self.unk_uids@ == unk_snap,
            decreases count - i,
        {
            let ghost rem = ancs.skip(i as int);
            proof {
                assert(rem[0] == ancestors@[i as int]@);
                assert(rem.drop_first() =~= ancs.skip(i + 1));
            }
            self.add_into(
                ancestors[i].as_slice(),
                user,
                bucket,
                file_size,
                disk_size,
                linked_size,
                s_atime,
                s_mtime,
            );
            i = i + 1;
        }
        proof {
            assert(ancs.skip(count as int) =~= Seq::<Seq<u8>>::empty());
            assert(m0 == old(self).stats_map());
        }
    }
}

/// What `String::from_utf8_lossy` yields, as a function of the bytes alone.
pub uninterp spec fn lossy_of(s: Seq<u8>) -> Seq<char>;

/// Display form of raw path bytes.  Relies on `String::from_utf8_lossy`:
/// the result depends on the bytes alone, valid UTF-8 passes through
/// unchanged, and bytes below 128 pass through one-for-one.
#[verifier::external_body]
pub fn bytes_to_safe_string(bytes: &[u8]) -> (r: String)
    ensures
        r@ == lossy_of(bytes@),
        vstd::utf8::valid_utf8(bytes@) ==> r@ == vstd::utf8::decode_utf8(bytes@),
        (forall|i: int| 0 <= i < bytes@.len() ==> bytes@[i] < 128) ==> (r@.len() == bytes@.len()
            && forall|i: int| 0 <= i < bytes@.len() ==> (r@[i] as u32) == bytes@[i] as u32),
{
    String::from_utf8_lossy(bytes).into_owned()
}

/// The portable fallback for owner names: the uid itself in decimal.  A
/// deployment that can reach the password database resolves real names
/// outside the library and hands them in; this fallback serves platforms
/// without one.
pub fn get_username_from_uid(uid: u32) -> (r: Vec<u8>)
    ensures
        r@ == crate::num::dec_digits(uid as nat),
{
    let mut out: Vec<u8> = Vec::new();
    crate::num::push_u32(&mut out, uid);
    out
}

/// Resolve a uid through a cache of names already seen.
pub fn resolve_user(uid: u32, cache: &mut std::collections::HashMap<u32, Vec<u8>>) -> (r: Vec<u8>)
    ensures
        final(cache)@.contains_key(uid) && r@ == final(cache)@[uid]@,
        old(cache)@.contains_key(uid) ==> r@ == old(cache)@[uid]@ && final(cache)@ == old(cache)@,
        !old(cache)@.contains_key(uid) ==> r@ == crate::num::dec_digits(uid as nat)
            && final(cache)@.dom() == old(cache)@.dom().insert(uid) && (forall|k: u32|
            k != uid && old(cache)@.contains_key(k) ==> #[trigger] final(cache)@[k]
                == old(cache)@[k]),
{
    broadcast use vstd::std_specs::hash::group_hash_axioms;

    match cache.get(&uid) {
        Some(v) => {
            let mut out: Vec<u8> = Vec::new();
            push_all(&mut out, v.as_slice());
            proof {
                assert(out@ =~= old(cache)@[uid]@);
            }
            out
        },
        None => {
            let name = get_username_from_uid(uid);
            let mut copy: Vec<u8> = Vec::new();
            push_all(&mut copy, name.as_slice());
            proof {
                assert(copy@ =~= name@);
            }
            cache.insert(uid, copy);
            name
        },
    }
}

/// Newlines among the first `i` bytes.
pub open spec fn nl_count(data: Seq<u8>, i: int) -> int
    decreases i,
{
    if i <= 0 {
        0
    } else {
        nl_count(data, i - 1) + (if 0 <= i - 1 < data.len() && data[i - 1] == 10 {
            1int
        } else {
            0int
        })
    }
}

proof fn lemma_nl_count_bound(data: Seq<u8>, i: int)
    ensures
        0 <= nl_count(data, i) <= (if i >= 0 {
            i
        } else {
            0
        }),
    decreases i,
{
    if i > 0 {
        lemma_nl_count_bound(data, i - 1);
    }
}

/// Lines in a text: newline characters, with an unterminated last line
/// counting once.
pub open spec fn count_lines_spec(data: Seq<u8>) -> int {
    nl_count(data, data.len() as int) + (if data.len() > 0 && data.last() != 10 {
        1int
    } else {
        0int
    })
}

/// Count the lines of a text.
#[verifier::loop_isolation(false)]
pub fn count_lines(data: &[u8]) -> (r: usize)
    ensures
        r == count_lines_spec(data@),
{
    let n = data.len();
    let mut count: usize = 0;
    let mut i: usize = 0;
    while i < n
        invariant
            0 <= i <= n,
            n == data@.len(),
            count == nl_count(data@, i as int),
            count <= i,
        decreases n - i,
    {
        proof {
            lemma_nl_count_bound(data@, i as int);
        }
        if data[i] == 10 {
            count = count + 1;
        }
        i = i + 1;
    }
    if n > 0 && data[n - 1] != 10 {
        proof {
            lemma_nl_count_bound(data@, n as int);
            assert(nl_count(data@, n as int) <= n - 1) by {
                assert(nl_count(data@, n as int) == nl_count(data@, n - 1));
                lemma_nl_count_bound(data@, n - 1);
            };
        }
        count = count + 1;
    }
    count
}

/// Ascending and duplicate-free.
pub open spec fn uids_sorted(s: Seq<u32>) -> bool {
    forall|i: int| 0 <= i && i + 1 < s.len() ==> (#[trigger] s[i]) < s[i + 1]
}

/// The unknown-uid file: one decimal uid per line.
pub open spec fn render_uids(s: Seq<u32>) -> Seq<u8>
    decreases s.len(),
{
    if s.len() == 0 {
        Seq::empty()
    } else {
        crate::num::dec_digits(s[0] as nat) + seq![10u8] + render_uids(s.drop_first())
    }
}

proof fn lemma_render_uids_push(s: Seq<u32>, v: u32)
    ensures
        render_uids(s.push(v)) == render_uids(s) + crate::num::dec_digits(v as nat) + seq![10u8],
    decreases s.len(),
{
    if s.len() == 0 {
        assert(s.push(v)[0] == v);
        assert(s.push(v).drop_first() =~= Seq::<u32>::empty());
        assert(render_uids(Seq::<u32>::empty()) == Seq::<u8>::empty());
        assert(crate::num::dec_digits(v as nat) + seq![10u8] + Seq::<u8>::empty()
            =~= render_uids(s) + crate::num::dec_digits(v as nat) + seq![10u8]);
    } else {
        assert(s.push(v)[0] == s[0]);
        assert(s.push(v).drop_first() =~= s.drop_first().push(v));
        lemma_render_uids_push(s.drop_first(), v);
        assert(crate::num::dec_digits(s[0] as nat) + seq![10u8] + (render_uids(s.drop_first())
            + crate::num::dec_digits(v as nat) + seq![10u8]) =~= render_uids(s)
            + crate::num::dec_digits(v as nat) + seq![10u8]);
    }
}

/// Put a uid into an ascending list, once.
#[verifier::loop_isolation(false)]
fn insert_uid_sorted(list: &mut Vec<u32>, uid: u32)
    requires
        uids_sorted(old(list)@),
    ensures
        uids_sorted(final(list)@),
        forall|x: u32| final(list)@.contains(x) <==> old(list)@.contains(x) || x == uid,
{
    let n = list.len();
    let mut pos: usize = 0;
    while pos < n && list[pos] < uid
        invariant
            0 <= pos <= n,
            n == list@.len(),
            list@ == old(list)@,
            forall|j: int| 0 <= j < pos ==> (#[trigger] list@[j]) < uid,
        decreases n - pos,
    {
        pos = pos + 1;
    }
    if pos < n && list[pos] == uid {
        proof {
            assert(list@.contains(uid));
        }
        return ;
    }
    list.insert(pos, uid);
    proof {
        let oldv = old(list)@;
        let new = list@;
        oldv.insert_ensures(pos as int, uid);
        let ins = oldv.insert(pos as int, uid);
        assert(new == ins);
        assert(ins =~= oldv.subrange(0, pos as int).push(uid) + oldv.subrange(
            pos as int,
            oldv.len() as int,
        ));
        assert forall|i: int| 0 <= i < pos implies #[trigger] ins[i] == oldv[i] by {
            assert(ins[i] == oldv.subrange(0, pos as int).push(uid)[i]);
            assert(oldv.subrange(0, pos as int)[i] == oldv[i]);
        }
        assert(ins[pos as int] == uid) by {
            assert(ins[pos as int] == oldv.subrange(0, pos as int).push(uid)[pos as int]);
        }
        assert forall|i: int| pos <= i < oldv.len() implies #[trigger] ins[i + 1] == oldv[i] by {
            assert(ins[i + 1] == oldv.subrange(pos as int, oldv.len() as int)[i - pos]);
        }
        assert forall|i: int|
            0 <= i && i + 1 < new.len() implies (#[trigger] new[i]) < new[i + 1] by {
            if i + 1 < pos {
                assert(ins[i] == oldv[i]);
                assert(ins[i + 1] == oldv[i + 1]);
            } else if i + 1 == pos {
                assert(ins[i] == oldv[i]);
                assert(ins[i + 1] == uid);
            } else if i == pos {
                assert(ins[i] == uid);
                assert(ins[i + 1] == oldv[i]);
                assert(!(oldv[i] < uid));
                assert(oldv[i] != uid);
            } else {
                assert(ins[i] == oldv[i - 1]);
                assert(ins[i + 1] == oldv[i]);
            }
        }
        assert forall|x: u32| new.contains(x) <==> oldv.contains(x) || x == uid by {
            if new.contains(x) {
                let w = choose|w: int| 0 <= w < new.len() && new[w] == x;
                if w < pos {
                    assert(oldv[w] == x);
                } else if w > pos {
                    assert(oldv[w - 1] == x);
                }
            }
            if oldv.contains(x) {
                let w = choose|w: int| 0 <= w < oldv.len() && oldv[w] == x;
                if w < pos {
                    assert(new[w] == x);
                } else {
                    assert(new[w + 1] == x);
                }
            }
            if x == uid {
                assert(new[pos as int] == x);
            }
        }
    }
}

/// Render the unknown-uid report: the uids, each once, ascending, one
/// decimal number per line.
#[verifier::loop_isolation(false)]
pub fn write_unknown_uids(uids: &Vec<u32>) -> (r: Vec<u8>)
    ensures
        exists|u: Seq<u32>|
            #[trigger] uids_sorted(u) && r@ == render_uids(u) && (forall|x: u32|
                u.contains(x) <==> uids@.contains(x)),
{
    let mut sorted: Vec<u32> = Vec::new();
    let n = uids.len();
    let mut i: usize = 0;
    while i < n
        invariant
            0 <= i <= n,
            n == uids@.len(),
            uids_sorted(sorted@),
            forall|x: u32| sorted@.contains(x) <==> uids@.take(i as int).contains(x),
        decreases n - i,
    {
        let ghost pre = sorted@;
        insert_uid_sorted(&mut sorted, uids[i]);
        i = i + 1;
        proof {
            assert forall|x: u32| sorted@.contains(x) <==> uids@.take(i as int).contains(x) by {
                if uids@.take(i as int).contains(x) {
                    let w = choose|w: int|
                        0 <= w < uids@.take(i as int).len() && uids@.take(i as int)[w] == x;
                    if w < i - 1 {
                        assert(uids@.take(i - 1)[w] == x);
                    } else {
                        assert(x == uids@[i - 1]);
                    }
                }
                if pre.contains(x) {
                    let w = choose|w: int| 0 <= w < pre.len() && pre[w] == x;
                    assert(uids@.take(i - 1).contains(x));
                    let v = choose|v: int| 0 <= v < i - 1 && #[trigger] uids@.take(i - 1)[v] == x;
                    assert(uids@.take(i as int)[v] == x);
                }
                if x == uids@[i - 1] {
                    assert(uids@.take(i as int)[i - 1] == x);
                }
            }
        }
    }
    proof {
        assert(uids@.take(n as int) =~= uids@);
    }
    let mut out: Vec<u8> = Vec::new();
    let m = sorted.len();
    let mut j: usize = 0;
    while j < m
        invariant
            0 <= j <= m,
            m == sorted@.len(),
            uids_sorted(sorted@),
            forall|x: u32| sorted@.contains(x) <==> uids@.contains(x),
            out@ == render_uids(sorted@.take(j as int)),
        decreases m - j,
    {
        crate::num::push_u32(&mut out, sorted[j]);
        out.push(10);
        j = j + 1;
        proof {
            assert(sorted@.take(j as int) =~= sorted@.take(j - 1).push(sorted@[j - 1]));
            lemma_render_uids_push(sorted@.take(j - 1), sorted@[j - 1]);
            assert(out@ =~= render_uids(sorted@.take(j as int)));
        }
    }
    proof {
        assert(sorted@.take(m as int) =~= sorted@);
    }
    out
}

/// The header line of the rollup CSV, without its newline.
pub open spec fn sum_header_spec() -> Seq<u8> {
    seq![
        112u8, 97u8, 116u8, 104u8, 44u8, 117u8, 115u8, 101u8, 114u8, 44u8, 97u8, 103u8, 101u8,
        44u8, 102u8, 105u8, 108u8, 101u8, 115u8, 44u8, 115u8, 105u8, 122u8, 101u8, 44u8, 100u8,
        105u8, 115u8, 107u8, 44u8, 108u8, 105u8, 110u8, 107u8, 101u8, 100u8, 44u8, 97u8, 99u8,
        99u8, 101u8, 115u8, 115u8, 101u8, 100u8, 44u8, 109u8, 111u8, 100u8, 105u8, 102u8, 105u8,
        101u8, 100u8,
    ]
}

/// Order on cell keys: by folder key, then owner, then bucket.
pub open spec fn key_le(a: (Seq<u8>, Seq<u8>, u8), b: (Seq<u8>, Seq<u8>, u8)) -> bool {
    if a.0 != b.0 {
        crate::quoting::lex_le(a.0, b.0)
    } else if a.1 != b.1 {
        crate::quoting::lex_le(a.1, b.1)
    } else {
        a.2 <= b.2
    }
}

/// One of two cell keys always precedes the other.
pub proof fn lemma_key_le_total(a: (Seq<u8>, Seq<u8>, u8), b: (Seq<u8>, Seq<u8>, u8))
    ensures
        key_le(a, b) || key_le(b, a),
{
    crate::quoting::lemma_lex_total(a.0, b.0);
    crate::quoting::lemma_lex_total(a.1, b.1);
}

/// Order of two rollup entries: by folder key, then owner, then bucket.
fn agg_key_le(a: &AggKey, b: &AggKey) -> (r: bool)
    ensures
        r == key_le(a.keyv(), b.keyv()),
{
    if !crate::quoting::bytes_eq(a.path.as_slice(), b.path.as_slice()) {
        crate::quoting::lex_le_bytes(a.path.as_slice(), b.path.as_slice())
    } else if !crate::quoting::bytes_eq(a.user.as_slice(), b.user.as_slice()) {
        crate::quoting::lex_le_bytes(a.user.as_slice(), b.user.as_slice())
    } else {
        a.age <= b.age
    }
}

/// The cells of the rollup, keys paired with their statistics, in stored
/// order.
pub open spec fn agg_pairs(keys: Seq<AggKey>, cells: Seq<UserStats>) -> Seq<
    ((Seq<u8>, Seq<u8>, u8), UserStats),
> {
    Seq::new(keys.len(), |i: int| (keys[i].keyv(), cells[i]))
}

/// The pair list is sorted by key.
pub open spec fn pairs_sorted(pairs: Seq<((Seq<u8>, Seq<u8>, u8), UserStats)>) -> bool {
    forall|i: int|
        0 <= i && i + 1 < pairs.len() ==> key_le((#[trigger] pairs[i]).0, pairs[i + 1].0)
}

/// One rollup CSV row: the folder key shown lossily and smart-quoted, the
/// owner smart-quoted, then the bucket and the six counters in decimal.
pub open spec fn sum_row_of(kv: (Seq<u8>, Seq<u8>, u8), st: UserStats) -> Seq<u8> {
    crate::quoting::smart_quoted(vstd::utf8::encode_utf8(lossy_of(kv.0))) + seq![44u8]
        + crate::quoting::smart_quoted(kv.1) + seq![44u8] + crate::num::dec_digits(kv.2 as nat)
        + seq![44u8] + crate::num::dec_digits(st.file_count as nat) + seq![44u8]
        + crate::num::dec_digits(st.file_size as nat) + seq![44u8] + crate::num::dec_digits(
        st.disk_size as nat,
    ) + seq![44u8] + crate::num::dec_digits(st.linked_size as nat) + seq![44u8]
        + crate::num::dec_digits_i64(st.latest_atime) + seq![44u8] + crate::num::dec_digits_i64(
        st.latest_mtime,
    ) + seq![10u8]
}

/// The byte run of a list of rollup rows.
pub open spec fn sum_rows_of(pairs: Seq<((Seq<u8>, Seq<u8>, u8), UserStats)>) -> Seq<u8>
    decreases pairs.len(),
{
    if pairs.len() == 0 {
        Seq::empty()
    } else {
        sum_row_of(pairs[0].0, pairs[0].1) + sum_rows_of(pairs.drop_first())
    }
}

proof fn lemma_sum_rows_push(pairs: Seq<((Seq<u8>, Seq<u8>, u8), UserStats)>, p: (
    (Seq<u8>, Seq<u8>, u8),
    UserStats,
))
    ensures
        sum_rows_of(pairs.push(p)) == sum_rows_of(pairs) + sum_row_of(p.0, p.1),
    decreases pairs.len(),
{
    if pairs.len() == 0 {
        assert(pairs.push(p)[0] == p);
        assert(pairs.push(p).drop_first() =~= Seq::<((Seq<u8>, Seq<u8>, u8), UserStats)>::empty());
        assert(sum_rows_of(Seq::<((Seq<u8>, Seq<u8>, u8), UserStats)>::empty())
            == Seq::<u8>::empty());
        assert(sum_row_of(p.0, p.1) + Seq::<u8>::empty() =~= sum_rows_of(pairs) + sum_row_of(
            p.0,
            p.1,
        ));
    } else {
        assert(pairs.push(p)[0] == pairs[0]);
        assert(pairs.push(p).drop_first() =~= pairs.drop_first().push(p));
        lemma_sum_rows_push(pairs.drop_first(), p);
        assert(sum_row_of(pairs[0].0, pairs[0].1) + (sum_rows_of(pairs.drop_first()) + sum_row_of(
            p.0,
            p.1,
        )) =~= sum_rows_of(pairs) + sum_row_of(p.0, p.1));
    }
}

/// Append one rollup row.
#[verifier::rlimit(60)]
fn push_sum_row(out: &mut Vec<u8>, key: &AggKey, cell: UserStats)
    ensures
        final(out)@ == old(out)@ + sum_row_of(key.keyv(), cell),
{
    let shown = bytes_to_safe_string(key.path.as_slice());
    crate::quoting::csv_push_bytes_smart_quoted(out, shown.as_str().as_bytes());
    out.push(44);
    crate::quoting::csv_push_bytes_smart_quoted(out, key.user.as_slice());
    out.push(44);
    crate::num::push_u32(out, key.age as u32);
    out.push(44);
    crate::num::push_u64(out, cell.file_count);
    out.push(44);
    crate::num::push_u64(out, cell.file_size);
    out.push(44);
    crate::num::push_u64(out, cell.disk_size);
    out.push(44);
    crate::num::push_u64(out, cell.linked_size);
    out.push(44);
    crate::num::push_i64(out, cell.latest_atime);
    out.push(44);
    crate::num::push_i64(out, cell.latest_mtime);
    out.push(10);
    proof {
        assert(out@ =~= old(out)@ + sum_row_of(key.keyv(), cell));
    }
}

/// Render the rollup as CSV: the header line, then exactly one row per cell
/// — a permutation of the cells sorted by (folder key, owner, bucket), each
/// row the lossily-shown path, the owner and the six counters in decimal.
#[verifier::loop_isolation(false)]
#[verifier::rlimit(100)]
pub fn write_results(agg: &Aggregator) -> (r: Vec<u8>)
    requires
        agg.wf(),
    ensures
        exists|ordered: Seq<((Seq<u8>, Seq<u8>, u8), UserStats)>|
            {
                &&& #[trigger] pairs_sorted(ordered)
                &&& ordered.to_multiset() == agg_pairs(agg.keys@, agg.cells@).to_multiset()
                &&& r@ == sum_header_spec() + seq![10u8] + sum_rows_of(ordered)
            },
{
    broadcast use vstd::seq_lib::group_to_multiset_ensures;

    let ghost pairs_all = agg_pairs(agg.keys@, agg.cells@);
    // order the cell indices by key
    let n = agg.keys.len();
    let mut order: Vec<usize> = Vec::new();
    let ghost mapped0 = order@.map_values(
        |idx: usize| (agg.keys@[idx as int].keyv(), agg.cells@[idx as int]),
    );
    let mut i: usize = 0;
    proof {
        assert(mapped0 =~= Seq::<((Seq<u8>, Seq<u8>, u8), UserStats)>::empty());
        assert(pairs_all.take(0) =~= Seq::<((Seq<u8>, Seq<u8>, u8), UserStats)>::empty());
        assert(mapped0.to_multiset() =~= pairs_all.take(0).to_multiset());
    }
    while i < n
        invariant
            0 <= i <= n,
            n == agg.keys@.len(),
            agg.keys@.len() == agg.cells@.len(),
            pairs_all == agg_pairs(agg.keys@, agg.cells@),
            forall|w: int| 0 <= w < order@.len() ==> (#[trigger] order@[w]) < n,
            pairs_sorted(
                order@.map_values(
                    |idx: usize| (agg.keys@[idx as int].keyv(), agg.cells@[idx as int]),
                ),
            ),
            order@.map_values(
                |idx: usize| (agg.keys@[idx as int].keyv(), agg.cells@[idx as int]),
            ).to_multiset() == pairs_all.take(i as int).to_multiset(),
        decreases n - i,
    {
        let ghost mapof = |idx: usize| (agg.keys@[idx as int].keyv(), agg.cells@[idx as int]);
        let mut pos: usize = 0;
        let ghost opre = order@;
        while pos < order.len() && agg_key_le(&agg.keys[order[pos]], &agg.keys[i])
            invariant
                0 <= pos <= order@.len(),
                order@ == opre,
                i < n,
                n == agg.keys@.len(),
                agg.keys@.len() == agg.cells@.len(),
                forall|w: int| 0 <= w < order@.len() ==> (#[trigger] order@[w]) < n,
                forall|j: int|
                    0 <= j < pos ==> key_le(
                        (#[trigger] order@.map_values(mapof)[j]).0,
                        agg.keys@[i as int].keyv(),
                    ),
            decreases order@.len() - pos,
        {
            proof {
                assert(order@.map_values(mapof)[pos as int].0
                    == agg.keys@[order@[pos as int] as int].keyv());
            }
            pos = pos + 1;
        }
        proof {
            if pos < order@.len() {
                lemma_key_le_total(
                    agg.keys@[order@[pos as int] as int].keyv(),
                    agg.keys@[i as int].keyv(),
                );
                assert(order@.map_values(mapof)[pos as int].0
                    == agg.keys@[order@[pos as int] as int].keyv());
            }
        }
        order.insert(pos, i);
        i = i + 1;
        proof {
            opre.insert_ensures(pos as int, (i - 1) as usize);
            let ins = opre.insert(pos as int, (i - 1) as usize);
            assert(order@ == ins);
            let mpre = opre.map_values(mapof);
            let mnew = order@.map_values(mapof);
            let pair_i = (agg.keys@[i - 1].keyv(), agg.cells@[i - 1]);
            assert(ins =~= opre.subrange(0, pos as int).push((i - 1) as usize) + opre.subrange(
                pos as int,
                opre.len() as int,
            ));
            assert forall|w: int| 0 <= w < pos implies #[trigger] ins[w] == opre[w] by {
                assert(ins[w] == opre.subrange(0, pos as int).push((i - 1) as usize)[w]);
                assert(opre.subrange(0, pos as int)[w] == opre[w]);
            }
            assert(ins[pos as int] == (i - 1) as usize) by {
                assert(ins[pos as int] == opre.subrange(0, pos as int).push(
                    (i - 1) as usize,
                )[pos as int]);
            }
            assert forall|w: int| pos <= w < opre.len() implies #[trigger] ins[w + 1]
                == opre[w] by {
                assert(ins[w + 1] == opre.subrange(pos as int, opre.len() as int)[w - pos]);
            }
            assert(mnew =~= mpre.insert(pos as int, pair_i));
            crate::sorting::lemma_insert_to_multiset(mpre, pos as int, pair_i);
            assert(pairs_all.take(i as int) =~= pairs_all.take(i - 1).push(pair_i));
            assert(pairs_all.take(i as int).to_multiset() =~= pairs_all.take(
                i - 1,
            ).to_multiset().insert(pair_i));
            assert forall|w: int|
                0 <= w && w + 1 < mnew.len() implies key_le(
                (#[trigger] mnew[w]).0,
                mnew[w + 1].0,
            ) by {
                assert(mnew[w] == mapof(ins[w]));
                assert(mnew[w + 1] == mapof(ins[w + 1]));
                if w + 1 < pos {
                    assert(ins[w] == opre[w]);
                    assert(ins[w + 1] == opre[w + 1]);
                    assert(mpre[w] == mapof(opre[w]));
                    assert(mpre[w + 1] == mapof(opre[w + 1]));
                } else if w + 1 == pos {
                    assert(ins[w] == opre[w]);
                    assert(mpre[w] == mapof(opre[w]));
                } else if w == pos {
                    assert(ins[w + 1] == opre[w]);
                    assert(mpre[w] == mapof(opre[w]));
                } else {
                    assert(ins[w] == opre[w - 1]);
                    assert(ins[w + 1] == opre[w]);
                    assert(mpre[w - 1] == mapof(opre[w - 1]));
                    assert(mpre[w] == mapof(opre[w]));
                }
            }
        }
    }
    proof {
        assert(pairs_all.take(n as int) =~= pairs_all);
    }
    // render
    let header: [u8; 54] = [
        112u8, 97u8, 116u8, 104u8, 44u8, 117u8, 115u8, 101u8, 114u8, 44u8, 97u8, 103u8, 101u8,
        44u8, 102u8, 105u8, 108u8, 101u8, 115u8, 44u8, 115u8, 105u8, 122u8, 101u8, 44u8, 100u8,
        105u8, 115u8, 107u8, 44u8, 108u8, 105u8, 110u8, 107u8, 101u8, 100u8, 44u8, 97u8, 99u8,
        99u8, 101u8, 115u8, 115u8, 101u8, 100u8, 44u8, 109u8, 111u8, 100u8, 105u8, 102u8, 105u8,
        101u8, 100u8,
    ];
    let mut out: Vec<u8> = Vec::new();
    push_all(&mut out, header.as_slice());
    out.push(10);
    let ghost head = out@;
    let ghost mapof = |idx: usize| (agg.keys@[idx as int].keyv(), agg.cells@[idx as int]);
    let ghost ordered = order@.map_values(mapof);
    proof {
        assert(head =~= sum_header_spec() + seq![10u8]);
        assert(ordered.take(0) =~= Seq::<((Seq<u8>, Seq<u8>, u8), UserStats)>::empty());
        assert(out@ =~= head + sum_rows_of(ordered.take(0)));
    }
    let m = order.len();
    let mut j: usize = 0;
    while j < m
        invariant
            0 <= j <= m,
            m == order@.len(),
            n == agg.keys@.len(),
            agg.keys@.len() == agg.cells@.len(),
            forall|w: int| 0 <= w < order@.len() ==> (#[trigger] order@[w]) < n,
            ordered == order@.map_values(mapof),
            mapof == (|idx: usize| (agg.keys@[idx as int].keyv(), agg.cells@[idx as int])),
            head == sum_header_spec() + seq![10u8],
            out@ == head + sum_rows_of(ordered.take(j as int)),
        decreases m - j,
    {
        let idx = order[j];
        push_sum_row(&mut out, &agg.keys[idx], agg.cells[idx]);
        j = j + 1;
        proof {
            assert(ordered[j - 1] == mapof(order@[j - 1]));
            assert(ordered.take(j as int) =~= ordered.take(j - 1).push(ordered[j - 1]));
            lemma_sum_rows_push(ordered.take(j - 1), ordered[j - 1]);
            assert(out@ =~= head + sum_rows_of(ordered.take(j as int)));
        }
    }
    proof {
        assert(ordered.take(m as int) =~= ordered);
        assert(pairs_sorted(ordered));
        assert(ordered.to_multiset() == agg_pairs(agg.keys@, agg.cells@).to_multiset());
        assert(out@ == sum_header_spec() + seq![10u8] + sum_rows_of(ordered));
    }
    out
}

} // verus!
