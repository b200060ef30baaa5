//! Filtering and ordering of a live directory listing, once the walk has
//! handed over plain stat values.

use vstd::prelude::*;

use crate::quoting::{lex_le, lex_le_bytes, lemma_lex_total, push_all};
use crate::sorting::lemma_insert_to_multiset;

verus! {

/// One candidate entry of the walked directory, already statted.
#[derive(Debug)]
pub struct FsItemIn {
    pub path: Vec<u8>,
    pub owner: Vec<u8>,
    pub size: u64,
    pub atime: i64,
    pub mtime: i64,
    pub is_file: bool,
}

/// One file of the listing handed to the API layer.
#[derive(Debug)]
pub struct FsItemOut {
    pub path: Vec<u8>,
    pub owner: Vec<u8>,
    pub size: u64,
    pub accessed: i64,
    pub modified: i64,
}

/// The age bucket of a live file: recent within the young cutoff, old
/// before the old cutoff, middling otherwise.
pub open spec fn live_age(mtime: i64, cutoff_recent: i64, cutoff_old: i64) -> u8 {
    if mtime >= cutoff_recent {
        0
    } else if mtime < cutoff_old {
        2
    } else {
        1
    }
}

/// Whether one candidate belongs in the listing under these filters.
pub open spec fn item_passes(
    it: FsItemIn,
    usernames: Seq<Seq<u8>>,
    age_filter: Option<u8>,
    cutoff_recent: i64,
    cutoff_old: i64,
) -> bool {
    &&& it.is_file
    &&& (usernames.len() > 0 ==> usernames.contains(it.owner@))
    &&& (age_filter matches Some(a) ==> live_age(it.mtime, cutoff_recent, cutoff_old) == a)
}

/// The listing is sorted by path, ascending.
pub open spec fn items_sorted(items: Seq<FsItemOut>) -> bool {
    forall|i: int|
        0 <= i && i + 1 < items.len() ==> lex_le((#[trigger] items[i]).path@, items[i + 1].path@)
}

/// Put one item into the listing at its sorted place.
#[verifier::loop_isolation(false)]
fn insert_item_sorted(items: &mut Vec<FsItemOut>, it: FsItemOut)
    requires
        items_sorted(old(items)@),
    ensures
        items_sorted(final(items)@),
        final(items)@.len() == old(items)@.len() + 1,
        forall|i: int|
            0 <= i < final(items)@.len() ==> final(items)@[i] == it || old(items)@.contains(
                #[trigger] final(items)@[i],
            ),
        out_views(final(items)@).to_multiset() == out_views(old(items)@).to_multiset().insert(
            out_view(it),
        ),
{
    let n = items.len();
    let mut pos: usize = 0;
    while pos < n && lex_le_bytes(items[pos].path.as_slice(), it.path.as_slice())
        invariant
            0 <= pos <= n,
            n == items@.len(),
            items@ == old(items)@,
            forall|j: int| 0 <= j < pos ==> lex_le((#[trigger] items@[j]).path@, it.path@),
        decreases n - pos,
    {
        pos = pos + 1;
    }
    proof {
        if pos < n {
            lemma_lex_total(items@[pos as int].path@, it.path@);
        }
    }
    items.insert(pos, it);
    proof {
        let oldv = old(items)@;
        let new = items@;
        oldv.insert_ensures(pos as int, it);
        let ins = oldv.insert(pos as int, it);
        assert(new == ins);
        assert(ins =~= oldv.subrange(0, pos as int).push(it) + oldv.subrange(
            pos as int,
            oldv.len() as int,
        ));
        assert forall|i: int| 0 <= i < pos implies #[trigger] ins[i] == oldv[i] by {
            assert(ins[i] == oldv.subrange(0, pos as int).push(it)[i]);
            assert(oldv.subrange(0, pos as int)[i] == oldv[i]);
        }
        assert(ins[pos as int] == it) by {
            assert(ins[pos as int] == oldv.subrange(0, pos as int).push(it)[pos as int]);
        }
        assert forall|i: int| pos <= i < oldv.len() implies #[trigger] ins[i + 1] == oldv[i] by {
            assert(ins[i + 1] == oldv.subrange(pos as int, oldv.len() as int)[i - pos]);
        }
        assert forall|i: int|
            0 <= i && i + 1 < new.len() implies lex_le(
            (#[trigger] new[i]).path@,
            new[i + 1].path@,
        ) by {
            if i + 1 < pos {
                assert(ins[i] == oldv[i]);
                assert(ins[i + 1] == oldv[i + 1]);
            } else if i + 1 == pos {
                assert(ins[i] == oldv[i]);
                assert(ins[i + 1] == it);
            } else if i == pos {
                assert(ins[i] == it);
                assert(ins[i + 1] == oldv[i]);
            } else {
                assert(ins[i] == oldv[i - 1]);
                assert(ins[i + 1] == oldv[i]);
            }
        }
        assert forall|i: int|
            0 <= i < new.len() implies new[i] == it || oldv.contains(#[trigger] new[i]) by {
            if i < pos {
                assert(ins[i] == oldv[i]);
            } else if i > pos {
                assert(ins[i] == oldv[i - 1]);
            }
        }
        assert(out_views(new) =~= out_views(oldv).insert(pos as int, out_view(it)));
        lemma_insert_to_multiset(out_views(oldv), pos as int, out_view(it));
    }
}

/// The plain content of a candidate: path, owner, size and times.
pub open spec fn cand_view(c: FsItemIn) -> (Seq<u8>, Seq<u8>, u64, i64, i64) {
    (c.path@, c.owner@, c.size, c.atime, c.mtime)
}

/// The plain content of a listed item.
pub open spec fn out_view(it: FsItemOut) -> (Seq<u8>, Seq<u8>, u64, i64, i64) {
    (it.path@, it.owner@, it.size, it.accessed, it.modified)
}

pub open spec fn out_views(items: Seq<FsItemOut>) -> Seq<(Seq<u8>, Seq<u8>, u64, i64, i64)> {
    items.map_values(|it: FsItemOut| out_view(it))
}

/// The contents of the passing candidates among the first `i`, in order.
pub open spec fn passing_views(
    cands: Seq<FsItemIn>,
    i: int,
    usernames: Seq<Seq<u8>>,
    age_filter: Option<u8>,
    cutoff_recent: i64,
    cutoff_old: i64,
) -> Seq<(Seq<u8>, Seq<u8>, u64, i64, i64)>
    decreases i,
{
    if i <= 0 {
        Seq::empty()
    } else {
        passing_views(cands, i - 1, usernames, age_filter, cutoff_recent, cutoff_old) + (if 0 <= i
            - 1 < cands.len() && item_passes(
            cands[i - 1],
            usernames,
            age_filter,
            cutoff_recent,
            cutoff_old,
        ) {
            seq![cand_view(cands[i - 1])]
        } else {
            Seq::empty()
        })
    }
}

/// The item copies one passing candidate's fields.
pub open spec fn item_from(
    it: FsItemOut,
    candidates: Seq<FsItemIn>,
    usernames: Seq<Seq<u8>>,
    age_filter: Option<u8>,
    cutoff_recent: i64,
    cutoff_old: i64,
) -> bool {
    exists|c: int|
        0 <= c < candidates.len() && item_passes(
            #[trigger] candidates[c],
            usernames,
            age_filter,
            cutoff_recent,
            cutoff_old,
        ) && it.path@ == candidates[c].path@ && it.owner@ == candidates[c].owner@ && it.size
            == candidates[c].size && it.accessed == candidates[c].atime && it.modified
            == candidates[c].mtime
}

/// Keep the files that pass the owner and age filters and hand them back
/// sorted by path: exactly one item per passing candidate, no other.
#[verifier::loop_isolation(false)]
pub fn get_items(
    candidates: Vec<FsItemIn>,
    usernames: &Vec<Vec<u8>>,
    age_filter: Option<u8>,
    cutoff_recent: i64,
    cutoff_old: i64,
) -> (r: Vec<FsItemOut>)
    ensures
        items_sorted(r@),
        forall|i: int|
            0 <= i < r@.len() ==> item_from(
                #[trigger] r@[i],
                candidates@,
                crate::record::field_views(usernames@),
                age_filter,
                cutoff_recent,
                cutoff_old,
            ),
        out_views(r@).to_multiset() == passing_views(
            candidates@,
            candidates@.len() as int,
            crate::record::field_views(usernames@),
            age_filter,
            cutoff_recent,
            cutoff_old,
        ).to_multiset(),
{
    let mut out: Vec<FsItemOut> = Vec::new();
    let n = candidates.len();
    let mut i: usize = 0;
    proof {
        assert(out_views(out@) =~= Seq::<(Seq<u8>, Seq<u8>, u64, i64, i64)>::empty());
        assert(passing_views(
            candidates@,
            0,
            crate::record::field_views(usernames@),
            age_filter,
            cutoff_recent,
            cutoff_old,
        ) == Seq::<(Seq<u8>, Seq<u8>, u64, i64, i64)>::empty());
    }
    while i < n
        invariant
            0 <= i <= n,
            n == candidates@.len(),
            items_sorted(out@),
            forall|w: int|
                0 <= w < out@.len() ==> item_from(
                    #[trigger] out@[w],
                    candidates@,
                    crate::record::field_views(usernames@),
                    age_filter,
                    cutoff_recent,
                    cutoff_old,
                ),
            out_views(out@).to_multiset() == passing_views(
                candidates@,
                i as int,
                crate::record::field_views(usernames@),
                age_filter,
                cutoff_recent,
                cutoff_old,
            ).to_multiset(),
        decreases n - i,
    {
        let ghost fviews0 = crate::record::field_views(usernames@);
        let ghost pv_pre = passing_views(
            candidates@,
            i as int,
            fviews0,
            age_filter,
            cutoff_recent,
            cutoff_old,
        );
        let cand = &candidates[i];
        if !cand.is_file {
            proof {
                lemma_passing_views_skip(
                    candidates@,
                    i as int,
                    fviews0,
                    age_filter,
                    cutoff_recent,
                    cutoff_old,
                );
            }
            i = i + 1;
            continue ;
        }
        if usernames.len() > 0 {
            let mut found = false;
            let un = usernames.len();
            let mut j: usize = 0;
            while j < un && !found
                invariant
                    0 <= j <= un,
                    un == usernames@.len(),
                    i < n,
                    found ==> crate::record::field_views(usernames@).contains(
                        candidates@[i as int].owner@,
                    ),
                    !found ==> forall|k: int|
                        0 <= k < j ==> (#[trigger] usernames@[k])@ != candidates@[i as int].owner@,
                decreases un - j,
            {
                if crate::quoting::bytes_eq(usernames[j].as_slice(), cand.owner.as_slice()) {
                    proof {
                        assert(crate::record::field_views(usernames@)[j as int]
                            == candidates@[i as int].owner@);
                    }
                    found = true;
                }
                j = j + 1;
            }
            if !found {
                proof {
                    if crate::record::field_views(usernames@).contains(
                        candidates@[i as int].owner@,
                    ) {
                        let w = choose|w: int|
                            0 <= w < usernames@.len()
                                && #[trigger] crate::record::field_views(usernames@)[w]
                                == candidates@[i as int].owner@;
                        assert(usernames@[w]@ == candidates@[i as int].owner@);
                    }
                    lemma_passing_views_skip(
                        candidates@,
                        i as int,
                        fviews0,
                        age_filter,
                        cutoff_recent,
                        cutoff_old,
                    );
                }
                i = i + 1;
                continue ;
            }
        }
        let age: u8 = if cand.mtime >= cutoff_recent {
            0
        } else if cand.mtime < cutoff_old {
            2
        } else {
            1
        };
        match age_filter {
            Some(a) => {
                if age != a {
                    proof {
                        lemma_passing_views_skip(
                            candidates@,
                            i as int,
                            fviews0,
                            age_filter,
                            cutoff_recent,
                            cutoff_old,
                        );
                    }
                    i = i + 1;
                    continue ;
                }
            },
            None => {},
        }
        let mut pathc: Vec<u8> = Vec::new();
        push_all(&mut pathc, cand.path.as_slice());
        let mut ownerc: Vec<u8> = Vec::new();
        push_all(&mut ownerc, cand.owner.as_slice());
        let it = FsItemOut {
            path: pathc,
            owner: ownerc,
            size: cand.size,
            accessed: cand.atime,
            modified: cand.mtime,
        };
        proof {
            assert(item_passes(
                candidates@[i as int],
                crate::record::field_views(usernames@),
                age_filter,
                cutoff_recent,
                cutoff_old,
            ));
        }
        let ghost out_pre = out@;
        let ghost fviews = crate::record::field_views(usernames@);
        proof {
            assert(item_from(it, candidates@, fviews, age_filter, cutoff_recent, cutoff_old));
            assert(item_passes(
                candidates@[i as int],
                fviews,
                age_filter,
                cutoff_recent,
                cutoff_old,
            ));
            assert(out_view(it) == cand_view(candidates@[i as int]));
            lemma_passing_views_take(
                candidates@,
                i as int,
                fviews,
                age_filter,
                cutoff_recent,
                cutoff_old,
            );
        }
        insert_item_sorted(&mut out, it);
        proof {
            assert forall|w: int|
                0 <= w < out@.len() implies item_from(
                #[trigger] out@[w],
                candidates@,
                fviews,
                age_filter,
                cutoff_recent,
                cutoff_old,
            ) by {
                if out@[w] != it {
                    assert(out_pre.contains(out@[w]));
                    let v = choose|v: int| 0 <= v < out_pre.len() && out_pre[v] == out@[w];
                }
            }
        }
        i = i + 1;
    }
    out
}

/// A candidate that fails the filters adds nothing to the passing list.
proof fn lemma_passing_views_skip(
    cands: Seq<FsItemIn>,
    i: int,
    usernames: Seq<Seq<u8>>,
    age_filter: Option<u8>,
    cutoff_recent: i64,
    cutoff_old: i64,
)
    requires
        0 <= i < cands.len(),
        !item_passes(cands[i], usernames, age_filter, cutoff_recent, cutoff_old),
    ensures
        passing_views(cands, i + 1, usernames, age_filter, cutoff_recent, cutoff_old)
            == passing_views(cands, i, usernames, age_filter, cutoff_recent, cutoff_old),
{
    assert(passing_views(cands, i + 1, usernames, age_filter, cutoff_recent, cutoff_old)
        =~= passing_views(cands, i, usernames, age_filter, cutoff_recent, cutoff_old)
        + Seq::empty());
    assert(passing_views(cands, i, usernames, age_filter, cutoff_recent, cutoff_old)
        + Seq::empty() =~= passing_views(
        cands,
        i,
        usernames,
        age_filter,
        cutoff_recent,
        cutoff_old,
    ));
}

/// A passing candidate adds exactly its content to the passing list.
proof fn lemma_passing_views_take(
    cands: Seq<FsItemIn>,
    i: int,
    usernames: Seq<Seq<u8>>,
    age_filter: Option<u8>,
    cutoff_recent: i64,
    cutoff_old: i64,
)
    requires
        0 <= i < cands.len(),
        item_passes(cands[i], usernames, age_filter, cutoff_recent, cutoff_old),
    ensures
        passing_views(cands, i + 1, usernames, age_filter, cutoff_recent, cutoff_old).to_multiset()
            == passing_views(
            cands,
            i,
            usernames,
            age_filter,
            cutoff_recent,
            cutoff_old,
        ).to_multiset().insert(cand_view(cands[i])),
{
    broadcast use vstd::seq_lib::group_to_multiset_ensures;

    let pre = passing_views(cands, i, usernames, age_filter, cutoff_recent, cutoff_old);
    assert(passing_views(cands, i + 1, usernames, age_filter, cutoff_recent, cutoff_old)
        =~= pre.push(cand_view(cands[i])));
}

} // verus!
