//! Query parameters of the folder API and the user-list filter they carry.

use vstd::prelude::*;

use crate::num::trim_spec;
use crate::quoting::push_all;

verus! {

/// Parameters of a folder listing request.
#[derive(Debug, Clone)]
pub struct FolderQuery {
    pub path: Option<Vec<u8>>,
    pub users: Option<Vec<u8>>,
    pub age: Option<u8>,
}

/// Parameters of a live file listing request.
#[derive(Debug, Clone)]
pub struct FilesQuery {
    pub path: Option<Vec<u8>>,
    pub users: Option<Vec<u8>>,
    pub age: Option<u8>,
}

/// Index of the first comma, or the length when none occurs.
pub open spec fn first_comma(s: Seq<u8>) -> int
    decreases s.len(),
{
    if s.len() == 0 {
        0
    } else if s[0] == 44 {
        0
    } else {
        1 + first_comma(s.drop_first())
    }
}

pub proof fn lemma_first_comma_props(s: Seq<u8>)
    ensures
        0 <= first_comma(s) <= s.len(),
        first_comma(s) < s.len() ==> s[first_comma(s)] == 44,
        forall|k: int| 0 <= k < first_comma(s) ==> s[k] != 44,
    decreases s.len(),
{
    if s.len() > 0 && s[0] != 44 {
        let t = s.drop_first();
        lemma_first_comma_props(t);
        assert forall|k: int| 0 <= k < first_comma(s) implies s[k] != 44 by {
            if k > 0 {
                assert(s[k] == t[k - 1]);
            }
        }
    }
}

/// The owner names in a comma-separated filter: each piece trimmed, empty
/// pieces dropped.
pub open spec fn users_csv_spec(s: Seq<u8>) -> Seq<Seq<u8>>
    decreases s.len(),
    when true
    via users_csv_spec_decreases
{
    let k = first_comma(s);
    let f = trim_spec(s.take(k));
    let head: Seq<Seq<u8>> = if f.len() > 0 {
        seq![f]
    } else {
        Seq::empty()
    };
    if k == s.len() {
        head
    } else {
        head + users_csv_spec(s.skip(k + 1))
    }
}

#[via_fn]
proof fn users_csv_spec_decreases(s: Seq<u8>) {
    lemma_first_comma_props(s);
}

/// Split a comma-separated user filter into trimmed, nonempty names.
#[verifier::loop_isolation(false)]
pub fn parse_users_csv(s: &[u8]) -> (r: Vec<Vec<u8>>)
    ensures
        crate::record::field_views(r@) == users_csv_spec(s@),
{
    let mut out: Vec<Vec<u8>> = Vec::new();
    let n = s.len();
    let mut start: usize = 0;
    let mut done = false;
    proof {
        assert(s@.skip(0) =~= s@);
        assert(crate::record::field_views(out@) =~= Seq::<Seq<u8>>::empty());
        assert(Seq::<Seq<u8>>::empty() + users_csv_spec(s@) =~= users_csv_spec(s@));
    }
    loop
        invariant
            0 <= start <= n,
            n == s@.len(),
            !done ==> users_csv_spec(s@) == crate::record::field_views(out@) + users_csv_spec(
                s@.skip(start as int),
            ),
            done ==> users_csv_spec(s@) == crate::record::field_views(out@),
        decreases n - start + (if done {
            0int
        } else {
            1int
        }),
    {
        if done {
            break ;
        }
        let ghost rem = s@.skip(start as int);
        let mut q: usize = start;
        while q < n && s[q] != 44
            invariant
                start <= q <= n,
                n == s@.len(),
                forall|k: int| start <= k < q ==> s@[k] != 44,
            decreases n - q,
        {
            q = q + 1;
        }
        proof {
            assert forall|k: int| 0 <= k < q - start implies rem[k] != 44 by {
                assert(rem[k] == s@[start + k]);
            }
            if q < n {
                assert(rem[q - start] == s@[q as int]);
            }
            lemma_first_comma_props(rem);
            if first_comma(rem) < q - start {
                assert(rem[first_comma(rem)] == 44);
                assert(false);
            }
            if first_comma(rem) > q - start {
                assert(false);
            }
            assert(rem.take(q - start) =~= s@.subrange(start as int, q as int));
        }
        let piece = vstd::slice::slice_subrange(s, start, q);
        let trimmed = crate::num::trim_ascii(piece);
        let ghost out_pre = out@;
        if trimmed.len() > 0 {
            let mut owned: Vec<u8> = Vec::new();
            push_all(&mut owned, trimmed);
            out.push(owned);
            proof {
                assert(crate::record::field_views(out@) =~= crate::record::field_views(out_pre)
                    + seq![trim_spec(rem.take(q - start))]);
            }
        } else {
            proof {
                assert(crate::record::field_views(out@) + Seq::<Seq<u8>>::empty()
                    =~= crate::record::field_views(out@));
            }
        }
        if q == n {
            proof {
                assert(first_comma(rem) == rem.len());
            }
            done = true;
        } else {
            proof {
                assert(rem.skip(q - start + 1) =~= s@.skip(q + 1));
                if trimmed@.len() > 0 {
                    assert(crate::record::field_views(out_pre) + (seq![trim_spec(
                        rem.take(q - start),
                    )] + users_csv_spec(s@.skip(q + 1))) =~= crate::record::field_views(out@)
                        + users_csv_spec(s@.skip(q + 1)));
                }
            }
            start = q + 1;
        }
    }
    out
}

} // verus!
