//! The in-memory folder index behind the query API: a path trie for child
//! enumeration and a per-(folder, owner, age) statistics table.

use vstd::prelude::*;

use crate::aggregate::{first_slash, lemma_first_slash_props, norm_slash, strip_trailing_slashes};
use crate::quoting::{bytes_eq, push_all};

verus! {

/// Accumulated statistics for one (folder, owner, age) cell of the index.
#[derive(Clone, Copy, Debug, PartialEq, Eq, Structural)]
pub struct Stats {
    pub file_count: u64,
    pub file_size: u64,
    pub disk_bytes: u64,
    pub linked_size: u64,
    pub latest_atime: i64,
    pub latest_mtime: i64,
}

impl Default for Stats {
    /// All counters zero.
    fn default() -> (r: Self)
        ensures
            r == Stats::zero(),
    {
        Stats {
            file_count: 0,
            file_size: 0,
            disk_bytes: 0,
            linked_size: 0,
            latest_atime: 0,
            latest_mtime: 0,
        }
    }
}

impl Stats {
    /// The empty cell.
    pub open spec fn zero() -> Stats {
        Stats {
            file_count: 0,
            file_size: 0,
            disk_bytes: 0,
            linked_size: 0,
            latest_atime: 0,
            latest_mtime: 0,
        }
    }

    /// The cell after folding in one rollup row: counters saturate upward,
    /// times keep the maximum.
    pub open spec fn folded(
        self,
        files: u64,
        size: u64,
        disk: u64,
        linked: u64,
        atime: i64,
        mtime: i64,
    ) -> Stats {
        Stats {
            file_count: crate::stats::sat_add(self.file_count, files),
            file_size: crate::stats::sat_add(self.file_size, size),
            disk_bytes: crate::stats::sat_add(self.disk_bytes, disk),
            linked_size: crate::stats::sat_add(self.linked_size, linked),
            latest_atime: crate::stats::max_i64(self.latest_atime, atime),
            latest_mtime: crate::stats::max_i64(self.latest_mtime, mtime),
        }
    }

    /// Fold one rollup row into the cell.
    pub fn fold_in(
        &mut self,
        files: u64,
        size: u64,
        disk: u64,
        linked: u64,
        atime: i64,
        mtime: i64,
    )
        ensures
            *final(self) == old(self).folded(files, size, disk, linked, atime, mtime),
    {
        self.file_count = self.file_count.saturating_add(files);
        self.file_size = self.file_size.saturating_add(size);
        self.disk_bytes = self.disk_bytes.saturating_add(disk);
        self.linked_size = self.linked_size.saturating_add(linked);
        if atime > self.latest_atime {
            self.latest_atime = atime;
        }
        if mtime > self.latest_mtime {
            self.latest_mtime = mtime;
        }
    }
}

/// One age bucket of one owner, as handed to the API layer.
#[derive(Clone, Copy, Debug, PartialEq, Eq, Structural)]
pub struct Age {
    pub count: u64,
    pub size: u64,
    pub disk: u64,
    pub linked: u64,
    pub atime: i64,
    pub mtime: i64,
}

/// The age buckets of one owner under one folder.
#[derive(Debug)]
pub struct UserAges {
    pub user: Vec<u8>,
    pub ages: Vec<(u8, Age)>,
}

/// One folder of a directory listing: its path and, per owner, the buckets
/// that hold data.
#[derive(Debug)]
pub struct FolderOut {
    pub path: Vec<u8>,
    pub users: Vec<UserAges>,
}

/// One edge of the path trie.
#[derive(Debug)]
pub struct TrieEdge {
    pub name: Vec<u8>,
    pub node: TrieNode,
}

/// A node of the path trie: child folders by segment name, and the owners
/// seen at or below this folder.
#[derive(Debug)]
pub struct TrieNode {
    pub children: Vec<TrieEdge>,
    pub users: Vec<Vec<u8>>,
}

impl TrieNode {
    /// A leaf with no owners.
    pub fn new() -> (r: TrieNode)
        ensures
            r.children@.len() == 0,
            r.users@.len() == 0,
    {
        TrieNode { children: Vec::new(), users: Vec::new() }
    }

    /// An owner is recorded on this node.
    pub open spec fn has_user(self, user: Seq<u8>) -> bool {
        exists|i: int| 0 <= i < self.users@.len() && (#[trigger] self.users@[i])@ == user
    }
}

/// The trie holds this chain of segments.
pub open spec fn trie_has_path(node: TrieNode, comps: Seq<Seq<u8>>) -> bool
    decreases comps.len(),
{
    if comps.len() == 0 {
        true
    } else {
        exists|i: int|
            0 <= i < node.children@.len() && (#[trigger] node.children@[i]).name@ == comps[0]
                && trie_has_path(node.children@[i].node, comps.drop_first())
    }
}

/// The trie holds this chain of segments with the owner recorded on every
/// node along it.
pub open spec fn trie_user_on_path(node: TrieNode, comps: Seq<Seq<u8>>, user: Seq<u8>) -> bool
    decreases comps.len(),
{
    if comps.len() == 0 {
        true
    } else {
        exists|i: int|
            0 <= i < node.children@.len() && (#[trigger] node.children@[i]).name@ == comps[0]
                && node.children@[i].node.has_user(user) && trie_user_on_path(
                node.children@[i].node,
                comps.drop_first(),
                user,
            )
    }
}

/// Two nodes with the same children hold the same paths and owners below.
proof fn lemma_eq_children_paths(a: TrieNode, b: TrieNode, c: Seq<Seq<u8>>, u: Seq<u8>)
    requires
        a.children@ == b.children@,
    ensures
        trie_user_on_path(a, c, u) == trie_user_on_path(b, c, u),
        trie_has_path(a, c) == trie_has_path(b, c),
{
    if c.len() > 0 {
        if trie_user_on_path(a, c, u) {
            let i = choose|i: int|
                0 <= i < a.children@.len() && (#[trigger] a.children@[i]).name@ == c[0]
                    && a.children@[i].node.has_user(u) && trie_user_on_path(
                    a.children@[i].node,
                    c.drop_first(),
                    u,
                );
            assert(b.children@[i] == a.children@[i]);
        }
        if trie_user_on_path(b, c, u) {
            let i = choose|i: int|
                0 <= i < b.children@.len() && (#[trigger] b.children@[i]).name@ == c[0]
                    && b.children@[i].node.has_user(u) && trie_user_on_path(
                    b.children@[i].node,
                    c.drop_first(),
                    u,
                );
            assert(a.children@[i] == b.children@[i]);
        }
        if trie_has_path(a, c) {
            let i = choose|i: int|
                0 <= i < a.children@.len() && (#[trigger] a.children@[i]).name@ == c[0]
                    && trie_has_path(a.children@[i].node, c.drop_first());
            assert(b.children@[i] == a.children@[i]);
        }
        if trie_has_path(b, c) {
            let i = choose|i: int|
                0 <= i < b.children@.len() && (#[trigger] b.children@[i]).name@ == c[0]
                    && trie_has_path(b.children@[i].node, c.drop_first());
            assert(a.children@[i] == b.children@[i]);
        }
    }
}

/// Add an owner to a node's user set if it is not there yet.
#[verifier::loop_isolation(false)]
fn node_add_user(node: &mut TrieNode, user: &[u8])
    ensures
        final(node).has_user(user@),
        final(node).children@ == old(node).children@,
        forall|u: Seq<u8>| old(node).has_user(u) ==> final(node).has_user(u),
{
    let n = node.users.len();
    let mut i: usize = 0;
    while i < n
        invariant
            0 <= i <= n,
            n == node.users@.len(),
            node.users@ == old(node).users@,
            node.children@ == old(node).children@,
            forall|k: int| 0 <= k < i ==> (#[trigger] node.users@[k])@ != user@,
        decreases n - i,
    {
        if bytes_eq(node.users[i].as_slice(), user) {
            return ;
        }
        i = i + 1;
    }
    let mut copy: Vec<u8> = Vec::new();
    push_all(&mut copy, user);
    proof {
        assert(copy@ =~= user@);
    }
    node.users.push(copy);
    proof {
        let s = node.users@;
        assert(s[s.len() - 1]@ == user@);
        assert forall|u: Seq<u8>| old(node).has_user(u) implies final(node).has_user(u) by {
            if old(node).has_user(u) {
                let j = choose|j: int|
                    0 <= j < old(node).users@.len() && (#[trigger] old(node).users@[j])@ == u;
                assert(s[j]@ == u);
            }
        }
    }
}

/// Insert a component chain below `node`, recording the owner on every node
/// entered; everything already present stays present.
#[verifier::loop_isolation(false)]
#[verifier::rlimit(60)]
fn trie_insert(node: TrieNode, comps: &Vec<Vec<u8>>, idx: usize, user: &[u8]) -> (r: TrieNode)
    requires
        idx <= comps@.len(),
    ensures
        trie_user_on_path(r, crate::record::field_views(comps@).skip(idx as int), user@),
        trie_has_path(r, crate::record::field_views(comps@).skip(idx as int)),
        forall|c: Seq<Seq<u8>>, u: Seq<u8>|
            #[trigger] trie_user_on_path(node, c, u) ==> trie_user_on_path(r, c, u),
        forall|c: Seq<Seq<u8>>| #[trigger] trie_has_path(node, c) ==> trie_has_path(r, c),
        r.users@ == node.users@,
    decreases comps@.len() - idx,
{
    let ghost orig = node;
    let ghost cv = crate::record::field_views(comps@).skip(idx as int);
    if idx == comps.len() {
        proof {
            assert(cv.len() == 0);
        }
        return node;
    }
    proof {
        assert(cv[0] == comps@[idx as int]@);
        assert(cv.drop_first() =~= crate::record::field_views(comps@).skip(idx + 1));
    }
    let mut node = node;
    let n = node.children.len();
    let mut i: usize = 0;
    let mut found = n;
    while i < n && found == n
        invariant
            0 <= i <= n,
            node == orig,
            n == node.children@.len(),
            found == n || (found < i && node.children@[found as int].name@ == comps@[idx as int]@),
            found == n ==> forall|k: int|
                0 <= k < i ==> (#[trigger] node.children@[k]).name@ != comps@[idx as int]@,
        decreases n - i,
    {
        if bytes_eq(node.children[i].name.as_slice(), comps[idx].as_slice()) {
            found = i;
        }
        i = i + 1;
    }
    let ghost pre = node.children@;
    let edge: TrieEdge = if found < n {
        node.children.swap_remove(found)
    } else {
        let mut name_copy: Vec<u8> = Vec::new();
        push_all(&mut name_copy, comps[idx].as_slice());
        proof {
            assert(name_copy@ =~= comps@[idx as int]@);
        }
        TrieEdge { name: name_copy, node: TrieNode::new() }
    };
    let ghost child0 = edge.node;
    let ghost removed = node.children@;
    let mut edge = edge;
    node_add_user(&mut edge.node, user);
    let ghost child1 = edge.node;
    let inner = trie_insert(edge.node, comps, idx + 1, user);
    let new_edge = TrieEdge { name: edge.name, node: inner };
    node.children.push(new_edge);
    proof {
        let cs = node.children@;
        let last = cs.len() - 1;
        assert(cs[last] == new_edge);
        assert(cs[last].name@ == comps@[idx as int]@);
        // the owner stands on the rebuilt child
        assert(inner.users@ == child1.users@);
        assert(child1.has_user(user@));
        assert(inner.has_user(user@)) by {
            let j = choose|j: int|
                0 <= j < child1.users@.len() && (#[trigger] child1.users@[j])@ == user@;
            assert(inner.users@[j]@ == user@);
        }
        assert(trie_user_on_path(node, cv, user@));
        assert(trie_has_path(node, cv));
        // everything present in the original node stays present
        assert forall|c: Seq<Seq<u8>>, u: Seq<u8>|
            #[trigger] trie_user_on_path(orig, c, u) implies trie_user_on_path(node, c, u) by {
            if c.len() > 0 {
                let j = choose|j: int|
                    0 <= j < pre.len() && (#[trigger] pre[j]).name@ == c[0] && pre[j].node.has_user(
                        u,
                    ) && trie_user_on_path(pre[j].node, c.drop_first(), u);
                if found < n && j == found {
                    lemma_eq_children_paths(child0, child1, c.drop_first(), u);
                    assert(trie_user_on_path(child1, c.drop_first(), u));
                    assert(trie_user_on_path(inner, c.drop_first(), u));
                    assert(child1.has_user(u));
                    assert(inner.has_user(u)) by {
                        let w = choose|w: int|
                            0 <= w < child1.users@.len() && (#[trigger] child1.users@[w])@ == u;
                        assert(inner.users@[w]@ == u);
                    }
                    assert(cs[last].name@ == c[0]);
                } else {
                    let jj: int = if found == n {
                        j
                    } else if j < pre.len() - 1 {
                        j
                    } else {
                        found as int
                    };
                    assert(0 <= jj < cs.len() - 1);
                    assert(cs[jj] == pre[j]);
                }
            }
        }
        assert forall|c: Seq<Seq<u8>>| #[trigger] trie_has_path(orig, c) implies trie_has_path(
            node,
            c,
        ) by {
            if c.len() > 0 {
                let j = choose|j: int|
                    0 <= j < pre.len() && (#[trigger] pre[j]).name@ == c[0] && trie_has_path(
                        pre[j].node,
                        c.drop_first(),
                    );
                if found < n && j == found {
                    lemma_eq_children_paths(child0, child1, c.drop_first(), Seq::empty());
                    assert(trie_has_path(child1, c.drop_first()));
                    assert(trie_has_path(inner, c.drop_first()));
                    assert(cs[last].name@ == c[0]);
                } else {
                    let jj: int = if found == n {
                        j
                    } else if j < pre.len() - 1 {
                        j
                    } else {
                        found as int
                    };
                    assert(0 <= jj < cs.len() - 1);
                    assert(cs[jj] == pre[j]);
                }
            }
        }
    }
    node
}

/// A path with slashes forward and exactly one leading slash (empty paths
/// stay empty).
pub open spec fn normalize_spec(s: Seq<u8>) -> Seq<u8> {
    let n = norm_slash(s);
    if n.len() > 0 && n[0] != 47 {
        seq![47u8] + n
    } else {
        n
    }
}

/// The canonical folder key: normalized, trailing slashes dropped, the root
/// staying `/`.
pub open spec fn canonical_spec(s: Seq<u8>) -> Seq<u8> {
    let n = normalize_spec(s);
    if n.len() > 1 {
        strip_trailing_slashes(n)
    } else {
        n
    }
}

/// The nonempty slash-separated segments of a byte string.
pub open spec fn split_segs(s: Seq<u8>) -> Seq<Seq<u8>>
    decreases s.len(),
    when true
    via split_segs_decreases
{
    if s.len() == 0 {
        Seq::empty()
    } else if s[0] == 47 {
        split_segs(s.drop_first())
    } else {
        let k = first_slash(s);
        seq![s.take(k)] + split_segs(s.skip(k))
    }
}

#[via_fn]
proof fn split_segs_decreases(s: Seq<u8>) {
    if s.len() > 0 && s[0] != 47 {
        lemma_first_slash_props(s);
    }
}

/// The path components a query walks: the segments of the normalized path.
pub open spec fn components_spec(s: Seq<u8>) -> Seq<Seq<u8>> {
    split_segs(normalize_spec(s))
}

/// Turn backslashes forward and give the path one leading slash.
#[verifier::loop_isolation(false)]
pub fn normalize_path(path: &[u8]) -> (r: Vec<u8>)
    ensures
        r@ == normalize_spec(path@),
{
    let n = path.len();
    let mut out: Vec<u8> = Vec::new();
    if n > 0 && path[0] != 47 && path[0] != 92 {
        out.push(47);
    }
    let ghost lead = out@;
    let mut i: usize = 0;
    while i < n
        invariant
            0 <= i <= n,
            n == path@.len(),
            out@ =~= lead + norm_slash(path@.take(i as int)),
        decreases n - i,
    {
        let b = path[i];
        out.push(
            if b == 92 {
                47
            } else {
                b
            },
        );
        i = i + 1;
        proof {
            assert(out@ =~= lead + norm_slash(path@.take(i as int)));
        }
    }
    proof {
        assert(path@.take(n as int) =~= path@);
        assert(out@ =~= normalize_spec(path@));
    }
    out
}

/// The canonical folder key of a path.
#[verifier::loop_isolation(false)]
pub fn canonical_key(path: &[u8]) -> (r: Vec<u8>)
    ensures
        r@ == canonical_spec(path@),
{
    let mut out = normalize_path(path);
    let ghost norm = out@;
    if out.len() <= 1 {
        return out;
    }
    while out.len() > 1 && out[out.len() - 1] == 47
        invariant
            out@.len() >= 1,
            strip_trailing_slashes(norm) == strip_trailing_slashes(out@),
        decreases out@.len(),
    {
        proof {
            assert(out@.last() == 47);
            assert(out@.drop_last() =~= out@.subrange(0, out@.len() - 1));
        }
        out.pop();
        proof {
            assert(strip_trailing_slashes(norm) == strip_trailing_slashes(out@));
        }
    }
    proof {
        assert(strip_trailing_slashes(out@) == out@);
    }
    out
}

/// Split a path into the components a query walks.
#[verifier::loop_isolation(false)]
pub fn path_to_components(path: &[u8]) -> (r: Vec<Vec<u8>>)
    ensures
        crate::record::field_views(r@) == components_spec(path@),
{
    let norm = normalize_path(path);
    let ghost nv = norm@;
    let n = norm.len();
    let mut out: Vec<Vec<u8>> = Vec::new();
    let mut p: usize = 0;
    proof {
        assert(nv.skip(0) =~= nv);
        assert(crate::record::field_views(out@) =~= Seq::<Seq<u8>>::empty());
        assert(Seq::<Seq<u8>>::empty() + split_segs(nv) =~= split_segs(nv));
    }
    while p < n
        invariant
            0 <= p <= n,
            n == nv.len(),
            nv == norm@,
            components_spec(path@) == crate::record::field_views(out@) + split_segs(
                nv.skip(p as int),
            ),
        decreases n - p,
    {
        let ghost rem = nv.skip(p as int);
        proof {
            assert(rem[0] == nv[p as int]);
            assert(rem.drop_first() =~= nv.skip(p + 1));
        }
        if norm[p] == 47 {
            p = p + 1;
            continue ;
        }
        let start = p;
        let mut q: usize = p;
        while q < n && norm[q] != 47
            invariant
                start <= q <= n,
                n == nv.len(),
                nv == norm@,
                forall|k: int| start <= k < q ==> nv[k] != 47,
            decreases n - q,
        {
            q = q + 1;
        }
        proof {
            assert forall|k: int| 0 <= k < q - start implies rem[k] != 47 by {
                assert(rem[k] == nv[start + k]);
            }
            if q < n {
                assert(rem[q - start] == nv[q as int]);
            }
            lemma_first_slash_props(rem);
            if first_slash(rem) < q - start {
                assert(rem[first_slash(rem)] == 47);
                assert(false);
            }
            if first_slash(rem) > q - start {
                assert(false);
            }
        }
        let ghost k = first_slash(rem);
        let seg = vstd::slice::slice_subrange(norm.as_slice(), start, q);
        let mut segv: Vec<u8> = Vec::new();
        push_all(&mut segv, seg);
        out.push(segv);
        p = q;
        proof {
            assert(seg@ =~= rem.take(k));
            assert(rem.skip(k) =~= nv.skip(p as int));
            assert(crate::record::field_views(out@) =~= crate::record::field_views(
                out@.drop_last(),
            ) + seq![out@.last()@]);
            assert(out@.last()@ =~= rem.take(k));
            assert(crate::record::field_views(out@.drop_last()) + (seq![rem.take(k)] + split_segs(
                nv.skip(p as int),
            )) =~= crate::record::field_views(out@) + split_segs(nv.skip(p as int)));
        }
    }
    proof {
        assert(nv.skip(n as int) =~= Seq::<u8>::empty());
        assert(crate::record::field_views(out@) + Seq::<Seq<u8>>::empty()
            =~= crate::record::field_views(out@));
    }
    out
}

/// One row of the statistics table.
#[derive(Debug)]
pub struct StatsEntry {
    pub path: Vec<u8>,
    pub user: Vec<u8>,
    pub age: u8,
    pub stats: Stats,
}

impl StatsEntry {
    /// The mathematical key.
    pub open spec fn keyv(self) -> (Seq<u8>, Seq<u8>, u8) {
        (self.path@, self.user@, self.age)
    }
}

/// The first cell stored under a key, scanning front to back.
pub open spec fn stats_lookup(es: Seq<StatsEntry>, k: (Seq<u8>, Seq<u8>, u8)) -> Option<Stats>
    decreases es.len(),
{
    if es.len() == 0 {
        None
    } else if es[0].keyv() == k {
        Some(es[0].stats)
    } else {
        stats_lookup(es.drop_first(), k)
    }
}

/// A scan that saw no match up to `i` may as well start there.
proof fn lemma_stats_lookup_skip(es: Seq<StatsEntry>, k: (Seq<u8>, Seq<u8>, u8), i: int)
    requires
        0 <= i <= es.len(),
        forall|j: int| 0 <= j < i ==> (#[trigger] es[j]).keyv() != k,
    ensures
        stats_lookup(es, k) == stats_lookup(es.skip(i), k),
    decreases i,
{
    if i > 0 {
        assert(es[0].keyv() != k);
        assert(es.drop_first().skip(i - 1) =~= es.skip(i));
        assert forall|j: int| 0 <= j < i - 1 implies (#[trigger] es.drop_first()[j]).keyv()
            != k by {
            assert(es.drop_first()[j] == es[j + 1]);
        }
        lemma_stats_lookup_skip(es.drop_first(), k, i - 1);
    } else {
        assert(es.skip(0) =~= es);
    }
}

/// Replacing the cell at `i` does not move any other key's cell.
proof fn lemma_stats_lookup_update_other(
    es: Seq<StatsEntry>,
    i: int,
    e: StatsEntry,
    k: (Seq<u8>, Seq<u8>, u8),
)
    requires
        0 <= i < es.len(),
        es[i].keyv() != k,
        e.keyv() != k,
    ensures
        stats_lookup(es.update(i, e), k) == stats_lookup(es, k),
    decreases es.len(),
{
    let es2 = es.update(i, e);
    if i == 0 {
        assert(es2[0] == e);
        assert(es2.drop_first() =~= es.drop_first());
    } else {
        assert(es2[0] == es[0]);
        assert(es2.drop_first() =~= es.drop_first().update(i - 1, e));
        lemma_stats_lookup_update_other(es.drop_first(), i - 1, e, k);
    }
}

/// Appending an entry leaves every key that was already served unchanged,
/// and serves its own key when that key was absent.
proof fn lemma_stats_lookup_push(es: Seq<StatsEntry>, e: StatsEntry, k: (Seq<u8>, Seq<u8>, u8))
    ensures
        stats_lookup(es, k) is Some ==> stats_lookup(es.push(e), k) == stats_lookup(es, k),
        stats_lookup(es, k) is None && e.keyv() == k ==> stats_lookup(es.push(e), k) == Some(
            e.stats,
        ),
        stats_lookup(es, k) is None && e.keyv() != k ==> stats_lookup(es.push(e), k)
            is None,
    decreases es.len(),
{
    if es.len() == 0 {
        assert(es.push(e)[0] == e);
        assert(es.push(e).drop_first() =~= Seq::<StatsEntry>::empty());
        assert(stats_lookup(es, k) is None);
        if e.keyv() == k {
            assert(stats_lookup(es.push(e), k) == Some(e.stats));
        } else {
            assert(stats_lookup(es.push(e), k) == stats_lookup(Seq::<StatsEntry>::empty(), k));
        }
    } else {
        assert(es.push(e)[0] == es[0]);
        assert(es.push(e).drop_first() =~= es.drop_first().push(e));
        lemma_stats_lookup_push(es.drop_first(), e, k);
        if es[0].keyv() == k {
            assert(stats_lookup(es, k) == Some(es[0].stats));
            assert(stats_lookup(es.push(e), k) == Some(es[0].stats));
        } else {
            assert(stats_lookup(es, k) == stats_lookup(es.drop_first(), k));
            assert(stats_lookup(es.push(e), k) == stats_lookup(es.drop_first().push(e), k));
        }
    }
}

/// Owners recorded for each canonical folder key.
#[derive(Debug)]
pub struct PathUsers {
    pub path: Vec<u8>,
    pub users: Vec<Vec<u8>>,
}

/// The owner is listed for this folder key.
pub open spec fn user_listed(ubp: Seq<PathUsers>, pkey: Seq<u8>, user: Seq<u8>) -> bool {
    exists|i: int, j: int|
        0 <= i < ubp.len() && (#[trigger] ubp[i]).path@ == pkey && 0 <= j < ubp[i].users@.len() && (
        #[trigger] ubp[i].users@[j])@ == user
}

/// Index of the first edge with this name, or the count when none has it.
pub open spec fn child_at(children: Seq<TrieEdge>, name: Seq<u8>) -> int
    decreases children.len(),
{
    if children.len() == 0 {
        0
    } else if children[0].name@ == name {
        0
    } else {
        1 + child_at(children.drop_first(), name)
    }
}

pub proof fn lemma_child_at_props(children: Seq<TrieEdge>, name: Seq<u8>)
    ensures
        0 <= child_at(children, name) <= children.len(),
        child_at(children, name) < children.len() ==> children[child_at(children, name)].name@
            == name,
        forall|k: int| 0 <= k < child_at(children, name) ==> (#[trigger] children[k]).name@ != name,
    decreases children.len(),
{
    if children.len() > 0 && children[0].name@ != name {
        let t = children.drop_first();
        lemma_child_at_props(t, name);
        assert forall|k: int| 0 <= k < child_at(children, name) implies (#[trigger] children[k]).name@
            != name by {
            if k > 0 {
                assert(children[k] == t[k - 1]);
            }
        }
    }
}

/// A scan that stopped at the first matching edge found `child_at`.
pub proof fn lemma_child_at_end(children: Seq<TrieEdge>, name: Seq<u8>, n: int)
    requires
        0 <= n <= children.len(),
        forall|k: int| 0 <= k < n ==> (#[trigger] children[k]).name@ != name,
        n == children.len() || children[n].name@ == name,
    ensures
        n == child_at(children, name),
    decreases children.len(),
{
    if children.len() == 0 {
    } else if n == 0 {
    } else {
        let t = children.drop_first();
        assert forall|k: int| 0 <= k < n - 1 implies (#[trigger] t[k]).name@ != name by {
            assert(t[k] == children[k + 1]);
        }
        if n < children.len() {
            assert(children[n] == t[n - 1]);
        }
        lemma_child_at_end(t, name, n - 1);
    }
}

/// Walk the trie along a component chain, always through the first edge
/// whose name matches.
pub open spec fn trie_walk(node: TrieNode, comps: Seq<Seq<u8>>) -> Option<TrieNode>
    decreases comps.len(),
{
    if comps.len() == 0 {
        Some(node)
    } else {
        let i = child_at(node.children@, comps[0]);
        if i < node.children@.len() {
            trie_walk(node.children@[i].node, comps.drop_first())
        } else {
            None
        }
    }
}

/// Why a folder query fails.
#[derive(Debug, Clone, PartialEq, Eq, Structural)]
pub enum IndexError {
    /// No folder with that path stands in the index.
    DirectoryNotFound,
}

impl IndexError {
    /// A single-line description for reports.
    pub fn message(&self) -> (r: &'static str) {
        match self {
            IndexError::DirectoryNotFound => "Directory not found",
        }
    }
}

/// All trailing slashes dropped, possibly to nothing.
pub open spec fn trim_trail_all(s: Seq<u8>) -> Seq<u8>
    decreases s.len(),
{
    if s.len() > 0 && s.last() == 47 {
        trim_trail_all(s.drop_last())
    } else {
        s
    }
}

/// The full path of a child of the listed folder.
pub open spec fn child_full_path(base: Seq<u8>, name: Seq<u8>) -> Seq<u8> {
    if base.len() == 0 || base == seq![47u8] {
        seq![47u8] + name
    } else {
        trim_trail_all(base) + seq![47u8] + name
    }
}

/// Index of the first owner-list entry for this folder key, or the count.
pub open spec fn ubp_at(ubp: Seq<PathUsers>, pkey: Seq<u8>) -> int
    decreases ubp.len(),
{
    if ubp.len() == 0 {
        0
    } else if ubp[0].path@ == pkey {
        0
    } else {
        1 + ubp_at(ubp.drop_first(), pkey)
    }
}

/// A scan that stopped at the first matching entry found `ubp_at`.
pub proof fn lemma_ubp_at_end(ubp: Seq<PathUsers>, pkey: Seq<u8>, n: int)
    requires
        0 <= n <= ubp.len(),
        forall|k: int| 0 <= k < n ==> (#[trigger] ubp[k]).path@ != pkey,
        n == ubp.len() || ubp[n].path@ == pkey,
    ensures
        n == ubp_at(ubp, pkey),
    decreases ubp.len(),
{
    if ubp.len() == 0 {
    } else if n == 0 {
    } else {
        let t = ubp.drop_first();
        assert forall|k: int| 0 <= k < n - 1 implies (#[trigger] t[k]).path@ != pkey by {
            assert(t[k] == ubp[k + 1]);
        }
        if n < ubp.len() {
            assert(ubp[n] == t[n - 1]);
        }
        lemma_ubp_at_end(t, pkey, n - 1);
    }
}

/// This owner passes the filter and holds data in some asked-for bucket of
/// the folder key.
pub open spec fn owner_included(
    idx: InMemoryFSIndex,
    pkey: Seq<u8>,
    u: Seq<u8>,
    filter: Seq<Seq<u8>>,
    af: Option<u8>,
) -> bool {
    &&& (filter.len() > 0 ==> filter.contains(u))
    &&& match af {
        Some(a) => stats_lookup(idx.per_user_age@, (pkey, u, a)) is Some,
        None => exists|b: u8|
            b <= 2 && #[trigger] stats_lookup(idx.per_user_age@, (pkey, u, b)) is Some,
    }
}

/// The folder key has a first owner-list entry and some owner there is
/// included under the filters.
pub open spec fn key_has_owner(
    idx: InMemoryFSIndex,
    pkey: Seq<u8>,
    filter: Seq<Seq<u8>>,
    af: Option<u8>,
) -> bool {
    let ui = ubp_at(idx.users_by_path@, pkey);
    &&& ui < idx.users_by_path@.len()
    &&& exists|j: int|
        0 <= j < idx.users_by_path@[ui].users@.len() && owner_included(
            idx,
            pkey,
            (#[trigger] idx.users_by_path@[ui].users@[j])@,
            filter,
            af,
        )
}

/// The child deserves a listing entry: some owner of its canonical key is
/// included under the filters.
pub open spec fn child_listed(
    idx: InMemoryFSIndex,
    base: Seq<u8>,
    name: Seq<u8>,
    filter: Seq<Seq<u8>>,
    af: Option<u8>,
) -> bool {
    key_has_owner(idx, canonical_spec(child_full_path(base, name)), filter, af)
}

/// The API shape of one statistics cell.
pub open spec fn age_of(s: Stats) -> Age {
    Age {
        count: s.file_count,
        size: s.file_size,
        disk: s.disk_bytes,
        linked: s.linked_size,
        atime: s.latest_atime,
        mtime: s.latest_mtime,
    }
}

/// The listing is sorted by path, ascending.
pub open spec fn folders_sorted(items: Seq<FolderOut>) -> bool {
    forall|i: int|
        0 <= i && i + 1 < items.len() ==> crate::quoting::lex_le(
            (#[trigger] items[i]).path@,
            items[i + 1].path@,
        )
}

/// Everything a returned folder claims is true of the index: every owner
/// block is nonempty and allowed by the filter, every bucket obeys the age
/// filter, and every figure is the cell stored for (key, owner, bucket).
pub open spec fn item_ok(
    idx: InMemoryFSIndex,
    fo: FolderOut,
    filter: Seq<Seq<u8>>,
    af: Option<u8>,
) -> bool {
    &&& fo.users@.len() >= 1
    &&& forall|ui: int|
        0 <= ui < fo.users@.len() ==> {
            let ua = #[trigger] fo.users@[ui];
            &&& ua.ages@.len() >= 1
            &&& user_listed(idx.users_by_path@, canonical_spec(fo.path@), ua.user@)
            &&& (filter.len() > 0 ==> filter.contains(ua.user@))
            &&& forall|ai: int|
                0 <= ai < ua.ages@.len() ==> {
                    let pair = #[trigger] ua.ages@[ai];
                    &&& (af matches Some(a) ==> pair.0 == a)
                    &&& (af is None ==> pair.0 <= 2)
                    &&& stats_lookup(
                        idx.per_user_age@,
                        (canonical_spec(fo.path@), ua.user@, pair.0),
                    ) matches Some(s) && pair.1 == age_of(s)
                }
        }
}

/// The index served to the query layer: the path trie, the statistics table
/// and the owner lists per folder key.
#[derive(Debug)]
pub struct InMemoryFSIndex {
    pub root: TrieNode,
    pub total_entries: usize,
    pub per_user_age: Vec<StatsEntry>,
    pub users_by_path: Vec<PathUsers>,
}

impl InMemoryFSIndex {
    /// An empty index.
    pub fn new() -> (r: InMemoryFSIndex)
        ensures
            r.total_entries == 0,
            r.per_user_age@.len() == 0,
            r.users_by_path@.len() == 0,
            r.root.children@.len() == 0,
    {
        InMemoryFSIndex {
            root: TrieNode::new(),
            total_entries: 0,
            per_user_age: Vec::new(),
            users_by_path: Vec::new(),
        }
    }

    /// Record every component of the path in the trie, with the owner on
    /// each node entered; nothing already present is lost.
    pub fn insert_path(&mut self, path: &[u8], username: &[u8])
        ensures
            trie_user_on_path(final(self).root, components_spec(path@), username@),
            trie_has_path(final(self).root, components_spec(path@)),
            forall|c: Seq<Seq<u8>>, u: Seq<u8>|
                #[trigger] trie_user_on_path(old(self).root, c, u) ==> trie_user_on_path(
                    final(self).root,
                    c,
                    u,
                ),
            forall|c: Seq<Seq<u8>>|
                #[trigger] trie_has_path(old(self).root, c) ==> trie_has_path(final(self).root, c),
            final(self).per_user_age@ == old(self).per_user_age@,
            final(self).users_by_path@ == old(self).users_by_path@,
            final(self).total_entries == old(self).total_entries,
    {
        let comps = path_to_components(path);
        let mut root = TrieNode::new();
        core::mem::swap(&mut root, &mut self.root);
        proof {
            assert(crate::record::field_views(comps@).skip(0) =~= components_spec(path@));
        }
        let newroot = trie_insert(root, &comps, 0, username);
        self.root = newroot;
    }

    /// Fold one rollup row into the cell of (folder key, owner, age); every
    /// other cell keeps its value.
    #[verifier::loop_isolation(false)]
    pub fn upsert_stats(
        &mut self,
        pkey: &[u8],
        user: &[u8],
        age: u8,
        files: u64,
        size: u64,
        disk: u64,
        linked: u64,
        atime: i64,
        mtime: i64,
    )
        ensures
            ({
                let k = (pkey@, user@, age);
                let cell = match stats_lookup(old(self).per_user_age@, k) {
                    Some(s) => s,
                    None => Stats::zero(),
                };
                stats_lookup(final(self).per_user_age@, k) == Some(
                    cell.folded(files, size, disk, linked, atime, mtime),
                )
            }),
            forall|k2: (Seq<u8>, Seq<u8>, u8)|
                k2 != (pkey@, user@, age) ==> #[trigger] stats_lookup(
                    final(self).per_user_age@,
                    k2,
                ) == stats_lookup(old(self).per_user_age@, k2),
            final(self).root == old(self).root,
            final(self).users_by_path@ == old(self).users_by_path@,
            final(self).total_entries == old(self).total_entries,
    {
        let ghost k = (pkey@, user@, age);
        let n = self.per_user_age.len();
        let mut i: usize = 0;
        while i < n
            invariant
                0 <= i <= n,
                n == self.per_user_age@.len(),
                *self == *old(self),
                forall|j: int| 0 <= j < i ==> (#[trigger] self.per_user_age@[j]).keyv() != k,
            decreases n - i,
        {
            let cand = &self.per_user_age[i];
            if cand.age == age && bytes_eq(cand.path.as_slice(), pkey) && bytes_eq(
                cand.user.as_slice(),
                user,
            ) {
                let mut cell = self.per_user_age[i].stats;
                cell.fold_in(files, size, disk, linked, atime, mtime);
                let mut pathc: Vec<u8> = Vec::new();
                push_all(&mut pathc, pkey);
                let mut userc: Vec<u8> = Vec::new();
                push_all(&mut userc, user);
                let e = StatsEntry { path: pathc, user: userc, age, stats: cell };
                proof {
                    let es = self.per_user_age@;
                    lemma_stats_lookup_skip(es, k, i as int);
                    assert(es.skip(i as int)[0] == es[i as int]);
                    assert(stats_lookup(es, k) == Some(es[i as int].stats));
                    assert(e.keyv() == k);
                }
                self.per_user_age[i] = e;
                proof {
                    let es = self.per_user_age@;
                    assert forall|j: int| 0 <= j < i implies (#[trigger] es[j]).keyv() != k by {
                        assert(es[j] == old(self).per_user_age@[j]);
                    }
                    lemma_stats_lookup_skip(es, k, i as int);
                    assert(es.skip(i as int)[0] == es[i as int]);
                    assert(stats_lookup(es, k) == Some(es[i as int].stats));
                    assert forall|k2: (Seq<u8>, Seq<u8>, u8)| k2 != k implies #[trigger] stats_lookup(
                        es,
                        k2,
                    ) == stats_lookup(old(self).per_user_age@, k2) by {
                        lemma_stats_lookup_update_other(
                            old(self).per_user_age@,
                            i as int,
                            e,
                            k2,
                        );
                    }
                }
                return ;
            }
            i = i + 1;
        }
        let mut pathc: Vec<u8> = Vec::new();
        push_all(&mut pathc, pkey);
        let mut userc: Vec<u8> = Vec::new();
        push_all(&mut userc, user);
        let mut cell = Stats::default();
        cell.fold_in(files, size, disk, linked, atime, mtime);
        let e = StatsEntry { path: pathc, user: userc, age, stats: cell };
        proof {
            let es = self.per_user_age@;
            lemma_stats_lookup_skip(es, k, es.len() as int);
            assert(es.skip(es.len() as int) =~= Seq::<StatsEntry>::empty());
            assert(stats_lookup(es, k) is None);
            assert(e.keyv() == k);
        }
        self.per_user_age.push(e);
        proof {
            assert(self.per_user_age@ =~= old(self).per_user_age@.push(e));
            lemma_stats_lookup_push(old(self).per_user_age@, e, k);
            assert forall|k2: (Seq<u8>, Seq<u8>, u8)| k2 != k implies #[trigger] stats_lookup(
                self.per_user_age@,
                k2,
            ) == stats_lookup(old(self).per_user_age@, k2) by {
                lemma_stats_lookup_push(old(self).per_user_age@, e, k2);
            }
        }
    }

    /// Record an owner under a folder key; everything listed stays listed.
    #[verifier::loop_isolation(false)]
    pub fn add_user_for_path(&mut self, pkey: &[u8], user: &[u8])
        ensures
            user_listed(final(self).users_by_path@, pkey@, user@),
            forall|p: Seq<u8>, u: Seq<u8>|
                #[trigger] user_listed(old(self).users_by_path@, p, u) ==> user_listed(
                    final(self).users_by_path@,
                    p,
                    u,
                ),
            final(self).root == old(self).root,
            final(self).per_user_age@ == old(self).per_user_age@,
            final(self).total_entries == old(self).total_entries,
    {
        let n = self.users_by_path.len();
        let mut i: usize = 0;
        while i < n
            invariant
                0 <= i <= n,
                n == self.users_by_path@.len(),
                *self == *old(self),
            decreases n - i,
        {
            if bytes_eq(self.users_by_path[i].path.as_slice(), pkey) {
                // extend this entry's user list in place
                let mut entry = self.users_by_path.swap_remove(i);
                let ghost entry0 = entry;
                let m = entry.users.len();
                let mut j: usize = 0;
                let mut present = false;
                while j < m && !present
                    invariant
                        0 <= j <= m,
                        m == entry.users@.len(),
                        entry == entry0,
                        present ==> exists|w: int|
                            0 <= w < entry.users@.len() && (#[trigger] entry.users@[w])@ == user@,
                    decreases m - j,
                {
                    if bytes_eq(entry.users[j].as_slice(), user) {
                        present = true;
                    }
                    j = j + 1;
                }
                if !present {
                    let mut copy: Vec<u8> = Vec::new();
                    push_all(&mut copy, user);
                    proof {
                        assert(copy@ =~= user@);
                    }
                    entry.users.push(copy);
                }
                proof {
                    assert(exists|w: int|
                        0 <= w < entry.users@.len() && (#[trigger] entry.users@[w])@ == user@) by {
                        if !present {
                            let s = entry.users@;
                            assert(s[s.len() - 1]@ == user@);
                        }
                    }
                }
                self.users_by_path.push(entry);
                proof {
                    let ubp = self.users_by_path@;
                    let last = ubp.len() - 1;
                    assert(ubp[last] == entry);
                    assert(ubp[last].path@ == pkey@);
                    assert(user_listed(ubp, pkey@, user@));
                    let pre = old(self).users_by_path@;
                    assert forall|p: Seq<u8>, u: Seq<u8>|
                        #[trigger] user_listed(pre, p, u) implies user_listed(ubp, p, u) by {
                        let (a, b): (int, int) = choose|a: int, b: int|
                            0 <= a < pre.len() && (#[trigger] pre[a]).path@ == p && 0 <= b
                                < pre[a].users@.len() && (#[trigger] pre[a].users@[b])@ == u;
                        if a == i {
                            assert(ubp[last].path@ == p);
                            assert(entry.users@[b]@ == u) by {
                                if !present {
                                    assert(entry.users@[b] == entry0.users@[b]);
                                }
                            }
                        } else {
                            let aa: int = if a < pre.len() - 1 {
                                a
                            } else {
                                i as int
                            };
                            assert(ubp[aa] == pre[a]);
                        }
                    }
                }
                return ;
            }
            i = i + 1;
        }
        let mut pathc: Vec<u8> = Vec::new();
        push_all(&mut pathc, pkey);
        let mut copy: Vec<u8> = Vec::new();
        push_all(&mut copy, user);
        let mut users: Vec<Vec<u8>> = Vec::new();
        users.push(copy);
        let entry = PathUsers { path: pathc, users };
        self.users_by_path.push(entry);
        proof {
            let ubp = self.users_by_path@;
            let last = ubp.len() - 1;
            assert(ubp[last].path@ == pkey@);
            assert(ubp[last].users@[0]@ == user@);
            let pre = old(self).users_by_path@;
            assert forall|p: Seq<u8>, u: Seq<u8>|
                #[trigger] user_listed(pre, p, u) implies user_listed(ubp, p, u) by {
                let (a, b): (int, int) = choose|a: int, b: int|
                    0 <= a < pre.len() && (#[trigger] pre[a]).path@ == p && 0 <= b
                        < pre[a].users@.len() && (#[trigger] pre[a].users@[b])@ == u;
                assert(ubp[a] == pre[a]);
            }
        }
    }

    /// The cell stored for (folder key, owner, age), if any.
    #[verifier::loop_isolation(false)]
    pub fn find_stats(&self, pkey: &[u8], user: &[u8], age: u8) -> (r: Option<Stats>)
        ensures
            r == stats_lookup(self.per_user_age@, (pkey@, user@, age)),
    {
        let ghost k = (pkey@, user@, age);
        let n = self.per_user_age.len();
        let mut i: usize = 0;
        while i < n
            invariant
                0 <= i <= n,
                n == self.per_user_age@.len(),
                forall|j: int| 0 <= j < i ==> (#[trigger] self.per_user_age@[j]).keyv() != k,
            decreases n - i,
        {
            let cand = &self.per_user_age[i];
            if cand.age == age && bytes_eq(cand.path.as_slice(), pkey) && bytes_eq(
                cand.user.as_slice(),
                user,
            ) {
                proof {
                    lemma_stats_lookup_skip(self.per_user_age@, k, i as int);
                    assert(self.per_user_age@.skip(i as int)[0] == self.per_user_age@[i as int]);
                }
                return Some(self.per_user_age[i].stats);
            }
            i = i + 1;
        }
        proof {
            lemma_stats_lookup_skip(self.per_user_age@, k, n as int);
            assert(self.per_user_age@.skip(n as int) =~= Seq::<StatsEntry>::empty());
        }
        None
    }

    /// Find the first owner-list entry for a folder key, if any.
    #[verifier::loop_isolation(false)]
    fn users_for_key(&self, pkey: &[u8]) -> (r: Option<usize>)
        ensures
            r matches Some(i) ==> i < self.users_by_path@.len()
                && self.users_by_path@[i as int].path@ == pkey@ && i as int == ubp_at(
                self.users_by_path@,
                pkey@,
            ),
            r is None ==> ubp_at(self.users_by_path@, pkey@) == self.users_by_path@.len(),
    {
        let n = self.users_by_path.len();
        let mut i: usize = 0;
        while i < n
            invariant
                0 <= i <= n,
                n == self.users_by_path@.len(),
                forall|k: int| 0 <= k < i ==> (#[trigger] self.users_by_path@[k]).path@ != pkey@,
            decreases n - i,
        {
            if bytes_eq(self.users_by_path[i].path.as_slice(), pkey) {
                proof {
                    lemma_ubp_at_end(self.users_by_path@, pkey@, i as int);
                }
                return Some(i);
            }
            i = i + 1;
        }
        proof {
            lemma_ubp_at_end(self.users_by_path@, pkey@, n as int);
        }
        None
    }
}

/// An owner name occurs in a filter list.
#[verifier::loop_isolation(false)]
fn filter_contains(filter: &Vec<Vec<u8>>, user: &[u8]) -> (r: bool)
    ensures
        r == crate::record::field_views(filter@).contains(user@),
{
    let n = filter.len();
    let mut i: usize = 0;
    while i < n
        invariant
            0 <= i <= n,
            n == filter@.len(),
            forall|j: int| 0 <= j < i ==> (#[trigger] filter@[j])@ != user@,
        decreases n - i,
    {
        if bytes_eq(filter[i].as_slice(), user) {
            proof {
                assert(crate::record::field_views(filter@)[i as int] == user@);
            }
            return true;
        }
        i = i + 1;
    }
    proof {
        if crate::record::field_views(filter@).contains(user@) {
            let j = choose|j: int|
                0 <= j < filter@.len() && #[trigger] crate::record::field_views(filter@)[j]
                    == user@;
            assert(filter@[j]@ == user@);
        }
    }
    false
}

/// Put one folder into the listing at its sorted place.
#[verifier::loop_isolation(false)]
fn insert_folder_sorted(items: &mut Vec<FolderOut>, fo: FolderOut)
    requires
        folders_sorted(old(items)@),
    ensures
        folders_sorted(final(items)@),
        final(items)@.len() == old(items)@.len() + 1,
        forall|i: int|
            0 <= i < final(items)@.len() ==> final(items)@[i] == fo || old(items)@.contains(
                #[trigger] final(items)@[i],
            ),
        final(items)@.contains(fo),
        forall|i: int| 0 <= i < old(items)@.len() ==> final(items)@.contains(
            #[trigger] old(items)@[i],
        ),
{
    let n = items.len();
    let mut pos: usize = 0;
    while pos < n && crate::quoting::lex_le_bytes(items[pos].path.as_slice(), fo.path.as_slice())
        invariant
            0 <= pos <= n,
            n == items@.len(),
            items@ == old(items)@,
            forall|j: int|
                0 <= j < pos ==> crate::quoting::lex_le((#[trigger] items@[j]).path@, fo.path@),
        decreases n - pos,
    {
        pos = pos + 1;
    }
    proof {
        if pos < n {
            crate::quoting::lemma_lex_total(items@[pos as int].path@, fo.path@);
        }
    }
    items.insert(pos, fo);
    proof {
        let new = items@;
        let oldv = old(items)@;
        oldv.insert_ensures(pos as int, fo);
        let ins = oldv.insert(pos as int, fo);
        assert(new == ins);
        assert(ins =~= oldv.subrange(0, pos as int).push(fo) + oldv.subrange(
            pos as int,
            oldv.len() as int,
        ));
        assert forall|i: int| 0 <= i < pos implies #[trigger] ins[i] == oldv[i] by {
            assert(ins[i] == oldv.subrange(0, pos as int).push(fo)[i]);
            assert(oldv.subrange(0, pos as int)[i] == oldv[i]);
        }
        assert(ins[pos as int] == fo) by {
            assert(ins[pos as int] == oldv.subrange(0, pos as int).push(fo)[pos as int]);
        }
        assert forall|i: int| pos <= i < oldv.len() implies #[trigger] ins[i + 1] == oldv[i] by {
            assert(ins[i + 1] == oldv.subrange(pos as int, oldv.len() as int)[i - pos]);
        }
        assert forall|i: int|
            0 <= i && i + 1 < new.len() implies crate::quoting::lex_le(
            (#[trigger] new[i]).path@,
            new[i + 1].path@,
        ) by {
            if i + 1 < pos {
                assert(ins[i] == oldv[i]);
                assert(ins[i + 1] == oldv[i + 1]);
            } else if i + 1 == pos {
                assert(ins[i] == oldv[i]);
                assert(ins[i + 1] == fo);
            } else if i == pos {
                assert(ins[i] == fo);
                assert(ins[i + 1] == oldv[i]);
            } else {
                assert(ins[i] == oldv[i - 1]);
                assert(ins[i + 1] == oldv[i]);
            }
        }
        assert forall|i: int|
            0 <= i < new.len() implies new[i] == fo || oldv.contains(#[trigger] new[i]) by {
            if i < pos {
                assert(ins[i] == oldv[i]);
            } else if i > pos {
                assert(ins[i] == oldv[i - 1]);
            }
        }
        assert(new.contains(fo)) by {
            assert(new[pos as int] == fo);
        }
        assert forall|i: int| 0 <= i < oldv.len() implies new.contains(#[trigger] oldv[i]) by {
            if i < pos {
                assert(new[i] == oldv[i]);
            } else {
                assert(new[i + 1] == oldv[i]);
            }
        }
    }
}

/// Some listed folder carries exactly this path.
pub open spec fn has_entry_for(items: Seq<FolderOut>, p: Seq<u8>) -> bool {
    exists|w: int| 0 <= w < items.len() && (#[trigger] items[w]).path@ == p
}

/// Every deserving child among the first `upto` has its entry.
pub open spec fn children_complete(
    idx: InMemoryFSIndex,
    children: Seq<TrieEdge>,
    upto: int,
    items: Seq<FolderOut>,
    base: Seq<u8>,
    filter: Seq<Seq<u8>>,
    af: Option<u8>,
) -> bool {
    forall|c: int|
        0 <= c < upto && child_listed(idx, base, (#[trigger] children[c]).name@, filter, af)
            ==> has_entry_for(items, child_full_path(base, children[c].name@))
}

/// Every entry names one of the directory's children.
pub open spec fn entries_from_children(
    children: Seq<TrieEdge>,
    items: Seq<FolderOut>,
    base: Seq<u8>,
) -> bool {
    forall|w: int|
        0 <= w < items.len() ==> exists|c: int|
            0 <= c < children.len() && (#[trigger] items[w]).path@ == child_full_path(
                base,
                children[c].name@,
            )
}

/// Every owner block this helper returns is honest about the index.
pub open spec fn user_block_ok(
    idx: InMemoryFSIndex,
    ua: UserAges,
    pkey: Seq<u8>,
    filter: Seq<Seq<u8>>,
    af: Option<u8>,
) -> bool {
    &&& ua.ages@.len() >= 1
    &&& user_listed(idx.users_by_path@, pkey, ua.user@)
    &&& (filter.len() > 0 ==> filter.contains(ua.user@))
    &&& forall|ai: int|
        0 <= ai < ua.ages@.len() ==> {
            let pair = #[trigger] ua.ages@[ai];
            &&& (af matches Some(a) ==> pair.0 == a)
            &&& (af is None ==> pair.0 <= 2)
            &&& stats_lookup(idx.per_user_age@, (pkey, ua.user@, pair.0)) matches Some(s)
                && pair.1 == age_of(s)
        }
}

impl InMemoryFSIndex {
    /// Collect the owner blocks of one folder key under the filters: empty
    /// exactly when no owner of the key is included.
    #[verifier::loop_isolation(false)]
    #[verifier::rlimit(60)]
    fn collect_child_users(
        &self,
        pkey: &[u8],
        user_filter: &Vec<Vec<u8>>,
        age_filter: Option<u8>,
    ) -> (r: Vec<UserAges>)
        ensures
            forall|w: int|
                0 <= w < r@.len() ==> user_block_ok(
                    *self,
                    #[trigger] r@[w],
                    pkey@,
                    crate::record::field_views(user_filter@),
                    age_filter,
                ),
            r@.len() == 0 ==> !key_has_owner(
                *self,
                pkey@,
                crate::record::field_views(user_filter@),
                age_filter,
            ),
    {
        let uidx = match self.users_for_key(pkey) {
            None => {
                return Vec::new();
            },
            Some(u) => u,
        };
        let mut users_out: Vec<UserAges> = Vec::new();
        let avail = &self.users_by_path[uidx];
        let na = avail.users.len();
        let mut ui: usize = 0;
        while ui < na
            invariant
                0 <= ui <= na,
                uidx < self.users_by_path@.len(),
                uidx as int == ubp_at(self.users_by_path@, pkey@),
                na == self.users_by_path@[uidx as int].users@.len(),
                self.users_by_path@[uidx as int].path@ == pkey@,
                forall|w: int|
                    0 <= w < users_out@.len() ==> user_block_ok(
                        *self,
                        #[trigger] users_out@[w],
                        pkey@,
                        crate::record::field_views(user_filter@),
                        age_filter,
                    ),
                users_out@.len() == 0 ==> forall|j: int|
                    0 <= j < ui ==> !owner_included(
                        *self,
                        pkey@,
                        (#[trigger] self.users_by_path@[uidx as int].users@[j])@,
                        crate::record::field_views(user_filter@),
                        age_filter,
                    ),
            decreases na - ui,
        {
            let uname = &avail.users[ui];
            proof {
                assert(uname@ == self.users_by_path@[uidx as int].users@[ui as int]@);
            }
            if user_filter.len() > 0 && !filter_contains(user_filter, uname.as_slice()) {
                proof {
                    assert(!owner_included(
                        *self,
                        pkey@,
                        uname@,
                        crate::record::field_views(user_filter@),
                        age_filter,
                    ));
                }
                ui = ui + 1;
                continue ;
            }
            let mut ages: Vec<(u8, Age)> = Vec::new();
            match age_filter {
                Some(a) => {
                    match self.find_stats(pkey, uname.as_slice(), a) {
                        Some(s) => {
                            ages.push(
                                (
                                    a,
                                    Age {
                                        count: s.file_count,
                                        size: s.file_size,
                                        disk: s.disk_bytes,
                                        linked: s.linked_size,
                                        atime: s.latest_atime,
                                        mtime: s.latest_mtime,
                                    },
                                ),
                            );
                        },
                        None => {},
                    }
                },
                None => {
                    let mut b: u8 = 0;
                    while b <= 2
                        invariant
                            0 <= b <= 3,
                            age_filter is None,
                            uidx < self.users_by_path@.len(),
                            ui < self.users_by_path@[uidx as int].users@.len(),
                            uname@ == self.users_by_path@[uidx as int].users@[ui as int]@,
                            forall|ai: int|
                                0 <= ai < ages@.len() ==> {
                                    let pair = #[trigger] ages@[ai];
                                    &&& pair.0 <= 2
                                    &&& stats_lookup(
                                        self.per_user_age@,
                                        (pkey@, uname@, pair.0),
                                    ) matches Some(s) && pair.1 == age_of(s)
                                },
                            ages@.len() == 0 ==> forall|b2: u8|
                                b2 < b ==> #[trigger] stats_lookup(
                                    self.per_user_age@,
                                    (pkey@, uname@, b2),
                                ) is None,
                        decreases 3 - b,
                    {
                        match self.find_stats(pkey, uname.as_slice(), b) {
                            Some(s) => {
                                ages.push(
                                    (
                                        b,
                                        Age {
                                            count: s.file_count,
                                            size: s.file_size,
                                            disk: s.disk_bytes,
                                            linked: s.linked_size,
                                            atime: s.latest_atime,
                                            mtime: s.latest_mtime,
                                        },
                                    ),
                                );
                            },
                            None => {},
                        }
                        b = b + 1;
                    }
                },
            }
            proof {
                if ages@.len() == 0 {
                    assert(!owner_included(
                        *self,
                        pkey@,
                        uname@,
                        crate::record::field_views(user_filter@),
                        age_filter,
                    )) by {
                        if age_filter is None {
                            assert forall|b2: u8| b2 <= 2 implies #[trigger] stats_lookup(
                                self.per_user_age@,
                                (pkey@, uname@, b2),
                            ) is None by {
                                assert(b2 < 3);
                            }
                        }
                    }
                }
            }
            if ages.len() > 0 {
                let mut unamec: Vec<u8> = Vec::new();
                push_all(&mut unamec, uname.as_slice());
                proof {
                    assert(unamec@ =~= uname@);
                    assert(user_listed(self.users_by_path@, pkey@, unamec@)) by {
                        assert(self.users_by_path@[uidx as int].users@[ui as int]@ == unamec@);
                    }
                }
                let ghost out_pre = users_out@;
                users_out.push(UserAges { user: unamec, ages });
                proof {
                    let outs = users_out@;
                    assert forall|w: int| 0 <= w < outs.len() implies #[trigger] outs[w] == (if w
                        < out_pre.len() {
                        out_pre[w]
                    } else {
                        outs[outs.len() - 1]
                    }) by {}
                    assert(outs[outs.len() - 1].user@ == uname@);
                    assert(outs[outs.len() - 1].ages@.len() >= 1);
                }
            }
            ui = ui + 1;
        }
        proof {
            if users_out@.len() == 0 {
                if key_has_owner(
                    *self,
                    pkey@,
                    crate::record::field_views(user_filter@),
                    age_filter,
                ) {
                    let j = choose|j: int|
                        0 <= j < self.users_by_path@[uidx as int].users@.len() && owner_included(
                            *self,
                            pkey@,
                            (#[trigger] self.users_by_path@[uidx as int].users@[j])@,
                            crate::record::field_views(user_filter@),
                            age_filter,
                        );
                    assert(false);
                }
            }
        }
        users_out
    }
}

impl InMemoryFSIndex {
    /// Answer a folder query: the immediate children of the directory, each
    /// with the owners and age buckets that hold data, filtered and sorted
    /// by path.  Every owner block returned is nonempty, every inner block
    /// holds at least one bucket, every child with an included owner gets
    /// its entry, and every entry names an actual child.
    #[verifier::loop_isolation(false)]
    #[verifier::rlimit(100)]
    pub fn list_children(
        &self,
        dir_path: &[u8],
        user_filter: &Vec<Vec<u8>>,
        age_filter: Option<u8>,
    ) -> (r: Result<Vec<FolderOut>, IndexError>)
        ensures
            r is Ok <==> trie_walk(self.root, components_spec(dir_path@)) is Some,
            r matches Ok(items) ==> folders_sorted(items@) && (forall|i: int|
                0 <= i < items@.len() ==> item_ok(
                    *self,
                    #[trigger] items@[i],
                    crate::record::field_views(user_filter@),
                    age_filter,
                )),
            r matches Ok(items) ==> children_complete(
                *self,
                trie_walk(self.root, components_spec(dir_path@)).unwrap().children@,
                trie_walk(self.root, components_spec(dir_path@)).unwrap().children@.len() as int,
                items@,
                normalize_spec(dir_path@),
                crate::record::field_views(user_filter@),
                age_filter,
            ),
            r matches Ok(items) ==> entries_from_children(
                trie_walk(self.root, components_spec(dir_path@)).unwrap().children@,
                items@,
                normalize_spec(dir_path@),
            ),
    {
        let comps = path_to_components(dir_path);
        let ghost cv = components_spec(dir_path@);
        let nc = comps.len();
        let mut ci: usize = 0;
        let mut cur: &TrieNode = &self.root;
        proof {
            assert(cv.skip(0) =~= cv);
        }
        while ci < nc
            invariant
                0 <= ci <= nc,
                nc == comps@.len(),
                crate::record::field_views(comps@) == cv,
                trie_walk(self.root, cv) == trie_walk(*cur, cv.skip(ci as int)),
            decreases nc - ci,
        {
            let ghost rem = cv.skip(ci as int);
            proof {
                assert(rem[0] == comps@[ci as int]@);
                assert(rem.drop_first() =~= cv.skip(ci + 1));
            }
            let n = cur.children.len();
            let mut i: usize = 0;
            let mut found = n;
            while i < n && found == n
                invariant
                    0 <= i <= n,
                    n == cur.children@.len(),
                    found == n || (found < i && cur.children@[found as int].name@
                        == comps@[ci as int]@),
                    found == n ==> forall|k: int|
                        0 <= k < i ==> (#[trigger] cur.children@[k]).name@ != comps@[ci as int]@,
                    found < n ==> forall|k: int|
                        0 <= k < found ==> (#[trigger] cur.children@[k]).name@ != comps@[
                            ci as int
                        ]@,
                decreases n - i,
            {
                if bytes_eq(cur.children[i].name.as_slice(), comps[ci].as_slice()) {
                    found = i;
                }
                i = i + 1;
            }
            if found == n {
                proof {
                    lemma_child_at_end(cur.children@, rem[0], n as int);
                }
                return Err(IndexError::DirectoryNotFound);
            }
            proof {
                lemma_child_at_end(cur.children@, rem[0], found as int);
            }
            cur = &cur.children[found].node;
            ci = ci + 1;
        }
        proof {
            assert(cv.skip(nc as int) =~= Seq::<Seq<u8>>::empty());
            assert(trie_walk(self.root, cv) == Some(*cur));
        }
        // base path for naming the children
        let base = normalize_path(dir_path);
        let mut prefix: Vec<u8> = Vec::new();
        if base.len() == 0 || (base.len() == 1 && base[0] == 47) {
            prefix.push(47);
            proof {
                if base@.len() == 1 && base@[0] == 47 {
                    assert(base@ =~= seq![47u8]);
                }
                assert(prefix@ =~= seq![47u8]);
            }
        } else {
            let mut e = base.len();
            proof {
                assert(base@.take(base@.len() as int) =~= base@);
            }
            while e > 0 && base[e - 1] == 47
                invariant
                    0 <= e <= base@.len(),
                    trim_trail_all(base@) == trim_trail_all(base@.take(e as int)),
                decreases e,
            {
                proof {
                    assert(base@.take(e as int).last() == base@[e - 1]);
                    assert(base@.take(e as int).drop_last() =~= base@.take(e - 1));
                }
                e = e - 1;
            }
            proof {
                assert(base@.take(base@.len() as int) =~= base@);
                let t = base@.take(e as int);
                if t.len() > 0 {
                    assert(t.last() == base@[e - 1]);
                }
                assert(trim_trail_all(t) == t);
            }
            let stem = vstd::slice::slice_subrange(base.as_slice(), 0, e);
            push_all(&mut prefix, stem);
            prefix.push(47);
            proof {
                assert(prefix@ =~= trim_trail_all(base@) + seq![47u8]);
            }
        }
        let ghost basev = base@;
        let mut items: Vec<FolderOut> = Vec::new();
        let nch = cur.children.len();
        let mut c: usize = 0;
        while c < nch
            invariant
                0 <= c <= nch,
                nch == cur.children@.len(),
                basev == normalize_spec(dir_path@),
                (basev.len() == 0 || basev == seq![47u8]) ==> prefix@ == seq![47u8],
                !(basev.len() == 0 || basev == seq![47u8]) ==> prefix@ == trim_trail_all(basev)
                    + seq![47u8],
                folders_sorted(items@),
                forall|i: int|
                    0 <= i < items@.len() ==> item_ok(
                        *self,
                        #[trigger] items@[i],
                        crate::record::field_views(user_filter@),
                        age_filter,
                    ),
                children_complete(
                    *self,
                    cur.children@,
                    c as int,
                    items@,
                    basev,
                    crate::record::field_views(user_filter@),
                    age_filter,
                ),
                entries_from_children(cur.children@, items@, basev),
            decreases nch - c,
        {
            let edge = &cur.children[c];
            let mut full: Vec<u8> = Vec::new();
            push_all(&mut full, prefix.as_slice());
            push_all(&mut full, edge.name.as_slice());
            proof {
                assert(full@ =~= child_full_path(basev, edge.name@));
            }
            let pkey = canonical_key(full.as_slice());
            let users_out = self.collect_child_users(pkey.as_slice(), user_filter, age_filter);
            if users_out.len() > 0 {
                let ghost fullv = full@;
                let ghost blocks = users_out@;
                let fo = FolderOut { path: full, users: users_out };
                proof {
                    assert(fo.path@ == fullv);
                    assert(fo.users@ == blocks);
                    assert(item_ok(
                        *self,
                        fo,
                        crate::record::field_views(user_filter@),
                        age_filter,
                    )) by {
                        assert(canonical_spec(fo.path@) == pkey@);
                        assert forall|ui: int|
                            0 <= ui < fo.users@.len() implies user_block_ok(
                            *self,
                            #[trigger] fo.users@[ui],
                            pkey@,
                            crate::record::field_views(user_filter@),
                            age_filter,
                        ) by {
                            assert(fo.users@[ui] == blocks[ui]);
                        }
                    };
                }
                let ghost items_pre = items@;
                insert_folder_sorted(&mut items, fo);
                proof {
                    // entries that were present are still present
                    assert forall|p: Seq<u8>| has_entry_for(items_pre, p) implies has_entry_for(
                        items@,
                        p,
                    ) by {
                        let w0 = choose|w0: int|
                            0 <= w0 < items_pre.len() && (#[trigger] items_pre[w0]).path@ == p;
                        assert(items@.contains(items_pre[w0]));
                        let w = choose|w: int| 0 <= w < items@.len() && items@[w] == items_pre[w0];
                    }
                    assert forall|i: int|
                        0 <= i < items@.len() implies item_ok(
                        *self,
                        #[trigger] items@[i],
                        crate::record::field_views(user_filter@),
                        age_filter,
                    ) by {
                        if items@[i] != fo {
                            assert(items_pre.contains(items@[i]));
                            let j = choose|j: int|
                                0 <= j < items_pre.len() && items_pre[j] == items@[i];
                        }
                    }
                    // this child's entry is in place
                    assert(has_entry_for(items@, child_full_path(
                        basev,
                        cur.children@[c as int].name@,
                    ))) by {
                        let w = choose|w: int| 0 <= w < items@.len() && items@[w] == fo;
                    };
                    assert(children_complete(
                        *self,
                        cur.children@,
                        c + 1,
                        items@,
                        basev,
                        crate::record::field_views(user_filter@),
                        age_filter,
                    ));
                    assert forall|w: int|
                        0 <= w < items@.len() implies exists|c2: int|
                        0 <= c2 < cur.children@.len() && (#[trigger] items@[w]).path@
                            == child_full_path(basev, cur.children@[c2].name@) by {
                        if items@[w] == fo {
                            assert(items@[w].path@ == child_full_path(
                                basev,
                                cur.children@[c as int].name@,
                            ));
                        } else {
                            assert(items_pre.contains(items@[w]));
                            let j = choose|j: int|
                                0 <= j < items_pre.len() && items_pre[j] == items@[w];
                        }
                    }
                }
            } else {
                proof {
                    // no owner of this child passed: it deserves no entry
                    assert(!child_listed(
                        *self,
                        basev,
                        cur.children@[c as int].name@,
                        crate::record::field_views(user_filter@),
                        age_filter,
                    )) by {
                        assert(canonical_spec(child_full_path(
                            basev,
                            cur.children@[c as int].name@,
                        )) == pkey@);
                    }
                }
            }
            c = c + 1;
        }
        proof {
            assert(trie_walk(self.root, components_spec(dir_path@)) == Some(*cur));
            assert(trie_walk(self.root, components_spec(dir_path@)).unwrap() == *cur);
            assert(basev == normalize_spec(dir_path@));
        }
        Ok(items)
    }

    /// Build the index from the bytes of a rollup CSV (header line first),
    /// and hand back every owner name seen, sorted ascending without
    /// duplicates.  Lines with fewer than nine fields, an empty path or an
    /// empty owner are skipped; numeric fields read as zero when corrupt.
    #[verifier::loop_isolation(false)]
    pub fn load_from_csv(&mut self, data: &[u8]) -> (users: Vec<Vec<u8>>)
        ensures
            users_sorted_unique(users@),
            forall|i: int| 0 <= i < users@.len() ==> (#[trigger] users@[i])@.len() > 0,
            ({
                let rows = sum_rows(data@, crate::binary::line_end(data@, 0));
                &&& (forall|x: Seq<u8>| user_in(users@, x) <==> rows_have_user(rows, x))
                &&& (old(self).per_user_age@.len() == 0 ==> forall|k: (Seq<u8>, Seq<u8>, u8)|
                    #[trigger] stats_lookup(final(self).per_user_age@, k) == map_opt(
                        rollup_map(rows),
                        k,
                    ))
                &&& (forall|j: int|
                    0 <= j < rows.len() ==> {
                        let r = #[trigger] rows[j];
                        &&& user_listed(
                            final(self).users_by_path@,
                            canonical_spec(r.rawpath),
                            r.user,
                        )
                        &&& trie_user_on_path(
                            final(self).root,
                            components_spec(r.rawpath),
                            r.user,
                        )
                    })
                &&& final(self).total_entries == rows.len()
            }),
    {
        let mut all_users: Vec<Vec<u8>> = Vec::new();
        let mut pos: usize = 0;
        let mut line: Vec<u8> = Vec::new();
        proof {
            crate::binary::lemma_line_end_props(data@, 0);
        }
        // the header line
        crate::binary::read_line_bytes(data, &mut pos, &mut line);
        let ghost hdr_end = pos as int;
        let ghost rows_all = sum_rows(data@, hdr_end);
        let ghost mut rows_acc: Seq<SumRow> = Seq::empty();
        let mut loaded: usize = 0;
        proof {
            assert(rows_acc + sum_rows(data@, pos as int) =~= sum_rows(data@, hdr_end));
        }
        while pos < data.len()
            invariant
                hdr_end <= pos <= data@.len(),
                rows_all == sum_rows(data@, hdr_end),
                rows_all == rows_acc + sum_rows(data@, pos as int),
                loaded == rows_acc.len(),
                loaded <= pos,
                users_sorted_unique(all_users@),
                forall|i: int| 0 <= i < all_users@.len() ==> (#[trigger] all_users@[i])@.len() > 0,
                forall|x: Seq<u8>| user_in(all_users@, x) <==> rows_have_user(rows_acc, x),
                old(self).per_user_age@.len() == 0 ==> forall|k: (Seq<u8>, Seq<u8>, u8)|
                    #[trigger] stats_lookup(self.per_user_age@, k) == map_opt(
                        rollup_map(rows_acc),
                        k,
                    ),
                forall|j: int|
                    0 <= j < rows_acc.len() ==> {
                        let r = #[trigger] rows_acc[j];
                        &&& user_listed(self.users_by_path@, canonical_spec(r.rawpath), r.user)
                        &&& trie_user_on_path(self.root, components_spec(r.rawpath), r.user)
                    },
            decreases data@.len() - pos,
        {
            let ghost p0 = pos as int;
            proof {
                crate::binary::lemma_line_end_props(data@, p0);
            }
            line.clear();
            crate::binary::read_line_bytes(data, &mut pos, &mut line);
            if line.len() > 0 && line[line.len() - 1] == 10 {
                line.pop();
                if line.len() > 0 && line[line.len() - 1] == 13 {
                    line.pop();
                }
            }
            let ghost e = crate::binary::line_end(data@, p0);
            proof {
                assert(line@ =~= crate::binary::strip_eol(data@.subrange(p0, e)));
            }
            let ghost lv = line@;
            if line.len() == 0 {
                proof {
                    assert(sum_rows(data@, p0) == sum_rows(data@, pos as int));
                }
                continue ;
            }
            let fields = crate::record::parse_csv_line_bytes(line.as_slice());
            proof {
                assert(crate::record::field_views(fields@) == crate::record::split_csv(lv));
            }
            if fields.len() < 9 {
                proof {
                    assert(sum_row_of_line(lv) is None);
                    assert(sum_rows(data@, p0) == sum_rows(data@, pos as int));
                }
                continue ;
            }
            let username = crate::num::trim_ascii(fields[1].as_slice());
            proof {
                assert(fields@[0]@ == crate::record::split_csv(lv)[0]);
                assert(fields@[1]@ == crate::record::split_csv(lv)[1]);
                assert(username@ == crate::num::trim_spec(crate::record::split_csv(lv)[1]));
            }
            if fields[0].len() == 0 || username.len() == 0 {
                proof {
                    assert(sum_row_of_line(lv) is None);
                    assert(sum_rows(data@, p0) == sum_rows(data@, pos as int));
                }
                continue ;
            }
            let age_w = crate::record::parse_field_u32(fields[2].as_slice());
            let age: u8 = if age_w <= 255 {
                age_w as u8
            } else {
                0
            };
            let files = crate::record::parse_field_u64(fields[3].as_slice());
            let size = crate::record::parse_field_u64(fields[4].as_slice());
            let disk = crate::record::parse_field_u64(fields[5].as_slice());
            let linked = crate::record::parse_field_u64(fields[6].as_slice());
            let atime = crate::record::parse_field_i64(fields[7].as_slice());
            let mtime = crate::record::parse_field_i64(fields[8].as_slice());
            let pkey = canonical_key(fields[0].as_slice());
            let ghost r = sum_row_of_line(lv).unwrap();
            proof {
                let fs = crate::record::split_csv(lv);
                assert(fields@[2]@ == fs[2]);
                assert(fields@[3]@ == fs[3]);
                assert(fields@[4]@ == fs[4]);
                assert(fields@[5]@ == fs[5]);
                assert(fields@[6]@ == fs[6]);
                assert(fields@[7]@ == fs[7]);
                assert(fields@[8]@ == fs[8]);
                assert(r.rawpath == fields@[0]@);
                assert(r.user == username@);
                assert(r.age == age);
                assert(r.files == files && r.size == size && r.disk == disk && r.linked == linked);
                assert(r.atime == atime && r.mtime == mtime);
                assert(pkey@ == canonical_spec(r.rawpath));
            }
            let ghost upre = all_users@;
            insert_user_sorted(&mut all_users, username);
            proof {
                assert forall|i: int|
                    0 <= i < all_users@.len() implies (#[trigger] all_users@[i])@.len() > 0 by {
                    if all_users@[i]@ != username@ {
                        assert(upre.contains(all_users@[i]));
                        let w = choose|w: int| 0 <= w < upre.len() && upre[w] == all_users@[i];
                    }
                }
            }
            self.add_user_for_path(pkey.as_slice(), username);
            self.insert_path(fields[0].as_slice(), username);
            let ghost pre_stats = self.per_user_age@;
            self.upsert_stats(
                pkey.as_slice(),
                username,
                age,
                files,
                size,
                disk,
                linked,
                atime,
                mtime,
            );
            loaded = loaded + 1;
            let ghost rows_pre = rows_acc;
            proof {
                rows_acc = rows_acc.push(r);
                // the row list extends by exactly this row
                assert(sum_rows(data@, p0) == seq![r] + sum_rows(data@, pos as int));
                assert(rows_pre + (seq![r] + sum_rows(data@, pos as int)) =~= rows_acc + sum_rows(
                    data@,
                    pos as int,
                ));
                // the returned owners track the rows seen
                assert forall|x: Seq<u8>| user_in(all_users@, x) <==> rows_have_user(
                    rows_acc,
                    x,
                ) by {
                    if rows_have_user(rows_pre, x) {
                        let w = choose|w: int|
                            0 <= w < rows_pre.len() && (#[trigger] rows_pre[w]).user == x;
                        assert(rows_acc[w].user == x);
                    }
                    if rows_have_user(rows_acc, x) && x != r.user {
                        let w = choose|w: int|
                            0 <= w < rows_acc.len() && (#[trigger] rows_acc[w]).user == x;
                        assert(rows_pre[w].user == x);
                    }
                    assert(rows_acc[rows_acc.len() - 1].user == r.user);
                }
                // the statistics table tracks the fold
                if old(self).per_user_age@.len() == 0 {
                    let m_pre = rollup_map(rows_pre);
                    let m_new = rollup_map(rows_acc);
                    let k = (canonical_spec(r.rawpath), r.user, r.age);
                    assert(rows_acc.drop_last() =~= rows_pre);
                    assert(rows_acc.last() == r);
                    assert(m_new == m_pre.insert(
                        k,
                        (match map_opt(m_pre, k) {
                            Some(c) => c,
                            None => Stats::zero(),
                        }).folded(r.files, r.size, r.disk, r.linked, r.atime, r.mtime),
                    ));
                    assert forall|k2: (Seq<u8>, Seq<u8>, u8)| #[trigger] stats_lookup(
                        self.per_user_age@,
                        k2,
                    ) == map_opt(m_new, k2) by {
                        if k2 == k {
                            assert(stats_lookup(pre_stats, k) == map_opt(m_pre, k));
                        } else {
                            assert(stats_lookup(self.per_user_age@, k2) == stats_lookup(
                                pre_stats,
                                k2,
                            ));
                        }
                    }
                }
                // this row's owner and path stand in the index
                assert forall|j: int|
                    0 <= j < rows_acc.len() implies {
                    let rr = #[trigger] rows_acc[j];
                    &&& user_listed(self.users_by_path@, canonical_spec(rr.rawpath), rr.user)
                    &&& trie_user_on_path(self.root, components_spec(rr.rawpath), rr.user)
                } by {
                    if j < rows_pre.len() {
                        assert(rows_acc[j] == rows_pre[j]);
                    } else {
                        assert(rows_acc[j] == r);
                    }
                }
            }
        }
        proof {
            assert(sum_rows(data@, pos as int) =~= Seq::<SumRow>::empty());
            assert(rows_acc + Seq::<SumRow>::empty() =~= rows_acc);
            assert(rows_all == rows_acc);
        }
        self.total_entries = loaded;
        all_users
    }
}

/// One data row of the rollup CSV, as the loader reads it.
pub struct SumRow {
    pub rawpath: Seq<u8>,
    pub user: Seq<u8>,
    pub age: u8,
    pub files: u64,
    pub size: u64,
    pub disk: u64,
    pub linked: u64,
    pub atime: i64,
    pub mtime: i64,
}

/// The row one stripped CSV line carries, if any: at least nine fields, a
/// nonempty path and a nonempty trimmed owner; numbers read as zero when
/// corrupt, a bucket above 255 reads as zero.
pub open spec fn sum_row_of_line(line: Seq<u8>) -> Option<SumRow> {
    let fs = crate::record::split_csv(line);
    if fs.len() >= 9 && fs[0].len() > 0 && crate::num::trim_spec(fs[1]).len() > 0 {
        Some(
            SumRow {
                rawpath: fs[0],
                user: crate::num::trim_spec(fs[1]),
                age: if crate::record::field_u32(fs[2]) <= 255 {
                    crate::record::field_u32(fs[2]) as u8
                } else {
                    0
                },
                files: crate::record::field_u64(fs[3]),
                size: crate::record::field_u64(fs[4]),
                disk: crate::record::field_u64(fs[5]),
                linked: crate::record::field_u64(fs[6]),
                atime: crate::record::field_i64(fs[7]),
                mtime: crate::record::field_i64(fs[8]),
            },
        )
    } else {
        None
    }
}

/// The data rows of the file from `pos` on, skipped lines dropped.
pub open spec fn sum_rows(data: Seq<u8>, pos: int) -> Seq<SumRow>
    decreases data.len() - pos,
    when 0 <= pos <= data.len()
    via sum_rows_decreases
{
    if pos >= data.len() {
        Seq::empty()
    } else {
        let e = crate::binary::line_end(data, pos);
        let line = crate::binary::strip_eol(data.subrange(pos, e));
        let rest = sum_rows(data, e);
        if line.len() == 0 {
            rest
        } else {
            match sum_row_of_line(line) {
                None => rest,
                Some(r) => seq![r] + rest,
            }
        }
    }
}

#[via_fn]
proof fn sum_rows_decreases(data: Seq<u8>, pos: int) {
    if 0 <= pos < data.len() {
        crate::binary::lemma_line_end_props(data, pos);
    }
}

/// There are no more rows than bytes behind them.
proof fn lemma_sum_rows_bound(data: Seq<u8>, pos: int)
    requires
        0 <= pos <= data.len(),
    ensures
        sum_rows(data, pos).len() <= data.len() - pos,
    decreases data.len() - pos,
{
    if pos < data.len() {
        crate::binary::lemma_line_end_props(data, pos);
        lemma_sum_rows_bound(data, crate::binary::line_end(data, pos));
    }
}

/// The statistics table a row list builds: per (canonical key, owner,
/// bucket), the saturating fold of the rows' counters with maximal times.
pub open spec fn rollup_map(rows: Seq<SumRow>) -> Map<(Seq<u8>, Seq<u8>, u8), Stats>
    decreases rows.len(),
{
    if rows.len() == 0 {
        Map::empty()
    } else {
        let m = rollup_map(rows.drop_last());
        let r = rows.last();
        let k = (canonical_spec(r.rawpath), r.user, r.age);
        let cell = if m.contains_key(k) {
            m[k]
        } else {
            Stats::zero()
        };
        m.insert(k, cell.folded(r.files, r.size, r.disk, r.linked, r.atime, r.mtime))
    }
}

/// A map read that answers like the linear table.
pub open spec fn map_opt(m: Map<(Seq<u8>, Seq<u8>, u8), Stats>, k: (Seq<u8>, Seq<u8>, u8)) -> Option<
    Stats,
> {
    if m.contains_key(k) {
        Some(m[k])
    } else {
        None
    }
}

/// The byte string occurs in the owner list.
pub open spec fn user_in(users: Seq<Vec<u8>>, x: Seq<u8>) -> bool {
    exists|i: int| 0 <= i < users.len() && (#[trigger] users[i])@ == x
}

/// Some row carries this owner.
pub open spec fn rows_have_user(rows: Seq<SumRow>, x: Seq<u8>) -> bool {
    exists|j: int| 0 <= j < rows.len() && (#[trigger] rows[j]).user == x
}

/// Strictly ascending by byte order: sorted with no duplicates.
pub open spec fn users_sorted_unique(users: Seq<Vec<u8>>) -> bool {
    forall|i: int|
        0 <= i && i + 1 < users.len() ==> crate::quoting::lex_le(
            (#[trigger] users[i])@,
            users[i + 1]@,
        ) && users[i]@ != users[i + 1]@
}

/// Put an owner name into a sorted list, once.
#[verifier::loop_isolation(false)]
fn insert_user_sorted(users: &mut Vec<Vec<u8>>, user: &[u8])
    requires
        users_sorted_unique(old(users)@),
    ensures
        users_sorted_unique(final(users)@),
        forall|i: int|
            0 <= i < final(users)@.len() ==> (#[trigger] final(users)@[i])@ == user@ || old(
                users,
            )@.contains(final(users)@[i]),
        forall|x: Seq<u8>| user_in(final(users)@, x) <==> user_in(old(users)@, x) || x == user@,
{
    let n = users.len();
    let mut pos: usize = 0;
    while pos < n && crate::quoting::lex_le_bytes(users[pos].as_slice(), user)
        invariant
            0 <= pos <= n,
            n == users@.len(),
            users@ == old(users)@,
            forall|j: int| 0 <= j < pos ==> crate::quoting::lex_le((#[trigger] users@[j])@, user@),
            forall|j: int| 0 <= j < pos ==> (#[trigger] users@[j])@ != user@,
        decreases n - pos,
    {
        if bytes_eq(users[pos].as_slice(), user) {
            proof {
                assert forall|i: int|
                    0 <= i < users@.len() implies (#[trigger] users@[i])@ == user@
                    || old(users)@.contains(users@[i]) by {
                    assert(old(users)@[i] == users@[i]);
                }
                assert(user_in(old(users)@, user@)) by {
                    assert(old(users)@[pos as int]@ == user@);
                }
            }
            return ;
        }
        pos = pos + 1;
    }
    // here every earlier entry is strictly below, and the entry at pos (if
    // any) is strictly above
    proof {
        if pos < n {
            crate::quoting::lemma_lex_total(users@[pos as int]@, user@);
        }
    }
    let mut copy: Vec<u8> = Vec::new();
    push_all(&mut copy, user);
    proof {
        assert(copy@ =~= user@);
    }
    users.insert(pos, copy);
    proof {
        let oldv = old(users)@;
        let new = users@;
        oldv.insert_ensures(pos as int, copy);
        let ins = oldv.insert(pos as int, copy);
        assert(new == ins);
        assert(ins =~= oldv.subrange(0, pos as int).push(copy) + oldv.subrange(
            pos as int,
            oldv.len() as int,
        ));
        assert forall|i: int| 0 <= i < pos implies #[trigger] ins[i] == oldv[i] by {
            assert(ins[i] == oldv.subrange(0, pos as int).push(copy)[i]);
            assert(oldv.subrange(0, pos as int)[i] == oldv[i]);
        }
        assert(ins[pos as int] == copy) by {
            assert(ins[pos as int] == oldv.subrange(0, pos as int).push(copy)[pos as int]);
        }
        assert forall|i: int| pos <= i < oldv.len() implies #[trigger] ins[i + 1] == oldv[i] by {
            assert(ins[i + 1] == oldv.subrange(pos as int, oldv.len() as int)[i - pos]);
        }
        assert forall|i: int|
            0 <= i < new.len() implies (#[trigger] new[i])@ == user@ || oldv.contains(new[i]) by {
            if i < pos {
                assert(ins[i] == oldv[i]);
            } else if i > pos {
                assert(ins[i] == oldv[i - 1]);
            } else {
                assert(ins[i] == copy);
            }
        }
        assert forall|x: Seq<u8>| user_in(new, x) <==> user_in(oldv, x) || x == user@ by {
            if user_in(new, x) {
                let w = choose|w: int| 0 <= w < new.len() && (#[trigger] new[w])@ == x;
                if w < pos {
                    assert(oldv[w]@ == x);
                } else if w > pos {
                    assert(oldv[w - 1]@ == x);
                } else {
                    assert(new[w] == copy);
                }
            }
            if user_in(oldv, x) {
                let w = choose|w: int| 0 <= w < oldv.len() && (#[trigger] oldv[w])@ == x;
                if w < pos {
                    assert(new[w]@ == x);
                } else {
                    assert(new[w + 1]@ == x);
                }
            }
            if x == user@ {
                assert(new[pos as int]@ == x);
            }
        }
        assert forall|i: int|
            0 <= i && i + 1 < new.len() implies crate::quoting::lex_le(
            (#[trigger] new[i])@,
            new[i + 1]@,
        ) && new[i]@ != new[i + 1]@ by {
            if i + 1 < pos {
                assert(ins[i] == oldv[i]);
                assert(ins[i + 1] == oldv[i + 1]);
            } else if i + 1 == pos {
                assert(ins[i] == oldv[i]);
                assert(ins[i + 1] == copy);
                // the scan passed this entry without an equality hit
                assert(crate::quoting::lex_le(oldv[i]@, user@));
                assert(oldv[i]@ != user@);
            } else if i == pos {
                assert(ins[i] == copy);
                assert(ins[i + 1] == oldv[i]);
                assert(!crate::quoting::lex_le(oldv[i]@, user@));
                crate::quoting::lemma_lex_total(oldv[i]@, user@);
            } else {
                assert(ins[i] == oldv[i - 1]);
                assert(ins[i + 1] == oldv[i]);
            }
        }
    }
}

} // verus!
