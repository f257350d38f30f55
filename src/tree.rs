//! The path tree: an ordered mapping from path segment to entry, each entry a file or a directory
//! holding a tree of its own.
use vstd::prelude::*;
use crate::sorted::{keys_sorted, map_of, put, take, lemma_map_of_all};
use crate::text::{joined, plain, all_plain, lemma_joined_push, occurs_in, lower_of, occurs_in_exec, chars_of, lowercase};

verus! {

pub struct FileInfo {
    pub name: String,
}

pub struct DirectoryInfo {
    pub name: String,
    pub contents: PathTree,
}

pub enum PathContent {
    File(FileInfo),
    Directory(DirectoryInfo),
}

/// A node of the tree: the content hash and remote reference of the object it maps to (empty for
/// directories made locally), its full path, and its content.
pub struct PathInfo {
    pub sha: String,
    pub path: String,
    pub url: String,
    pub content: PathContent,
}

/// Entries keyed by path segment, in strictly increasing segment order.
pub struct PathTree {
    pub entries: Vec<(String, PathInfo)>,
}

/// What the tree records of one node, apart from its children.
pub struct NodeView {
    pub is_dir: bool,
    pub sha: Seq<char>,
    pub path: Seq<char>,
    pub url: Seq<char>,
}

/// The segments a sequence of strings holds.
pub open spec fn seg_views(s: Seq<String>) -> Seq<Seq<char>> {
    s.map_values(|x: String| x@)
}

/// `a` is a non-empty proper prefix of `b`.
pub open spec fn strict_prefix(a: Seq<Seq<char>>, b: Seq<Seq<char>>) -> bool {
    0 < a.len() < b.len() && b.subrange(0, a.len() as int) == a
}

/// `q` lies strictly below `rel`.
pub open spec fn extends(q: Seq<Seq<char>>, rel: Seq<Seq<char>>) -> bool {
    q.len() > rel.len() && q.subrange(0, rel.len() as int) == rel
}

/// `q` is `rel` or lies below it.
pub open spec fn within(q: Seq<Seq<char>>, rel: Seq<Seq<char>>) -> bool {
    q.len() >= rel.len() && q.subrange(0, rel.len() as int) == rel
}

/// The part of `q` below `rel`.
pub open spec fn suffix(q: Seq<Seq<char>>, rel: Seq<Seq<char>>) -> Seq<Seq<char>> {
    q.subrange(rel.len() as int, q.len() as int)
}

/// When a subtree is grafted at `rel`, the child of `rel` on the way to `q` comes from it.
pub open spec fn grafted_at(provided: Option<Map<Seq<Seq<char>>, NodeView>>, q: Seq<Seq<char>>, rel: Seq<Seq<char>>) -> bool {
    &&& extends(q, rel)
    &&& provided matches Some(sub)
    &&& sub.contains_key(seq![q[rel.len() as int]])
}

/// The view of a tree after recording a node at `rel` (below the position `base` of the tree):
/// every proper ancestor of `rel` becomes a directory (keeping what it recorded, or made locally
/// with the path it stands at and no hash), `rel` records `sha`, `path` and `url`, and stays a
/// directory if it was one. A `provided` subtree makes `rel` a directory and replaces each child
/// of `rel` that it holds.
pub open spec fn filled(
    m: Map<Seq<Seq<char>>, NodeView>,
    base: Seq<Seq<char>>,
    rel: Seq<Seq<char>>,
    sha: Seq<char>,
    path: Seq<char>,
    url: Seq<char>,
    provided: Option<Map<Seq<Seq<char>>, NodeView>>,
) -> Map<Seq<Seq<char>>, NodeView> {
    Map::new(
        |q: Seq<Seq<char>>|
            q == rel || strict_prefix(q, rel) || (if grafted_at(provided, q, rel) {
                provided->0.contains_key(suffix(q, rel))
            } else {
                m.contains_key(q)
            }),
        |q: Seq<Seq<char>>|
            if q == rel {
                NodeView {
                    is_dir: provided is Some || (m.contains_key(q) && m[q].is_dir),
                    sha,
                    path,
                    url,
                }
            } else if strict_prefix(q, rel) {
                if m.contains_key(q) {
                    NodeView { is_dir: true, sha: m[q].sha, path: m[q].path, url: m[q].url }
                } else {
                    NodeView {
                        is_dir: true,
                        sha: Seq::empty(),
                        path: joined(base + q),
                        url: Seq::empty(),
                    }
                }
            } else if grafted_at(provided, q, rel) {
                provided->0[suffix(q, rel)]
            } else {
                m[q]
            },
    )
}

impl PathInfo {
    /// What the tree records of this node.
    pub open spec fn node_view(self) -> NodeView {
        NodeView {
            is_dir: self.content is Directory,
            sha: self.sha@,
            path: self.path@,
            url: self.url@,
        }
    }

    /// This node, standing at the position `full`, records its own position: its name is the
    /// last segment, its path is the segments joined, and a directory keeps its entries sorted.
    pub open spec fn placed_at(self, full: Seq<Seq<char>>) -> bool {
        &&& full.len() > 0
        &&& plain(full.last())
        &&& self.path@ == joined(full)
        &&& match self.content {
            PathContent::File(f) => f.name@ == full.last(),
            PathContent::Directory(d) => d.name@ == full.last() && keys_sorted(d.contents.entries@),
        }
    }
}

impl PathTree {
    /// The entries of this level by segment.
    pub open spec fn children(self) -> Map<Seq<char>, PathInfo> {
        map_of(self.entries@)
    }

    /// The node at position `q`, a sequence of segments from this level down.
    pub open spec fn at(self, q: Seq<Seq<char>>) -> Option<PathInfo>
        decreases q.len(),
    {
        if q.len() == 0 || !self.children().contains_key(q[0]) {
            None
        } else {
            let node = self.children()[q[0]];
            if q.len() == 1 {
                Some(node)
            } else {
                match node.content {
                    PathContent::Directory(d) => d.contents.at(q.drop_first()),
                    PathContent::File(_) => None,
                }
            }
        }
    }

    /// The tree is sorted at every level, and every node records its own position below `base`.
    pub open spec fn wf_at(self, base: Seq<Seq<char>>) -> bool {
        &&& keys_sorted(self.entries@)
        &&& forall|q: Seq<Seq<char>>| #[trigger] self.at(q) is Some ==> self.at(q)->0.placed_at(base + q)
    }

    /// A well-formed tree standing at the root.
    pub open spec fn wf(self) -> bool {
        self.wf_at(Seq::empty())
    }

    /// An empty tree.
    pub fn new() -> (r: PathTree)
        ensures
            r.entries@.len() == 0,
            r@ == Map::<Seq<Seq<char>>, NodeView>::empty(),
            forall|base: Seq<Seq<char>>| r.wf_at(base),
    {
        let r = PathTree { entries: Vec::new() };
        assert(r@ =~= Map::<Seq<Seq<char>>, NodeView>::empty());
        r
    }
}

impl View for PathTree {
    type V = Map<Seq<Seq<char>>, NodeView>;

    /// Every position in the tree and what is recorded there.
    open spec fn view(&self) -> Map<Seq<Seq<char>>, NodeView> {
        Map::new(|q: Seq<Seq<char>>| self.at(q) is Some, |q: Seq<Seq<char>>| self.at(q)->0.node_view())
    }
}

/// Reading a position below the entry `k` reads that entry's subtree.
pub proof fn lemma_at_below(t: PathTree, k: Seq<char>, r: Seq<Seq<char>>)
    ensures
        t.at(seq![k] + r) == if !t.children().contains_key(k) {
            None
        } else if r.len() == 0 {
            Some(t.children()[k])
        } else {
            match t.children()[k].content {
                PathContent::Directory(d) => d.contents.at(r),
                PathContent::File(_) => None,
            }
        },
{
    let q = seq![k] + r;
    assert(q[0] == k);
    assert(q.drop_first() =~= r);
}

/// Two trees whose entries for `q[0]` agree read the same at `q`.
pub proof fn lemma_at_same_entry(t1: PathTree, t2: PathTree, q: Seq<Seq<char>>)
    requires
        q.len() > 0,
        t1.children().contains_key(q[0]) == t2.children().contains_key(q[0]),
        t1.children().contains_key(q[0]) ==> t1.children()[q[0]] == t2.children()[q[0]],
    ensures
        t1.at(q) == t2.at(q),
{
}

/// Splits a position into its first segment and the rest.
pub proof fn lemma_split_first(q: Seq<Seq<char>>)
    requires
        q.len() > 0,
    ensures
        q == seq![q[0]] + q.drop_first(),
{
    assert(q =~= seq![q[0]] + q.drop_first());
}

/// A tree has no positions exactly when it has no entries.
pub proof fn lemma_empty_view(t: PathTree)
    ensures
        (t.entries@.len() == 0) == (t@ == Map::<Seq<Seq<char>>, NodeView>::empty()),
        t.entries@.len() == 0 ==> forall|q: Seq<Seq<char>>| #[trigger] t.at(q) is None,
{
    if t.entries@.len() == 0 {
        assert forall|q: Seq<Seq<char>>| #[trigger] t.at(q) is None by {
            if q.len() > 0 {
                assert(t.children() == Map::<Seq<char>, PathInfo>::empty());
            }
        }
        assert(t@ =~= Map::<Seq<Seq<char>>, NodeView>::empty());
    } else {
        let k = t.entries@[0].0@;
        crate::sorted::lemma_map_of_dom(t.entries@, k);
        assert(t.children().contains_key(k));
        assert(t.at(seq![k]) is Some);
        assert(t@.contains_key(seq![k]));
    }
}


/// The view of an optional tree.
pub open spec fn opt_tree_view(o: Option<PathTree>) -> Option<Map<Seq<Seq<char>>, NodeView>> {
    match o {
        Some(t) => Some(t@),
        None => None,
    }
}

/// Facts about positions below the entry `k`, relative to a target `seq![k] + rel2`.
proof fn lemma_shift(k: Seq<char>, r: Seq<Seq<char>>, rel2: Seq<Seq<char>>)
    requires
        r.len() > 0,
    ensures
        (seq![k] + r == seq![k] + rel2) == (r == rel2),
        strict_prefix(seq![k] + r, seq![k] + rel2) == strict_prefix(r, rel2),
        extends(seq![k] + r, seq![k] + rel2) == extends(r, rel2),
        within(seq![k] + r, seq![k] + rel2) == within(r, rel2),
        extends(r, rel2) ==> suffix(seq![k] + r, seq![k] + rel2) == suffix(r, rel2)
            && (seq![k] + r)[(seq![k] + rel2).len() as int] == r[rel2.len() as int],
{
    let q = seq![k] + r;
    let rel = seq![k] + rel2;
    assert(q.drop_first() =~= r);
    assert(rel.drop_first() =~= rel2);
    assert(q[0] == k && rel[0] == k);
    if extends(r, rel2) {
        assert(q.subrange(0, rel.len() as int) =~= seq![k] + r.subrange(0, rel2.len() as int));
    }
    if extends(q, rel) {
        assert(r.subrange(0, rel2.len() as int) =~= q.subrange(0, rel.len() as int).drop_first());
    }
    if q == rel {
        assert(r =~= q.drop_first());
        assert(rel2 =~= rel.drop_first());
    }
    if strict_prefix(r, rel2) {
        assert(rel.subrange(0, q.len() as int) =~= seq![k] + rel2.subrange(0, r.len() as int));
    }
    if strict_prefix(q, rel) {
        assert(rel2.subrange(0, r.len() as int) =~= rel.subrange(0, q.len() as int).drop_first());
    }
    if within(r, rel2) {
        assert(q.subrange(0, rel.len() as int) =~= seq![k] + r.subrange(0, rel2.len() as int));
    }
    if within(q, rel) {
        assert(r.subrange(0, rel2.len() as int) =~= q.subrange(0, rel.len() as int).drop_first());
    }
    if extends(r, rel2) {
        assert(suffix(q, rel) =~= suffix(r, rel2));
    }
}

/// How a tree reads after its entry `k` became `n`.
proof fn lemma_replaced_entry(old_t: PathTree, new_t: PathTree, k: Seq<char>, n: PathInfo, q: Seq<Seq<char>>)
    requires
        new_t.children() == old_t.children().insert(k, n),
        q.len() > 0,
    ensures
        q[0] != k ==> new_t.at(q) == old_t.at(q),
        q[0] == k ==> new_t.at(q) == (if q.len() == 1 {
            Some(n)
        } else {
            match n.content {
                PathContent::Directory(d) => d.contents.at(q.drop_first()),
                PathContent::File(_) => None,
            }
        }),
{
}

/// The path of the entry `key` below a node whose path is `parent`.
pub(crate) fn child_path(parent: &String, key: &String, at_root: bool) -> (r: String)
    ensures
        at_root ==> r@ == key@,
        !at_root ==> r@ == parent@ + seq!['/'] + key@,
{
    if at_root {
        key.clone()
    } else {
        let mut r = parent.clone();
        proof {
            reveal_strlit("/");
        }
        r.append("/");
        r.append(key.as_str());
        r
    }
}

/// Moves every entry of `source` into `target`, replacing an entry of the same segment.
fn graft(target: &mut PathTree, source: PathTree)
    requires
        keys_sorted(old(target).entries@),
    ensures
        keys_sorted(final(target).entries@),
        final(target).children() == old(target).children().union_prefer_right(source.children()),
{
    let ghost s0 = source.entries@;
    let ghost t0 = target.children();
    let mut source = source;
    let mut j: usize = 0;
    let n = source.entries.len();
    assert(s0.subrange(0, 0) =~= Seq::<(String, PathInfo)>::empty());
    assert(t0.union_prefer_right(map_of(s0.subrange(0, 0))) =~= t0);
    assert(source.entries@ =~= s0.subrange(0, 0int) + source.entries@);
    while source.entries.len() > 0
        invariant
            keys_sorted(target.entries@),
            n == s0.len(),
            source.entries@ == s0.subrange(j as int, n as int),
            j <= n,
            target.children() == t0.union_prefer_right(map_of(s0.subrange(0, j as int))),
        decreases source.entries@.len(),
    {
        let (k, v) = source.entries.remove(0);
        let ghost before = s0.subrange(0, j as int);
        put(&mut target.entries, k, v);
        proof {
            assert(s0.subrange(0, j + 1).drop_last() =~= before);
            assert(s0[j as int].0@ == k@ && s0[j as int].1 == v);
            assert(t0.union_prefer_right(map_of(before)).insert(k@, v) =~= t0.union_prefer_right(
                map_of(before).insert(k@, v),
            ));
        }
        j = j + 1;
        assert(source.entries@ =~= s0.subrange(j as int, n as int));
    }
    assert(s0.subrange(0, j as int) =~= s0);
}

/// After the entry `k` became `n`, the view at the positions that do not start with `k` is
/// unchanged and below `k` it is what `n` holds.
proof fn lemma_view_replaced(old_t: PathTree, new_t: PathTree, k: Seq<char>, n: PathInfo, rel: Seq<Seq<char>>, q: Seq<Seq<char>>)
    requires
        new_t.children() == old_t.children().insert(k, n),
        rel.len() > 0,
        rel[0] == k,
        q.len() == 0 || q[0] != k,
    ensures
        new_t@.contains_key(q) == old_t@.contains_key(q),
        new_t@.contains_key(q) ==> new_t@[q] == old_t@[q],
        q != rel && !strict_prefix(q, rel) && !extends(q, rel),
{
    if q.len() > 0 {
        lemma_replaced_entry(old_t, new_t, k, n, q);
    }
    if strict_prefix(q, rel) || extends(q, rel) || q == rel {
        assert(q[0] == rel[0]);
    }
}

/// The view after recording the last segment `k` of a path as the node `n`.
proof fn lemma_fill_leaf(
    old_map: PathTree,
    new_map: PathTree,
    base: Seq<Seq<char>>,
    k: Seq<char>,
    n: PathInfo,
    existing: Option<PathInfo>,
    prov_tree: Option<PathTree>,
)
    requires
        new_map.children() == old_map.children().insert(k, n),
        existing == old_map.children().get(k),
        n.content is Directory == (prov_tree is Some || (existing is Some && existing->0.content is Directory)),
        forall|r: Seq<Seq<char>>| r.len() > 0 ==> #[trigger] new_map.at(seq![k] + r) == (
            if prov_tree is Some && prov_tree->0.children().contains_key(r[0]) {
                prov_tree->0.at(r)
            } else {
                old_map.at(seq![k] + r)
            }),
    ensures
        new_map@ == filled(old_map@, base, seq![k], n.sha@, n.path@, n.url@, opt_tree_view(prov_tree)),
{
    let rel = seq![k];
    let prov = opt_tree_view(prov_tree);
    let f = filled(old_map@, base, rel, n.sha@, n.path@, n.url@, prov);
    assert forall|q: Seq<Seq<char>>| #[trigger] new_map@.contains_key(q) == f.contains_key(q)
        && (new_map@.contains_key(q) ==> new_map@[q] == f[q]) by {
        if q.len() > 0 && q[0] == k {
            lemma_replaced_entry(old_map, new_map, k, n, q);
            lemma_split_first(q);
            let r = q.drop_first();
            if r.len() == 0 {
                assert(q =~= rel);
                lemma_at_below(old_map, k, r);
                assert(seq![k] + r =~= seq![k]);
            } else {
                lemma_shift(k, r, Seq::<Seq<char>>::empty());
                assert(rel =~= seq![k] + Seq::<Seq<char>>::empty());
                assert(r.subrange(0, 0) =~= Seq::<Seq<char>>::empty());
                assert(extends(r, Seq::<Seq<char>>::empty()));
                assert(suffix(r, Seq::<Seq<char>>::empty()) =~= r);
                assert(q[1] == r[0]);
                assert(new_map.at(seq![k] + r) == new_map.at(q));
                if prov_tree is Some {
                    let p = prov_tree->0;
                    lemma_at_below(p, r[0], Seq::<Seq<char>>::empty());
                    assert(seq![r[0]] + Seq::<Seq<char>>::empty() =~= seq![r[0]]);
                }
            }
        } else {
            lemma_view_replaced(old_map, new_map, k, n, rel, q);
        }
    }
    assert(new_map@ =~= f);
}

/// The view after recording, below the entry `k` made a directory `n` holding `inner1`, the rest
/// `rel2` of a path.
proof fn lemma_fill_step(
    old_map: PathTree,
    new_map: PathTree,
    inner0: PathTree,
    inner1: PathTree,
    base: Seq<Seq<char>>,
    k: Seq<char>,
    rel2: Seq<Seq<char>>,
    n: PathInfo,
    existing: Option<PathInfo>,
    sha: Seq<char>,
    path: Seq<char>,
    url: Seq<char>,
    prov: Option<Map<Seq<Seq<char>>, NodeView>>,
)
    requires
        rel2.len() > 0,
        new_map.children() == old_map.children().insert(k, n),
        existing == old_map.children().get(k),
        n.content is Directory,
        n.content->Directory_0.contents == inner1,
        existing is Some ==> n.sha@ == existing->0.sha@ && n.path@ == existing->0.path@ && n.url@ == existing->0.url@,
        existing is None ==> n.sha@ == Seq::<char>::empty() && n.path@ == joined(base.push(k)) && n.url@ == Seq::<char>::empty(),
        forall|r: Seq<Seq<char>>| r.len() > 0 ==> #[trigger] inner0.at(r) == old_map.at(seq![k] + r),
        inner1@ == filled(inner0@, base.push(k), rel2, sha, path, url, prov),
    ensures
        new_map@ == filled(old_map@, base, seq![k] + rel2, sha, path, url, prov),
{
    let rel = seq![k] + rel2;
    let base2 = base.push(k);
    let f = filled(old_map@, base, rel, sha, path, url, prov);
    let g = filled(inner0@, base2, rel2, sha, path, url, prov);
    assert(rel[0] == k);
    assert forall|q: Seq<Seq<char>>| #[trigger] new_map@.contains_key(q) == f.contains_key(q)
        && (new_map@.contains_key(q) ==> new_map@[q] == f[q]) by {
        if q.len() > 0 && q[0] == k {
            lemma_replaced_entry(old_map, new_map, k, n, q);
            lemma_split_first(q);
            let r = q.drop_first();
            if r.len() == 0 {
                assert(q =~= seq![k]);
                assert(rel.subrange(0, 1) =~= seq![k]);
                assert(strict_prefix(q, rel));
                lemma_at_below(old_map, k, r);
                assert(seq![k] + r =~= seq![k]);
                assert(base + q =~= base2);
                assert(new_map.at(q) == Some(n));
                assert(old_map@.contains_key(q) == existing is Some);
                assert(f.contains_key(q));
                assert(new_map@[q] == f[q]);
            } else {
                lemma_shift(k, r, rel2);
                assert(base + q =~= base2 + r);
                assert(inner0.at(r) == old_map.at(seq![k] + r));
                assert(new_map.at(q) == inner1.at(r));
                assert(new_map@.contains_key(q) == inner1@.contains_key(r));
                assert(inner0@.contains_key(r) == old_map@.contains_key(q));
                assert(f.contains_key(q) == g.contains_key(r));
                if new_map@.contains_key(q) {
                    assert(new_map@[q] == inner1@[r]);
                    if inner0@.contains_key(r) {
                        assert(inner0@[r] == old_map@[q]);
                    }
                    assert(f[q] == g[r]);
                }
            }
        } else {
            lemma_view_replaced(old_map, new_map, k, n, rel, q);
        }
    }
    assert(new_map@ =~= f);
}

/// A tree whose entry `k` became `n` stays well formed below `base` when `n` records its place and
/// everything below it does.
proof fn lemma_wf_replaced(old_t: PathTree, new_t: PathTree, base: Seq<Seq<char>>, k: Seq<char>, n: PathInfo)
    requires
        old_t.wf_at(base),
        keys_sorted(new_t.entries@),
        new_t.children() == old_t.children().insert(k, n),
        n.placed_at(base.push(k)),
        forall|r: Seq<Seq<char>>| r.len() > 0 && #[trigger] new_t.at(seq![k] + r) is Some ==> new_t.at(seq![k] + r)->0.placed_at(base.push(k) + r),
    ensures
        new_t.wf_at(base),
{
    assert forall|q: Seq<Seq<char>>| #[trigger] new_t.at(q) is Some implies new_t.at(q)->0.placed_at(base + q) by {
        lemma_replaced_entry(old_t, new_t, k, n, q);
        if q[0] != k {
            assert(old_t.at(q) is Some);
        } else if q.len() == 1 {
            assert(q =~= seq![k]);
            assert(base + q =~= base.push(k));
        } else {
            let r = q.drop_first();
            lemma_split_first(q);
            assert(new_t.at(seq![k] + r) == new_t.at(q));
            assert(base + q =~= base.push(k) + r);
        }
    }
}

/// Records the node for the whole path `segs` in `map`, the tree standing at the first `i`
/// segments of that path, whose own path is `parent_path`. Every missing ancestor is made as a
/// directory with no remote identity, an ancestor that was a file becomes a directory, and the
/// node records `ref_sha`, `ref_path` and `ref_url`. A provided subtree is grafted at the node,
/// which then is a directory.
pub(crate) fn fill_content(
    ref_sha: String,
    ref_path: String,
    ref_url: String,
    provided_content: Option<PathTree>,
    map: &mut PathTree,
    segs: &Vec<String>,
    i: usize,
    parent_path: &String,
)
    requires
        i < segs@.len(),
        all_plain(seg_views(segs@)),
        ref_path@ == joined(seg_views(segs@)),
        i > 0 ==> parent_path@ == joined(seg_views(segs@).subrange(0, i as int)),
        old(map).wf_at(seg_views(segs@).subrange(0, i as int)),
        provided_content matches Some(p) ==> p.wf_at(seg_views(segs@)),
    ensures
        final(map).wf_at(seg_views(segs@).subrange(0, i as int)),
        final(map)@ == filled(
            old(map)@,
            seg_views(segs@).subrange(0, i as int),
            seg_views(segs@).subrange(i as int, segs@.len() as int),
            ref_sha@,
            ref_path@,
            ref_url@,
            opt_tree_view(provided_content),
        ),
    decreases segs@.len() - i,
{
    let ghost sv = seg_views(segs@);
    let ghost base = sv.subrange(0, i as int);
    let ghost rel = sv.subrange(i as int, sv.len() as int);
    let ghost old_map = *map;
    let ghost prov = opt_tree_view(provided_content);
    let ghost prov_tree = provided_content;
    let ghost fsha = ref_sha@;
    let ghost fpath = ref_path@;
    let ghost furl = ref_url@;
    let key = segs[i].clone();
    let ghost k = key@;
    proof {
        assert(sv[i as int] == k);
        assert(rel =~= seq![k] + rel.drop_first());
        assert(base.push(k) =~= sv.subrange(0, i + 1));
        assert(plain(sv[i as int]));
    }
    let existing = take(&mut map.entries, &key);
    let ghost existing_node = existing;
    proof {
        assert forall|r: Seq<Seq<char>>| r.len() > 0 implies #[trigger] old_map.at(seq![k] + r) == match existing_node {
            Some(node) => match node.content {
                PathContent::Directory(d) => d.contents.at(r),
                PathContent::File(_) => None,
            },
            None => None,
        } by {
            lemma_at_below(old_map, k, r);
        }
        lemma_at_below(old_map, k, Seq::<Seq<char>>::empty());
        assert(seq![k] + Seq::<Seq<char>>::empty() =~= seq![k]);
        if existing_node is Some {
            assert(old_map.at(seq![k]) == existing_node);
            assert(base + seq![k] =~= base.push(k));
        }
    }
    if i == segs.len() - 1 {
        proof {
            assert(base.push(k) =~= sv);
            assert(rel =~= seq![k]);
        }
        let content = match existing {
            Some(node) => {
                match provided_content {
                    Some(p) => {
                        match node.content {
                            PathContent::Directory(d) => {
                                let mut contents = d.contents;
                                graft(&mut contents, p);
                                PathContent::Directory(DirectoryInfo { name: key.clone(), contents })
                            },
                            PathContent::File(_) => PathContent::Directory(
                                DirectoryInfo { name: key.clone(), contents: p },
                            ),
                        }
                    },
                    None => node.content,
                }
            },
            None => {
                match provided_content {
                    Some(p) => PathContent::Directory(DirectoryInfo { name: key.clone(), contents: p }),
                    None => PathContent::File(FileInfo { name: key.clone() }),
                }
            },
        };
        let node = PathInfo { sha: ref_sha, path: ref_path, url: ref_url, content };
        let ghost n = node;
        put(&mut map.entries, key, node);
        proof {
            let new_map = *map;
            assert(new_map.children() =~= old_map.children().insert(k, n));
            assert forall|r: Seq<Seq<char>>| r.len() > 0 implies #[trigger] new_map.at(seq![k] + r) == (
                if prov_tree is Some && prov_tree->0.children().contains_key(r[0]) {
                    prov_tree->0.at(r)
                } else {
                    old_map.at(seq![k] + r)
                }) by {
                lemma_replaced_entry(old_map, new_map, k, n, seq![k] + r);
                assert((seq![k] + r)[0] == k);
                assert((seq![k] + r).drop_first() =~= r);
                lemma_split_first(r);
                if prov_tree is Some {
                    lemma_at_below(prov_tree->0, r[0], r.drop_first());
                }
                if existing_node is Some && existing_node->0.content is Directory {
                    lemma_at_below(existing_node->0.content->Directory_0.contents, r[0], r.drop_first());
                }
            }
            assert forall|r: Seq<Seq<char>>| r.len() > 0 && #[trigger] new_map.at(seq![k] + r) is Some
                implies new_map.at(seq![k] + r)->0.placed_at(base.push(k) + r) by {
                if prov_tree is Some && prov_tree->0.children().contains_key(r[0]) {
                    assert(prov_tree->0.at(r) is Some);
                } else {
                    assert(old_map.at(seq![k] + r) is Some);
                    assert(base + (seq![k] + r) =~= base.push(k) + r);
                }
            }
            assert((base.push(k)).last() == k);
            lemma_wf_replaced(old_map, new_map, base, k, n);
            lemma_fill_leaf(old_map, new_map, base, k, n, existing_node, prov_tree);
        }
    } else {
        let (sha, path, url, mut inner) = match existing {
            Some(node) => {
                let inner = match node.content {
                    PathContent::File(_) => PathTree::new(),
                    PathContent::Directory(d) => d.contents,
                };
                (node.sha, node.path, node.url, inner)
            },
            None => (String::new(), child_path(parent_path, &key, i == 0), String::new(), PathTree::new()),
        };
        let ghost inner0 = inner;
        proof {
            if i > 0 {
                lemma_joined_push(base, k);
            } else {
                assert(base.push(k) =~= seq![k]);
            }
            assert forall|r: Seq<Seq<char>>| r.len() > 0 implies #[trigger] inner0.at(r) == old_map.at(seq![k] + r) by {
                if !(existing_node is Some && existing_node->0.content is Directory) {
                    lemma_empty_view(inner0);
                }
            }
            assert(inner.wf_at(base.push(k))) by {
                assert forall|r: Seq<Seq<char>>| #[trigger] inner.at(r) is Some implies inner.at(r)->0.placed_at(base.push(k) + r) by {
                    if existing_node is Some && existing_node->0.content is Directory {
                        assert(old_map.at(seq![k] + r) is Some);
                        assert(base + (seq![k] + r) =~= base.push(k) + r);
                    } else {
                        lemma_empty_view(inner);
                    }
                }
            }
            assert(sv.subrange(i + 1, sv.len() as int) =~= rel.drop_first());
        }
        fill_content(ref_sha, ref_path, ref_url, provided_content, &mut inner, segs, i + 1, &path);
        let ghost inner1 = inner;
        let node = PathInfo {
            sha,
            path,
            url,
            content: PathContent::Directory(DirectoryInfo { name: key.clone(), contents: inner }),
        };
        let ghost n = node;
        put(&mut map.entries, key, node);
        proof {
            let new_map = *map;
            assert(new_map.children() =~= old_map.children().insert(k, n));
            assert forall|r: Seq<Seq<char>>| r.len() > 0 && #[trigger] new_map.at(seq![k] + r) is Some
                implies new_map.at(seq![k] + r)->0.placed_at(base.push(k) + r) by {
                lemma_replaced_entry(old_map, new_map, k, n, seq![k] + r);
                assert((seq![k] + r)[0] == k);
                assert((seq![k] + r).drop_first() =~= r);
                assert(inner1.at(r) is Some);
            }
            lemma_wf_replaced(old_map, new_map, base, k, n);
            lemma_fill_step(old_map, new_map, inner0, inner1, base, k, rel.drop_first(), n, existing_node, fsha, fpath, furl, prov);
        }
    }
}


/// Every position of `m` strictly below `q` lies on the way to `rel` or at or below `rel`.
pub open spec fn only_toward(m: Map<Seq<Seq<char>>, NodeView>, q: Seq<Seq<char>>, rel: Seq<Seq<char>>) -> bool {
    forall|x: Seq<Seq<char>>|
        #[trigger] m.contains_key(x) && extends(x, q) ==> within(rel, x) || within(x, rel)
}

/// The view of a tree after removing `rel` with everything below it; with `cleanup`, each
/// ancestor of `rel` left with no entries goes too.
pub open spec fn erased(m: Map<Seq<Seq<char>>, NodeView>, rel: Seq<Seq<char>>, cleanup: bool) -> Map<
    Seq<Seq<char>>,
    NodeView,
> {
    Map::new(
        |q: Seq<Seq<char>>|
            m.contains_key(q) && !within(q, rel) && !(cleanup && strict_prefix(q, rel) && only_toward(
                m,
                q,
                rel,
            )),
        |q: Seq<Seq<char>>| m[q],
    )
}

/// How a tree reads after its entry `k` was removed.
proof fn lemma_removed_entry(old_t: PathTree, new_t: PathTree, k: Seq<char>, q: Seq<Seq<char>>)
    requires
        new_t.children() == old_t.children().remove(k),
        q.len() > 0,
    ensures
        q[0] == k ==> new_t.at(q) is None,
        q[0] != k ==> new_t.at(q) == old_t.at(q),
{
}

/// Below the entry `k`, `only_toward` reads the same on the tree and on the entry's subtree.
proof fn lemma_only_toward_shift(
    m: Map<Seq<Seq<char>>, NodeView>,
    inner: Map<Seq<Seq<char>>, NodeView>,
    k: Seq<char>,
    r: Seq<Seq<char>>,
    rel2: Seq<Seq<char>>,
)
    requires
        r.len() > 0,
        forall|y: Seq<Seq<char>>| y.len() > 0 ==> #[trigger] inner.contains_key(y) == m.contains_key(seq![k] + y),
    ensures
        only_toward(m, seq![k] + r, seq![k] + rel2) == only_toward(inner, r, rel2),
{
    let q = seq![k] + r;
    let rel = seq![k] + rel2;
    if only_toward(m, q, rel) {
        assert forall|y: Seq<Seq<char>>| #[trigger] inner.contains_key(y) && extends(y, r) implies within(rel2, y) || within(y, rel2) by {
            assert(inner.contains_key(y) == m.contains_key(seq![k] + y));
            lemma_shift(k, y, r);
            lemma_shift(k, y, rel2);
            if rel2.len() > 0 {
                lemma_shift(k, rel2, y);
            } else {
                assert(y.subrange(0, 0) =~= rel2);
            }
            assert(m.contains_key(seq![k] + y) && extends(seq![k] + y, q));
        }
    }
    if only_toward(inner, r, rel2) {
        assert forall|x: Seq<Seq<char>>| #[trigger] m.contains_key(x) && extends(x, q) implies within(rel, x) || within(x, rel) by {
            lemma_split_first(x);
            let y = x.drop_first();
            assert(x[0] == q[0]);
            lemma_shift(k, y, r);
            lemma_shift(k, y, rel2);
            if rel2.len() > 0 {
                lemma_shift(k, rel2, y);
            } else {
                assert(within(x, rel)) by {
                    assert(x.subrange(0, 1) =~= seq![k]);
                    assert(rel =~= seq![k]);
                }
            }
            assert(inner.contains_key(y));
        }
    }
}

/// A tree's view holds at least one position when the tree has entries, and none when it has none.
proof fn lemma_nonempty_witness(t: PathTree) -> (q: Seq<Seq<char>>)
    requires
        t.entries@.len() > 0,
    ensures
        t@.contains_key(q),
{
    lemma_empty_view(t);
    let k = t.entries@[0].0@;
    crate::sorted::lemma_map_of_dom(t.entries@, k);
    assert(t.at(seq![k]) is Some);
    seq![k]
}

/// The view after the subtree of the entry `k` lost what stands at `rel2` below it, the entry
/// itself staying.
proof fn lemma_erase_kept(
    old_map: PathTree,
    new_map: PathTree,
    inner0: PathTree,
    inner1: PathTree,
    k: Seq<char>,
    rel2: Seq<Seq<char>>,
    n: PathInfo,
    existing: Option<PathInfo>,
    cleanup: bool,
    removed: bool,
)
    requires
        rel2.len() > 0,
        new_map.children() == old_map.children().insert(k, n),
        existing == old_map.children().get(k),
        existing is Some,
        n.node_view() == existing->0.node_view(),
        n.content is Directory,
        n.content->Directory_0.contents == inner1,
        forall|r: Seq<Seq<char>>| r.len() > 0 ==> #[trigger] inner0.at(r) == old_map.at(seq![k] + r),
        !removed ==> inner1@ == inner0@,
        removed ==> inner1@ == erased(inner0@, rel2, cleanup),
        removed && cleanup ==> inner1.entries@.len() > 0,
    ensures
        !removed ==> new_map@ == old_map@,
        removed ==> new_map@ == erased(old_map@, seq![k] + rel2, cleanup),
{
    let rel = seq![k] + rel2;
    assert(rel[0] == k);
    lemma_at_below(old_map, k, Seq::<Seq<char>>::empty());
    assert(seq![k] + Seq::<Seq<char>>::empty() =~= seq![k]);
    assert forall|y: Seq<Seq<char>>| y.len() > 0 implies #[trigger] inner0@.contains_key(y) == old_map@.contains_key(seq![k] + y) by {
        assert(inner0.at(y) == old_map.at(seq![k] + y));
    }
    let e = if removed { erased(old_map@, rel, cleanup) } else { old_map@ };
    assert forall|q: Seq<Seq<char>>| #[trigger] new_map@.contains_key(q) == e.contains_key(q)
        && (new_map@.contains_key(q) ==> new_map@[q] == e[q]) by {
        if q.len() == 0 {
            assert(new_map.at(q) is None && old_map.at(q) is None);
            assert(!new_map@.contains_key(q));
            assert(!e.contains_key(q));
        } else {
            lemma_replaced_entry(old_map, new_map, k, n, q);
            if q[0] == k {
                lemma_split_first(q);
                let r = q.drop_first();
                if r.len() == 0 {
                    assert(q =~= seq![k]);
                    assert(new_map@.contains_key(q));
                    assert(new_map.at(q) == Some(n));
                    assert(old_map.at(q) == existing);
                    assert(new_map@[q] == n.node_view());
                    assert(old_map@[q] == existing->0.node_view());
                    if removed {
                        assert(rel.subrange(0, 1) =~= seq![k]);
                        assert(!within(q, rel));
                        if cleanup {
                            let w = lemma_nonempty_witness(inner1);
                            if w.len() == 0 {
                                assert(inner1.at(w) is None);
                            }
                            assert(inner0@.contains_key(w));
                            assert(!within(w, rel2));
                            if strict_prefix(w, rel2) {
                                assert(!only_toward(inner0@, w, rel2));
                                let y = choose|y: Seq<Seq<char>>| #[trigger] inner0@.contains_key(y) && extends(y, w) && !(within(rel2, y) || within(y, rel2));
                                lemma_shift(k, y, rel2);
                                lemma_shift(k, rel2, y);
                                assert(old_map@.contains_key(seq![k] + y));
                                assert(extends(seq![k] + y, q)) by {
                                    assert((seq![k] + y).subrange(0, 1) =~= q);
                                }
                                assert(!within(rel, seq![k] + y) && !within(seq![k] + y, rel));
                                assert(!only_toward(old_map@, q, rel));
                            } else {
                                if within(rel2, w) && w.len() == rel2.len() {
                                    assert(rel2.subrange(0, rel2.len() as int) =~= rel2);
                                    assert(w.subrange(0, rel2.len() as int) =~= w);
                                }
                                lemma_shift(k, w, rel2);
                                lemma_shift(k, rel2, w);
                                assert(old_map@.contains_key(seq![k] + w));
                                assert(extends(seq![k] + w, q)) by {
                                    assert((seq![k] + w).subrange(0, 1) =~= q);
                                }
                                assert(!within(rel, seq![k] + w) && !within(seq![k] + w, rel));
                                assert(!only_toward(old_map@, q, rel));
                            }
                        }
                    }
                    assert(old_map@.contains_key(q));
                    assert(e.contains_key(q));
                } else {
                    assert(new_map.at(q) == inner1.at(r));
                    assert(inner0.at(r) == old_map.at(seq![k] + r));
                    assert(seq![k] + r == q);
                    assert(new_map@.contains_key(q) == inner1@.contains_key(r));
                    assert(old_map@.contains_key(q) == inner0@.contains_key(r));
                    if new_map@.contains_key(q) {
                        assert(new_map@[q] == inner1@[r]);
                    }
                    if old_map@.contains_key(q) {
                        assert(old_map@[q] == inner0@[r]);
                    }
                    if removed {
                        lemma_shift(k, r, rel2);
                        lemma_only_toward_shift(old_map@, inner0@, k, r, rel2);
                        assert(e.contains_key(q) == erased(inner0@, rel2, cleanup).contains_key(r));
                    }
                    assert(new_map@.contains_key(q) == e.contains_key(q));
                }
            } else {
                if removed {
                    assert(!within(q, rel) && !strict_prefix(q, rel)) by {
                        if within(q, rel) || strict_prefix(q, rel) {
                            assert(q[0] == rel[0]);
                        }
                    }
                }
                assert(new_map@.contains_key(q) == e.contains_key(q));
            }
        }
    }
    assert(new_map@ =~= e);
}

/// Removes the node at the whole path `segs` from `map`, the tree standing at the first `i`
/// segments of that path, and returns it. With `cleanup`, each ancestor left with no entries goes
/// too. Nothing changes when no node stands there.
pub(crate) fn erase_content(map: &mut PathTree, segs: &Vec<String>, i: usize, cleanup: bool) -> (r: Option<PathInfo>)
    requires
        i < segs@.len(),
        old(map).wf_at(seg_views(segs@).subrange(0, i as int)),
    ensures
        final(map).wf_at(seg_views(segs@).subrange(0, i as int)),
        r == old(map).at(seg_views(segs@).subrange(i as int, segs@.len() as int)),
        r is None ==> final(map)@ == old(map)@,
        r is Some ==> final(map)@ == erased(
            old(map)@,
            seg_views(segs@).subrange(i as int, segs@.len() as int),
            cleanup,
        ),
    decreases segs@.len() - i,
{
    let ghost sv = seg_views(segs@);
    let ghost base = sv.subrange(0, i as int);
    let ghost rel = sv.subrange(i as int, sv.len() as int);
    let ghost old_map = *map;
    let ghost k = segs@[i as int]@;
    proof {
        assert(sv[i as int] == k);
        assert(rel =~= seq![k] + rel.drop_first());
        assert(sv.subrange(i + 1, sv.len() as int) =~= rel.drop_first());
        assert(base.push(k) =~= sv.subrange(0, i + 1));
    }
    let existing = take(&mut map.entries, &segs[i]);
    let ghost existing_node = existing;
    proof {
        lemma_at_below(old_map, k, rel.drop_first());
    }
    if i == segs.len() - 1 {
        proof {
            let new_map = *map;
            assert(rel =~= seq![k]);
            assert(rel.drop_first() =~= Seq::<Seq<char>>::empty());
            assert forall|q: Seq<Seq<char>>| #[trigger] new_map.at(q) is Some implies new_map.at(q)->0.placed_at(base + q) by {
                lemma_removed_entry(old_map, new_map, k, q);
            }
            if existing_node is None {
                assert(new_map.children() =~= old_map.children());
                assert forall|q: Seq<Seq<char>>| #[trigger] new_map@.contains_key(q) == old_map@.contains_key(q) by {
                    if q.len() > 0 {
                        lemma_removed_entry(old_map, new_map, k, q);
                    }
                }
                assert(new_map@ =~= old_map@);
            } else {
                assert forall|q: Seq<Seq<char>>| #[trigger] new_map@.contains_key(q) == erased(old_map@, rel, cleanup).contains_key(q) by {
                    if q.len() > 0 {
                        lemma_removed_entry(old_map, new_map, k, q);
                        if q[0] == k {
                            assert(q.subrange(0, 1) =~= rel);
                        } else {
                            assert(!within(q, rel));
                        }
                    }
                }
                assert(new_map@ =~= erased(old_map@, rel, cleanup));
            }
        }
        return existing;
    }
    match existing {
        None => {
            proof {
                let new_map = *map;
                assert(new_map.children() =~= old_map.children());
                assert forall|q: Seq<Seq<char>>| #[trigger] new_map.at(q) == old_map.at(q) by {
                    if q.len() > 0 {
                        lemma_removed_entry(old_map, new_map, k, q);
                    }
                }
                assert(new_map@ =~= old_map@);
            }
            None
        },
        Some(node) => {
            let PathInfo { sha, path, url, content } = node;
            match content {
                PathContent::File(f) => {
                    let back = PathInfo { sha, path, url, content: PathContent::File(f) };
                    put(&mut map.entries, segs[i].clone(), back);
                    proof {
                        let new_map = *map;
                        assert(new_map.children() =~= old_map.children());
                        assert forall|q: Seq<Seq<char>>| #[trigger] new_map.at(q) == old_map.at(q) by {
                            if q.len() > 0 {
                                lemma_at_same_entry(new_map, old_map, q);
                            }
                        }
                        assert(new_map@ =~= old_map@);
                    }
                    None
                },
                PathContent::Directory(d) => {
                    let DirectoryInfo { name, contents } = d;
                    let mut inner = contents;
                    let ghost inner0 = inner;
                    proof {
                        assert forall|r: Seq<Seq<char>>| r.len() > 0 implies #[trigger] inner0.at(r) == old_map.at(seq![k] + r) by {
                            lemma_at_below(old_map, k, r);
                        }
                        lemma_at_below(old_map, k, Seq::<Seq<char>>::empty());
                        assert(seq![k] + Seq::<Seq<char>>::empty() =~= seq![k]);
                        assert(old_map.at(seq![k]) == existing_node);
                        assert(base + seq![k] =~= base.push(k));
                        assert(inner.wf_at(base.push(k))) by {
                            assert forall|r: Seq<Seq<char>>| #[trigger] inner.at(r) is Some implies inner.at(r)->0.placed_at(base.push(k) + r) by {
                                assert(old_map.at(seq![k] + r) is Some);
                                assert(base + (seq![k] + r) =~= base.push(k) + r);
                            }
                        }
                    }
                    let removed = erase_content(&mut inner, segs, i + 1, cleanup);
                    let ghost inner1 = inner;
                    let ghost rel2 = rel.drop_first();
                    proof {
                        assert forall|y: Seq<Seq<char>>| y.len() > 0 implies #[trigger] inner0@.contains_key(y) == old_map@.contains_key(seq![k] + y) by {
                            assert(inner0.at(y) == old_map.at(seq![k] + y));
                        }
                    }
                    if removed.is_some() && cleanup && inner.entries.len() == 0 {
                        proof {
                            let new_map = *map;
                            lemma_empty_view(inner1);
                            assert forall|q: Seq<Seq<char>>| #[trigger] new_map.at(q) is Some implies new_map.at(q)->0.placed_at(base + q) by {
                                lemma_removed_entry(old_map, new_map, k, q);
                            }
                            let e = erased(old_map@, rel, cleanup);
                            assert forall|q: Seq<Seq<char>>| #[trigger] new_map@.contains_key(q) == e.contains_key(q) by {
                                if q.len() > 0 {
                                    lemma_removed_entry(old_map, new_map, k, q);
                                    if q[0] == k {
                                        lemma_split_first(q);
                                        let r = q.drop_first();
                                        if r.len() == 0 {
                                            assert(q =~= seq![k]);
                                            assert(rel.subrange(0, 1) =~= seq![k]);
                                            assert(strict_prefix(q, rel));
                                            assert(only_toward(old_map@, q, rel)) by {
                                                assert forall|x: Seq<Seq<char>>| #[trigger] old_map@.contains_key(x) && extends(x, q) implies within(rel, x) || within(x, rel) by {
                                                    lemma_split_first(x);
                                                    let y = x.drop_first();
                                                    assert(x[0] == k);
                                                    assert(inner0@.contains_key(y));
                                                    assert(!inner1@.contains_key(y));
                                                    lemma_shift(k, y, rel2);
                                                    lemma_shift(k, rel2, y);
                                                }
                                            }
                                        } else {
                                            lemma_shift(k, r, rel2);
                                            lemma_only_toward_shift(old_map@, inner0@, k, r, rel2);
                                            assert(!inner1@.contains_key(r));
                                        }
                                    } else {
                                        assert(!within(q, rel) && !strict_prefix(q, rel)) by {
                                            if within(q, rel) || strict_prefix(q, rel) {
                                                assert(q[0] == rel[0]);
                                            }
                                        }
                                    }
                                }
                            }
                            assert(new_map@ =~= e);
                        }
                        removed
                    } else {
                        let back = PathInfo {
                            sha,
                            path,
                            url,
                            content: PathContent::Directory(DirectoryInfo { name, contents: inner }),
                        };
                        let ghost n = back;
                        put(&mut map.entries, segs[i].clone(), back);
                        proof {
                            let new_map = *map;
                            assert(new_map.children() =~= old_map.children().insert(k, n));
                            assert forall|r: Seq<Seq<char>>| r.len() > 0 && #[trigger] new_map.at(seq![k] + r) is Some
                                implies new_map.at(seq![k] + r)->0.placed_at(base.push(k) + r) by {
                                lemma_replaced_entry(old_map, new_map, k, n, seq![k] + r);
                                assert((seq![k] + r)[0] == k);
                                assert((seq![k] + r).drop_first() =~= r);
                                assert(inner1.at(r) is Some);
                            }
                            lemma_wf_replaced(old_map, new_map, base, k, n);
                            lemma_erase_kept(old_map, new_map, inner0, inner1, k, rel2, n, existing_node, cleanup, removed is Some);
                        }
                        removed
                    }
                },
            }
        },
    }
}


/// The files at and below the entry `j` of `t` and the entries after it, in order, each as its old
/// path, its new path once the level of `t` has the path `dest`, and its content hash.
pub open spec fn moved_from(t: PathTree, dest: Seq<char>, j: int) -> Seq<(Seq<char>, Seq<char>, Seq<char>)>
    decreases t, t.entries@.len() - j,
{
    if j < 0 || j >= t.entries@.len() {
        Seq::empty()
    } else {
        let k = t.entries@[j].0@;
        let node = t.entries@[j].1;
        let np = dest + seq!['/'] + k;
        let here = match node.content {
            PathContent::File(_) => seq![(node.path@, np, node.sha@)],
            PathContent::Directory(d) => moved_from(d.contents, np, 0),
        };
        here + moved_from(t, dest, j + 1)
    }
}

/// The view of a tree moved to stand at `dest`: the same nodes, each with the path of its new
/// position.
pub open spec fn rebased(m: Map<Seq<Seq<char>>, NodeView>, dest: Seq<Seq<char>>) -> Map<Seq<Seq<char>>, NodeView> {
    Map::new(
        |q: Seq<Seq<char>>| m.contains_key(q),
        |q: Seq<Seq<char>>| NodeView { is_dir: m[q].is_dir, sha: m[q].sha, path: joined(dest + q), url: m[q].url },
    )
}

/// What a trace entry says: the old path, the new path and the content hash.
pub open spec fn trace_view(e: (String, (String, String))) -> (Seq<char>, Seq<char>, Seq<char>) {
    (e.0@, e.1.0@, e.1.1@)
}

/// Two entry vectors with the same keys at every index describe maps with the same keys, each
/// value read at the index of its key.
proof fn lemma_same_keys(a: Seq<(String, PathInfo)>, b: Seq<(String, PathInfo)>)
    requires
        keys_sorted(a),
        a.len() == b.len(),
        forall|x: int| 0 <= x < a.len() ==> #[trigger] a[x].0@ == b[x].0@,
    ensures
        keys_sorted(b),
        forall|k: Seq<char>| #[trigger] map_of(a).contains_key(k) == map_of(b).contains_key(k),
        forall|x: int| 0 <= x < a.len() ==> #[trigger] map_of(a)[a[x].0@] == a[x].1 && map_of(b)[a[x].0@] == b[x].1,
        forall|k: Seq<char>| map_of(a).contains_key(k) ==> exists|x: int| 0 <= x < a.len() && #[trigger] a[x].0@ == k,
{
    assert forall|i: int, j: int| 0 <= i < j < b.len() implies crate::text::precedes(#[trigger] b[i].0@, #[trigger] b[j].0@) by {
        assert(crate::text::precedes(a[i].0@, a[j].0@));
    }
    lemma_map_of_all(a);
    lemma_map_of_all(b);
    assert forall|x: int| 0 <= x < a.len() implies #[trigger] map_of(a)[a[x].0@] == a[x].1 && map_of(b)[a[x].0@] == b[x].1 by {
        crate::sorted::lemma_map_of_index(a, x);
        crate::sorted::lemma_map_of_index(b, x);
    }
    assert forall|k: Seq<char>| map_of(a).contains_key(k) implies exists|x: int| 0 <= x < a.len() && #[trigger] a[x].0@ == k by {
        crate::sorted::lemma_map_of_dom(a, k);
    }
    assert forall|k: Seq<char>| #[trigger] map_of(a).contains_key(k) == map_of(b).contains_key(k) by {
        if crate::sorted::has_key(a, k) {
            let x = choose|x: int| 0 <= x < a.len() && #[trigger] a[x].0@ == k;
            assert(b[x].0@ == k);
        }
        if crate::sorted::has_key(b, k) {
            let x = choose|x: int| 0 <= x < b.len() && #[trigger] b[x].0@ == k;
            assert(a[x].0@ == k);
        }
    }
}

/// Gives every node of `tree` the path of its position below `dest`, the path of the level
/// `new_base`, and lists the files it holds with their old and new paths and hashes.
pub(crate) fn propagate_path(
    tree: PathTree,
    dest: &String,
    Ghost(old_base): Ghost<Seq<Seq<char>>>,
    Ghost(new_base): Ghost<Seq<Seq<char>>>,
) -> (r: (PathTree, Vec<(String, (String, String))>))
    requires
        tree.wf_at(old_base),
        new_base.len() > 0,
        dest@ == joined(new_base),
    ensures
        r.0.wf_at(new_base),
        r.0@ == rebased(tree@, new_base),
        r.1@.map_values(|e: (String, (String, String))| trace_view(e)) == moved_from(tree, dest@, 0),
    decreases tree,
{
    let ghost t0 = tree;
    let ghost s0 = tree.entries@;
    let mut rest = tree.entries;
    let mut out: Vec<(String, PathInfo)> = Vec::new();
    let mut trace: Vec<(String, (String, String))> = Vec::new();
    let mut j: usize = 0;
    proof {
        lemma_map_of_all(s0);
        assert(rest@ =~= s0.subrange(0, s0.len() as int));
        assert(moved_from(t0, dest@, 0) =~= trace@.map_values(|e: (String, (String, String))| trace_view(e)) + moved_from(t0, dest@, 0));
    }
    assert(s0.len() == rest.len());
    while rest.len() > 0
        invariant
            s0.len() <= usize::MAX,
            t0 == tree,
            t0.wf_at(old_base),
            s0 == t0.entries@,
            new_base.len() > 0,
            dest@ == joined(new_base),
            j <= s0.len(),
            rest@ == s0.subrange(j as int, s0.len() as int),
            out@.len() == j,
            forall|x: int| 0 <= x < j ==> (#[trigger] out@[x]).0@ == s0[x].0@ && {
                let node = s0[x].1;
                let moved = out@[x].1;
                let k = s0[x].0@;
                &&& moved.sha@ == node.sha@
                &&& moved.url@ == node.url@
                &&& moved.path@ == joined(new_base.push(k))
                &&& moved.placed_at(new_base.push(k))
                &&& (moved.content is Directory) == (node.content is Directory)
                &&& (node.content is Directory ==> moved.content->Directory_0.contents@ == rebased(
                    node.content->Directory_0.contents@,
                    new_base.push(k),
                ) && moved.content->Directory_0.contents.wf_at(new_base.push(k)))
            },
            trace@.map_values(|e: (String, (String, String))| trace_view(e)) + moved_from(t0, dest@, j as int)
                == moved_from(t0, dest@, 0),
        decreases rest@.len(),
    {
        let (key, node) = rest.remove(0);
        let ghost k = key@;
        let ghost here_node = node;
        let ghost tv0 = trace@.map_values(|e: (String, (String, String))| trace_view(e));
        proof {
            assert(s0[j as int] == (key, node));
            crate::sorted::lemma_map_of_index(s0, j as int);
            assert(t0.children()[k] == node);
            lemma_at_below(t0, k, Seq::<Seq<char>>::empty());
            assert(seq![k] + Seq::<Seq<char>>::empty() =~= seq![k]);
            assert(t0.at(seq![k]) == Some(node));
            assert(node.placed_at(old_base + seq![k]));
            assert((old_base + seq![k]).last() == k);
            lemma_joined_push(new_base, k);
        }
        let new_path = child_path(dest, &key, false);
        let PathInfo { sha, path: old_path, url, content } = node;
        let (moved_content, mut inner_trace) = match content {
            PathContent::File(f) => {
                let mut one: Vec<(String, (String, String))> = Vec::new();
                one.push((old_path, (new_path.clone(), sha.clone())));
                proof {
                    assert(one@.map_values(|e: (String, (String, String))| trace_view(e)) =~= seq![(here_node.path@, new_path@, here_node.sha@)]);
                }
                (PathContent::File(f), one)
            },
            PathContent::Directory(d) => {
                let DirectoryInfo { name, contents } = d;
                proof {
                    assert(contents.wf_at(old_base.push(k))) by {
                        assert forall|r: Seq<Seq<char>>| #[trigger] contents.at(r) is Some implies contents.at(r)->0.placed_at(old_base.push(k) + r) by {
                            lemma_at_below(t0, k, r);
                            if r.len() > 0 {
                                assert(t0.at(seq![k] + r) is Some);
                                assert(old_base + (seq![k] + r) =~= old_base.push(k) + r);
                            }
                        }
                    }
                }
                proof {
                    assert(decreases_to!(t0 => t0.entries));
                    assert(decreases_to!(t0.entries => t0.entries@[j as int]));
                    assert(decreases_to!(t0 => contents));
                    assert(decreases_to!(tree => contents));
                }
                let (moved, sub_trace) = propagate_path(contents, &new_path, Ghost(old_base.push(k)), Ghost(new_base.push(k)));
                (PathContent::Directory(DirectoryInfo { name, contents: moved }), sub_trace)
            },
        };
        let ghost here_trace = inner_trace@.map_values(|e: (String, (String, String))| trace_view(e));
        trace.append(&mut inner_trace);
        out.push((key, PathInfo { sha, path: new_path, url, content: moved_content }));
        proof {
            assert(trace@.map_values(|e: (String, (String, String))| trace_view(e)) =~= tv0 + here_trace);
            assert(moved_from(t0, dest@, j as int) == here_trace + moved_from(t0, dest@, j + 1));
            assert(tv0 + here_trace + moved_from(t0, dest@, j + 1) =~= tv0 + (here_trace + moved_from(t0, dest@, j + 1)));
        }
        j = j + 1;
        assert(rest@ =~= s0.subrange(j as int, s0.len() as int));
    }
    let r = PathTree { entries: out };
    proof {
        lemma_same_keys(s0, r.entries@);
        assert forall|q: Seq<Seq<char>>| #[trigger] r.at(q) is Some implies r.at(q)->0.placed_at(new_base + q) by {
            lemma_split_first(q);
            let k = q[0];
            assert(r.children().contains_key(k));
            assert(map_of(s0).contains_key(k));
            let x = choose|x: int| 0 <= x < s0.len() && #[trigger] s0[x].0@ == k;
            assert(r.entries@[x].0@ == k);
            lemma_at_below(r, k, q.drop_first());
            if q.len() == 1 {
                assert(new_base + q =~= new_base.push(k));
            } else {
                assert(new_base + q =~= new_base.push(k) + q.drop_first());
            }
        }
        assert forall|q: Seq<Seq<char>>| #[trigger] r@.contains_key(q) == rebased(t0@, new_base).contains_key(q)
            && (r@.contains_key(q) ==> r@[q] == rebased(t0@, new_base)[q]) by {
            if q.len() > 0 {
                lemma_split_first(q);
                let k = q[0];
                let rr = q.drop_first();
                lemma_at_below(r, k, rr);
                lemma_at_below(t0, k, rr);
                if t0.children().contains_key(k) {
                    let x = choose|x: int| 0 <= x < s0.len() && #[trigger] s0[x].0@ == k;
                    assert(out@[x].0@ == k);
                    let node = s0[x].1;
                    let moved = out@[x].1;
                    assert(t0.children()[k] == node);
                    assert(r.children()[k] == moved);
                    if rr.len() == 0 {
                        assert(new_base + q =~= new_base.push(k));
                    } else {
                        assert(new_base + q =~= new_base.push(k) + rr);
                        if node.content is Directory {
                            let c = node.content->Directory_0.contents;
                            let c2 = moved.content->Directory_0.contents;
                            assert(c2@ == rebased(c@, new_base.push(k)));
                            assert(r.at(q) == c2.at(rr));
                            assert(t0.at(q) == c.at(rr));
                            assert(r@.contains_key(q) == c2@.contains_key(rr));
                            assert(t0@.contains_key(q) == c@.contains_key(rr));
                            if c@.contains_key(rr) {
                                assert(r@[q] == c2@[rr]);
                                assert(t0@[q] == c@[rr]);
                            }
                        }
                    }
                }
            }
        }
        assert(r@ =~= rebased(t0@, new_base));
        assert(moved_from(t0, dest@, j as int) =~= Seq::<(Seq<char>, Seq<char>, Seq<char>)>::empty());
        assert(trace@.map_values(|e: (String, (String, String))| trace_view(e)) =~= moved_from(t0, dest@, 0));
    }
    (r, trace)
}


/// Reading below a directory of the tree reads that directory's entries.
pub proof fn lemma_at_concat(t: PathTree, q: Seq<Seq<char>>, r: Seq<Seq<char>>)
    requires
        t.at(q) is Some,
        t.at(q)->0.content is Directory,
        r.len() > 0,
    ensures
        t.at(q + r) == t.at(q)->0.content->Directory_0.contents.at(r),
    decreases q.len(),
{
    lemma_split_first(q);
    let k = q[0];
    let q2 = q.drop_first();
    lemma_at_below(t, k, q2);
    lemma_at_below(t, k, q2 + r);
    assert(q + r =~= seq![k] + (q2 + r));
    if q2.len() > 0 {
        let child = t.children()[k].content->Directory_0.contents;
        lemma_at_concat(child, q2, r);
    } else {
        assert(q2 + r =~= r);
    }
}

/// The entries of a directory of a well-formed tree form a well-formed tree at its position.
pub proof fn lemma_subtree_wf(t: PathTree, base: Seq<Seq<char>>, q: Seq<Seq<char>>)
    requires
        t.wf_at(base),
        t.at(q) is Some,
        t.at(q)->0.content is Directory,
    ensures
        t.at(q)->0.content->Directory_0.contents.wf_at(base + q),
{
    let c = t.at(q)->0.content->Directory_0.contents;
    assert forall|r: Seq<Seq<char>>| #[trigger] c.at(r) is Some implies c.at(r)->0.placed_at(base + q + r) by {
        if r.len() > 0 {
            lemma_at_concat(t, q, r);
            assert(t.at(q + r) is Some);
            assert(base + (q + r) =~= base + q + r);
        }
    }
}


/// `needle` occurs in the lower-cased path of some node at or below the entries of `t` from index
/// `j` on.
pub open spec fn found_from(t: PathTree, needle: Seq<char>, j: int) -> bool
    decreases t, t.entries@.len() - j,
{
    if j < 0 || j >= t.entries@.len() {
        false
    } else {
        let node = t.entries@[j].1;
        ||| occurs_in(needle, lower_of(node.path@))
        ||| (match node.content {
            PathContent::Directory(d) => found_from(d.contents, needle, 0),
            PathContent::File(_) => false,
        })
        ||| found_from(t, needle, j + 1)
    }
}

impl PathInfo {
    /// `needle` occurs in the lower-cased path of this node, or of a node below it.
    pub open spec fn found(self, needle: Seq<char>) -> bool {
        occurs_in(needle, lower_of(self.path@)) || match self.content {
            PathContent::Directory(d) => found_from(d.contents, needle, 0),
            PathContent::File(_) => false,
        }
    }

    /// Whether `string` occurs, ignoring case, in the path of this node or of a node below it.
    pub fn contains(&self, string: &str) -> (r: bool)
        ensures
            r == self.found(lower_of(string@)),
    {
        let lowered = lowercase(string);
        let needle = chars_of(lowered.as_str());
        self.contains_folded(&needle)
    }

    /// Whether `needle`, already lower-cased, occurs in the lower-cased path of this node or of a
    /// node below it.
    pub fn contains_folded(&self, needle: &Vec<char>) -> (r: bool)
        ensures
            r == self.found(needle@),
        decreases self,
    {
        let lowered = lowercase(self.path.as_str());
        let path = chars_of(lowered.as_str());
        if occurs_in_exec(needle, &path) {
            return true;
        }
        match &self.content {
            PathContent::Directory(d) => {
                let mut i: usize = 0;
                while i < d.contents.entries.len()
                    invariant
                        self.content == PathContent::Directory(*d),
                        i <= d.contents.entries@.len(),
                        found_from(d.contents, needle@, 0) == found_from(d.contents, needle@, i as int),
                    decreases d.contents.entries@.len() - i,
                {
                    proof {
                        let dd = *d;
                        assert(self.content->Directory_0 == dd);
                        assert(decreases_to!(*self => dd.contents.entries@[i as int].1));
                    }
                    if d.contents.entries[i].1.contains_folded(needle) {
                        return true;
                    }
                    i = i + 1;
                }
                false
            },
            PathContent::File(_) => false,
        }
    }
}


/// Every proper ancestor of a position of a tree is a directory of the tree.
pub proof fn lemma_view_prefix(t: PathTree, q: Seq<Seq<char>>, n: int)
    requires
        t@.contains_key(q),
        0 < n < q.len(),
    ensures
        t@.contains_key(q.subrange(0, n)),
        t@[q.subrange(0, n)].is_dir,
    decreases q.len(),
{
    lemma_split_first(q);
    let k = q[0];
    let q2 = q.drop_first();
    lemma_at_below(t, k, q2);
    let a = q.subrange(0, n);
    assert(a =~= seq![k] + a.drop_first());
    lemma_at_below(t, k, a.drop_first());
    if n == 1 {
        assert(a.drop_first() =~= Seq::<Seq<char>>::empty());
    } else {
        let child = t.children()[k].content->Directory_0.contents;
        assert(child@.contains_key(q2));
        lemma_view_prefix(child, q2, n - 1);
        assert(a.drop_first() =~= q2.subrange(0, n - 1));
    }
}


/// The node at the segments `i` to `n` of `segs`, read below `t`, the tree standing at `base`.
pub(crate) fn lookup<'a>(t: &'a PathTree, segs: &Vec<String>, i: usize, n: usize, Ghost(base): Ghost<Seq<Seq<char>>>) -> (r: Option<&'a PathInfo>)
    requires
        t.wf_at(base),
        i < n <= segs@.len(),
    ensures
        (r is Some) == (t.at(seg_views(segs@).subrange(i as int, n as int)) is Some),
        r matches Some(node) ==> *node == t.at(seg_views(segs@).subrange(i as int, n as int))->0,
    decreases n - i,
{
    let ghost sv = seg_views(segs@);
    let ghost q = sv.subrange(i as int, n as int);
    let ghost k = segs@[i as int]@;
    proof {
        assert(q[0] == k);
        lemma_split_first(q);
        assert(q.drop_first() =~= sv.subrange(i + 1, n as int));
        lemma_at_below(*t, k, q.drop_first());
    }
    match crate::sorted::locate(&t.entries, &segs[i]) {
        Err(_) => {
            proof {
                crate::sorted::lemma_map_of_dom(t.entries@, k);
            }
            None
        },
        Ok(j) => {
            proof {
                crate::sorted::lemma_map_of_index(t.entries@, j as int);
            }
            let node = &t.entries[j].1;
            if i == n - 1 {
                proof {
                    assert(q.drop_first() =~= Seq::<Seq<char>>::empty());
                }
                Some(node)
            } else {
                match &node.content {
                    PathContent::Directory(d) => {
                        proof {
                            lemma_at_below(*t, k, Seq::<Seq<char>>::empty());
                            assert(seq![k] + Seq::<Seq<char>>::empty() =~= seq![k]);
                            lemma_subtree_wf(*t, base, seq![k]);
                        }
                        lookup(&d.contents, segs, i + 1, n, Ghost(base + seq![k]))
                    },
                    PathContent::File(_) => None,
                }
            }
        },
    }
}

} // verus!
