//! Workspace operations on a path tree: building it from a fetched listing, adding, moving and
//! removing paths.
use vstd::prelude::*;
use normalize_path::NormalizePath;
use crate::changes::Modification;
use crate::text::{segments, joined, all_plain, plain, precedes, split_path, chars_of, lemma_join_segments, lemma_segments_nonempty, lemma_joined_push, lemma_joined_injective, lemma_precedes_irreflexive};
use crate::tree::{lookup, PathTree, PathInfo, PathContent, NodeView, filled, erased, rebased, moved_from, trace_view, seg_views, strict_prefix, within, extends, only_toward, fill_content, erase_content, propagate_path, child_path, lemma_subtree_wf, lemma_view_prefix, lemma_at_below, lemma_at_concat, lemma_split_first};
use crate::sorted::{keys_sorted, lemma_map_of_dom, lemma_map_of_index};

verus! {

/// One object of a fetched remote tree: its content hash, its remote reference and its path.
pub struct TreePart {
    pub sha: String,
    pub url: String,
    pub path: String,
}

/// A fetched remote tree: its own hash and reference, and every object reachable from it.
pub struct TreeObject {
    pub sha: String,
    pub url: String,
    pub tree: Vec<TreePart>,
}

/// The view of a tree after recording each path of `paths` in turn, with no remote identity.
pub open spec fn appended(m: Map<Seq<Seq<char>>, NodeView>, paths: Seq<Seq<char>>) -> Map<
    Seq<Seq<char>>,
    NodeView,
>
    decreases paths.len(),
{
    if paths.len() == 0 {
        m
    } else {
        let p = paths.last();
        filled(appended(m, paths.drop_last()), Seq::empty(), segments(p), Seq::empty(), p, Seq::empty(), None)
    }
}

/// The view of the tree built from the objects `parts`, recorded in turn.
pub open spec fn built(parts: Seq<TreePart>) -> Map<Seq<Seq<char>>, NodeView>
    decreases parts.len(),
{
    if parts.len() == 0 {
        Map::empty()
    } else {
        let p = parts.last();
        filled(built(parts.drop_last()), Seq::empty(), segments(p.path@), p.sha@, p.path@, p.url@, None)
    }
}

/// No path of `parts` equals another's or lies on the way to another's.
pub open spec fn collision_free(parts: Seq<TreePart>) -> bool {
    forall|i: int, j: int|
        0 <= i < parts.len() && 0 <= j < parts.len() && i != j ==> !within(
            #[trigger] segments(parts[j].path@),
            #[trigger] segments(parts[i].path@),
        )
}

/// What the tree records for the object `p` as a file.
pub open spec fn file_view(p: TreePart) -> NodeView {
    NodeView { is_dir: false, sha: p.sha@, path: p.path@, url: p.url@ }
}

/// Records the node at `path` with the given identity.
fn record_path(content: &mut PathTree, sha: String, path: String, url: String)
    requires
        old(content).wf(),
    ensures
        final(content).wf(),
        final(content)@ == filled(old(content)@, Seq::empty(), segments(path@), sha@, path@, url@, None),
{
    let segs = split_path(path.as_str());
    proof {
        lemma_join_segments(path@);
        assert(seg_views(segs@) == segments(path@));
        assert(seg_views(segs@).subrange(0, 0) =~= Seq::<Seq<char>>::empty());
        assert(seg_views(segs@).subrange(0, segs@.len() as int) =~= seg_views(segs@));
    }
    let root = String::new();
    fill_content(sha, path, url, None, content, &segs, 0, &root);
}

/// Adds each path of `paths` to the tree, as a node with no remote identity, creating the
/// directories on its way.
pub fn append_workspace_content(content: &mut PathTree, paths: Vec<String>)
    requires
        old(content).wf(),
    ensures
        final(content).wf(),
        final(content)@ == appended(old(content)@, paths@.map_values(|p: String| p@)),
{
    let ghost start = content@;
    let ghost ps = paths@.map_values(|p: String| p@);
    let mut i: usize = 0;
    assert(ps.subrange(0, 0) =~= Seq::<Seq<char>>::empty());
    while i < paths.len()
        invariant
            i <= paths@.len(),
            ps == paths@.map_values(|p: String| p@),
            content.wf(),
            content@ == appended(start, ps.subrange(0, i as int)),
        decreases paths@.len() - i,
    {
        let path = paths[i].clone();
        record_path(content, String::new(), path, String::new());
        proof {
            assert(ps.subrange(0, i + 1).drop_last() =~= ps.subrange(0, i as int));
            assert(ps.subrange(0, i + 1).last() == ps[i as int]);
        }
        i = i + 1;
    }
    assert(ps.subrange(0, i as int) =~= ps);
}

/// Removes the node at `path` with everything below it, and every ancestor directory left with no
/// entries, and returns it. Nothing changes when no node stands at `path`.
pub fn remove_workspace_content(content: &mut PathTree, path: String) -> (r: Option<PathInfo>)
    requires
        old(content).wf(),
    ensures
        final(content).wf(),
        r == old(content).at(segments(path@)),
        r is None ==> final(content)@ == old(content)@,
        r is Some ==> final(content)@ == erased(old(content)@, segments(path@), true),
{
    let segs = split_path(path.as_str());
    proof {
        lemma_segments_nonempty(path@);
        assert(seg_views(segs@).subrange(0, 0) =~= Seq::<Seq<char>>::empty());
        assert(seg_views(segs@).subrange(0, segs@.len() as int) =~= segments(path@));
    }
    erase_content(content, &segs, 0, true)
}

/// Builds the tree of the fetched objects `parts`, and the changeset, empty, over their paths.
/// When no path equals another or lies on the way to another, the files of the tree are exactly
/// the objects, each with its hash, path and reference.
pub fn build_workspace_content(parts: Vec<TreePart>) -> (r: (PathTree, Modification))
    ensures
        r.0.wf(),
        r.0@ == built(parts@),
        r.1.wf(),
        r.1.baseline() == Set::new(|p: Seq<char>| exists|i: int| 0 <= i < parts@.len() && #[trigger] parts@[i].path@ == p),
        r.1.pending() == Map::<Seq<char>, crate::changes::Change>::empty(),
        collision_free(parts@) ==> forall|i: int| 0 <= i < parts@.len() ==> #[trigger] r.0@.contains_key(segments(parts@[i].path@))
            && r.0@[segments(parts@[i].path@)] == file_view(parts@[i]),
        collision_free(parts@) ==> forall|q: Seq<Seq<char>>| #[trigger] r.0@.contains_key(q) && !r.0@[q].is_dir
            ==> exists|i: int| 0 <= i < parts@.len() && q == #[trigger] segments(parts@[i].path@),
{
    let mut structure = PathTree::new();
    let mut modification = Modification::new();
    let ghost all = parts@;
    let mut rest = parts;
    let mut i: usize = 0;
    assert(all.subrange(0, 0) =~= Seq::<TreePart>::empty());
    assert(built(Seq::<TreePart>::empty()) =~= Map::<Seq<Seq<char>>, NodeView>::empty());
    assert(modification.baseline() =~= Set::new(|p: Seq<char>| exists|j: int| 0 <= j < 0 && #[trigger] all[j].path@ == p));
    assert(rest@ =~= all.subrange(0, all.len() as int));
    assert(all.len() == rest.len());
    while rest.len() > 0
        invariant
            all.len() <= usize::MAX,
            i <= all.len(),
            rest@ == all.subrange(i as int, all.len() as int),
            structure.wf(),
            structure@ == built(all.subrange(0, i as int)),
            modification.wf(),
            modification.pending() == Map::<Seq<char>, crate::changes::Change>::empty(),
            modification.baseline() == Set::new(|p: Seq<char>| exists|j: int| 0 <= j < i && #[trigger] all[j].path@ == p),
        decreases rest@.len(),
    {
        let part = rest.remove(0);
        let ghost before = modification.baseline();
        assert(part == all[i as int]);
        modification.track_upstream(part.path.clone());
        record_path(&mut structure, part.sha, part.path, part.url);
        proof {
            assert(all.subrange(0, i + 1).drop_last() =~= all.subrange(0, i as int));
            assert(modification.baseline() =~= Set::new(|p: Seq<char>| exists|j: int| 0 <= j < i + 1 && #[trigger] all[j].path@ == p)) by {
                assert forall|p: Seq<char>| #[trigger] modification.baseline().contains(p) == (exists|j: int| 0 <= j < i + 1 && #[trigger] all[j].path@ == p) by {
                    if exists|j: int| 0 <= j < i + 1 && #[trigger] all[j].path@ == p {
                        let j = choose|j: int| 0 <= j < i + 1 && #[trigger] all[j].path@ == p;
                        if j < i {
                            assert(before.contains(p));
                        }
                    }
                    if before.contains(p) {
                        let j = choose|j: int| 0 <= j < i && #[trigger] all[j].path@ == p;
                        assert(0 <= j < i + 1 && all[j].path@ == p);
                    }
                }
            }
        }
        i = i + 1;
        assert(rest@ =~= all.subrange(i as int, all.len() as int));
    }
    assert(all.subrange(0, i as int) =~= all);
    proof {
        if collision_free(all) {
            lemma_built_files(all);
        }
    }
    (structure, modification)
}

/// With no colliding paths, the files of the built tree are exactly the objects, and every
/// directory lies on the way to one of them.
pub proof fn lemma_built_files(parts: Seq<TreePart>)
    requires
        collision_free(parts),
    ensures
        forall|i: int| 0 <= i < parts.len() ==> #[trigger] built(parts).contains_key(segments(parts[i].path@))
            && built(parts)[segments(parts[i].path@)] == file_view(parts[i]),
        forall|q: Seq<Seq<char>>| #[trigger] built(parts).contains_key(q) && !built(parts)[q].is_dir
            ==> exists|i: int| 0 <= i < parts.len() && q == #[trigger] segments(parts[i].path@),
        forall|q: Seq<Seq<char>>| #[trigger] built(parts).contains_key(q) && built(parts)[q].is_dir
            ==> exists|i: int| 0 <= i < parts.len() && strict_prefix(q, #[trigger] segments(parts[i].path@)),
    decreases parts.len(),
{
    if parts.len() > 0 {
        let n = parts.len() - 1;
        let init = parts.drop_last();
        assert forall|i: int, j: int|
            0 <= i < init.len() && 0 <= j < init.len() && i != j implies !within(
                #[trigger] segments(init[j].path@),
                #[trigger] segments(init[i].path@),
            ) by {
            assert(init[i] == parts[i] && init[j] == parts[j]);
        }
        lemma_built_files(init);
        let m = built(init);
        let p = parts[n];
        let s = segments(p.path@);
        lemma_segments_nonempty(p.path@);
        assert(parts.last() == p);
        let f = built(parts);
        assert(f == filled(m, Seq::empty(), s, p.sha@, p.path@, p.url@, None));
        // the last path was not a directory before
        assert(!(m.contains_key(s) && m[s].is_dir)) by {
            if m.contains_key(s) && m[s].is_dir {
                let i = choose|i: int| 0 <= i < init.len() && strict_prefix(s, #[trigger] segments(init[i].path@));
                assert(init[i] == parts[i]);
                assert(within(segments(parts[i].path@), segments(parts[n].path@)));
            }
        }
        assert forall|i: int| 0 <= i < parts.len() implies #[trigger] f.contains_key(segments(parts[i].path@))
            && f[segments(parts[i].path@)] == file_view(parts[i]) by {
            if i < n {
                let si = segments(parts[i].path@);
                assert(init[i] == parts[i]);
                assert(si != s && !strict_prefix(si, s) && !within(si, s)) by {
                    if si == s || strict_prefix(si, s) {
                        assert(within(s, si)) by {
                            if si == s {
                                assert(s.subrange(0, s.len() as int) =~= s);
                            }
                        }
                    }
                    if within(si, s) {
                        assert(within(segments(parts[i].path@), segments(parts[n].path@)));
                    }
                }
                assert(0 <= i < init.len());
                assert(built(init).contains_key(segments(init[i].path@)));
                assert(m.contains_key(segments(init[i].path@)) && m[segments(init[i].path@)] == file_view(init[i]));
                assert(m.contains_key(si) && m[si] == file_view(init[i]));
                assert(!crate::tree::extends(si, s));
                assert(f.contains_key(si));
                assert(f[si] == m[si]);
            } else {
                assert(parts[i] == p);
                assert(f.contains_key(s));
                assert(f[s] == file_view(p));
            }
        }
        assert forall|q: Seq<Seq<char>>| #[trigger] f.contains_key(q) && !f[q].is_dir
            implies exists|i: int| 0 <= i < parts.len() && q == #[trigger] segments(parts[i].path@) by {
            if q == s {
                assert(q == segments(parts[n].path@));
            } else if !strict_prefix(q, s) {
                assert(m.contains_key(q) && !m[q].is_dir);
                let i = choose|i: int| 0 <= i < init.len() && q == #[trigger] segments(init[i].path@);
                assert(init[i] == parts[i]);
                assert(q == segments(parts[i].path@));
            }
        }
        assert forall|q: Seq<Seq<char>>| #[trigger] f.contains_key(q) && f[q].is_dir
            implies exists|i: int| 0 <= i < parts.len() && strict_prefix(q, #[trigger] segments(parts[i].path@)) by {
            if strict_prefix(q, s) {
                assert(strict_prefix(q, segments(parts[n].path@)));
            } else if q != s {
                assert(m.contains_key(q) && m[q].is_dir);
                let i = choose|i: int| 0 <= i < init.len() && strict_prefix(q, #[trigger] segments(init[i].path@));
                assert(init[i] == parts[i]);
                assert(strict_prefix(q, segments(parts[i].path@)));
            }
        }
    }
}


/// Why a path operation was refused.
pub enum PathError {
    /// The target path is malformed, or climbs above the root.
    InvalidPath,
    /// No node stands at the path.
    NotFound,
    /// A node of the other kind, file or directory, stands where the operation needs one kind.
    StructuralConflict,
}

/// Moving the node at `origin` to `dest` meets a node of the wrong kind, outside what moves: a file
/// on the way to `dest`, or at `dest` a node whose kind differs from the moved node's.
pub open spec fn blocked(t: PathTree, origin: Seq<Seq<char>>, dest: Seq<Seq<char>>, m: int) -> bool {
    let a = dest.subrange(0, m);
    &&& t@.contains_key(a)
    &&& !within(a, origin)
    &&& if m < dest.len() {
        !t@[a].is_dir
    } else {
        t@[a].is_dir != t@[origin].is_dir
    }
}

/// Some position on the way to `dest`, or `dest` itself, blocks the move.
pub open spec fn conflicts(t: PathTree, origin: Seq<Seq<char>>, dest: Seq<Seq<char>>) -> bool {
    exists|m: int| 1 <= m <= dest.len() && #[trigger] blocked(t, origin, dest, m)
}

/// Whether the first `m` segments of `a` are `origin` or lie below it.
fn within_segments(a: &Vec<String>, m: usize, origin: &Vec<String>) -> (r: bool)
    requires
        m <= a@.len(),
    ensures
        r == within(seg_views(a@).subrange(0, m as int), seg_views(origin@)),
{
    let ghost q = seg_views(a@).subrange(0, m as int);
    let ghost o = seg_views(origin@);
    if m < origin.len() {
        return false;
    }
    let mut j: usize = 0;
    while j < origin.len()
        invariant
            q == seg_views(a@).subrange(0, m as int),
            o == seg_views(origin@),
            origin@.len() <= m <= a@.len(),
            j <= origin@.len(),
            forall|x: int| 0 <= x < j ==> q[x] == o[x],
        decreases origin@.len() - j,
    {
        if a[j] != origin[j] {
            assert(q.subrange(0, o.len() as int)[j as int] != o[j as int]);
            return false;
        }
        j = j + 1;
    }
    assert(q.subrange(0, o.len() as int) =~= o);
    true
}

/// A segment that names an entry: not empty, and neither `.` nor `..`.
pub open spec fn proper_segment(s: Seq<char>) -> bool {
    s.len() > 0 && s != seq!['.'] && s != seq!['.', '.']
}

/// A path every segment of which names an entry.
pub open spec fn valid_destination(d: Seq<char>) -> bool {
    forall|i: int| 0 <= i < segments(d).len() ==> #[trigger] proper_segment(segments(d)[i])
}

/// A rename target as typed: not empty, not absolute, and not ending in `/` or `.`.
pub open spec fn acceptable_input(s: Seq<char>) -> bool {
    s.len() > 0 && s[0] != '/' && s.last() != '/' && s.last() != '.'
}

/// The files moved with `node` to `dest`, each as its old path, new path and content hash.
pub open spec fn moved_trace(node: PathInfo, dest: Seq<char>) -> Seq<(Seq<char>, Seq<char>, Seq<char>)> {
    match node.content {
        PathContent::File(_) => seq![(node.path@, dest, node.sha@)],
        PathContent::Directory(d) => moved_from(d.contents, dest, 0),
    }
}

/// The view of `t` once the node at `origin` moved, with everything below it, to `dest`, whose
/// path is `dest_path`: the node leaves its place (its ancestors stay) and is recorded at `dest`
/// with its hash and reference, its entries grafted there with the paths of their new positions.
pub open spec fn relocated(t: PathTree, origin: Seq<Seq<char>>, dest: Seq<Seq<char>>, dest_path: Seq<char>) -> Map<
    Seq<Seq<char>>,
    NodeView,
> {
    let node = t.at(origin)->0;
    filled(
        erased(t@, origin, false),
        Seq::empty(),
        dest,
        node.sha@,
        dest_path,
        node.url@,
        match node.content {
            PathContent::File(_) => None,
            PathContent::Directory(d) => Some(rebased(d.contents@, dest)),
        },
    )
}

/// Whether every segment of `path` names an entry.
fn is_valid_destination(path: &String) -> (r: bool)
    ensures
        r == valid_destination(path@),
{
    let segs = split_path(path.as_str());
    let dot = ".".to_owned();
    let dotdot = "..".to_owned();
    proof {
        reveal_strlit(".");
        reveal_strlit("..");
        assert(dot@ =~= seq!['.']);
        assert(dotdot@ =~= seq!['.', '.']);
    }
    let ghost sv = seg_views(segs@);
    let mut i: usize = 0;
    while i < segs.len()
        invariant
            sv == seg_views(segs@),
            sv == segments(path@),
            dot@ == seq!['.'],
            dotdot@ == seq!['.', '.'],
            i <= segs@.len(),
            forall|j: int| 0 <= j < i ==> #[trigger] proper_segment(sv[j]),
        decreases segs@.len() - i,
    {
        if segs[i].as_str().is_empty() || segs[i] == dot || segs[i] == dotdot {
            assert(!proper_segment(sv[i as int]));
            return false;
        }
        i = i + 1;
    }
    true
}

/// The path made of the first `n` segments of `segs`.
fn join_segments(segs: &Vec<String>, n: usize) -> (r: String)
    requires
        0 < n <= segs@.len(),
    ensures
        r@ == joined(seg_views(segs@).subrange(0, n as int)),
{
    let ghost sv = seg_views(segs@);
    let mut r = segs[0].clone();
    let mut i: usize = 1;
    assert(sv.subrange(0, 1) =~= seq![sv[0]]);
    while i < n
        invariant
            sv == seg_views(segs@),
            0 < i <= n,
            n <= segs@.len(),
            r@ == joined(sv.subrange(0, i as int)),
        decreases n - i,
    {
        proof {
            lemma_joined_push(sv.subrange(0, i as int), sv[i as int]);
            assert(sv.subrange(0, i as int).push(sv[i as int]) =~= sv.subrange(0, i + 1));
        }
        r = child_path(&r, &segs[i], false);
        i = i + 1;
    }
    r
}

/// What normalize_path's `NormalizePath::try_normalize` gives for a path, read back as a string.
pub uninterp spec fn normal_of(p: Seq<char>) -> Option<Seq<char>>;

/// The path a rename target `input` names, read from the directory that holds `origin`.
pub open spec fn candidate_of(origin: Seq<char>, input: Seq<char>) -> Seq<char> {
    if segments(origin).len() == 1 {
        input
    } else {
        joined(segments(origin).drop_last()) + seq!['/'] + input
    }
}

/// Relies on normalize_path's `NormalizePath::try_normalize`: collapses `.`, `..` and repeated
/// separators without any I/O, and gives nothing for a path that is absolute or climbs above its
/// start. The result depends on the path alone.
#[verifier::external_body]
fn normalized(path: &str) -> (r: Option<String>)
    ensures
        match r {
            Some(s) => normal_of(path@) == Some(s@),
            None => normal_of(path@) is None,
        },
{
    let normal = std::path::Path::new(path).try_normalize()?;
    normal.to_str().map(str::to_owned)
}

/// Moves the node at `origin_path`, with everything below it, to the path `destination`. The
/// ancestors it leaves stay, even when left empty; at the destination it is recorded by the rule
/// of `fill_content`, merging with a directory already there. Returns, for every file moved, its
/// old path, its new path and its content hash. A file on the way to the destination, or at the
/// destination a node of the other kind than the moved node, outside the moved subtree, makes it a
/// structural conflict, and nothing changes. Moving a directory into its own subtree is not
/// treated apart: the subtree is first detached, then recorded at the destination.
pub fn relocate_workspace_content(content: &mut PathTree, origin_path: String, destination: String) -> (r: Result<Vec<(String, (String, String))>, PathError>)
    requires
        old(content).wf(),
    ensures
        final(content).wf(),
        r is Err ==> final(content)@ == old(content)@,
        !valid_destination(destination@) ==> r == Err::<Vec<(String, (String, String))>, PathError>(PathError::InvalidPath),
        valid_destination(destination@) && old(content).at(segments(origin_path@)) is None
            ==> r == Err::<Vec<(String, (String, String))>, PathError>(PathError::NotFound),
        valid_destination(destination@) && old(content).at(segments(origin_path@)) is Some
            && conflicts(*old(content), segments(origin_path@), segments(destination@))
            ==> r == Err::<Vec<(String, (String, String))>, PathError>(PathError::StructuralConflict),
        valid_destination(destination@) && old(content).at(segments(origin_path@)) is Some
            && !conflicts(*old(content), segments(origin_path@), segments(destination@)) ==> {
            &&& r is Ok
            &&& r->Ok_0@.map_values(|e: (String, (String, String))| trace_view(e)) == moved_trace(
                old(content).at(segments(origin_path@))->0,
                destination@,
            )
            &&& final(content)@ == relocated(*old(content), segments(origin_path@), segments(destination@), destination@)
        },
{
    if !is_valid_destination(&destination) {
        return Err(PathError::InvalidPath);
    }
    let ghost old_tree = *content;
    let ghost origin = segments(origin_path@);
    let ghost dest = segments(destination@);
    let segs = split_path(origin_path.as_str());
    proof {
        lemma_segments_nonempty(origin_path@);
        lemma_join_segments(destination@);
        assert(seg_views(segs@).subrange(0, 0) =~= Seq::<Seq<char>>::empty());
        assert(seg_views(segs@).subrange(0, segs@.len() as int) =~= origin);
    }
    let dsegs = split_path(destination.as_str());
    proof {
        assert(seg_views(dsegs@) == dest);
        assert(dest.len() >= 1);
    }
    let moved_is_dir = match lookup(content, &segs, 0, segs.len(), Ghost(Seq::empty())) {
        None => {
            return Err(PathError::NotFound);
        },
        Some(node) => matches!(node.content, PathContent::Directory(_)),
    };
    proof {
        assert(old_tree@.contains_key(origin));
        assert(moved_is_dir == old_tree@[origin].is_dir);
    }
    let mut m: usize = 0;
    while m < dsegs.len()
        invariant
            *content == old_tree,
            old_tree == *old(content),
            valid_destination(destination@),
            dest == segments(destination@),
            origin == segments(origin_path@),
            old_tree.at(origin) is Some,
            old_tree@.contains_key(origin),
            old_tree.wf(),
            seg_views(dsegs@) == dest,
            seg_views(segs@) == origin,
            moved_is_dir == old_tree@[origin].is_dir,
            m <= dsegs@.len(),
            forall|x: int| 1 <= x <= m ==> !#[trigger] blocked(old_tree, origin, dest, x),
        decreases dsegs@.len() - m,
    {
        let ghost a = dest.subrange(0, m + 1);
        if !within_segments(&dsegs, m + 1, &segs) {
            match lookup(content, &dsegs, 0, m + 1, Ghost(Seq::empty())) {
                Some(node) => {
                    let is_dir = matches!(node.content, PathContent::Directory(_));
                    proof {
                        assert(old_tree@.contains_key(a) && old_tree@[a].is_dir == is_dir);
                    }
                    if (m + 1 < dsegs.len() && !is_dir) || (m + 1 == dsegs.len() && is_dir != moved_is_dir) {
                        assert(blocked(old_tree, origin, dest, m + 1));
                        return Err(PathError::StructuralConflict);
                    }
                },
                None => {
                    assert(!old_tree@.contains_key(a));
                },
            }
        }
        m = m + 1;
    }
    let removed = erase_content(content, &segs, 0, false);
    match removed {
        None => Err(PathError::NotFound),
        Some(node) => {
            let ghost moved_node = node;
            let root = String::new();
            proof {
                assert(seg_views(dsegs@) == dest);
                assert(seg_views(dsegs@).subrange(0, 0) =~= Seq::<Seq<char>>::empty());
                assert(seg_views(dsegs@).subrange(0, dsegs@.len() as int) =~= dest);
            }
            let PathInfo { sha, path, url, content: moved } = node;
            match moved {
                PathContent::File(_) => {
                    let mut trace: Vec<(String, (String, String))> = Vec::new();
                    trace.push((path, (destination.clone(), sha.clone())));
                    fill_content(sha, destination, url, None, content, &dsegs, 0, &root);
                    assert(trace@.map_values(|e: (String, (String, String))| trace_view(e)) =~= moved_trace(moved_node, destination@));
                    Ok(trace)
                },
                PathContent::Directory(d) => {
                    proof {
                        lemma_subtree_wf(old_tree, Seq::empty(), origin);
                        assert(Seq::<Seq<char>>::empty() + origin =~= origin);
                    }
                    let (subtree, trace) = propagate_path(d.contents, &destination, Ghost(origin), Ghost(dest));
                    fill_content(sha, destination, url, Some(subtree), content, &dsegs, 0, &root);
                    Ok(trace)
                },
            }
        },
    }
}

/// Renames the node at `origin_path` to `refactor_input`, read relative to the directory that holds
/// it, `.` and `..` resolved. The target as typed must be non-empty, relative, and not end in `/`
/// or `.`; a resolved path that climbs above the root, or has an empty, `.` or `..` segment, is
/// refused too. A move blocked by a node of the wrong kind is refused as a structural conflict. On
/// success the move is the one `relocate_workspace_content` makes for the resolved path, and the
/// trace is returned.
pub fn refactor_workspace_content(content: &mut PathTree, origin_path: String, refactor_input: String) -> (r: Result<Vec<(String, (String, String))>, PathError>)
    requires
        old(content).wf(),
    ensures
        final(content).wf(),
        r is Err ==> final(content)@ == old(content)@,
        !acceptable_input(refactor_input@) ==> r == Err::<Vec<(String, (String, String))>, PathError>(PathError::InvalidPath),
        r == Err::<Vec<(String, (String, String))>, PathError>(PathError::NotFound) ==> old(content).at(segments(origin_path@)) is None,
        old(content).at(segments(origin_path@)) is None ==> r is Err,
        acceptable_input(refactor_input@) && normal_of(candidate_of(origin_path@, refactor_input@)) is None
            ==> r == Err::<Vec<(String, (String, String))>, PathError>(PathError::InvalidPath),
        normal_of(candidate_of(origin_path@, refactor_input@)) matches Some(d) ==> (
            acceptable_input(refactor_input@) && valid_destination(d)
                && old(content).at(segments(origin_path@)) is Some
                && !conflicts(*old(content), segments(origin_path@), segments(d)) ==> {
                &&& r is Ok
                &&& final(content)@ == relocated(*old(content), segments(origin_path@), segments(d), d)
                &&& r->Ok_0@.map_values(|e: (String, (String, String))| trace_view(e)) == moved_trace(
                    old(content).at(segments(origin_path@))->0,
                    d,
                )
            }),
        r matches Ok(trace) ==> exists|d: Seq<char>| {
            &&& valid_destination(d)
            &&& #[trigger] relocated(*old(content), segments(origin_path@), segments(d), d) == final(content)@
            &&& trace@.map_values(|e: (String, (String, String))| trace_view(e)) == moved_trace(
                old(content).at(segments(origin_path@))->0,
                d,
            )
        },
{
    let input = chars_of(refactor_input.as_str());
    let n = input.len();
    if n == 0 || input[0] == '/' || input[n - 1] == '/' || input[n - 1] == '.' {
        proof {
            if n > 0 {
                assert(input@.last() == input@[n - 1]);
            }
        }
        return Err(PathError::InvalidPath);
    }
    proof {
        assert(input@.last() == input@[n - 1]);
        assert(acceptable_input(refactor_input@));
    }
    let segs = split_path(origin_path.as_str());
    proof {
        lemma_segments_nonempty(origin_path@);
    }
    let candidate = if segs.len() == 1 {
        refactor_input.clone()
    } else {
        let parent = join_segments(&segs, segs.len() - 1);
        child_path(&parent, &refactor_input, false)
    };
    proof {
        lemma_join_segments(origin_path@);
        if segs@.len() > 1 {
            assert(seg_views(segs@).subrange(0, segs@.len() - 1) =~= segments(origin_path@).drop_last());
        }
        assert(candidate@ == candidate_of(origin_path@, refactor_input@));
    }
    match normalized(candidate.as_str()) {
        None => Err(PathError::InvalidPath),
        Some(destination) => {
            let ghost d = destination@;
            let r = relocate_workspace_content(content, origin_path, destination);
            proof {
                if r is Ok {
                    assert(relocated(*old(content), segments(origin_path@), segments(d), d) == content@);
                }
            }
            r
        },
    }
}


/// Every directory that `m` records on the way to `rel` has an entry.
pub open spec fn no_empty_dirs_toward(m: Map<Seq<Seq<char>>, NodeView>, rel: Seq<Seq<char>>) -> bool {
    forall|q: Seq<Seq<char>>|
        #[trigger] m.contains_key(q) && strict_prefix(q, rel) && m[q].is_dir ==> exists|c: Seq<Seq<char>>|
            #[trigger] m.contains_key(c) && extends(c, q) && c.len() == q.len() + 1
}

/// Below a directory on the way to `rel` that the tree holds, with no empty directory and no file
/// on that way, and `rel` itself absent, some position lies off the way to `rel`.
proof fn lemma_off_the_way(t: PathTree, q: Seq<Seq<char>>, rel: Seq<Seq<char>>) -> (x: Seq<Seq<char>>)
    requires
        no_empty_dirs_toward(t@, rel),
        !t@.contains_key(rel),
        forall|a: Seq<Seq<char>>| strict_prefix(a, rel) && t@.contains_key(a) ==> t@[a].is_dir,
        strict_prefix(q, rel),
        t@.contains_key(q),
    ensures
        t@.contains_key(x),
        extends(x, q),
        !within(rel, x),
        !within(x, rel),
    decreases rel.len() - q.len(),
{
    let m = t@;
    let c = rel.subrange(0, q.len() + 1 as int);
    assert(c.subrange(0, q.len() as int) =~= q);
    if m.contains_key(c) {
        if c.len() == rel.len() {
            assert(c =~= rel);
        }
        assert(rel.subrange(0, c.len() as int) =~= c);
        let x = lemma_off_the_way(t, c, rel);
        assert(x.subrange(0, q.len() as int) =~= c.subrange(0, q.len() as int));
        x
    } else {
        assert(m[q].is_dir);
        let y = choose|y: Seq<Seq<char>>| #[trigger] m.contains_key(y) && extends(y, q) && y.len() == q.len() + 1;
        if within(rel, y) {
            assert(y =~= c) by {
                assert(rel.subrange(0, y.len() as int) == y);
            }
        }
        if within(y, rel) {
            assert(y.len() == rel.len());
            assert(y =~= rel) by {
                assert(y.subrange(0, rel.len() as int) =~= y);
            }
        }
        y
    }
}

/// Adding a path that the tree lacks, with no file on its way, and then removing it with cleanup
/// gives back the tree, when no directory on the path's way is empty.
pub proof fn lemma_append_remove_round_trip(t: PathTree, p: Seq<char>)
    requires
        t.wf(),
        no_empty_dirs_toward(t@, segments(p)),
        !t@.contains_key(segments(p)),
        forall|a: Seq<Seq<char>>| strict_prefix(a, segments(p)) && t@.contains_key(a) ==> t@[a].is_dir,
    ensures
        erased(appended(t@, seq![p]), segments(p), true) == t@,
{
    let rel = segments(p);
    lemma_segments_nonempty(p);
    let m = t@;
    assert(seq![p].drop_last() =~= Seq::<Seq<char>>::empty());
    let m1 = appended(m, seq![p]);
    assert(appended(m, Seq::<Seq<char>>::empty()) == m);
    assert(seq![p].last() == p);
    assert(m1 == filled(m, Seq::empty(), rel, Seq::empty(), p, Seq::empty(), None));
    let m2 = erased(m1, rel, true);
    assert forall|q: Seq<Seq<char>>| #[trigger] m2.contains_key(q) == m.contains_key(q)
        && (m.contains_key(q) ==> m2[q] == m[q]) by {
        if m.contains_key(q) {
            assert(q != rel);
            assert(m1.contains_key(q));
            assert(!within(q, rel)) by {
                if extends(q, rel) {
                    lemma_view_prefix(t, q, rel.len() as int);
                }
                if q.len() == rel.len() {
                    assert(q.subrange(0, rel.len() as int) =~= q);
                }
            }
            if strict_prefix(q, rel) {
                let x = lemma_off_the_way(t, q, rel);
                assert(m1.contains_key(x));
                assert(!only_toward(m1, q, rel));
                assert(m[q].is_dir);
            } else {
                assert(!extends(q, rel));
            }
        } else {
            if m1.contains_key(q) && q != rel && strict_prefix(q, rel) {
                assert(only_toward(m1, q, rel)) by {
                    assert forall|x: Seq<Seq<char>>| #[trigger] m1.contains_key(x) && extends(x, q) implies within(rel, x) || within(x, rel) by {
                        if m.contains_key(x) {
                            lemma_view_prefix(t, x, q.len() as int);
                            assert(x.subrange(0, q.len() as int) == q);
                        }
                        if x == rel {
                            assert(x.subrange(0, rel.len() as int) =~= x);
                        }
                        if strict_prefix(x, rel) {
                            assert(within(rel, x));
                        }
                    }
                }
            }
            if q == rel {
                assert(rel.subrange(0, rel.len() as int) =~= rel);
            }
        }
    }
    assert(m2 =~= m);
}


/// The trace entry `e` is the file at position `q` of `t`, standing at `base`: its old path and its
/// hash.
pub open spec fn file_entry(t: PathTree, base: Seq<Seq<char>>, q: Seq<Seq<char>>, e: (Seq<char>, Seq<char>, Seq<char>)) -> bool {
    &&& t@.contains_key(q)
    &&& !t@[q].is_dir
    &&& e.0 == joined(base + q)
    &&& e.2 == t@[q].sha
}

/// The first segment of `q` is the key of an entry of `t` at index `j` or after.
pub open spec fn key_from(t: PathTree, q: Seq<Seq<char>>, j: int) -> bool {
    q.len() > 0 && exists|x: int| j <= x < t.entries@.len() && #[trigger] t.entries@[x].0@ == q[0]
}

/// The part of `moved_from(t, dest, j)` that the entry at `j` gives.
pub open spec fn moved_here(t: PathTree, dest: Seq<char>, j: int) -> Seq<(Seq<char>, Seq<char>, Seq<char>)> {
    let node = t.entries@[j].1;
    let np = dest + seq!['/'] + t.entries@[j].0@;
    match node.content {
        PathContent::File(_) => seq![(node.path@, np, node.sha@)],
        PathContent::Directory(d) => moved_from(d.contents, np, 0),
    }
}

/// The trace entry `e` is a file of `t` at a separator-free position under an entry from index `j`.
pub open spec fn traced_file(t: PathTree, base: Seq<Seq<char>>, e: (Seq<char>, Seq<char>, Seq<char>), j: int) -> bool {
    exists|q: Seq<Seq<char>>| #[trigger] file_entry(t, base, q, e) && all_plain(q) && key_from(t, q, j)
}

/// The trace entry `e` is a file of `t` at a separator-free position under the entry `k`.
pub open spec fn traced_under(t: PathTree, base: Seq<Seq<char>>, e: (Seq<char>, Seq<char>, Seq<char>), k: Seq<char>) -> bool {
    exists|q: Seq<Seq<char>>| #[trigger] file_entry(t, base, q, e) && all_plain(q) && q.len() > 0 && q[0] == k
}

/// The file of `t` at position `q` has an entry in the trace `tr`.
pub open spec fn listed(t: PathTree, base: Seq<Seq<char>>, q: Seq<Seq<char>>, tr: Seq<(Seq<char>, Seq<char>, Seq<char>)>) -> bool {
    exists|i: int| 0 <= i < tr.len() && #[trigger] file_entry(t, base, q, tr[i])
}

/// The old paths of a trace are pairwise different.
pub open spec fn distinct_old_paths(tr: Seq<(Seq<char>, Seq<char>, Seq<char>)>) -> bool {
    forall|i1: int, i2: int| 0 <= i1 < i2 < tr.len() ==> #[trigger] tr[i1].0 != #[trigger] tr[i2].0
}

/// Separator-free positions that differ in their first segment have different paths.
proof fn lemma_distinct_paths(base: Seq<Seq<char>>, q1: Seq<Seq<char>>, q2: Seq<Seq<char>>)
    requires
        all_plain(base),
        all_plain(q1),
        all_plain(q2),
        q1.len() > 0,
        q2.len() > 0,
        q1[0] != q2[0],
    ensures
        joined(base + q1) != joined(base + q2),
{
    if joined(base + q1) == joined(base + q2) {
        assert(all_plain(base + q1)) by {
            assert forall|x: int| 0 <= x < (base + q1).len() implies #[trigger] plain((base + q1)[x]) by {
                if x < base.len() {
                    assert(plain(base[x]));
                } else {
                    assert(plain(q1[x - base.len()]));
                }
            }
        }
        assert(all_plain(base + q2)) by {
            assert forall|x: int| 0 <= x < (base + q2).len() implies #[trigger] plain((base + q2)[x]) by {
                if x < base.len() {
                    assert(plain(base[x]));
                } else {
                    assert(plain(q2[x - base.len()]));
                }
            }
        }
        lemma_joined_injective(base + q1, base + q2);
        assert((base + q1)[base.len() as int] == (base + q2)[base.len() as int]);
    }
}

proof fn lemma_trace_here(t: PathTree, base: Seq<Seq<char>>, dest: Seq<char>, j: int)
    requires
        t.wf_at(base),
        base.len() > 0,
        all_plain(base),
        0 <= j < t.entries@.len(),
    ensures
        forall|i: int| 0 <= i < moved_here(t, dest, j).len() ==> traced_under(t, base, #[trigger] moved_here(t, dest, j)[i], t.entries@[j].0@),
        forall|q: Seq<Seq<char>>| #[trigger] t@.contains_key(q) && !t@[q].is_dir && q.len() > 0 && q[0] == t.entries@[j].0@
            ==> listed(t, base, q, moved_here(t, dest, j)),
        distinct_old_paths(moved_here(t, dest, j)),
    decreases t, t.entries@.len() - j, 0int,
{
    let k = t.entries@[j].0@;
    let node = t.entries@[j].1;
    let np = dest + seq!['/'] + k;
    let here = moved_here(t, dest, j);
    lemma_map_of_index(t.entries@, j);
    lemma_at_below(t, k, Seq::<Seq<char>>::empty());
    assert(seq![k] + Seq::<Seq<char>>::empty() =~= seq![k]);
    assert(t.at(seq![k]) == Some(node));
    assert(node.placed_at(base + seq![k]));
    assert((base + seq![k]).last() == k);
    assert(base + seq![k] =~= base.push(k));
    assert(all_plain(seq![k])) by {
        assert(seq![k][0] == k);
    }
    if node.content is File {
        assert(here == seq![(node.path@, np, node.sha@)]);
        assert(t@.contains_key(seq![k]) && t@[seq![k]] == node.node_view());
        assert(file_entry(t, base, seq![k], here[0]));
        assert(traced_under(t, base, here[0], k));
        assert forall|q: Seq<Seq<char>>| #[trigger] t@.contains_key(q) && !t@[q].is_dir && q.len() > 0 && q[0] == k
            implies listed(t, base, q, here) by {
            lemma_split_first(q);
            lemma_at_below(t, k, q.drop_first());
            assert(q =~= seq![k]);
            assert(file_entry(t, base, q, here[0]));
        }
    } else {
        let c = node.content->Directory_0.contents;
        lemma_subtree_wf(t, base, seq![k]);
        assert(all_plain(base.push(k)));
        lemma_trace_from(c, base.push(k), np, 0);
        assert(here == moved_from(c, np, 0));
        assert forall|i: int| 0 <= i < here.len() implies traced_under(t, base, #[trigger] here[i], k) by {
            assert(traced_file(c, base.push(k), moved_from(c, np, 0)[i], 0));
            let r = choose|r: Seq<Seq<char>>| #[trigger] file_entry(c, base.push(k), r, moved_from(c, np, 0)[i]) && all_plain(r) && key_from(c, r, 0);
            lemma_at_below(t, k, r);
            let q = seq![k] + r;
            assert(base + q =~= base.push(k) + r);
            assert(all_plain(q)) by {
                assert forall|x: int| 0 <= x < q.len() implies #[trigger] plain(q[x]) by {
                    if x > 0 {
                        assert(q[x] == r[x - 1]);
                    }
                }
            }
            assert(file_entry(t, base, q, here[i]));
        }
        assert forall|q: Seq<Seq<char>>| #[trigger] t@.contains_key(q) && !t@[q].is_dir && q.len() > 0 && q[0] == k
            implies listed(t, base, q, here) by {
            lemma_split_first(q);
            let r = q.drop_first();
            lemma_at_below(t, k, r);
            assert(r.len() > 0);
            assert(c@.contains_key(r) && !c@[r].is_dir);
            lemma_map_of_dom(c.entries@, r[0]);
            assert(key_from(c, r, 0));
            assert(listed(c, base.push(k), r, moved_from(c, np, 0)));
            let i = choose|i: int| 0 <= i < here.len() && #[trigger] file_entry(c, base.push(k), r, moved_from(c, np, 0)[i]);
            assert(base + q =~= base.push(k) + r);
            assert(file_entry(t, base, q, here[i]));
        }
    }
}

/// What the trace of one entry and the trace of the entries after it say, put together: every
/// entry is a file under an entry from index `j`.
proof fn lemma_join_traced(t: PathTree, base: Seq<Seq<char>>, dest: Seq<char>, j: int)
    requires
        0 <= j < t.entries@.len(),
        forall|i: int| 0 <= i < moved_here(t, dest, j).len() ==> traced_under(t, base, #[trigger] moved_here(t, dest, j)[i], t.entries@[j].0@),
        forall|i: int| 0 <= i < moved_from(t, dest, j + 1).len() ==> traced_file(t, base, #[trigger] moved_from(t, dest, j + 1)[i], j + 1),
    ensures
        forall|i: int| 0 <= i < moved_from(t, dest, j).len() ==> traced_file(t, base, #[trigger] moved_from(t, dest, j)[i], j),
{
    let k = t.entries@[j].0@;
    let here = moved_here(t, dest, j);
    let rest = moved_from(t, dest, j + 1);
    let tr = moved_from(t, dest, j);
    assert(tr == here + rest);
    assert forall|i: int| 0 <= i < tr.len() implies traced_file(t, base, #[trigger] tr[i], j) by {
        if i < here.len() {
            assert(tr[i] == here[i]);
            assert(traced_under(t, base, here[i], k));
            let q = choose|q: Seq<Seq<char>>| #[trigger] file_entry(t, base, q, here[i]) && all_plain(q) && q.len() > 0 && q[0] == k;
            assert(key_from(t, q, j));
        } else {
            assert(tr[i] == rest[i - here.len()]);
            assert(traced_file(t, base, rest[i - here.len()], j + 1));
            let q = choose|q: Seq<Seq<char>>| #[trigger] file_entry(t, base, q, rest[i - here.len()]) && all_plain(q) && key_from(t, q, j + 1);
            let x = choose|x: int| j + 1 <= x < t.entries@.len() && #[trigger] t.entries@[x].0@ == q[0];
            assert(key_from(t, q, j));
        }
    }
}

/// Put together: every file under an entry from index `j` is listed.
proof fn lemma_join_listed(t: PathTree, base: Seq<Seq<char>>, dest: Seq<char>, j: int)
    requires
        0 <= j < t.entries@.len(),
        forall|q: Seq<Seq<char>>| #[trigger] t@.contains_key(q) && !t@[q].is_dir && q.len() > 0 && q[0] == t.entries@[j].0@
            ==> listed(t, base, q, moved_here(t, dest, j)),
        forall|q: Seq<Seq<char>>| #[trigger] t@.contains_key(q) && !t@[q].is_dir && key_from(t, q, j + 1)
            ==> listed(t, base, q, moved_from(t, dest, j + 1)),
    ensures
        forall|q: Seq<Seq<char>>| #[trigger] t@.contains_key(q) && !t@[q].is_dir && key_from(t, q, j)
            ==> listed(t, base, q, moved_from(t, dest, j)),
{
    let k = t.entries@[j].0@;
    let here = moved_here(t, dest, j);
    let rest = moved_from(t, dest, j + 1);
    let tr = moved_from(t, dest, j);
    assert(tr == here + rest);
    assert forall|q: Seq<Seq<char>>| #[trigger] t@.contains_key(q) && !t@[q].is_dir && key_from(t, q, j)
        implies listed(t, base, q, tr) by {
        if q[0] == k {
            assert(listed(t, base, q, here));
            let i = choose|i: int| 0 <= i < here.len() && #[trigger] file_entry(t, base, q, here[i]);
            assert(tr[i] == here[i]);
        } else {
            let x = choose|x: int| j <= x < t.entries@.len() && #[trigger] t.entries@[x].0@ == q[0];
            assert(x != j);
            assert(key_from(t, q, j + 1));
            assert(listed(t, base, q, rest));
            let i = choose|i: int| 0 <= i < rest.len() && #[trigger] file_entry(t, base, q, rest[i]);
            assert(tr[i + here.len()] == rest[i]);
        }
    }
}

/// Put together: the old paths stay pairwise different.
proof fn lemma_join_distinct(t: PathTree, base: Seq<Seq<char>>, dest: Seq<char>, j: int)
    requires
        0 <= j < t.entries@.len(),
        all_plain(base),
        forall|q: Seq<Seq<char>>| key_from(t, q, j + 1) ==> q[0] != t.entries@[j].0@,
        forall|i: int| 0 <= i < moved_here(t, dest, j).len() ==> traced_under(t, base, #[trigger] moved_here(t, dest, j)[i], t.entries@[j].0@),
        forall|i: int| 0 <= i < moved_from(t, dest, j + 1).len() ==> traced_file(t, base, #[trigger] moved_from(t, dest, j + 1)[i], j + 1),
        distinct_old_paths(moved_here(t, dest, j)),
        distinct_old_paths(moved_from(t, dest, j + 1)),
    ensures
        distinct_old_paths(moved_from(t, dest, j)),
{
    let k = t.entries@[j].0@;
    let here = moved_here(t, dest, j);
    let rest = moved_from(t, dest, j + 1);
    let tr = moved_from(t, dest, j);
    assert(tr == here + rest);
    assert forall|i1: int, i2: int| 0 <= i1 < i2 < tr.len() implies #[trigger] tr[i1].0 != #[trigger] tr[i2].0 by {
        if i2 < here.len() {
            assert(tr[i1] == here[i1] && tr[i2] == here[i2]);
        } else if i1 >= here.len() {
            assert(tr[i1] == rest[i1 - here.len()] && tr[i2] == rest[i2 - here.len()]);
        } else {
            assert(tr[i1] == here[i1] && tr[i2] == rest[i2 - here.len()]);
            assert(traced_under(t, base, here[i1], k));
            assert(traced_file(t, base, rest[i2 - here.len()], j + 1));
            let q1 = choose|q: Seq<Seq<char>>| #[trigger] file_entry(t, base, q, here[i1]) && all_plain(q) && q.len() > 0 && q[0] == k;
            let q2 = choose|q: Seq<Seq<char>>| #[trigger] file_entry(t, base, q, rest[i2 - here.len()]) && all_plain(q) && key_from(t, q, j + 1);
            lemma_distinct_paths(base, q1, q2);
        }
    }
}

proof fn lemma_trace_from(t: PathTree, base: Seq<Seq<char>>, dest: Seq<char>, j: int)
    requires
        t.wf_at(base),
        base.len() > 0,
        all_plain(base),
        0 <= j,
    ensures
        forall|i: int| 0 <= i < moved_from(t, dest, j).len() ==> traced_file(t, base, #[trigger] moved_from(t, dest, j)[i], j),
        forall|q: Seq<Seq<char>>| #[trigger] t@.contains_key(q) && !t@[q].is_dir && key_from(t, q, j)
            ==> listed(t, base, q, moved_from(t, dest, j)),
        distinct_old_paths(moved_from(t, dest, j)),
    decreases t, t.entries@.len() - j, 1int,
{
    if j >= t.entries@.len() {
        assert(moved_from(t, dest, j).len() == 0);
        assert forall|q: Seq<Seq<char>>| #[trigger] t@.contains_key(q) && !t@[q].is_dir && key_from(t, q, j)
            implies listed(t, base, q, moved_from(t, dest, j)) by {
            let x = choose|x: int| j <= x < t.entries@.len() && #[trigger] t.entries@[x].0@ == q[0];
        }
    } else {
        let k = t.entries@[j].0@;
        lemma_trace_from(t, base, dest, j + 1);
        lemma_trace_here(t, base, dest, j);
        assert forall|q: Seq<Seq<char>>| key_from(t, q, j + 1) implies q[0] != k by {
            let x = choose|x: int| j + 1 <= x < t.entries@.len() && #[trigger] t.entries@[x].0@ == q[0];
            assert(keys_sorted(t.entries@));
            assert(precedes(t.entries@[j].0@, t.entries@[x].0@));
            lemma_precedes_irreflexive(k);
        }
        lemma_join_traced(t, base, dest, j);
        lemma_join_listed(t, base, dest, j);
        lemma_join_distinct(t, base, dest, j);
    }
}

/// The trace entry `e` is a file of `t` strictly below `o`, with its path and hash.
pub open spec fn traced_below(t: PathTree, o: Seq<Seq<char>>, e: (Seq<char>, Seq<char>, Seq<char>)) -> bool {
    exists|x: Seq<Seq<char>>| #[trigger] t@.contains_key(x) && !t@[x].is_dir && extends(x, o) && e.0 == joined(x) && e.2 == t@[x].sha
}

/// Some entry of the trace `tr` has the old path `p`.
pub open spec fn has_old_path(tr: Seq<(Seq<char>, Seq<char>, Seq<char>)>, p: Seq<char>) -> bool {
    exists|i: int| 0 <= i < tr.len() && #[trigger] tr[i].0 == p
}

/// Renaming a directory: every file under it appears in the trace exactly once, under its old path
/// and with its hash, and no other entry appears.
pub proof fn lemma_rename_trace(t: PathTree, origin: Seq<char>, dest: Seq<char>)
    requires
        t.wf(),
        t.at(segments(origin)) is Some,
        t.at(segments(origin))->0.content is Directory,
    ensures
        forall|i: int| 0 <= i < moved_trace(t.at(segments(origin))->0, dest).len()
            ==> traced_below(t, segments(origin), #[trigger] moved_trace(t.at(segments(origin))->0, dest)[i]),
        forall|x: Seq<Seq<char>>| #[trigger] t@.contains_key(x) && !t@[x].is_dir && extends(x, segments(origin))
            ==> has_old_path(moved_trace(t.at(segments(origin))->0, dest), joined(x)),
        distinct_old_paths(moved_trace(t.at(segments(origin))->0, dest)),
{
    let o = segments(origin);
    let node = t.at(o)->0;
    let c = node.content->Directory_0.contents;
    let tr = moved_trace(node, dest);
    lemma_subtree_wf(t, Seq::empty(), o);
    assert(Seq::<Seq<char>>::empty() + o =~= o);
    lemma_join_segments(origin);
    lemma_trace_from(c, o, dest, 0);
    assert(tr == moved_from(c, dest, 0));
    assert forall|i: int| 0 <= i < tr.len() implies traced_below(t, o, #[trigger] tr[i]) by {
        assert(traced_file(c, o, tr[i], 0));
        let q = choose|q: Seq<Seq<char>>| #[trigger] file_entry(c, o, q, tr[i]) && all_plain(q) && key_from(c, q, 0);
        lemma_at_concat(t, o, q);
        let x = o + q;
        assert(x.subrange(0, o.len() as int) =~= o);
        assert(t.at(x) == c.at(q));
        assert(t@.contains_key(x) && !t@[x].is_dir && extends(x, o) && tr[i].0 == joined(x) && tr[i].2 == t@[x].sha);
    }
    assert forall|x: Seq<Seq<char>>| #[trigger] t@.contains_key(x) && !t@[x].is_dir && extends(x, o)
        implies has_old_path(tr, joined(x)) by {
        let q = x.subrange(o.len() as int, x.len() as int);
        assert(x =~= o + q);
        lemma_at_concat(t, o, q);
        assert(c@.contains_key(q) && !c@[q].is_dir);
        lemma_map_of_dom(c.entries@, q[0]);
        assert(key_from(c, q, 0));
        assert(listed(c, o, q, tr));
        let i = choose|i: int| 0 <= i < tr.len() && #[trigger] file_entry(c, o, q, tr[i]);
        assert(tr[i].0 == joined(x));
    }
}


/// Every directory recorded in `m` has an entry.
pub open spec fn no_empty_dirs(m: Map<Seq<Seq<char>>, NodeView>) -> bool {
    forall|q: Seq<Seq<char>>|
        #[trigger] m.contains_key(q) && m[q].is_dir ==> exists|c: Seq<Seq<char>>|
            #[trigger] m.contains_key(c) && extends(c, q) && c.len() == q.len() + 1
}

/// Removing a node with cleanup from a tree with no empty directory leaves no empty directory.
pub proof fn lemma_remove_leaves_no_empty_dirs(t: PathTree, rel: Seq<Seq<char>>)
    requires
        t.wf(),
        no_empty_dirs(t@),
        t@.contains_key(rel),
    ensures
        no_empty_dirs(erased(t@, rel, true)),
{
    let m = t@;
    let m2 = erased(m, rel, true);
    assert forall|q: Seq<Seq<char>>| #[trigger] m2.contains_key(q) && m2[q].is_dir implies exists|c: Seq<Seq<char>>|
        #[trigger] m2.contains_key(c) && extends(c, q) && c.len() == q.len() + 1 by {
        assert(m.contains_key(q) && m[q].is_dir);
        let c = choose|c: Seq<Seq<char>>| #[trigger] m.contains_key(c) && extends(c, q) && c.len() == q.len() + 1;
        if !m2.contains_key(c) {
            let n = q.len() as int;
            let k = c.len() as int;
            assert(c.subrange(0, n) == q);
            // `c` is on the way to `rel`, or `rel` itself, so `q` is a proper ancestor of `rel`
            assert(k <= rel.len() && rel.subrange(0, k) == c) by {
                if within(c, rel) {
                    if c.len() > rel.len() {
                        assert(q.subrange(0, rel.len() as int) =~= c.subrange(0, rel.len() as int));
                        assert(within(q, rel));
                    }
                    assert(c.subrange(0, rel.len() as int) =~= c);
                }
            }
            assert(rel.subrange(0, n) =~= c.subrange(0, n));
            assert(strict_prefix(q, rel));
            assert(!only_toward(m, q, rel));
            let x = choose|x: Seq<Seq<char>>| #[trigger] m.contains_key(x) && extends(x, q) && !(within(rel, x) || within(x, rel));
            let y = x.subrange(0, n + 1);
            if x.len() > n + 1 {
                lemma_view_prefix(t, x, n + 1);
            } else {
                assert(y =~= x);
            }
            assert(y.subrange(0, n) =~= x.subrange(0, n));
            assert(extends(y, q));
            if y == c {
                if k == rel.len() {
                    assert(c =~= rel);
                    assert(x.subrange(0, rel.len() as int) =~= y);
                    assert(within(x, rel));
                } else {
                    assert(strict_prefix(c, rel));
                    if x.len() > k {
                        assert(x.subrange(0, k) =~= y);
                        assert(extends(x, c));
                        assert(only_toward(m, c, rel));
                    } else {
                        assert(x =~= c);
                        assert(within(rel, x));
                    }
                }
            }
            assert(!within(y, rel)) by {
                if within(y, rel) {
                    assert(y.len() == rel.len());
                    assert(y.subrange(0, rel.len() as int) =~= y);
                    assert(y =~= c);
                }
            }
            assert(!strict_prefix(y, rel)) by {
                if strict_prefix(y, rel) {
                    assert(y =~= rel.subrange(0, k));
                }
            }
            assert(m2.contains_key(y));
        }
    }
}

} // verus!
