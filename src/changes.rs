//! The changeset: pending edits keyed by path, measured against the paths the remote held.
use vstd::prelude::*;
use crate::sorted::{keys_sorted, map_of, locate, put, take, lemma_map_of_all, lemma_map_of_index, lemma_map_of_len, lemma_same_map_same_entries};
use crate::text::{precedes, lemma_precedes_transitive};

verus! {

/// Content assigned to a path: local bytes not yet uploaded, or a hash the remote already holds.
pub enum FileContent {
    Bytes(Vec<u8>),
    Sha(String),
}

/// One pending edit of a path.
pub enum Change {
    AssignContent(FileContent),
    EraseContent,
}

/// One unit of a remote tree-creation request: a path, its file mode and object type, and the
/// content hash to place there (`None` deletes the path).
pub struct TreeCreationPart {
    pub path: String,
    pub mode: String,
    pub type_: String,
    pub sha: Option<String>,
}

/// The view of an optional string.
pub open spec fn opt_view(o: Option<String>) -> Option<Seq<char>> {
    match o {
        Some(s) => Some(s@),
        None => None,
    }
}

/// What a tree-creation part says: its path and the hash it places there.
pub open spec fn part_view(p: TreeCreationPart) -> (Seq<char>, Option<Seq<char>>) {
    (p.path@, opt_view(p.sha))
}

/// The paths, in order, whose pending content is local bytes that must be uploaded first.
pub open spec fn upload_paths(s: Seq<(String, Change)>) -> Seq<Seq<char>>
    decreases s.len(),
{
    if s.len() == 0 {
        Seq::empty()
    } else {
        let prev = upload_paths(s.drop_last());
        if s.last().1 matches Change::AssignContent(FileContent::Bytes(_)) {
            prev.push(s.last().0@)
        } else {
            prev
        }
    }
}

/// The hash that the tree-creation part for the last entry of `s` places at its path, where
/// `uploaded` holds, in order, the hashes the uploads of `upload_paths(s)` returned.
pub open spec fn placed_hash(s: Seq<(String, Change)>, uploaded: Seq<Seq<char>>) -> Option<
    Seq<char>,
> {
    match s.last().1 {
        Change::AssignContent(FileContent::Sha(h)) => Some(h@),
        Change::AssignContent(FileContent::Bytes(_)) => Some(
            uploaded[upload_paths(s.drop_last()).len() as int],
        ),
        Change::EraseContent => None,
    }
}

/// The tree-creation parts, as (path, hash) pairs, for the pending entries `s`.
pub open spec fn instructions(s: Seq<(String, Change)>, uploaded: Seq<Seq<char>>) -> Seq<
    (Seq<char>, Option<Seq<char>>),
>
    decreases s.len(),
{
    if s.len() == 0 {
        Seq::empty()
    } else {
        instructions(s.drop_last(), uploaded).push((s.last().0@, placed_hash(s, uploaded)))
    }
}

/// The part for the path `path`, whose pending edit is `c`, places the hash `sha`: an assigned hash
/// as it is, uploaded bytes by the hash their upload returned (`uploaded[j]` for the upload of
/// `uploads[j]`), and nothing for an erased path.
pub open spec fn placed_for(c: Change, path: Seq<char>, sha: Option<Seq<char>>, uploads: Seq<Seq<char>>, uploaded: Seq<Seq<char>>) -> bool {
    match c {
        Change::AssignContent(FileContent::Sha(h)) => sha == Some(h@),
        Change::AssignContent(FileContent::Bytes(_)) => exists|j: int|
            0 <= j < uploads.len() && #[trigger] uploads[j] == path && sha == Some(uploaded[j]),
        Change::EraseContent => sha is None,
    }
}

/// Each upload path is the key of an entry holding bytes, every entry holding bytes has its key
/// among them, and they come in the order of the entries.
proof fn lemma_upload_paths(s: Seq<(String, Change)>)
    requires
        keys_sorted(s),
    ensures
        forall|j: int| 0 <= j < upload_paths(s).len() ==> exists|i: int|
            0 <= i < s.len() && #[trigger] s[i].0@ == #[trigger] upload_paths(s)[j]
                && (s[i].1 matches Change::AssignContent(FileContent::Bytes(_))),
        forall|i: int| 0 <= i < s.len() && (#[trigger] s[i].1 matches Change::AssignContent(FileContent::Bytes(_)))
            ==> exists|j: int| 0 <= j < upload_paths(s).len() && #[trigger] upload_paths(s)[j] == s[i].0@,
        forall|a: int, b: int| 0 <= a < b < upload_paths(s).len() ==> precedes(#[trigger] upload_paths(s)[a], #[trigger] upload_paths(s)[b]),
    decreases s.len(),
{
    if s.len() > 0 {
        let t = s.drop_last();
        assert(keys_sorted(t)) by {
            assert forall|a: int, b: int| 0 <= a < b < t.len() implies precedes(#[trigger] t[a].0@, #[trigger] t[b].0@) by {
                assert(precedes(s[a].0@, s[b].0@));
            }
        }
        lemma_upload_paths(t);
        let ut = upload_paths(t);
        let us = upload_paths(s);
        let n = s.len() - 1;
        assert forall|j: int| 0 <= j < us.len() implies exists|i: int|
            0 <= i < s.len() && #[trigger] s[i].0@ == #[trigger] us[j]
                && (s[i].1 matches Change::AssignContent(FileContent::Bytes(_))) by {
            if j < ut.len() {
                let i = choose|i: int| 0 <= i < t.len() && #[trigger] t[i].0@ == #[trigger] ut[j]
                    && (t[i].1 matches Change::AssignContent(FileContent::Bytes(_)));
                assert(s[i] == t[i] && us[j] == ut[j]);
            } else {
                assert(s[n].0@ == us[j]);
            }
        }
        assert forall|i: int| 0 <= i < s.len() && (#[trigger] s[i].1 matches Change::AssignContent(FileContent::Bytes(_)))
            implies exists|j: int| 0 <= j < us.len() && #[trigger] us[j] == s[i].0@ by {
            if i < n {
                assert(s[i] == t[i]);
                assert(t[i].1 matches Change::AssignContent(FileContent::Bytes(_)));
                let j = choose|j: int| 0 <= j < ut.len() && #[trigger] ut[j] == t[i].0@;
                assert(us[j] == ut[j]);
            } else {
                assert(us[ut.len() as int] == s[i].0@);
            }
        }
        assert forall|a: int, b: int| 0 <= a < b < us.len() implies precedes(#[trigger] us[a], #[trigger] us[b]) by {
            if b < ut.len() {
                assert(us[a] == ut[a] && us[b] == ut[b]);
            } else {
                assert(us[a] == ut[a]);
                let i = choose|i: int| 0 <= i < t.len() && #[trigger] t[i].0@ == #[trigger] ut[a]
                    && (t[i].1 matches Change::AssignContent(FileContent::Bytes(_)));
                assert(precedes(s[i].0@, s[n].0@));
            }
        }
    }
}

/// Each instruction is the path of its entry with the hash the entry places.
proof fn lemma_instructions_at(s: Seq<(String, Change)>, up: Seq<Seq<char>>)
    ensures
        instructions(s, up).len() == s.len(),
        forall|i: int| 0 <= i < s.len() ==> #[trigger] instructions(s, up)[i].0 == s[i].0@,
        forall|i: int| 0 <= i < s.len() ==> placed_for(s[i].1, s[i].0@, #[trigger] instructions(s, up)[i].1, upload_paths(s), up),
    decreases s.len(),
{
    if s.len() > 0 {
        let t = s.drop_last();
        lemma_instructions_at(t, up);
        let n = s.len() - 1;
        assert forall|i: int| 0 <= i < s.len() implies placed_for(s[i].1, s[i].0@, #[trigger] instructions(s, up)[i].1, upload_paths(s), up) by {
            if i < n {
                assert(s[i] == t[i]);
                assert(instructions(s, up)[i] == instructions(t, up)[i]);
                if s[i].1 matches Change::AssignContent(FileContent::Bytes(_)) {
                    let j = choose|j: int| 0 <= j < upload_paths(t).len() && #[trigger] upload_paths(t)[j] == t[i].0@
                        && instructions(t, up)[i].1 == Some(up[j]);
                    assert(upload_paths(s)[j] == upload_paths(t)[j]);
                }
            } else {
                if s[i].1 matches Change::AssignContent(FileContent::Bytes(_)) {
                    let j = upload_paths(t).len() as int;
                    assert(upload_paths(s)[j] == s[i].0@);
                }
            }
        }
    }
}

/// The pending edits `p`, over the baseline `b`, once `origin` moved to `refactor` with the original
/// content hash `sha`: content pending at `origin` moves with it and leaves no tombstone; otherwise
/// the remote content is carried to `refactor` by hash and `origin` is erased (a tombstone for a
/// path of the baseline, nothing for any other path). A move onto itself changes nothing.
pub open spec fn refactored(p: Map<Seq<char>, Change>, b: Set<Seq<char>>, origin: Seq<char>, refactor: Seq<char>, sha: String) -> Map<Seq<char>, Change> {
    if origin == refactor {
        p
    } else {
        match p.get(origin) {
            Some(Change::AssignContent(c)) => p.remove(origin).insert(refactor, Change::AssignContent(c)),
            _ => (if b.contains(origin) {
                p.insert(origin, Change::EraseContent)
            } else {
                p.remove(origin)
            }).insert(refactor, Change::AssignContent(FileContent::Sha(sha))),
        }
    }
}

/// The pending edits `p` once each move of the trace, (old path, (new path, hash)), is recorded in
/// turn.
pub open spec fn renamed(p: Map<Seq<char>, Change>, b: Set<Seq<char>>, trace: Seq<(String, (String, String))>) -> Map<Seq<char>, Change>
    decreases trace.len(),
{
    if trace.len() == 0 {
        p
    } else {
        let e = trace.last();
        refactored(renamed(p, b, trace.drop_last()), b, e.0@, e.1.0@, e.1.1)
    }
}

/// The pending edits of a session, over the set of paths the remote held when it began.
pub struct Modification {
    upstream: Vec<String>,
    changes: Vec<(String, Change)>,
}

impl Modification {
    /// The pending edits are held in strictly increasing path order, and a tombstone is only ever
    /// recorded for a path of the baseline.
    pub open spec fn wf(self) -> bool {
        &&& keys_sorted(self.ordered())
        &&& forall|p: Seq<char>|
            #[trigger] self.pending().contains_key(p) && self.pending()[p] is EraseContent ==> self.baseline().contains(p)
    }

    /// The paths that the remote held when the session began.
    pub closed spec fn baseline(self) -> Set<Seq<char>> {
        Set::new(|p: Seq<char>| exists|i: int| 0 <= i < self.upstream@.len() && #[trigger] self.upstream@[i]@ == p)
    }

    /// The pending edits, in increasing path order.
    pub closed spec fn ordered(self) -> Seq<(String, Change)> {
        self.changes@
    }

    /// The pending edits by path.
    pub open spec fn pending(self) -> Map<Seq<char>, Change> {
        map_of(self.ordered())
    }

    /// The pending edits once `path` is erased: a path of the baseline gets a tombstone, any
    /// other path simply leaves the pending edits.
    pub open spec fn after_erase(self, path: Seq<char>) -> Map<Seq<char>, Change> {
        if self.baseline().contains(path) {
            self.pending().insert(path, Change::EraseContent)
        } else {
            self.pending().remove(path)
        }
    }

    /// An empty changeset over an empty baseline.
    pub fn new() -> (r: Modification)
        ensures
            r.wf(),
            r.baseline() == Set::<Seq<char>>::empty(),
            r.pending() == Map::<Seq<char>, Change>::empty(),
            r.ordered().len() == 0,
    {
        let r = Modification { upstream: Vec::new(), changes: Vec::new() };
        assert(r.baseline() =~= Set::<Seq<char>>::empty());
        r
    }

    /// Adds `path` to the paths the remote holds.
    pub fn track_upstream(&mut self, path: String)
        requires
            old(self).wf(),
        ensures
            final(self).wf(),
            final(self).baseline() == old(self).baseline().insert(path@),
            final(self).ordered() == old(self).ordered(),
    {
        let ghost before = self.baseline();
        let ghost old_up = self.upstream@;
        let ghost p = path@;
        self.upstream.push(path);
        assert(self.baseline() =~= before.insert(p)) by {
            assert(self.upstream@[self.upstream@.len() - 1]@ == p);
            assert forall|x: Seq<char>| before.contains(x) implies #[trigger] self.baseline().contains(x) by {
                let i = choose|i: int| 0 <= i < old_up.len() && #[trigger] old_up[i]@ == x;
                assert(self.upstream@[i] == old_up[i]);
            }
            assert forall|x: Seq<char>| #[trigger] self.baseline().contains(x) implies before.insert(p).contains(x) by {
                let i = choose|i: int| 0 <= i < self.upstream@.len() && #[trigger] self.upstream@[i]@ == x;
                if i < self.upstream@.len() - 1 {
                    assert(old_up[i] == self.upstream@[i]);
                    assert(before.contains(x));
                }
            }
        }
    }

    /// Whether the remote held `path` when the session began.
    pub fn in_baseline(&self, path: &String) -> (r: bool)
        ensures
            r == self.baseline().contains(path@),
    {
        let mut i: usize = 0;
        while i < self.upstream.len()
            invariant
                i <= self.upstream@.len(),
                forall|j: int| 0 <= j < i ==> #[trigger] self.upstream@[j]@ != path@,
            decreases self.upstream@.len() - i,
        {
            if self.upstream[i] == *path {
                assert(self.baseline().contains(path@));
                return true;
            }
            i = i + 1;
        }
        false
    }

    /// The content pending for `path`, if an assignment is pending there.
    pub fn view(&self, path: &String) -> (r: Option<&FileContent>)
        requires
            self.wf(),
        ensures
            match self.pending().get(path@) {
                Some(Change::AssignContent(c)) => r == Some(&c),
                _ => r is None,
            },
    {
        proof {
            lemma_map_of_all(self.changes@);
        }
        match locate(&self.changes, path) {
            Ok(i) => {
                proof {
                    lemma_map_of_index(self.changes@, i as int);
                }
                match &self.changes[i].1 {
                    Change::AssignContent(content) => Some(content),
                    Change::EraseContent => None,
                }
            },
            Err(_) => None,
        }
    }

    /// Assigns `content` to `path`, whether or not the path is new.
    pub fn set(&mut self, path: String, content: FileContent)
        requires
            old(self).wf(),
        ensures
            final(self).wf(),
            final(self).baseline() == old(self).baseline(),
            final(self).pending() == old(self).pending().insert(path@, Change::AssignContent(content)),
    {
        put(&mut self.changes, path, Change::AssignContent(content));
    }

    /// Erases `path`: a path of the baseline gets a tombstone; any other path leaves the pending
    /// edits with no trace.
    pub fn erase(&mut self, path: String)
        requires
            old(self).wf(),
        ensures
            final(self).wf(),
            final(self).baseline() == old(self).baseline(),
            final(self).pending() == old(self).after_erase(path@),
            !old(self).baseline().contains(path@) ==> final(self).pending() == old(self).pending().remove(path@),
            !old(self).baseline().contains(path@) && !old(self).pending().contains_key(path@)
                ==> final(self).pending() == old(self).pending(),
    {
        if self.in_baseline(&path) {
            put(&mut self.changes, path, Change::EraseContent);
        } else {
            let _ = take(&mut self.changes, &path);
        }
        assert(old(self).pending().remove(path@) =~= old(self).pending() || old(self).pending().contains_key(path@));
    }

    /// Records that `origin` moved to `refactor`, whose original content hash is `origin_sha`.
    /// Content pending at `origin` moves with it and leaves no tombstone; otherwise the remote
    /// content is carried to `refactor` by hash and `origin` is erased.
    pub fn refactor(&mut self, origin: String, refactor: String, origin_sha: String)
        requires
            old(self).wf(),
        ensures
            final(self).wf(),
            final(self).baseline() == old(self).baseline(),
            final(self).pending() == refactored(old(self).pending(), old(self).baseline(), origin@, refactor@, origin_sha),
    {
        if origin == refactor {
            return;
        }
        let ghost before = self.pending();
        let existing = take(&mut self.changes, &origin);
        match existing {
            Some(Change::AssignContent(content)) => {
                put(&mut self.changes, refactor, Change::AssignContent(content));
            },
            _ => {
                let ghost taken = self.pending();
                assert(taken == before.remove(origin@));
                self.erase(origin);
                assert(self.pending() =~= old(self).after_erase(origin@)) by {
                    if old(self).baseline().contains(origin@) {
                        assert(taken.insert(origin@, Change::EraseContent) =~= before.insert(origin@, Change::EraseContent));
                    } else {
                        assert(taken.remove(origin@) =~= before.remove(origin@));
                    }
                }
                put(&mut self.changes, refactor, Change::AssignContent(FileContent::Sha(origin_sha)));
            },
        }
    }

    /// Records every move of a rename trace, each an old path with its new path and original
    /// content hash, in order.
    pub fn record_rename(&mut self, trace: Vec<(String, (String, String))>)
        requires
            old(self).wf(),
        ensures
            final(self).wf(),
            final(self).baseline() == old(self).baseline(),
            final(self).pending() == renamed(old(self).pending(), old(self).baseline(), trace@),
    {
        let ghost start = self.pending();
        let ghost b = self.baseline();
        let mut i: usize = 0;
        assert(trace@.subrange(0, 0) =~= Seq::<(String, (String, String))>::empty());
        while i < trace.len()
            invariant
                i <= trace@.len(),
                self.wf(),
                self.baseline() == b,
                self.pending() == renamed(start, b, trace@.subrange(0, i as int)),
            decreases trace@.len() - i,
        {
            let origin = trace[i].0.clone();
            let refactor = trace[i].1.0.clone();
            let sha = trace[i].1.1.clone();
            proof {
                assert(trace@.subrange(0, i + 1).drop_last() =~= trace@.subrange(0, i as int));
                assert(trace@.subrange(0, i + 1).last() == trace@[i as int]);
            }
            self.refactor(origin, refactor, sha);
            i = i + 1;
        }
        assert(trace@.subrange(0, i as int) =~= trace@);
    }

    /// Drops every pending edit.
    pub fn reset(&mut self)
        requires
            old(self).wf(),
        ensures
            final(self).wf(),
            final(self).baseline() == old(self).baseline(),
            final(self).pending() == Map::<Seq<char>, Change>::empty(),
            final(self).ordered().len() == 0,
    {
        self.changes.clear();
        assert(map_of(self.changes@) =~= Map::<Seq<char>, Change>::empty());
    }

    /// Whether any edit is pending.
    pub fn present(&self) -> (r: bool)
        requires
            self.wf(),
        ensures
            r == (self.pending().dom().len() > 0),
    {
        proof {
            lemma_map_of_all(self.changes@);
            if self.changes@.len() == 0 {
                assert(self.pending() =~= Map::<Seq<char>, Change>::empty());
            } else {
                assert(self.pending().contains_key(self.changes@[0].0@));
                crate::sorted::lemma_map_of_finite(self.changes@);
            }
        }
        self.changes.len() > 0
    }

    /// The paths, in order, whose pending content must be uploaded before the tree is written.
    pub fn pending_uploads(&self) -> (r: Vec<String>)
        requires
            self.wf(),
        ensures
            r@.map_values(|x: String| x@) == upload_paths(self.ordered()),
            forall|j: int| 0 <= j < r@.len() ==> self.pending().contains_key(#[trigger] r@[j]@)
                && (self.pending()[r@[j]@] matches Change::AssignContent(FileContent::Bytes(_))),
            forall|p: Seq<char>| #[trigger] self.pending().contains_key(p)
                && (self.pending()[p] matches Change::AssignContent(FileContent::Bytes(_)))
                ==> exists|j: int| 0 <= j < r@.len() && #[trigger] r@[j]@ == p,
            forall|a: int, b: int| 0 <= a < b < r@.len() ==> precedes(#[trigger] r@[a]@, #[trigger] r@[b]@),
    {
        let mut r: Vec<String> = Vec::new();
        let mut i: usize = 0;
        while i < self.changes.len()
            invariant
                i <= self.changes@.len(),
                r@.map_values(|x: String| x@) == upload_paths(self.changes@.subrange(0, i as int)),
            decreases self.changes@.len() - i,
        {
            let ghost s = self.changes@.subrange(0, i + 1);
            assert(s.drop_last() =~= self.changes@.subrange(0, i as int));
            if let Change::AssignContent(FileContent::Bytes(_)) = &self.changes[i].1 {
                r.push(self.changes[i].0.clone());
            }
            i = i + 1;
            assert(r@.map_values(|x: String| x@) =~= upload_paths(s));
        }
        assert(self.changes@.subrange(0, i as int) =~= self.changes@);
        proof {
            let o = self.changes@;
            let rv = r@.map_values(|x: String| x@);
            lemma_upload_paths(o);
            lemma_map_of_all(o);
            assert forall|j: int| 0 <= j < r@.len() implies self.pending().contains_key(#[trigger] r@[j]@)
                && (self.pending()[r@[j]@] matches Change::AssignContent(FileContent::Bytes(_))) by {
                assert(rv[j] == r@[j]@);
                let x = choose|x: int| 0 <= x < o.len() && #[trigger] o[x].0@ == #[trigger] upload_paths(o)[j]
                    && (o[x].1 matches Change::AssignContent(FileContent::Bytes(_)));
                lemma_map_of_index(o, x);
            }
            assert forall|p: Seq<char>| #[trigger] self.pending().contains_key(p)
                && (self.pending()[p] matches Change::AssignContent(FileContent::Bytes(_)))
                implies exists|j: int| 0 <= j < r@.len() && #[trigger] r@[j]@ == p by {
                assert(crate::sorted::has_key(o, p));
                let x = choose|x: int| 0 <= x < o.len() && #[trigger] o[x].0@ == p;
                lemma_map_of_index(o, x);
                assert(o[x].1 matches Change::AssignContent(FileContent::Bytes(_)));
                let j = choose|j: int| 0 <= j < upload_paths(o).len() && #[trigger] upload_paths(o)[j] == o[x].0@;
                assert(rv[j] == r@[j]@);
            }
            assert forall|a: int, b: int| 0 <= a < b < r@.len() implies precedes(#[trigger] r@[a]@, #[trigger] r@[b]@) by {
                assert(rv[a] == r@[a]@ && rv[b] == r@[b]@);
                assert(precedes(upload_paths(o)[a], upload_paths(o)[b]));
            }
        }
        r
    }

    /// The tree-creation parts for the pending edits, in path order. `uploaded` holds the hashes
    /// that the uploads of `pending_uploads()` returned, in the same order. Assigned hashes are
    /// placed as they are, uploaded bytes by their new hash, and erased paths with no hash.
    pub fn flatten(&self, uploaded: &Vec<String>) -> (r: Option<Vec<TreeCreationPart>>)
        requires
            self.wf(),
        ensures
            r is Some <==> uploaded@.len() == upload_paths(self.ordered()).len(),
            r matches Some(parts) ==> {
                &&& parts@.map_values(|p: TreeCreationPart| part_view(p)) == instructions(
                    self.ordered(),
                    uploaded@.map_values(|x: String| x@),
                )
                &&& forall|i: int|
                    0 <= i < parts@.len() ==> #[trigger] parts@[i].mode@ == "100644"@
                        && parts@[i].type_@ == "blob"@
                &&& parts@.len() == self.pending().dom().len()
                &&& forall|i: int, j: int| 0 <= i < j < parts@.len() ==> precedes(#[trigger] parts@[i].path@, #[trigger] parts@[j].path@)
                &&& forall|i: int| 0 <= i < parts@.len() ==> self.pending().contains_key(#[trigger] parts@[i].path@)
                    && placed_for(
                        self.pending()[parts@[i].path@],
                        parts@[i].path@,
                        opt_view(parts@[i].sha),
                        upload_paths(self.ordered()),
                        uploaded@.map_values(|x: String| x@),
                    )
            },
    {
        let uploads = self.pending_uploads();
        if uploaded.len() != uploads.len() {
            return None;
        }
        let ghost up = uploaded@.map_values(|x: String| x@);
        let mut parts: Vec<TreeCreationPart> = Vec::new();
        let mut i: usize = 0;
        let mut u: usize = 0;
        while i < self.changes.len()
            invariant
                i <= self.changes@.len(),
                up == uploaded@.map_values(|x: String| x@),
                uploaded@.len() == upload_paths(self.changes@).len(),
                u == upload_paths(self.changes@.subrange(0, i as int)).len(),
                parts@.map_values(|p: TreeCreationPart| part_view(p)) == instructions(
                    self.changes@.subrange(0, i as int),
                    up,
                ),
                forall|j: int|
                    0 <= j < parts@.len() ==> #[trigger] parts@[j].mode@ == "100644"@
                        && parts@[j].type_@ == "blob"@,
            decreases self.changes@.len() - i,
        {
            let ghost s = self.changes@.subrange(0, i + 1);
            assert(s.drop_last() =~= self.changes@.subrange(0, i as int));
            proof {
                lemma_upload_paths_prefix(self.changes@, i as int);
            }
            let sha = match &self.changes[i].1 {
                Change::AssignContent(FileContent::Sha(h)) => Some(h.clone()),
                Change::AssignContent(FileContent::Bytes(_)) => {
                    assert(self.changes@[i as int].1 matches Change::AssignContent(FileContent::Bytes(_)));
                    assert(upload_paths(self.changes@.subrange(0, i as int)).len() < upload_paths(self.changes@).len());
                    let h = uploaded[u].clone();
                    assert(u < uploaded.len());
                    u = u + 1;
                    Some(h)
                },
                Change::EraseContent => None,
            };
            let part = TreeCreationPart {
                path: self.changes[i].0.clone(),
                mode: "100644".to_owned(),
                type_: "blob".to_owned(),
                sha,
            };
            parts.push(part);
            i = i + 1;
            assert(parts@.map_values(|p: TreeCreationPart| part_view(p)) =~= instructions(s, up));
        }
        assert(self.changes@.subrange(0, i as int) =~= self.changes@);
        assert(parts@.map_values(|p: TreeCreationPart| part_view(p)) == instructions(self.changes@, up));
        assert(self.ordered() == self.changes@);
        proof {
            let o = self.changes@;
            let pv = parts@.map_values(|p: TreeCreationPart| part_view(p));
            lemma_instructions_at(o, up);
            lemma_map_of_len(o);
            lemma_map_of_all(o);
            assert forall|i: int, j: int| 0 <= i < j < parts@.len() implies precedes(#[trigger] parts@[i].path@, #[trigger] parts@[j].path@) by {
                assert(pv[i].0 == parts@[i].path@ && pv[j].0 == parts@[j].path@);
                assert(instructions(o, up)[i].0 == o[i].0@);
                assert(instructions(o, up)[j].0 == o[j].0@);
            }
            assert forall|i: int| 0 <= i < parts@.len() implies self.pending().contains_key(#[trigger] parts@[i].path@)
                && placed_for(self.pending()[parts@[i].path@], parts@[i].path@, opt_view(parts@[i].sha), upload_paths(self.ordered()), up) by {
                assert(pv[i] == part_view(parts@[i]));
                assert(instructions(o, up)[i].0 == o[i].0@);
                assert(placed_for(o[i].1, o[i].0@, instructions(o, up)[i].1, upload_paths(o), up));
                lemma_map_of_index(o, i);
            }
        }
        Some(parts)
    }
}

/// A prefix of the entries has no more uploads than the whole.
proof fn lemma_upload_paths_prefix(s: Seq<(String, Change)>, n: int)
    requires
        0 <= n <= s.len(),
    ensures
        upload_paths(s.subrange(0, n)).len() <= upload_paths(s).len(),
        n < s.len() && (s[n].1 matches Change::AssignContent(FileContent::Bytes(_)))
            ==> upload_paths(s.subrange(0, n)).len() < upload_paths(s).len(),
    decreases s.len() - n,
{
    if n < s.len() {
        lemma_upload_paths_prefix(s, n + 1);
        assert(s.subrange(0, n + 1).drop_last() =~= s.subrange(0, n));
    } else {
        assert(s.subrange(0, n) =~= s);
    }
}


/// Entries with the same paths and edits, index by index, give the same uploads and parts.
proof fn lemma_instructions_same(a: Seq<(String, Change)>, b: Seq<(String, Change)>, uploaded: Seq<Seq<char>>)
    requires
        a.len() == b.len(),
        forall|i: int| 0 <= i < a.len() ==> #[trigger] a[i].0@ == b[i].0@ && a[i].1 == b[i].1,
    ensures
        upload_paths(a) == upload_paths(b),
        instructions(a, uploaded) == instructions(b, uploaded),
    decreases a.len(),
{
    if a.len() > 0 {
        let a2 = a.drop_last();
        let b2 = b.drop_last();
        assert forall|i: int| 0 <= i < a2.len() implies #[trigger] a2[i].0@ == b2[i].0@ && a2[i].1 == b2[i].1 by {
            assert(a2[i] == a[i] && b2[i] == b[i]);
        }
        lemma_instructions_same(a2, b2, uploaded);
        assert(a.last().0@ == b.last().0@ && a.last().1 == b.last().1) by {
            assert(a[a.len() - 1].0@ == b[a.len() - 1].0@);
        }
    }
}

impl Modification {
    /// Flattening depends on the pending edits alone: two changesets with the same pending edits
    /// list the same uploads and give the same tree-creation parts for the same uploaded hashes,
    /// whatever edits led to them. In particular flattening twice with no change in between gives
    /// the same parts.
    pub proof fn lemma_flatten_stable(m1: Modification, m2: Modification, uploaded: Seq<Seq<char>>)
        requires
            m1.wf(),
            m2.wf(),
            m1.pending() == m2.pending(),
        ensures
            upload_paths(m1.ordered()) == upload_paths(m2.ordered()),
            instructions(m1.ordered(), uploaded) == instructions(m2.ordered(), uploaded),
    {
        lemma_same_map_same_entries(m1.ordered(), m2.ordered());
        lemma_instructions_same(m1.ordered(), m2.ordered(), uploaded);
    }
}

} // verus!
