//! The per-project virtual tree: a namespace of file and folder entries keyed
//! by segmented virtual paths.  The tree is held as a sequence of entries in
//! insertion order; its model is that sequence of views, with uniqueness of
//! paths and closure of ancestors as the well-formedness invariant.  Entries
//! record the physical location they point at; whether an entry is internal
//! is derived from containment under the project root, never stored.

use vstd::prelude::*;
use vstd::string::*;
use vstd::seq_lib::*;
use crate::errors::{ErrorKind, GodataError};
use crate::endpoint::LocalEndpoint;
use crate::paths::{path_segments, split_path, joined_path, join_under, is_under};
use crate::strutil::segs_equal;

verus! {

/// What a tree entry is: a file pointing at a physical location, or a folder,
/// itself either linked from an external directory or created implicitly.
#[derive(Debug)]
pub enum EntryKind {
    File { physical: String },
    Folder { source: Option<String> },
}

/// One node of the virtual tree.
#[derive(Debug)]
pub struct TreeEntry {
    pub path: Vec<String>,
    pub kind: EntryKind,
}

/// The model of an entry kind.
pub enum KindView {
    File { physical: Seq<char> },
    Folder { source: Option<Seq<char>> },
}

/// The model of an entry: its segmented path and its kind.
pub struct EntryView {
    pub path: Seq<Seq<char>>,
    pub kind: KindView,
}

impl View for EntryKind {
    type V = KindView;

    open spec fn view(&self) -> KindView {
        match self {
            EntryKind::File { physical } => KindView::File { physical: physical@ },
            EntryKind::Folder { source } => KindView::Folder {
                source: match source {
                    Some(s) => Some(s@),
                    None => None,
                },
            },
        }
    }
}

impl View for TreeEntry {
    type V = EntryView;

    open spec fn view(&self) -> EntryView {
        EntryView { path: self.path.deep_view(), kind: self.kind@ }
    }
}

/// The physical target of a file kind (meaningful only for files).
pub open spec fn file_physical(k: KindView) -> Seq<char> {
    match k {
        KindView::File { physical } => physical,
        KindView::Folder { .. } => Seq::empty(),
    }
}

/// Whether some entry of `s` sits at path `p`.
pub open spec fn has_path(s: Seq<EntryView>, p: Seq<Seq<char>>) -> bool {
    exists|i: int| 0 <= i < s.len() && s[i].path == p
}

/// The index of the entry at `p` (meaningful under `paths_distinct` and
/// `has_path`).
pub open spec fn idx_of(s: Seq<EntryView>, p: Seq<Seq<char>>) -> int {
    choose|i: int| 0 <= i < s.len() && s[i].path == p
}

/// The kind of the entry at `p`.
pub open spec fn kind_at(s: Seq<EntryView>, p: Seq<Seq<char>>) -> KindView {
    s[idx_of(s, p)].kind
}

pub open spec fn is_file_at(s: Seq<EntryView>, p: Seq<Seq<char>>) -> bool {
    has_path(s, p) && kind_at(s, p) is File
}

pub open spec fn is_folder_at(s: Seq<EntryView>, p: Seq<Seq<char>>) -> bool {
    has_path(s, p) && kind_at(s, p) is Folder
}

/// No two entries share a path.
pub open spec fn paths_distinct(s: Seq<EntryView>) -> bool {
    forall|i: int, j: int| 0 <= i < j < s.len() ==> s[i].path != s[j].path
}

/// The root (the empty path) is implicit, never stored.
pub open spec fn paths_nonempty(s: Seq<EntryView>) -> bool {
    forall|i: int| 0 <= i < s.len() ==> s[i].path.len() > 0
}

/// Every strict prefix of an entry's path names a folder entry: no orphaned
/// leaves.
pub open spec fn ancestors_closed(s: Seq<EntryView>) -> bool {
    forall|i: int, k: int|
        0 <= i < s.len() && 0 < k < s[i].path.len() ==> is_folder_at(
            s,
            #[trigger] s[i].path.take(k),
        )
}

/// Well-formedness of a tree's entry sequence.
pub open spec fn tree_wf(s: Seq<EntryView>) -> bool {
    paths_distinct(s) && paths_nonempty(s) && ancestors_closed(s)
}

/// Existing strict prefixes of `pp` are all folders, so a new entry at `pp`
/// can have its missing ancestors created.
pub open spec fn ancestors_clear(s: Seq<EntryView>, pp: Seq<Seq<char>>) -> bool {
    forall|k: int|
        0 < k < pp.len() && has_path(s, #[trigger] pp.take(k)) ==> is_folder_at(s, pp.take(k))
}

/// The implicit folder entries an insertion at `pp` creates: one for each
/// strict prefix, of ascending length from `k`, absent from `s`.
pub open spec fn missing_folders(s: Seq<EntryView>, pp: Seq<Seq<char>>, k: int) -> Seq<EntryView>
    decreases pp.len() - k when 0 <= k
{
    if k >= pp.len() {
        Seq::empty()
    } else if has_path(s, pp.take(k)) {
        missing_folders(s, pp, k + 1)
    } else {
        seq![EntryView { path: pp.take(k), kind: KindView::Folder { source: None } }]
            + missing_folders(s, pp, k + 1)
    }
}

/// The entry at a known index is the one every path lookup finds.
pub proof fn lemma_kind_at(s: Seq<EntryView>, i: int)
    requires
        paths_distinct(s),
        0 <= i < s.len(),
    ensures
        has_path(s, s[i].path),
        idx_of(s, s[i].path) == i,
        kind_at(s, s[i].path) == s[i].kind,
{
    assert(has_path(s, s[i].path));
    let j = idx_of(s, s[i].path);
    if j != i {
        if j < i {
            assert(s[j].path != s[i].path);
        } else {
            assert(s[i].path != s[j].path);
        }
    }
}

/// Appending a fresh entry: what holds of every path afterwards.
pub proof fn lemma_push_effect(s: Seq<EntryView>, e: EntryView)
    requires
        paths_distinct(s),
        !has_path(s, e.path),
    ensures
        paths_distinct(s.push(e)),
        forall|q: Seq<Seq<char>>|
            #[trigger] has_path(s.push(e), q) <==> has_path(s, q) || q == e.path,
        forall|q: Seq<Seq<char>>|
            #[trigger] has_path(s, q) ==> kind_at(s.push(e), q) == kind_at(s, q),
        kind_at(s.push(e), e.path) == e.kind,
        idx_of(s.push(e), e.path) == s.len(),
{
    let t = s.push(e);
    assert forall|i: int, j: int| 0 <= i < j < t.len() implies t[i].path != t[j].path by {
        if j == s.len() {
            if t[i].path == e.path {
                assert(s[i].path == e.path);
                assert(has_path(s, e.path));
            }
        } else {
            assert(s[i].path != s[j].path);
        }
    }
    assert forall|q: Seq<Seq<char>>| #[trigger] has_path(t, q) implies has_path(s, q) || q
        == e.path by {
        let i = choose|i: int| 0 <= i < t.len() && t[i].path == q;
        if i < s.len() {
            assert(s[i].path == q);
        }
    }
    assert forall|q: Seq<Seq<char>>| has_path(s, q) || q == e.path implies #[trigger] has_path(
        t,
        q,
    ) by {
        if has_path(s, q) {
            let i = choose|i: int| 0 <= i < s.len() && s[i].path == q;
            assert(t[i].path == q);
        } else {
            assert(t[s.len() as int].path == q);
        }
    }
    assert forall|q: Seq<Seq<char>>| #[trigger] has_path(s, q) implies kind_at(t, q) == kind_at(
        s,
        q,
    ) by {
        let i = idx_of(s, q);
        assert(0 <= i < s.len() && s[i].path == q);
        assert(t[i].path == q);
        lemma_kind_at(t, i);
        lemma_kind_at(s, i);
    }
    lemma_kind_at(t, s.len() as int);
}

/// Appending a fresh entry whose ancestors are folders keeps the tree well
/// formed.
pub proof fn lemma_push_wf(s: Seq<EntryView>, e: EntryView)
    requires
        tree_wf(s),
        !has_path(s, e.path),
        e.path.len() > 0,
        forall|k: int| 0 < k < e.path.len() ==> is_folder_at(s, #[trigger] e.path.take(k)),
    ensures
        tree_wf(s.push(e)),
{
    let t = s.push(e);
    lemma_push_effect(s, e);
    assert forall|i: int, k: int|
        0 <= i < t.len() && 0 < k < t[i].path.len() implies is_folder_at(
        t,
        #[trigger] t[i].path.take(k),
    ) by {
        if i < s.len() {
            assert(is_folder_at(s, s[i].path.take(k)));
        } else {
            assert(t[i] == e);
            assert(is_folder_at(s, e.path.take(k)));
        }
    }
}

/// Removing an entry: what holds of every path afterwards.
pub proof fn lemma_remove_effect(s: Seq<EntryView>, i: int)
    requires
        paths_distinct(s),
        0 <= i < s.len(),
    ensures
        paths_distinct(s.remove(i)),
        forall|q: Seq<Seq<char>>|
            #[trigger] has_path(s.remove(i), q) <==> has_path(s, q) && q != s[i].path,
        forall|q: Seq<Seq<char>>|
            has_path(s, q) && q != s[i].path ==> kind_at(s.remove(i), q) == kind_at(s, q),
{
    let t = s.remove(i);
    s.remove_ensures(i);
    assert forall|a: int, b: int| 0 <= a < b < t.len() implies t[a].path != t[b].path by {
        let a0 = if a < i { a } else { a + 1 };
        let b0 = if b < i { b } else { b + 1 };
        assert(t[a] == s[a0] && t[b] == s[b0]);
        assert(s[a0].path != s[b0].path);
    }
    assert forall|q: Seq<Seq<char>>| #[trigger] has_path(t, q) implies has_path(s, q) && q
        != s[i].path by {
        let a = choose|a: int| 0 <= a < t.len() && t[a].path == q;
        let a0 = if a < i { a } else { a + 1 };
        assert(t[a] == s[a0]);
        assert(s[a0].path == q);
        assert(a0 != i);
        if a0 < i {
            assert(s[a0].path != s[i].path);
        } else {
            assert(s[i].path != s[a0].path);
        }
    }
    assert forall|q: Seq<Seq<char>>| has_path(s, q) && q != s[i].path implies #[trigger] has_path(
        t,
        q,
    ) by {
        let a0 = choose|a0: int| 0 <= a0 < s.len() && s[a0].path == q;
        assert(a0 != i);
        let a = if a0 < i { a0 } else { a0 - 1 };
        assert(t[a] == s[a0]);
        assert(t[a].path == q);
    }
    assert forall|q: Seq<Seq<char>>|
        has_path(s, q) && q != s[i].path implies kind_at(t, q) == kind_at(s, q) by {
        let a0 = idx_of(s, q);
        assert(0 <= a0 < s.len() && s[a0].path == q);
        assert(a0 != i);
        let a = if a0 < i { a0 } else { a0 - 1 };
        assert(t[a] == s[a0]);
        lemma_kind_at(t, a);
        lemma_kind_at(s, a0);
    }
}

/// Removing a file entry keeps the tree well formed: a file is never an
/// ancestor.
pub proof fn lemma_remove_file_wf(s: Seq<EntryView>, i: int)
    requires
        tree_wf(s),
        0 <= i < s.len(),
        s[i].kind is File,
    ensures
        tree_wf(s.remove(i)),
{
    let t = s.remove(i);
    lemma_remove_effect(s, i);
    s.remove_ensures(i);
    lemma_kind_at(s, i);
    assert forall|a: int, k: int|
        0 <= a < t.len() && 0 < k < t[a].path.len() implies is_folder_at(
        t,
        #[trigger] t[a].path.take(k),
    ) by {
        let a0 = if a < i { a } else { a + 1 };
        assert(t[a] == s[a0]);
        let q = s[a0].path.take(k);
        assert(is_folder_at(s, q));
        if q == s[i].path {
            assert(kind_at(s, q) == s[i].kind);
        }
        assert(q != s[i].path);
    }
}

/// Replacing the kind of the entry at index `i` in place.
pub proof fn lemma_update_effect(s: Seq<EntryView>, i: int, e: EntryView)
    requires
        tree_wf(s),
        0 <= i < s.len(),
        e.path == s[i].path,
        e.kind is File,
        s[i].kind is File,
    ensures
        tree_wf(s.update(i, e)),
        forall|q: Seq<Seq<char>>| #[trigger] has_path(s.update(i, e), q) <==> has_path(s, q),
        forall|q: Seq<Seq<char>>|
            has_path(s, q) && q != e.path ==> kind_at(s.update(i, e), q) == kind_at(s, q),
        kind_at(s.update(i, e), e.path) == e.kind,
{
    let t = s.update(i, e);
    assert(t.len() == s.len());
    assert forall|a: int| 0 <= a < s.len() implies t[a].path == s[a].path by {}
    assert forall|a: int, b: int| 0 <= a < b < t.len() implies t[a].path != t[b].path by {
        assert(s[a].path != s[b].path);
    }
    assert forall|q: Seq<Seq<char>>| #[trigger] has_path(t, q) implies has_path(s, q) by {
        let a = choose|a: int| 0 <= a < t.len() && t[a].path == q;
        assert(s[a].path == q);
    }
    assert forall|q: Seq<Seq<char>>| #[trigger] has_path(s, q) implies has_path(t, q) by {
        let a = choose|a: int| 0 <= a < s.len() && s[a].path == q;
        assert(t[a].path == q);
    }
    assert forall|q: Seq<Seq<char>>|
        has_path(s, q) && q != e.path implies kind_at(t, q) == kind_at(s, q) by {
        let a = idx_of(s, q);
        assert(0 <= a < s.len() && s[a].path == q);
        if a == i {
            assert(q == e.path);
        }
        assert(t[a] == s[a]);
        lemma_kind_at(t, a);
        lemma_kind_at(s, a);
    }
    lemma_kind_at(t, i);
    lemma_kind_at(s, i);
    assert forall|a: int, k: int|
        0 <= a < t.len() && 0 < k < t[a].path.len() implies is_folder_at(
        t,
        #[trigger] t[a].path.take(k),
    ) by {
        let q = s[a].path.take(k);
        assert(is_folder_at(s, q));
        if q == s[i].path {
            assert(kind_at(s, q) == s[i].kind);
        }
        assert(q != e.path);
        assert(kind_at(t, q) == kind_at(s, q));
    }
}

/// In a well-formed tree, a missing path has nothing strictly below it.
pub proof fn lemma_nothing_below_missing(s: Seq<EntryView>, pp: Seq<Seq<char>>, q: Seq<Seq<char>>)
    requires
        tree_wf(s),
        pp.len() > 0,
        !has_path(s, pp),
        q.len() > pp.len(),
        q.take(pp.len() as int) == pp,
    ensures
        !has_path(s, q),
{
    if has_path(s, q) {
        let i = idx_of(s, q);
        assert(0 <= i < s.len() && s[i].path == q);
        assert(is_folder_at(s, s[i].path.take(pp.len() as int)));
    }
}

/// What a file lookup reports: the physical location and whether the project
/// owns it.
#[derive(Debug)]
pub struct FileInfo {
    pub physical_path: String,
    pub is_internal: bool,
}

/// One listed child of a folder.
#[derive(Debug)]
pub struct ChildEntry {
    pub name: String,
    pub is_folder: bool,
}

impl View for ChildEntry {
    type V = (Seq<char>, bool);

    open spec fn view(&self) -> (Seq<char>, bool) {
        (self.name@, self.is_folder)
    }
}

/// The listing view of an entry: its final segment and whether it is a folder.
pub open spec fn child_view(e: EntryView) -> (Seq<char>, bool) {
    (e.path.last(), e.kind is Folder)
}

/// Whether `e` sits directly below `pp`.
pub open spec fn is_child_of(e: EntryView, pp: Seq<Seq<char>>) -> bool {
    e.path.len() == pp.len() + 1 && e.path.take(pp.len() as int) == pp
}

/// The children of `pp` in insertion order.
pub open spec fn children_of(s: Seq<EntryView>, pp: Seq<Seq<char>>) -> Seq<EntryView> {
    s.filter(|e: EntryView| is_child_of(e, pp))
}

/// A project's virtual namespace, backed by one storage endpoint.
#[derive(Debug)]
pub struct VirtualTree {
    pub endpoint: LocalEndpoint,
    pub entries: Vec<TreeEntry>,
}

impl VirtualTree {
    /// The sequence of entry views, in insertion order.
    pub open spec fn model(&self) -> Seq<EntryView> {
        self.entries@.map_values(|e: TreeEntry| e@)
    }

    /// The project's physical root.
    pub open spec fn root(&self) -> Seq<char> {
        self.endpoint.root_path@
    }

    pub open spec fn wf(&self) -> bool {
        tree_wf(self.model())
    }

    /// A fresh, empty tree over the given endpoint.
    pub fn new(endpoint: LocalEndpoint) -> (t: VirtualTree)
        ensures
            t.wf(),
            t.model() == Seq::<EntryView>::empty(),
            t.root() == endpoint.root_path@,
    {
        let t = VirtualTree { endpoint, entries: Vec::new() };
        proof {
            assert(t.model() =~= Seq::<EntryView>::empty());
        }
        t
    }

    /// The index of the entry at the given segmented path, if any.
    fn find_index(&self, pp: &Vec<String>) -> (r: Option<usize>)
        ensures
            match r {
                Some(i) => 0 <= i < self.model().len() && self.model()[i as int].path
                    == pp.deep_view(),
                None => !has_path(self.model(), pp.deep_view()),
            },
    {
        let mut i: usize = 0;
        while i < self.entries.len()
            invariant
                0 <= i <= self.entries@.len(),
                self.model().len() == self.entries@.len(),
                forall|j: int| 0 <= j < i ==> self.model()[j].path != pp.deep_view(),
            decreases self.entries@.len() - i,
        {
            proof {
                assert(self.model()[i as int] == self.entries@[i as int]@);
            }
            if segs_equal(&self.entries[i].path, pp) {
                return Some(i);
            }
            i += 1;
        }
        proof {
            assert(!has_path(self.model(), pp.deep_view()));
        }
        None
    }

    /// Whether a virtual path names an entry; the root always exists and a
    /// lookup never fails.
    pub fn path_exists(&self, path: &str) -> (r: bool)
        requires
            self.wf(),
        ensures
            r == (path_segments(path@).len() == 0 || has_path(self.model(), path_segments(path@))),
    {
        let pp = split_path(path);
        proof {
            assert(pp.deep_view().len() == pp@.len());
        }
        if pp.len() == 0 {
            true
        } else {
            match self.find_index(&pp) {
                Some(i) => {
                    proof {
                        assert(has_path(self.model(), pp.deep_view()));
                    }
                    true
                },
                None => false,
            }
        }
    }

    /// Looks up a file entry: its physical path and whether it is internal.
    pub fn get_file(&self, path: &str) -> (r: Result<FileInfo, GodataError>)
        requires
            self.wf(),
        ensures
            ({
                let pp = path_segments(path@);
                match r {
                    Ok(info) => is_file_at(self.model(), pp) && info.physical_path@
                        == file_physical(kind_at(self.model(), pp)) && info.is_internal == is_under(
                        self.root(),
                        file_physical(kind_at(self.model(), pp)),
                    ),
                    Err(e) => e.kind == ErrorKind::NotFound && !is_file_at(self.model(), pp),
                }
            }),
    {
        let pp = split_path(path);
        match self.find_index(&pp) {
            Some(i) => {
                proof {
                    assert(self.model()[i as int] == self.entries@[i as int]@);
                    lemma_kind_at(self.model(), i as int);
                }
                match &self.entries[i].kind {
                    EntryKind::File { physical } => {
                        let is_int = self.endpoint.is_internal(physical.as_str());
                        Ok(FileInfo { physical_path: physical.clone(), is_internal: is_int })
                    },
                    EntryKind::Folder { .. } => Err(
                        GodataError::new(
                            ErrorKind::NotFound,
                            String::from_str("the path does not name a file"),
                        ),
                    ),
                }
            },
            None => Err(
                GodataError::new(ErrorKind::NotFound, String::from_str("the path does not exist")),
            ),
        }
    }

    /// The physical location a future internal write at `path` would use;
    /// records nothing in the tree.
    pub fn generate_path(&self, path: &str) -> (r: Result<String, GodataError>)
        ensures
            r matches Ok(p) && p@ == joined_path(self.root(), path_segments(path@)),
    {
        self.endpoint.generate_path(path)
    }

    /// Lists the immediate children of a folder (of the root if no path is
    /// given), in insertion order.
    pub fn list(&self, path: Option<&str>) -> (r: Result<Vec<ChildEntry>, GodataError>)
        requires
            self.wf(),
        ensures
            ({
                let pp = match path {
                    Some(p) => path_segments(p@),
                    None => Seq::<Seq<char>>::empty(),
                };
                match r {
                    Ok(v) => (pp.len() == 0 || is_folder_at(self.model(), pp)) && v@.map_values(
                        |c: ChildEntry| c@,
                    ) == children_of(self.model(), pp).map_values(|e: EntryView| child_view(e)),
                    Err(e) => e.kind == ErrorKind::NotFound && pp.len() > 0 && !is_folder_at(
                        self.model(),
                        pp,
                    ),
                }
            }),
    {
        let pp: Vec<String> = match path {
            Some(p) => split_path(p),
            None => Vec::new(),
        };
        proof {
            assert(pp.deep_view().len() == pp@.len());
            if path is None {
                assert(pp.deep_view() =~= Seq::<Seq<char>>::empty());
            }
        }
        if pp.len() > 0 {
            match self.find_index(&pp) {
                Some(i) => {
                    proof {
                        assert(self.model()[i as int] == self.entries@[i as int]@);
                        lemma_kind_at(self.model(), i as int);
                    }
                    match &self.entries[i].kind {
                        EntryKind::Folder { .. } => {},
                        EntryKind::File { .. } => {
                            return Err(
                                GodataError::new(
                                    ErrorKind::NotFound,
                                    String::from_str("the path does not name a folder"),
                                ),
                            );
                        },
                    }
                },
                None => {
                    return Err(
                        GodataError::new(
                            ErrorKind::NotFound,
                            String::from_str("the path does not exist"),
                        ),
                    );
                },
            }
        }
        let ghost ppv = pp.deep_view();
        let ghost pred = |e: EntryView| is_child_of(e, ppv);
        let mut out: Vec<ChildEntry> = Vec::new();
        let mut i: usize = 0;
        proof {
            reveal(Seq::filter);
            assert(self.model().take(0) =~= Seq::<EntryView>::empty());
            assert(out@.map_values(|c: ChildEntry| c@) =~= Seq::<(Seq<char>, bool)>::empty());
        }
        while i < self.entries.len()
            invariant
                0 <= i <= self.entries@.len(),
                self.model().len() == self.entries@.len(),
                ppv == pp.deep_view(),
                pred == (|e: EntryView| is_child_of(e, ppv)),
                out@.map_values(|c: ChildEntry| c@) == self.model().take(i as int).filter(
                    pred,
                ).map_values(|e: EntryView| child_view(e)),
            decreases self.entries@.len() - i,
        {
            proof {
                assert(self.model()[i as int] == self.entries@[i as int]@);
            }
            let is_child = child_test(&self.entries[i].path, &pp);
            let ghost pre = self.model().take(i as int);
            let ghost e = self.model()[i as int];
            proof {
                assert(e.path == self.entries@[i as int].path.deep_view());
                assert(pred(e) == is_child_of(e, ppv));
                assert(is_child == is_child_of(e, ppv));
            }
            if is_child {
                let seg = self.entries[i].path[self.entries[i].path.len() - 1].clone();
                let isf = match &self.entries[i].kind {
                    EntryKind::Folder { .. } => true,
                    EntryKind::File { .. } => false,
                };
                proof {
                    assert(e.path.len() == self.entries@[i as int].path@.len());
                    assert(e.path.last() == self.entries@[i as int].path@[e.path.len() - 1]@);
                }
                out.push(ChildEntry { name: seg, is_folder: isf });
            }
            proof {
                reveal(Seq::filter);
                assert(self.model().take(i as int + 1).drop_last() =~= pre);
                assert(self.model().take(i as int + 1).last() == e);
                assert(self.model().take(i as int + 1).filter(pred) == if pred(e) {
                    pre.filter(pred).push(e)
                } else {
                    pre.filter(pred)
                });
                if pred(e) {
                    assert(out@.map_values(|c: ChildEntry| c@) =~= pre.filter(pred).map_values(
                        |ev: EntryView| child_view(ev),
                    ).push(child_view(e)));
                    assert(pre.filter(pred).map_values(|ev: EntryView| child_view(ev)).push(
                        child_view(e),
                    ) =~= pre.filter(pred).push(e).map_values(|ev: EntryView| child_view(ev)));
                }
            }
            i += 1;
        }
        proof {
            assert(self.model().take(self.model().len() as int) =~= self.model());
        }
        Ok(out)
    }

    /// Whether every existing strict prefix of `pp` names a folder, so that
    /// an insertion at `pp` can create whatever ancestors are missing.
    fn ancestors_ok(&self, pp: &Vec<String>) -> (ok: bool)
        requires
            self.wf(),
        ensures
            ok == ancestors_clear(self.model(), pp.deep_view()),
    {
        let ghost s0 = self.model();
        let ghost ppv = pp.deep_view();
        let n = pp.len();
        proof {
            assert(ppv.len() == pp@.len());
            if n == 0 {
                assert(ancestors_clear(s0, ppv));
            }
        }
        if n == 0 {
            return true;
        }
        let mut k: usize = 1;
        while k < n
            invariant
                self.model() == s0,
                self.wf(),
                ppv == pp.deep_view(),
                ppv.len() == pp@.len(),
                n == pp@.len(),
                1 <= k <= n || (k == 1 && n <= 1),
                forall|j: int|
                    0 < j < k ==> (has_path(s0, #[trigger] ppv.take(j)) ==> is_folder_at(
                        s0,
                        ppv.take(j),
                    )),
            decreases n - k,
        {
            let prefix = clone_segs(pp, k);
            match self.find_index(&prefix) {
                Some(i) => {
                    proof {
                        assert(self.model()[i as int] == self.entries@[i as int]@);
                        lemma_kind_at(s0, i as int);
                    }
                    match &self.entries[i].kind {
                        EntryKind::Folder { .. } => {},
                        EntryKind::File { .. } => {
                            proof {
                                assert(has_path(s0, ppv.take(k as int)));
                                assert(!(kind_at(s0, ppv.take(k as int)) is Folder));
                                assert(!ancestors_clear(s0, ppv));
                            }
                            return false;
                        },
                    }
                },
                None => {},
            }
            k += 1;
        }
        proof {
            assert(ancestors_clear(s0, ppv));
        }
        true
    }

    /// Creates the missing ancestor folders of `pp`, shallow to deep.
    fn create_ancestors(&mut self, pp: &Vec<String>)
        requires
            old(self).wf(),
            pp.deep_view().len() > 0,
            ancestors_clear(old(self).model(), pp.deep_view()),
        ensures
            final(self).endpoint == old(self).endpoint,
            final(self).model() == old(self).model() + missing_folders(
                old(self).model(),
                pp.deep_view(),
                1,
            ),
            final(self).wf(),
            forall|k: int|
                0 < k < pp.deep_view().len() ==> is_folder_at(
                    final(self).model(),
                    #[trigger] pp.deep_view().take(k),
                ),
            forall|q: Seq<Seq<char>>|
                #[trigger] has_path(final(self).model(), q) <==> has_path(old(self).model(), q) || (
                exists|k: int|
                    0 < k < pp.deep_view().len() && q == pp.deep_view().take(k)),
            forall|q: Seq<Seq<char>>|
                #[trigger] has_path(old(self).model(), q) ==> kind_at(final(self).model(), q)
                    == kind_at(old(self).model(), q),
    {
        let ghost s0 = self.model();
        let ghost ppv = pp.deep_view();
        let n = pp.len();
        proof {
            assert(ppv.len() == pp@.len());
        }
        let mut k2: usize = 1;
        proof {
            assert(self.model() + missing_folders(s0, ppv, 1) =~= s0 + missing_folders(
                s0,
                ppv,
                1,
            ));
        }
        while k2 < n
            invariant
                ppv == pp.deep_view(),
                ppv.len() == pp@.len(),
                n == pp@.len(),
                1 <= k2 <= n || (k2 == 1 && n <= 1),
                tree_wf(s0),
                ancestors_clear(s0, ppv),
                self.endpoint == old(self).endpoint,
                self.wf(),
                s0 + missing_folders(s0, ppv, 1) == self.model() + missing_folders(
                    s0,
                    ppv,
                    k2 as int,
                ),
                forall|j: int|
                    0 < j < k2 ==> is_folder_at(self.model(), #[trigger] ppv.take(j)),
                forall|q: Seq<Seq<char>>|
                    #[trigger] has_path(self.model(), q) <==> has_path(s0, q) || (exists|j: int|
                        0 < j < k2 && q == ppv.take(j)),
                forall|q: Seq<Seq<char>>|
                    #[trigger] has_path(s0, q) ==> kind_at(self.model(), q) == kind_at(s0, q),
            decreases n - k2,
        {
            let prefix2 = clone_segs(pp, k2);
            proof {
                assert forall|j: int| 0 < j < k2 implies ppv.take(j) != ppv.take(k2 as int) by {
                    assert(ppv.take(j).len() == j);
                    assert(ppv.take(k2 as int).len() == k2);
                }
            }
            let found = match self.find_index(&prefix2) {
                Some(_) => true,
                None => false,
            };
            let ghost cur = self.model();
            if !found {
                proof {
                    assert(!has_path(s0, ppv.take(k2 as int)));
                }
                let path_copy = clone_segs(pp, k2);
                proof {
                    assert(path_copy.deep_view() == ppv.take(k2 as int));
                }
                self.entries.push(
                    TreeEntry { path: path_copy, kind: EntryKind::Folder { source: None } },
                );
                proof {
                    let e = EntryView {
                        path: ppv.take(k2 as int),
                        kind: KindView::Folder { source: None },
                    };
                    assert(self.model() =~= cur.push(e));
                    assert forall|j: int|
                        0 < j < e.path.len() implies is_folder_at(
                        cur,
                        #[trigger] e.path.take(j),
                    ) by {
                        assert(e.path.take(j) =~= ppv.take(j));
                        assert(is_folder_at(cur, ppv.take(j)));
                    }
                    assert(e.path.len() == k2);
                    lemma_push_wf(cur, e);
                    lemma_push_effect(cur, e);
                    assert(missing_folders(s0, ppv, k2 as int) == seq![e] + missing_folders(
                        s0,
                        ppv,
                        k2 as int + 1,
                    ));
                    assert(cur + missing_folders(s0, ppv, k2 as int) =~= cur.push(e)
                        + missing_folders(s0, ppv, k2 as int + 1));
                    assert forall|q: Seq<Seq<char>>| #[trigger] has_path(self.model(), q)
                        <==> has_path(s0, q) || (exists|j: int|
                        0 < j < k2 + 1 && q == ppv.take(j)) by {
                        if has_path(self.model(), q) {
                            assert(has_path(cur, q) || q == e.path);
                        }
                        if has_path(s0, q) || (exists|j: int| 0 < j < k2 + 1 && q == ppv.take(j)) {
                            if q == ppv.take(k2 as int) {
                                assert(has_path(cur.push(e), e.path));
                            } else {
                                assert(has_path(s0, q) || (exists|j: int|
                                    0 < j < k2 && q == ppv.take(j)));
                            }
                        }
                    }
                    assert forall|q: Seq<Seq<char>>| #[trigger] has_path(s0, q) implies kind_at(
                        self.model(),
                        q,
                    ) == kind_at(s0, q) by {
                        assert(has_path(cur, q));
                        assert(kind_at(self.model(), q) == kind_at(cur, q));
                    }
                }
            } else {
                proof {
                    assert(has_path(cur, ppv.take(k2 as int)));
                    assert(has_path(s0, ppv.take(k2 as int)));
                    assert(is_folder_at(s0, ppv.take(k2 as int)));
                    assert(kind_at(cur, ppv.take(k2 as int)) == kind_at(s0, ppv.take(k2 as int)));
                    assert(missing_folders(s0, ppv, k2 as int) == missing_folders(
                        s0,
                        ppv,
                        k2 as int + 1,
                    ));
                    assert forall|q: Seq<Seq<char>>| #[trigger] has_path(self.model(), q)
                        <==> has_path(s0, q) || (exists|j: int|
                        0 < j < k2 + 1 && q == ppv.take(j)) by {
                        if q == ppv.take(k2 as int) {
                            assert(has_path(cur, q));
                        }
                    }
                }
            }
            k2 += 1;
        }
        proof {
            assert(missing_folders(s0, ppv, n as int) =~= Seq::<EntryView>::empty());
            assert(self.model() =~= self.model() + missing_folders(s0, ppv, n as int));
            assert(self.model() == s0 + missing_folders(s0, ppv, 1));
        }
    }

    /// Links the file at physical path `source` into the tree at `path`,
    /// creating missing ancestor folders.  An occupied path fails with
    /// `AlreadyExists` unless `force` replaces an existing file entry, in
    /// which case the previous physical path and whether the project owned it
    /// are returned so the caller can reclaim the old copy.
    pub fn add_file(&mut self, path: &str, source: &str, force: bool) -> (r: Result<
        (Option<String>, bool),
        GodataError,
    >)
        requires
            old(self).wf(),
        ensures
            final(self).endpoint == old(self).endpoint,
            final(self).wf(),
            ({
                let pp = path_segments(path@);
                let s0 = old(self).model();
                match r {
                    Ok(out) => {
                        &&& pp.len() > 0
                        &&& ancestors_clear(s0, pp)
                        &&& if has_path(s0, pp) {
                            &&& force
                            &&& is_file_at(s0, pp)
                            &&& final(self).model() == s0.update(
                                idx_of(s0, pp),
                                EntryView { path: pp, kind: KindView::File { physical: source@ } },
                            )
                            &&& out.0 matches Some(prev) && prev@ == file_physical(kind_at(s0, pp))
                            &&& out.1 == is_under(
                                old(self).root(),
                                file_physical(kind_at(s0, pp)),
                            )
                        } else {
                            &&& final(self).model() == s0 + missing_folders(s0, pp, 1) + seq![
                                EntryView { path: pp, kind: KindView::File { physical: source@ } },
                            ]
                            &&& out.0 is None
                            &&& out.1 == false
                        }
                    },
                    Err(e) => {
                        &&& final(self).model() == s0
                        &&& e.kind == ErrorKind::AlreadyExists
                        &&& (pp.len() == 0 || (has_path(s0, pp) && !(force && is_file_at(s0, pp)))
                            || !ancestors_clear(s0, pp))
                    },
                }
            }),
    {
        let ghost s0 = self.model();
        let pp = split_path(path);
        let ghost ppv = pp.deep_view();
        proof {
            assert(ppv.len() == pp@.len());
        }
        if pp.len() == 0 {
            return Err(
                GodataError::new(
                    ErrorKind::AlreadyExists,
                    String::from_str("the root path is already occupied"),
                ),
            );
        }
        match self.find_index(&pp) {
            Some(i) => {
                proof {
                    assert(self.model()[i as int] == self.entries@[i as int]@);
                    lemma_kind_at(s0, i as int);
                }
                if !force {
                    return Err(
                        GodataError::new(
                            ErrorKind::AlreadyExists,
                            String::from_str("an entry already exists at the path"),
                        ),
                    );
                }
                let (prev, was_int) = match &self.entries[i].kind {
                    EntryKind::Folder { .. } => {
                        return Err(
                            GodataError::new(
                                ErrorKind::AlreadyExists,
                                String::from_str("a folder occupies the path"),
                            ),
                        );
                    },
                    EntryKind::File { physical } => {
                        let prev = physical.clone();
                        let wi = self.endpoint.is_internal(prev.as_str());
                        (prev, wi)
                    },
                };
                let path_copy = clone_segs(&pp, pp.len());
                proof {
                    assert(path_copy.deep_view() =~= ppv);
                }
                self.entries[i] = TreeEntry {
                    path: path_copy,
                    kind: EntryKind::File { physical: String::from_str(source) },
                };
                proof {
                    let e = EntryView { path: ppv, kind: KindView::File { physical: source@ } };
                    assert(self.model() =~= s0.update(i as int, e));
                    lemma_update_effect(s0, i as int, e);
                    assert forall|k: int|
                        0 < k < ppv.len() && has_path(s0, #[trigger] ppv.take(k)) implies
                        is_folder_at(s0, ppv.take(k)) by {
                        assert(s0[i as int].path.take(k) == ppv.take(k));
                        assert(is_folder_at(s0, s0[i as int].path.take(k)));
                    }
                }
                Ok((Some(prev), was_int))
            },
            None => {
                if !self.ancestors_ok(&pp) {
                    return Err(
                        GodataError::new(
                            ErrorKind::AlreadyExists,
                            String::from_str("a file occupies an ancestor of the path"),
                        ),
                    );
                }
                self.create_ancestors(&pp);
                let path_copy = clone_segs(&pp, pp.len());
                proof {
                    assert(path_copy.deep_view() =~= ppv);
                }
                let ghost cur = self.model();
                proof {
                    assert forall|j: int| 0 < j < ppv.len() implies ppv.take(j) != ppv by {
                        assert(ppv.take(j).len() == j);
                    }
                    assert(!has_path(cur, ppv));
                }
                self.entries.push(
                    TreeEntry {
                        path: path_copy,
                        kind: EntryKind::File { physical: String::from_str(source) },
                    },
                );
                proof {
                    let e = EntryView { path: ppv, kind: KindView::File { physical: source@ } };
                    assert(self.model() =~= cur.push(e));
                    assert forall|j: int|
                        0 < j < e.path.len() implies is_folder_at(
                        cur,
                        #[trigger] e.path.take(j),
                    ) by {
                        assert(is_folder_at(cur, ppv.take(j)));
                    }
                    lemma_push_wf(cur, e);
                    lemma_push_effect(cur, e);
                    assert(cur.push(e) =~= s0 + missing_folders(s0, ppv, 1) + seq![e]);
                }
                Ok((None, false))
            },
        }
    }

    /// Removes a file entry.  The returned path, when present, is the
    /// internal physical copy the caller must now delete (pruning empty
    /// ancestor directories up to the project root); an external referent is
    /// never touched.
    pub fn remove_file(&mut self, path: &str) -> (r: Result<Option<String>, GodataError>)
        requires
            old(self).wf(),
        ensures
            final(self).endpoint == old(self).endpoint,
            final(self).wf(),
            ({
                let pp = path_segments(path@);
                let s0 = old(self).model();
                match r {
                    Ok(removed) => {
                        &&& is_file_at(s0, pp)
                        &&& final(self).model() == s0.remove(idx_of(s0, pp))
                        &&& (removed matches Some(p) ==> p@ == file_physical(kind_at(s0, pp)))
                        &&& (removed is Some <==> is_under(
                            old(self).root(),
                            file_physical(kind_at(s0, pp)),
                        ))
                    },
                    Err(e) => final(self).model() == s0 && e.kind == ErrorKind::NotFound && !is_file_at(
                        s0,
                        pp,
                    ),
                }
            }),
    {
        let ghost s0 = self.model();
        let pp = split_path(path);
        match self.find_index(&pp) {
            Some(i) => {
                proof {
                    assert(self.model()[i as int] == self.entries@[i as int]@);
                    lemma_kind_at(s0, i as int);
                }
                let phys = match &self.entries[i].kind {
                    EntryKind::Folder { .. } => {
                        return Err(
                            GodataError::new(
                                ErrorKind::NotFound,
                                String::from_str("the path does not name a file"),
                            ),
                        );
                    },
                    EntryKind::File { physical } => physical.clone(),
                };
                let internal = self.endpoint.is_internal(phys.as_str());
                self.entries.remove(i);
                proof {
                    assert(self.model() =~= s0.remove(i as int));
                    lemma_remove_file_wf(s0, i as int);
                }
                if internal {
                    Ok(Some(phys))
                } else {
                    Ok(None)
                }
            },
            None => Err(
                GodataError::new(ErrorKind::NotFound, String::from_str("the path does not exist")),
            ),
        }
    }

    /// Renames a file entry within the tree; folder entries are not movable,
    /// and a source that names one fails with `NotFound` like any other
    /// non-file source.  An occupied destination fails with `AlreadyExists`
    /// unless `overwrite` replaces a file entry there.
    /// When the moved entry is internal the returned pair is the physical
    /// rename the caller must perform; an external entry only has its record
    /// repointed.  Either the whole move is recorded or nothing changes.
    pub fn move_(&mut self, source_path: &str, destination_path: &str, overwrite: bool) -> (r:
        Result<MoveOutcome, GodataError>)
        requires
            old(self).wf(),
        ensures
            final(self).endpoint == old(self).endpoint,
            final(self).wf(),
            ({
                let ps = path_segments(source_path@);
                let pd = path_segments(destination_path@);
                let s0 = old(self).model();
                let root0 = old(self).root();
                match r {
                    Ok(out) => {
                        &&& is_file_at(s0, ps)
                        &&& pd.len() > 0
                        &&& pd != ps
                        &&& ancestors_clear(s0, pd)
                        &&& (has_path(s0, pd) ==> overwrite && is_file_at(s0, pd))
                        &&& ({
                            let oldphys = file_physical(kind_at(s0, ps));
                            let internal = is_under(root0, oldphys);
                            let newphys = if internal {
                                joined_path(root0, pd)
                            } else {
                                oldphys
                            };
                            let s1 = s0.remove(idx_of(s0, ps));
                            let s2 = if has_path(s0, pd) {
                                s1.remove(idx_of(s1, pd))
                            } else {
                                s1
                            };
                            &&& final(self).model() == s2 + missing_folders(s2, pd, 1) + seq![
                                EntryView { path: pd, kind: KindView::File { physical: newphys } },
                            ]
                            &&& (internal ==> (out.physical_move matches Some(pm) && pm.0@
                                == oldphys && pm.1@ == joined_path(root0, pd)))
                            &&& (!internal ==> out.physical_move is None)
                            &&& (has_path(s0, pd) ==> (out.replaced_physical matches Some(rp) && rp@
                                == file_physical(kind_at(s0, pd)) && out.replaced_was_internal
                                == is_under(root0, file_physical(kind_at(s0, pd)))))
                            &&& (!has_path(s0, pd) ==> out.replaced_physical is None
                                && !out.replaced_was_internal)
                        })
                    },
                    Err(e) => {
                        &&& final(self).model() == s0
                        &&& (e.kind == ErrorKind::NotFound || e.kind == ErrorKind::AlreadyExists)
                        &&& (e.kind == ErrorKind::NotFound <==> !is_file_at(s0, ps))
                        &&& (e.kind == ErrorKind::AlreadyExists ==> (pd.len() == 0 || pd == ps || (
                        has_path(s0, pd) && !(overwrite && is_file_at(s0, pd)))
                            || !ancestors_clear(s0, pd)))
                    },
                }
            }),
    {
        let ghost s0 = self.model();
        let ghost root0 = self.root();
        let ps = split_path(source_path);
        let pd = split_path(destination_path);
        let ghost psv = ps.deep_view();
        let ghost pdv = pd.deep_view();
        proof {
            assert(psv.len() == ps@.len());
            assert(pdv.len() == pd@.len());
        }
        let si = match self.find_index(&ps) {
            Some(i) => i,
            None => {
                return Err(
                    GodataError::new(
                        ErrorKind::NotFound,
                        String::from_str("the source path does not exist"),
                    ),
                );
            },
        };
        proof {
            assert(self.model()[si as int] == self.entries@[si as int]@);
            lemma_kind_at(s0, si as int);
        }
        let old_phys = match &self.entries[si].kind {
            EntryKind::Folder { .. } => {
                return Err(
                    GodataError::new(
                        ErrorKind::NotFound,
                        String::from_str("the source path does not name a file"),
                    ),
                );
            },
            EntryKind::File { physical } => physical.clone(),
        };
        if pd.len() == 0 {
            return Err(
                GodataError::new(
                    ErrorKind::AlreadyExists,
                    String::from_str("the destination is the root"),
                ),
            );
        }
        if segs_equal(&ps, &pd) {
            return Err(
                GodataError::new(
                    ErrorKind::AlreadyExists,
                    String::from_str("the destination equals the source"),
                ),
            );
        }
        let (replaced, replaced_internal) = match self.find_index(&pd) {
            Some(di) => {
                proof {
                    assert(self.model()[di as int] == self.entries@[di as int]@);
                    lemma_kind_at(s0, di as int);
                }
                if !overwrite {
                    return Err(
                        GodataError::new(
                            ErrorKind::AlreadyExists,
                            String::from_str("an entry already exists at the destination"),
                        ),
                    );
                }
                match &self.entries[di].kind {
                    EntryKind::Folder { .. } => {
                        return Err(
                            GodataError::new(
                                ErrorKind::AlreadyExists,
                                String::from_str("a folder occupies the destination"),
                            ),
                        );
                    },
                    EntryKind::File { physical } => {
                        let rp = physical.clone();
                        let ri = self.endpoint.is_internal(rp.as_str());
                        (Some(rp), ri)
                    },
                }
            },
            None => (None, false),
        };
        if !self.ancestors_ok(&pd) {
            return Err(
                GodataError::new(
                    ErrorKind::AlreadyExists,
                    String::from_str("a file occupies an ancestor of the destination"),
                ),
            );
        }
        // all checks passed: record the move
        let internal = self.endpoint.is_internal(old_phys.as_str());
        self.entries.remove(si);
        let ghost s1 = s0.remove(si as int);
        proof {
            assert(self.model() =~= s1);
            lemma_remove_file_wf(s0, si as int);
            lemma_remove_effect(s0, si as int);
        }
        if replaced.is_some() {
            proof {
                assert(has_path(s1, pdv));
            }
            match self.find_index(&pd) {
                Some(di2) => {
                    proof {
                        assert(self.model()[di2 as int] == self.entries@[di2 as int]@);
                        lemma_kind_at(s1, di2 as int);
                        assert(idx_of(s1, pdv) == di2);
                        assert(kind_at(s1, pdv) == kind_at(s0, pdv));
                    }
                    self.entries.remove(di2);
                    proof {
                        assert(self.model() =~= s1.remove(di2 as int));
                        lemma_remove_file_wf(s1, di2 as int);
                        lemma_remove_effect(s1, di2 as int);
                    }
                },
                None => {
                    proof {
                        assert(false);
                    }
                    return Err(
                        GodataError::new(
                            ErrorKind::AlreadyExists,
                            String::from_str("the destination vanished"),
                        ),
                    );
                },
            }
        }
        let ghost s2 = self.model();
        proof {
            assert forall|q: Seq<Seq<char>>| #[trigger] has_path(s2, q) implies has_path(s0, q)
                && kind_at(s2, q) == kind_at(s0, q) by {
                assert(has_path(s1, q));
            }
            assert forall|k: int|
                0 < k < pdv.len() && has_path(s2, #[trigger] pdv.take(k)) implies is_folder_at(
                s2,
                pdv.take(k),
            ) by {
                assert(has_path(s0, pdv.take(k)));
                assert(is_folder_at(s0, pdv.take(k)));
            }
            assert(ancestors_clear(s2, pdv));
            assert(!has_path(s2, pdv));
        }
        self.create_ancestors(&pd);
        let new_phys = if internal {
            join_under(self.endpoint.root_path.as_str(), &pd)
        } else {
            old_phys.clone()
        };
        let ghost cur = self.model();
        proof {
            assert forall|j: int| 0 < j < pdv.len() implies pdv.take(j) != pdv by {
                assert(pdv.take(j).len() == j);
            }
            assert(!has_path(cur, pdv));
        }
        let path_copy = clone_segs(&pd, pd.len());
        proof {
            assert(path_copy.deep_view() =~= pdv);
        }
        self.entries.push(
            TreeEntry { path: path_copy, kind: EntryKind::File { physical: new_phys.clone() } },
        );
        proof {
            let e = EntryView { path: pdv, kind: KindView::File { physical: new_phys@ } };
            assert(self.model() =~= cur.push(e));
            assert forall|j: int|
                0 < j < e.path.len() implies is_folder_at(cur, #[trigger] e.path.take(j)) by {
                assert(is_folder_at(cur, pdv.take(j)));
            }
            lemma_push_wf(cur, e);
            lemma_push_effect(cur, e);
            assert(cur.push(e) =~= s2 + missing_folders(s2, pdv, 1) + seq![e]);
        }
        Ok(
            MoveOutcome {
                physical_move: if internal {
                    Some((old_phys, new_phys))
                } else {
                    None
                },
                replaced_physical: replaced,
                replaced_was_internal: replaced_internal,
            },
        )
    }

    /// Links the external directory `source` as a folder at `path`.  With
    /// `recursive`, `items` is the caller's point-in-time snapshot of the
    /// directory's contents, each folder listed before what it contains, and
    /// every snapshot entry is linked below the new folder; otherwise the
    /// snapshot is ignored and only the folder node is created.  A collision
    /// at the path fails with `AlreadyExists` and nothing is applied.
    /// `source_present` reports whether the directory exists on disk; an
    /// absent source is a `NotFound`.
    pub fn add_folder(
        &mut self,
        path: &str,
        source: &str,
        recursive: bool,
        items: &Vec<FolderItem>,
        source_present: bool,
    ) -> (r: Result<(), GodataError>)
        requires
            old(self).wf(),
        ensures
            final(self).endpoint == old(self).endpoint,
            final(self).wf(),
            ({
                let pp = path_segments(path@);
                let s0 = old(self).model();
                let used = if recursive {
                    items.deep_view()
                } else {
                    Seq::<ItemView>::empty()
                };
                match r {
                    Ok(()) => {
                        &&& source_present
                        &&& pp.len() > 0
                        &&& !has_path(s0, pp)
                        &&& ancestors_clear(s0, pp)
                        &&& snapshot_ok(used)
                        &&& final(self).model() == s0 + missing_folders(s0, pp, 1) + seq![
                            EntryView {
                                path: pp,
                                kind: KindView::Folder { source: Some(source@) },
                            },
                        ] + used.map_values(|it: ItemView| linked_entry(pp, source@, it))
                    },
                    Err(e) => {
                        &&& final(self).model() == s0
                        &&& (e.kind == ErrorKind::NotFound ==> !source_present)
                        &&& (e.kind == ErrorKind::AlreadyExists ==> source_present && (pp.len()
                            == 0 || has_path(s0, pp) || !ancestors_clear(s0, pp)))
                        &&& (e.kind == ErrorKind::InternalError ==> source_present && !snapshot_ok(
                            used,
                        ))
                        &&& (e.kind == ErrorKind::NotFound || e.kind == ErrorKind::AlreadyExists
                            || e.kind == ErrorKind::InternalError)
                    },
                }
            }),
    {
        let ghost s0 = self.model();
        let pp = split_path(path);
        let ghost ppv = pp.deep_view();
        let ghost used = if recursive {
            items.deep_view()
        } else {
            Seq::<ItemView>::empty()
        };
        proof {
            assert(ppv.len() == pp@.len());
            if !recursive {
                assert(snapshot_ok(used));
            }
        }
        if !source_present {
            return Err(
                GodataError::new(
                    ErrorKind::NotFound,
                    String::from_str("the source directory does not exist"),
                ),
            );
        }
        if pp.len() == 0 {
            return Err(
                GodataError::new(
                    ErrorKind::AlreadyExists,
                    String::from_str("the root path is already occupied"),
                ),
            );
        }
        // validate the snapshot before touching anything
        if recursive {
            let mut i: usize = 0;
            while i < items.len()
                invariant
                    used == items.deep_view(),
                    used.len() == items@.len(),
                    0 <= i <= items@.len(),
                    recursive,
                    source_present,
                    s0 == old(self).model(),
                    self.model() == s0,
                    self.wf(),
                    self.endpoint == old(self).endpoint,
                    forall|a: int| 0 <= a < i ==> (#[trigger] used[a]).rel.len() > 0,
                    forall|a: int, b: int| 0 <= a < b < i ==> used[a].rel != used[b].rel,
                    forall|a: int|
                        0 <= a < i && (#[trigger] used[a]).rel.len() > 1 ==> exists|b: int|
                            0 <= b < a && used[b].is_dir && (#[trigger] used[b]).rel
                                == used[a].rel.take(used[a].rel.len() - 1),
                decreases items@.len() - i,
            {
                proof {
                    assert(used[i as int] == items@[i as int]@);
                }
                if items[i].rel.len() == 0 {
                    proof {
                        assert(!snapshot_ok(used));
                    }
                    return Err(
                        GodataError::new(
                            ErrorKind::InternalError,
                            String::from_str("a snapshot entry has an empty path"),
                        ),
                    );
                }
                let mut b: usize = 0;
                while b < i
                    invariant
                        used == items.deep_view(),
                        used.len() == items@.len(),
                        0 <= b <= i < items@.len(),
                        recursive,
                        source_present,
                        s0 == old(self).model(),
                        self.model() == s0,
                        self.wf(),
                        self.endpoint == old(self).endpoint,
                        forall|c: int| 0 <= c < b ==> used[c].rel != used[i as int].rel,
                    decreases i - b,
                {
                    proof {
                        assert(used[b as int] == items@[b as int]@);
                    }
                    if segs_equal(&items[b].rel, &items[i].rel) {
                        proof {
                            assert(used[b as int].rel == used[i as int].rel);
                            assert(!snapshot_ok(used));
                        }
                        return Err(
                            GodataError::new(
                                ErrorKind::InternalError,
                                String::from_str("the snapshot repeats a path"),
                            ),
                        );
                    }
                    b += 1;
                }
                if items[i].rel.len() > 1 {
                    let parent = clone_segs(&items[i].rel, items[i].rel.len() - 1);
                    let ghost parentv = used[i as int].rel.take(used[i as int].rel.len() - 1);
                    proof {
                        assert(parent.deep_view() == parentv);
                    }
                    let mut c: usize = 0;
                    let mut found = false;
                    while c < i
                        invariant
                            used == items.deep_view(),
                            used.len() == items@.len(),
                            0 <= c <= i < items@.len(),
                            recursive,
                            source_present,
                            s0 == old(self).model(),
                            self.model() == s0,
                            self.wf(),
                            self.endpoint == old(self).endpoint,
                            used[i as int].rel.len() > 1,
                            parentv == used[i as int].rel.take(used[i as int].rel.len() - 1),
                            parent.deep_view() == parentv,
                            !found ==> forall|d: int|
                                0 <= d < c ==> !((#[trigger] used[d]).is_dir && used[d].rel
                                    == parentv),
                            found ==> exists|d: int|
                                0 <= d < i && (#[trigger] used[d]).is_dir && used[d].rel
                                    == parentv,
                        decreases i - c,
                    {
                        proof {
                            assert(used[c as int] == items@[c as int]@);
                        }
                        if items[c].is_dir && segs_equal(&items[c].rel, &parent) {
                            found = true;
                            proof {
                                assert(used[c as int].is_dir && used[c as int].rel == parentv);
                            }
                        }
                        c += 1;
                    }
                    if !found {
                        proof {
                            assert(c == i);
                            assert(forall|d: int|
                                0 <= d < i ==> !((#[trigger] used[d]).is_dir && used[d].rel
                                    == parentv));
                            assert(!snapshot_ok(used)) by {
                                if snapshot_ok(used) {
                                    assert((i as int) < used.len());
                                    assert(used[i as int].rel.len() > 1);
                                    assert(exists|d: int|
                                        0 <= d < i && used[d].is_dir && (#[trigger] used[d]).rel
                                            == used[i as int].rel.take(
                                            used[i as int].rel.len() - 1,
                                        ));
                                    let d = choose|d: int|
                                        0 <= d < i && used[d].is_dir && (#[trigger] used[d]).rel
                                            == used[i as int].rel.take(
                                            used[i as int].rel.len() - 1,
                                        );
                                    assert(used[d].rel == parentv);
                                }
                            }
                        }
                        return Err(
                            GodataError::new(
                                ErrorKind::InternalError,
                                String::from_str("a snapshot entry precedes its parent folder"),
                            ),
                        );
                    }
                }
                i += 1;
            }
            proof {
                assert(snapshot_ok(used));
            }
        }
        // the link point must be free and its ancestors clear
        match self.find_index(&pp) {
            Some(i) => {
                proof {
                    assert(self.model()[i as int] == self.entries@[i as int]@);
                    assert(has_path(s0, ppv));
                }
                return Err(
                    GodataError::new(
                        ErrorKind::AlreadyExists,
                        String::from_str("an entry already exists at the path"),
                    ),
                );
            },
            None => {},
        }
        if !self.ancestors_ok(&pp) {
            return Err(
                GodataError::new(
                    ErrorKind::AlreadyExists,
                    String::from_str("a file occupies an ancestor of the path"),
                ),
            );
        }
        self.create_ancestors(&pp);
        let ghost after_anc = self.model();
        proof {
            assert forall|j: int| 0 < j < ppv.len() implies ppv.take(j) != ppv by {
                assert(ppv.take(j).len() == j);
            }
            assert(!has_path(after_anc, ppv));
        }
        let path_copy = clone_segs(&pp, pp.len());
        proof {
            assert(path_copy.deep_view() =~= ppv);
        }
        self.entries.push(
            TreeEntry {
                path: path_copy,
                kind: EntryKind::Folder { source: Some(String::from_str(source)) },
            },
        );
        let ghost top = EntryView { path: ppv, kind: KindView::Folder { source: Some(source@) } };
        let ghost base = self.model();
        proof {
            assert(base =~= after_anc.push(top));
            assert forall|j: int|
                0 < j < top.path.len() implies is_folder_at(
                after_anc,
                #[trigger] top.path.take(j),
            ) by {
                assert(is_folder_at(after_anc, ppv.take(j)));
            }
            lemma_push_wf(after_anc, top);
            lemma_push_effect(after_anc, top);
            assert(base =~= s0 + missing_folders(s0, ppv, 1) + seq![top]);
            assert(is_folder_at(base, ppv)) by {
                assert(has_path(after_anc.push(top), top.path));
                assert(kind_at(base, top.path) == top.kind);
            }
            assert forall|j: int| 0 < j < ppv.len() implies is_folder_at(
                base,
                #[trigger] ppv.take(j),
            ) by {
                assert(is_folder_at(after_anc, ppv.take(j)));
                assert(has_path(after_anc, ppv.take(j)));
                assert(kind_at(base, ppv.take(j)) == kind_at(after_anc, ppv.take(j)));
            }
            assert forall|q: Seq<Seq<char>>|
                q.len() > ppv.len() && q.take(ppv.len() as int) == ppv implies !#[trigger] has_path(
                base,
                q,
            ) by {
                if has_path(base, q) {
                    assert(has_path(after_anc, q) || q == top.path);
                    assert(q != top.path);
                    assert(has_path(after_anc, q) ==> has_path(s0, q) || (exists|k: int|
                        0 < k < ppv.len() && q == ppv.take(k)));
                    assert forall|k: int| 0 < k < ppv.len() implies ppv.take(k) != q by {
                        assert(ppv.take(k).len() == k);
                    }
                    assert(has_path(s0, q));
                    lemma_nothing_below_missing(s0, ppv, q);
                }
            }
        }
        if !recursive {
            proof {
                assert(used.map_values(|it: ItemView| linked_entry(ppv, source@, it))
                    =~= Seq::<EntryView>::empty());
                assert(self.model() =~= s0 + missing_folders(s0, ppv, 1) + seq![top]
                    + used.map_values(|it: ItemView| linked_entry(ppv, source@, it)));
            }
            return Ok(());
        }
        // link each snapshot entry below the folder, parents first
        let mut idx: usize = 0;
        proof {
            assert(used.take(0).map_values(|it: ItemView| linked_entry(ppv, source@, it))
                =~= Seq::<EntryView>::empty());
            assert(self.model() =~= base + used.take(0).map_values(
                |it: ItemView| linked_entry(ppv, source@, it),
            ));
        }
        while idx < items.len()
            invariant
                used == items.deep_view(),
                used.len() == items@.len(),
                0 <= idx <= items@.len(),
                snapshot_ok(used),
                ppv == pp.deep_view(),
                ppv.len() > 0,
                tree_wf(base),
                self.endpoint == old(self).endpoint,
                self.wf(),
                self.model() == base + used.take(idx as int).map_values(
                    |it: ItemView| linked_entry(ppv, source@, it),
                ),
                is_folder_at(base, ppv),
                forall|j: int| 0 < j < ppv.len() ==> is_folder_at(base, #[trigger] ppv.take(j)),
                forall|q: Seq<Seq<char>>|
                    q.len() > ppv.len() && q.take(ppv.len() as int) == ppv ==> !#[trigger] has_path(
                        base,
                        q,
                    ),
            decreases items@.len() - idx,
        {
            let ghost lf = |it: ItemView| linked_entry(ppv, source@, it);
            let ghost mapped = used.take(idx as int).map_values(lf);
            let ghost it = used[idx as int];
            let ghost e = linked_entry(ppv, source@, it);
            let ghost cur = self.model();
            proof {
                assert(used[idx as int] == items@[idx as int]@);
                assert(cur == base + mapped);
            }
            let full = concat_segs(&pp, &items[idx].rel);
            let phys = join_under(source, &items[idx].rel);
            proof {
                assert(full.deep_view() == e.path);
                assert(phys@ == joined_path(source@, it.rel));
                assert(e.path.take(ppv.len() as int) =~= ppv);
                assert(e.path.len() == ppv.len() + it.rel.len());
                assert(it.rel.len() > 0);
                lemma_concat_preserves(base, mapped);
                // nothing in the tree sits at the new path
                assert forall|q: Seq<Seq<char>>| #[trigger] has_path(cur, q) implies has_path(
                    base,
                    q,
                ) || (exists|j: int| 0 <= j < idx && q == lf(used[j]).path) by {
                    let a = choose|a: int| 0 <= a < cur.len() && cur[a].path == q;
                    if a >= base.len() {
                        let j = a - base.len();
                        assert(cur[a] == mapped[j]);
                        assert(mapped[j] == lf(used.take(idx as int)[j]));
                        assert(used.take(idx as int)[j] == used[j]);
                    } else {
                        assert(base[a].path == q);
                    }
                }
                assert forall|j: int| 0 <= j < idx implies lf(used[j]).path != e.path by {
                    let a = used[j].rel;
                    let bb = it.rel;
                    assert(used[j].rel != it.rel);
                    if ppv + a == ppv + bb {
                        assert(a =~= (ppv + a).skip(ppv.len() as int));
                        assert(bb =~= (ppv + bb).skip(ppv.len() as int));
                    }
                }
                assert(!has_path(base, e.path));
                assert(!has_path(cur, e.path));
                // every strict prefix of the new path is a folder
                assert forall|k: int|
                    0 < k < e.path.len() implies is_folder_at(cur, #[trigger] e.path.take(k)) by {
                    if k < ppv.len() {
                        assert(e.path.take(k) =~= ppv.take(k));
                        assert(is_folder_at(base, ppv.take(k)));
                        assert(has_path(base, ppv.take(k)));
                        assert(kind_at(cur, ppv.take(k)) == kind_at(base, ppv.take(k)));
                    } else if k == ppv.len() {
                        assert(e.path.take(k) =~= ppv);
                        assert(is_folder_at(base, ppv));
                        assert(has_path(base, ppv));
                        assert(kind_at(cur, ppv) == kind_at(base, ppv));
                    } else {
                        // within the snapshot: the immediate parent folder is an
                        // earlier item, and its own ancestors are closed in `cur`
                        assert(it.rel.len() > 1);
                        let j = choose|j: int|
                            0 <= j < idx && used[j].is_dir && (#[trigger] used[j]).rel
                                == it.rel.take(it.rel.len() - 1);
                        assert(used[j].is_dir);
                        let a = base.len() + j;
                        assert(cur[a as int] == mapped[j]);
                        assert(mapped[j] == lf(used.take(idx as int)[j]));
                        assert(used.take(idx as int)[j] == used[j]);
                        let parentpath = ppv + it.rel.take(it.rel.len() - 1);
                        assert(cur[a as int].path == parentpath);
                        assert(cur[a as int].kind is Folder);
                        lemma_kind_at(cur, a as int);
                        assert(is_folder_at(cur, parentpath));
                        assert(parentpath.len() == e.path.len() - 1);
                        assert(parentpath =~= e.path.take(e.path.len() - 1));
                        if k == e.path.len() - 1 {
                            assert(e.path.take(k) == parentpath);
                        } else {
                            assert(0 < k < parentpath.len());
                            assert(is_folder_at(cur, cur[a as int].path.take(k)));
                            assert(parentpath.take(k) =~= e.path.take(k));
                        }
                    }
                }
            }
            let is_dir = items[idx].is_dir;
            let kind = if is_dir {
                EntryKind::Folder { source: Some(phys) }
            } else {
                EntryKind::File { physical: phys }
            };
            self.entries.push(TreeEntry { path: full, kind });
            proof {
                assert(self.model() =~= cur.push(e));
                lemma_push_wf(cur, e);
                lemma_push_effect(cur, e);
                assert(used.take(idx as int + 1).drop_last() =~= used.take(idx as int));
                assert(used.take(idx as int + 1).map_values(lf) =~= mapped.push(e));
                assert(self.model() =~= base + used.take(idx as int + 1).map_values(lf));
            }
            idx += 1;
        }
        proof {
            assert(used.take(used.len() as int) =~= used);
            assert(self.model() =~= s0 + missing_folders(s0, ppv, 1) + seq![top] + used.map_values(
                |it: ItemView| linked_entry(ppv, source@, it),
            ));
        }
        Ok(())
    }
}

/// One entry of a directory snapshot handed to `add_folder`: a path relative
/// to the linked directory, in an order that lists every folder before its
/// contents.
#[derive(Debug)]
pub struct FolderItem {
    pub rel: Vec<String>,
    pub is_dir: bool,
}

/// The model of a snapshot entry.
pub struct ItemView {
    pub rel: Seq<Seq<char>>,
    pub is_dir: bool,
}

impl View for FolderItem {
    type V = ItemView;

    open spec fn view(&self) -> ItemView {
        ItemView { rel: self.rel.deep_view(), is_dir: self.is_dir }
    }
}

impl DeepView for FolderItem {
    type V = ItemView;

    open spec fn deep_view(&self) -> ItemView {
        self@
    }
}

/// Entries of a prefix keep their place and kind in a longer well-formed
/// sequence.
pub proof fn lemma_concat_preserves(base: Seq<EntryView>, rest: Seq<EntryView>)
    requires
        paths_distinct(base + rest),
    ensures
        paths_distinct(base),
        forall|q: Seq<Seq<char>>|
            #[trigger] has_path(base, q) ==> has_path(base + rest, q) && kind_at(base + rest, q)
                == kind_at(base, q),
{
    let t = base + rest;
    assert forall|i: int, j: int| 0 <= i < j < base.len() implies base[i].path != base[j].path by {
        assert(t[i] == base[i]);
        assert(t[j] == base[j]);
    }
    assert forall|q: Seq<Seq<char>>| #[trigger] has_path(base, q) implies has_path(t, q) && kind_at(
        t,
        q,
    ) == kind_at(base, q) by {
        let a = idx_of(base, q);
        assert(0 <= a < base.len() && base[a].path == q);
        assert(t[a] == base[a]);
        lemma_kind_at(t, a);
        lemma_kind_at(base, a);
    }
}

/// A snapshot is well formed when its paths are nonempty and distinct and
/// every nested entry is preceded by its parent directory.
pub open spec fn snapshot_ok(items: Seq<ItemView>) -> bool {
    &&& forall|i: int| 0 <= i < items.len() ==> (#[trigger] items[i]).rel.len() > 0
    &&& forall|i: int, j: int| 0 <= i < j < items.len() ==> items[i].rel != items[j].rel
    &&& forall|i: int|
        0 <= i < items.len() && (#[trigger] items[i]).rel.len() > 1 ==> exists|j: int|
            0 <= j < i && items[j].is_dir && (#[trigger] items[j]).rel == items[i].rel.take(
                items[i].rel.len() - 1,
            )
}

/// The tree entry a snapshot item produces under the link point `pp` with
/// external source directory `source`.
pub open spec fn linked_entry(pp: Seq<Seq<char>>, source: Seq<char>, it: ItemView) -> EntryView {
    EntryView {
        path: pp + it.rel,
        kind: if it.is_dir {
            KindView::Folder { source: Some(joined_path(source, it.rel)) }
        } else {
            KindView::File { physical: joined_path(source, it.rel) }
        },
    }
}

/// The result of a move: the physical rename to perform (internal entries
/// only), and what occupied the destination before an overwrite.
#[derive(Debug)]
pub struct MoveOutcome {
    pub physical_move: Option<(String, String)>,
    pub replaced_physical: Option<String>,
    pub replaced_was_internal: bool,
}

/// Copies the first `k` segments of `v`.
fn clone_segs(v: &Vec<String>, k: usize) -> (r: Vec<String>)
    requires
        k <= v@.len(),
    ensures
        r.deep_view() == v.deep_view().take(k as int),
{
    let mut r: Vec<String> = Vec::new();
    let mut i: usize = 0;
    while i < k
        invariant
            0 <= i <= k <= v@.len(),
            v.deep_view().len() == v@.len(),
            r.deep_view().len() == i,
            forall|j: int| 0 <= j < i ==> r.deep_view()[j] == v.deep_view()[j],
        decreases k - i,
    {
        let ghost pre = r.deep_view();
        r.push(v[i].clone());
        proof {
            assert(r.deep_view()[i as int] == r@[i as int]@);
            assert(v.deep_view()[i as int] == v@[i as int]@);
            assert(forall|j: int| 0 <= j < i ==> r.deep_view()[j] == pre[j]);
        }
        i += 1;
    }
    proof {
        assert(r.deep_view() =~= v.deep_view().take(k as int));
    }
    r
}

/// Concatenates two segment vectors.
fn concat_segs(a: &Vec<String>, b: &Vec<String>) -> (r: Vec<String>)
    ensures
        r.deep_view() == a.deep_view() + b.deep_view(),
{
    let mut r = clone_segs(a, a.len());
    proof {
        assert(a.deep_view().take(a@.len() as int) =~= a.deep_view());
    }
    let mut i: usize = 0;
    while i < b.len()
        invariant
            0 <= i <= b@.len(),
            a.deep_view().len() == a@.len(),
            b.deep_view().len() == b@.len(),
            r.deep_view().len() == a@.len() + i,
            forall|j: int| 0 <= j < a@.len() ==> r.deep_view()[j] == a.deep_view()[j],
            forall|j: int| 0 <= j < i ==> r.deep_view()[a@.len() + j] == b.deep_view()[j],
        decreases b@.len() - i,
    {
        let ghost pre = r.deep_view();
        r.push(b[i].clone());
        proof {
            assert(r.deep_view()[r@.len() - 1] == r@[r@.len() - 1]@);
            assert(b.deep_view()[i as int] == b@[i as int]@);
            assert(forall|j: int| 0 <= j < pre.len() ==> r.deep_view()[j] == pre[j]);
        }
        i += 1;
    }
    proof {
        assert(r.deep_view() =~= a.deep_view() + b.deep_view());
    }
    r
}

/// Whether `child` has exactly one more segment than `pp` and starts with it.
fn child_test(child: &Vec<String>, pp: &Vec<String>) -> (r: bool)
    ensures
        r == (child.deep_view().len() == pp.deep_view().len() + 1 && child.deep_view().take(
            pp.deep_view().len() as int,
        ) == pp.deep_view()),
{
    proof {
        assert(child.deep_view().len() == child@.len());
        assert(pp.deep_view().len() == pp@.len());
    }
    if child.len() == 0 || child.len() - 1 != pp.len() {
        return false;
    }
    let mut j: usize = 0;
    while j < pp.len()
        invariant
            child@.len() == pp@.len() + 1,
            child.deep_view().len() == child@.len(),
            pp.deep_view().len() == pp@.len(),
            0 <= j <= pp@.len(),
            forall|m: int| 0 <= m < j ==> child.deep_view()[m] == pp.deep_view()[m],
        decreases pp@.len() - j,
    {
        if !crate::strutil::strings_equal(child[j].as_str(), pp[j].as_str()) {
            proof {
                assert(child.deep_view()[j as int] == child@[j as int]@);
                assert(pp.deep_view()[j as int] == pp@[j as int]@);
                assert(child.deep_view().take(pp.deep_view().len() as int)[j as int]
                    == child.deep_view()[j as int]);
            }
            return false;
        }
        proof {
            assert(child.deep_view()[j as int] == child@[j as int]@);
            assert(pp.deep_view()[j as int] == pp@[j as int]@);
        }
        j += 1;
    }
    proof {
        assert(child.deep_view().take(pp.deep_view().len() as int) =~= pp.deep_view());
    }
    true
}

} // verus!
