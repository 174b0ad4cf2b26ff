//! The project manager: creation, deletion, loading and enumeration of
//! projects and collections, over the persistent registry.  Physical
//! directory work (creating a root, deleting one) is returned to the caller
//! as the paths to act on.

use vstd::prelude::*;
use vstd::string::*;
use crate::errors::{ErrorKind, GodataError};
use crate::endpoint::LocalEndpoint;
use crate::registry::{
    StorageManager, record_key, record_value, record_well_formed, record_root, record_endpoint,
};
use crate::strutil::{
    has_char, find_char, first_occ, lemma_first_occ, strings_equal, str_concat,
    vec_contains_string,
};
use crate::tree::{VirtualTree, EntryView};

verus! {

/// The endpoint kind of local-disk storage, the only kind there is today.
pub open spec fn local_kind() -> Seq<char> {
    "local"@
}

/// Hidden names begin with a dot and are left out of listings by default.
pub open spec fn is_hidden(name: Seq<char>) -> bool {
    name.len() > 0 && name[0] == '.'
}

pub fn name_is_hidden(name: &str) -> (r: bool)
    ensures
        r == is_hidden(name@),
{
    name.unicode_len() > 0 && name.get_char(0) == '.'
}

/// Whether a registry key has the `name/collection` shape.
pub open spec fn key_splits(k: Seq<char>) -> bool {
    first_occ(k, '/') < k.len()
}

/// The name part of a key: everything before the first separator.
pub open spec fn key_name(k: Seq<char>) -> Seq<char> {
    k.take(first_occ(k, '/'))
}

/// The collection part of a key: everything after the first separator.
pub open spec fn key_collection(k: Seq<char>) -> Seq<char> {
    k.skip(first_occ(k, '/') + 1)
}

/// A key built from a separator-free name parses back into its two parts.
pub proof fn lemma_key_round_trip(name: Seq<char>, collection: Seq<char>)
    requires
        !has_char(name, '/'),
    ensures
        key_splits(record_key(name, collection)),
        key_name(record_key(name, collection)) == name,
        key_collection(record_key(name, collection)) == collection,
{
    let k = record_key(name, collection);
    assert(k[name.len() as int] == '/');
    lemma_first_occ(k, '/');
    let f = first_occ(k, '/');
    assert(f <= name.len());
    if f < name.len() {
        assert(k[f] == name[f]);
        assert(has_char(name, '/'));
    }
    assert(key_name(k) =~= name);
    assert(key_collection(k) =~= collection);
}

/// The default physical root for a project: `base/collection/name` under the
/// default storage area.
pub open spec fn default_root(base: Seq<char>, name: Seq<char>, collection: Seq<char>) -> Seq<
    char,
> {
    base + seq!['/'] + collection + seq!['/'] + name
}

/// What a successful creation hands back: the root directory the caller must
/// now create, and the root of a project that `force` displaced, which the
/// caller must delete.
#[derive(Debug)]
pub struct CreateOutcome {
    pub root: String,
    pub removed_root: Option<String>,
}

/// Orchestrates collection and project lifecycle over the registry.
pub struct ProjectManager {
    storage: StorageManager,
}

impl ProjectManager {
    /// The persisted records.
    pub closed spec fn records(&self) -> Map<Seq<char>, Seq<char>> {
        self.storage.records()
    }

    /// The default storage area.
    pub closed spec fn storage_root(&self) -> Seq<char> {
        self.storage.spec_root_path()
    }

    pub fn new(storage: StorageManager) -> (r: ProjectManager)
        ensures
            r.records() == storage.records(),
            r.storage_root() == storage.spec_root_path(),
    {
        ProjectManager { storage }
    }

    /// Builds the default root path for a project.
    fn derive_root(&self, name: &str, collection: &str) -> (r: String)
        ensures
            r@ == default_root(self.storage_root(), name@, collection@),
    {
        proof {
            reveal_strlit("/");
        }
        let a = str_concat(self.storage.root_path().as_str(), "/");
        let b = str_concat(a.as_str(), collection);
        let c = str_concat(b.as_str(), "/");
        str_concat(c.as_str(), name)
    }

    /// Registers a project.  Without `force` an existing record is an
    /// `AlreadyExists`; with it the old project is deleted first and its root
    /// reported for physical removal.  The caller creates the returned root
    /// directory if it is missing.
    pub fn create_project(
        &mut self,
        name: &str,
        collection: &str,
        force: bool,
        storage_location: Option<String>,
    ) -> (r: Result<CreateOutcome, GodataError>)
        ensures
            final(self).storage_root() == old(self).storage_root(),
            ({
                let key = record_key(name@, collection@);
                let chosen = match storage_location {
                    Some(p) => p@,
                    None => default_root(old(self).storage_root(), name@, collection@),
                };
                match r {
                    Ok(out) => {
                        &&& out.root@ == chosen
                        &&& !has_char(chosen, ':')
                        &&& !has_char(name@, '/')
                        &&& !has_char(collection@, '/')
                        &&& (!force ==> !old(self).records().contains_key(key))
                        &&& final(self).records() == old(self).records().insert(
                            key,
                            record_value(local_kind(), chosen),
                        )
                        &&& (force && old(self).records().contains_key(key) ==> (
                        out.removed_root matches Some(p) && record_well_formed(
                            old(self).records()[key],
                        ) && p@ == record_root(old(self).records()[key])))
                        &&& (!(force && old(self).records().contains_key(key))
                            ==> out.removed_root is None)
                    },
                    Err(e) => {
                        &&& (e.kind == ErrorKind::AlreadyExists || e.kind == ErrorKind::InternalError
                            || e.kind == ErrorKind::IoError)
                        &&& (e.kind == ErrorKind::AlreadyExists ==> !force && old(
                            self,
                        ).records().contains_key(key))
                        &&& (e.kind == ErrorKind::InternalError ==> has_char(name@, '/')
                            || has_char(collection@, '/') || has_char(chosen, ':') || (force && old(
                            self,
                        ).records().contains_key(key) && !record_well_formed(
                            old(self).records()[key],
                        )))
                        &&& (e.kind != ErrorKind::IoError ==> final(self).records() == old(
                            self,
                        ).records())
                        &&& (has_char(name@, '/') || has_char(collection@, '/') || has_char(
                            chosen,
                            ':',
                        ) ==> e.kind == ErrorKind::InternalError)
                    },
                }
            }),
    {
        // a separator inside a name would corrupt the `name/collection` key
        // and make listings place the project under the wrong collection
        if find_char(name, '/') != name.unicode_len() {
            proof {
                lemma_first_occ(name@, '/');
            }
            return Err(
                GodataError::new(
                    ErrorKind::InternalError,
                    String::from_str("the project name would corrupt the registry key"),
                ),
            );
        }
        if find_char(collection, '/') != collection.unicode_len() {
            proof {
                lemma_first_occ(collection@, '/');
            }
            return Err(
                GodataError::new(
                    ErrorKind::InternalError,
                    String::from_str("the collection name would corrupt the registry key"),
                ),
            );
        }
        proof {
            lemma_first_occ(name@, '/');
            lemma_first_occ(collection@, '/');
        }
        let chosen: String = match storage_location {
            Some(p) => p,
            None => self.derive_root(name, collection),
        };
        let n = chosen.as_str().unicode_len();
        let colon = find_char(chosen.as_str(), ':');
        proof {
            lemma_first_occ(chosen@, ':');
        }
        if colon != n {
            return Err(
                GodataError::new(
                    ErrorKind::InternalError,
                    String::from_str("the storage location would corrupt the project record"),
                ),
            );
        }
        let removed: Option<String> = if force {
            match self.storage.delete(name, collection) {
                Ok(old_root) => Some(old_root),
                Err(e) => {
                    if matches!(e.kind(), ErrorKind::NotFound) {
                        None
                    } else {
                        return Err(e);
                    }
                },
            }
        } else {
            None
        };
        match self.storage.add(name, collection, "local", chosen.as_str()) {
            Ok(()) => {
                proof {
                    let key = record_key(name@, collection@);
                    let v = record_value(local_kind(), chosen@);
                    assert(final(self).records() =~= old(self).records().insert(key, v));
                }
                Ok(CreateOutcome { root: chosen, removed_root: removed })
            },
            Err(e) => Err(e),
        }
    }

    /// Deletes a project: a hidden one is refused without `force`; otherwise
    /// the record is removed and the returned root is for the caller to
    /// delete physically (pruning its parent directory if now empty).
    pub fn delete_project(&mut self, name: &str, collection: &str, force: bool) -> (r: Result<
        String,
        GodataError,
    >)
        ensures
            final(self).storage_root() == old(self).storage_root(),
            ({
                let key = record_key(name@, collection@);
                match r {
                    Ok(root) => {
                        &&& !is_hidden(name@) || force
                        &&& old(self).records().contains_key(key)
                        &&& record_well_formed(old(self).records()[key])
                        &&& root@ == record_root(old(self).records()[key])
                        &&& final(self).records() == old(self).records().remove(key)
                    },
                    Err(e) => {
                        &&& (e.kind == ErrorKind::Forbidden <==> is_hidden(name@) && !force)
                        &&& (e.kind == ErrorKind::NotFound ==> !old(self).records().contains_key(
                            key,
                        ))
                        &&& (e.kind == ErrorKind::InternalError ==> old(
                            self,
                        ).records().contains_key(key) && !record_well_formed(
                            old(self).records()[key],
                        ))
                        &&& (e.kind != ErrorKind::IoError ==> final(self).records() == old(
                            self,
                        ).records())
                        &&& (e.kind == ErrorKind::Forbidden || e.kind == ErrorKind::NotFound
                            || e.kind == ErrorKind::InternalError || e.kind == ErrorKind::IoError)
                    },
                }
            }),
    {
        if name_is_hidden(name) && !force {
            return Err(
                GodataError::new(
                    ErrorKind::Forbidden,
                    String::from_str("a hidden project is only deleted with force"),
                ),
            );
        }
        self.storage.delete(name, collection)
    }

    /// Resolves a project into a fresh, empty tree handle over its storage
    /// endpoint.  The registry persists only where each project lives; the
    /// tree's persisted form is the physical mirror under that root, so the
    /// caller keeps live trees cached for the process's lifetime and may
    /// relink entries from a walk of the mirror when it starts.  `NotFound`
    /// when no such project; `InternalError` when its record is corrupt or
    /// names an unknown endpoint kind.
    pub fn load_project(&self, name: &str, collection: &str) -> (r: Result<
        VirtualTree,
        GodataError,
    >)
        ensures
            ({
                let key = record_key(name@, collection@);
                match r {
                    Ok(t) => {
                        &&& self.records().contains_key(key)
                        &&& record_well_formed(self.records()[key])
                        &&& record_endpoint(self.records()[key]) == local_kind()
                        &&& t.root() == record_root(self.records()[key])
                        &&& t.model() == Seq::<EntryView>::empty()
                        &&& t.wf()
                    },
                    Err(e) => {
                        &&& (e.kind == ErrorKind::NotFound ==> !self.records().contains_key(key))
                        &&& (e.kind == ErrorKind::InternalError ==> self.records().contains_key(key)
                            && (!record_well_formed(self.records()[key]) || record_endpoint(
                            self.records()[key],
                        ) != local_kind()))
                        &&& (e.kind == ErrorKind::NotFound || e.kind == ErrorKind::InternalError
                            || e.kind == ErrorKind::IoError)
                    },
                }
            }),
    {
        let parts = match self.storage.get(name, collection) {
            Ok(p) => p,
            Err(e) => {
                return Err(e);
            },
        };
        if !strings_equal(parts.0.as_str(), "local") {
            return Err(
                GodataError::new(
                    ErrorKind::InternalError,
                    String::from_str("the project names an unknown endpoint kind"),
                ),
            );
        }
        Ok(VirtualTree::new(LocalEndpoint::new(parts.1)))
    }

    /// The names of the projects of one collection, hidden ones only on
    /// request: every recorded project of the collection that passes the
    /// hidden filter is listed, each name once, and no hidden name appears
    /// unasked.  A collection no project names is a `NotFound`.
    pub fn get_project_names(&self, collection: &str, show_hidden: bool) -> (r: Result<
        Vec<String>,
        GodataError,
    >)
        ensures
            match r {
                Ok(v) => {
                    &&& forall|i: int, j: int|
                        0 <= i < j < v.deep_view().len() ==> v.deep_view()[i] != v.deep_view()[j]
                    &&& forall|nm: Seq<char>|
                        #[trigger] v.deep_view().contains(nm) ==> (show_hidden || !is_hidden(nm))
                    &&& forall|k: Seq<char>|
                        #[trigger] self.records().contains_key(k) && key_splits(k)
                            && key_collection(k) == collection@ && (show_hidden || !is_hidden(
                            key_name(k),
                        )) ==> v.deep_view().contains(key_name(k))
                },
                Err(e) => {
                    &&& (e.kind == ErrorKind::NotFound ==> !(exists|k: Seq<char>|
                        #[trigger] self.records().contains_key(k) && key_splits(k)
                            && key_collection(k) == collection@))
                    &&& (e.kind == ErrorKind::NotFound || e.kind == ErrorKind::IoError)
                },
            },
    {
        let keys = match self.storage.keys() {
            Ok(v) => v,
            Err(e) => {
                return Err(e);
            },
        };
        let ghost kv = keys.deep_view();
        let mut out: Vec<String> = Vec::new();
        let mut found_col = false;
        let mut i: usize = 0;
        proof {
            assert(kv.len() == keys@.len());
        }
        while i < keys.len()
            invariant
                kv == keys.deep_view(),
                kv.len() == keys@.len(),
                0 <= i <= keys@.len(),
                forall|a: int, b: int|
                    0 <= a < b < out.deep_view().len() ==> out.deep_view()[a] != out.deep_view()[b],
                forall|nm: Seq<char>|
                    #[trigger] out.deep_view().contains(nm) ==> (show_hidden || !is_hidden(nm)),
                forall|j: int|
                    0 <= j < i && key_splits(#[trigger] kv[j]) && key_collection(kv[j])
                        == collection@ && (show_hidden || !is_hidden(key_name(kv[j])))
                        ==> out.deep_view().contains(key_name(kv[j])),
                found_col <==> (exists|j: int|
                    0 <= j < i && key_splits(#[trigger] kv[j]) && key_collection(kv[j])
                        == collection@),
            decreases keys@.len() - i,
        {
            proof {
                assert(kv[i as int] == keys@[i as int]@);
            }
            let k = &keys[i];
            let n = k.as_str().unicode_len();
            let slash = find_char(k.as_str(), '/');
            if slash >= n {
                proof {
                    assert(!key_splits(kv[i as int]));
                }
            } else {
                let nm = k.as_str().substring_char(0, slash);
                let col = k.as_str().substring_char(slash + 1, n);
                proof {
                    assert(nm@ =~= key_name(kv[i as int]));
                    assert(col@ =~= key_collection(kv[i as int]));
                }
                if strings_equal(col, collection) {
                    found_col = true;
                    if show_hidden || !name_is_hidden(nm) {
                        if !vec_contains_string(&out, nm) {
                            let ghost pre = out.deep_view();
                            out.push(String::from_str(nm));
                            proof {
                                assert(out.deep_view() =~= pre.push(nm@));
                                assert forall|x: Seq<char>| #[trigger] out.deep_view().contains(x)
                                    implies pre.contains(x) || x == nm@ by {
                                    let a = choose|a: int|
                                        0 <= a < out.deep_view().len() && out.deep_view()[a] == x;
                                    if a < pre.len() {
                                        assert(pre[a] == x);
                                    }
                                }
                                assert forall|x: Seq<char>| pre.contains(x) || x == nm@ implies
                                    #[trigger] out.deep_view().contains(x) by {
                                    if pre.contains(x) {
                                        let a = choose|a: int| 0 <= a < pre.len() && pre[a] == x;
                                        assert(out.deep_view()[a] == x);
                                    } else {
                                        assert(out.deep_view()[pre.len() as int] == x);
                                    }
                                }
                            }
                        }
                    }
                }
            }
            i += 1;
        }
        if !found_col {
            proof {
                assert forall|k: Seq<char>|
                    self.records().contains_key(k) && key_splits(k) implies !(key_collection(k)
                    == collection@) by {
                    assert(kv.contains(k));
                    let j = choose|j: int| 0 <= j < kv.len() && kv[j] == k;
                }
            }
            return Err(
                GodataError::new(ErrorKind::NotFound, String::from_str("no such collection")),
            );
        }
        proof {
            assert forall|k: Seq<char>|
                #[trigger] self.records().contains_key(k) && key_splits(k) && key_collection(k)
                    == collection@ && (show_hidden || !is_hidden(key_name(k))) implies
                out.deep_view().contains(key_name(k)) by {
                assert(kv.contains(k));
                let j = choose|j: int| 0 <= j < kv.len() && kv[j] == k;
            }
        }
        Ok(out)
    }

    /// The names of the collections that hold at least one project, hidden
    /// ones only on request: every collection a record names is listed if it
    /// passes the hidden filter, each name once, and no hidden name appears
    /// unasked.
    pub fn get_collection_names(&self, show_hidden: bool) -> (r: Result<Vec<String>, GodataError>)
        ensures
            match r {
                Ok(v) => {
                    &&& forall|i: int, j: int|
                        0 <= i < j < v.deep_view().len() ==> v.deep_view()[i] != v.deep_view()[j]
                    &&& forall|c: Seq<char>|
                        #[trigger] v.deep_view().contains(c) ==> (show_hidden || !is_hidden(c))
                    &&& forall|k: Seq<char>|
                        #[trigger] self.records().contains_key(k) && key_splits(k) && (show_hidden
                            || !is_hidden(key_collection(k))) ==> v.deep_view().contains(
                            key_collection(k),
                        )
                },
                Err(e) => e.kind == ErrorKind::IoError,
            },
    {
        let keys = match self.storage.keys() {
            Ok(v) => v,
            Err(e) => {
                return Err(e);
            },
        };
        let ghost kv = keys.deep_view();
        let mut out: Vec<String> = Vec::new();
        let mut i: usize = 0;
        proof {
            assert(kv.len() == keys@.len());
        }
        while i < keys.len()
            invariant
                kv == keys.deep_view(),
                kv.len() == keys@.len(),
                0 <= i <= keys@.len(),
                forall|a: int, b: int|
                    0 <= a < b < out.deep_view().len() ==> out.deep_view()[a] != out.deep_view()[b],
                forall|c: Seq<char>|
                    #[trigger] out.deep_view().contains(c) ==> (show_hidden || !is_hidden(c)),
                forall|j: int|
                    0 <= j < i && key_splits(#[trigger] kv[j]) && (show_hidden || !is_hidden(
                        key_collection(kv[j]),
                    )) ==> out.deep_view().contains(key_collection(kv[j])),
            decreases keys@.len() - i,
        {
            proof {
                assert(kv[i as int] == keys@[i as int]@);
            }
            let k = &keys[i];
            let n = k.as_str().unicode_len();
            let slash = find_char(k.as_str(), '/');
            if slash >= n {
                proof {
                    assert(!key_splits(kv[i as int]));
                }
            } else {
                let col = k.as_str().substring_char(slash + 1, n);
                proof {
                    assert(col@ =~= key_collection(kv[i as int]));
                }
                if show_hidden || !name_is_hidden(col) {
                    if !vec_contains_string(&out, col) {
                        let ghost pre = out.deep_view();
                        out.push(String::from_str(col));
                        proof {
                            assert(out.deep_view() =~= pre.push(col@));
                            assert forall|x: Seq<char>| #[trigger] out.deep_view().contains(x)
                                implies pre.contains(x) || x == col@ by {
                                let a = choose|a: int|
                                    0 <= a < out.deep_view().len() && out.deep_view()[a] == x;
                                if a < pre.len() {
                                    assert(pre[a] == x);
                                }
                            }
                            assert forall|x: Seq<char>| pre.contains(x) || x == col@ implies
                                #[trigger] out.deep_view().contains(x) by {
                                if pre.contains(x) {
                                    let a = choose|a: int| 0 <= a < pre.len() && pre[a] == x;
                                    assert(out.deep_view()[a] == x);
                                } else {
                                    assert(out.deep_view()[pre.len() as int] == x);
                                }
                            }
                        }
                    }
                }
            }
            i += 1;
        }
        proof {
            assert forall|k: Seq<char>|
                #[trigger] self.records().contains_key(k) && key_splits(k) && (show_hidden
                    || !is_hidden(key_collection(k))) implies out.deep_view().contains(
                key_collection(k),
            ) by {
                assert(kv.contains(k));
                let j = choose|j: int| 0 <= j < kv.len() && kv[j] == k;
            }
        }
        Ok(out)
    }
}

} // verus!


