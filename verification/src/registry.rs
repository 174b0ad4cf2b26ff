//! The persistent project registry: one record per project, keyed by
//! `name/collection`, whose value reads `endpoint-kind:root-path`.  The
//! key-value store is sled; its tree is modelled by the uninterpreted map
//! `db_records`, and every access goes through the trusted wrappers below,
//! whose contracts state what sled's own source shows of each call.

use vstd::prelude::*;
use vstd::string::*;
use crate::errors::{ErrorKind, GodataError};
use crate::strutil::{first_occ, first_occ_from, lemma_first_occ_from, lemma_first_occ, find_char, str_concat};

verus! {

/// The records held by a sled tree, addressed as text: a text key is in the
/// map exactly when its byte encoding is a stored key, and its value is that
/// record's bytes read as text (lossily, where they are not valid text).  A
/// stored byte key that is not valid text is
/// outside the map's domain: no text key addresses it, so the keyed wrappers
/// below are exact, while enumeration can only promise to cover the domain
/// (`db_keys`).
pub uninterp spec fn db_records(db: sled::Db) -> Map<Seq<char>, Seq<char>>;

#[verifier::external_type_specification]
#[verifier::external_body]
pub struct ExDb(sled::Db);

#[verifier::external_type_specification]
#[verifier::external_body]
pub struct ExSledError(sled::Error);

/// Relies on sled::open: opens or creates the database at the path; the
/// records found there are whatever the store holds.
#[verifier::external_body]
fn db_open(path: &str) -> (r: Result<sled::Db, sled::Error>) {
    sled::open(path)
}

/// Relies on sled::Tree::contains_key: reports whether the key is present.
#[verifier::external_body]
fn db_contains(db: &sled::Db, key: &String) -> (r: Result<bool, sled::Error>)
    ensures
        r matches Ok(b) ==> b == db_records(*db).contains_key(key@),
{
    db.contains_key(key.as_bytes())
}

/// Relies on sled::Tree::insert: maps the key to the value, replacing any
/// previous value for it.
#[verifier::external_body]
fn db_insert(db: &mut sled::Db, key: &String, value: &String) -> (r: Result<(), sled::Error>)
    ensures
        r is Ok ==> db_records(*final(db)) == db_records(*old(db)).insert(key@, value@),
{
    match db.insert(key.as_bytes(), value.as_bytes()) {
        Ok(_) => Ok(()),
        Err(e) => Err(e),
    }
}

/// Relies on sled::Tree::get: returns the value stored under the key, if any.
#[verifier::external_body]
fn db_get(db: &sled::Db, key: &String) -> (r: Result<Option<String>, sled::Error>)
    ensures
        r matches Ok(v) ==> match v {
            Some(s) => db_records(*db).contains_key(key@) && s@ == db_records(*db)[key@],
            None => !db_records(*db).contains_key(key@),
        },
{
    match db.get(key.as_bytes()) {
        Ok(Some(v)) => Ok(Some(String::from_utf8_lossy(&v).into_owned())),
        Ok(None) => Ok(None),
        Err(e) => Err(e),
    }
}

/// Relies on sled::Tree::remove: removes the key and whatever value it held.
#[verifier::external_body]
fn db_remove(db: &mut sled::Db, key: &String) -> (r: Result<(), sled::Error>)
    ensures
        r is Ok ==> db_records(*final(db)) == db_records(*old(db)).remove(key@),
{
    match db.remove(key.as_bytes()) {
        Ok(_) => Ok(()),
        Err(e) => Err(e),
    }
}

/// Relies on sled::Tree::iter: walks every stored key, so every key of the
/// model appears among the readings returned.  The readings of byte keys
/// that are not valid text are also returned, and nothing is promised of
/// them: they are outside the model's domain.
#[verifier::external_body]
fn db_keys(db: &sled::Db) -> (r: Result<Vec<String>, sled::Error>)
    ensures
        r matches Ok(keys) ==> forall|k: Seq<char>|
            db_records(*db).contains_key(k) ==> keys.deep_view().contains(k),
{
    let mut out = Vec::new();
    for item in db.iter() {
        match item {
            Ok((k, _)) => out.push(String::from_utf8_lossy(&k).into_owned()),
            Err(e) => {
                return Err(e);
            },
        }
    }
    Ok(out)
}

/// The registry key for a project: `name/collection`.
pub open spec fn record_key(name: Seq<char>, collection: Seq<char>) -> Seq<char> {
    name + seq!['/'] + collection
}

/// The registry value for a project: `endpoint-kind:root-path`.
pub open spec fn record_value(endpoint: Seq<char>, root: Seq<char>) -> Seq<char> {
    endpoint + seq![':'] + root
}

/// A stored value decodes only when it holds exactly one `:`; any other
/// field count is corruption.
pub open spec fn record_well_formed(v: Seq<char>) -> bool {
    first_occ(v, ':') < v.len() && first_occ_from(v, ':', first_occ(v, ':') + 1) == v.len()
}

/// The endpoint-kind field of a well-formed value.
pub open spec fn record_endpoint(v: Seq<char>) -> Seq<char> {
    v.take(first_occ(v, ':'))
}

/// The root-path field of a well-formed value.
pub open spec fn record_root(v: Seq<char>) -> Seq<char> {
    v.skip(first_occ(v, ':') + 1)
}

/// Builds the `name/collection` key.
pub fn make_key(name: &str, collection: &str) -> (r: String)
    ensures
        r@ == record_key(name@, collection@),
{
    proof {
        reveal_strlit("/");
    }
    let joined = str_concat(name, "/");
    str_concat(joined.as_str(), collection)
}

/// Builds the `endpoint:root` value.
pub fn make_value(endpoint: &str, root: &str) -> (r: String)
    ensures
        r@ == record_value(endpoint@, root@),
{
    proof {
        reveal_strlit(":");
    }
    let joined = str_concat(endpoint, ":");
    str_concat(joined.as_str(), root)
}

/// Splits a stored value into its two fields, or reports that it is corrupt.
pub fn decode_value(v: &str) -> (r: Option<(String, String)>)
    ensures
        match r {
            Some(parts) => record_well_formed(v@) && parts.0@ == record_endpoint(v@) && parts.1@
                == record_root(v@),
            None => !record_well_formed(v@),
        },
{
    let n = v.unicode_len();
    let k = find_char(v, ':');
    proof {
        lemma_first_occ(v@, ':');
    }
    if k == n {
        return None;
    }
    // check that no second ':' follows
    let mut i: usize = k + 1;
    while i < n
        invariant
            n == v@.len(),
            first_occ(v@, ':') == k < n,
            k + 1 <= i <= n,
            first_occ_from(v@, ':', k + 1) == first_occ_from(v@, ':', i as int),
        decreases n - i,
    {
        if v.get_char(i) == ':' {
            proof {
                lemma_first_occ_from(v@, ':', k + 1);
            }
            return None;
        }
        i += 1;
    }
    let endpoint = v.substring_char(0, k);
    let root = v.substring_char(k + 1, n);
    proof {
        assert(v@.subrange(0, k as int) =~= record_endpoint(v@));
        assert(v@.subrange(k as int + 1, n as int) =~= record_root(v@));
    }
    Some((String::from_str(endpoint), String::from_str(root)))
}

/// Encoding then decoding a record returns its two fields, provided the
/// endpoint kind and the root path are free of the field separator.
pub proof fn lemma_record_round_trip(endpoint: Seq<char>, root: Seq<char>)
    requires
        !crate::strutil::has_char(endpoint, ':'),
        !crate::strutil::has_char(root, ':'),
    ensures
        record_well_formed(record_value(endpoint, root)),
        record_endpoint(record_value(endpoint, root)) == endpoint,
        record_root(record_value(endpoint, root)) == root,
{
    let v = record_value(endpoint, root);
    assert(v[endpoint.len() as int] == ':');
    lemma_first_occ(v, ':');
    let f = first_occ(v, ':');
    assert(f <= endpoint.len());
    if f < endpoint.len() {
        assert(v[f] == endpoint[f]);
        assert(crate::strutil::has_char(endpoint, ':'));
    }
    assert(f == endpoint.len());
    lemma_first_occ_from(v, ':', f + 1);
    let g = first_occ_from(v, ':', f + 1);
    if g < v.len() {
        assert(v[g] == root[g - endpoint.len() - 1]);
        assert(crate::strutil::has_char(root, ':'));
    }
    assert(record_well_formed(v));
    assert(record_endpoint(v) =~= endpoint);
    assert(record_root(v) =~= root);
}

/// The persistent registry plus the default storage area it lives under.
pub struct StorageManager {
    root_path: String,
    storage_db: sled::Db,
}

impl StorageManager {
    /// The records this manager holds.
    pub closed spec fn records(&self) -> Map<Seq<char>, Seq<char>> {
        db_records(self.storage_db)
    }

    /// The default storage area the manager derives project roots under.
    pub closed spec fn spec_root_path(&self) -> Seq<char> {
        self.root_path@
    }

    /// Opens the registry database under `root_path` (at `root_path/.db`).
    pub fn open(root_path: String) -> (r: Result<StorageManager, GodataError>)
        ensures
            r matches Ok(m) ==> m.spec_root_path() == root_path@,
            r matches Err(e) ==> e.kind == ErrorKind::IoError,
    {
        proof {
            reveal_strlit("/.db");
        }
        let db_location = str_concat(root_path.as_str(), "/.db");
        match db_open(db_location.as_str()) {
            Ok(db) => Ok(StorageManager { root_path, storage_db: db }),
            Err(_) => Err(
                GodataError::new(
                    ErrorKind::IoError,
                    String::from_str("could not open the registry database"),
                ),
            ),
        }
    }

    /// Wraps an already-opened database; the caller chooses the storage
    /// area.  The handle handed over must be the only one: the contracts
    /// track writes made through this manager alone, so a write through a
    /// retained clone of `db` falls outside them.
    pub fn from_db(db: sled::Db, root_path: String) -> (r: StorageManager)
        ensures
            r.records() == db_records(db),
            r.spec_root_path() == root_path@,
    {
        StorageManager { root_path, storage_db: db }
    }

    pub fn root_path(&self) -> (r: &String)
        ensures
            r@ == self.spec_root_path(),
    {
        &self.root_path
    }

    /// Persists the record for a new project.  Fails with `AlreadyExists`,
    /// and changes nothing, when a record for `(name, collection)` is
    /// present.  Callers hold the manager's one lock across the call, so the
    /// existence check and the write are atomic per key.
    pub fn add(&mut self, name: &str, collection: &str, endpoint: &str, path: &str) -> (r: Result<
        (),
        GodataError,
    >)
        ensures
            ({
                let key = record_key(name@, collection@);
                match r {
                    Ok(()) => !old(self).records().contains_key(key) && final(self).records()
                        == old(self).records().insert(key, record_value(endpoint@, path@))
                        && final(self).spec_root_path() == old(self).spec_root_path(),
                    Err(e) => {
                        &&& e.kind == ErrorKind::AlreadyExists || e.kind == ErrorKind::IoError
                        &&& e.kind == ErrorKind::AlreadyExists ==> old(self).records().contains_key(
                            key,
                        ) && final(self).records() == old(self).records()
                        &&& final(self).spec_root_path() == old(self).spec_root_path()
                    },
                }
            }),
    {
        let key = make_key(name, collection);
        let value = make_value(endpoint, path);
        let present = match db_contains(&self.storage_db, &key) {
            Ok(b) => b,
            Err(_) => {
                return Err(
                    GodataError::new(
                        ErrorKind::IoError,
                        String::from_str("could not read the registry"),
                    ),
                );
            },
        };
        if present {
            return Err(
                GodataError::new(ErrorKind::AlreadyExists, String::from_str("project already exists")),
            );
        }
        match db_insert(&mut self.storage_db, &key, &value) {
            Ok(()) => Ok(()),
            Err(_) => Err(
                GodataError::new(
                    ErrorKind::IoError,
                    String::from_str("could not write the registry"),
                ),
            ),
        }
    }

    /// Looks a project up: its endpoint kind and root path.  `NotFound`,
    /// naming the missing project, when no record exists; `InternalError`
    /// when the stored record is corrupt.
    pub fn get(&self, name: &str, collection: &str) -> (r: Result<(String, String), GodataError>)
        ensures
            ({
                let key = record_key(name@, collection@);
                match r {
                    Ok(parts) => self.records().contains_key(key) && record_well_formed(
                        self.records()[key],
                    ) && parts.0@ == record_endpoint(self.records()[key]) && parts.1@
                        == record_root(self.records()[key]),
                    Err(e) => {
                        &&& e.kind == ErrorKind::NotFound || e.kind == ErrorKind::InternalError
                            || e.kind == ErrorKind::IoError
                        &&& e.kind == ErrorKind::NotFound ==> !self.records().contains_key(key)
                            && e.message@ == "storage information not found for project `"@
                            + collection@ + "/"@ + name@ + "`"@
                        &&& e.kind == ErrorKind::InternalError ==> self.records().contains_key(key)
                            && !record_well_formed(self.records()[key])
                    },
                }
            }),
    {
        let key = make_key(name, collection);
        let stored = match db_get(&self.storage_db, &key) {
            Ok(v) => v,
            Err(_) => {
                return Err(
                    GodataError::new(
                        ErrorKind::IoError,
                        String::from_str("could not read the registry"),
                    ),
                );
            },
        };
        let value = match stored {
            Some(v) => v,
            None => {
                let m1 = str_concat("storage information not found for project `", collection);
                let m2 = str_concat(m1.as_str(), "/");
                let m3 = str_concat(m2.as_str(), name);
                return Err(GodataError::new(ErrorKind::NotFound, str_concat(m3.as_str(), "`")));
            },
        };
        match decode_value(value.as_str()) {
            Some(parts) => Ok(parts),
            None => Err(
                GodataError::new(
                    ErrorKind::InternalError,
                    String::from_str("storage information for the project is corrupted"),
                ),
            ),
        }
    }

    /// Removes a project's record and returns the root path whose physical
    /// directory the caller must now delete (pruning its parent if that
    /// directory became empty).
    pub fn delete(&mut self, name: &str, collection: &str) -> (r: Result<String, GodataError>)
        ensures
            ({
                let key = record_key(name@, collection@);
                match r {
                    Ok(root) => old(self).records().contains_key(key) && record_well_formed(
                        old(self).records()[key],
                    ) && root@ == record_root(old(self).records()[key]) && final(self).records()
                        == old(self).records().remove(key),
                    Err(e) => {
                        &&& e.kind == ErrorKind::NotFound || e.kind == ErrorKind::InternalError
                            || e.kind == ErrorKind::IoError
                        &&& e.kind == ErrorKind::NotFound ==> !old(self).records().contains_key(key)
                        &&& e.kind == ErrorKind::InternalError ==> old(self).records().contains_key(
                            key,
                        ) && !record_well_formed(old(self).records()[key])
                        &&& e.kind != ErrorKind::IoError ==> final(self).records() == old(
                            self,
                        ).records()
                    },
                }
            }),
            final(self).spec_root_path() == old(self).spec_root_path(),
    {
        let parts = match self.get(name, collection) {
            Ok(p) => p,
            Err(e) => {
                return Err(e);
            },
        };
        let key = make_key(name, collection);
        match db_remove(&mut self.storage_db, &key) {
            Ok(()) => Ok(parts.1),
            Err(_) => Err(
                GodataError::new(
                    ErrorKind::IoError,
                    String::from_str("could not update the registry"),
                ),
            ),
        }
    }

    /// The stored keys, read as text: every key of the store's model is
    /// among them.  Fails only when the store cannot be read.
    pub fn keys(&self) -> (r: Result<Vec<String>, GodataError>)
        ensures
            r matches Ok(keys) ==> forall|k: Seq<char>|
                self.records().contains_key(k) ==> keys.deep_view().contains(k),
            r matches Err(e) ==> e.kind == ErrorKind::IoError,
    {
        match db_keys(&self.storage_db) {
            Ok(keys) => Ok(keys),
            Err(_) => Err(
                GodataError::new(
                    ErrorKind::IoError,
                    String::from_str("could not read the registry"),
                ),
            ),
        }
    }
}

} // verus!
