//! The storage-endpoint abstraction: the strategy that maps a project's
//! virtual paths to physical locations for one backend.  The local-disk
//! endpoint is pure path arithmetic; the physical move, copy and delete
//! operations return the resolved locations, and the surrounding program
//! performs the filesystem calls on them.

use vstd::prelude::*;
use vstd::string::*;
use crate::errors::{ErrorKind, GodataError};
use crate::paths::{
    is_under, joined_path, path_segments, path_is_under, split_path, join_under, strip_root,
    spec_strip, spec_resolve, lemma_joined_is_under,
};
use crate::strutil::str_concat;

verus! {

/// The physical location an internal entry at virtual path `vp` would use
/// under `root`.
pub open spec fn spec_generate(root: Seq<char>, vp: Seq<char>) -> Seq<char> {
    joined_path(root, path_segments(vp))
}

/// Position `k` holds the dot that starts the extension of `p`: the last `.`
/// of the final path component, not standing at that component's start (a
/// leading dot names a hidden file, not an extension).
pub open spec fn is_extension_dot(p: Seq<char>, k: int) -> bool {
    &&& 0 < k < p.len()
    &&& p[k] == '.'
    &&& p[k - 1] != '/'
    &&& forall|j: int| k < j < p.len() ==> p[j] != '.' && p[j] != '/'
}

/// The stem of `p`: `p` without its `.extension`, when its final component
/// has one.
pub open spec fn spec_stem(p: Seq<char>) -> Seq<char> {
    if exists|k: int| is_extension_dot(p, k) {
        p.take(choose|k: int| is_extension_dot(p, k))
    } else {
        p
    }
}

/// A local-disk storage endpoint, parameterized by the project's physical
/// root directory.
#[derive(Debug)]
pub struct LocalEndpoint {
    pub root_path: String,
}

impl LocalEndpoint {
    pub fn new(root_path: String) -> (r: LocalEndpoint)
        ensures
            r.root_path == root_path,
    {
        LocalEndpoint { root_path }
    }

    /// The deterministic physical location an internal entry at
    /// `project_path` would live at; creates nothing.
    pub fn generate_path(&self, project_path: &str) -> (r: Result<String, GodataError>)
        ensures
            r matches Ok(p) && p@ == spec_generate(self.root_path@, project_path@),
    {
        let segs = split_path(project_path);
        Ok(join_under(self.root_path.as_str(), &segs))
    }

    /// Whether a physical path lies within this endpoint's root.
    pub fn is_internal(&self, path: &str) -> (r: bool)
        ensures
            r == is_under(self.root_path@, path@),
    {
        path_is_under(self.root_path.as_str(), path)
    }

    /// The local disk is always reachable.
    pub fn is_available(&self) -> (r: Result<(), GodataError>)
        ensures
            r is Ok,
    {
        Ok(())
    }

    /// The physical file a caller-side write at `project_path` with the given
    /// extension would have produced.  The caller reports with `present`
    /// whether that file exists on disk; absent files are a `NotFound`.
    pub fn discover_file(&self, project_path: &str, file_extension: &str, present: bool) -> (r:
        Result<String, GodataError>)
        ensures
            present ==> (r matches Ok(p) && p@ == spec_with_extension(
                spec_generate(self.root_path@, project_path@),
                file_extension@,
            )),
            !present ==> (r matches Err(e) && e.kind == ErrorKind::NotFound),
    {
        let base = match self.generate_path(project_path) {
            Ok(p) => p,
            Err(e) => {
                return Err(e);
            },
        };
        if present {
            Ok(with_extension(base.as_str(), file_extension))
        } else {
            Err(GodataError::new(
                ErrorKind::NotFound,
                String::from_str("file with that extension not found in the project path"),
            ))
        }
    }

    /// Resolves the source and destination of a physical move between two
    /// virtual paths; the caller performs the rename on the returned pair.
    pub fn move_file(&self, from: &str, to: &str) -> (r: Result<(String, String), GodataError>)
        ensures
            r matches Ok(p) && p.0@ == spec_generate(self.root_path@, from@) && p.1@
                == spec_generate(self.root_path@, to@),
    {
        let f = match self.generate_path(from) {
            Ok(p) => p,
            Err(e) => {
                return Err(e);
            },
        };
        let t = match self.generate_path(to) {
            Ok(p) => p,
            Err(e) => {
                return Err(e);
            },
        };
        Ok((f, t))
    }

    /// Resolves the source and destination of a physical copy between two
    /// virtual paths; the caller performs the copy on the returned pair.
    pub fn copy_file(&self, from: &str, to: &str) -> (r: Result<(String, String), GodataError>)
        ensures
            r matches Ok(p) && p.0@ == spec_generate(self.root_path@, from@) && p.1@
                == spec_generate(self.root_path@, to@),
    {
        self.move_file(from, to)
    }

    /// Resolves the physical file a delete of `path` removes; the caller
    /// unlinks it and prunes its parent directory if that became empty.
    pub fn delete_file(&self, path: &str) -> (r: Result<String, GodataError>)
        ensures
            r matches Ok(p) && p@ == spec_generate(self.root_path@, path@),
    {
        self.generate_path(path)
    }

    /// Best-effort inverse of `generate_path`: strips the root and the
    /// separators after it from a contained path, so the remainder never
    /// begins with one; any other path passes through unchanged.
    pub fn get_relative_path(&self, path: &str) -> (r: String)
        ensures
            r@ == spec_strip(self.root_path@, path@),
            is_under(self.root_path@, path@) ==> r@.len() == 0 || r@[0] != '/',
    {
        strip_root(self.root_path.as_str(), path)
    }

    /// Root-joins a relative path: the empty path resolves to the root
    /// itself, and an absolute path passes through unchanged.
    pub fn resolve(&self, relpath: &str) -> (r: String)
        ensures
            r@ == spec_resolve(self.root_path@, relpath@),
    {
        proof {
            reveal_strlit("/");
        }
        if relpath.unicode_len() == 0 {
            return self.root_path.clone();
        }
        if relpath.get_char(0) == '/' {
            String::from_str(relpath)
        } else {
            let joined = str_concat(self.root_path.as_str(), "/");
            str_concat(joined.as_str(), relpath)
        }
    }

    /// An internal placement for a non-root virtual path always lies under
    /// the root.
    pub proof fn lemma_generated_is_internal(root: Seq<char>, vp: Seq<char>)
        ensures
            is_under(root, spec_generate(root, vp)),
    {
        lemma_joined_is_under(root, path_segments(vp));
    }
}

/// `name` with its extension replaced by `ext`: the stem of the last
/// path component, a dot, then `ext`.
pub open spec fn spec_with_extension(p: Seq<char>, ext: Seq<char>) -> Seq<char> {
    spec_stem(p) + seq!['.'] + ext
}

/// Replaces the extension of the final component of `p` with `ext`.
fn with_extension(p: &str, ext: &str) -> (r: String)
    ensures
        r@ == spec_with_extension(p@, ext@),
{
    proof {
        reveal_strlit(".");
    }
    let stem = path_stem(p);
    let dotted = str_concat(stem.as_str(), ".");
    str_concat(dotted.as_str(), ext)
}

/// The stem of `p`: `p` without its trailing `.extension`, if any.
fn path_stem(p: &str) -> (r: String)
    ensures
        r@ == spec_stem(p@),
{
    let n = p.unicode_len();
    // scan backward through the final component for its last '.'
    let mut i: usize = n;
    while i > 1
        invariant
            n == p@.len(),
            1 <= i <= n || (i == n && n == 0),
            forall|j: int| i <= j < n ==> p@[j] != '.' && p@[j] != '/',
        decreases i,
    {
        let c = p.get_char(i - 1);
        if c == '/' {
            proof {
                assert forall|k: int| !is_extension_dot(p@, k) by {
                    if 0 < k < p@.len() && p@[k] == '.' {
                        assert(k < i - 1 || k >= i);
                        if k < i - 1 {
                            assert(p@[i as int - 1] == '/');
                        }
                    }
                }
            }
            return String::from_str(p);
        }
        if c == '.' {
            if p.get_char(i - 2) == '/' {
                proof {
                    assert forall|k: int| !is_extension_dot(p@, k) by {
                        if 0 < k < p@.len() && p@[k] == '.' && p@[k - 1] != '/' {
                            assert(k != i - 1);
                            assert(k < i - 1 || k >= i);
                            if k < i - 1 {
                                assert(p@[i as int - 1] == '.');
                            }
                        }
                    }
                }
                return String::from_str(p);
            }
            let stem = p.substring_char(0, i - 1);
            proof {
                let k = i as int - 1;
                assert(is_extension_dot(p@, k));
                let kk = choose|kk: int| is_extension_dot(p@, kk);
                if kk != k {
                    if kk < k {
                        assert(p@[k] == '.');
                    } else {
                        assert(p@[kk] == '.');
                    }
                }
                assert(p@.subrange(0, k) =~= spec_stem(p@));
            }
            return String::from_str(stem);
        }
        i -= 1;
    }
    proof {
        assert forall|k: int| !is_extension_dot(p@, k) by {
            if 0 < k < p@.len() {
                assert(p@[k] != '.');
            }
        }
    }
    String::from_str(p)
}

} // verus!
