//! The library's cross-function guarantees, each proved from the public
//! contracts' state descriptions: what a lookup finds after a link, what is
//! left after a removal or a move, and how creation, deletion and loading of
//! projects compose.

use vstd::prelude::*;
use crate::registry::{
    record_key, record_value, record_well_formed, record_endpoint, record_root,
    lemma_record_round_trip,
};
use crate::manager::local_kind;
use crate::paths::{
    joined_path, is_under, lemma_joined_is_under, spec_strip, spec_resolve, skip_seps,
    lemma_skip_seps,
};
use crate::strutil::has_char;
use crate::tree::{
    EntryView, KindView, has_path, kind_at, idx_of, is_file_at, is_folder_at, file_physical,
    tree_wf, paths_distinct, ancestors_clear, missing_folders, children_of, lemma_kind_at,
    lemma_remove_effect, lemma_update_effect,
};

verus! {

/// The endpoint kind written at creation holds no field separator.
pub proof fn lemma_local_kind_clean()
    ensures
        !has_char(local_kind(), ':'),
{
    reveal_strlit("local");
    assert forall|i: int| 0 <= i < local_kind().len() implies local_kind()[i] != ':' by {}
}

/// Law: a project created successfully is immediately loadable.  The record
/// a creation writes (for any root free of the field separator, which
/// creation enforces) is present and decodes back to the local endpoint kind
/// and the chosen root, which is exactly the condition under which loading
/// succeeds.
pub proof fn lemma_create_then_load(
    db: Map<Seq<char>, Seq<char>>,
    name: Seq<char>,
    collection: Seq<char>,
    root: Seq<char>,
)
    requires
        !has_char(root, ':'),
    ensures
        ({
            let key = record_key(name, collection);
            let db1 = db.insert(key, record_value(local_kind(), root));
            &&& db1.contains_key(key)
            &&& record_well_formed(db1[key])
            &&& record_endpoint(db1[key]) == local_kind()
            &&& record_root(db1[key]) == root
        }),
{
    lemma_local_kind_clean();
    lemma_record_round_trip(local_kind(), root);
}

/// Law: a freshly loaded project lists nothing, and before any link no path
/// exists in it.
pub proof fn lemma_fresh_tree_lists_nothing(pp: Seq<Seq<char>>)
    ensures
        children_of(Seq::<EntryView>::empty(), pp) == Seq::<EntryView>::empty(),
        !has_path(Seq::<EntryView>::empty(), pp),
{
    reveal(Seq::filter);
}

/// The entry appended last is the one a lookup of its path finds.
pub proof fn lemma_last_entry(a: Seq<EntryView>, e: EntryView)
    requires
        paths_distinct(a + seq![e]),
    ensures
        has_path(a + seq![e], e.path),
        kind_at(a + seq![e], e.path) == e.kind,
        idx_of(a + seq![e], e.path) == a.len(),
{
    let t = a + seq![e];
    assert(t[a.len() as int] == e);
    assert(has_path(t, e.path));
    let j = idx_of(t, e.path);
    if j != a.len() {
        assert(t[j].path != t[a.len() as int].path);
    }
}

/// Every implicit folder created for an insertion at `pp` sits at a strict
/// prefix of `pp`.
pub proof fn lemma_missing_folders_paths(s: Seq<EntryView>, pp: Seq<Seq<char>>, k: int)
    requires
        0 <= k,
    ensures
        forall|a: int|
            0 <= a < missing_folders(s, pp, k).len() ==> exists|j: int|
                k <= j < pp.len() && (#[trigger] missing_folders(s, pp, k)[a]).path == pp.take(j),
    decreases pp.len() - k,
{
    if k < pp.len() {
        lemma_missing_folders_paths(s, pp, k + 1);
        let mf = missing_folders(s, pp, k);
        let rest = missing_folders(s, pp, k + 1);
        assert forall|a: int| 0 <= a < mf.len() implies exists|j: int|
            k <= j < pp.len() && (#[trigger] mf[a]).path == pp.take(j) by {
            if has_path(s, pp.take(k)) {
                assert(mf[a] == rest[a]);
                let j = choose|j: int| k + 1 <= j < pp.len() && rest[a].path == pp.take(j);
                assert(mf[a].path == pp.take(j));
            } else {
                if a == 0 {
                    assert(mf[0].path == pp.take(k));
                } else {
                    assert(mf[a] == rest[a - 1]);
                    let j = choose|j: int| k + 1 <= j < pp.len() && rest[a - 1].path == pp.take(j);
                    assert(mf[a].path == pp.take(j));
                }
            }
        }
    }
}

/// Law: a linked path exists as soon as it is linked, and a lookup returns
/// exactly the physical path that was linked.  The state a fresh link leaves
/// behind holds a file entry at the path whose physical target is the linked
/// source.
pub proof fn lemma_exists_after_add(
    s0: Seq<EntryView>,
    s1: Seq<EntryView>,
    pp: Seq<Seq<char>>,
    src: Seq<char>,
)
    requires
        tree_wf(s1),
        s1 == s0 + missing_folders(s0, pp, 1) + seq![
            EntryView { path: pp, kind: KindView::File { physical: src } },
        ],
    ensures
        has_path(s1, pp),
        is_file_at(s1, pp),
        file_physical(kind_at(s1, pp)) == src,
{
    let e = EntryView { path: pp, kind: KindView::File { physical: src } };
    let a = s0 + missing_folders(s0, pp, 1);
    assert(s1 == a + seq![e]);
    lemma_last_entry(a, e);
}

/// Law: a physical location produced by the endpoint's path generation is
/// internal, so a file linked at the generated location reads back as an
/// internal entry, while any other source reads back as it was given.
pub proof fn lemma_generated_link_is_internal(
    s0: Seq<EntryView>,
    s1: Seq<EntryView>,
    pp: Seq<Seq<char>>,
    root: Seq<char>,
    src: Seq<char>,
)
    requires
        tree_wf(s1),
        s1 == s0 + missing_folders(s0, pp, 1) + seq![
            EntryView { path: pp, kind: KindView::File { physical: src } },
        ],
    ensures
        file_physical(kind_at(s1, pp)) == src,
        src == joined_path(root, pp) ==> is_under(root, file_physical(kind_at(s1, pp))),
{
    lemma_exists_after_add(s0, s1, pp, src);
    if src == joined_path(root, pp) {
        lemma_joined_is_under(root, pp);
    }
}

/// Law: a removed path no longer exists.
pub proof fn lemma_removed_is_absent(s: Seq<EntryView>, pp: Seq<Seq<char>>)
    requires
        tree_wf(s),
        has_path(s, pp),
    ensures
        !has_path(s.remove(idx_of(s, pp)), pp),
{
    let i = idx_of(s, pp);
    assert(0 <= i < s.len() && s[i].path == pp);
    lemma_remove_effect(s, i);
}

/// Law: creating a project twice without force collides the second time,
/// and recreating it with force leaves exactly the state of a fresh
/// creation.  The first creation makes the key present (so the second
/// creation's collision branch applies), and removing then rewriting the key
/// equals writing it over the old state directly.
pub proof fn lemma_create_twice(
    db: Map<Seq<char>, Seq<char>>,
    name: Seq<char>,
    collection: Seq<char>,
    root1: Seq<char>,
    root2: Seq<char>,
)
    ensures
        ({
            let key = record_key(name, collection);
            let db1 = db.insert(key, record_value(local_kind(), root1));
            &&& db1.contains_key(key)
            &&& db1.remove(key).insert(key, record_value(local_kind(), root2)) == db1.insert(
                key,
                record_value(local_kind(), root2),
            )
        }),
{
    let key = record_key(name, collection);
    let db1 = db.insert(key, record_value(local_kind(), root1));
    assert(db1.remove(key).insert(key, record_value(local_kind(), root2)) =~= db1.insert(
        key,
        record_value(local_kind(), root2),
    ));
}

/// Law: forcing a new link over an existing file replaces the entry in
/// place; the entry that stood there held the first link's source, which is
/// what the forced call reports as the previous physical path, and the
/// replaced state holds the second source.
pub proof fn lemma_overwrite_reports_previous(
    s0: Seq<EntryView>,
    s1: Seq<EntryView>,
    pp: Seq<Seq<char>>,
    src1: Seq<char>,
    src2: Seq<char>,
)
    requires
        tree_wf(s1),
        s1 == s0 + missing_folders(s0, pp, 1) + seq![
            EntryView { path: pp, kind: KindView::File { physical: src1 } },
        ],
    ensures
        file_physical(kind_at(s1, pp)) == src1,
        ({
            let s2 = s1.update(
                idx_of(s1, pp),
                EntryView { path: pp, kind: KindView::File { physical: src2 } },
            );
            &&& tree_wf(s2)
            &&& is_file_at(s2, pp)
            &&& file_physical(kind_at(s2, pp)) == src2
        }),
{
    lemma_exists_after_add(s0, s1, pp, src1);
    let i = idx_of(s1, pp);
    let e2 = EntryView { path: pp, kind: KindView::File { physical: src2 } };
    assert(0 <= i < s1.len() && s1[i].path == pp);
    assert(s1[i].kind == kind_at(s1, pp));
    lemma_update_effect(s1, i, e2);
    lemma_kind_at(s1.update(i, e2), i);
}

/// Law: deleting a project removes its record, so an immediate load fails
/// with no record found.
pub proof fn lemma_delete_then_load(
    db: Map<Seq<char>, Seq<char>>,
    name: Seq<char>,
    collection: Seq<char>,
)
    ensures
        !db.remove(record_key(name, collection)).contains_key(record_key(name, collection)),
{
}

/// Law: after a folder link, the link point is a folder carrying the source
/// directory, and with a recursive link every snapshot entry stands below it
/// under its own relative path, with the kind and external physical target
/// the snapshot gave it.
pub proof fn lemma_folder_link_contents(
    s0: Seq<EntryView>,
    sf: Seq<EntryView>,
    pp: Seq<Seq<char>>,
    source: Seq<char>,
    used: Seq<crate::tree::ItemView>,
    i: int,
)
    requires
        tree_wf(sf),
        sf == s0 + missing_folders(s0, pp, 1) + seq![
            EntryView { path: pp, kind: KindView::Folder { source: Some(source) } },
        ] + used.map_values(|it: crate::tree::ItemView| crate::tree::linked_entry(pp, source, it)),
        0 <= i < used.len(),
    ensures
        is_folder_at(sf, pp),
        kind_at(sf, pp) == (KindView::Folder { source: Some(source) }),
        has_path(sf, pp + used[i].rel),
        kind_at(sf, pp + used[i].rel) == crate::tree::linked_entry(pp, source, used[i]).kind,
{
    let top = EntryView { path: pp, kind: KindView::Folder { source: Some(source) } };
    let mf = missing_folders(s0, pp, 1);
    let base = s0 + mf + seq![top];
    let e = crate::tree::linked_entry(pp, source, used[i]);
    assert(sf[(s0 + mf).len() as int] == top);
    lemma_kind_at(sf, (s0 + mf).len() as int);
    assert(sf[base.len() + i] == used.map_values(
        |it: crate::tree::ItemView| crate::tree::linked_entry(pp, source, it),
    )[i]);
    assert(sf[base.len() + i] == e);
    lemma_kind_at(sf, base.len() + i);
}

/// Law: root-joining the relative remainder of a contained path never
/// escapes the root, and round-trips exactly: the root itself comes back as
/// the root, and a path one separator below the root comes back unchanged
/// (a run of extra separators is normalized to one).
pub proof fn lemma_strip_resolve_round_trip(root: Seq<char>, p: Seq<char>)
    requires
        is_under(root, p),
    ensures
        ({
            let rel = spec_strip(root, p);
            let back = spec_resolve(root, rel);
            &&& is_under(root, back)
            &&& (p == root ==> back == root)
            &&& (p.len() > root.len() + 1 && p[root.len() as int + 1] != '/' ==> back == p)
        }),
{
    lemma_skip_seps(p, root.len() as int);
    let cut = skip_seps(p, root.len() as int);
    let rel = spec_strip(root, p);
    let back = spec_resolve(root, rel);
    assert(rel == p.skip(cut));
    if rel.len() > 0 {
        assert(rel[0] == p[cut]);
        assert(rel[0] != '/');
        assert(back == root + seq!['/'] + rel);
        assert(back.subrange(0, root.len() as int) =~= root);
        assert(back[root.len() as int] == '/');
    }
    if p == root {
        assert(cut == root.len());
        assert(rel.len() == 0);
    }
    if p.len() > root.len() + 1 && p[root.len() as int + 1] != '/' {
        assert(p[root.len() as int] == '/');
        assert(cut == root.len() + 1);
        assert(rel.len() > 0);
        assert(back =~= p);
    }
}

/// Law: a move relocates the entry: afterwards the destination names a file
/// holding the moved physical target and the source path no longer exists;
/// and a refused move leaves the tree as it stood (the operation's contract
/// keeps the state unchanged on every failure).
pub proof fn lemma_move_relocates(
    s0: Seq<EntryView>,
    sf: Seq<EntryView>,
    ps: Seq<Seq<char>>,
    pd: Seq<Seq<char>>,
    np: Seq<char>,
)
    requires
        tree_wf(s0),
        tree_wf(sf),
        is_file_at(s0, ps),
        pd.len() > 0,
        pd != ps,
        ancestors_clear(s0, pd),
        has_path(s0, pd) ==> is_file_at(s0, pd),
        ({
            let s1 = s0.remove(idx_of(s0, ps));
            let s2 = if has_path(s0, pd) {
                s1.remove(idx_of(s1, pd))
            } else {
                s1
            };
            sf == s2 + missing_folders(s2, pd, 1) + seq![
                EntryView { path: pd, kind: KindView::File { physical: np } },
            ]
        }),
    ensures
        is_file_at(sf, pd),
        file_physical(kind_at(sf, pd)) == np,
        !has_path(sf, ps),
{
    let e = EntryView { path: pd, kind: KindView::File { physical: np } };
    let i = idx_of(s0, ps);
    assert(0 <= i < s0.len() && s0[i].path == ps);
    let s1 = s0.remove(i);
    lemma_remove_effect(s0, i);
    let s2 = if has_path(s0, pd) {
        s1.remove(idx_of(s1, pd))
    } else {
        s1
    };
    if has_path(s0, pd) {
        assert(has_path(s1, pd));
        let j = idx_of(s1, pd);
        assert(0 <= j < s1.len() && s1[j].path == pd);
        lemma_remove_effect(s1, j);
    }
    assert(!has_path(s2, ps));
    let a = s2 + missing_folders(s2, pd, 1);
    assert(sf == a + seq![e]);
    lemma_last_entry(a, e);
    // the source path is not among the created folders: it would have to be
    // a strict prefix of the destination, where a file cannot stand
    lemma_missing_folders_paths(s2, pd, 1);
    assert forall|k: int| 1 <= k < pd.len() implies pd.take(k) != ps by {
        if pd.take(k) == ps {
            assert(has_path(s0, pd.take(k)));
            assert(is_folder_at(s0, pd.take(k)));
            assert(kind_at(s0, ps) is File);
        }
    }
    if has_path(sf, ps) {
        let b = choose|b: int| 0 <= b < sf.len() && sf[b].path == ps;
        if b < s2.len() {
            assert(s2[b].path == ps);
            assert(has_path(s2, ps));
        } else if b < a.len() {
            let mf = missing_folders(s2, pd, 1);
            assert(sf[b] == mf[b - s2.len()]);
            let j = choose|j: int| 1 <= j < pd.len() && mf[b - s2.len()].path == pd.take(j);
            assert(pd.take(j) == ps);
        } else {
            assert(sf[b] == e);
            assert(pd == ps);
        }
    }
}

} // verus!

