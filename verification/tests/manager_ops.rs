use godata::errors::ErrorKind;
use godata::manager::ProjectManager;
use godata::registry::StorageManager;

fn manager() -> ProjectManager {
    let db = sled::Config::new().temporary(true).open().unwrap();
    ProjectManager::new(StorageManager::from_db(db, String::from("/store")))
}

#[test]
fn create_then_load() {
    let mut pm = manager();
    let out = pm.create_project("proj", "col", false, None).unwrap();
    assert_eq!(out.root, "/store/col/proj");
    assert_eq!(out.removed_root, None);
    let t = pm.load_project("proj", "col").unwrap();
    assert_eq!(t.list(None).unwrap().len(), 0);
}

#[test]
fn create_twice_without_force_collides() {
    let mut pm = manager();
    pm.create_project("proj", "col", false, None).unwrap();
    let again = pm.create_project("proj", "col", false, None);
    assert_eq!(again.unwrap_err().kind(), ErrorKind::AlreadyExists);
}

#[test]
fn create_with_force_resets() {
    let mut pm = manager();
    pm.create_project("proj", "col", false, None).unwrap();
    let out = pm.create_project("proj", "col", true, None).unwrap();
    assert_eq!(out.removed_root, Some(String::from("/store/col/proj")));
    let t = pm.load_project("proj", "col").unwrap();
    assert_eq!(t.list(None).unwrap().len(), 0);
}

#[test]
fn custom_storage_location() {
    let mut pm = manager();
    let out = pm
        .create_project("proj", "col", false, Some(String::from("/custom/spot")))
        .unwrap();
    assert_eq!(out.root, "/custom/spot");
    let bad = pm.create_project("other", "col", false, Some(String::from("bad:spot")));
    assert_eq!(bad.unwrap_err().kind(), ErrorKind::InternalError);
}

#[test]
fn separators_in_names_are_refused() {
    let mut pm = manager();
    let bad_name = pm.create_project("a/b", "col", false, None);
    assert_eq!(bad_name.unwrap_err().kind(), ErrorKind::InternalError);
    let bad_col = pm.create_project("proj", "c/d", false, None);
    assert_eq!(bad_col.unwrap_err().kind(), ErrorKind::InternalError);
    assert!(pm.get_collection_names(true).unwrap().is_empty());
}

#[test]
fn missing_projects_are_named_in_the_error() {
    let pm = manager();
    let gone = pm.load_project("nope", "col").unwrap_err();
    assert_eq!(gone.kind(), ErrorKind::NotFound);
    assert_eq!(gone.message, "storage information not found for project `col/nope`");
}

#[test]
fn delete_removes_the_record() {
    let mut pm = manager();
    pm.create_project("proj", "col", false, None).unwrap();
    let root = pm.delete_project("proj", "col", false).unwrap();
    assert_eq!(root, "/store/col/proj");
    let gone = pm.load_project("proj", "col");
    assert_eq!(gone.unwrap_err().kind(), ErrorKind::NotFound);
    let missing = pm.delete_project("proj", "col", false);
    assert_eq!(missing.unwrap_err().kind(), ErrorKind::NotFound);
}

#[test]
fn hidden_projects_need_force_to_delete() {
    let mut pm = manager();
    pm.create_project(".secret", "col", false, None).unwrap();
    let refused = pm.delete_project(".secret", "col", false);
    assert_eq!(refused.unwrap_err().kind(), ErrorKind::Forbidden);
    let root = pm.delete_project(".secret", "col", true).unwrap();
    assert_eq!(root, "/store/col/.secret");
}

#[test]
fn hidden_names_are_filtered_from_listings() {
    let mut pm = manager();
    pm.create_project("open", "col", false, None).unwrap();
    pm.create_project(".secret", "col", false, None).unwrap();
    pm.create_project("other", ".hidcol", false, None).unwrap();
    let visible = pm.get_project_names("col", false).unwrap();
    assert_eq!(visible, vec![String::from("open")]);
    let mut all = pm.get_project_names("col", true).unwrap();
    all.sort();
    assert_eq!(all, vec![String::from(".secret"), String::from("open")]);
    let cols = pm.get_collection_names(false).unwrap();
    assert_eq!(cols, vec![String::from("col")]);
    let mut every = pm.get_collection_names(true).unwrap();
    every.sort();
    assert_eq!(every, vec![String::from(".hidcol"), String::from("col")]);
}

#[test]
fn unknown_collection_is_not_found() {
    let mut pm = manager();
    pm.create_project("proj", "col", false, None).unwrap();
    let missing = pm.get_project_names("nope", false);
    assert_eq!(missing.unwrap_err().kind(), ErrorKind::NotFound);
}

#[test]
fn corrupt_records_are_reported() {
    let db = sled::Config::new().temporary(true).open().unwrap();
    db.insert("broken/col", "no-separator-here").unwrap();
    db.insert("doubled/col", "local:/a:/b").unwrap();
    db.insert("alien/col", "remote:/a").unwrap();
    let mut pm = ProjectManager::new(StorageManager::from_db(db, String::from("/store")));
    let broken = pm.load_project("broken", "col");
    assert_eq!(broken.unwrap_err().kind(), ErrorKind::InternalError);
    let doubled = pm.load_project("doubled", "col");
    assert_eq!(doubled.unwrap_err().kind(), ErrorKind::InternalError);
    let alien = pm.load_project("alien", "col");
    assert_eq!(alien.unwrap_err().kind(), ErrorKind::InternalError);
    // a corrupt record also blocks deletion and forced re-creation
    let removal = pm.delete_project("broken", "col", false);
    assert_eq!(removal.unwrap_err().kind(), ErrorKind::InternalError);
    let recreation = pm.create_project("broken", "col", true, None);
    assert_eq!(recreation.unwrap_err().kind(), ErrorKind::InternalError);
}

#[test]
fn records_survive_in_the_store() {
    let db = sled::Config::new().temporary(true).open().unwrap();
    {
        let mut pm = ProjectManager::new(
            StorageManager::from_db(db.clone(), String::from("/store")),
        );
        pm.create_project("proj", "col", false, None).unwrap();
    }
    // the manager is gone; inspect what its writes left behind
    let raw = db.get("proj/col").unwrap().unwrap();
    assert_eq!(raw.as_ref(), b"local:/store/col/proj");
}

#[test]
fn stored_records_are_read_back() {
    let db = sled::Config::new().temporary(true).open().unwrap();
    db.insert("proj/col", "local:/elsewhere/proj").unwrap();
    let pm = ProjectManager::new(StorageManager::from_db(db, String::from("/store")));
    let t = pm.load_project("proj", "col").unwrap();
    assert_eq!(t.generate_path("").unwrap(), "/elsewhere/proj");
}
