use godata::endpoint::LocalEndpoint;
use godata::errors::ErrorKind;
use godata::server::{socket_path, tcp_url, u16_to_decimal};

fn ep() -> LocalEndpoint {
    LocalEndpoint::new(String::from("/store/proj"))
}

#[test]
fn generate_path_joins_segments() {
    let e = ep();
    assert_eq!(e.generate_path("a/b.txt").unwrap(), "/store/proj/a/b.txt");
    assert_eq!(e.generate_path("data").unwrap(), "/store/proj/data");
    assert_eq!(e.generate_path("").unwrap(), "/store/proj");
}

#[test]
fn generate_path_is_stable() {
    let e = ep();
    let first = e.generate_path("x/y").unwrap();
    let second = e.generate_path("x/y").unwrap();
    assert_eq!(first, second);
}

#[test]
fn is_internal_checks_containment() {
    let e = ep();
    assert!(e.is_internal("/store/proj/a"));
    assert!(e.is_internal("/store/proj"));
    assert!(!e.is_internal("/store/projx/a"));
    assert!(!e.is_internal("/elsewhere/a"));
    assert!(!e.is_internal("/store"));
}

#[test]
fn resolve_joins_relative_paths() {
    let e = ep();
    assert_eq!(e.resolve("sub/f.txt"), "/store/proj/sub/f.txt");
    assert_eq!(e.resolve("/abs/f.txt"), "/abs/f.txt");
    assert_eq!(e.resolve(""), "/store/proj");
}

#[test]
fn relative_path_strips_the_root() {
    let e = ep();
    assert_eq!(e.get_relative_path("/store/proj/a/b"), "a/b");
    assert_eq!(e.get_relative_path("/store/proj"), "");
    assert_eq!(e.get_relative_path("/store/proj//a"), "a");
    assert_eq!(e.get_relative_path("/outside/a"), "/outside/a");
}

#[test]
fn relative_and_resolve_round_trip() {
    let e = ep();
    assert_eq!(e.resolve(&e.get_relative_path("/store/proj/a/b")), "/store/proj/a/b");
    assert_eq!(e.resolve(&e.get_relative_path("/store/proj")), "/store/proj");
    // a run of separators normalizes to one, staying under the root
    assert_eq!(e.resolve(&e.get_relative_path("/store/proj//x")), "/store/proj/x");
}

#[test]
fn discover_file_swaps_the_extension() {
    let e = ep();
    assert_eq!(e.discover_file("data", "csv", true).unwrap(), "/store/proj/data.csv");
    assert_eq!(e.discover_file("notes.txt", "md", true).unwrap(), "/store/proj/notes.md");
    // a dot in a directory name is not an extension, nor is a leading dot
    assert_eq!(e.discover_file("v1.2/data", "csv", true).unwrap(), "/store/proj/v1.2/data.csv");
    assert_eq!(e.discover_file(".hidden", "bak", true).unwrap(), "/store/proj/.hidden.bak");
    let missing = e.discover_file("data", "csv", false);
    assert_eq!(missing.unwrap_err().kind(), ErrorKind::NotFound);
}

#[test]
fn move_file_resolves_both_ends() {
    let e = ep();
    let pair = e.move_file("a/from.txt", "b/to.txt").unwrap();
    assert_eq!(pair.0, "/store/proj/a/from.txt");
    assert_eq!(pair.1, "/store/proj/b/to.txt");
    let copy = e.copy_file("a", "b").unwrap();
    assert_eq!(copy.0, "/store/proj/a");
    assert_eq!(copy.1, "/store/proj/b");
}

#[test]
fn delete_file_resolves_the_target() {
    let e = ep();
    assert_eq!(e.delete_file("a/gone.txt").unwrap(), "/store/proj/a/gone.txt");
    assert!(e.is_available().is_ok());
}

#[test]
fn url_rendering() {
    assert_eq!(u16_to_decimal(0), "0");
    assert_eq!(u16_to_decimal(8080), "8080");
    assert_eq!(u16_to_decimal(65535), "65535");
    assert_eq!(tcp_url(3141), "localhost:3141");
    assert_eq!(socket_path("/home/me"), "/home/me/.godata.sock");
}
