use mvts::error::Error;
use mvts::path::get_parent;
use mvts::path::join;
use mvts::path::move_path;
use mvts::path::normalize;
use mvts::path::parse_path;
use mvts::path::render_path;

#[test]
fn move_0() {
    let file = parse_path("/a/b/c");
    let source = parse_path("/a/b");
    let target = parse_path("/a/z");
    let result = move_path(&file, &source, &target);
    assert_eq!(result.map(|p| render_path(&p)), Some("/a/z/c".to_string()));
}

#[test]
fn move_1() {
    let file = parse_path("a/b/c");
    let source = parse_path("a/b");
    let target = parse_path("a/z");
    let result = move_path(&file, &source, &target);
    assert_eq!(result.map(|p| render_path(&p)), Some("a/z/c".to_string()));
}

#[test]
fn move_2() {
    let file = parse_path("x/b/c");
    let source = parse_path("a/b");
    let target = parse_path("a/z");
    let result = move_path(&file, &source, &target);
    assert!(result.is_none());
}

#[test]
fn move_3() {
    let file = parse_path("a/b/c/d");
    let source = parse_path("a");
    let target = parse_path("z");
    let result = move_path(&file, &source, &target);
    assert_eq!(result.map(|p| render_path(&p)), Some("z/b/c/d".to_string()));
}

#[test]
fn move_4() {
    let file = parse_path("src/some/juuh.ts");
    let source = parse_path("src/other/juuh.ts");
    let target = parse_path("src/other/elikkas.ts");
    let result = move_path(&file, &source, &target);
    assert!(result.is_none());
}

#[test]
fn move_5() {
    let file = parse_path("src/some/juuh.ts");
    let source = parse_path("src/some");
    let target = parse_path("src/other");
    let result = move_path(&file, &source, &target);
    assert_eq!(result.map(|p| render_path(&p)), Some("src/other/juuh.ts".to_string()));
}

#[test]
fn strips_0() {
    let p = parse_path("a/b/../c");
    assert_eq!(render_path(&normalize(&p).unwrap()), "a/c");
}

#[test]
fn strips_1() {
    let p = parse_path("a/b/./../c");
    assert_eq!(render_path(&normalize(&p).unwrap()), "a/c");
}

#[test]
fn strips_2() {
    let p = parse_path("a/b/./../c/d");
    assert_eq!(render_path(&normalize(&p).unwrap()), "a/c/d");
}

#[test]
fn strips_3() {
    let p = parse_path("a/b/./../c/d/e/../f");
    assert_eq!(render_path(&normalize(&p).unwrap()), "a/c/d/f");
}

#[test]
fn strips_4() {
    let p = parse_path("/a/b/./../c/d/e/../f");
    assert_eq!(render_path(&normalize(&p).unwrap()), "/a/c/d/f");
}

#[test]
fn strips_5() {
    let p = parse_path("/a/b/./../c/d/e/../f.svg");
    assert_eq!(render_path(&normalize(&p).unwrap()), "/a/c/d/f.svg");
}

#[test]
fn normalize_rejects_escape_above_start() {
    let p = parse_path("../a");
    assert_eq!(normalize(&p).unwrap_err(), Error::PathEscapesRoot);
}

#[test]
fn normalize_rejects_escape_above_root() {
    let p = parse_path("/..");
    assert_eq!(normalize(&p).unwrap_err(), Error::PathEscapesRoot);
}

#[test]
fn normalize_twice_equals_once() {
    let p = parse_path("a/b/../c/./d");
    let once = normalize(&p).unwrap();
    let twice = normalize(&once).unwrap();
    assert_eq!(render_path(&once), render_path(&twice));
    assert_eq!(render_path(&once), "a/c/d");
}

#[test]
fn get_parent_drops_last_segment() {
    let p = parse_path("/a/b/c.ts");
    assert_eq!(render_path(&get_parent(&p)), "/a/b");
    let root = parse_path("/");
    assert_eq!(render_path(&get_parent(&root)), "/");
    let empty = parse_path("");
    assert_eq!(render_path(&get_parent(&empty)), "");
}

#[test]
fn join_appends_and_normalizes() {
    let dir = parse_path("a/b");
    let rel = parse_path("../c");
    assert_eq!(render_path(&join(&dir, &rel).unwrap()), "a/c");
    let abs = parse_path("/x/y");
    assert_eq!(render_path(&join(&dir, &abs).unwrap()), "/x/y");
}

#[test]
fn parse_and_render_round_trip() {
    assert_eq!(render_path(&parse_path("/src/a//b/")), "/src/a/b");
    assert_eq!(render_path(&parse_path("./x/y.ts")), "./x/y.ts");
    assert_eq!(render_path(&parse_path("")), "");
    assert_eq!(render_path(&parse_path("/")), "/");
}
