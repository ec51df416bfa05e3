use mvts::error::Error;
use mvts::import_string::RequiredFileRename;
use mvts::import_string::SourceFileRename;
use mvts::import_string::from_paths;
use mvts::import_string::is_import_from;
use mvts::import_string::rename_required_file;
use mvts::import_string::rename_source_file;
use mvts::import_string::to_node_import;
use mvts::import_string::to_path;
use mvts::path::normalize;
use mvts::path::parse_path;
use mvts::path::render_path;

#[test]
fn to_node_import_test_00() {
    assert_eq!(to_node_import("./a/b.ts"), "./a/b");
}

#[test]
fn to_node_import_test_01() {
    assert_eq!(to_node_import("./a/b.tsx"), "./a/b");
}

#[test]
fn to_node_import_test_02() {
    assert_eq!(to_node_import("./a/b.js"), "./a/b");
}

#[test]
fn to_node_import_test_03() {
    assert_eq!(to_node_import("./a/b.jsx"), "./a/b");
}

#[test]
fn to_node_import_test_04() {
    assert_eq!(to_node_import("./a/b.svg"), "./a/b.svg");
}

#[test]
fn to_node_import_test_05() {
    assert_eq!(to_node_import("./a/index.svg"), "./a/index.svg");
}

#[test]
fn to_node_import_test_06() {
    assert_eq!(to_node_import("./a/index.ts"), "./a");
}

#[test]
fn to_node_import_test_07() {
    assert_eq!(to_node_import("./a/b/index.jsx"), "./a/b");
}

#[test]
fn to_node_import_test_08() {
    assert_eq!(to_node_import("../b/index.jsx"), "../b");
}

#[test]
fn to_node_import_strips_only_at_the_end() {
    assert_eq!(to_node_import("./index.ts.svg"), "./index.ts.svg");
    assert_eq!(to_node_import("./a.ts/b"), "./a.ts/b");
    assert_eq!(to_node_import("xindex.ts"), "x");
}

#[test]
fn rename_to_new_file_00() {
    let old_file = parse_path("a/old.ts");
    let new_file = parse_path("a/new.ts");
    let args = SourceFileRename {
        old_location: &old_file,
        new_location: &new_file,
        import_string: "./index",
    };
    assert_eq!(rename_source_file(&args).unwrap(), "./index");
}

#[test]
fn rename_to_new_file_01() {
    let old_file = parse_path("a/old.ts");
    let new_file = parse_path("a/new.ts");
    let args = SourceFileRename {
        old_location: &old_file,
        new_location: &new_file,
        import_string: "./index.ts",
    };
    assert_eq!(rename_source_file(&args).unwrap(), "./index.ts");
}

#[test]
fn rename_to_new_file_02() {
    let old_file = parse_path("a/old.ts");
    let new_file = parse_path("a/new.ts");
    let args = SourceFileRename {
        old_location: &old_file,
        new_location: &new_file,
        import_string: "./some.svg",
    };
    assert_eq!(rename_source_file(&args).unwrap(), "./some.svg");
}

#[test]
fn rename_to_new_file_04() {
    let old_file = parse_path("a/old.ts");
    let new_file = parse_path("a/b/new.ts");
    let args = SourceFileRename {
        old_location: &old_file,
        new_location: &new_file,
        import_string: "./mod.ts",
    };
    assert_eq!(rename_source_file(&args).unwrap(), "../mod.ts");
}

#[test]
fn rename_to_new_file_05() {
    let old_file = parse_path("a/old.ts");
    let new_file = parse_path("a/new.ts");
    let args = SourceFileRename {
        old_location: &old_file,
        new_location: &new_file,
        import_string: "./x/y/z/index",
    };
    assert_eq!(rename_source_file(&args).unwrap(), "./x/y/z/index");
}

#[test]
fn rename_to_new_file_06() {
    let old_file = parse_path("a/old.ts");
    let new_file = parse_path("a/new.ts");
    let args = SourceFileRename {
        old_location: &old_file,
        new_location: &new_file,
        import_string: "./x/y/z/index.ts",
    };
    assert_eq!(rename_source_file(&args).unwrap(), "./x/y/z/index.ts");
}

#[test]
fn rename_to_new_file_07() {
    let old_file = parse_path("a/b/c/old.ts");
    let new_file = parse_path("a/x/y/z/new.ts");
    let args = SourceFileRename {
        old_location: &old_file,
        new_location: &new_file,
        import_string: "./s/t/u/file",
    };
    assert_eq!(rename_source_file(&args).unwrap(), "../../../b/c/s/t/u/file");
}

#[test]
fn rename_to_new_file_08() {
    let old_file = parse_path("a/b/c/old.ts");
    let new_file = parse_path("a/x/y/z/new.ts");
    let args = SourceFileRename {
        old_location: &old_file,
        new_location: &new_file,
        import_string: "./s/t/u/file.jsx",
    };
    assert_eq!(rename_source_file(&args).unwrap(), "../../../b/c/s/t/u/file.jsx");
}

#[test]
fn rename_to_new_file_09() {
    let old_file = parse_path("a/b/c/old.ts");
    let new_file = parse_path("a/x/y/z/new.ts");
    let args = SourceFileRename {
        old_location: &old_file,
        new_location: &new_file,
        import_string: "./s/t/u/file.svg",
    };
    assert_eq!(rename_source_file(&args).unwrap(), "../../../b/c/s/t/u/file.svg");
}

#[test]
fn rename_to_new_file_10() {
    let old_file = parse_path("a/b/c/old.ts");
    let new_file = parse_path("a/x/y/z/new.ts");
    let args = SourceFileRename {
        old_location: &old_file,
        new_location: &new_file,
        import_string: "./s/t/u/index.ts",
    };
    assert_eq!(rename_source_file(&args).unwrap(), "../../../b/c/s/t/u/index.ts");
}

#[test]
fn rename_req_file_00() {
    let source_file = parse_path("a/source.ts");
    let old_location = parse_path("a/b/index.ts");
    let new_location = parse_path("a/b/c/index.ts");
    let args = RequiredFileRename {
        source_file: &source_file,
        import_string: "./b",
        old_location: &old_location,
        new_location: &new_location,
    };
    assert_eq!(rename_required_file(&args).unwrap(), "./b/c");
}

#[test]
fn rename_req_file_01() {
    let source_file = parse_path("a/source.ts");
    let old_location = parse_path("a/b/index.ts");
    let new_location = parse_path("a/b/c/index.ts");
    let args = RequiredFileRename {
        source_file: &source_file,
        import_string: "./b.ts",
        old_location: &old_location,
        new_location: &new_location,
    };
    assert_eq!(rename_required_file(&args).unwrap(), "./b.ts");
}

#[test]
fn rename_req_file_02() {
    let source_file = parse_path("a/source.ts");
    let old_location = parse_path("a/b.ts");
    let new_location = parse_path("a/b/c/index.ts");
    let args = RequiredFileRename {
        source_file: &source_file,
        import_string: "./b.ts",
        old_location: &old_location,
        new_location: &new_location,
    };
    assert_eq!(rename_required_file(&args).unwrap(), "./b/c/index.ts");
}

#[test]
fn rename_req_file_03() {
    let source_file = parse_path("a/b/source.ts");
    let old_location = parse_path("a/index.ts");
    let new_location = parse_path("a/b/c/index.ts");
    let args = RequiredFileRename {
        source_file: &source_file,
        import_string: "..",
        old_location: &old_location,
        new_location: &new_location,
    };
    assert_eq!(rename_required_file(&args).unwrap(), "./c");
}

#[test]
fn is_relative_import_to_0() {
    let source = parse_path("a/some_file.ts");
    let required = parse_path("a/index.ts");
    assert_eq!(is_import_from(&source, &required, "./index").unwrap(), true);
}

#[test]
fn is_relative_import_to_1() {
    let source = parse_path("a/some_file.ts");
    let required = parse_path("a/index.ts");
    assert_eq!(is_import_from(&source, &required, ".").unwrap(), true);
}

#[test]
fn is_relative_import_to_2() {
    let source = parse_path("a/b/some_file.ts");
    let required = parse_path("a/index.ts");
    assert_eq!(is_import_from(&source, &required, "..").unwrap(), true);
}

#[test]
fn is_relative_import_to_3() {
    let source = parse_path("a/b/some_file.ts");
    let required = parse_path("a/index.ts");
    assert_eq!(is_import_from(&source, &required, "../index.ts").unwrap(), true);
}

#[test]
fn is_relative_import_to_4() {
    let source = parse_path("a/b/some_file.ts");
    let required = parse_path("a/c/some.svg");
    assert_eq!(is_import_from(&source, &required, "../c/some.svg").unwrap(), true);
}

#[test]
fn is_import_from_rejects_other_files() {
    let source = parse_path("a/some_file.ts");
    let required = parse_path("a/index.ts");
    assert_eq!(is_import_from(&source, &required, "./other").unwrap(), false);
    assert_eq!(is_import_from(&source, &required, "react").unwrap(), false);
    assert_eq!(is_import_from(&source, &required, "./index/extra").unwrap(), false);
}

#[test]
fn gets_import_from_paths_0() {
    let path = parse_path("src/views/some/Juuh.tsx");
    let required = parse_path("src/store/index.ts");
    assert_eq!(from_paths(&path, &required).unwrap(), "../../store/index.ts");
}

#[test]
fn gets_import_from_paths_1() {
    let path = parse_path("some/index.ts");
    let required = parse_path("other/no/common");
    assert_eq!(from_paths(&path, &required).unwrap(), "../other/no/common");
}

#[test]
fn gets_import_from_paths_2() {
    let path = parse_path("index.ts");
    let required = parse_path("deeper/in/path");
    assert_eq!(from_paths(&path, &required).unwrap(), "./deeper/in/path");
}

#[test]
fn gets_import_from_paths_3() {
    let path = parse_path("lol.ts");
    let required = parse_path("index.ts");
    assert_eq!(from_paths(&path, &required).unwrap(), "./index.ts");
}

#[test]
fn gets_import_from_paths_4() {
    let path = parse_path("a/b/c/index.ts");
    let required = parse_path("a/b/c/d/index.tsx");
    assert_eq!(from_paths(&path, &required).unwrap(), "./d/index.tsx");
}

#[test]
fn from_paths_refuses_absolute_to_relative() {
    let path = parse_path("/a/b.ts");
    let required = parse_path("c.ts");
    assert_eq!(from_paths(&path, &required).unwrap_err(), Error::NoRelativePath);
}

#[test]
fn to_path_0() {
    let path = parse_path("a/b/c/file.ts");
    let result = to_path(&path, "../../other").unwrap();
    assert_eq!(render_path(&result), "a/other");
}

#[test]
fn to_path_1() {
    let path = parse_path("a/b/c/file.ts");
    let result = to_path(&path, ".").unwrap();
    assert_eq!(render_path(&result), "a/b/c");
}

#[test]
fn to_path_2() {
    let path = parse_path("a/b/c/file.ts");
    let result = to_path(&path, "./d/e").unwrap();
    assert_eq!(render_path(&result), "a/b/c/d/e");
}

#[test]
fn to_path_3() {
    let path = parse_path("a/b/c/file.ts");
    let result = to_path(&path, "../").unwrap();
    assert_eq!(render_path(&result), "a/b");
}

#[test]
fn to_path_4() {
    let path = parse_path("a/b/c/file.ts");
    let result = to_path(&path, "./index").unwrap();
    assert_eq!(render_path(&result), "a/b/c/index");
}

#[test]
fn to_path_escaping_the_root_fails() {
    let path = parse_path("a/file.ts");
    assert_eq!(to_path(&path, "../../x").unwrap_err(), Error::PathEscapesRoot);
}

#[test]
fn import_string_round_trip() {
    let file = parse_path("src/a/b.ts");
    let target = parse_path("src/c/d.ts");
    let import = from_paths(&file, &target).unwrap();
    assert_eq!(import, "../c/d.ts");
    let resolved = to_path(&file, &import).unwrap();
    assert_eq!(render_path(&resolved), render_path(&normalize(&target).unwrap()));
}
