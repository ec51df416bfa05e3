use mvts::edit::MoveRecord;
use mvts::edit::RewriteRule;
use mvts::edit::infer_langauge_from_suffix;
use mvts::edit::replace_imports;
use mvts::edit::replace_rel_imports;
use mvts::edit::update_dependent_file;
use mvts::edit::update_import;
use mvts::edit::update_imports;
use mvts::edit::update_moved_file;
use mvts::error::Error;
use mvts::parser::Lang;
use mvts::path::parse_path;

#[test]
fn it_updates_imports_0() {
    let code: String = r#"
            import some from '../../some';
            import other from '../../other';
            function main() {
                console.log("hullo world");
            }
            "#
        .into();

    let source = parse_path("/src/a/b/c/d/source.ts");
    let target = parse_path("/src/a/b/c/d/e/target.ts");

    let new_source_code = update_imports(code, &source, &target).unwrap();

    let new_import_0: String = "import some from '../../../some';".into();
    let new_import_1: String = "import other from '../../../other';".into();

    assert!(new_source_code.contains(&new_import_0));
    assert!(new_source_code.contains(&new_import_1));
}

#[test]
fn it_updates_imports_1() {
    let code: String = r#"
            import some from '../../some';
            import other from '../../other';
            function main() {
                console.log("hullo world");
            }
            "#
        .into();

    let source = parse_path("/src/a/b/c/d/source.ts");
    let target = parse_path("/src/a/target.ts");

    let new_source_code = update_imports(code, &source, &target).unwrap();

    let new_import_0: String = "import some from './b/some';".into();
    let new_import_1: String = "import other from './b/other';".into();

    assert!(new_source_code.contains(&new_import_0));
    assert!(new_source_code.contains(&new_import_1));
}

#[test]
fn it_replaces_imports() {
    let code: String = r#"
            import some from '../../some';
            import other from '../../other';

            const foo = require('../foo');

            function main() {
                console.log("hullo world");
            }
            "#
        .into();

    let source = parse_path("/src/a/b/c/d/source.ts");

    let new_source_code = replace_imports(&source, &code, "lol").unwrap().unwrap();

    let new_import_0: String = "import some from 'lol';".into();
    let new_import_1: String = "import other from 'lol';".into();

    assert!(new_source_code.contains(&new_import_0));
    assert!(new_source_code.contains(&new_import_1));
}

#[test]
fn it_replaces_export() {
    let code: String = "export * from './lolwut'".into();

    let source = parse_path("/src/a/b/c/d/source.ts");

    let new_source_code = replace_imports(&source, &code, "lol").unwrap().unwrap();

    assert_eq!(new_source_code, "export * from 'lol'");
}

#[test]
fn it_replaces_import_call() {
    let code: String = "const asdf = import('./lolwut')".into();

    let source = parse_path("/src/a/b/c/d/source.ts");

    let new_source_code = replace_imports(&source, &code, "lol").unwrap().unwrap();

    assert_eq!(new_source_code, "const asdf = import('lol')");
}

#[test]
fn it_does_not_replace_random_call() {
    let code: String = "const asdf = random('./lolwut')".into();

    let source = parse_path("/src/a/b/c/d/source.ts");

    let new_source_code = replace_imports(&source, &code, "lol").unwrap();

    assert_eq!(new_source_code, None);
}

#[test]
fn it_works() {
    let source: String = r#"
            import some from '../../some';
            function main() {
                const other = require('./other');
            }
            "#
        .into();

    let rule = RewriteRule::SetImport { new_import: "WORKS" };
    let (new_source_code, changed) =
        replace_rel_imports(&source, &Lang::TypeScript, &rule).unwrap();

    assert!(changed);
    assert!(new_source_code.contains("import some from 'WORKS';"));
}

#[test]
fn bare_imports_are_never_edited() {
    let code: String = "import react from 'react';\nimport lodash from 'lodash';\n".into();
    let source = parse_path("/src/a.ts");

    assert_eq!(replace_imports(&source, &code, "lol").unwrap(), None);

    let target = parse_path("/src/b/a.ts");
    let moved = update_imports(code.clone(), &source, &target).unwrap();
    assert_eq!(moved, code);
}

#[test]
fn update_import_repoints_moved_dependency() {
    let code = "import a from './old';\nimport b from './sibling';\nimport c from './old.ts';\n";
    let source = parse_path("a/consumer.ts");
    let old_location = parse_path("a/old.ts");
    let new_location = parse_path("a/new.ts");

    let new_code = update_import(code, &source, &old_location, &new_location).unwrap();

    assert!(new_code.contains("import a from './new';"));
    assert!(new_code.contains("import b from './sibling';"));
    assert!(new_code.contains("import c from './new.ts';"));
}

#[test]
fn dependent_file_keeps_extension_choice() {
    let code = "import a from './old';\nimport b from './old.ts';\nimport c from './sibling.svg';\n";
    let source = parse_path("a/consumer.ts");
    let moves = vec![
        MoveRecord { old_location: parse_path("a/old.ts"), new_location: parse_path("a/new.ts") },
    ];

    let new_code = update_dependent_file(code, &source, &moves).unwrap();

    assert!(new_code.contains("import a from './new';"));
    assert!(new_code.contains("import b from './new.ts';"));
    assert!(new_code.contains("import c from './sibling.svg';"));
}

#[test]
fn moved_file_keeps_import_of_file_moved_with_it() {
    let code = "import y from './y';\n";
    let source = parse_path("a/b/x.ts");
    let target = parse_path("a/z/x.ts");
    let moves = vec![
        MoveRecord { old_location: parse_path("a/b/x.ts"), new_location: parse_path("a/z/x.ts") },
        MoveRecord { old_location: parse_path("a/b/y.ts"), new_location: parse_path("a/z/y.ts") },
    ];

    let new_code = update_moved_file(code, &source, &target, &moves).unwrap();

    assert_eq!(new_code, code);
}

#[test]
fn dependent_file_follows_whole_tree_move() {
    let code = "import y from '../b/y';\n";
    let source = parse_path("a/c/w.ts");
    let moves = vec![
        MoveRecord { old_location: parse_path("a/b/y.ts"), new_location: parse_path("a/z/y.ts") },
    ];

    let new_code = update_dependent_file(code, &source, &moves).unwrap();

    assert_eq!(new_code, "import y from '../z/y';\n");
}

#[test]
fn unsupported_suffixes_are_refused() {
    let code: String = "import a from './x';".into();
    let svg = parse_path("a/file.svg");
    let target = parse_path("a/b/file.svg");
    assert_eq!(update_imports(code.clone(), &svg, &target).unwrap_err(), Error::UnsupportedFileType);

    let bare = parse_path("Makefile");
    assert_eq!(update_imports(code, &bare, &target).unwrap_err(), Error::UnsupportedFileType);

    assert!(infer_langauge_from_suffix(&parse_path("x.ts")).is_ok());
    assert!(infer_langauge_from_suffix(&parse_path("x.tsx")).is_ok());
}

#[test]
fn escaping_import_is_reported() {
    let code: String = "import a from '../../x';".into();
    let source = parse_path("a/source.ts");
    let target = parse_path("b/target.ts");
    assert_eq!(update_imports(code, &source, &target).unwrap_err(), Error::PathEscapesRoot);
}

#[test]
fn absolute_source_with_relative_dependency_is_reported() {
    let code: String = "import a from './old';".into();
    let source = parse_path("/a/consumer.ts");
    let old_location = parse_path("a/old.ts");
    let new_location = parse_path("a/new.ts");
    assert_eq!(
        update_import(&code, &source, &old_location, &new_location).unwrap_err(),
        Error::NoRelativePath
    );
}

#[test]
fn tsx_files_use_the_tsx_grammar() {
    let code: String = r#"
            import some from './some';
            export function App() {
                return <div>hullo</div>;
            }
            "#
        .into();
    let source = parse_path("/src/App.tsx");
    let target = parse_path("/src/inner/App.tsx");

    let new_source_code = update_imports(code, &source, &target).unwrap();

    assert!(new_source_code.contains("import some from '../some';"));
}
