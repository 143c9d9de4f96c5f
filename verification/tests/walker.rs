use gettext_pot::chars::chars_of;
use gettext_pot::cli::default_exclude;
use gettext_pot::walker::{extension_of, is_source_file, source_kind, text_contains, SourceKind};
use std::path::Path;

#[test]
fn the_extension_is_what_stands_behind_the_last_dot_of_the_file_name() {
    for path in [
        "a.ts",
        "src/a.tsx",
        "src/a.test.js",
        "src/.hidden",
        "src/.hidden.js",
        "src.d/file",
        "src/file.",
        "file",
        "",
        "a/b.c/d.jsx",
        "types/index.d.ts",
        "..",
        "a/..",
        "...",
        "a..b",
    ] {
        let expected = Path::new(path)
            .extension()
            .map(|e| e.to_str().unwrap().to_string());
        let found = extension_of(&chars_of(path)).map(|e| e.iter().collect::<String>());
        assert_eq!(found, expected, "{:?}", path);
    }
}

#[test]
fn a_file_is_read_by_its_extension() {
    assert_eq!(source_kind("src/a.ts"), Some(SourceKind::TypeScript));
    assert_eq!(source_kind("src/a.tsx"), Some(SourceKind::Tsx));
    assert_eq!(source_kind("src/a.js"), Some(SourceKind::JavaScript));
    assert_eq!(source_kind("src/a.jsx"), Some(SourceKind::Jsx));
    assert_eq!(source_kind("src/a.rs"), None);
    assert_eq!(source_kind("src/ts"), None);
    assert_eq!(source_kind("src/.ts"), None);
}

#[test]
fn a_declaration_file_is_read_as_typescript() {
    assert_eq!(source_kind("types/index.d.ts"), Some(SourceKind::TypeScript));
}

#[test]
fn a_pattern_excludes_the_paths_in_which_it_stands() {
    assert!(text_contains(&chars_of("abc"), &chars_of("")));
    assert!(text_contains(&chars_of("abc"), &chars_of("bc")));
    assert!(text_contains(&chars_of("abc"), &chars_of("abc")));
    assert!(!text_contains(&chars_of("abc"), &chars_of("abcd")));
    assert!(!text_contains(&chars_of("abc"), &chars_of("ca")));
    assert!(text_contains(&chars_of("aab"), &chars_of("ab")));
}

#[test]
fn candidates_are_source_files_that_no_pattern_excludes() {
    let exclude = default_exclude();
    assert!(is_source_file("./src/app.ts", &exclude));
    assert!(is_source_file("./src/view/App.tsx", &exclude));
    assert!(is_source_file("./src/legacy.js", &exclude));
    assert!(is_source_file("./src/legacy.jsx", &exclude));
    assert!(!is_source_file("./src/style.css", &exclude));
    assert!(!is_source_file("./README", &exclude));
    assert!(!is_source_file("./node_modules/x/index.js", &exclude));
    assert!(!is_source_file("./.git/hooks/x.js", &exclude));
    assert!(!is_source_file("./src/__tests__/a.ts", &exclude));
    assert!(!is_source_file("./src/a.test.ts", &exclude));
    assert!(!is_source_file("./src/__mocks__/a.ts", &exclude));
    assert!(!is_source_file("./src/a.mock.ts", &exclude));
    assert!(!is_source_file("./src/a.story.tsx", &exclude));
    assert!(!is_source_file("./src/a.cy.js", &exclude));
    assert!(is_source_file("./node_modules/x/index.js", &Vec::new()));
    assert!(!is_source_file("./src/app.ts", &vec!["app".to_string()]));
}
