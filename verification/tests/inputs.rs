//! Which files a run reads.

use sztools::inputs::{
    admits, compile_globs, glob_selects, is_readable_entry, request_of, Kind, Request,
    TraversalOptions,
};

/// What a walk of one request comes across and takes.
fn taken(request: Request, globs: Option<&[glob::Pattern]>, entries: &[(&str, Kind)]) -> Vec<String> {
    let mut names = Vec::new();
    for (depth, (path, kind)) in entries.iter().enumerate() {
        let name = path.rsplit('/').next().unwrap();
        if admits(request, Some(*kind), depth, globs, path, name) {
            names.push(path.to_string());
        }
    }
    names
}

#[test]
fn resolves_a_named_file_and_a_directory_through_one_walk() {
    // A named file yields exactly itself.
    let named = taken(
        request_of("root/one.txt", true, false),
        None,
        &[("root/one.txt", Kind::File)],
    );
    assert_eq!(named, ["root/one.txt"]);

    // A directory yields every file under it, and stdin rides the same stream.
    assert_eq!(request_of("-", false, false), Request::Stdin);
    let walked = taken(
        request_of("root", true, true),
        None,
        &[
            ("root", Kind::Directory),
            ("root/one.txt", Kind::File),
            ("root/two.log", Kind::File),
            ("root/nested", Kind::Directory),
            ("root/nested/three.txt", Kind::File),
            ("root/pipe", Kind::Other),
        ],
    );
    assert_eq!(
        walked,
        ["root/one.txt", "root/two.log", "root/nested/three.txt"]
    );
}

#[test]
fn a_glob_selects_without_hiding_a_walk_failure() {
    let globs = compile_globs(&["*.txt".to_string()]).unwrap();
    let kept = taken(
        Request::Walked,
        Some(&globs),
        &[
            ("root", Kind::Directory),
            ("root/keep.txt", Kind::File),
            ("root/drop.log", Kind::File),
        ],
    );
    assert_eq!(kept, ["root/keep.txt"]);
    assert_eq!(request_of("gone", false, false), Request::Unreadable);
}

#[test]
fn a_named_file_survives_a_filter_that_would_exclude_it() {
    let globs = compile_globs(&["*.txt".to_string()]).unwrap();
    let by_name = taken(
        Request::Named,
        Some(&globs),
        &[("root/kept.log", Kind::File)],
    );
    assert_eq!(by_name.len(), 1, "a named file is not filtered by --glob");
    let by_walk = taken(
        Request::Walked,
        Some(&globs),
        &[
            ("root", Kind::Directory),
            ("root/walked.log", Kind::File),
            ("root/walked.txt", Kind::File),
        ],
    );
    assert_eq!(by_walk, ["root/walked.txt"]);

    // Nor by a type.
    let types = ["rust".to_string()];
    let typed = TraversalOptions {
        file_type: Some(&types),
        ..TraversalOptions::default()
    };
    assert!(typed.for_request(Request::Named).file_type.is_none());
    assert!(typed.for_request(Request::Walked).file_type.is_some());
}

#[test]
fn an_unreadable_input_arrives_as_an_item_not_a_counter() {
    assert_eq!(
        request_of("no-such-path-anywhere", false, false),
        Request::Unreadable
    );
}

#[test]
fn reads_a_pipe_that_was_named_and_none_that_was_found() {
    assert!(is_readable_entry(Some(Kind::Other), 0));
    assert!(!is_readable_entry(Some(Kind::Other), 1));
    assert!(!is_readable_entry(Some(Kind::Directory), 0));
    assert!(!is_readable_entry(None, 0));
    assert!(is_readable_entry(Some(Kind::File), 3));
}

#[test]
fn a_glob_matches_a_name_or_a_whole_path() {
    let globs = compile_globs(&["src/*.rs".to_string(), "READ*".to_string()]).unwrap();
    assert!(glob_selects(Some(&globs), "src/main.rs", "main.rs"));
    assert!(glob_selects(Some(&globs), "deep/README.md", "README.md"));
    assert!(!glob_selects(Some(&globs), "lib/main.rs", "main.rs"));
    // No glob at all selects everything, and an empty list nothing.
    assert!(glob_selects(None, "a", "a"));
    assert!(!glob_selects(Some(&[]), "a", "a"));
}

#[test]
fn names_the_glob_that_does_not_compile() {
    let refused = compile_globs(&["*.rs".to_string(), "a[".to_string()]);
    let message = refused.err().expect("an open class is no glob");
    assert!(message.contains("a["), "{message}");
}
