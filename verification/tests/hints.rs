//! Hints about misspelled names.

use lmflow::diagnostic::{did_you_mean, edit_distance, suggestion};

#[test]
fn suggests_only_close_names() {
    assert_eq!(
        suggestion("metdata", &vec!["video", "metadata", "control"]),
        Some("metadata")
    );
    assert_eq!(suggestion("unrelated", &vec!["video", "metadata"]), None);
}

#[test]
fn distances_are_exact() {
    assert_eq!(edit_distance("kitten", "sitting"), 3);
    assert_eq!(edit_distance("", "abc"), 3);
    assert_eq!(edit_distance("same", "same"), 0);
    assert_eq!(edit_distance("ab", "ba"), 2);
}

#[test]
fn distances_obey_the_triangle() {
    let words = ["graph", "grape", "gripe", ""];
    for a in words {
        for b in words {
            assert_eq!(edit_distance(a, b), edit_distance(b, a));
            for c in words {
                assert!(edit_distance(a, c) <= edit_distance(a, b) + edit_distance(b, c));
            }
        }
    }
}

#[test]
fn hints_are_empty_without_a_close_name() {
    assert_eq!(did_you_mean("zzz", &vec!["sync", "batch"]), "");
    assert!(did_you_mean("synk", &vec!["sync", "batch"]).contains("sync"));
}
