use vexc_core::runner::expand_arguments;
use vexc_core::paths::{
    directory_listing_order, order_entries, is_ignored_directory_name, is_probably_binary, kb_rounded_up, normalize_windows_verbatim_path,
    truncate_line, validate_path_segment_name,
};

#[test]
fn kibibytes_round_up() {
    assert_eq!(kb_rounded_up(0), 0);
    assert_eq!(kb_rounded_up(1), 1);
    assert_eq!(kb_rounded_up(1024), 1);
    assert_eq!(kb_rounded_up(1025), 2);
    assert_eq!(kb_rounded_up(u64::MAX), u64::MAX / 1024 + 1);
}

#[test]
fn binary_detection_looks_at_first_kibibyte() {
    assert!(!is_probably_binary(b"plain text"));
    assert!(is_probably_binary(b"a\0b"));
    let mut late = vec![b'a'; 1024];
    late.push(0);
    assert!(!is_probably_binary(&late));
    assert!(!is_probably_binary(&[]));
}

#[test]
fn ignored_directories_ignore_ascii_case() {
    assert!(is_ignored_directory_name("node_modules"));
    assert!(is_ignored_directory_name("Target"));
    assert!(is_ignored_directory_name("DIST"));
    assert!(!is_ignored_directory_name("src"));
    assert!(!is_ignored_directory_name("targets"));
}

#[test]
fn segment_names_are_checked() {
    assert_eq!(validate_path_segment_name(" a.txt "), Ok(String::from("a.txt")));
    assert_eq!(validate_path_segment_name(" "), Err(String::from("Name cannot be empty")));
    assert_eq!(validate_path_segment_name(".."), Err(String::from("Name is not valid")));
    assert_eq!(
        validate_path_segment_name("a/b"),
        Err(String::from("Name cannot contain path separators"))
    );
    assert_eq!(
        validate_path_segment_name("a\\b"),
        Err(String::from("Name cannot contain path separators"))
    );
}

#[test]
fn previews_are_trimmed_and_cut() {
    assert_eq!(truncate_line("  short  "), "short");
    let long = "é".repeat(200);
    let preview = truncate_line(&long);
    assert_eq!(preview.chars().count(), 183);
    assert!(preview.ends_with("..."));
    assert_eq!(truncate_line(&"x".repeat(180)), "x".repeat(180));
}

#[test]
fn verbatim_paths_are_normalized() {
    assert_eq!(normalize_windows_verbatim_path("\\\\?\\C:\\work"), "C:\\work");
    assert_eq!(normalize_windows_verbatim_path("\\\\?\\UNC\\host\\share"), "\\\\host\\share");
    assert_eq!(normalize_windows_verbatim_path("/home/user"), "/home/user");
}

#[test]
fn directories_are_listed_first_then_by_lowercase_name() {
    let entries = vec![
        (false, String::from("b.txt")),
        (true, String::from("src")),
        (false, String::from("A.txt")),
        (true, String::from("Docs")),
        (false, String::from("a.txt")),
    ];
    assert_eq!(directory_listing_order(&entries), vec![3, 1, 2, 4, 0]);
    assert!(directory_listing_order(&Vec::new()).is_empty());
}

#[test]
fn argument_templates_are_filled() {
    let args = vec![
        String::from("--ask={prompt}"),
        String::from("{workspace}/{prompt}{prompt}"),
        String::from("plain"),
    ];
    assert_eq!(
        expand_arguments(&args, "hi", "/w"),
        vec![String::from("--ask=hi"), String::from("/w/hihi"), String::from("plain")]
    );
    assert_eq!(expand_arguments(&Vec::new(), "go {workspace}", "/w"), vec![String::from("go /w")]);
}

#[test]
fn entries_are_ordered_by_given_keys() {
    let keys = vec![
        (true, "b".chars().collect::<Vec<char>>()),
        (false, "z".chars().collect::<Vec<char>>()),
        (true, "a".chars().collect::<Vec<char>>()),
        (true, "b".chars().collect::<Vec<char>>()),
    ];
    assert_eq!(order_entries(&keys), vec![1, 2, 0, 3]);
}
