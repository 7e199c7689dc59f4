use analyzer::crate_list::{crate_selected, parse_crate_list};

#[test]
fn crate_list_is_split_at_commas_and_trimmed() {
    assert_eq!(parse_crate_list(" core, alloc ,std"), vec!["core", "alloc", "std"]);
    assert_eq!(parse_crate_list("serde"), vec!["serde"]);
    // Empty pieces stay, as empty names.
    assert_eq!(parse_crate_list("a,,b,"), vec!["a", "", "b", ""]);
    assert_eq!(parse_crate_list(""), vec![""]);
    // Any Unicode white space is trimmed, inner white space is kept.
    assert_eq!(parse_crate_list("\tx y\u{a0}\n,\u{3000}z"), vec!["x y", "z"]);
}

#[test]
fn crate_selection() {
    let none: Vec<String> = Vec::new();
    assert!(crate_selected(&none, "anything"));
    let some = parse_crate_list("core, std");
    assert!(crate_selected(&some, "std"));
    assert!(crate_selected(&some, "core"));
    assert!(!crate_selected(&some, "alloc"));
    assert!(!crate_selected(&some, "st"));
    assert!(!crate_selected(&some, " std"));
}
