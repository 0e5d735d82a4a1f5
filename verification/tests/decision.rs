use target_cleaner::{decide, is_target_name, Directive};

#[test]
fn removes_qualifying_target_directory() {
    let name = String::from("target");
    assert_eq!(decide(true, &name, true), Directive::RemoveAndPrune);
}

#[test]
fn keeps_target_directory_without_src_sibling() {
    let name = String::from("target");
    assert_eq!(decide(true, &name, false), Directive::Descend);
}

#[test]
fn keeps_directories_with_other_names() {
    assert_eq!(decide(true, &String::from("src"), true), Directive::Descend);
    assert_eq!(decide(true, &String::from("build"), true), Directive::Descend);
    assert_eq!(decide(true, &String::from("Target"), true), Directive::Descend);
    assert_eq!(decide(true, &String::from("targets"), true), Directive::Descend);
}

#[test]
fn never_removes_a_non_directory() {
    let name = String::from("target");
    assert_eq!(decide(false, &name, true), Directive::Descend);
}

#[test]
fn target_name_is_matched_exactly() {
    assert!(is_target_name(&String::from("target")));
    assert!(!is_target_name(&String::from("src")));
    assert!(!is_target_name(&String::from("TARGET")));
    assert!(!is_target_name(&String::from("target ")));
    assert!(!is_target_name(&String::from("")));
}
