use flattener::names::candidate_name;
use flattener::names::collision_candidate;
use flattener::names::decimal_string;
use flattener::names::split_name;

#[test]
fn split_simple() {
    assert_eq!(split_name("y.txt"), ("y".to_string(), Some("txt".to_string())));
}

#[test]
fn split_no_extension() {
    assert_eq!(split_name("Makefile"), ("Makefile".to_string(), None));
}

#[test]
fn split_hidden_file() {
    assert_eq!(split_name(".gitignore"), (".gitignore".to_string(), None));
}

#[test]
fn split_multiple_dots() {
    assert_eq!(split_name("a.tar.gz"), ("a.tar".to_string(), Some("gz".to_string())));
}

#[test]
fn split_trailing_dot() {
    assert_eq!(split_name("name."), ("name".to_string(), Some("".to_string())));
}

#[test]
fn split_empty() {
    assert_eq!(split_name(""), ("".to_string(), None));
}

#[test]
fn decimal_renders_exactly() {
    assert_eq!(decimal_string(0), "0");
    assert_eq!(decimal_string(7), "7");
    assert_eq!(decimal_string(10), "10");
    assert_eq!(decimal_string(907), "907");
    assert_eq!(decimal_string(18446744073709551616), "18446744073709551616");
}

#[test]
fn candidate_with_extension() {
    assert_eq!(collision_candidate("dup.txt", 1), "dup_1.txt");
}

#[test]
fn candidate_without_extension() {
    assert_eq!(collision_candidate("notes", 3), "notes_3");
}

#[test]
fn candidate_multi_digit_counter() {
    assert_eq!(collision_candidate("a.b", 12), "a_12.b");
}

#[test]
fn candidate_hidden_file() {
    assert_eq!(collision_candidate(".env", 2), ".env_2");
}

#[test]
fn candidate_from_parts() {
    assert_eq!(candidate_name("x", &None, 2), "x_2");
    assert_eq!(candidate_name("x", &Some("md".to_string()), 2), "x_2.md");
}
