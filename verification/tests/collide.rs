//! Collision resolution on concrete directories.

use snakit::collide::resolve;

fn names(list: &[&str]) -> Vec<Vec<u8>> {
    list.iter().map(|n| n.as_bytes().to_vec()).collect()
}

fn run(list: &[&str], desired: &str) -> String {
    let out = resolve(&names(list), &desired.as_bytes().to_vec());
    String::from_utf8(out).unwrap()
}

#[test]
fn free_name_is_kept() {
    assert_eq!(run(&["other.txt"], "tmp_file.txt"), "tmp_file.txt");
    assert_eq!(run(&[], "anything"), "anything");
}

#[test]
fn first_counter_fills_the_gap() {
    assert_eq!(run(&["tmp_file.txt"], "tmp_file.txt"), "tmp_file_1.txt");
}

#[test]
fn counters_advance_past_taken_variants() {
    assert_eq!(
        run(&["a.txt", "a_1.txt", "a_2.txt"], "a.txt"),
        "a_3.txt"
    );
}

#[test]
fn counter_without_extension() {
    assert_eq!(run(&["notes"], "notes"), "notes_1");
}

#[test]
fn counters_reach_two_digits() {
    let mut list: Vec<String> = vec!["f.log".to_string()];
    for i in 1..=9 {
        list.push(format!("f_{}.log", i));
    }
    let refs: Vec<&str> = list.iter().map(|s| s.as_str()).collect();
    assert_eq!(run(&refs, "f.log"), "f_10.log");
}

#[test]
fn result_is_never_taken() {
    let list = ["x", "x_1", "x_2", "x_3", "y"];
    let got = run(&list, "x");
    assert!(!list.contains(&got.as_str()));
    assert_eq!(got, "x_4");
}
