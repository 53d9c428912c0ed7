use wayland_globals::normalize::normalize;
use wayland_globals::order::name_less;
use wayland_globals::record::GlobalRecord;

fn rec(interface: &str, version: u32) -> GlobalRecord {
    GlobalRecord::new(interface.to_string(), version)
}

fn pairs(records: &[GlobalRecord]) -> Vec<(String, u32)> {
    records.iter().map(|g| (g.interface.clone(), g.version)).collect()
}

fn sample() -> Vec<GlobalRecord> {
    vec![rec("zwp_foo", 1), rec("wl_bar", 3), rec("wl_bar", 5), rec("zwp_foo", 2)]
}

#[test]
fn empty_input_stays_empty() {
    assert!(normalize(&Vec::new(), false).is_empty());
    assert!(normalize(&Vec::new(), true).is_empty());
}

#[test]
fn plain_mode_sorts_by_name_keeping_arrival_order() {
    let out = normalize(&sample(), false);
    assert_eq!(
        pairs(&out),
        vec![
            ("wl_bar".to_string(), 3),
            ("wl_bar".to_string(), 5),
            ("zwp_foo".to_string(), 1),
            ("zwp_foo".to_string(), 2),
        ]
    );
}

#[test]
fn dedup_mode_keeps_highest_version_per_name() {
    let out = normalize(&sample(), true);
    assert_eq!(pairs(&out), vec![("wl_bar".to_string(), 5), ("zwp_foo".to_string(), 2)]);
}

#[test]
fn plain_mode_twice_is_plain_mode_once() {
    let once = normalize(&sample(), false);
    let twice = normalize(&once, false);
    assert_eq!(pairs(&once), pairs(&twice));
}

#[test]
fn dedup_mode_twice_is_dedup_mode_once() {
    let once = normalize(&sample(), true);
    let twice = normalize(&once, true);
    assert_eq!(pairs(&once), pairs(&twice));
}

#[test]
fn dedup_names_are_distinct_with_their_maximum() {
    let input = vec![rec("b", 2), rec("a", 1), rec("b", 9), rec("c", 4), rec("a", 7), rec("b", 3)];
    let out = normalize(&input, true);
    assert_eq!(
        pairs(&out),
        vec![("a".to_string(), 7), ("b".to_string(), 9), ("c".to_string(), 4)]
    );
}

#[test]
fn one_name_collapses_to_its_maximum() {
    let input = vec![rec("wl_seat", 4), rec("wl_seat", 9), rec("wl_seat", 1)];
    assert_eq!(pairs(&normalize(&input, true)), vec![("wl_seat".to_string(), 9)]);
    assert_eq!(
        pairs(&normalize(&input, false)),
        vec![("wl_seat".to_string(), 4), ("wl_seat".to_string(), 9), ("wl_seat".to_string(), 1)]
    );
}

#[test]
fn names_compare_by_bytes() {
    let input = vec![rec("wl_a", 1), rec("a", 1), rec("wl", 1), rec("Z", 1), rec("\u{e9}", 1)];
    let out = normalize(&input, false);
    let names: Vec<String> = out.iter().map(|g| g.interface.clone()).collect();
    assert_eq!(names, vec!["Z", "a", "wl", "wl_a", "\u{e9}"]);
}

#[test]
fn name_less_is_strict() {
    let a = "wl_output".to_string();
    let b = "wl_seat".to_string();
    assert!(name_less(&a, &b));
    assert!(!name_less(&b, &a));
    assert!(!name_less(&a, &a));
    assert!(name_less(&"wl".to_string(), &a));
}

#[test]
fn largest_version_survives() {
    let input = vec![rec("x", u32::MAX), rec("x", 0)];
    assert_eq!(pairs(&normalize(&input, true)), vec![("x".to_string(), u32::MAX)]);
}

#[test]
fn duplicate_copies_name_and_version() {
    let g = rec("wl_shm", 2);
    let d = g.duplicate();
    assert_eq!(d, g);
}

#[test]
fn long_reversed_input_is_sorted_stably() {
    let mut input = Vec::new();
    for i in (0..20u32).rev() {
        input.push(rec(&format!("if_{:02}", i / 2), i));
    }
    let out = normalize(&input, false);
    let mut expected = Vec::new();
    for k in 0..10u32 {
        expected.push((format!("if_{:02}", k), 2 * k + 1));
        expected.push((format!("if_{:02}", k), 2 * k));
    }
    assert_eq!(pairs(&out), expected);
    let unique = normalize(&input, true);
    let expected_unique: Vec<(String, u32)> =
        (0..10u32).map(|k| (format!("if_{:02}", k), 2 * k + 1)).collect();
    assert_eq!(pairs(&unique), expected_unique);
}
