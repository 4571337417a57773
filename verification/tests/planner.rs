use flattener::plan::plan_flatten;
use flattener::plan::resolve_destination;
use flattener::plan::Action;
use flattener::plan::Entry;
use flattener::plan::Options;
use flattener::plan::Resolved;

fn entry(path: &[&str], is_file: bool) -> Entry {
    Entry { path: path.iter().map(|s| s.to_string()).collect(), is_file }
}

fn path(components: &[&str]) -> Vec<String> {
    components.iter().map(|s| s.to_string()).collect()
}

#[test]
fn empty_tree_plans_nothing() {
    let entries: Vec<Entry> = vec![];
    for delete in [false, true] {
        for rename in [false, true] {
            let plan = plan_flatten(&entries, &Options { delete, rename });
            assert_eq!(plan, vec![]);
        }
    }
}

#[test]
fn flat_tree_untouched() {
    let entries = vec![entry(&["z.txt"], true), entry(&["w.txt"], true)];
    for delete in [false, true] {
        for rename in [false, true] {
            let plan = plan_flatten(&entries, &Options { delete, rename });
            assert_eq!(plan, vec![]);
        }
    }
}

#[test]
fn copy_mode_copies_deep_file() {
    let entries = vec![entry(&["a"], false), entry(&["a", "x.txt"], true)];
    let plan = plan_flatten(&entries, &Options { delete: false, rename: false });
    assert_eq!(
        plan,
        vec![Action::CopyFile { src: path(&["a", "x.txt"]), dest: "x.txt".to_string() }]
    );
}

#[test]
fn delete_mode_moves_and_cleans_up() {
    let entries = vec![entry(&["a"], false), entry(&["a", "x.txt"], true)];
    let plan = plan_flatten(&entries, &Options { delete: true, rename: false });
    assert_eq!(
        plan,
        vec![
            Action::MoveFile { src: path(&["a", "x.txt"]), dest: "x.txt".to_string() },
            Action::RemoveDir { path: path(&["a"]) },
        ]
    );
}

#[test]
fn collision_skips_second_file() {
    let entries = vec![
        entry(&["a"], false),
        entry(&["a", "dup.txt"], true),
        entry(&["b"], false),
        entry(&["b", "dup.txt"], true),
    ];
    let plan = plan_flatten(&entries, &Options { delete: false, rename: false });
    assert_eq!(
        plan,
        vec![
            Action::CopyFile { src: path(&["a", "dup.txt"]), dest: "dup.txt".to_string() },
            Action::SkipFile { src: path(&["b", "dup.txt"]), dest: "dup.txt".to_string() },
        ]
    );
}

#[test]
fn collision_renames_second_file() {
    let entries = vec![
        entry(&["a"], false),
        entry(&["a", "dup.txt"], true),
        entry(&["b"], false),
        entry(&["b", "dup.txt"], true),
    ];
    let plan = plan_flatten(&entries, &Options { delete: false, rename: true });
    assert_eq!(
        plan,
        vec![
            Action::CopyFile { src: path(&["a", "dup.txt"]), dest: "dup.txt".to_string() },
            Action::CopyFile { src: path(&["b", "dup.txt"]), dest: "dup_1.txt".to_string() },
        ]
    );
}

#[test]
fn root_file_untouched_by_any_flags() {
    let entries = vec![
        entry(&["z.txt"], true),
        entry(&["a"], false),
        entry(&["a", "x.txt"], true),
    ];
    for delete in [false, true] {
        for rename in [false, true] {
            let plan = plan_flatten(&entries, &Options { delete, rename });
            for action in &plan {
                let touched = match action {
                    Action::CopyFile { src, .. } => src.clone(),
                    Action::MoveFile { src, .. } => src.clone(),
                    Action::SkipFile { src, .. } => src.clone(),
                    Action::RemoveDir { path } => path.clone(),
                };
                assert_ne!(touched, path(&["z.txt"]));
            }
        }
    }
}

#[test]
fn nested_tree_flattens_bottom_up() {
    let entries = vec![
        entry(&["a"], false),
        entry(&["a", "x.txt"], true),
        entry(&["a", "b"], false),
        entry(&["a", "b", "y.txt"], true),
        entry(&["z.txt"], true),
    ];
    let plan = plan_flatten(&entries, &Options { delete: true, rename: false });
    assert_eq!(
        plan,
        vec![
            Action::MoveFile { src: path(&["a", "x.txt"]), dest: "x.txt".to_string() },
            Action::MoveFile { src: path(&["a", "b", "y.txt"]), dest: "y.txt".to_string() },
            Action::RemoveDir { path: path(&["a", "b"]) },
            Action::RemoveDir { path: path(&["a"]) },
        ]
    );
}

#[test]
fn skipped_file_still_schedules_removal() {
    let entries = vec![
        entry(&["a"], false),
        entry(&["a", "dup.txt"], true),
        entry(&["b"], false),
        entry(&["b", "dup.txt"], true),
    ];
    let plan = plan_flatten(&entries, &Options { delete: true, rename: false });
    assert_eq!(
        plan,
        vec![
            Action::MoveFile { src: path(&["a", "dup.txt"]), dest: "dup.txt".to_string() },
            Action::SkipFile { src: path(&["b", "dup.txt"]), dest: "dup.txt".to_string() },
            Action::RemoveDir { path: path(&["b"]) },
            Action::RemoveDir { path: path(&["a"]) },
        ]
    );
}

#[test]
fn collision_renamed_in_delete_mode() {
    let entries = vec![
        entry(&["a"], false),
        entry(&["a", "dup.txt"], true),
        entry(&["b"], false),
        entry(&["b", "dup.txt"], true),
    ];
    let plan = plan_flatten(&entries, &Options { delete: true, rename: true });
    assert_eq!(
        plan,
        vec![
            Action::MoveFile { src: path(&["a", "dup.txt"]), dest: "dup.txt".to_string() },
            Action::MoveFile { src: path(&["b", "dup.txt"]), dest: "dup_1.txt".to_string() },
            Action::RemoveDir { path: path(&["b"]) },
            Action::RemoveDir { path: path(&["a"]) },
        ]
    );
}

#[test]
fn collision_with_root_directory_name() {
    let entries = vec![
        entry(&["dup.txt"], false),
        entry(&["a"], false),
        entry(&["a", "dup.txt"], true),
    ];
    let plan = plan_flatten(&entries, &Options { delete: false, rename: true });
    assert_eq!(
        plan,
        vec![Action::CopyFile { src: path(&["a", "dup.txt"]), dest: "dup_1.txt".to_string() }]
    );
}

#[test]
fn renamed_destination_occupies_its_name() {
    let entries = vec![
        entry(&["a"], false),
        entry(&["a", "x.txt"], true),
        entry(&["b"], false),
        entry(&["b", "x.txt"], true),
        entry(&["c"], false),
        entry(&["c", "x_1.txt"], true),
    ];
    let plan = plan_flatten(&entries, &Options { delete: false, rename: true });
    assert_eq!(
        plan,
        vec![
            Action::CopyFile { src: path(&["a", "x.txt"]), dest: "x.txt".to_string() },
            Action::CopyFile { src: path(&["b", "x.txt"]), dest: "x_1.txt".to_string() },
            Action::CopyFile { src: path(&["c", "x_1.txt"]), dest: "x_1_1.txt".to_string() },
        ]
    );
}

#[test]
fn resolve_keeps_free_name() {
    let occupied = vec!["other.txt".to_string()];
    let r = resolve_destination(&"x.txt".to_string(), &occupied, false);
    assert_eq!(r, Resolved::Keep);
}

#[test]
fn resolve_skips_taken_name() {
    let occupied = vec!["dup.txt".to_string()];
    let r = resolve_destination(&"dup.txt".to_string(), &occupied, false);
    assert_eq!(r, Resolved::Skipped);
}

#[test]
fn resolve_renames_to_first_free_counter() {
    let occupied = vec!["dup.txt".to_string()];
    let r = resolve_destination(&"dup.txt".to_string(), &occupied, true);
    assert_eq!(r, Resolved::Renamed("dup_1.txt".to_string()));
}

#[test]
fn resolve_skips_taken_counters() {
    let occupied = vec![
        "dup.txt".to_string(),
        "dup_1.txt".to_string(),
        "dup_2.txt".to_string(),
    ];
    let r = resolve_destination(&"dup.txt".to_string(), &occupied, true);
    assert_eq!(r, Resolved::Renamed("dup_3.txt".to_string()));
}
