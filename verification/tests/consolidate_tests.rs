use dedup::consolidate_plan;
use dedup::group;
use dedup::is_hidden;
use dedup::FileRecord;
use dedup::GroupPlan;

fn rec(dir: &str, name: &str, created: u64, modified: u64) -> FileRecord {
    FileRecord { dir: dir.to_string(), name: name.to_string(), created, modified }
}

/// An in-memory stand-in for the directory tree: pairs of full path and file
/// content, on which a plan's deletions and rename are played back.
fn apply_plan(fs: &mut Vec<(String, String)>, plan: &GroupPlan) {
    for d in plan.deletions.iter() {
        fs.retain(|e| &e.0 != d);
    }
    let pos = fs
        .iter()
        .position(|e| e.0 == plan.survivor_path)
        .expect("survivor must exist before the rename");
    let content = fs.remove(pos).1;
    fs.retain(|e| e.0 != plan.renamed_path);
    fs.push((plan.renamed_path.clone(), content));
}

#[test]
fn newer_enumerated_copy_survives_under_canonical_name() {
    // photo.jpg created first, photo (1).jpg later: the newer copy's content
    // must end up under the canonical name.
    let records = vec![rec("root/", "photo.jpg", 100, 100), rec("root/", "photo (1).jpg", 200, 200)];
    let mut fs = vec![
        ("root/photo.jpg".to_string(), "old content".to_string()),
        ("root/photo (1).jpg".to_string(), "new content".to_string()),
    ];
    let groups = group(&records);
    assert_eq!(groups.len(), 1);
    let plan = consolidate_plan(&groups[0]);
    assert_eq!(plan.deletions, vec!["root/photo.jpg".to_string()]);
    assert_eq!(plan.survivor_path, "root/photo (1).jpg");
    assert_eq!(plan.renamed_path, "root/photo.jpg");
    apply_plan(&mut fs, &plan);
    assert_eq!(fs, vec![("root/photo.jpg".to_string(), "new content".to_string())]);
}

#[test]
fn one_file_per_group_remains() {
    let records = vec![
        rec("r/", "doc.txt", 1, 1),
        rec("r/", "doc (1).txt", 2, 2),
        rec("r/sub/", "doc (2).txt", 3, 3),
        rec("r/", "other.txt", 9, 9),
    ];
    let mut fs = vec![
        ("r/doc.txt".to_string(), "A".to_string()),
        ("r/doc (1).txt".to_string(), "B".to_string()),
        ("r/sub/doc (2).txt".to_string(), "C".to_string()),
        ("r/other.txt".to_string(), "untouched".to_string()),
    ];
    let groups = group(&records);
    assert_eq!(groups.len(), 1);
    assert_eq!(groups[0].members.len(), 3);
    let plan = consolidate_plan(&groups[0]);
    assert_eq!(plan.deletions.len(), 2);
    apply_plan(&mut fs, &plan);
    // Exactly one file of the group remains, under the canonical name in the
    // survivor's own directory, with the newest member's content; the
    // unrelated file is untouched.
    fs.sort();
    assert_eq!(
        fs,
        vec![
            ("r/other.txt".to_string(), "untouched".to_string()),
            ("r/sub/doc.txt".to_string(), "C".to_string()),
        ]
    );
}

#[test]
fn survivor_already_canonical_keeps_its_name() {
    // The newest copy already bears the canonical name: it is "renamed" onto
    // its own path and only the enumerated copy disappears.
    let records = vec![rec("d/", "a (1).txt", 1, 1), rec("d/", "a.txt", 2, 2)];
    let mut fs = vec![
        ("d/a (1).txt".to_string(), "old".to_string()),
        ("d/a.txt".to_string(), "new".to_string()),
    ];
    let groups = group(&records);
    assert_eq!(groups.len(), 1);
    let plan = consolidate_plan(&groups[0]);
    assert_eq!(plan.deletions, vec!["d/a (1).txt".to_string()]);
    assert_eq!(plan.survivor_path, "d/a.txt");
    assert_eq!(plan.renamed_path, "d/a.txt");
    apply_plan(&mut fs, &plan);
    assert_eq!(fs, vec![("d/a.txt".to_string(), "new".to_string())]);
}

#[test]
fn hidden_entries_are_pruned_before_grouping() {
    // A directory holding only `.hidden (2).txt`: traversal prunes the
    // hidden entry, so no record reaches the grouper, no group is produced
    // and nothing is touched.
    let name = ".hidden (2).txt";
    assert!(is_hidden(name));
    let walked: Vec<FileRecord> = Vec::new();
    let groups = group(&walked);
    assert!(groups.is_empty());
}
