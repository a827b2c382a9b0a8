use dedup::group;
use dedup::FileRecord;

fn rec(dir: &str, name: &str, created: u64, modified: u64) -> FileRecord {
    FileRecord { dir: dir.to_string(), name: name.to_string(), created, modified }
}

#[test]
fn no_shared_identity_means_no_groups() {
    let records = vec![rec("root/", "a.txt", 1, 1), rec("root/", "b.txt", 2, 2)];
    let groups = group(&records);
    assert!(groups.is_empty());
}

#[test]
fn colliding_identities_form_one_group() {
    let records = vec![
        rec("root/", "photo.jpg", 10, 10),
        rec("root/sub/", "photo (1).jpg", 20, 20),
        rec("root/", "photo (2).jpg", 30, 30),
        rec("root/", "alone.txt", 5, 5),
    ];
    let groups = group(&records);
    assert_eq!(groups.len(), 1);
    assert_eq!(groups[0].identity, "photo.jpg");
    assert_eq!(groups[0].members.len(), 3);
    for m in groups[0].members.iter() {
        assert_eq!(dedup::normalize(&m.name), "photo.jpg");
    }
}

#[test]
fn singletons_are_discarded() {
    let records = vec![
        rec("root/", "a (1).txt", 1, 1),
        rec("root/", "b.txt", 2, 2),
        rec("root/", "b (1).txt", 3, 3),
    ];
    let groups = group(&records);
    assert_eq!(groups.len(), 1);
    assert_eq!(groups[0].identity, "b.txt");
}

#[test]
fn members_ascend_by_created_then_modified() {
    let records = vec![
        rec("root/", "doc (3).txt", 50, 10),
        rec("root/", "doc.txt", 10, 99),
        rec("root/", "doc (1).txt", 50, 5),
        rec("root/", "doc (2).txt", 20, 1),
    ];
    let groups = group(&records);
    assert_eq!(groups.len(), 1);
    let ms = &groups[0].members;
    assert_eq!(ms.len(), 4);
    for w in ms.windows(2) {
        assert!((w[0].created, w[0].modified) <= (w[1].created, w[1].modified));
    }
    assert_eq!(ms[0].name, "doc.txt");
    assert_eq!(ms[1].name, "doc (2).txt");
    assert_eq!(ms[2].name, "doc (1).txt");
    assert_eq!(ms[3].name, "doc (3).txt");
}

#[test]
fn distinct_identities_get_distinct_groups() {
    let records = vec![
        rec("r/", "a.txt", 1, 1),
        rec("r/", "a (1).txt", 2, 2),
        rec("r/", "b.txt", 3, 3),
        rec("r/", "b (1).txt", 4, 4),
    ];
    let groups = group(&records);
    assert_eq!(groups.len(), 2);
    assert_ne!(groups[0].identity, groups[1].identity);
    for g in groups.iter() {
        assert_eq!(g.members.len(), 2);
    }
}

#[test]
fn empty_input_gives_no_groups() {
    let groups = group(&Vec::new());
    assert!(groups.is_empty());
}
