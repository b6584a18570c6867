use gitinspector_core::analysis::Commit;
use gitinspector_core::timeline::{generate_timeline, try_generate_timeline};

fn dated(hash: &str, date: &str, ins: u32, del: u32) -> Commit {
    Commit {
        hash: hash.into(),
        author_name: "".into(),
        author_email: "".into(),
        date: date.into(),
        subject: "".into(),
        insertions: ins,
        deletions: del,
        changes: vec![],
    }
}

#[test]
fn test_generate_timeline_months() {
    let commits = vec![
        dated("1", "1673740800", 10, 5),
        dated("2", "1674172800", 2, 1),
        dated("3", "1675555200", 5, 0),
    ];

    let timeline = generate_timeline(&commits, false);
    assert_eq!(timeline.len(), 2);
    assert_eq!(timeline[0].period_name, "2023-01");
    assert_eq!(timeline[0].commits, 2);
    assert_eq!(timeline[0].insertions, 12);

    assert_eq!(timeline[1].period_name, "2023-02");
    assert_eq!(timeline[1].commits, 1);
}

#[test]
fn timeline_by_weeks_is_in_name_order() {
    let commits = vec![
        dated("1", "1675555200", 5, 0),
        dated("2", "1673740800", 10, 5),
        dated("3", "not a number", 1, 1),
        dated("4", "1673827200", 1, 2),
    ];
    let timeline = generate_timeline(&commits, true);
    assert_eq!(timeline.len(), 3);
    assert_eq!(timeline[0].period_name, "2023-W02");
    assert_eq!(timeline[0].commits, 1);
    assert_eq!(timeline[1].period_name, "2023-W03");
    assert_eq!(timeline[1].deletions, 2);
    assert_eq!(timeline[2].period_name, "2023-W05");
}

#[test]
fn timeline_refuses_unrepresentable_instants() {
    let commits = vec![dated("1", "9223372036854775807", 1, 1)];
    assert!(try_generate_timeline(&commits, false).is_none());
    let ok = vec![dated("1", "0", 1, 1)];
    let t = try_generate_timeline(&ok, false).unwrap();
    assert_eq!(t[0].period_name, "1970-01");
}

#[test]
fn weeks_across_new_year_are_one_period() {
    let commits = vec![dated("1", "1672099200", 1, 0), dated("2", "1672531200", 1, 0)];
    let timeline = generate_timeline(&commits, true);
    assert_eq!(timeline.len(), 1);
    assert_eq!(timeline[0].period_name, "2022-W52");
    assert_eq!(timeline[0].commits, 2);
    assert_eq!(timeline[0].insertions, 2);
    let months = generate_timeline(&commits, false);
    assert_eq!(months.len(), 2);
    assert_eq!(months[0].period_name, "2022-12");
    assert_eq!(months[1].period_name, "2023-01");
}
