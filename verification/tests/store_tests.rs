use vaulty::store::{BoundingBox, ExerciseRecord, HierarchyStore, StoreError};

fn make_record(id: &str, name: &str, course: &str, week: i64, tags: &[&str]) -> ExerciseRecord {
    ExerciseRecord {
        id: id.to_string(),
        name: name.to_string(),
        tags: tags.iter().map(|t| t.to_string()).collect(),
        course: course.to_string(),
        week,
        content: None,
        notes: None,
        image_path: None,
        page_image_path: None,
        bounding_box: None,
        created_at: 0,
    }
}

#[test]
fn replace_week_twice_keeps_second_set() {
    let mut store = HierarchyStore::new();
    let items1 = vec![
        make_record("a1", "Old One", "", 0, &[]),
        make_record("a2", "Old Two", "", 0, &[]),
    ];
    let items2 = vec![
        make_record("b1", "New One", "", 0, &[]),
        make_record("b2", "New Two", "", 0, &[]),
        make_record("b3", "New Three", "", 0, &[]),
    ];
    let algebra = "Algebra".to_string();
    assert!(store.replace_week_exercises(&algebra, 1, &items1).is_ok());
    assert!(store.replace_week_exercises(&algebra, 1, &items2).is_ok());
    let course = store.get_course(&algebra).expect("course exists");
    assert_eq!(course.weeks.len(), 1);
    let week = &course.weeks[0];
    assert_eq!(week.week_number, 1);
    let ids: Vec<String> = week
        .data
        .exercises
        .iter()
        .map(|e| e.id.clone().unwrap())
        .collect();
    assert_eq!(ids, vec!["b1", "b2", "b3"]);
    assert!(store.get_exercise(&"a1".to_string()).is_none());
    assert!(store.get_exercise(&"a2".to_string()).is_none());
}

#[test]
fn replace_week_rejects_duplicate_ids() {
    let mut store = HierarchyStore::new();
    let items = vec![
        make_record("x", "One", "", 0, &[]),
        make_record("x", "Two", "", 0, &[]),
    ];
    let r = store.replace_week_exercises(&"C".to_string(), 1, &items);
    assert_eq!(r, Err(StoreError::IntegrityViolation));
    assert!(store.get_course(&"C".to_string()).is_none());
}

#[test]
fn replace_week_rejects_id_collision_outside_week() {
    let mut store = HierarchyStore::new();
    let other = vec![make_record("shared", "Other", "", 0, &[])];
    assert!(store.replace_week_exercises(&"C".to_string(), 1, &other).is_ok());
    let items = vec![make_record("shared", "Mine", "", 0, &[])];
    let r = store.replace_week_exercises(&"C".to_string(), 2, &items);
    assert_eq!(r, Err(StoreError::IntegrityViolation));
    // Replacing the same week with the same id is fine.
    let r2 = store.replace_week_exercises(&"C".to_string(), 1, &items);
    assert!(r2.is_ok());
}

#[test]
fn delete_course_cascades_and_reports_orphans() {
    let mut store = HierarchyStore::new();
    let mut r1 = make_record("d1", "W1 Ex", "Calculus", 1, &[]);
    r1.image_path = Some("images/own1.png".to_string());
    r1.page_image_path = Some("images/shared.png".to_string());
    let mut r2 = make_record("d2", "W2 Ex", "Calculus", 2, &[]);
    r2.image_path = Some("images/own2.png".to_string());
    let mut r3 = make_record("d3", "Other course", "Physics", 1, &[]);
    r3.image_path = Some("images/shared.png".to_string());
    store.upsert_exercise(&r1);
    store.upsert_exercise(&r2);
    store.upsert_exercise(&r3);

    let calculus = "Calculus".to_string();
    let mut orphans = store.delete_course(&calculus);
    orphans.sort();
    // Every asset of the course is reported except the one a living
    // record still references.
    assert_eq!(orphans, vec!["images/own1.png", "images/own2.png"]);
    assert!(store.get_course(&calculus).is_none());
    assert!(store.get_exercise(&"d1".to_string()).is_none());
    assert!(store.get_exercise(&"d2".to_string()).is_none());
    assert!(store.get_exercise(&"d3".to_string()).is_some());
}

#[test]
fn delete_week_removes_only_that_week() {
    let mut store = HierarchyStore::new();
    store.upsert_exercise(&make_record("w1", "One", "C", 1, &[]));
    store.upsert_exercise(&make_record("w2", "Two", "C", 2, &[]));
    let orphans = store.delete_week(&"C".to_string(), 1);
    assert!(orphans.is_empty());
    assert!(store.get_exercise(&"w1".to_string()).is_none());
    assert!(store.get_exercise(&"w2".to_string()).is_some());
    let course = store.get_course(&"C".to_string()).expect("course remains");
    assert_eq!(course.weeks.len(), 1);
    assert_eq!(course.weeks[0].week_number, 2);
}

#[test]
fn delete_exercise_keeps_shared_assets() {
    let mut store = HierarchyStore::new();
    let mut a = make_record("e1", "A", "C", 1, &[]);
    a.image_path = Some("images/a.png".to_string());
    a.page_image_path = Some("images/page.png".to_string());
    let mut b = make_record("e2", "B", "C", 1, &[]);
    b.page_image_path = Some("images/page.png".to_string());
    store.upsert_exercise(&a);
    store.upsert_exercise(&b);
    let orphans = store.delete_exercise(&"e1".to_string());
    assert_eq!(orphans, vec!["images/a.png"]);
    assert!(store.get_exercise(&"e1".to_string()).is_none());
}

#[test]
fn rename_to_existing_course_is_rejected() {
    let mut store = HierarchyStore::new();
    store.upsert_exercise(&make_record("r1", "One", "Alpha", 1, &["x"]));
    store.upsert_exercise(&make_record("r2", "Two", "Beta", 1, &["y"]));
    let r = store.rename_course(&"Alpha".to_string(), &"Beta".to_string());
    assert_eq!(r, Err(StoreError::IntegrityViolation));
    assert_eq!(r.unwrap_err().message(), "integrity violation");
    // Both courses' exercises are unchanged.
    let alpha = store.get_course(&"Alpha".to_string()).expect("alpha intact");
    assert_eq!(alpha.weeks[0].data.exercises[0].name, "One");
    let beta = store.get_course(&"Beta".to_string()).expect("beta intact");
    assert_eq!(beta.weeks[0].data.exercises[0].name, "Two");
}

#[test]
fn rename_moves_every_record() {
    let mut store = HierarchyStore::new();
    store.upsert_exercise(&make_record("m1", "One", "Old", 1, &[]));
    store.upsert_exercise(&make_record("m2", "Two", "Old", 2, &[]));
    assert!(store.rename_course(&"Old".to_string(), &"New".to_string()).is_ok());
    assert!(store.get_course(&"Old".to_string()).is_none());
    let course = store.get_course(&"New".to_string()).expect("renamed");
    assert_eq!(course.weeks.len(), 2);
}

#[test]
fn search_is_case_insensitive_substring() {
    let mut store = HierarchyStore::new();
    store.upsert_exercise(&make_record("s1", "Derivative Practice", "C", 1, &[]));
    store.upsert_exercise(&make_record("s2", "Integrals", "C", 1, &[]));
    let hits = store.search(&"deriv".to_string());
    assert_eq!(hits.len(), 1);
    assert_eq!(hits[0].id, "s1");
    assert_eq!(hits[0].name, "Derivative Practice");
    let none = store.search(&"statistics".to_string());
    assert!(none.is_empty());
}

#[test]
fn filter_by_tags_is_case_insensitive() {
    let mut store = HierarchyStore::new();
    store.upsert_exercise(&make_record("t1", "One", "C", 1, &["calculus", "limits"]));
    store.upsert_exercise(&make_record("t2", "Two", "C", 1, &["algebra"]));
    let hits = store.filter_by_tags(&vec!["Calculus".to_string()]);
    assert_eq!(hits.len(), 1);
    assert_eq!(hits[0].id, "t1");
    let none = store.filter_by_tags(&vec!["geometry".to_string()]);
    assert!(none.is_empty());
}

#[test]
fn bounding_box_round_trips_through_store() {
    let mut store = HierarchyStore::new();
    let mut rec = make_record("bb1", "Boxed", "C", 1, &[]);
    rec.bounding_box = Some(BoundingBox { y: 10, height: 20 });
    store.upsert_exercise(&rec);
    let back = store.get_exercise(&"bb1".to_string()).expect("stored");
    assert_eq!(back.bounding_box, Some(BoundingBox { y: 10, height: 20 }));
}

#[test]
fn upsert_replaces_by_id() {
    let mut store = HierarchyStore::new();
    store.upsert_exercise(&make_record("u1", "Before", "C", 1, &[]));
    store.upsert_exercise(&make_record("u1", "After", "D", 2, &[]));
    let back = store.get_exercise(&"u1".to_string()).expect("stored");
    assert_eq!(back.name, "After");
    assert_eq!(back.course, "D");
    assert!(store.get_course(&"C".to_string()).is_none());
}

#[test]
fn list_all_orders_courses_and_weeks() {
    let mut store = HierarchyStore::new();
    store.upsert_exercise(&make_record("l1", "One", "Zoology", 2, &[]));
    store.upsert_exercise(&make_record("l2", "Two", "Algebra", 5, &[]));
    store.upsert_exercise(&make_record("l3", "Three", "Algebra", 1, &[]));
    let db = store.list_all();
    let names: Vec<String> = db.courses.iter().map(|c| c.name.clone()).collect();
    assert_eq!(names, vec!["Algebra", "Zoology"]);
    let algebra = &db.courses[0].data;
    let weeks: Vec<i64> = algebra.weeks.iter().map(|w| w.week_number).collect();
    assert_eq!(weeks, vec![1, 5]);
    assert_eq!(algebra.weeks[0].label, "week1");
    assert_eq!(algebra.weeks[1].label, "week5");
}

#[test]
fn update_exercise_rewrites_name_and_tags_only() {
    let mut store = HierarchyStore::new();
    let mut rec = make_record("up1", "Old Name", "C", 1, &["old"]);
    rec.bounding_box = Some(BoundingBox { y: 1, height: 2 });
    rec.notes = Some("keep me".to_string());
    store.upsert_exercise(&rec);
    store.update_exercise(
        &"up1".to_string(),
        &"New Name".to_string(),
        &vec!["new".to_string(), "tags".to_string()],
    );
    let back = store.get_exercise(&"up1".to_string()).expect("stored");
    assert_eq!(back.name, "New Name");
    assert_eq!(back.tags, vec!["new", "tags"]);
    assert_eq!(back.notes.as_deref(), Some("keep me"));
    assert_eq!(back.bounding_box, Some(BoundingBox { y: 1, height: 2 }));
    // Updating an absent id changes nothing.
    store.update_exercise(&"ghost".to_string(), &"X".to_string(), &vec![]);
    assert_eq!(store.list_exercises().len(), 1);
}

#[test]
fn list_exercises_returns_every_record_in_order() {
    let mut store = HierarchyStore::new();
    store.upsert_exercise(&make_record("o1", "One", "C", 1, &[]));
    store.upsert_exercise(&make_record("o2", "Two", "D", 2, &[]));
    let all = store.list_exercises();
    assert_eq!(all.len(), 2);
    assert_eq!(all[0].id, "o1");
    assert_eq!(all[1].id, "o2");
}

#[test]
fn search_orders_results_by_name() {
    let mut store = HierarchyStore::new();
    store.upsert_exercise(&make_record("n1", "alpha task", "C", 1, &[]));
    store.upsert_exercise(&make_record("n2", "Bravo task", "C", 1, &[]));
    store.upsert_exercise(&make_record("n3", "Alpha task", "C", 1, &[]));
    let hits = store.search(&"task".to_string());
    let names: Vec<String> = hits.iter().map(|h| h.name.clone()).collect();
    assert_eq!(names, vec!["Alpha task", "Bravo task", "alpha task"]);
}

#[test]
fn filter_by_tags_folds_unicode_case() {
    let mut store = HierarchyStore::new();
    store.upsert_exercise(&make_record("u1", "One", "C", 1, &["\u{dc}bung"]));
    let hits = store.filter_by_tags(&vec!["\u{fc}bung".to_string()]);
    assert_eq!(hits.len(), 1);
    assert_eq!(hits[0].id, "u1");
}
