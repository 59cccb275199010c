use vaulty::extract::{finalize_candidate, finalize_candidates, strip_transport_prefix,
    PageCandidate};
use vaulty::tags::normalize_tags;

#[test]
fn tag_normalization_merges_sorts_and_dedups() {
    let tags = normalize_tags(
        &"homework".to_string(),
        &vec!["calculus".to_string(), "limits".to_string()],
    );
    assert_eq!(tags, vec!["calculus", "homework", "limits"]);
}

#[test]
fn tag_normalization_drops_duplicates() {
    let tags = normalize_tags(
        &"exam".to_string(),
        &vec!["exam".to_string(), "algebra".to_string(), "algebra".to_string()],
    );
    assert_eq!(tags, vec!["algebra", "exam"]);
}

#[test]
fn finalize_candidate_stamps_and_normalizes() {
    let candidate = PageCandidate {
        name: "Ex 1.2 Ridge Regression".to_string(),
        exercise_type: "homework".to_string(),
        tags: vec!["calculus".to_string(), "limits".to_string()],
    };
    let rec = finalize_candidate(&candidate);
    assert_eq!(rec.name, "Ex 1.2 Ridge Regression");
    assert_eq!(rec.tags, vec!["calculus", "homework", "limits"]);
    assert_eq!(rec.id.len(), 36);
    let rec2 = finalize_candidate(&candidate);
    assert_ne!(rec.id, rec2.id);
}

#[test]
fn finalize_candidates_keeps_order_and_count() {
    let cs = vec![
        PageCandidate {
            name: "First".to_string(),
            exercise_type: "exercise".to_string(),
            tags: vec![],
        },
        PageCandidate {
            name: "Second".to_string(),
            exercise_type: "programming".to_string(),
            tags: vec!["recursion".to_string()],
        },
    ];
    let rs = finalize_candidates(&cs);
    assert_eq!(rs.len(), 2);
    assert_eq!(rs[0].name, "First");
    assert_eq!(rs[0].tags, vec!["exercise"]);
    assert_eq!(rs[1].name, "Second");
    assert_eq!(rs[1].tags, vec!["programming", "recursion"]);
}

#[test]
fn transport_prefix_is_stripped() {
    assert_eq!(
        strip_transport_prefix(&"data:image/png;base64,AAAA".to_string()),
        "AAAA"
    );
    assert_eq!(
        strip_transport_prefix(&"data:image/jpeg;base64,xyz".to_string()),
        "xyz"
    );
    assert_eq!(strip_transport_prefix(&"plainpayload".to_string()), "plainpayload");
    assert_eq!(strip_transport_prefix(&"".to_string()), "");
}
