use room_graph::plan::{plan_of_doors, WalkStep};
use room_graph::plan_text::{encode_doors, encode_plan, parse_plan, PlanError};

#[test]
fn doors_are_written_as_digits() {
    assert_eq!(encode_doors(&vec![0, 5, 3, 3]).unwrap(), b"0533".to_vec());
}

#[test]
fn rewrites_are_written_in_brackets() {
    let plan = vec![WalkStep::Edge(1), WalkStep::Rewrite(2), WalkStep::Edge(0), WalkStep::Rewrite(0)];
    assert_eq!(encode_plan(&plan).unwrap(), b"1[2]0[0]".to_vec());
}

#[test]
fn empty_plan_has_empty_text() {
    assert_eq!(encode_plan(&vec![]).unwrap(), Vec::<u8>::new());
    assert_eq!(parse_plan(&vec![], 0, true), Ok(vec![]));
}

#[test]
fn steps_out_of_range_have_no_text() {
    assert!(encode_plan(&vec![WalkStep::Edge(6)]).is_none());
    assert!(encode_plan(&vec![WalkStep::Rewrite(4)]).is_none());
    assert!(encode_doors(&vec![1, 2, 9]).is_none());
}

#[test]
fn text_is_read_back_as_the_plan() {
    let plan = vec![
        WalkStep::Rewrite(3),
        WalkStep::Edge(5),
        WalkStep::Edge(0),
        WalkStep::Rewrite(1),
        WalkStep::Rewrite(0),
        WalkStep::Edge(2),
    ];
    let text = encode_plan(&plan).unwrap();
    assert_eq!(parse_plan(&text, 3, true), Ok(plan));
}

#[test]
fn plan_with_too_many_doors_is_too_long() {
    let text = b"01[2]2".to_vec();
    assert_eq!(parse_plan(&text, 2, true), Err(PlanError::TooLong));
    assert!(parse_plan(&text, 3, true).is_ok());
}

#[test]
fn rewrites_do_not_count_as_doors() {
    let text = b"[0][1][2][3]".to_vec();
    assert_eq!(parse_plan(&text, 0, true).unwrap().len(), 4);
}

#[test]
fn bad_texts_are_invalid() {
    for text in ["6", "a", "[4]", "[1", "[]", "1]", "[12]", "0 1", "[1]]", "01[", "-1"] {
        assert_eq!(parse_plan(&text.as_bytes().to_vec(), 100, true), Err(PlanError::Invalid), "{}", text);
    }
}

#[test]
fn invalid_comes_before_too_long() {
    assert_eq!(parse_plan(&b"0000x".to_vec(), 1, true), Err(PlanError::Invalid));
}

#[test]
fn plan_of_doors_takes_every_door() {
    assert_eq!(
        plan_of_doors(&vec![2, 4]),
        vec![WalkStep::Edge(2), WalkStep::Edge(4)]
    );
}

#[test]
fn bracketed_labels_are_invalid_without_rewriting() {
    assert_eq!(parse_plan(&b"[1]0".to_vec(), 100, false), Err(PlanError::Invalid));
    assert_eq!(parse_plan(&b"012[3]".to_vec(), 100, false), Err(PlanError::Invalid));
    // invalid also where the plan would be too long
    assert_eq!(parse_plan(&b"000[3]".to_vec(), 1, false), Err(PlanError::Invalid));
    assert_eq!(parse_plan(&b"[1]0".to_vec(), 100, true), Ok(vec![WalkStep::Rewrite(1), WalkStep::Edge(0)]));
}

#[test]
fn door_digits_are_read_with_and_without_rewriting() {
    let plan = vec![WalkStep::Edge(0), WalkStep::Edge(5), WalkStep::Edge(3)];
    assert_eq!(parse_plan(&b"053".to_vec(), 3, false), Ok(plan.clone()));
    assert_eq!(parse_plan(&b"053".to_vec(), 3, true), Ok(plan));
    assert_eq!(parse_plan(&b"053".to_vec(), 2, false), Err(PlanError::TooLong));
}
