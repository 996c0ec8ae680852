use sakura::{SseRequest, SseResponse};
use sakura::{
    CaseNode, CaseTree, DueDateTime, Error, Group, Moment, NodeId, NodeIdError, Priority, Task,
};
use chrono::{NaiveDate, NaiveDateTime, NaiveTime};
use std::cmp::Ordering;

#[test]
fn p_values_are_fibonacci_numbers() {
    assert_eq!(Priority::Far.p_value(), 2);
    assert_eq!(Priority::Low.p_value(), 3);
    assert_eq!(Priority::Medium.p_value(), 5);
    assert_eq!(Priority::High.p_value(), 8);
    assert_eq!(Priority::Asap.p_value(), 13);
}

#[test]
fn priorities_are_ordered_by_urgency() {
    let rising = [Priority::Far, Priority::Low, Priority::Medium, Priority::High, Priority::Asap];
    for i in 0..rising.len() {
        for j in 0..rising.len() {
            assert_eq!(rising[i].partial_cmp(&rising[j]), Some(i.cmp(&j)));
            assert_eq!(rising[i].cmp(&rising[j]), i.cmp(&j));
            assert_eq!(rising[i] < rising[j], i < j);
        }
    }
    assert_eq!(Priority::default(), Priority::Medium);
}

#[test]
fn groups_are_ordered_by_priority_alone() {
    let a = Group::new("a".to_string(), Priority::High);
    let b = Group::new("b".to_string(), Priority::High);
    let c = Group::new("c".to_string(), Priority::Low);
    assert_eq!(a.partial_cmp(&b), Some(Ordering::Equal));
    assert_eq!(a.partial_cmp(&c), Some(Ordering::Greater));
    assert_eq!(c.partial_cmp(&a), Some(Ordering::Less));
    assert_ne!(a, b);
    assert_eq!(a.name(), "a");
    assert_eq!(a.priority(), Priority::High);
}

#[test]
fn tasks_are_ordered_by_priority_alone() {
    let due = DueDateTime::new(Some(Moment { seconds: 1138669323, nanos: 0 }));
    let a = Task::new("a".to_string(), due, Priority::Asap, "first".to_string(), false);
    let b = Task::new("b".to_string(), DueDateTime::new(None), Priority::Far, String::new(), true);
    assert_eq!(a.partial_cmp(&b), Some(Ordering::Greater));
    assert_eq!(b.partial_cmp(&a), Some(Ordering::Less));
    assert_eq!(a.partial_cmp(&a), Some(Ordering::Equal));
    assert_eq!(a.name(), "a");
    assert_eq!(a.due(), due);
    assert_eq!(a.due().at.unwrap().seconds, 1138669323);
    assert_eq!(a.priority(), Priority::Asap);
    assert_eq!(a.description(), "first");
    assert!(!a.finished());
    assert!(b.finished());
    assert_eq!(b.due().at, None);
}

#[test]
fn case_tree_inserts_under_a_parent() {
    let mut tree = CaseTree::new();
    let root = tree.insert_root(CaseNode::Group(Group::new("all".to_string(), Priority::Medium)));
    let task = Task::new(
        "write".to_string(),
        DueDateTime::new(None),
        Priority::High,
        String::new(),
        false,
    );
    let id = tree.insert(CaseNode::Task(task), &root).unwrap();
    assert_eq!(tree.tree().root_node_id(), Some(&root));
    assert_eq!(tree.tree().get(&root).unwrap().children(), &vec![id]);
    assert_eq!(tree.tree().get(&id).unwrap().parent(), Some(&root));
    assert!(matches!(tree.tree().get(&id).unwrap().data(), CaseNode::Task(t) if t.name() == "write"));
    assert_eq!(tree.tree().height(), 2);
}

#[test]
fn case_tree_refuses_a_parent_that_is_not_there() {
    let mut tree = CaseTree::new();
    let group = CaseNode::Group(Group::new("g".to_string(), Priority::Low));
    let r = tree.insert(group, &NodeId::new(0));
    assert_eq!(r.err(), Some(Error::NodeIdError(NodeIdError::NodeIdNoLongerValid)));
    assert_eq!(tree.tree().slot_count(), 0);
}

#[test]
fn error_wraps_the_tree_error() {
    let e = Error::from(NodeIdError::NodeIdNoLongerValid);
    assert_eq!(e, Error::NodeIdError(NodeIdError::NodeIdNoLongerValid));
    assert_eq!(e.to_string(), "Node Id error! Could be invalid.");
}

#[test]
fn a_due_date_is_written_as_fourteen_digits() {
    // 2006-01-31 01:02:03
    let due = DueDateTime::new(Some(Moment { seconds: 1138669323, nanos: 0 }));
    assert_eq!(due.to_text(), Some("20060131010203".to_string()));
    let early = DueDateTime::new(Some(Moment { seconds: 0, nanos: 999 }));
    assert_eq!(early.to_text(), Some("19700101000000".to_string()));
}

#[test]
fn no_due_date_has_a_text_of_its_own() {
    assert_eq!(DueDateTime::new(None).to_text(), Some("No Due Date".to_string()));
    assert_eq!(DueDateTime::from_text("No Due Date"), Some(DueDateTime::new(None)));
}

#[test]
fn a_due_date_is_read_back_from_its_text() {
    let due = DueDateTime::new(Some(Moment { seconds: 1138669323, nanos: 0 }));
    assert_eq!(DueDateTime::from_text("20060131010203"), Some(due));
    let text = due.to_text().unwrap();
    assert_eq!(DueDateTime::from_text(&text), Some(due));
}

#[test]
fn a_text_that_is_no_date_is_refused() {
    assert_eq!(DueDateTime::from_text(""), None);
    assert_eq!(DueDateTime::from_text("no due date"), None);
    assert_eq!(DueDateTime::from_text("20061331010203"), None);
    assert_eq!(DueDateTime::from_text("2006-01-31 01:02:03"), None);
}

#[test]
fn a_point_in_time_out_of_range_has_no_text() {
    let far = DueDateTime::new(Some(Moment { seconds: i64::MAX, nanos: 0 }));
    assert_eq!(far.to_text(), None);
    let bad = DueDateTime::new(Some(Moment { seconds: 0, nanos: u32::MAX }));
    assert_eq!(bad.to_text(), None);
}

#[test]
fn reconcile_due_date_time() {
    // testing no due date
    {
        let due_date_time = DueDateTime::new(None);

        let expected = due_date_time.clone();

        let text = due_date_time.to_text().unwrap();

        let result = DueDateTime::from_text(&text).unwrap();

        assert_eq!(result, expected);
    }

    // Testing a real due date.
    {
        let date_time = NaiveDateTime::new(
            NaiveDate::from_ymd_opt(2006, 1, 31).unwrap(),
            NaiveTime::from_hms_opt(1, 2, 3).unwrap(),
        )
        .and_utc();
        let due_date_time = DueDateTime::new(Some(Moment {
            seconds: date_time.timestamp(),
            nanos: date_time.timestamp_subsec_nanos(),
        }));

        let expected = due_date_time.clone();

        let text = due_date_time.to_text().unwrap();

        let result = DueDateTime::from_text(&text).unwrap();

        assert_eq!(result, expected);
    }
}

#[test]
fn a_stream_is_done_only_at_its_end() {
    assert!(SseResponse::Done.is_done());
    assert!(!SseResponse::Chunk(vec![1, 2, 3]).is_done());
    assert!(!SseResponse::Chunk(Vec::new()).is_done());
    let request = SseRequest { url: "http://localhost/sse".to_string() };
    assert_eq!(request.clone(), request);
}
