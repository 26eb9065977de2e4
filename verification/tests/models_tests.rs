use icbm::models::{Event, Status, StatusError, Task, Tree};
use icbm::utils::Describable;

#[test]
fn task_transitions() {
    let mut t = Task::new("demo", 42u32);
    assert_eq!(t.status, Status::Pending);
    t.transition(Status::Running).unwrap();
    t.transition(Status::Completed).unwrap();
    assert_eq!(t.status, Status::Completed);
}

#[test]
fn task_invalid_transition() {
    let mut t = Task::new("demo", 42u32);
    let err = t.transition(Status::Completed);
    assert!(err.is_err());
}

#[test]
fn tree_depth_and_size() {
    let tree = Tree::leaf(1)
        .with_child(Tree::leaf(2).with_child(Tree::leaf(3)))
        .with_child(Tree::leaf(4));
    assert_eq!(tree.depth(), 2);
    assert_eq!(tree.size(), 4);
}

#[test]
fn tree_walk() {
    let tree = Tree::leaf("a").with_child(Tree::leaf("b")).with_child(Tree::leaf("c"));
    let mut visited = vec![];
    tree.walk(&mut |v: &&str| visited.push(*v));
    assert_eq!(visited, vec!["a", "b", "c"]);
}

#[test]
fn tree_walk_is_depth_first_preorder() {
    let tree = Tree::leaf(1)
        .with_child(Tree::leaf(2).with_child(Tree::leaf(3)).with_child(Tree::leaf(4)))
        .with_child(Tree::leaf(5).with_child(Tree::leaf(6)));
    let mut visited = vec![];
    tree.walk(&mut |v: &i32| visited.push(*v));
    assert_eq!(visited, vec![1, 2, 3, 4, 5, 6]);
    let values: Vec<i32> = tree.preorder_values().into_iter().copied().collect();
    assert_eq!(values, visited);
    assert_eq!(tree.size(), 6);
    assert_eq!(tree.depth(), 2);
}

#[test]
fn leaf_has_depth_zero_and_size_one() {
    let leaf = Tree::leaf('x');
    assert_eq!(leaf.depth(), 0);
    assert_eq!(leaf.size(), 1);
    assert!(leaf.children.is_empty());
}

#[test]
fn every_allowed_transition() {
    let all = [Status::Pending, Status::Running, Status::Completed, Status::Failed, Status::Cancelled];
    let allowed = [
        (Status::Pending, Status::Running),
        (Status::Running, Status::Completed),
        (Status::Running, Status::Failed),
        (Status::Pending, Status::Cancelled),
        (Status::Running, Status::Cancelled),
    ];
    for from in all {
        for to in all {
            let mut t = Task::new("t", ());
            t.status = from;
            let result = t.transition(to);
            if allowed.contains(&(from, to)) {
                assert_eq!(result, Ok(()));
                assert_eq!(t.status, to);
            } else {
                assert_eq!(result, Err(StatusError::InvalidTransition { from, to }));
                assert_eq!(t.status, from);
            }
        }
    }
}

#[test]
fn terminal_statuses_refuse_every_transition() {
    for from in [Status::Completed, Status::Failed, Status::Cancelled] {
        for to in [Status::Pending, Status::Running, Status::Completed, Status::Failed, Status::Cancelled] {
            let mut t = Task::new("t", 0u8);
            t.status = from;
            assert!(t.transition(to).is_err());
        }
    }
}

#[test]
fn status_names_and_error_message() {
    assert_eq!(Status::Pending.as_str(), "pending");
    assert_eq!(Status::Running.as_str(), "running");
    assert_eq!(Status::Completed.as_str(), "completed");
    assert_eq!(Status::Failed.as_str(), "failed");
    assert_eq!(Status::Cancelled.as_str(), "cancelled");
    let err = StatusError::InvalidTransition { from: Status::Pending, to: Status::Completed };
    assert_eq!(err.message(), "Invalid status transition: pending → completed");
}

#[test]
fn task_builders_and_description() {
    let task = Task::new("build", vec![1u8, 2])
        .with_tag("fast")
        .with_tag("ci")
        .with_meta("owner", "alice")
        .with_meta("owner", "bob")
        .with_meta("team", "infra");
    assert_eq!(task.name, "build");
    assert_eq!(task.payload, vec![1u8, 2]);
    assert_eq!(task.tags, vec!["fast".to_string(), "ci".to_string()]);
    assert_eq!(task.metadata.get("owner"), Some(&"bob".to_string()));
    assert_eq!(task.metadata.get("team"), Some(&"infra".to_string()));
    assert_eq!(task.metadata.len(), 2);
    let id_text = task.id.to_text();
    assert_eq!(task.describe(), format!("Task[{}] 'build' (pending)", id_text));
}

#[test]
fn new_tasks_and_events_get_fresh_version_4_ids() {
    let a = Task::new("a", 1i64);
    let b = Task::new("b", 2i64);
    assert_ne!(a.id, b.id);
    let text = a.id.to_text();
    assert_eq!(text.len(), 36);
    assert_eq!(text.chars().nth(14), Some('4'));
    let event = Event::new("created", "payload");
    assert_eq!(event.kind, "created");
    assert_eq!(event.data, "payload");
    assert_eq!(event.version, 1);
    assert_ne!(event.id, a.id);
}

#[test]
fn cloned_tree_has_the_same_shape_and_values() {
    let tree = Tree::leaf(1).with_child(Tree::leaf(2).with_child(Tree::leaf(3))).with_child(Tree::leaf(4));
    let copy = tree.clone();
    assert_eq!(copy.size(), tree.size());
    assert_eq!(copy.depth(), tree.depth());
    let a: Vec<i32> = tree.preorder_values().into_iter().copied().collect();
    let b: Vec<i32> = copy.preorder_values().into_iter().copied().collect();
    assert_eq!(a, b);
}
