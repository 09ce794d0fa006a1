use chrono::NaiveDate;
use cutflow::production::ParticipantId;
use cutflow::production::task::{Task, TaskError, TaskList};
use cutflow::production::workflow::{
    InBetweenState, KeyAnimationState, LayoutState, PaintingState, Workflow, WorkflowError,
    WorkflowType,
};
use std::collections::BTreeSet;

fn date(d: u32) -> NaiveDate {
    NaiveDate::from_ymd_opt(2024, 5, d).unwrap()
}

#[test]
fn a_new_workflow_has_its_type_and_is_not_started() {
    assert_eq!(Workflow::new(WorkflowType::Layout), Workflow::Layout(LayoutState::NotStarted));
    assert_eq!(
        Workflow::new(WorkflowType::KeyAnimation),
        Workflow::KeyAnimation(KeyAnimationState::NotStarted)
    );
    assert_eq!(
        Workflow::new(WorkflowType::InBetween),
        Workflow::InBetween(InBetweenState::NotStarted)
    );
    assert_eq!(Workflow::new(WorkflowType::Painting), Workflow::Painting(PaintingState::NotStarted));
    for ty in [
        WorkflowType::Layout,
        WorkflowType::KeyAnimation,
        WorkflowType::InBetween,
        WorkflowType::Painting,
    ] {
        assert_eq!(Workflow::new(ty).get_type(), ty);
    }
    assert_eq!(Workflow::Painting(PaintingState::Completed).get_type(), WorkflowType::Painting);
    assert_eq!(LayoutState::default(), LayoutState::NotStarted);
    assert_eq!(PaintingState::default(), PaintingState::NotStarted);
    assert_eq!(WorkflowError::TypeMismatch.message(), "type mismatch");
}

#[test]
fn a_new_task_is_fresh() {
    let t = Task::new(WorkflowType::KeyAnimation);
    assert_eq!(t.workflow_type(), WorkflowType::KeyAnimation);
    assert_eq!(*t.workflow(), Workflow::KeyAnimation(KeyAnimationState::NotStarted));
    assert_eq!(t.participant(), None);
    assert_eq!(t.deadline(), None);
    assert!(!t.can_discard());
}

#[test]
fn participant_and_deadline_are_set_and_reset() {
    let mut t = Task::new(WorkflowType::Layout);
    t.set_participant(ParticipantId::new(3));
    assert_eq!(t.participant(), Some(ParticipantId::new(3)));
    assert!(t.can_discard());
    t.reset_participant();
    assert_eq!(t.participant(), None);
    assert!(!t.can_discard());
    t.set_deadline(date(1));
    assert_eq!(t.deadline(), Some(date(1)));
    assert!(t.can_discard());
    t.reset_deadline();
    assert_eq!(t.deadline(), None);
    *t.workflow_mut() = Workflow::Layout(LayoutState::Completed);
    assert_eq!(*t.workflow(), Workflow::Layout(LayoutState::Completed));
}

#[test]
fn can_marge_tells_tasks_that_differ() {
    let a = Task::new(WorkflowType::Layout);
    let mut b = Task::new(WorkflowType::Layout);
    assert!(!a.can_marge(&b));
    assert!(!b.can_marge(&a));
    b.set_deadline(date(2));
    assert!(a.can_marge(&b));
    assert!(b.can_marge(&a));
    let c = Task::new(WorkflowType::Painting);
    assert!(a.can_marge(&c));
    let mut d = Task::new(WorkflowType::Layout);
    d.set_participant(ParticipantId::new(1));
    assert!(a.can_marge(&d));
    let mut e = Task::new(WorkflowType::Layout);
    *e.workflow_mut() = Workflow::Layout(LayoutState::Completed);
    assert!(a.can_marge(&e));
}

#[test]
fn merge_takes_a_task_that_agrees_and_gives_back_one_that_differs() {
    let mut a = Task::new(WorkflowType::InBetween);
    a.set_deadline(date(3));
    let mut same = Task::new(WorkflowType::InBetween);
    same.set_deadline(date(3));
    assert!(a.merge(same).is_ok());
    assert_eq!(a.deadline(), Some(date(3)));
    let other = Task::new(WorkflowType::InBetween);
    let back = a.merge(other).err().unwrap();
    assert_eq!(back.deadline(), None);
    assert_eq!(a.deadline(), Some(date(3)));
}

#[test]
fn split_checks_the_indices() {
    let mut t = Task::new(WorkflowType::Painting);
    t.set_participant(ParticipantId::new(9));
    let mut indices = BTreeSet::new();
    indices.insert(0);
    assert!(matches!(t.split(indices), Err(TaskError::NotFound)));
    let part = t.split(BTreeSet::new()).ok().unwrap();
    assert_eq!(part.workflow_type(), WorkflowType::Painting);
    assert_eq!(part.participant(), Some(ParticipantId::new(9)));
    assert_eq!(part.deadline(), None);
    assert!(t.merge(part).is_ok());
}

#[test]
fn task_list_keeps_the_order_of_addition() {
    let mut list = TaskList::new();
    assert_eq!(list.key(0), Err(TaskError::NotFound));
    list.add_task(WorkflowType::Layout);
    list.add_task(WorkflowType::Painting);
    list.add_task(WorkflowType::InBetween);
    let keys: Vec<_> = list.keys_iter().to_vec();
    assert_eq!(keys.len(), 3);
    assert_eq!(list.key(1), Ok(keys[1]));
    assert_eq!(list.key(3), Err(TaskError::NotFound));
    assert_eq!(list.task(keys[1]).unwrap().workflow_type(), WorkflowType::Painting);
    list.task_mut(keys[2]).unwrap().set_participant(ParticipantId::new(4));
    assert_eq!(list.task(keys[2]).unwrap().participant(), Some(ParticipantId::new(4)));
    let removed = list.remove_task(keys[1]).ok().unwrap();
    assert_eq!(removed.workflow_type(), WorkflowType::Painting);
    assert_eq!(list.keys_iter(), &[keys[0], keys[2]][..]);
    assert!(list.task(keys[1]).is_err());
    assert!(list.task_mut(keys[1]).is_err());
    list.add_task(WorkflowType::Layout);
    assert_eq!(list.key(2).unwrap() == keys[1], false);
    assert_eq!(TaskList::default().keys_iter().len(), 0);
}

#[test]
fn task_errors_have_messages() {
    assert_eq!(TaskError::NotFound.message(), "task not found");
    assert_eq!(TaskError::NoAuthority.message(), "");
}
