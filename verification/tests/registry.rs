use cutflow::production::asset::AssetPool;
use cutflow::production::task::TaskError;
use cutflow::production::workflow::WorkflowType;
use cutflow::production::asset::AssetError;
use cutflow::production::{
    DriveId, Participant, ParticipantError, ParticipantId, Project, ProjectError, ProjectRegistry,
    ServerId,
};

fn drive(name: &str) -> DriveId {
    DriveId::new(name.to_string())
}

#[test]
fn add_project_reads_back_under_both_identifiers() {
    let mut reg = ProjectRegistry::new();
    let k = reg.add_project(ServerId::new(1), drive("alpha")).unwrap();
    assert_eq!(reg.key_from_server(&ServerId::new(1)), Ok(k));
    assert_eq!(reg.key_from_drive(&drive("alpha")), Ok(k));
    assert_eq!(reg.server_id(k), Ok(ServerId::new(1)));
    assert_eq!(reg.drive_id(k).unwrap().inner(), "alpha");
    let p = reg.project(k).unwrap();
    assert!(p.tasks().keys_iter().is_empty());
}

#[test]
fn add_project_refuses_a_taken_identifier() {
    let mut reg = ProjectRegistry::new();
    let k = reg.add_project(ServerId::new(1), drive("alpha")).unwrap();
    assert_eq!(reg.add_project(ServerId::new(1), drive("beta")), Err(ProjectError::IdDuplicated));
    assert_eq!(reg.add_project(ServerId::new(2), drive("alpha")), Err(ProjectError::IdDuplicated));
    assert_eq!(reg.key_from_server(&ServerId::new(2)), Err(ProjectError::NotFound));
    assert_eq!(reg.key_from_drive(&drive("beta")), Err(ProjectError::NotFound));
    assert_eq!(reg.key_from_server(&ServerId::new(1)), Ok(k));
}

#[test]
fn two_projects_keep_their_own_identifiers() {
    let mut reg = ProjectRegistry::default();
    let k1 = reg.add_project(ServerId::new(10), drive("one")).unwrap();
    let k2 = reg.add_project(ServerId::new(20), drive("two")).unwrap();
    assert_ne!(k1, k2);
    assert_eq!(reg.server_id(k1), Ok(ServerId::new(10)));
    assert_eq!(reg.server_id(k2), Ok(ServerId::new(20)));
    assert_eq!(reg.drive_id(k1), Ok(drive("one")));
    assert_eq!(reg.drive_id(k2), Ok(drive("two")));
    assert_eq!(reg.key_from_drive(&drive("two")), Ok(k2));
}

#[test]
fn delete_project_removes_the_project_and_its_identifiers() {
    let mut reg = ProjectRegistry::new();
    let k = reg.add_project(ServerId::new(3), drive("gamma")).unwrap();
    let other = reg.add_project(ServerId::new(4), drive("delta")).unwrap();
    assert_eq!(reg.delete_project(k), Ok(()));
    assert!(matches!(reg.project(k), Err(ProjectError::NotFound)));
    assert!(matches!(reg.project_mut(k), Err(ProjectError::NotFound)));
    assert_eq!(reg.key_from_server(&ServerId::new(3)), Err(ProjectError::NotFound));
    assert_eq!(reg.key_from_drive(&drive("gamma")), Err(ProjectError::NotFound));
    assert_eq!(reg.server_id(k), Err(ProjectError::NotFound));
    assert_eq!(reg.drive_id(k), Err(ProjectError::NotFound));
    assert_eq!(reg.delete_project(k), Err(ProjectError::NotFound));
    assert_eq!(reg.key_from_server(&ServerId::new(4)), Ok(other));
    assert!(reg.project(other).is_ok());
}

#[test]
fn identifiers_are_free_again_after_delete() {
    let mut reg = ProjectRegistry::new();
    let k = reg.add_project(ServerId::new(5), drive("eps")).unwrap();
    reg.delete_project(k).unwrap();
    let again = reg.add_project(ServerId::new(5), drive("eps")).unwrap();
    assert_ne!(k, again);
    assert_eq!(reg.key_from_server(&ServerId::new(5)), Ok(again));
    assert!(matches!(reg.project(k), Err(ProjectError::NotFound)));
}

#[test]
fn identifiers_give_back_their_values() {
    assert_eq!(ServerId::new(42).inner(), 42);
    assert_eq!(ParticipantId::new(7).inner(), 7);
    let d = drive("shared");
    assert_eq!(d.inner(), "shared");
    assert_eq!(d, drive("shared"));
    assert_ne!(d, drive("other"));
}

#[test]
fn participants_are_set_read_and_deleted() {
    let mut reg = ProjectRegistry::new();
    let k = reg.add_project(ServerId::new(1), drive("p")).unwrap();
    let p = reg.project_mut(k).unwrap();
    let id = ParticipantId::new(7);
    assert!(matches!(
        p.participant(&id),
        Err(ProjectError::Participant(ParticipantError::NotFound))
    ));
    p.set_participant(id, Participant::new("Aki".to_string()));
    assert_eq!(p.participant(&id).unwrap().name(), "Aki");
    p.set_participant(id, Participant::new("Ren".to_string()));
    assert_eq!(p.participant(&id).unwrap().name(), "Ren");
    assert_eq!(p.delete_participant(id), Ok(()));
    assert_eq!(
        p.delete_participant(id),
        Err(ProjectError::Participant(ParticipantError::NotFound))
    );
    assert!(reg.project(k).unwrap().participant(&id).is_err());
}

#[test]
fn discard_task_needs_a_participant_or_a_deadline() {
    let mut p = Project::new();
    p.tasks_mut().add_task(WorkflowType::Layout);
    let key = p.tasks().key(0).unwrap();
    assert_eq!(p.discard_task(key), Err(ProjectError::Task(TaskError::NoAuthority)));
    assert!(p.tasks().task(key).is_ok());
    p.tasks_mut().task_mut(key).unwrap().set_participant(ParticipantId::new(1));
    assert_eq!(p.discard_task(key), Ok(()));
    assert!(p.tasks().task(key).is_err());
    assert_eq!(p.tasks().key(0), Err(TaskError::NotFound));
    assert_eq!(p.discard_task(key), Err(ProjectError::Task(TaskError::NotFound)));
}

#[test]
fn discard_task_with_a_deadline() {
    let mut p = Project::default();
    p.tasks_mut().add_task(WorkflowType::Painting);
    p.tasks_mut().add_task(WorkflowType::InBetween);
    let first = p.tasks().key(0).unwrap();
    let second = p.tasks().key(1).unwrap();
    let date = chrono::NaiveDate::from_ymd_opt(2024, 4, 1).unwrap();
    p.tasks_mut().task_mut(first).unwrap().set_deadline(date);
    assert_eq!(p.discard_task(first), Ok(()));
    assert_eq!(p.tasks().keys_iter(), &[second][..]);
}

#[test]
fn stack_asset_reports_a_missing_asset_or_task() {
    let mut p = Project::new();
    p.tasks_mut().add_task(WorkflowType::Layout);
    let task = p.tasks().key(0).unwrap();
    let mut elsewhere = AssetPool::new();
    let asset = elsewhere.add_asset(WorkflowType::Layout, "bg".to_string());
    assert_eq!(p.stack_asset(asset, task), Err(ProjectError::Asset(AssetError::NotFound)));
    assert_eq!(p.tasks().task(task).unwrap().workflow_type(), WorkflowType::Layout);
}

#[test]
fn project_errors_pass_their_messages_through() {
    assert_eq!(ProjectError::IdDuplicated.message(), "id duplicated");
    assert_eq!(ProjectError::NotFound.message(), "project not found");
    assert_eq!(ProjectError::Asset(AssetError::InUse).message(), "asset is in use");
    assert_eq!(ProjectError::Task(TaskError::NotFound).message(), "task not found");
    assert_eq!(ProjectError::Task(TaskError::NoAuthority).message(), "");
    assert_eq!(
        ProjectError::Participant(ParticipantError::NotFound).message(),
        "participant not found"
    );
    assert_eq!(ParticipantError::NotFound.message(), "participant not found");
    assert_eq!(
        ProjectError::Workflow(cutflow::production::workflow::WorkflowError::TypeMismatch).message(),
        "type mismatch"
    );
    assert_eq!(
        ProjectError::Cut(cutflow::production::cut::CutError::LimitExceeded).message(),
        "cut limit exceeded"
    );
}

#[test]
fn identifiers_with_the_same_value_are_equal() {
    assert_eq!(ServerId::new(8), ServerId::new(8));
    assert_ne!(ServerId::new(8), ServerId::new(9));
    assert_eq!(ParticipantId::new(8), ParticipantId::new(8));
    assert_ne!(ParticipantId::new(8), ParticipantId::new(9));
    assert_eq!(drive("same"), DriveId::new(String::from("same")));
    assert_ne!(drive("same"), drive("Same"));
}
