use parallel_world::{WorldError, WorldStatus};

#[test]
fn status_is_written_as_its_name() {
    assert_eq!(WorldStatus::Ready.to_string(), "Ready");
    assert_eq!(WorldStatus::Running.to_string(), "Running");
    assert_eq!(WorldStatus::Finished.to_string(), "Finished");
    assert_eq!(WorldStatus::Stopped.to_string(), "Stopped");
}

#[test]
fn failed_status_is_written_with_its_reason() {
    assert_eq!(
        WorldStatus::Failed("テストエラー".to_string()).to_string(),
        "Failed: テストエラー"
    );
    assert_eq!(WorldStatus::Failed(String::new()).to_string(), "Failed: ");
}

#[test]
fn statuses_compare_by_variant_and_reason() {
    assert_eq!(WorldStatus::Ready, WorldStatus::Ready);
    assert_ne!(WorldStatus::Ready, WorldStatus::Running);
    assert_ne!(WorldStatus::Finished, WorldStatus::Stopped);
    assert_eq!(WorldStatus::Failed("a".to_string()), WorldStatus::Failed("a".to_string()));
    assert_ne!(WorldStatus::Failed("a".to_string()), WorldStatus::Failed("b".to_string()));
    assert_ne!(WorldStatus::Failed("a".to_string()), WorldStatus::Finished);
}

#[test]
fn status_clone_keeps_the_reason() {
    let failed = WorldStatus::Failed("why".to_string());
    assert_eq!(failed.clone(), failed);
    assert_eq!(WorldStatus::Running.clone(), WorldStatus::Running);
}

#[test]
fn errors_are_written_as_sentences() {
    assert_eq!(
        WorldError::NotFound("A".to_string()).to_string(),
        "World with ID 'A' not found."
    );
    assert_eq!(
        WorldError::DuplicateId("A".to_string()).to_string(),
        "World with ID 'A' already exists."
    );
    assert_eq!(WorldError::AlreadyRunning.to_string(), "World is already running.");
    assert_eq!(
        WorldError::AlreadyCompleted.to_string(),
        "World has already completed or failed and cannot be restarted."
    );
    assert_eq!(
        WorldError::NotRunning.to_string(),
        "World is not running or already stopped."
    );
    assert_eq!(
        WorldError::StillRunning("WR".to_string()).to_string(),
        "Cannot delete running World with ID 'WR'. Stop it first."
    );
    assert_eq!(WorldError::NoCallable.to_string(), "No process defined for this World.");
    assert_eq!(
        WorldError::ResultAlreadyRetrieved.to_string(),
        "World result already retrieved."
    );
    assert_eq!(WorldError::Failed("boom".to_string()).to_string(), "boom");
    assert_eq!(WorldError::Stopped.to_string(), "World was stopped before completion.");
    assert_eq!(
        WorldError::TypeMismatch.to_string(),
        "World result is not of the requested type."
    );
}

#[test]
fn errors_compare_by_variant_and_text() {
    assert_eq!(WorldError::NotFound("A".to_string()), WorldError::NotFound("A".to_string()));
    assert_ne!(WorldError::NotFound("A".to_string()), WorldError::NotFound("B".to_string()));
    assert_ne!(WorldError::NotFound("A".to_string()), WorldError::DuplicateId("A".to_string()));
    assert_ne!(WorldError::StillRunning("A".to_string()), WorldError::NotFound("A".to_string()));
    assert_eq!(WorldError::Failed("x".to_string()), WorldError::Failed("x".to_string()));
    assert_ne!(WorldError::Failed("x".to_string()), WorldError::Stopped);
    assert_eq!(WorldError::TypeMismatch, WorldError::TypeMismatch);
    assert_ne!(WorldError::AlreadyRunning, WorldError::AlreadyCompleted);
    assert_ne!(WorldError::NotRunning, WorldError::NoCallable);
    assert_eq!(WorldError::ResultAlreadyRetrieved, WorldError::ResultAlreadyRetrieved);
}
