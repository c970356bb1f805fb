use arustylock::replace::{FileStep, Replacement};

fn run(outcomes: &[bool]) -> Vec<FileStep> {
    let mut r = Replacement::new();
    let mut steps = vec![r.step()];
    for &ok in outcomes {
        steps.push(r.advance(ok));
    }
    steps
}

#[test]
fn successful_replacement_commits_after_rename() {
    assert_eq!(
        run(&[true, true, true, true]),
        vec![
            FileStep::WriteTemp,
            FileStep::SyncTemp,
            FileStep::RenameOverVault,
            FileStep::Committed,
            FileStep::Committed,
        ]
    );
}

#[test]
fn failed_write_removes_temp_and_aborts() {
    assert_eq!(
        run(&[false, true, true]),
        vec![FileStep::WriteTemp, FileStep::RemoveTemp, FileStep::Aborted, FileStep::Aborted]
    );
}

#[test]
fn failed_sync_never_renames() {
    assert_eq!(
        run(&[true, false, false]),
        vec![FileStep::WriteTemp, FileStep::SyncTemp, FileStep::RemoveTemp, FileStep::Aborted]
    );
}

#[test]
fn failed_rename_aborts() {
    assert_eq!(
        run(&[true, true, false, true]),
        vec![
            FileStep::WriteTemp,
            FileStep::SyncTemp,
            FileStep::RenameOverVault,
            FileStep::RemoveTemp,
            FileStep::Aborted,
        ]
    );
}
