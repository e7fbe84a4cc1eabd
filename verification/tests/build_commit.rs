use ruvyxa::build_output::{BuildCommit, CommitReport, FileOp, Place, Reply};

/// Outputs on a simulated disk: which directory holds which output, by the
/// identity of its content.
struct Disk {
    entries: Vec<(Place, usize, u32)>,
    backup_exists: bool,
    staging_exists: bool,
}

impl Disk {
    fn get(&self, place: Place, index: usize) -> Option<u32> {
        self.entries.iter().find(|(p, i, _)| *p == place && *i == index).map(|(_, _, v)| *v)
    }

    fn remove(&mut self, place: Place, index: usize) {
        self.entries.retain(|(p, i, _)| !(*p == place && *i == index));
    }

    fn clear(&mut self, place: Place) {
        self.entries.retain(|(p, _, _)| *p != place);
    }

    fn holding(&self, place: Place, count: usize) -> Vec<Option<u32>> {
        (0..count).map(|index| self.get(place, index)).collect()
    }
}

/// Runs a commit against the disk, failing each operation `fails` picks.
fn drive(count: usize, disk: &mut Disk, fails: impl Fn(FileOp) -> bool) -> CommitReport {
    let mut commit = BuildCommit::new(count);
    let mut steps = 0;
    while !commit.is_finished() {
        steps += 1;
        assert!(steps < 10_000, "a commit always finishes");
        let op = commit.operation();
        let reply = if fails(op) {
            Reply::Failed(format!("{op:?} refused"))
        } else {
            match op {
                FileOp::CreateBackup => {
                    disk.clear(Place::Backup);
                    disk.backup_exists = true;
                    Reply::Done
                }
                FileOp::CreateDir(_) => Reply::Done,
                FileOp::Exists(place, index) => Reply::Found(disk.get(place, index).is_some()),
                FileOp::Remove(place, index) => {
                    disk.remove(place, index);
                    Reply::Done
                }
                FileOp::Rename(from, to, index) => match disk.get(from, index) {
                    Some(value) => {
                        disk.remove(from, index);
                        disk.remove(to, index);
                        disk.entries.push((to, index, value));
                        Reply::Done
                    }
                    None => Reply::Failed("no such file".to_string()),
                },
                FileOp::RemoveBackup => {
                    disk.clear(Place::Backup);
                    disk.backup_exists = false;
                    Reply::Done
                }
                FileOp::StagingExists => Reply::Found(disk.staging_exists),
                FileOp::RemoveStaging => {
                    disk.clear(Place::Staging);
                    disk.staging_exists = false;
                    Reply::Done
                }
                FileOp::Finish => Reply::Done,
            }
        };
        commit.advance(reply);
    }
    commit.report()
}

/// The outputs of a build: four directories and two files.
const OUTPUTS: usize = 6;

fn previous_and_staged() -> Disk {
    Disk {
        entries: vec![
            (Place::Out, 0, 1),
            (Place::Out, 2, 2),
            (Place::Out, 4, 3),
            (Place::Out, 5, 4),
            (Place::Staging, 0, 10),
            (Place::Staging, 1, 11),
            (Place::Staging, 3, 12),
            (Place::Staging, 4, 13),
            (Place::Staging, 5, 14),
        ],
        backup_exists: false,
        staging_exists: true,
    }
}

#[test]
fn a_commit_places_every_staged_output() {
    let mut disk = previous_and_staged();
    let report = drive(OUTPUTS, &mut disk, |_| false);

    assert!(report.error.is_none());
    assert!(report.leftover_error.is_none());
    assert_eq!(
        disk.holding(Place::Out, OUTPUTS),
        vec![Some(10), Some(11), None, Some(12), Some(13), Some(14)]
    );
    assert!(!disk.staging_exists);
    assert!(!disk.backup_exists);
}

#[test]
fn a_commit_drops_an_output_the_new_build_lacks() {
    let mut disk = Disk {
        entries: vec![(Place::Out, 2, 7), (Place::Staging, 4, 8), (Place::Staging, 5, 9)],
        backup_exists: false,
        staging_exists: true,
    };
    let report = drive(OUTPUTS, &mut disk, |_| false);

    assert!(report.error.is_none());
    assert_eq!(disk.get(Place::Out, 2), None);
    assert_eq!(disk.get(Place::Out, 4), Some(8));
}

#[test]
fn a_failed_move_of_the_new_build_brings_the_previous_one_back() {
    let mut disk = previous_and_staged();
    let report = drive(OUTPUTS, &mut disk, |op| op == FileOp::Rename(Place::Staging, Place::Out, 3));

    let failure = report.error.expect("the commit fails");
    assert_eq!(failure.op, FileOp::Rename(Place::Staging, Place::Out, 3));
    assert!(report.undo_error.is_none());
    assert!(report.rollback_error.is_none());
    assert_eq!(
        disk.holding(Place::Out, OUTPUTS),
        vec![Some(1), None, Some(2), None, Some(3), Some(4)]
    );
    assert_eq!(
        disk.holding(Place::Staging, OUTPUTS),
        vec![Some(10), Some(11), None, Some(12), Some(13), Some(14)]
    );
    assert!(!disk.backup_exists);
}

#[test]
fn a_failed_move_aside_puts_the_previous_build_back() {
    let mut disk = previous_and_staged();
    let report = drive(OUTPUTS, &mut disk, |op| op == FileOp::Rename(Place::Out, Place::Backup, 4));

    assert_eq!(report.error.expect("the commit fails").op, FileOp::Rename(Place::Out, Place::Backup, 4));
    assert!(report.undo_error.is_none());
    assert_eq!(
        disk.holding(Place::Out, OUTPUTS),
        vec![Some(1), None, Some(2), None, Some(3), Some(4)]
    );
}

#[test]
fn a_failed_rollback_is_reported() {
    let mut disk = previous_and_staged();
    let report = drive(OUTPUTS, &mut disk, |op| {
        op == FileOp::Rename(Place::Staging, Place::Out, 1)
            || op == FileOp::Rename(Place::Backup, Place::Out, 2)
    });

    assert_eq!(report.error.expect("the commit fails").op, FileOp::Rename(Place::Staging, Place::Out, 1));
    let rollback = report.rollback_error.expect("restoring fails too");
    assert_eq!(rollback.op, FileOp::Rename(Place::Backup, Place::Out, 2));
    assert!(rollback.cause.contains("refused"));
}

#[test]
fn a_backup_that_cannot_be_created_stops_the_commit_untouched() {
    let mut disk = previous_and_staged();
    let report = drive(OUTPUTS, &mut disk, |op| op == FileOp::CreateBackup);

    assert_eq!(report.error.expect("the commit fails").op, FileOp::CreateBackup);
    assert_eq!(
        disk.holding(Place::Out, OUTPUTS),
        vec![Some(1), None, Some(2), None, Some(3), Some(4)]
    );
}

#[test]
fn a_leftover_staging_directory_is_reported_after_the_outputs_are_placed() {
    let mut disk = previous_and_staged();
    let report = drive(OUTPUTS, &mut disk, |op| op == FileOp::RemoveStaging);

    assert!(report.error.is_none());
    assert!(report.leftover_error.is_some());
    assert_eq!(disk.get(Place::Out, 1), Some(11));
}
