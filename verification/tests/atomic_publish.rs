use ruvyxa::atomic_file::{AtomicPublish, WriteOp};
use ruvyxa::build_output::Reply;

#[derive(Debug, Clone, Copy, PartialEq)]
enum Held {
    Previous,
    Bytes,
    Torn,
}

/// Runs a publish against a simulated target and temporary, failing each
/// operation `fails` picks; returns the result, the target and the
/// temporary.
fn publish(
    has_parent: bool,
    fails: impl Fn(WriteOp) -> bool,
) -> (Result<(), String>, Option<Held>, Option<Held>, Vec<WriteOp>) {
    let mut target = Some(Held::Previous);
    let mut temporary = None;
    let mut ops = Vec::new();
    let mut publish = AtomicPublish::new(has_parent);
    while !publish.is_finished() {
        let op = publish.operation();
        ops.push(op);
        let failed = fails(op);
        match op {
            WriteOp::WriteTemporary => temporary = Some(if failed { Held::Torn } else { Held::Bytes }),
            WriteOp::WriteTarget => target = Some(if failed { Held::Torn } else { Held::Bytes }),
            WriteOp::RemoveTemporary if !failed => temporary = None,
            WriteOp::RenameOverTarget if !failed => target = temporary.take(),
            _ => {}
        }
        publish.advance(if failed { Reply::Failed(format!("{op:?} refused")) } else { Reply::Done });
    }
    (publish.result(), target, temporary, ops)
}

#[test]
fn a_clean_publish_leaves_exactly_the_bytes() {
    let (result, target, temporary, ops) = publish(true, |_| false);
    assert_eq!(result, Ok(()));
    assert_eq!(target, Some(Held::Bytes));
    assert_eq!(temporary, None);
    assert_eq!(ops, vec![WriteOp::CreateParent, WriteOp::WriteTemporary, WriteOp::RenameOverTarget]);
}

#[test]
fn a_refused_rename_falls_back_to_writing_the_bytes_directly() {
    let (result, target, temporary, ops) = publish(false, |op| op == WriteOp::RenameOverTarget);
    assert_eq!(result, Ok(()));
    assert_eq!(target, Some(Held::Bytes));
    assert_eq!(temporary, None);
    assert_eq!(
        ops,
        vec![WriteOp::WriteTemporary, WriteOp::RenameOverTarget, WriteOp::WriteTarget, WriteOp::RemoveTemporary]
    );
}

#[test]
fn a_failed_temporary_write_is_reported_and_cleaned_up() {
    let (result, target, temporary, _) = publish(true, |op| op == WriteOp::WriteTemporary);
    assert_eq!(result, Err("WriteTemporary refused".to_string()));
    assert_eq!(target, Some(Held::Previous));
    assert_eq!(temporary, None);
}

#[test]
fn a_failed_direct_write_is_reported_and_the_temporary_removed() {
    let (result, target, temporary, _) =
        publish(true, |op| op == WriteOp::RenameOverTarget || op == WriteOp::WriteTarget);
    assert_eq!(result, Err("WriteTarget refused".to_string()));
    assert_eq!(target, Some(Held::Torn));
    assert_eq!(temporary, None);
}

#[test]
fn a_missing_parent_directory_that_cannot_be_created_stops_the_publish() {
    let (result, target, temporary, ops) = publish(true, |op| op == WriteOp::CreateParent);
    assert_eq!(result, Err("CreateParent refused".to_string()));
    assert_eq!(target, Some(Held::Previous));
    assert_eq!(temporary, None);
    assert_eq!(ops, vec![WriteOp::CreateParent]);
}
