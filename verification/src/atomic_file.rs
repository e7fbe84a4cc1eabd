//! One durable file publish: write a temporary beside the target, rename it
//! over the target, and never leave the temporary behind.
//!
//! Readers see either the previous contents or the new ones, on every
//! platform where `rename` is atomic. Where it is not, the bytes are written
//! directly rather than lost; recovery re-writes the buffer it was given
//! rather than reading anything back, so no failure path can publish content
//! that was never passed in.
//!
//! The publish is a state machine: [`AtomicPublish::operation`] names the
//! next file-system operation, the caller performs it and hands the reply to
//! [`AtomicPublish::advance`], until the operation is [`WriteOp::Finish`].

use vstd::prelude::*;

use crate::build_output::Reply;
use crate::text::{opt_text, str_chars, string_from_chars};

verus! {

broadcast use vstd::string::group_string_axioms;

/// A file-system operation of a publish.
#[derive(Debug, Clone, Copy, PartialEq, Eq, Structural)]
pub enum WriteOp {
    /// Create the target's parent directory and its parents.
    CreateParent,
    /// Write the bytes to the temporary.
    WriteTemporary,
    /// Remove the temporary; whether that succeeds does not matter.
    RemoveTemporary,
    /// Rename the temporary over the target.
    RenameOverTarget,
    /// Write the bytes to the target itself.
    WriteTarget,
    /// Nothing more to do.
    Finish,
}

/// Where a publish is.
#[derive(Debug, Clone, Copy, PartialEq, Eq, Structural)]
pub enum PublishStage {
    CreateParent,
    WriteTemporary,
    DiscardFailedTemporary,
    Rename,
    WriteDirectly,
    DiscardTemporary,
    Finished,
}

pub ghost struct PublishView {
    pub stage: PublishStage,
    pub error: Option<Seq<char>>,
    /// Removing the temporary failed at some point.
    pub removal_failed: bool,
}

/// The publish of a buffer at a path.
pub struct AtomicPublish {
    stage: PublishStage,
    error: Option<String>,
    removal_failed: bool,
}

impl View for AtomicPublish {
    type V = PublishView;

    closed spec fn view(&self) -> PublishView {
        PublishView { stage: self.stage, error: opt_text(self.error), removal_failed: self.removal_failed }
    }
}

/// A publish that has not started: it creates the parent directory first
/// when the target has one.
pub open spec fn publish_start(has_parent: bool) -> PublishView {
    PublishView {
        stage: if has_parent {
            PublishStage::CreateParent
        } else {
            PublishStage::WriteTemporary
        },
        error: None,
        removal_failed: false,
    }
}

/// The operation a publish asks for next.
pub open spec fn write_op_of(s: PublishView) -> WriteOp {
    match s.stage {
        PublishStage::CreateParent => WriteOp::CreateParent,
        PublishStage::WriteTemporary => WriteOp::WriteTemporary,
        PublishStage::DiscardFailedTemporary => WriteOp::RemoveTemporary,
        PublishStage::Rename => WriteOp::RenameOverTarget,
        PublishStage::WriteDirectly => WriteOp::WriteTarget,
        PublishStage::DiscardTemporary => WriteOp::RemoveTemporary,
        PublishStage::Finished => WriteOp::Finish,
    }
}

pub open spec fn at_stage(s: PublishView, stage: PublishStage) -> PublishView {
    PublishView { stage, ..s }
}

/// The publish after the reply to its operation.
pub open spec fn publish_next(s: PublishView, r: Reply) -> PublishView {
    let removal_failed = s.removal_failed || r is Failed;
    match s.stage {
        PublishStage::CreateParent => match r {
            Reply::Failed(m) => PublishView { stage: PublishStage::Finished, error: Some(m@), ..s },
            _ => at_stage(s, PublishStage::WriteTemporary),
        },
        PublishStage::WriteTemporary => match r {
            Reply::Failed(m) => PublishView {
                stage: PublishStage::DiscardFailedTemporary,
                error: Some(m@),
                ..s
            },
            _ => at_stage(s, PublishStage::Rename),
        },
        PublishStage::DiscardFailedTemporary => PublishView {
            stage: PublishStage::Finished,
            removal_failed,
            ..s
        },
        PublishStage::Rename => match r {
            Reply::Failed(_) => at_stage(s, PublishStage::WriteDirectly),
            _ => at_stage(s, PublishStage::Finished),
        },
        PublishStage::WriteDirectly => match r {
            Reply::Failed(m) => PublishView { stage: PublishStage::DiscardTemporary, error: Some(m@), ..s },
            _ => at_stage(s, PublishStage::DiscardTemporary),
        },
        PublishStage::DiscardTemporary => PublishView {
            stage: PublishStage::Finished,
            removal_failed,
            ..s
        },
        PublishStage::Finished => s,
    }
}

impl AtomicPublish {
    /// A publish of a target that has a parent directory or not.
    pub fn new(has_parent: bool) -> (r: AtomicPublish)
        ensures
            r@ == publish_start(has_parent),
    {
        AtomicPublish {
            stage: if has_parent {
                PublishStage::CreateParent
            } else {
                PublishStage::WriteTemporary
            },
            error: None,
            removal_failed: false,
        }
    }

    /// The operation to perform next.
    pub fn operation(&self) -> (r: WriteOp)
        ensures
            r == write_op_of(self@),
    {
        match self.stage {
            PublishStage::CreateParent => WriteOp::CreateParent,
            PublishStage::WriteTemporary => WriteOp::WriteTemporary,
            PublishStage::DiscardFailedTemporary => WriteOp::RemoveTemporary,
            PublishStage::Rename => WriteOp::RenameOverTarget,
            PublishStage::WriteDirectly => WriteOp::WriteTarget,
            PublishStage::DiscardTemporary => WriteOp::RemoveTemporary,
            PublishStage::Finished => WriteOp::Finish,
        }
    }

    /// Hands over the reply to the operation that was asked for.
    pub fn advance(&mut self, reply: Reply)
        ensures
            final(self)@ == publish_next(old(self)@, reply),
    {
        let failed = match &reply {
            Reply::Failed(_) => true,
            _ => false,
        };
        match self.stage {
            PublishStage::CreateParent => match reply {
                Reply::Failed(m) => {
                    self.error = Some(m);
                    self.stage = PublishStage::Finished;
                },
                _ => self.stage = PublishStage::WriteTemporary,
            },
            PublishStage::WriteTemporary => match reply {
                Reply::Failed(m) => {
                    self.error = Some(m);
                    self.stage = PublishStage::DiscardFailedTemporary;
                },
                _ => self.stage = PublishStage::Rename,
            },
            PublishStage::DiscardFailedTemporary | PublishStage::DiscardTemporary => {
                self.removal_failed = self.removal_failed || failed;
                self.stage = PublishStage::Finished;
            },
            PublishStage::Rename => {
                self.stage = if failed {
                    PublishStage::WriteDirectly
                } else {
                    PublishStage::Finished
                };
            },
            PublishStage::WriteDirectly => {
                if let Reply::Failed(m) = reply {
                    self.error = Some(m);
                }
                self.stage = PublishStage::DiscardTemporary;
            },
            PublishStage::Finished => {},
        }
    }

    /// Whether the publish has nothing more to do.
    pub fn is_finished(&self) -> (r: bool)
        ensures
            r == (self@.stage == PublishStage::Finished),
    {
        match self.stage {
            PublishStage::Finished => true,
            _ => false,
        }
    }

    /// How the publish went: the failure it reports, if any.
    pub fn result(&self) -> (r: Result<(), String>)
        ensures
            match r {
                Ok(()) => self@.error is None,
                Err(m) => self@.error == Some(m@),
            },
    {
        match &self.error {
            Some(m) => Err(string_from_chars(str_chars(m.as_str()).as_slice())),
            None => Ok(()),
        }
    }
}

// ─── What a publish does to the files ────────────────────────────────────────

/// What a file holds, as a publish sees it.
pub enum Content {
    /// What the target held before the publish.
    Previous,
    /// The bytes being published.
    Bytes,
    /// Part of the bytes: a write that failed partway.
    Torn,
}

/// The target and the temporary: what each holds, if it exists.
pub ghost struct PublishFiles {
    pub target: Option<Content>,
    pub temporary: Option<Content>,
}

/// The files after an operation with this reply. A failed write may leave
/// part of the bytes behind; any other failed operation changes nothing.
pub open spec fn publish_effect(f: PublishFiles, op: WriteOp, r: Reply) -> PublishFiles {
    match op {
        WriteOp::WriteTemporary => PublishFiles {
            temporary: Some(
                if r is Failed {
                    Content::Torn
                } else {
                    Content::Bytes
                },
            ),
            ..f
        },
        WriteOp::WriteTarget => PublishFiles {
            target: Some(
                if r is Failed {
                    Content::Torn
                } else {
                    Content::Bytes
                },
            ),
            ..f
        },
        WriteOp::RemoveTemporary => if r is Failed {
            f
        } else {
            PublishFiles { temporary: None, ..f }
        },
        WriteOp::RenameOverTarget => if r is Failed || f.temporary is None {
            f
        } else {
            PublishFiles { target: f.temporary, temporary: None }
        },
        _ => f,
    }
}

/// The publish and the files after a sequence of replies.
pub open spec fn publish_run(s: PublishView, f: PublishFiles, replies: Seq<Reply>) -> (
    PublishView,
    PublishFiles,
)
    decreases replies.len(),
{
    if replies.len() == 0 {
        (s, f)
    } else {
        publish_run(
            publish_next(s, replies[0]),
            publish_effect(f, write_op_of(s), replies[0]),
            replies.drop_first(),
        )
    }
}

/// What holds of the files at each stage of a publish whose target held
/// `before`.
spec fn publish_inv(s: PublishView, before: Option<Content>, f: PublishFiles) -> bool {
    match s.stage {
        PublishStage::CreateParent | PublishStage::WriteTemporary => {
            &&& s.error is None
            &&& !s.removal_failed
            &&& f.target == before
            &&& f.temporary is None
        },
        PublishStage::DiscardFailedTemporary => {
            &&& s.error is Some
            &&& !s.removal_failed
            &&& f.target == before
        },
        PublishStage::Rename | PublishStage::WriteDirectly => {
            &&& s.error is None
            &&& !s.removal_failed
            &&& f.target == before
            &&& f.temporary == Some(Content::Bytes)
        },
        PublishStage::DiscardTemporary => {
            &&& !s.removal_failed
            &&& if s.error is None {
                f.target == Some(Content::Bytes)
            } else {
                f.target == Some(Content::Torn)
            }
        },
        PublishStage::Finished => {
            &&& s.error is None ==> f.target == Some(Content::Bytes)
            &&& s.error is Some ==> f.target == before || f.target == Some(Content::Torn)
            &&& !s.removal_failed ==> f.temporary is None
        },
    }
}

proof fn lemma_publish_run(s: PublishView, before: Option<Content>, f: PublishFiles, replies: Seq<Reply>)
    requires
        publish_inv(s, before, f),
    ensures
        publish_inv(publish_run(s, f, replies).0, before, publish_run(s, f, replies).1),
    decreases replies.len(),
{
    if replies.len() > 0 {
        lemma_publish_run(
            publish_next(s, replies[0]),
            before,
            publish_effect(f, write_op_of(s), replies[0]),
            replies.drop_first(),
        );
    }
}

/// A publish that reports success leaves exactly the bytes it was given at
/// the target, whatever failed on the way.
pub proof fn law_a_published_target_holds_exactly_the_bytes(
    has_parent: bool,
    before: Option<Content>,
    replies: Seq<Reply>,
)
    requires
        publish_run(publish_start(has_parent), PublishFiles { target: before, temporary: None }, replies).0.stage
            == PublishStage::Finished,
        publish_run(publish_start(has_parent), PublishFiles { target: before, temporary: None }, replies).0.error
            is None,
    ensures
        publish_run(publish_start(has_parent), PublishFiles { target: before, temporary: None }, replies).1.target
            == Some(Content::Bytes),
{
    lemma_publish_run(publish_start(has_parent), before, PublishFiles { target: before, temporary: None }, replies);
}

/// A publish that reports failure leaves the target as it was, or with part
/// of the bytes it was given: never with anything else.
pub proof fn law_a_failed_publish_holds_nothing_foreign(
    has_parent: bool,
    before: Option<Content>,
    replies: Seq<Reply>,
)
    requires
        publish_run(publish_start(has_parent), PublishFiles { target: before, temporary: None }, replies).0.stage
            == PublishStage::Finished,
        publish_run(publish_start(has_parent), PublishFiles { target: before, temporary: None }, replies).0.error
            is Some,
    ensures
        ({
            let target = publish_run(
                publish_start(has_parent),
                PublishFiles { target: before, temporary: None },
                replies,
            ).1.target;
            target == before || target == Some(Content::Torn)
        }),
{
    lemma_publish_run(publish_start(has_parent), before, PublishFiles { target: before, temporary: None }, replies);
}

/// The temporary is gone on every path out of a publish, the ones that
/// report an error included, wherever removing it succeeded.
pub proof fn law_the_temporary_never_outlives_a_publish(
    has_parent: bool,
    before: Option<Content>,
    replies: Seq<Reply>,
)
    requires
        publish_run(publish_start(has_parent), PublishFiles { target: before, temporary: None }, replies).0.stage
            == PublishStage::Finished,
        !publish_run(publish_start(has_parent), PublishFiles { target: before, temporary: None }, replies).0.removal_failed,
    ensures
        publish_run(publish_start(has_parent), PublishFiles { target: before, temporary: None }, replies).1.temporary
            is None,
{
    lemma_publish_run(publish_start(has_parent), before, PublishFiles { target: before, temporary: None }, replies);
}

} // verus!
