//! Build output: where a build finds the files a route names, and how a
//! finished build replaces the previous one.
//!
//! A build renders into a staging directory and is moved into place only once
//! it has fully succeeded, so an interrupted or failing build cannot leave a
//! half-written output that the next `start` would serve. The previous
//! outputs are first moved aside into a rollback directory; if moving the new
//! ones in fails partway, what was moved is taken out again and the previous
//! outputs are moved back.
//!
//! The commit is a state machine: [`BuildCommit::operation`] names the next
//! file-system operation, the caller performs it and hands the reply to
//! [`BuildCommit::advance`], until the operation is [`FileOp::Finish`].

use vstd::prelude::*;

use crate::layout::{path_without_prefix, strip_path_prefix};
use crate::runtime_config::{join, join_path};
use crate::static_assets::{
    extension_of, ascii_letters, path_extension, path_with_extension, with_extension,
};
use crate::text::{opt_text, str_chars, string_from_chars};

verus! {

broadcast use vstd::string::group_string_axioms;

/// A path with a root: on Unix, one that starts with `/`.
pub open spec fn is_absolute(path: Seq<char>) -> bool {
    path.len() > 0 && path[0] == '/'
}

/// Where a layout path may point: itself when absolute; else under the
/// project root, and under the application directory with a leading `app`
/// component dropped.
pub open spec fn layout_bases(root: Seq<char>, app_dir: Seq<char>, layout: Seq<char>) -> Seq<Seq<char>> {
    if is_absolute(layout) {
        seq![layout]
    } else {
        let app_relative = match path_without_prefix(layout, "app"@) {
            Some(rest) => rest,
            None => layout,
        };
        seq![join_path(root, layout), join_path(app_dir, app_relative)]
    }
}

/// The script extensions tried, in order, on a path that has none.
pub open spec fn script_extensions() -> Seq<&'static str> {
    seq!["tsx", "jsx", "ts", "js"]
}

/// A base path, then, when it has no extension, the base with each script
/// extension.
pub open spec fn expansions(base: Seq<char>) -> Seq<Seq<char>> {
    if path_extension(base) is None {
        seq![base].add(script_extensions().map_values(|e: &'static str| path_with_extension(base, e@)))
    } else {
        seq![base]
    }
}

/// Every path a layout may be found at, in the order they are tried.
pub open spec fn layout_candidates(root: Seq<char>, app_dir: Seq<char>, layout: Seq<char>) -> Seq<Seq<char>> {
    let bases = layout_bases(root, app_dir, layout);
    if bases.len() == 1 {
        expansions(bases[0])
    } else {
        expansions(bases[0]) + expansions(bases[1])
    }
}

pub open spec fn file_answer<F: Fn(&str) -> bool>(is_file: F, path: Seq<char>, b: bool) -> bool {
    exists|s: &str| #[trigger] is_file.ensures((s,), b) && s@ == path
}

/// `answers` are what `is_file` said of the first candidates, asked in order
/// until one was a file.
pub open spec fn asked_in_order<F: Fn(&str) -> bool>(
    is_file: F,
    candidates: Seq<Seq<char>>,
    answers: Seq<bool>,
) -> bool {
    &&& answers.len() <= candidates.len()
    &&& forall|i: int| 0 <= i < answers.len() ==> file_answer(is_file, candidates[i], #[trigger] answers[i])
    &&& forall|i: int| 0 <= i < answers.len() - 1 ==> !#[trigger] answers[i]
    &&& answers.len() < candidates.len() ==> answers.len() > 0 && answers.last()
}

/// The candidate the answers settled on: the last one asked, if it was a
/// file.
pub open spec fn settled_on(candidates: Seq<Seq<char>>, answers: Seq<bool>) -> Option<Seq<char>> {
    if answers.len() > 0 && answers.last() {
        Some(candidates[answers.len() - 1])
    } else {
        None
    }
}

fn push_expansions(out: &mut Vec<String>, base: String)
    ensures
        final(out)@.map_values(|s: String| s@) == old(out)@.map_values(|s: String| s@) + expansions(
            base@,
        ),
{
    let ghost start = out@.map_values(|s: String| s@);
    let has_extension = extension_of(&str_chars(base.as_str())).is_some();
    if has_extension {
        out.push(base);
        assert(out@.map_values(|s: String| s@) =~= start + expansions(base@));
        return;
    }
    proof {
        reveal_strlit("tsx");
        reveal_strlit("jsx");
        reveal_strlit("ts");
        reveal_strlit("js");
        assert(ascii_letters("tsx"@));
        assert(ascii_letters("jsx"@));
        assert(ascii_letters("ts"@));
        assert(ascii_letters("js"@));
    }
    let tsx = with_extension(base.as_str(), "tsx");
    let jsx = with_extension(base.as_str(), "jsx");
    let ts = with_extension(base.as_str(), "ts");
    let js = with_extension(base.as_str(), "js");
    let ghost b = base@;
    out.push(base);
    out.push(tsx);
    out.push(jsx);
    out.push(ts);
    out.push(js);
    proof {
        reveal_strlit("tsx");
        reveal_strlit("jsx");
        reveal_strlit("ts");
        reveal_strlit("js");
        assert(expansions(b) =~= seq![
            b,
            path_with_extension(b, "tsx"@),
            path_with_extension(b, "jsx"@),
            path_with_extension(b, "ts"@),
            path_with_extension(b, "js"@),
        ]);
        assert(out@.map_values(|s: String| s@) =~= start + expansions(b));
    }
}

/// Every path a layout may be found at, in the order they are tried.
pub fn layout_file_candidates(root: &str, app_dir: &str, layout_path: &str) -> (r: Vec<String>)
    ensures
        r@.map_values(|s: String| s@) == layout_candidates(root@, app_dir@, layout_path@),
{
    let mut out: Vec<String> = Vec::new();
    let chars = str_chars(layout_path);
    if chars.len() > 0 && chars[0] == '/' {
        push_expansions(&mut out, string_from_chars(chars.as_slice()));
    } else {
        push_expansions(&mut out, join(root, layout_path));
        let app_relative = match strip_path_prefix(layout_path, "app") {
            Some(rest) => rest,
            None => string_from_chars(chars.as_slice()),
        };
        proof {
            reveal_strlit("app");
        }
        push_expansions(&mut out, join(app_dir, app_relative.as_str()));
    }
    assert(out@.map_values(|s: String| s@) =~= layout_candidates(root@, app_dir@, layout_path@));
    out
}

/// The first path a layout may be found at that `is_file` says is a file;
/// candidates are asked about in order, and no further once one is.
pub fn resolve_layout_file<F: Fn(&str) -> bool>(
    root: &str,
    app_dir: &str,
    layout_path: &str,
    is_file: F,
) -> (r: Option<String>)
    requires
        forall|p: &str| is_file.requires((p,)),
    ensures
        exists|answers: Seq<bool>|
            #![trigger settled_on(layout_candidates(root@, app_dir@, layout_path@), answers)]
            asked_in_order(is_file, layout_candidates(root@, app_dir@, layout_path@), answers)
                && opt_text(r) == settled_on(
                layout_candidates(root@, app_dir@, layout_path@),
                answers,
            ),
{
    let candidates = layout_file_candidates(root, app_dir, layout_path);
    let ghost all = layout_candidates(root@, app_dir@, layout_path@);
    let ghost mut answers: Seq<bool> = Seq::empty();
    let mut i: usize = 0;
    while i < candidates.len()
        invariant
            i <= candidates.len(),
            candidates@.map_values(|s: String| s@) == all,
            all == layout_candidates(root@, app_dir@, layout_path@),
            forall|p: &str| is_file.requires((p,)),
            answers.len() == i,
            forall|j: int| 0 <= j < i ==> file_answer(is_file, all[j], #[trigger] answers[j]),
            forall|j: int| 0 <= j < i ==> !#[trigger] answers[j],
        decreases candidates.len() - i,
    {
        let found = is_file(candidates[i].as_str());
        assert(candidates@.map_values(|s: String| s@)[i as int] == candidates@[i as int]@);
        assert(file_answer(is_file, all[i as int], found));
        proof {
            answers = answers.push(found);
        }
        if found {
            assert(asked_in_order(is_file, all, answers));
            assert(settled_on(all, answers) == Some(candidates@[i as int]@));
            let chosen = string_from_chars(str_chars(candidates[i].as_str()).as_slice());
            return Some(chosen);
        }
        i += 1;
    }
    assert(asked_in_order(is_file, all, answers));
    assert(settled_on(all, answers) is None);
    None
}

// ─── Committing a staged build ───────────────────────────────────────────────

/// A directory the commit moves outputs between.
#[derive(Debug, Clone, Copy, PartialEq, Eq, Structural)]
pub enum Place {
    /// The build output directory.
    Out,
    /// The directory the new build was rendered into.
    Staging,
    /// The rollback directory the previous outputs are moved aside into.
    Backup,
}

/// A file-system operation of the commit. Outputs are named by their index
/// in the list of output names.
#[derive(Debug, Clone, Copy, PartialEq, Eq, Structural)]
pub enum FileOp {
    /// Create a fresh, empty rollback directory.
    CreateBackup,
    /// Create a directory and its parents.
    CreateDir(Place),
    /// Whether an output exists in a directory.
    Exists(Place, usize),
    /// Remove an output, file or directory tree.
    Remove(Place, usize),
    /// Rename an output from one directory to another.
    Rename(Place, Place, usize),
    /// Remove the rollback directory.
    RemoveBackup,
    /// Whether the staging directory still exists.
    StagingExists,
    /// Remove the staging directory.
    RemoveStaging,
    /// Nothing more to do.
    Finish,
}

/// What performing an operation gave.
pub enum Reply {
    /// It succeeded.
    Done,
    /// The answer to an existence question.
    Found(bool),
    /// It failed, with this message.
    Failed(String),
}

/// Where the commit is.
#[derive(Debug, Clone, Copy, PartialEq, Eq, Structural)]
pub enum CommitStage {
    CreateBackup,
    MoveCreateDir,
    MoveCheckSource,
    MoveCheckDest,
    MoveRemoveDest,
    MoveRename,
    RestoreCheckSource,
    RestoreCheckDest,
    RestoreRemoveDest,
    RestoreRename,
    DiscardBackup,
    ClearBackup,
    CheckStaging,
    ClearStaging,
    ClearOutCheck,
    ClearOutRemove,
    DropBackup,
    Finished,
}

/// What a restore of moved outputs is for.
#[derive(Debug, Clone, Copy, PartialEq, Eq, Structural)]
pub enum RestoreFor {
    /// Moving the previous outputs aside failed partway: move back what was
    /// moved.
    UndoExisting,
    /// Moving the new outputs in failed partway: take back what was moved.
    UndoNew,
    /// The new outputs could not be placed: bring the previous ones back.
    Rollback,
}

/// A failed operation: its message, and the operation.
#[derive(Debug, Clone)]
pub struct OpFailure {
    pub cause: String,
    pub op: FileOp,
}

pub ghost struct FailureView {
    pub cause: Seq<char>,
    pub op: FileOp,
}

impl View for OpFailure {
    type V = FailureView;

    open spec fn view(&self) -> FailureView {
        FailureView { cause: self.cause@, op: self.op }
    }
}

pub open spec fn opt_failure(f: Option<OpFailure>) -> Option<FailureView> {
    match f {
        Some(f) => Some(f@),
        None => None,
    }
}

pub ghost struct CommitView {
    pub count: usize,
    pub stage: CommitStage,
    pub second: bool,
    pub index: usize,
    pub moved_existing: Seq<usize>,
    pub moved_new: Seq<usize>,
    pub restore_for: RestoreFor,
    pub position: usize,
    pub error: Option<FailureView>,
    pub undo_error: Option<FailureView>,
    pub rollback_error: Option<FailureView>,
    pub cleanup_failed: bool,
    pub leftover_error: Option<Seq<char>>,
}

/// The commit of a staged build over `count` output names.
pub struct BuildCommit {
    count: usize,
    stage: CommitStage,
    second: bool,
    index: usize,
    moved_existing: Vec<usize>,
    moved_new: Vec<usize>,
    restore_for: RestoreFor,
    position: usize,
    error: Option<OpFailure>,
    undo_error: Option<OpFailure>,
    rollback_error: Option<OpFailure>,
    cleanup_failed: bool,
    leftover_error: Option<String>,
}

impl View for BuildCommit {
    type V = CommitView;

    closed spec fn view(&self) -> CommitView {
        CommitView {
            count: self.count,
            stage: self.stage,
            second: self.second,
            index: self.index,
            moved_existing: self.moved_existing@,
            moved_new: self.moved_new@,
            restore_for: self.restore_for,
            position: self.position,
            error: opt_failure(self.error),
            undo_error: opt_failure(self.undo_error),
            rollback_error: opt_failure(self.rollback_error),
            cleanup_failed: self.cleanup_failed,
            leftover_error: opt_text(self.leftover_error),
        }
    }
}

// The moves: the previous outputs from the output directory to the rollback
// directory, then the new ones from staging to the output directory.
pub open spec fn move_from(second: bool) -> Place {
    if second {
        Place::Staging
    } else {
        Place::Out
    }
}

pub open spec fn move_to(second: bool) -> Place {
    if second {
        Place::Out
    } else {
        Place::Backup
    }
}

pub open spec fn restore_list(s: CommitView) -> Seq<usize> {
    match s.restore_for {
        RestoreFor::UndoNew => s.moved_new,
        _ => s.moved_existing,
    }
}

pub open spec fn restore_from(f: RestoreFor) -> Place {
    match f {
        RestoreFor::UndoNew => Place::Out,
        _ => Place::Backup,
    }
}

pub open spec fn restore_to(f: RestoreFor) -> Place {
    match f {
        RestoreFor::UndoNew => Place::Staging,
        _ => Place::Out,
    }
}

/// The operation the commit asks for next.
pub open spec fn op_of(s: CommitView) -> FileOp {
    let from = move_from(s.second);
    let to = move_to(s.second);
    let rf = restore_from(s.restore_for);
    let rt = restore_to(s.restore_for);
    let name = restore_list(s)[s.position as int];
    match s.stage {
        CommitStage::CreateBackup => FileOp::CreateBackup,
        CommitStage::MoveCreateDir => FileOp::CreateDir(to),
        CommitStage::MoveCheckSource => FileOp::Exists(from, s.index),
        CommitStage::MoveCheckDest => FileOp::Exists(to, s.index),
        CommitStage::MoveRemoveDest => FileOp::Remove(to, s.index),
        CommitStage::MoveRename => FileOp::Rename(from, to, s.index),
        CommitStage::RestoreCheckSource => FileOp::Exists(rf, name),
        CommitStage::RestoreCheckDest => FileOp::Exists(rt, name),
        CommitStage::RestoreRemoveDest => FileOp::Remove(rt, name),
        CommitStage::RestoreRename => FileOp::Rename(rf, rt, name),
        CommitStage::DiscardBackup => FileOp::RemoveBackup,
        CommitStage::ClearBackup => FileOp::RemoveBackup,
        CommitStage::CheckStaging => FileOp::StagingExists,
        CommitStage::ClearStaging => FileOp::RemoveStaging,
        CommitStage::ClearOutCheck => FileOp::Exists(Place::Out, s.index),
        CommitStage::ClearOutRemove => FileOp::Remove(Place::Out, s.index),
        CommitStage::DropBackup => FileOp::RemoveBackup,
        CommitStage::Finished => FileOp::Finish,
    }
}

/// The commit's indices stay in range.
pub open spec fn commit_wf(s: CommitView) -> bool {
    &&& forall|i: int| 0 <= i < s.moved_existing.len() ==> #[trigger] s.moved_existing[i] < s.count
    &&& forall|i: int| 0 <= i < s.moved_new.len() ==> #[trigger] s.moved_new[i] < s.count
    &&& match s.stage {
        CommitStage::MoveCheckSource | CommitStage::MoveCheckDest | CommitStage::MoveRemoveDest
        | CommitStage::MoveRename | CommitStage::ClearOutCheck | CommitStage::ClearOutRemove => s.index
            < s.count,
        CommitStage::RestoreCheckSource | CommitStage::RestoreCheckDest
        | CommitStage::RestoreRemoveDest | CommitStage::RestoreRename => s.position < restore_list(
            s,
        ).len(),
        _ => true,
    }
}

pub open spec fn at(s: CommitView, stage: CommitStage) -> CommitView {
    CommitView { stage, ..s }
}

/// The previous outputs go back to the output directory, starting with the
/// first moved aside.
pub open spec fn rollback_start(s: CommitView) -> CommitView {
    let s2 = CommitView { restore_for: RestoreFor::Rollback, position: 0, ..s };
    if s.moved_existing.len() == 0 {
        at(s2, CommitStage::DropBackup)
    } else {
        at(s2, CommitStage::RestoreCheckSource)
    }
}

/// Every output still in the output directory is removed.
pub open spec fn enter_clear_out(s: CommitView) -> CommitView {
    if s.count == 0 {
        rollback_start(s)
    } else {
        CommitView { stage: CommitStage::ClearOutCheck, index: 0, ..s }
    }
}

pub open spec fn after_restore(s: CommitView) -> CommitView {
    match s.restore_for {
        RestoreFor::UndoExisting => at(s, CommitStage::DiscardBackup),
        RestoreFor::UndoNew => enter_clear_out(s),
        RestoreFor::Rollback => at(s, CommitStage::DropBackup),
    }
}

pub open spec fn enter_restore(s: CommitView, f: RestoreFor) -> CommitView {
    let s2 = CommitView { restore_for: f, position: 0, ..s };
    if restore_list(s2).len() == 0 {
        after_restore(s2)
    } else {
        at(s2, CommitStage::RestoreCheckSource)
    }
}

pub open spec fn start_move(s: CommitView, second: bool) -> CommitView {
    CommitView { stage: CommitStage::MoveCreateDir, second, index: 0, ..s }
}

pub open spec fn after_move(s: CommitView) -> CommitView {
    if !s.second {
        start_move(s, true)
    } else {
        at(s, CommitStage::ClearBackup)
    }
}

pub open spec fn enter_move_loop(s: CommitView) -> CommitView {
    if s.count == 0 {
        after_move(s)
    } else {
        CommitView { stage: CommitStage::MoveCheckSource, index: 0, ..s }
    }
}

pub open spec fn next_name(s: CommitView) -> CommitView {
    if s.index + 1 >= s.count {
        after_move(s)
    } else {
        CommitView { stage: CommitStage::MoveCheckSource, index: (s.index + 1) as usize, ..s }
    }
}

pub open spec fn moved_one(s: CommitView) -> CommitView {
    if s.second {
        CommitView { moved_new: s.moved_new.push(s.index), ..s }
    } else {
        CommitView { moved_existing: s.moved_existing.push(s.index), ..s }
    }
}

/// A move failed with `e`; a failed rename is undone first.
pub open spec fn move_failed(s: CommitView, e: FailureView, undo: bool) -> CommitView {
    let s2 = CommitView { error: Some(e), ..s };
    if undo {
        enter_restore(
            s2,
            if s.second {
                RestoreFor::UndoNew
            } else {
                RestoreFor::UndoExisting
            },
        )
    } else if !s.second {
        at(s2, CommitStage::DiscardBackup)
    } else {
        enter_clear_out(s2)
    }
}

pub open spec fn next_restore(s: CommitView) -> CommitView {
    if s.position + 1 >= restore_list(s).len() {
        after_restore(s)
    } else {
        CommitView { stage: CommitStage::RestoreCheckSource, position: (s.position + 1) as usize, ..s }
    }
}

pub open spec fn restore_failed(s: CommitView, e: FailureView) -> CommitView {
    after_restore(
        match s.restore_for {
            RestoreFor::Rollback => CommitView { rollback_error: Some(e), ..s },
            _ => CommitView { undo_error: Some(e), ..s },
        },
    )
}

pub open spec fn next_clear(s: CommitView) -> CommitView {
    if s.index + 1 >= s.count {
        rollback_start(s)
    } else {
        CommitView { stage: CommitStage::ClearOutCheck, index: (s.index + 1) as usize, ..s }
    }
}

pub open spec fn found(r: Reply) -> bool {
    r matches Reply::Found(true)
}

pub open spec fn failure_of(r: Reply, op: FileOp) -> Option<FailureView> {
    match r {
        Reply::Failed(m) => Some(FailureView { cause: m@, op }),
        _ => None,
    }
}

/// The commit after the reply to its operation.
pub open spec fn next(s: CommitView, r: Reply) -> CommitView {
    match s.stage {
        CommitStage::CreateBackup => match failure_of(r, op_of(s)) {
            Some(e) => at(CommitView { error: Some(e), ..s }, CommitStage::Finished),
            None => start_move(s, false),
        },
        CommitStage::MoveCreateDir => match failure_of(r, op_of(s)) {
            Some(e) => move_failed(s, e, false),
            None => enter_move_loop(s),
        },
        CommitStage::MoveCheckSource => if found(r) {
            at(s, CommitStage::MoveCheckDest)
        } else {
            next_name(s)
        },
        CommitStage::MoveCheckDest => if found(r) {
            at(s, CommitStage::MoveRemoveDest)
        } else {
            at(s, CommitStage::MoveRename)
        },
        CommitStage::MoveRemoveDest => match failure_of(r, op_of(s)) {
            Some(e) => move_failed(s, e, false),
            None => at(s, CommitStage::MoveRename),
        },
        CommitStage::MoveRename => match failure_of(r, op_of(s)) {
            Some(e) => move_failed(s, e, true),
            None => next_name(moved_one(s)),
        },
        CommitStage::RestoreCheckSource => if found(r) {
            at(s, CommitStage::RestoreCheckDest)
        } else {
            next_restore(s)
        },
        CommitStage::RestoreCheckDest => if found(r) {
            at(s, CommitStage::RestoreRemoveDest)
        } else {
            at(s, CommitStage::RestoreRename)
        },
        CommitStage::RestoreRemoveDest => match failure_of(r, op_of(s)) {
            Some(e) => restore_failed(s, e),
            None => at(s, CommitStage::RestoreRename),
        },
        CommitStage::RestoreRename => match failure_of(r, op_of(s)) {
            Some(e) => restore_failed(s, e),
            None => next_restore(s),
        },
        CommitStage::DiscardBackup => at(s, CommitStage::Finished),
        CommitStage::ClearBackup => match r {
            Reply::Failed(m) => at(CommitView { leftover_error: Some(m@), ..s }, CommitStage::Finished),
            _ => at(s, CommitStage::CheckStaging),
        },
        CommitStage::CheckStaging => if found(r) {
            at(s, CommitStage::ClearStaging)
        } else {
            at(s, CommitStage::Finished)
        },
        CommitStage::ClearStaging => match r {
            Reply::Failed(m) => at(CommitView { leftover_error: Some(m@), ..s }, CommitStage::Finished),
            _ => at(s, CommitStage::Finished),
        },
        CommitStage::ClearOutCheck => if found(r) {
            at(s, CommitStage::ClearOutRemove)
        } else {
            next_clear(s)
        },
        CommitStage::ClearOutRemove => match r {
            Reply::Failed(_) => rollback_start(CommitView { cleanup_failed: true, ..s }),
            _ => next_clear(s),
        },
        CommitStage::DropBackup => at(s, CommitStage::Finished),
        CommitStage::Finished => s,
    }
}

/// A commit that has not started, over `count` output names.
pub open spec fn commit_start(count: usize) -> CommitView {
    CommitView {
        count,
        stage: CommitStage::CreateBackup,
        second: false,
        index: 0,
        moved_existing: Seq::empty(),
        moved_new: Seq::empty(),
        restore_for: RestoreFor::Rollback,
        position: 0,
        error: None,
        undo_error: None,
        rollback_error: None,
        cleanup_failed: false,
        leftover_error: None,
    }
}

fn copy_failure(f: &Option<OpFailure>) -> (r: Option<OpFailure>)
    ensures
        opt_failure(r) == opt_failure(*f),
{
    match f {
        Some(f) => Some(
            OpFailure {
                cause: string_from_chars(str_chars(f.cause.as_str()).as_slice()),
                op: f.op,
            },
        ),
        None => None,
    }
}

/// How a finished commit went.
#[derive(Debug, Clone)]
pub struct CommitReport {
    /// The failure that stopped the commit; `None` when the new outputs were
    /// placed.
    pub error: Option<OpFailure>,
    /// Undoing a partly done move failed too.
    pub undo_error: Option<OpFailure>,
    /// Bringing the previous outputs back failed too.
    pub rollback_error: Option<OpFailure>,
    /// The new outputs were placed, but removing the rollback or staging
    /// directory afterwards failed.
    pub leftover_error: Option<String>,
}

impl BuildCommit {
    /// A commit over `count` output names, before its first operation.
    pub fn new(count: usize) -> (r: BuildCommit)
        ensures
            r@ == commit_start(count),
            commit_wf(r@),
    {
        BuildCommit {
            count,
            stage: CommitStage::CreateBackup,
            second: false,
            index: 0,
            moved_existing: Vec::new(),
            moved_new: Vec::new(),
            restore_for: RestoreFor::Rollback,
            position: 0,
            error: None,
            undo_error: None,
            rollback_error: None,
            cleanup_failed: false,
            leftover_error: None,
        }
    }

    pub closed spec fn wf(&self) -> bool {
        commit_wf(self@)
    }

    /// The operation to perform next.
    pub fn operation(&self) -> (r: FileOp)
        requires
            self.wf(),
        ensures
            r == op_of(self@),
    {
        let from = if self.second {
            Place::Staging
        } else {
            Place::Out
        };
        let to = if self.second {
            Place::Out
        } else {
            Place::Backup
        };
        let (rf, rt) = match self.restore_for {
            RestoreFor::UndoNew => (Place::Out, Place::Staging),
            _ => (Place::Backup, Place::Out),
        };
        match self.stage {
            CommitStage::CreateBackup => FileOp::CreateBackup,
            CommitStage::MoveCreateDir => FileOp::CreateDir(to),
            CommitStage::MoveCheckSource => FileOp::Exists(from, self.index),
            CommitStage::MoveCheckDest => FileOp::Exists(to, self.index),
            CommitStage::MoveRemoveDest => FileOp::Remove(to, self.index),
            CommitStage::MoveRename => FileOp::Rename(from, to, self.index),
            CommitStage::RestoreCheckSource => FileOp::Exists(rf, self.restore_name()),
            CommitStage::RestoreCheckDest => FileOp::Exists(rt, self.restore_name()),
            CommitStage::RestoreRemoveDest => FileOp::Remove(rt, self.restore_name()),
            CommitStage::RestoreRename => FileOp::Rename(rf, rt, self.restore_name()),
            CommitStage::DiscardBackup => FileOp::RemoveBackup,
            CommitStage::ClearBackup => FileOp::RemoveBackup,
            CommitStage::CheckStaging => FileOp::StagingExists,
            CommitStage::ClearStaging => FileOp::RemoveStaging,
            CommitStage::ClearOutCheck => FileOp::Exists(Place::Out, self.index),
            CommitStage::ClearOutRemove => FileOp::Remove(Place::Out, self.index),
            CommitStage::DropBackup => FileOp::RemoveBackup,
            CommitStage::Finished => FileOp::Finish,
        }
    }

    fn restore_name(&self) -> (r: usize)
        requires
            self.position < restore_list(self@).len(),
        ensures
            r == restore_list(self@)[self.position as int],
    {
        match self.restore_for {
            RestoreFor::UndoNew => self.moved_new[self.position],
            _ => self.moved_existing[self.position],
        }
    }

    fn restore_len(&self) -> (r: usize)
        ensures
            r == restore_list(self@).len(),
    {
        match self.restore_for {
            RestoreFor::UndoNew => self.moved_new.len(),
            _ => self.moved_existing.len(),
        }
    }

    fn rollback_start(&mut self)
        ensures
            final(self)@ == rollback_start(old(self)@),
    {
        self.restore_for = RestoreFor::Rollback;
        self.position = 0;
        self.stage = if self.moved_existing.len() == 0 {
            CommitStage::DropBackup
        } else {
            CommitStage::RestoreCheckSource
        };
    }

    fn enter_clear_out(&mut self)
        ensures
            final(self)@ == enter_clear_out(old(self)@),
    {
        if self.count == 0 {
            self.rollback_start();
        } else {
            self.stage = CommitStage::ClearOutCheck;
            self.index = 0;
        }
    }

    fn after_restore(&mut self)
        ensures
            final(self)@ == after_restore(old(self)@),
    {
        match self.restore_for {
            RestoreFor::UndoExisting => self.stage = CommitStage::DiscardBackup,
            RestoreFor::UndoNew => self.enter_clear_out(),
            RestoreFor::Rollback => self.stage = CommitStage::DropBackup,
        }
    }

    fn enter_restore(&mut self, f: RestoreFor)
        ensures
            final(self)@ == enter_restore(old(self)@, f),
    {
        self.restore_for = f;
        self.position = 0;
        if self.restore_len() == 0 {
            self.after_restore();
        } else {
            self.stage = CommitStage::RestoreCheckSource;
        }
    }

    fn after_move(&mut self)
        ensures
            final(self)@ == after_move(old(self)@),
    {
        if !self.second {
            self.stage = CommitStage::MoveCreateDir;
            self.second = true;
            self.index = 0;
        } else {
            self.stage = CommitStage::ClearBackup;
        }
    }

    fn next_name(&mut self)
        requires
            old(self).index < old(self).count,
        ensures
            final(self)@ == next_name(old(self)@),
    {
        if self.index + 1 >= self.count {
            self.after_move();
        } else {
            self.stage = CommitStage::MoveCheckSource;
            self.index = self.index + 1;
        }
    }

    fn move_failed(&mut self, e: OpFailure, undo: bool)
        ensures
            final(self)@ == move_failed(old(self)@, e@, undo),
    {
        self.error = Some(e);
        if undo {
            let f = if self.second {
                RestoreFor::UndoNew
            } else {
                RestoreFor::UndoExisting
            };
            self.enter_restore(f);
        } else if !self.second {
            self.stage = CommitStage::DiscardBackup;
        } else {
            self.enter_clear_out();
        }
    }

    fn next_restore(&mut self)
        requires
            old(self).position < restore_list(old(self)@).len(),
        ensures
            final(self)@ == next_restore(old(self)@),
    {
        let len = self.restore_len();
        if self.position + 1 >= len {
            self.after_restore();
        } else {
            self.stage = CommitStage::RestoreCheckSource;
            self.position = self.position + 1;
        }
    }

    fn restore_failed(&mut self, e: OpFailure)
        ensures
            final(self)@ == restore_failed(old(self)@, e@),
    {
        match self.restore_for {
            RestoreFor::Rollback => self.rollback_error = Some(e),
            _ => self.undo_error = Some(e),
        }
        self.after_restore();
    }

    fn next_clear(&mut self)
        requires
            old(self).index < old(self).count,
        ensures
            final(self)@ == next_clear(old(self)@),
    {
        if self.index + 1 >= self.count {
            self.rollback_start();
        } else {
            self.stage = CommitStage::ClearOutCheck;
            self.index = self.index + 1;
        }
    }

    /// Hands over the reply to the operation that was asked for.
    pub fn advance(&mut self, reply: Reply)
        requires
            old(self).wf(),
        ensures
            final(self)@ == next(old(self)@, reply),
            final(self).wf(),
    {
        let ghost start = self@;
        let op = self.operation();
        match self.stage {
            CommitStage::CreateBackup => match reply {
                Reply::Failed(m) => {
                    self.error = Some(OpFailure { cause: m, op });
                    self.stage = CommitStage::Finished;
                },
                _ => {
                    self.stage = CommitStage::MoveCreateDir;
                    self.second = false;
                    self.index = 0;
                },
            },
            CommitStage::MoveCreateDir => match reply {
                Reply::Failed(m) => self.move_failed(OpFailure { cause: m, op }, false),
                _ => {
                    if self.count == 0 {
                        self.after_move();
                    } else {
                        self.stage = CommitStage::MoveCheckSource;
                        self.index = 0;
                    }
                },
            },
            CommitStage::MoveCheckSource => match reply {
                Reply::Found(true) => self.stage = CommitStage::MoveCheckDest,
                _ => self.next_name(),
            },
            CommitStage::MoveCheckDest => match reply {
                Reply::Found(true) => self.stage = CommitStage::MoveRemoveDest,
                _ => self.stage = CommitStage::MoveRename,
            },
            CommitStage::MoveRemoveDest => match reply {
                Reply::Failed(m) => self.move_failed(OpFailure { cause: m, op }, false),
                _ => self.stage = CommitStage::MoveRename,
            },
            CommitStage::MoveRename => match reply {
                Reply::Failed(m) => self.move_failed(OpFailure { cause: m, op }, true),
                _ => {
                    if self.second {
                        self.moved_new.push(self.index);
                    } else {
                        self.moved_existing.push(self.index);
                    }
                    assert(self@ == moved_one(start));
                    self.next_name();
                },
            },
            CommitStage::RestoreCheckSource => match reply {
                Reply::Found(true) => self.stage = CommitStage::RestoreCheckDest,
                _ => self.next_restore(),
            },
            CommitStage::RestoreCheckDest => match reply {
                Reply::Found(true) => self.stage = CommitStage::RestoreRemoveDest,
                _ => self.stage = CommitStage::RestoreRename,
            },
            CommitStage::RestoreRemoveDest => match reply {
                Reply::Failed(m) => self.restore_failed(OpFailure { cause: m, op }),
                _ => self.stage = CommitStage::RestoreRename,
            },
            CommitStage::RestoreRename => match reply {
                Reply::Failed(m) => self.restore_failed(OpFailure { cause: m, op }),
                _ => self.next_restore(),
            },
            CommitStage::DiscardBackup => self.stage = CommitStage::Finished,
            CommitStage::ClearBackup => match reply {
                Reply::Failed(m) => {
                    self.leftover_error = Some(m);
                    self.stage = CommitStage::Finished;
                },
                _ => self.stage = CommitStage::CheckStaging,
            },
            CommitStage::CheckStaging => match reply {
                Reply::Found(true) => self.stage = CommitStage::ClearStaging,
                _ => self.stage = CommitStage::Finished,
            },
            CommitStage::ClearStaging => match reply {
                Reply::Failed(m) => {
                    self.leftover_error = Some(m);
                    self.stage = CommitStage::Finished;
                },
                _ => self.stage = CommitStage::Finished,
            },
            CommitStage::ClearOutCheck => match reply {
                Reply::Found(true) => self.stage = CommitStage::ClearOutRemove,
                _ => self.next_clear(),
            },
            CommitStage::ClearOutRemove => match reply {
                Reply::Failed(_) => {
                    self.cleanup_failed = true;
                    self.rollback_start();
                },
                _ => self.next_clear(),
            },
            CommitStage::DropBackup => self.stage = CommitStage::Finished,
            CommitStage::Finished => {},
        }
    }

    /// Whether the commit has nothing more to do.
    pub fn is_finished(&self) -> (r: bool)
        ensures
            r == (self@.stage == CommitStage::Finished),
    {
        match self.stage {
            CommitStage::Finished => true,
            _ => false,
        }
    }

    /// How the commit went so far.
    pub fn report(&self) -> (r: CommitReport)
        ensures
            opt_failure(r.error) == self@.error,
            opt_failure(r.undo_error) == self@.undo_error,
            opt_failure(r.rollback_error) == self@.rollback_error,
            opt_text(r.leftover_error) == self@.leftover_error,
    {
        CommitReport {
            error: copy_failure(&self.error),
            undo_error: copy_failure(&self.undo_error),
            rollback_error: copy_failure(&self.rollback_error),
            leftover_error: match &self.leftover_error {
                Some(m) => Some(string_from_chars(str_chars(m.as_str()).as_slice())),
                None => None,
            },
        }
    }
}

// ─── What a commit does to the outputs ───────────────────────────────────────

/// The outputs as they lie on disk: what each directory holds under each
/// output name, by identity.
pub type OutputsOnDisk = spec_fn(Place, usize) -> Option<int>;

/// The outputs after an operation with this reply. A failed operation leaves
/// them as they were; a rename carries what its source held to its
/// destination.
pub open spec fn effect(disk: OutputsOnDisk, op: FileOp, r: Reply) -> OutputsOnDisk {
    if r is Failed {
        disk
    } else {
        match op {
            FileOp::CreateBackup | FileOp::RemoveBackup => |p: Place, k: usize|
                if p == Place::Backup {
                    None
                } else {
                    disk(p, k)
                },
            FileOp::RemoveStaging => |p: Place, k: usize|
                if p == Place::Staging {
                    None
                } else {
                    disk(p, k)
                },
            FileOp::Remove(q, i) => |p: Place, k: usize|
                if p == q && k == i {
                    None
                } else {
                    disk(p, k)
                },
            FileOp::Rename(f, t, i) => |p: Place, k: usize|
                if p == t && k == i {
                    disk(f, i)
                } else if p == f && k == i {
                    None
                } else {
                    disk(p, k)
                },
            _ => disk,
        }
    }
}

/// The reply is one the outputs on disk could give: an existence question
/// is answered truthfully, and only an output that exists can be renamed.
pub open spec fn truthful(disk: OutputsOnDisk, op: FileOp, r: Reply) -> bool {
    match op {
        FileOp::Exists(p, k) => r == Reply::Found(disk(p, k) is Some),
        FileOp::StagingExists => r is Found,
        FileOp::Rename(f, _, k) => (r is Done && disk(f, k) is Some) || r is Failed,
        FileOp::Finish => true,
        _ => r is Done || r is Failed,
    }
}

/// The commit and the outputs after a sequence of replies.
pub open spec fn run(s: CommitView, disk: OutputsOnDisk, replies: Seq<Reply>) -> (CommitView, OutputsOnDisk)
    decreases replies.len(),
{
    if replies.len() == 0 {
        (s, disk)
    } else {
        run(next(s, replies[0]), effect(disk, op_of(s), replies[0]), replies.drop_first())
    }
}

/// Every reply of the sequence is one the outputs on disk could give.
pub open spec fn truthful_run(s: CommitView, disk: OutputsOnDisk, replies: Seq<Reply>) -> bool
    decreases replies.len(),
{
    replies.len() == 0 || (truthful(disk, op_of(s), replies[0]) && truthful_run(
        next(s, replies[0]),
        effect(disk, op_of(s), replies[0]),
        replies.drop_first(),
    ))
}

spec fn increasing(m: Seq<usize>) -> bool {
    forall|a: int, b: int| 0 <= a < b < m.len() ==> #[trigger] m[a] < #[trigger] m[b]
}

spec fn in_list(m: Seq<usize>, k: usize) -> bool {
    exists|t: int| 0 <= t < m.len() && #[trigger] m[t] == k
}

/// `m` lists, in order, exactly the outputs below `upto` that `place` held
/// at the start.
spec fn moved_exactly(m: Seq<usize>, start: OutputsOnDisk, place: Place, upto: int) -> bool {
    &&& increasing(m)
    &&& forall|t: int| 0 <= t < m.len() ==> #[trigger] m[t] < upto && start(place, m[t]) is Some
    &&& forall|k: usize| k < upto && #[trigger] start(place, k) is Some ==> in_list(m, k)
}

spec fn clean(s: CommitView) -> bool {
    s.undo_error is None && s.rollback_error is None && !s.cleanup_failed
}

/// Half way through moving outputs from one directory to the next.
spec fn moving(s: CommitView, start: OutputsOnDisk, disk: OutputsOnDisk) -> bool {
    let n = s.count;
    let i = s.index;
    if !s.second {
        &&& s.moved_new.len() == 0
        &&& moved_exactly(s.moved_existing, start, Place::Out, i as int)
        &&& forall|k: usize| k < n ==> #[trigger] disk(Place::Staging, k) == start(Place::Staging, k)
        &&& forall|k: usize| k < n && k < i ==> #[trigger] disk(Place::Out, k) is None
        &&& forall|k: usize| k < n && k < i ==> #[trigger] disk(Place::Backup, k) == start(Place::Out, k)
        &&& forall|k: usize| k < n && i <= k ==> #[trigger] disk(Place::Out, k) == start(Place::Out, k)
        &&& forall|k: usize| k < n && i <= k ==> #[trigger] disk(Place::Backup, k) is None
    } else {
        &&& moved_exactly(s.moved_existing, start, Place::Out, n as int)
        &&& moved_exactly(s.moved_new, start, Place::Staging, i as int)
        &&& forall|k: usize| k < n ==> #[trigger] disk(Place::Backup, k) == start(Place::Out, k)
        &&& forall|k: usize| k < n && k < i ==> #[trigger] disk(Place::Out, k) == start(Place::Staging, k)
        &&& forall|k: usize| k < n && k < i ==> #[trigger] disk(Place::Staging, k) is None
        &&& forall|k: usize| k < n && i <= k ==> #[trigger] disk(Place::Out, k) is None
        &&& forall|k: usize| k < n && i <= k ==> #[trigger] disk(Place::Staging, k) == start(Place::Staging, k)
    }
}

/// The previous outputs wait in the rollback directory.
spec fn held_aside(s: CommitView, start: OutputsOnDisk, disk: OutputsOnDisk) -> bool {
    &&& moved_exactly(s.moved_existing, start, Place::Out, s.count as int)
    &&& forall|k: usize| k < s.count ==> #[trigger] disk(Place::Backup, k) == start(Place::Out, k)
}

/// Half way through moving the previous outputs back.
spec fn restoring(s: CommitView, start: OutputsOnDisk, disk: OutputsOnDisk) -> bool {
    let m = s.moved_existing;
    &&& increasing(m)
    &&& forall|t: int| 0 <= t < m.len() ==> #[trigger] m[t] < s.count && start(Place::Out, m[t]) is Some
    &&& forall|k: usize| k < s.count && !in_list(m, k) ==> #[trigger] disk(Place::Out, k) == start(Place::Out, k)
    &&& forall|t: int| 0 <= t < s.position && t < m.len() ==> #[trigger] disk(Place::Out, m[t]) == start(Place::Out, m[t])
    &&& forall|t: int| s.position <= t < m.len() ==> #[trigger] disk(Place::Out, m[t]) is None
    &&& forall|t: int| s.position <= t < m.len() ==> #[trigger] disk(Place::Backup, m[t]) == start(Place::Out, m[t])
}

spec fn outputs_are(disk: OutputsOnDisk, n: usize, start: OutputsOnDisk, place: Place) -> bool {
    forall|k: usize| k < n ==> #[trigger] disk(Place::Out, k) == start(place, k)
}

/// What holds at each stage of a commit that has met no failure while
/// undoing or restoring.
spec fn on_track(s: CommitView, start: OutputsOnDisk, disk: OutputsOnDisk) -> bool {
    let n = s.count;
    match s.stage {
        CommitStage::CreateBackup => {
            &&& s.error is None
            &&& !s.second
            &&& s.moved_existing.len() == 0
            &&& s.moved_new.len() == 0
            &&& forall|k: usize| k < n ==> #[trigger] disk(Place::Out, k) == start(Place::Out, k)
            &&& forall|k: usize| k < n ==> #[trigger] disk(Place::Staging, k) == start(Place::Staging, k)
        },
        CommitStage::MoveCreateDir => s.error is None && s.index == 0 && moving(s, start, disk),
        CommitStage::MoveCheckSource => s.error is None && s.index < n && moving(s, start, disk),
        CommitStage::MoveCheckDest | CommitStage::MoveRename => {
            &&& s.error is None
            &&& s.index < n
            &&& moving(s, start, disk)
            &&& disk(move_from(s.second), s.index) is Some
        },
        CommitStage::MoveRemoveDest => false,
        CommitStage::RestoreCheckSource | CommitStage::RestoreCheckDest | CommitStage::RestoreRename => {
            &&& s.error is Some
            &&& s.position < restore_list(s).len()
            &&& restore_list(s).len() <= usize::MAX
            &&& if s.restore_for == RestoreFor::UndoNew {
                held_aside(s, start, disk)
            } else {
                restoring(s, start, disk)
            }
        },
        CommitStage::RestoreRemoveDest => {
            &&& s.error is Some
            &&& s.restore_for == RestoreFor::UndoNew
            &&& s.position < restore_list(s).len()
            &&& restore_list(s).len() <= usize::MAX
            &&& held_aside(s, start, disk)
        },
        CommitStage::DiscardBackup | CommitStage::DropBackup => s.error is Some && outputs_are(
            disk,
            n,
            start,
            Place::Out,
        ),
        CommitStage::ClearBackup | CommitStage::CheckStaging | CommitStage::ClearStaging => s.error
            is None && outputs_are(disk, n, start, Place::Staging),
        CommitStage::ClearOutCheck | CommitStage::ClearOutRemove => {
            &&& s.error is Some
            &&& s.index < n
            &&& held_aside(s, start, disk)
            &&& forall|k: usize| k < s.index ==> #[trigger] disk(Place::Out, k) is None
        },
        CommitStage::Finished => if s.error is None {
            outputs_are(disk, n, start, Place::Staging)
        } else {
            outputs_are(disk, n, start, Place::Out)
        },
    }
}

spec fn commit_inv(s: CommitView, start: OutputsOnDisk, disk: OutputsOnDisk) -> bool {
    &&& commit_wf(s)
    &&& s.error is None ==> clean(s)
    &&& clean(s) ==> on_track(s, start, disk)
}

proof fn lemma_next_wf(s: CommitView, r: Reply)
    requires
        commit_wf(s),
    ensures
        commit_wf(next(s, r)),
{
}

/// Moving the outputs below `i` listed in `m`, one more present output at
/// `i` keeps the list exact.
proof fn lemma_moved_one_more(m: Seq<usize>, start: OutputsOnDisk, place: Place, i: usize)
    requires
        moved_exactly(m, start, place, i as int),
        start(place, i) is Some,
    ensures
        moved_exactly(m.push(i), start, place, i + 1),
{
    let m2 = m.push(i);
    assert(m2[m.len() as int] == i);
    assert forall|k: usize| k < i + 1 && #[trigger] start(place, k) is Some implies in_list(m2, k) by {
        if k < i {
            let t = choose|t: int| 0 <= t < m.len() && #[trigger] m[t] == k;
            assert(m2[t] == k);
        } else {
            assert(m2[m.len() as int] == k);
        }
    }
    assert forall|a: int, b: int| 0 <= a < b < m2.len() implies #[trigger] m2[a] < #[trigger] m2[b] by {
        if b < m.len() {
            assert(m[a] < m[b]);
        } else {
            assert(m[a] < i);
        }
    }
}

/// An output absent at the start below `i` keeps the list exact one further.
proof fn lemma_moved_skip(m: Seq<usize>, start: OutputsOnDisk, place: Place, i: usize)
    requires
        moved_exactly(m, start, place, i as int),
        start(place, i) is None,
    ensures
        moved_exactly(m, start, place, i + 1),
{
}

/// Moving the previous outputs aside failed at `s.index`: undoing starts with
/// every output not yet moved back where it was.
proof fn lemma_undo_existing_starts(s: CommitView, start: OutputsOnDisk, disk: OutputsOnDisk)
    requires
        !s.second,
        s.index < s.count,
        moving(s, start, disk),
    ensures
        restoring(CommitView { position: 0, ..s }, start, disk),
{
    let m = s.moved_existing;
    assert forall|k: usize| k < s.count && !in_list(m, k) implies #[trigger] disk(Place::Out, k) == start(
        Place::Out,
        k,
    ) by {
        if k < s.index {
            if start(Place::Out, k) is Some {
                assert(in_list(m, k));
            }
            assert(disk(Place::Out, k) is None);
        } else {
            assert(disk(Place::Out, k) == start(Place::Out, k));
        }
    }
    assert forall|t: int| 0 <= t < m.len() implies #[trigger] disk(Place::Out, m[t]) is None by {
        assert(m[t] < s.index);
    }
    assert forall|t: int| 0 <= t < m.len() implies #[trigger] disk(Place::Backup, m[t]) == start(
        Place::Out,
        m[t],
    ) by {
        assert(m[t] < s.index);
    }
}

/// Every previous output listed is back: the output directory is as it was.
proof fn lemma_all_restored(s: CommitView, start: OutputsOnDisk, disk: OutputsOnDisk)
    requires
        restoring(s, start, disk),
        s.position >= s.moved_existing.len(),
    ensures
        outputs_are(disk, s.count, start, Place::Out),
{
    let m = s.moved_existing;
    assert forall|k: usize| k < s.count implies #[trigger] disk(Place::Out, k) == start(Place::Out, k) by {
        if in_list(m, k) {
            let t = choose|t: int| 0 <= t < m.len() && #[trigger] m[t] == k;
            assert(disk(Place::Out, m[t]) == start(Place::Out, m[t]));
        }
    }
}

proof fn lemma_increasing_at_least(m: Seq<usize>, t: int)
    requires
        increasing(m),
        0 <= t < m.len(),
    ensures
        m[t] >= t,
    decreases t,
{
    if t > 0 {
        lemma_increasing_at_least(m, t - 1);
        assert(m[t - 1] < m[t]);
    }
}

/// A strictly increasing list of names below `bound` has at most `bound`
/// entries.
proof fn lemma_increasing_len(m: Seq<usize>, bound: int)
    requires
        increasing(m),
        0 <= bound,
        forall|t: int| 0 <= t < m.len() ==> #[trigger] m[t] < bound,
    ensures
        m.len() <= bound,
{
    if m.len() > 0 {
        lemma_increasing_at_least(m, m.len() - 1);
    }
}

/// Moving back the listed output at `position` advances the restore.
proof fn lemma_restore_one(s: CommitView, start: OutputsOnDisk, disk: OutputsOnDisk)
    requires
        restoring(s, start, disk),
        s.position < s.moved_existing.len(),
    ensures
        restoring(
            CommitView { position: (s.position + 1) as usize, ..s },
            start,
            effect(
                disk,
                FileOp::Rename(Place::Backup, Place::Out, s.moved_existing[s.position as int]),
                Reply::Done,
            ),
        ),
{
    let m = s.moved_existing;
    lemma_increasing_len(m, s.count as int);
    let j = s.position as int;
    let x = m[j];
    let d2 = effect(disk, FileOp::Rename(Place::Backup, Place::Out, x), Reply::Done);
    let s2 = CommitView { position: (s.position + 1) as usize, ..s };
    assert forall|k: usize| k < s.count && !in_list(m, k) implies #[trigger] d2(Place::Out, k) == start(
        Place::Out,
        k,
    ) by {
        assert(k != x);
    }
    assert forall|t: int| 0 <= t < s2.position && t < m.len() implies #[trigger] d2(Place::Out, m[t]) == start(
        Place::Out,
        m[t],
    ) by {
        if t < j {
            assert(m[t] < m[j]);
        }
    }
    assert forall|t: int| s2.position <= t < m.len() implies #[trigger] d2(Place::Out, m[t]) is None by {
        assert(m[j] < m[t]);
    }
    assert forall|t: int| s2.position <= t < m.len() implies #[trigger] d2(Place::Backup, m[t]) == start(
        Place::Out,
        m[t],
    ) by {
        assert(m[j] < m[t]);
    }
}

/// With the previous outputs aside and nothing left in the output
/// directory, bringing them back starts.
proof fn lemma_rollback_begins(s: CommitView, start: OutputsOnDisk, disk: OutputsOnDisk)
    requires
        s.error is Some,
        clean(s),
        held_aside(s, start, disk),
        forall|k: usize| k < s.count ==> #[trigger] disk(Place::Out, k) is None,
    ensures
        on_track(rollback_start(s), start, disk),
{
    let s2 = CommitView { restore_for: RestoreFor::Rollback, position: 0, ..s };
    let m = s.moved_existing;
    lemma_increasing_len(m, s.count as int);
    assert forall|k: usize| k < s.count && !in_list(m, k) implies #[trigger] disk(Place::Out, k) == start(
        Place::Out,
        k,
    ) by {
        if start(Place::Out, k) is Some {
            assert(in_list(m, k));
        }
    }
    assert(restoring(s2, start, disk));
    if m.len() == 0 {
        lemma_all_restored(s2, start, disk);
    }
}

/// One step of the moves keeps the commit on track.
proof fn lemma_step_move(s: CommitView, start: OutputsOnDisk, disk: OutputsOnDisk, r: Reply)
    requires
        commit_wf(s),
        clean(s),
        on_track(s, start, disk),
        truthful(disk, op_of(s), r),
        clean(next(s, r)),
        s.stage == CommitStage::MoveCreateDir || s.stage == CommitStage::MoveCheckSource || s.stage
            == CommitStage::MoveCheckDest || s.stage == CommitStage::MoveRename,
    ensures
        on_track(next(s, r), start, effect(disk, op_of(s), r)),
{
    let n = s.count;
    let i = s.index;
    let d2 = effect(disk, op_of(s), r);
    match s.stage {
        CommitStage::MoveCreateDir => {
            if !(r is Failed) && n == 0 && !s.second {
                assert(moving(start_move(s, true), start, d2));
            }
        },
        CommitStage::MoveCheckSource => {
            if !found(r) {
                if !s.second {
                    lemma_moved_skip(s.moved_existing, start, Place::Out, i);
                } else {
                    lemma_moved_skip(s.moved_new, start, Place::Staging, i);
                }
                let s3 = CommitView { index: (i + 1) as usize, ..s };
                assert(moving(s3, start, d2));
                if i + 1 >= n {
                    if !s.second {
                        assert(moving(start_move(s, true), start, d2));
                    } else {
                        assert(outputs_are(d2, n, start, Place::Staging));
                    }
                }
            }
        },
        CommitStage::MoveCheckDest => {},
        CommitStage::MoveRename => {
            if r is Failed {
                lemma_increasing_len(s.moved_existing, s.count as int);
                if s.second {
                    lemma_increasing_len(s.moved_new, s.count as int);
                }
                if !s.second {
                    lemma_undo_existing_starts(s, start, disk);
                    let s3 = CommitView { position: 0, ..s };
                    if s.moved_existing.len() == 0 {
                        lemma_all_restored(s3, start, disk);
                    }
                }
            } else {
                let m = moved_one(s);
                if !s.second {
                    lemma_moved_one_more(s.moved_existing, start, Place::Out, i);
                } else {
                    lemma_moved_one_more(s.moved_new, start, Place::Staging, i);
                }
                let s3 = CommitView { index: (i + 1) as usize, ..m };
                assert(moving(s3, start, d2));
                if i + 1 >= n {
                    if !s.second {
                        assert(moving(start_move(m, true), start, d2));
                    } else {
                        assert(outputs_are(d2, n, start, Place::Staging));
                    }
                }
            }
        },
        _ => {},
    }
}

/// One step of a restore keeps the commit on track.
proof fn lemma_step_restore(s: CommitView, start: OutputsOnDisk, disk: OutputsOnDisk, r: Reply)
    requires
        commit_wf(s),
        clean(s),
        on_track(s, start, disk),
        truthful(disk, op_of(s), r),
        clean(next(s, r)),
        s.stage == CommitStage::RestoreCheckSource || s.stage == CommitStage::RestoreCheckDest || s.stage
            == CommitStage::RestoreRemoveDest || s.stage == CommitStage::RestoreRename,
    ensures
        on_track(next(s, r), start, effect(disk, op_of(s), r)),
{
    let d2 = effect(disk, op_of(s), r);
    if s.restore_for != RestoreFor::UndoNew {
        lemma_increasing_len(s.moved_existing, s.count as int);
        if s.stage == CommitStage::RestoreRename {
            lemma_restore_one(s, start, disk);
            let s3 = CommitView { position: (s.position + 1) as usize, ..s };
            if s.position + 1 >= s.moved_existing.len() {
                lemma_all_restored(s3, start, d2);
            }
        }
    }
}

/// One step of clearing the output directory keeps the commit on track.
proof fn lemma_step_clear(s: CommitView, start: OutputsOnDisk, disk: OutputsOnDisk, r: Reply)
    requires
        commit_wf(s),
        clean(s),
        on_track(s, start, disk),
        truthful(disk, op_of(s), r),
        clean(next(s, r)),
        s.stage == CommitStage::ClearOutCheck || s.stage == CommitStage::ClearOutRemove,
    ensures
        on_track(next(s, r), start, effect(disk, op_of(s), r)),
{
    let d2 = effect(disk, op_of(s), r);
    let c = s.index;
    let s3 = CommitView { index: (c + 1) as usize, ..s };
    if s.stage == CommitStage::ClearOutCheck && found(r) {
    } else {
        assert(forall|k: usize| k < c + 1 ==> #[trigger] d2(Place::Out, k) is None);
        assert(held_aside(s3, start, d2));
        if c + 1 >= s.count {
            lemma_rollback_begins(s3, start, d2);
        }
    }
}

/// Each step of a commit keeps what holds of it: a commit that has met no
/// failure while undoing or restoring stays on track.
proof fn lemma_step(s: CommitView, start: OutputsOnDisk, disk: OutputsOnDisk, r: Reply)
    requires
        commit_inv(s, start, disk),
        truthful(disk, op_of(s), r),
    ensures
        commit_inv(next(s, r), start, effect(disk, op_of(s), r)),
{
    lemma_next_wf(s, r);
    let s2 = next(s, r);
    let d2 = effect(disk, op_of(s), r);
    if clean(s2) {
        match s.stage {
            CommitStage::MoveCreateDir | CommitStage::MoveCheckSource | CommitStage::MoveCheckDest
            | CommitStage::MoveRename => lemma_step_move(s, start, disk, r),
            CommitStage::RestoreCheckSource | CommitStage::RestoreCheckDest
            | CommitStage::RestoreRemoveDest | CommitStage::RestoreRename => lemma_step_restore(
                s,
                start,
                disk,
                r,
            ),
            CommitStage::ClearOutCheck | CommitStage::ClearOutRemove => lemma_step_clear(s, start, disk, r),
            CommitStage::CreateBackup => {
                if !(r is Failed) {
                    assert(moving(start_move(s, false), start, d2));
                }
            },
            _ => {},
        }
    }
}

proof fn lemma_run(s: CommitView, start: OutputsOnDisk, disk: OutputsOnDisk, replies: Seq<Reply>)
    requires
        commit_inv(s, start, disk),
        truthful_run(s, disk, replies),
    ensures
        commit_inv(run(s, disk, replies).0, start, run(s, disk, replies).1),
        run(s, disk, replies).0.count == s.count,
    decreases replies.len(),
{
    if replies.len() > 0 {
        lemma_step(s, start, disk, replies[0]);
        lemma_run(next(s, replies[0]), start, effect(disk, op_of(s), replies[0]), replies.drop_first());
    }
}

/// A commit that placed the new build leaves in the output directory exactly
/// what staging held under each output name, and nothing of the previous
/// build: an output the new build lacks is gone.
pub proof fn law_a_placed_build_is_exactly_the_staged_one(
    count: usize,
    start: OutputsOnDisk,
    replies: Seq<Reply>,
)
    requires
        truthful_run(commit_start(count), start, replies),
        run(commit_start(count), start, replies).0.stage == CommitStage::Finished,
        run(commit_start(count), start, replies).0.error is None,
    ensures
        forall|k: usize|
            k < count ==> #[trigger] run(commit_start(count), start, replies).1(Place::Out, k) == start(
                Place::Staging,
                k,
            ),
{
    let s0 = commit_start(count);
    assert(commit_inv(s0, start, start));
    lemma_run(s0, start, start, replies);
    let end = run(s0, start, replies);
    assert(on_track(end.0, start, end.1));
}

/// A commit that failed, and whose undoing and restoring met no failure,
/// leaves the output directory exactly as it was: a failing build cannot
/// leave a half-written output behind.
pub proof fn law_a_failed_commit_leaves_the_previous_build(
    count: usize,
    start: OutputsOnDisk,
    replies: Seq<Reply>,
)
    requires
        truthful_run(commit_start(count), start, replies),
        run(commit_start(count), start, replies).0.stage == CommitStage::Finished,
        run(commit_start(count), start, replies).0.error is Some,
        run(commit_start(count), start, replies).0.undo_error is None,
        run(commit_start(count), start, replies).0.rollback_error is None,
        !run(commit_start(count), start, replies).0.cleanup_failed,
    ensures
        forall|k: usize|
            k < count ==> #[trigger] run(commit_start(count), start, replies).1(Place::Out, k) == start(
                Place::Out,
                k,
            ),
{
    let s0 = commit_start(count);
    assert(commit_inv(s0, start, start));
    lemma_run(s0, start, start, replies);
    let end = run(s0, start, replies);
    assert(on_track(end.0, start, end.1));
}

} // verus!
