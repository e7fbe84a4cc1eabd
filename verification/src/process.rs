//! Why a bounded child process produced no output, and the time budgets the
//! CLI and the dev server give their children.
//!
//! Running the child is the caller's business; this module holds what is
//! decided about it.

use vstd::prelude::*;

use crate::text::{decimal, push_decimal, push_str, str_chars, string_from_chars};

verus! {

broadcast use vstd::string::group_string_axioms;

/// Seconds a `--version`-style probe of an installed tool may take.
pub const PROBE_TIMEOUT_SECS: u64 = 10;

/// Seconds loading a project's `ruvyxa.config.ts` may take.
pub const CONFIG_LOAD_TIMEOUT_SECS: u64 = 60;

/// Seconds one adapter build hook may take.
pub const ADAPTER_HOOK_TIMEOUT_SECS: u64 = 600;

/// Seconds a project type check may take.
pub const TYPECHECK_TIMEOUT_SECS: u64 = 900;

/// Seconds a CSS toolchain invocation may take.
pub const STYLE_TOOL_TIMEOUT_SECS: u64 = 300;

/// Seconds rendering one page or API route in a one-shot process may take.
pub const RENDER_TIMEOUT_SECS: u64 = 120;

/// Why a bounded child process did not produce output.
#[derive(Debug)]
pub enum ProcessError {
    /// The command could not be started, or its pipes could not be read; the
    /// operating system's message.
    Io(String),
    /// The child was still running when its budget, in whole seconds, ran
    /// out; it has been killed and reaped.
    TimedOut { after_secs: u64 },
}

pub open spec fn process_message(e: ProcessError) -> Seq<char> {
    match e {
        ProcessError::Io(m) => m@,
        ProcessError::TimedOut { after_secs } => "the process did not finish within "@ + decimal(
            if after_secs < 1 { 1 } else { after_secs as nat },
        ) + " seconds and was stopped"@,
    }
}

impl ProcessError {
    /// The error as text, as its `Display` reads: a timeout is reported in
    /// whole seconds, never fewer than one.
    pub fn message(&self) -> (r: String)
        ensures
            r@ == process_message(*self),
    {
        match self {
            ProcessError::Io(m) => string_from_chars(str_chars(m.as_str()).as_slice()),
            ProcessError::TimedOut { after_secs } => {
                let mut out = str_chars("the process did not finish within ");
                let secs = if *after_secs < 1 { 1 } else { *after_secs };
                push_decimal(&mut out, secs);
                push_str(&mut out, " seconds and was stopped");
                string_from_chars(out.as_slice())
            },
        }
    }
}

/// What the wait for a bounded child does after checking on it.
#[derive(Debug, Clone, Copy, PartialEq, Eq, Structural)]
pub enum WaitAction {
    /// The child exited: collect its output.
    Collect,
    /// The budget ran out: kill the child and reap it before returning.
    KillAndReap,
    /// Check again after a short sleep.
    Sleep,
}

/// The next step of the wait: an exited child is collected; a running one
/// is killed and reaped once the deadline has passed, and waited on until
/// then. So the wait never outlasts its deadline by more than one check.
pub fn wait_action(exited: bool, elapsed_nanos: u128, budget_nanos: u128) -> (r: WaitAction)
    ensures
        exited ==> r == WaitAction::Collect,
        !exited && elapsed_nanos >= budget_nanos ==> r == WaitAction::KillAndReap,
        !exited && elapsed_nanos < budget_nanos ==> r == WaitAction::Sleep,
{
    if exited {
        WaitAction::Collect
    } else if elapsed_nanos >= budget_nanos {
        WaitAction::KillAndReap
    } else {
        WaitAction::Sleep
    }
}

} // verus!
