//! The benchmark plan: its steps in order, the command each runs, and when a
//! failed step aborts the run.
use vstd::prelude::*;

verus! {

broadcast use vstd::string::group_string_axioms;

/// The name of a benchmark step.
#[derive(Debug, Clone, Copy, PartialEq, Eq, Structural)]
pub enum StepName {
    InstallRust,
    CloneWorkspace,
    ClippyFix,
    BuildDev,
    BuildRelease,
}

/// How a step is displayed.
pub open spec fn step_label(step: StepName) -> Seq<char> {
    match step {
        StepName::InstallRust => "Install Rust"@,
        StepName::CloneWorkspace => "Clone workspace"@,
        StepName::ClippyFix => "cargo clippy --fix"@,
        StepName::BuildDev => "cargo build (dev)"@,
        StepName::BuildRelease => "cargo build --release"@,
    }
}

/// The shell command a step runs inside the container.
pub open spec fn step_command_text(step: StepName) -> Seq<char> {
    match step {
        StepName::InstallRust => "curl https://sh.rustup.rs -sSf | sh -s -- -y --default-toolchain stable 2>&1 && . $HOME/.cargo/env && rustc --version"@,
        StepName::CloneWorkspace => "git clone --filter=blob:none --sparse https://github.com/tascord/icbm icbm 2>&1 && cd icbm && git sparse-checkout set workspace 2>&1"@,
        StepName::ClippyFix => ". $HOME/.cargo/env && cd icbm/workspace && cargo clippy --fix --allow-dirty --allow-staged 2>&1"@,
        StepName::BuildDev => ". $HOME/.cargo/env && cd icbm/workspace && cargo build 2>&1"@,
        StepName::BuildRelease => ". $HOME/.cargo/env && cd icbm/workspace && cargo build --release 2>&1"@,
    }
}

impl StepName {
    /// How the step is displayed.
    pub fn label(&self) -> (label: &'static str)
        ensures
            label@ == step_label(*self),
    {
        match self {
            StepName::InstallRust => "Install Rust",
            StepName::CloneWorkspace => "Clone workspace",
            StepName::ClippyFix => "cargo clippy --fix",
            StepName::BuildDev => "cargo build (dev)",
            StepName::BuildRelease => "cargo build --release",
        }
    }

    /// The shell command the step runs inside the container.
    pub fn command(&self) -> (command: &'static str)
        ensures
            command@ == step_command_text(*self),
    {
        match self {
            StepName::InstallRust => "curl https://sh.rustup.rs -sSf | sh -s -- -y --default-toolchain stable 2>&1 && . $HOME/.cargo/env && rustc --version",
            StepName::CloneWorkspace => "git clone --filter=blob:none --sparse https://github.com/tascord/icbm icbm 2>&1 && cd icbm && git sparse-checkout set workspace 2>&1",
            StepName::ClippyFix => ". $HOME/.cargo/env && cd icbm/workspace && cargo clippy --fix --allow-dirty --allow-staged 2>&1",
            StepName::BuildDev => ". $HOME/.cargo/env && cd icbm/workspace && cargo build 2>&1",
            StepName::BuildRelease => ". $HOME/.cargo/env && cd icbm/workspace && cargo build --release 2>&1",
        }
    }
}

/// What the benchmark does after a step.
#[derive(Debug, Clone, Copy, PartialEq, Eq, Structural)]
pub enum NextAction {
    /// Run this step next.
    Run(StepName),
    /// Stop the benchmark with an error.
    Abort(AbortReason),
    /// All steps have run.
    Finish,
}

/// Why the benchmark stopped early.
#[derive(Debug, Clone, Copy, PartialEq, Eq, Structural)]
pub enum AbortReason {
    RustInstallFailed,
    CloneFailed,
}

pub open spec fn abort_message_text(reason: AbortReason) -> Seq<char> {
    match reason {
        AbortReason::RustInstallFailed => "Rust installation failed – aborting benchmark"@,
        AbortReason::CloneFailed => "Workspace clone failed – aborting benchmark"@,
    }
}

impl AbortReason {
    /// The error message the benchmark stops with.
    pub fn message(&self) -> (message: &'static str)
        ensures
            message@ == abort_message_text(*self),
    {
        match self {
            AbortReason::RustInstallFailed => "Rust installation failed – aborting benchmark",
            AbortReason::CloneFailed => "Workspace clone failed – aborting benchmark",
        }
    }
}

/// The step after `step` in the benchmark's order, if any.
pub open spec fn following_step(step: StepName) -> Option<StepName> {
    match step {
        StepName::InstallRust => Some(StepName::CloneWorkspace),
        StepName::CloneWorkspace => Some(StepName::ClippyFix),
        StepName::ClippyFix => Some(StepName::BuildDev),
        StepName::BuildDev => Some(StepName::BuildRelease),
        StepName::BuildRelease => None,
    }
}

/// The decision after `step` exited with `exit_code`: a failed Rust install or
/// workspace clone aborts the run (nothing later can work); any other step goes
/// on to the next one whatever its exit code; after the last step the run ends.
pub open spec fn next_action(step: StepName, exit_code: i32) -> NextAction {
    if step == StepName::InstallRust && exit_code != 0 {
        NextAction::Abort(AbortReason::RustInstallFailed)
    } else if step == StepName::CloneWorkspace && exit_code != 0 {
        NextAction::Abort(AbortReason::CloneFailed)
    } else {
        match following_step(step) {
            Some(next) => NextAction::Run(next),
            None => NextAction::Finish,
        }
    }
}

/// The first step of the benchmark.
pub fn first_step() -> (step: StepName)
    ensures
        step == StepName::InstallRust,
{
    StepName::InstallRust
}

/// What to do after `step` exited with `exit_code` (0 means success).
pub fn after_step(step: StepName, exit_code: i32) -> (action: NextAction)
    ensures
        action == next_action(step, exit_code),
{
    match step {
        StepName::InstallRust => {
            if exit_code != 0 {
                NextAction::Abort(AbortReason::RustInstallFailed)
            } else {
                NextAction::Run(StepName::CloneWorkspace)
            }
        },
        StepName::CloneWorkspace => {
            if exit_code != 0 {
                NextAction::Abort(AbortReason::CloneFailed)
            } else {
                NextAction::Run(StepName::ClippyFix)
            }
        },
        StepName::ClippyFix => NextAction::Run(StepName::BuildDev),
        StepName::BuildDev => NextAction::Run(StepName::BuildRelease),
        StepName::BuildRelease => NextAction::Finish,
    }
}

/// The steps a run makes, given the exit code of each step it reaches:
/// starting from the first step and following `next_action`.
pub open spec fn steps_run(exit_codes: Seq<i32>) -> Seq<StepName> {
    steps_run_from(StepName::InstallRust, exit_codes, 5)
}

pub open spec fn steps_run_from(step: StepName, exit_codes: Seq<i32>, fuel: nat) -> Seq<StepName>
    decreases fuel,
{
    if fuel == 0 || exit_codes.len() == 0 {
        seq![]
    } else {
        match next_action(step, exit_codes[0]) {
            NextAction::Run(next) => seq![step] + steps_run_from(next, exit_codes.drop_first(), (fuel - 1) as nat),
            _ => seq![step],
        }
    }
}

/// When every step succeeds, the run makes the five steps in order: install,
/// clone, clippy, dev build, release build.
pub proof fn lemma_successful_run_order(exit_codes: Seq<i32>)
    requires
        exit_codes.len() == 5,
        forall|i: int| 0 <= i < 5 ==> #[trigger] exit_codes[i] == 0,
    ensures
        steps_run(exit_codes) == seq![
            StepName::InstallRust,
            StepName::CloneWorkspace,
            StepName::ClippyFix,
            StepName::BuildDev,
            StepName::BuildRelease,
        ],
{
    let e1 = exit_codes.drop_first();
    let e2 = e1.drop_first();
    let e3 = e2.drop_first();
    let e4 = e3.drop_first();
    let e5 = e4.drop_first();
    assert(e1[0] == exit_codes[1]);
    assert(e2[0] == exit_codes[2]);
    assert(e3[0] == exit_codes[3]);
    assert(e4[0] == exit_codes[4]);
    assert(e5.len() == 0);
    let s5 = steps_run_from(StepName::BuildRelease, e4, 1);
    assert(s5 == seq![StepName::BuildRelease]);
    let s4 = steps_run_from(StepName::BuildDev, e3, 2);
    assert(s4 == seq![StepName::BuildDev] + s5);
    let s3 = steps_run_from(StepName::ClippyFix, e2, 3);
    assert(s3 == seq![StepName::ClippyFix] + s4);
    let s2 = steps_run_from(StepName::CloneWorkspace, e1, 4);
    assert(s2 == seq![StepName::CloneWorkspace] + s3);
    assert(steps_run(exit_codes) == seq![StepName::InstallRust] + s2);
    assert(steps_run(exit_codes) =~= seq![
        StepName::InstallRust,
        StepName::CloneWorkspace,
        StepName::ClippyFix,
        StepName::BuildDev,
        StepName::BuildRelease,
    ]);
}

/// Only a failed install or clone stops the run early; the build steps always
/// lead on (or, after the release build, finish).
pub proof fn lemma_only_setup_failures_abort(step: StepName, exit_code: i32)
    ensures
        next_action(step, exit_code) is Abort ==> exit_code != 0 && (step == StepName::InstallRust
            || step == StepName::CloneWorkspace),
        next_action(step, exit_code) is Finish <==> step == StepName::BuildRelease,
{
}

/// A failed install or clone always aborts the run, whatever nonzero code it
/// exits with, and with its own reason; a successful one goes on to the next
/// step. Every other step goes on to the same next step whatever its exit
/// code, and the release build ends the run.
pub proof fn lemma_setup_failures_abort(exit_code: i32)
    ensures
        exit_code != 0 ==> next_action(StepName::InstallRust, exit_code) == NextAction::Abort(
            AbortReason::RustInstallFailed,
        ),
        exit_code != 0 ==> next_action(StepName::CloneWorkspace, exit_code) == NextAction::Abort(
            AbortReason::CloneFailed,
        ),
        exit_code == 0 ==> next_action(StepName::InstallRust, exit_code) == NextAction::Run(StepName::CloneWorkspace),
        exit_code == 0 ==> next_action(StepName::CloneWorkspace, exit_code) == NextAction::Run(StepName::ClippyFix),
        next_action(StepName::ClippyFix, exit_code) == NextAction::Run(StepName::BuildDev),
        next_action(StepName::BuildDev, exit_code) == NextAction::Run(StepName::BuildRelease),
        next_action(StepName::BuildRelease, exit_code) == NextAction::Finish,
{
}

/// The three cargo steps run in the workspace after loading cargo's
/// environment: clippy with `--fix`, then `cargo build`, then `cargo build
/// --release`; the two build steps differ exactly by the `--release` flag, and
/// every step runs a different command.
pub proof fn lemma_step_commands(a: StepName, b: StepName)
    ensures
        step_command_text(StepName::ClippyFix) == ". $HOME/.cargo/env && cd icbm/workspace && "@
            + "cargo clippy --fix --allow-dirty --allow-staged 2>&1"@,
        step_command_text(StepName::BuildDev) == ". $HOME/.cargo/env && cd icbm/workspace && "@ + "cargo build"@
            + " 2>&1"@,
        step_command_text(StepName::BuildRelease) == ". $HOME/.cargo/env && cd icbm/workspace && "@ + "cargo build"@
            + " --release"@ + " 2>&1"@,
        a != b ==> step_command_text(a) != step_command_text(b),
{
    reveal_strlit(". $HOME/.cargo/env && cd icbm/workspace && ");
    reveal_strlit("cargo clippy --fix --allow-dirty --allow-staged 2>&1");
    reveal_strlit("cargo build");
    reveal_strlit(" 2>&1");
    reveal_strlit(" --release");
    reveal_strlit("curl https://sh.rustup.rs -sSf | sh -s -- -y --default-toolchain stable 2>&1 && . $HOME/.cargo/env && rustc --version");
    reveal_strlit("git clone --filter=blob:none --sparse https://github.com/tascord/icbm icbm 2>&1 && cd icbm && git sparse-checkout set workspace 2>&1");
    reveal_strlit(". $HOME/.cargo/env && cd icbm/workspace && cargo clippy --fix --allow-dirty --allow-staged 2>&1");
    reveal_strlit(". $HOME/.cargo/env && cd icbm/workspace && cargo build 2>&1");
    reveal_strlit(". $HOME/.cargo/env && cd icbm/workspace && cargo build --release 2>&1");
    assert(step_command_text(StepName::ClippyFix) =~= ". $HOME/.cargo/env && cd icbm/workspace && "@
        + "cargo clippy --fix --allow-dirty --allow-staged 2>&1"@);
    assert(step_command_text(StepName::BuildDev) =~= ". $HOME/.cargo/env && cd icbm/workspace && "@ + "cargo build"@
        + " 2>&1"@);
    assert(step_command_text(StepName::BuildRelease) =~= ". $HOME/.cargo/env && cd icbm/workspace && "@
        + "cargo build"@ + " --release"@ + " 2>&1"@);
    if a != b {
        let x = step_command_text(a);
        let y = step_command_text(b);
        if x == y {
            assert(x.len() == y.len());
            assert(x[0] == y[0]);
            assert(x[45] == y[45]);
        }
    }
}

} // verus!
