use icbm::bench::{after_step, first_step, AbortReason, NextAction, StepName};
use icbm::metrics::{bytes_to_mib, peak_memory_mib};
use icbm::worker::Ticker;
use std::time::Duration;

#[test]
fn successful_run_visits_every_step_in_order() {
    let mut step = first_step();
    let mut seen = vec![step];
    loop {
        match after_step(step, 0) {
            NextAction::Run(next) => {
                seen.push(next);
                step = next;
            }
            NextAction::Finish => break,
            NextAction::Abort(reason) => panic!("unexpected abort: {}", reason.message()),
        }
    }
    assert_eq!(
        seen,
        vec![StepName::InstallRust, StepName::CloneWorkspace, StepName::ClippyFix, StepName::BuildDev, StepName::BuildRelease]
    );
}

#[test]
fn setup_failures_abort_and_build_failures_continue() {
    assert_eq!(after_step(StepName::InstallRust, 1), NextAction::Abort(AbortReason::RustInstallFailed));
    assert_eq!(after_step(StepName::CloneWorkspace, -1), NextAction::Abort(AbortReason::CloneFailed));
    assert_eq!(after_step(StepName::ClippyFix, 101), NextAction::Run(StepName::BuildDev));
    assert_eq!(after_step(StepName::BuildDev, 1), NextAction::Run(StepName::BuildRelease));
    assert_eq!(after_step(StepName::BuildRelease, 1), NextAction::Finish);
    assert_eq!(AbortReason::RustInstallFailed.message(), "Rust installation failed – aborting benchmark");
    assert_eq!(AbortReason::CloneFailed.message(), "Workspace clone failed – aborting benchmark");
}

#[test]
fn step_labels_and_commands() {
    assert_eq!(StepName::InstallRust.label(), "Install Rust");
    assert_eq!(StepName::CloneWorkspace.label(), "Clone workspace");
    assert_eq!(StepName::ClippyFix.label(), "cargo clippy --fix");
    assert_eq!(StepName::BuildDev.label(), "cargo build (dev)");
    assert_eq!(StepName::BuildRelease.label(), "cargo build --release");
    assert_eq!(
        StepName::BuildDev.command(),
        ". $HOME/.cargo/env && cd icbm/workspace && cargo build 2>&1"
    );
    assert!(StepName::CloneWorkspace.command().starts_with("git clone --filter=blob:none --sparse https://github.com/tascord/icbm icbm"));
    assert!(StepName::InstallRust.command().ends_with("rustc --version"));
}

#[test]
fn memory_figures() {
    assert_eq!(bytes_to_mib(0), 0);
    assert_eq!(bytes_to_mib(1_048_575), 0);
    assert_eq!(bytes_to_mib(3 * 1_048_576 + 5), 3);
    assert_eq!(bytes_to_mib(u64::MAX), u64::MAX / 1_048_576);
    assert_eq!(peak_memory_mib(&vec![]), 0);
    assert_eq!(peak_memory_mib(&vec![3, 9, 2]), 9);
    assert_eq!(peak_memory_mib(&vec![4, 4]), 4);
}

#[test]
fn ticker_yields_counts_below_limit() {
    let ticker = Ticker::new(Duration::from_millis(10), 3);
    assert_eq!(ticker.interval(), Duration::from_millis(10));
    assert_eq!(ticker.limit(), 3);
    let mut counts = vec![];
    let mut count = 0;
    while let Some(c) = ticker.tick(count) {
        counts.push(c);
        count += 1;
    }
    assert_eq!(counts, vec![0, 1, 2]);
    assert_eq!(Ticker::new(Duration::from_secs(1), 0).tick(0), None);
}
