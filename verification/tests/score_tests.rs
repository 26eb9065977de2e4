use icbm::score::{rating_label, total_score, StepScore};

fn step(score: u32) -> StepScore {
    StepScore { name: "step".to_string(), score, time_score: 0, cpu_score: 0, mem_score: 0 }
}

#[test]
fn total_is_rounded_average_of_successful_steps() {
    assert_eq!(total_score(&vec![step(800), step(0), step(601)], &vec![true, false, true]), 701);
    assert_eq!(total_score(&vec![step(800), step(0), step(601)], &vec![true, true, true]), 467);
    assert_eq!(total_score(&vec![step(800), step(600)], &vec![true, true]), 700);
    assert_eq!(total_score(&vec![step(1), step(2)], &vec![true, true]), 2);
    assert_eq!(total_score(&vec![step(1000)], &vec![true]), 1000);
}

#[test]
fn successful_step_scoring_zero_counts() {
    assert_eq!(total_score(&vec![step(1000), step(0)], &vec![true, true]), 500);
}

#[test]
fn total_is_zero_without_successful_steps() {
    assert_eq!(total_score(&vec![], &vec![]), 0);
    assert_eq!(total_score(&vec![step(0), step(0)], &vec![false, false]), 0);
    assert_eq!(total_score(&vec![step(0), step(0)], &vec![true, true]), 0);
}

#[test]
fn total_stays_within_range() {
    let steps: Vec<StepScore> = (0..50).map(|i| step((i * 37) % 1001)).collect();
    let ok: Vec<bool> = (0..50).map(|i| i % 3 != 0).collect();
    let total = total_score(&steps, &ok);
    assert!(total <= 1000);
}

#[test]
fn failed_step_scores_zero() {
    let s = StepScore::failed("Install Rust");
    assert_eq!(s.name, "Install Rust");
    assert_eq!((s.score, s.time_score, s.cpu_score, s.mem_score), (0, 0, 0, 0));
}

#[test]
fn ratings_by_band() {
    assert_eq!(rating_label(1000), "⚡ Exceptional – top-tier Rust development machine");
    assert_eq!(rating_label(900), "⚡ Exceptional – top-tier Rust development machine");
    assert_eq!(rating_label(899), "🚀 Excellent – very well suited for Rust development");
    assert_eq!(rating_label(750), "🚀 Excellent – very well suited for Rust development");
    assert_eq!(rating_label(749), "✅ Good – comfortable for most Rust projects");
    assert_eq!(rating_label(550), "✅ Good – comfortable for most Rust projects");
    assert_eq!(rating_label(549), "⚠️  Adequate – usable but expect slow release builds");
    assert_eq!(rating_label(350), "⚠️  Adequate – usable but expect slow release builds");
    assert_eq!(rating_label(349), "❌ Poor – not recommended for serious Rust development");
    assert_eq!(rating_label(0), "❌ Poor – not recommended for serious Rust development");
    assert_eq!(rating_label(1001), "❌ Poor – not recommended for serious Rust development");
}
