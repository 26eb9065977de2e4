//! Scoring: per-step score records, the overall score and its rating.
//!
//! The score is a single integer in [0, 1000] where higher is better. The
//! overall score is the average of the per-step scores of the steps that
//! succeeded, rounded to the nearest integer (halves up).
use vstd::prelude::*;

verus! {

broadcast use vstd::string::group_string_axioms;

/// Per-step score breakdown.
#[derive(Debug, Clone)]
pub struct StepScore {
    pub name: String,
    /// 0–1000
    pub score: u32,
    /// Time sub-score (0–1000)
    pub time_score: u32,
    /// CPU sub-score (0–1000)
    pub cpu_score: u32,
    /// Memory sub-score (0–1000)
    pub mem_score: u32,
}

impl StepScore {
    /// The score of a step that failed: zero in every dimension.
    pub fn failed(name: &str) -> (step: StepScore)
        ensures
            step.name@ == name@,
            step.score == 0,
            step.time_score == 0,
            step.cpu_score == 0,
            step.mem_score == 0,
    {
        StepScore { name: name.to_owned(), score: 0, time_score: 0, cpu_score: 0, mem_score: 0 }
    }
}

/// Sum of the scores of the steps that succeeded (`succeeded[i]` tells whether
/// step `i` did).
pub open spec fn score_sum(steps: Seq<StepScore>, succeeded: Seq<bool>) -> nat
    decreases steps.len(),
{
    if steps.len() == 0 || succeeded.len() == 0 {
        0
    } else {
        score_sum(steps.drop_last(), succeeded.drop_last()) + if succeeded.last() {
            steps.last().score as nat
        } else {
            0nat
        }
    }
}

/// Number of steps that succeeded.
pub open spec fn scored_count(steps: Seq<StepScore>, succeeded: Seq<bool>) -> nat
    decreases steps.len(),
{
    if steps.len() == 0 || succeeded.len() == 0 {
        0
    } else {
        scored_count(steps.drop_last(), succeeded.drop_last()) + if succeeded.last() {
            1nat
        } else {
            0nat
        }
    }
}

/// `sum / count` rounded to the nearest integer, halves rounded up.
pub open spec fn rounded_average(sum: nat, count: nat) -> nat {
    (2 * sum + count) / (2 * count)
}

/// The overall score: the rounded average of the scores of the steps that
/// succeeded, or 0 when none did.
pub open spec fn overall_score(steps: Seq<StepScore>, succeeded: Seq<bool>) -> nat {
    if scored_count(steps, succeeded) == 0 {
        0
    } else {
        rounded_average(score_sum(steps, succeeded), scored_count(steps, succeeded))
    }
}

/// When every step score is at most `bound`, the sum is at most `bound` per
/// counted step.
proof fn lemma_score_sum_bounded(steps: Seq<StepScore>, succeeded: Seq<bool>, bound: nat)
    requires
        forall|i: int| 0 <= i < steps.len() ==> #[trigger] steps[i].score <= bound,
    ensures
        score_sum(steps, succeeded) <= scored_count(steps, succeeded) * bound,
        scored_count(steps, succeeded) <= steps.len(),
    decreases steps.len(),
{
    if steps.len() > 0 && succeeded.len() > 0 {
        let rest = steps.drop_last();
        assert forall|i: int| 0 <= i < rest.len() implies #[trigger] rest[i].score <= bound by {
            assert(rest[i] == steps[i]);
        }
        lemma_score_sum_bounded(rest, succeeded.drop_last(), bound);
        assert(steps.last().score <= bound);
        let c = scored_count(rest, succeeded.drop_last());
        if succeeded.last() {
            assert((c + 1) * bound == c * bound + bound) by (nonlinear_arith);
        }
    }
}

/// The overall score stays in [0, 1000] when every step score does: an
/// average of scores is never above the largest of them.
pub proof fn lemma_overall_score_in_range(steps: Seq<StepScore>, succeeded: Seq<bool>)
    requires
        forall|i: int| 0 <= i < steps.len() ==> #[trigger] steps[i].score <= 1000,
    ensures
        overall_score(steps, succeeded) <= 1000,
{
    lemma_score_sum_bounded(steps, succeeded, 1000);
    if scored_count(steps, succeeded) > 0 {
        lemma_rounded_average_bounded(score_sum(steps, succeeded), scored_count(steps, succeeded), 1000);
    }
}

/// The rounded average is the integer nearest to `sum / count`, halves going
/// up: `avg - 1/2 <= sum / count < avg + 1/2`.
pub proof fn lemma_rounded_average_is_nearest(sum: nat, count: nat)
    requires
        count > 0,
    ensures
        2 * rounded_average(sum, count) * count <= 2 * sum + count,
        2 * sum + count < 2 * rounded_average(sum, count) * count + 2 * count,
{
    let x = 2 * sum + count;
    let d = 2 * count;
    let q = rounded_average(sum, count);
    assert(q == x / d);
    vstd::arithmetic::div_mod::lemma_fundamental_div_mod(x as int, d as int);
    let r = x % d;
    assert(0 <= r < d);
    assert(x == d * q + r);
    assert(2 * q * count == d * q) by (nonlinear_arith)
        requires
            d == 2 * count,
    ;
}

/// The average of values of at most `bound` is at most `bound`.
proof fn lemma_rounded_average_bounded(sum: nat, count: nat, bound: nat)
    requires
        count > 0,
        sum <= count * bound,
    ensures
        rounded_average(sum, count) <= bound,
{
    let x = (2 * sum + count) as int;
    let z = (2 * count) as int;
    let m = (bound + 1) as int;
    let y = m * z;
    assert(x < y) by (nonlinear_arith)
        requires
            count > 0,
            sum <= count * bound,
            x == 2 * sum + count,
            z == 2 * count,
            m == bound + 1,
            y == m * z,
    ;
    vstd::arithmetic::div_mod::lemma_div_by_multiple_is_strongly_ordered(x, y, m, z);
    vstd::arithmetic::div_mod::lemma_div_multiples_vanish(m, z);
    assert(z * m == m * z) by (nonlinear_arith);
}

proof fn lemma_prefix_sum_bounded(steps: Seq<StepScore>, succeeded: Seq<bool>, n: int)
    requires
        0 <= n <= steps.len(),
        steps.len() == succeeded.len(),
    ensures
        score_sum(steps.subrange(0, n), succeeded.subrange(0, n)) <= score_sum(steps, succeeded),
    decreases steps.len() - n,
{
    if n < steps.len() {
        lemma_prefix_sum_bounded(steps, succeeded, n + 1);
        assert(steps.subrange(0, n + 1).drop_last() =~= steps.subrange(0, n));
        assert(succeeded.subrange(0, n + 1).drop_last() =~= succeeded.subrange(0, n));
    } else {
        assert(steps.subrange(0, n) =~= steps);
        assert(succeeded.subrange(0, n) =~= succeeded);
    }
}

/// Total = average of the per-step scores of the steps that succeeded
/// (`succeeded[i]` tells whether step `i` did), rounded; 0 when none did.
pub fn total_score(step_scores: &Vec<StepScore>, succeeded: &Vec<bool>) -> (total: u32)
    requires
        step_scores@.len() == succeeded@.len(),
        score_sum(step_scores@, succeeded@) <= u32::MAX,
    ensures
        total == overall_score(step_scores@, succeeded@),
{
    let mut sum: u64 = 0;
    let mut count: u64 = 0;
    let mut i: usize = 0;
    while i < step_scores.len()
        invariant
            i <= step_scores@.len(),
            step_scores@.len() == succeeded@.len(),
            score_sum(step_scores@, succeeded@) <= u32::MAX,
            sum == score_sum(step_scores@.subrange(0, i as int), succeeded@.subrange(0, i as int)),
            count == scored_count(step_scores@.subrange(0, i as int), succeeded@.subrange(0, i as int)),
            count <= i,
        decreases step_scores.len() - i,
    {
        proof {
            assert(step_scores@.subrange(0, i + 1).drop_last() =~= step_scores@.subrange(0, i as int));
            assert(succeeded@.subrange(0, i + 1).drop_last() =~= succeeded@.subrange(0, i as int));
            lemma_prefix_sum_bounded(step_scores@, succeeded@, i + 1);
        }
        if succeeded[i] {
            sum = sum + step_scores[i].score as u64;
            count = count + 1;
        }
        i = i + 1;
    }
    proof {
        assert(step_scores@.subrange(0, i as int) =~= step_scores@);
        assert(succeeded@.subrange(0, i as int) =~= succeeded@);
    }
    if count == 0 {
        return 0;
    }
    let average = (2 * (sum as u128) + count as u128) / (2 * (count as u128));
    proof {
        assert(sum <= count * (u32::MAX as nat)) by (nonlinear_arith)
            requires
                sum <= u32::MAX,
                count >= 1,
        ;
        lemma_rounded_average_bounded(sum as nat, count as nat, u32::MAX as nat);
    }
    average as u32
}

/// The qualitative label for an overall score.
pub open spec fn rating_text(score: u32) -> Seq<char> {
    if 900 <= score && score <= 1000 {
        "⚡ Exceptional – top-tier Rust development machine"@
    } else if 750 <= score && score <= 899 {
        "🚀 Excellent – very well suited for Rust development"@
    } else if 550 <= score && score <= 749 {
        "✅ Good – comfortable for most Rust projects"@
    } else if 350 <= score && score <= 549 {
        "⚠️  Adequate – usable but expect slow release builds"@
    } else {
        "❌ Poor – not recommended for serious Rust development"@
    }
}

/// The rating has five bands, from the best: 900–1000 exceptional, 750–899
/// excellent, 550–749 good, 350–549 adequate, anything else poor. Scores in
/// one band share their label, and the labels of different bands differ.
pub proof fn lemma_rating_bands(a: u32, b: u32)
    ensures
        900 <= a <= 1000 ==> rating_text(a) == "⚡ Exceptional – top-tier Rust development machine"@,
        750 <= a <= 899 ==> rating_text(a) == "🚀 Excellent – very well suited for Rust development"@,
        550 <= a <= 749 ==> rating_text(a) == "✅ Good – comfortable for most Rust projects"@,
        350 <= a <= 549 ==> rating_text(a) == "⚠️  Adequate – usable but expect slow release builds"@,
        a < 350 || a > 1000 ==> rating_text(a) == "❌ Poor – not recommended for serious Rust development"@,
        rating_band(a) == rating_band(b) ==> rating_text(a) == rating_text(b),
        rating_band(a) != rating_band(b) ==> rating_text(a) != rating_text(b),
{
    reveal_strlit("⚡ Exceptional – top-tier Rust development machine");
    reveal_strlit("🚀 Excellent – very well suited for Rust development");
    reveal_strlit("✅ Good – comfortable for most Rust projects");
    reveal_strlit("⚠️  Adequate – usable but expect slow release builds");
    reveal_strlit("❌ Poor – not recommended for serious Rust development");
    if rating_band(a) != rating_band(b) {
        assert(rating_text(a)[0] != rating_text(b)[0]);
    }
}

/// The band of a score, 4 for the best (900–1000) down to 0 for poor.
pub open spec fn rating_band(score: u32) -> int {
    if 900 <= score <= 1000 {
        4
    } else if 750 <= score <= 899 {
        3
    } else if 550 <= score <= 749 {
        2
    } else if 350 <= score <= 549 {
        1
    } else {
        0
    }
}

/// Qualitative label derived from an overall score.
pub fn rating_label(score: u32) -> (label: String)
    ensures
        label@ == rating_text(score),
{
    if 900 <= score && score <= 1000 {
        "⚡ Exceptional – top-tier Rust development machine".to_owned()
    } else if 750 <= score && score <= 899 {
        "🚀 Excellent – very well suited for Rust development".to_owned()
    } else if 550 <= score && score <= 749 {
        "✅ Good – comfortable for most Rust projects".to_owned()
    } else if 350 <= score && score <= 549 {
        "⚠️  Adequate – usable but expect slow release builds".to_owned()
    } else {
        "❌ Poor – not recommended for serious Rust development".to_owned()
    }
}

} // verus!
