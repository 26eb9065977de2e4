use icbm::metrics::HostInfo;
use icbm::report::{
    failed_label, flavour_label, host_label, leaderboard_order, leaderboard_title, rating_label, render_host_info,
    leaderboard_report, render_leaderboard, score_bar, score_value, split_report_chunks, total_score_label, total_score_value,
    LeaderboardEntry,
};

#[test]
fn chunks_pack_lines_greedily() {
    assert_eq!(split_report_chunks("a\nbb\nccc", 4), vec!["a\nbb".to_string(), "ccc".to_string()]);
    assert_eq!(split_report_chunks("a\nbb\nccc", 100), vec!["a\nbb\nccc".to_string()]);
    assert_eq!(split_report_chunks("a\nbb\nccc", 0), vec!["a".to_string(), "bb".to_string(), "ccc".to_string()]);
}

#[test]
fn chunks_of_empty_and_long_lines() {
    assert_eq!(split_report_chunks("", 10), Vec::<String>::new());
    assert_eq!(split_report_chunks("abcdefgh", 3), vec!["abcdefgh".to_string()]);
    assert_eq!(split_report_chunks("ab\nabcdefgh\ncd", 3), vec!["ab".to_string(), "abcdefgh".to_string(), "cd".to_string()]);
}

#[test]
fn chunks_count_bytes_and_drop_line_endings() {
    assert_eq!(split_report_chunks("éé\néé", 4), vec!["éé".to_string(), "éé".to_string()]);
    assert_eq!(split_report_chunks("éé\néé", 9), vec!["éé\néé".to_string()]);
    assert_eq!(split_report_chunks("x\r\ny\n", 10), vec!["x\ny".to_string()]);
    assert_eq!(split_report_chunks("a\n\nb", 100), vec!["a\n\nb".to_string()]);
}

#[test]
fn chunks_fit_the_limit() {
    let report: String = (0..200).map(|i| format!("line number {i} of the report\n")).collect();
    let chunks = split_report_chunks(&report, 1800);
    assert!(chunks.len() > 1);
    for chunk in &chunks {
        assert!(!chunk.is_empty());
        assert!(chunk.len() <= 1800);
    }
    assert_eq!(chunks.join("\n"), report.trim_end());
}

#[test]
fn score_bars() {
    assert_eq!(score_bar(750, false), "███████░░░");
    assert_eq!(score_bar(0, false), "░░░░░░░░░░");
    assert_eq!(score_bar(99, false), "░░░░░░░░░░");
    assert_eq!(score_bar(1000, false), "██████████");
    assert_eq!(score_bar(5000, false), "██████████");
    assert!(score_bar(750, true).contains("███████░░░"));
}

#[test]
fn plain_labels() {
    assert_eq!(flavour_label("ubuntu", false), "ubuntu");
    assert_eq!(host_label("OS", false), "OS");
    assert_eq!(total_score_label(false), "TOTAL SCORE");
    assert_eq!(total_score_value(812, false), "812");
    assert_eq!(rating_label("✅ Good", false), "✅ Good");
    assert_eq!(failed_label(false), "FAILED");
    assert_eq!(leaderboard_title(false), "  ═══════════════  LEADERBOARD  ═══════════════");
    assert_eq!(score_value(0, false), "0");
    assert_eq!(score_value(4294967295, false), "4294967295");
}

#[test]
fn colored_labels_keep_their_text() {
    assert!(flavour_label("nixos", true).contains("nixos"));
    assert!(failed_label(true).contains("FAILED"));
    assert!(score_value(42, true).contains("42"));
}

#[test]
fn host_block_plain() {
    let info = HostInfo {
        hostname: "box".to_string(),
        os: "Linux 22.04".to_string(),
        kernel: "6.1.0".to_string(),
        cpu_brand: "Ryzen 7".to_string(),
        cpu_count: 8,
        total_memory_mib: 16000,
    };
    let mut out = "head\n".to_string();
    render_host_info(&mut out, &info, false);
    let mut expected = "head\n".to_string();
    expected.push_str(&format!("  │  {} {:24} {}  {}\n", "OS", "Linux 22.04", "Host", "box"));
    expected.push_str(&format!("  │  {} {:24} {}  {}\n", "Kernel", "6.1.0", "Memory", "16000 MiB"));
    expected.push_str(&format!("  │  {}  {}\n", "CPU", "Ryzen 7 (8 cores)"));
    expected.push_str("  │\n");
    assert_eq!(out, expected);
}

fn entry(flavour: &str, total_score: u32, rating: &str) -> LeaderboardEntry {
    LeaderboardEntry { flavour: flavour.to_string(), total_score, rating: rating.to_string() }
}

#[test]
fn leaderboard_ranks_best_first_stably() {
    assert_eq!(leaderboard_order(&vec![500, 900, 500, 700]), vec![1, 3, 0, 2]);
    assert_eq!(leaderboard_order(&vec![]), Vec::<usize>::new());
    assert_eq!(leaderboard_order(&vec![1, 1, 1]), vec![0, 1, 2]);
}

#[test]
fn leaderboard_plain_text() {
    let entries = vec![entry("ubuntu", 640, "Good"), entry("nixos", 910, "Exceptional"), entry("arch", 300, "Poor")];
    let text = render_leaderboard(&entries, false);
    let mut expected = String::from("\n");
    expected.push_str("  ═══════════════  LEADERBOARD  ═══════════════\n");
    expected.push_str(&format!("  {}  {:8}  score={:4}  {}\n", "🥇", "nixos", "910", "Exceptional"));
    expected.push_str(&format!("  {}  {:8}  score={:4}  {}\n", "🥈", "ubuntu", "640", "Good"));
    expected.push_str(&format!("  {}  {:8}  score={:4}  {}\n", "🥉", "arch", "300", "Poor"));
    expected.push('\n');
    assert_eq!(text, expected);
}

fn painted(out: &str, text: &str, code: &str) -> bool {
    out == text || out == format!("\x1B[{code}m{text}\x1B[0m")
}

#[test]
fn colored_output_is_plain_or_painted_with_the_band_colour() {
    let bar = score_bar(750, false);
    assert!(painted(&score_bar(750, true), &bar, "32"));
    assert!(painted(&score_bar(450, true), &score_bar(450, false), "33"));
    assert!(painted(&score_bar(100, true), &score_bar(100, false), "31"));
    assert!(painted(&score_bar(5000, true), &score_bar(5000, false), "31"));
    assert!(painted(&flavour_label("nixos", true), "nixos", "1;33"));
    assert!(painted(&host_label("OS", true), "OS", "1;36"));
    assert!(painted(&total_score_label(true), "TOTAL SCORE", "1"));
    assert!(painted(&total_score_value(812, true), "812", "1;36"));
    assert!(painted(&rating_label("Good", true), "Good", "1"));
    assert!(painted(&failed_label(true), "FAILED", "1;31"));
    assert!(painted(&leaderboard_title(true), "  ═══════════════  LEADERBOARD  ═══════════════", "1;33"));
    assert!(painted(&score_value(42, true), "42", "36"));
}

#[test]
fn chunks_join_back_to_the_lines() {
    let report = "alpha\nbeta gamma\ndelta\r\nepsilon zeta eta\ntheta";
    for max in [0usize, 5, 12, 20, 1000] {
        let chunks = split_report_chunks(report, max);
        let lines: Vec<&str> = report.lines().collect();
        assert_eq!(chunks.join("\n"), lines.join("\n"));
        assert!(chunks.iter().all(|c| !c.is_empty()));
    }
}

#[test]
fn leaderboard_needs_two_runs() {
    assert_eq!(leaderboard_report(&vec![], false), None);
    assert_eq!(leaderboard_report(&vec![entry("ubuntu", 640, "Good")], false), None);
    let entries = vec![entry("ubuntu", 640, "Good"), entry("nixos", 910, "Exceptional")];
    assert_eq!(leaderboard_report(&entries, false), Some(render_leaderboard(&entries, false)));
}
