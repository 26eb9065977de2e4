use icbm::metrics::HostInfo;
use icbm::report::{
    render_failed_step_line, render_step_line, render_summary, render_summary_foot, render_summary_head, score_bar,
    StepFigures,
};
use icbm::score::StepScore;
use icbm::text::{pad_left, pad_right};

#[test]
fn padding_both_ways() {
    assert_eq!(pad_left("7", 4), "   7");
    assert_eq!(pad_left("12345", 4), "12345");
    assert_eq!(pad_left("é", 3), format!("{:>3}", "é"));
    assert_eq!(pad_right("ab", 5), format!("{:5}", "ab"));
}

#[test]
fn summary_head_plain() {
    let info = HostInfo {
        hostname: "h".to_string(),
        os: "os".to_string(),
        kernel: "k".to_string(),
        cpu_brand: "cpu".to_string(),
        cpu_count: 2,
        total_memory_mib: 512,
    };
    let mut out = String::new();
    render_summary_head(&mut out, "nixos", &info, false);
    let mut expected = format!("\n  ┌─ {} Results ─────────────────────────────────\n", "nixos");
    expected.push_str(&format!("  │  {} {:24} {}  {}\n", "OS", "os", "Host", "h"));
    expected.push_str(&format!("  │  {} {:24} {}  {}\n", "Kernel", "k", "Memory", "512 MiB"));
    expected.push_str(&format!("  │  {}  {}\n", "CPU", "cpu (2 cores)"));
    expected.push_str("  │\n");
    assert_eq!(out, expected);
}

#[test]
fn step_lines_plain() {
    let mut out = String::new();
    let time_text = format!("{:4.1}", 12.345f64);
    let cpu_text = format!("{:3.0}", 87.6f64);
    render_step_line(&mut out, "cargo build (dev)", 734, &time_text, &cpu_text, 2048, false);
    let bar = score_bar(734, false);
    let expected = format!(
        "  │  {:30}  score={:4}  [{bar}]  time={:4.1}s  cpu={:3.0}%  mem={:4}M\n",
        "cargo build (dev)", 734u32, 12.345f64, 87.6f64, 2048u64,
    );
    assert_eq!(out, expected);

    let mut failed = String::new();
    render_failed_step_line(&mut failed, "Install Rust", 0, false);
    let bar = score_bar(0, false);
    let expected = format!("  │  {:30}  score={:4}  [{bar}]  {}                       \n", "Install Rust", 0u32, "FAILED");
    assert_eq!(failed, expected);
}

#[test]
fn summary_foot_plain() {
    let mut out = String::from("x");
    render_summary_foot(&mut out, 701, "✅ Good – comfortable for most Rust projects", false);
    let mut expected = String::from("x");
    expected.push_str("  ├─────────────────────────────────────────────────\n");
    expected.push_str(&format!("  │  {:30}  {:4}\n", "TOTAL SCORE", "701"));
    expected.push_str(&format!("  │  {}\n", "✅ Good – comfortable for most Rust projects"));
    expected.push_str("  └─────────────────────────────────────────────────\n\n");
    assert_eq!(out, expected);
}

#[test]
fn whole_summary_plain() {
    let info = HostInfo {
        hostname: "h".to_string(),
        os: "os".to_string(),
        kernel: "k".to_string(),
        cpu_brand: "cpu".to_string(),
        cpu_count: 4,
        total_memory_mib: 1024,
    };
    let steps = vec![
        StepScore { name: "Install Rust".to_string(), score: 812, time_score: 0, cpu_score: 0, mem_score: 0 },
        StepScore::failed("Clone workspace"),
        StepScore { name: "unpaired".to_string(), score: 1, time_score: 0, cpu_score: 0, mem_score: 0 },
    ];
    let figures = vec![
        StepFigures { succeeded: true, time_text: " 3.5".to_string(), cpu_text: " 90".to_string(), memory_mib: 300 },
        StepFigures { succeeded: false, time_text: String::new(), cpu_text: String::new(), memory_mib: 0 },
    ];
    let text = render_summary("ubuntu", &info, &steps, &figures, 812, "Good", false);
    let mut expected = String::new();
    render_summary_head(&mut expected, "ubuntu", &info, false);
    render_step_line(&mut expected, "Install Rust", 812, " 3.5", " 90", 300, false);
    render_failed_step_line(&mut expected, "Clone workspace", 0, false);
    render_summary_foot(&mut expected, 812, "Good", false);
    assert_eq!(text, expected);
    assert!(text.contains("  │  Install Rust                    score= 812  [████████░░]  time= 3.5s  cpu= 90%  mem= 300M\n"));
}
