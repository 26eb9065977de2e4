//! Report text: splitting a rendered report into chunks for the webhook,
//! the score bar and the labels of the terminal report.
use vstd::prelude::*;
use crate::metrics::HostInfo;
use crate::score::StepScore;
use crate::paint::{bold, bold_cyan, bold_yellow, cyan, cyan_bold, green, red, red_bold, yellow, yellow_bold};
use crate::text::{
    decimal, pad_left, pad_right, padded, padded_left, u64_to_decimal, shown, paints, no_escape, bold_code, bold_cyan_code,
    bold_red_code, bold_yellow_code, cyan_code, green_code, red_code, yellow_code,
    byte_len, lemma_byte_len_bounds, lemma_byte_len_concat, lemma_byte_len_push, lemma_text_lines_single, single_line,
    split_lines, string_from_chars, text_lines, utf8_len,
};

verus! {

broadcast use vstd::string::group_string_axioms;

// ---------------------------------------------------------------------------
// Splitting a report into chunks
// ---------------------------------------------------------------------------

/// The byte length of `current` with `line` appended on a line of its own
/// (just `line` when `current` is empty).
pub open spec fn joined_len(current: Seq<char>, line: Seq<char>) -> nat {
    if current.len() == 0 {
        byte_len(line)
    } else {
        byte_len(current) + 1 + byte_len(line)
    }
}

/// One step of the chunking: when `line` does not fit behind the current chunk
/// (more than `max_len` bytes together) and the chunk is not empty, the chunk
/// is closed; then `line` is appended to the current chunk, after a line feed
/// unless the chunk is empty.
pub open spec fn chunk_step(
    state: (Seq<Seq<char>>, Seq<char>),
    line: Seq<char>,
    max_len: nat,
) -> (Seq<Seq<char>>, Seq<char>) {
    let chunks = state.0;
    let current = state.1;
    let close = joined_len(current, line) > max_len && current.len() > 0;
    let chunks = if close {
        chunks.push(current)
    } else {
        chunks
    };
    let current = if close {
        Seq::<char>::empty()
    } else {
        current
    };
    let current = if current.len() > 0 {
        current.push('\n')
    } else {
        current
    };
    (chunks, current + line)
}

/// The closed chunks and the open chunk after taking `lines` in order.
pub open spec fn chunk_lines(lines: Seq<Seq<char>>, max_len: nat) -> (Seq<Seq<char>>, Seq<char>)
    decreases lines.len(),
{
    if lines.len() == 0 {
        (Seq::<Seq<char>>::empty(), Seq::<char>::empty())
    } else {
        chunk_step(chunk_lines(lines.drop_last(), max_len), lines.last(), max_len)
    }
}

/// The chunks of a report: its lines, packed greedily into chunks of at most
/// `max_len` bytes joined by line feeds; the open chunk is kept when not empty.
pub open spec fn report_chunks(report: Seq<char>, max_len: nat) -> Seq<Seq<char>> {
    let state = chunk_lines(text_lines(report), max_len);
    if state.1.len() > 0 {
        state.0.push(state.1)
    } else {
        state.0
    }
}

/// A chunk is well-shaped: not empty, and either within `max_len` bytes or a
/// single line.
pub open spec fn chunk_ok(chunk: Seq<char>, max_len: nat) -> bool {
    chunk.len() > 0 && (byte_len(chunk) <= max_len || single_line(chunk))
}

proof fn lemma_chunk_lines_ok(lines: Seq<Seq<char>>, max_len: nat)
    requires
        forall|i: int| 0 <= i < lines.len() ==> single_line(#[trigger] lines[i]),
    ensures
        forall|i: int| 0 <= i < chunk_lines(lines, max_len).0.len() ==> chunk_ok(#[trigger] chunk_lines(lines, max_len).0[i], max_len),
        byte_len(chunk_lines(lines, max_len).1) <= max_len || single_line(chunk_lines(lines, max_len).1),
    decreases lines.len(),
{
    if lines.len() > 0 {
        let init = lines.drop_last();
        assert forall|i: int| 0 <= i < init.len() implies single_line(#[trigger] init[i]) by {
            assert(init[i] == lines[i]);
        }
        lemma_chunk_lines_ok(init, max_len);
        let prev = chunk_lines(init, max_len);
        let line = lines.last();
        assert(single_line(line));
        let close = joined_len(prev.1, line) > max_len && prev.1.len() > 0;
        let after = chunk_lines(lines, max_len);
        if close {
            assert(after.1 =~= line);
            assert forall|i: int| 0 <= i < after.0.len() implies chunk_ok(#[trigger] after.0[i], max_len) by {
                if i < prev.0.len() {
                    assert(after.0[i] == prev.0[i]);
                }
            }
        } else if prev.1.len() == 0 {
            assert(after.1 =~= line);
        } else {
            lemma_byte_len_concat(prev.1.push('\n'), line);
            lemma_byte_len_concat(prev.1, seq!['\n']);
            assert(prev.1.push('\n') =~= prev.1 + seq!['\n']);
            lemma_byte_len_bounds(seq!['\n']);
            assert(byte_len(seq!['\n']) == 1) by {
                let nl = seq!['\n'];
                assert(nl.drop_first() =~= Seq::<char>::empty());
                assert(nl[0] == '\n');
                assert(vstd::utf8::encode_utf8(nl) == vstd::utf8::encode_scalar('\n' as u32) + vstd::utf8::encode_utf8(nl.drop_first()));
            }
        }
    }
}

/// Every chunk of a report is not empty and fits in `max_len` bytes, except a
/// chunk that is one line too long to fit anywhere.
pub proof fn lemma_report_chunks_fit(report: Seq<char>, max_len: nat)
    ensures
        forall|i: int| 0 <= i < report_chunks(report, max_len).len() ==> chunk_ok(#[trigger] report_chunks(report, max_len)[i], max_len),
{
    lemma_text_lines_single(report);
    lemma_chunk_lines_ok(text_lines(report), max_len);
    let state = chunk_lines(text_lines(report), max_len);
    assert forall|i: int| 0 <= i < report_chunks(report, max_len).len() implies chunk_ok(#[trigger] report_chunks(report, max_len)[i], max_len) by {
        if i < state.0.len() {
            assert(report_chunks(report, max_len)[i] == state.0[i]);
        }
    }
}

/// Lines joined by line feeds.
pub open spec fn joined_lines(lines: Seq<Seq<char>>) -> Seq<char>
    decreases lines.len(),
{
    if lines.len() == 0 {
        seq![]
    } else if lines.len() == 1 {
        lines[0]
    } else {
        joined_lines(lines.drop_last()) + seq!['\n'] + lines.last()
    }
}

proof fn lemma_joined_lines_extend_last(xs: Seq<Seq<char>>, a: Seq<char>, b: Seq<char>)
    ensures
        joined_lines(xs.push(a + seq!['\n'] + b)) == joined_lines(xs.push(a)) + seq!['\n'] + b,
{
    assert(xs.push(a + seq!['\n'] + b).drop_last() =~= xs);
    assert(xs.push(a).drop_last() =~= xs);
    if xs.len() == 0 {
        assert(joined_lines(xs.push(a)) == a);
    } else {
        assert(joined_lines(xs.push(a + seq!['\n'] + b)) =~= joined_lines(xs.push(a)) + seq!['\n'] + b);
    }
}

proof fn lemma_chunk_lines_join(lines: Seq<Seq<char>>, max_len: nat)
    requires
        forall|i: int| 0 <= i < lines.len() ==> #[trigger] lines[i].len() > 0,
    ensures
        lines.len() == 0 ==> chunk_lines(lines, max_len).0.len() == 0 && chunk_lines(lines, max_len).1.len() == 0,
        lines.len() > 0 ==> chunk_lines(lines, max_len).1.len() > 0,
        lines.len() > 0 ==> joined_lines(chunk_lines(lines, max_len).0.push(chunk_lines(lines, max_len).1))
            == joined_lines(lines),
    decreases lines.len(),
{
    if lines.len() > 0 {
        let init = lines.drop_last();
        assert forall|i: int| 0 <= i < init.len() implies #[trigger] init[i].len() > 0 by {
            assert(init[i] == lines[i]);
        }
        lemma_chunk_lines_join(init, max_len);
        let prev = chunk_lines(init, max_len);
        let line = lines.last();
        assert(line.len() > 0);
        let st = chunk_lines(lines, max_len);
        let close = joined_len(prev.1, line) > max_len && prev.1.len() > 0;
        if init.len() == 0 {
            assert(st.1 =~= line);
            assert(st.0.push(st.1) =~= seq![line]);
            assert(lines =~= seq![line]);
        } else if close {
            assert(st.1 =~= line);
            assert(st.0 == prev.0.push(prev.1));
            assert(st.0.push(st.1).drop_last() =~= st.0);
            assert(joined_lines(st.0.push(st.1)) == joined_lines(prev.0.push(prev.1)) + seq!['\n'] + line);
        } else {
            assert(st.0 == prev.0);
            assert(st.1 =~= prev.1 + seq!['\n'] + line);
            lemma_joined_lines_extend_last(prev.0, prev.1, line);
        }
    }
}

/// The chunking loses nothing: when no line of the report is empty, its chunks
/// joined by line feeds are its lines joined by line feeds.
pub proof fn lemma_report_chunks_join(report: Seq<char>, max_len: nat)
    requires
        forall|i: int| 0 <= i < text_lines(report).len() ==> #[trigger] text_lines(report)[i].len() > 0,
    ensures
        joined_lines(report_chunks(report, max_len)) == joined_lines(text_lines(report)),
{
    lemma_chunk_lines_join(text_lines(report), max_len);
}

/// Splits a report into chunks of at most `max_len` bytes, breaking only
/// between lines (a single longer line makes a chunk of its own).
pub fn split_report_chunks(report: &str, max_len: usize) -> (chunks: Vec<String>)
    ensures
        chunks@.len() == report_chunks(report@, max_len as nat).len(),
        forall|i: int| 0 <= i < chunks@.len() ==> #[trigger] chunks@[i]@ == report_chunks(report@, max_len as nat)[i],
{
    let lines = split_lines(report);
    let ghost all_lines = text_lines(report@);
    let mut chunks: Vec<String> = Vec::new();
    let mut current: Vec<char> = Vec::new();
    let mut current_bytes: u128 = 0;
    let mut i: usize = 0;
    proof {
        assert(all_lines.take(0) =~= Seq::<Seq<char>>::empty());
    }
    while i < lines.len()
        invariant
            i <= lines@.len(),
            lines@.len() == all_lines.len(),
            all_lines == text_lines(report@),
            forall|j: int| 0 <= j < lines@.len() ==> #[trigger] lines@[j]@ == all_lines[j],
            chunks@.len() == chunk_lines(all_lines.take(i as int), max_len as nat).0.len(),
            forall|j: int| 0 <= j < chunks@.len() ==> #[trigger] chunks@[j]@ == chunk_lines(all_lines.take(i as int), max_len as nat).0[j],
            current@ == chunk_lines(all_lines.take(i as int), max_len as nat).1,
            current_bytes == byte_len(current@),
        decreases lines.len() - i,
    {
        let line = &lines[i];
        let line_bytes = utf8_len(line);
        let line_len = line.len();
        let current_len = current.len();
        proof {
            lemma_byte_len_bounds(current@);
            lemma_byte_len_bounds(line@);
            assert(all_lines.take(i + 1).drop_last() =~= all_lines.take(i as int));
            assert(all_lines.take(i + 1).last() == line@);
        }
        let ghost prev_chunks = chunks@;
        let next_len: u128 = if current.len() == 0 {
            line_bytes
        } else {
            current_bytes + 1 + line_bytes
        };
        if next_len > max_len as u128 && current.len() > 0 {
            let closed = string_from_chars(&current);
            chunks.push(closed);
            current = Vec::new();
            current_bytes = 0;
            proof {
                lemma_byte_len_bounds(current@);
            }
        }
        if current.len() > 0 {
            proof {
                lemma_byte_len_push(current@, '\n');
            }
            current.push('\n');
            current_bytes = current_bytes + 1;
        }
        let mut k: usize = 0;
        let ghost base = current@;
        while k < line.len()
            invariant
                k <= line@.len(),
                current@ == base + line@.take(k as int),
            decreases line.len() - k,
        {
            current.push(line[k]);
            k = k + 1;
            assert(current@ =~= base + line@.take(k as int));
        }
        proof {
            assert(line@.take(k as int) =~= line@);
            let nl = seq!['\n'];
            assert(nl.drop_first() =~= Seq::<char>::empty());
            assert(nl[0] == '\n');
            assert(vstd::utf8::encode_utf8(nl) == vstd::utf8::encode_scalar('\n' as u32) + vstd::utf8::encode_utf8(nl.drop_first()));
            lemma_byte_len_concat(base, line@);
            assert forall|j: int| 0 <= j < chunks@.len() implies #[trigger] chunks@[j]@ == chunk_lines(all_lines.take(i + 1), max_len as nat).0[j] by {
                if j < prev_chunks.len() {
                    assert(chunks@[j] == prev_chunks[j]);
                }
            }
        }
        current_bytes = current_bytes + line_bytes;
        i = i + 1;
    }
    proof {
        assert(all_lines.take(i as int) =~= all_lines);
    }
    if current.len() > 0 {
        let closed = string_from_chars(&current);
        chunks.push(closed);
    }
    chunks
}

// ---------------------------------------------------------------------------
// Labels
// ---------------------------------------------------------------------------

/// A flavour name for the report: yellow and bold when `color` is set.
pub fn flavour_label(flavour: &str, color: bool) -> (label: String)
    ensures
        shown(label@, flavour@, bold_yellow_code(), color),
{
    if color {
        yellow_bold(flavour)
    } else {
        flavour.to_owned()
    }
}

/// A host field name: cyan and bold when `color` is set.
pub fn host_label(label: &str, color: bool) -> (text: String)
    ensures
        shown(text@, label@, bold_cyan_code(), color),
{
    if color {
        cyan_bold(label)
    } else {
        label.to_owned()
    }
}

/// The total score caption: bold when `color` is set.
pub fn total_score_label(color: bool) -> (text: String)
    ensures
        shown(text@, "TOTAL SCORE"@, bold_code(), color),
{
    if color {
        bold("TOTAL SCORE")
    } else {
        "TOTAL SCORE".to_owned()
    }
}

/// The total score in decimal: bold and cyan when `color` is set.
pub fn total_score_value(score: u32, color: bool) -> (text: String)
    ensures
        shown(text@, decimal(score as nat), bold_cyan_code(), color),
{
    let digits = u64_to_decimal(score as u64);
    if color {
        bold_cyan(digits.as_str())
    } else {
        digits
    }
}

/// The rating line: bold when `color` is set.
pub fn rating_label(rating: &str, color: bool) -> (text: String)
    ensures
        shown(text@, rating@, bold_code(), color),
{
    if color {
        bold(rating)
    } else {
        rating.to_owned()
    }
}

/// The mark of a failed step: red and bold when `color` is set.
pub fn failed_label(color: bool) -> (text: String)
    ensures
        shown(text@, "FAILED"@, bold_red_code(), color),
{
    if color {
        red_bold("FAILED")
    } else {
        "FAILED".to_owned()
    }
}

/// The leaderboard heading.
pub open spec fn leaderboard_title_text() -> Seq<char> {
    "  ═══════════════  LEADERBOARD  ═══════════════"@
}

/// The leaderboard heading: bold and yellow when `color` is set.
pub fn leaderboard_title(color: bool) -> (text: String)
    ensures
        shown(text@, leaderboard_title_text(), bold_yellow_code(), color),
{
    let title = "  ═══════════════  LEADERBOARD  ═══════════════";
    if color {
        bold_yellow(title)
    } else {
        title.to_owned()
    }
}

/// A score in decimal: cyan when `color` is set.
pub fn score_value(score: u32, color: bool) -> (text: String)
    ensures
        shown(text@, decimal(score as nat), cyan_code(), color),
{
    let digits = u64_to_decimal(score as u64);
    if color {
        cyan(digits.as_str())
    } else {
        digits
    }
}

/// Number of filled cells of a score bar: one per hundred points, at most ten.
pub open spec fn filled_cells(score: u32) -> nat {
    if score / 100 <= 10 {
        (score / 100) as nat
    } else {
        10
    }
}

/// A bar of ten cells, the first `filled_cells(score)` filled.
pub open spec fn bar_text(score: u32) -> Seq<char> {
    Seq::new(filled_cells(score), |i: int| '█') + Seq::new((10 - filled_cells(score)) as nat, |i: int| '░')
}

/// The colour of a score's bar: green from 700 to 1000, yellow from 400 to
/// 699, red otherwise.
pub open spec fn band_code(score: u32) -> Seq<char> {
    if 700 <= score && score <= 1000 {
        green_code()
    } else if 400 <= score && score <= 699 {
        yellow_code()
    } else {
        red_code()
    }
}

/// The score bar has ten cells: one filled cell per full hundred points (at
/// most ten), the rest empty; it holds no escape character. With colour it is
/// green (code 32) from 700 to 1000, yellow (33) from 400 to 699 and red (31)
/// otherwise, so a score of 700 or more is never red and one below 400 never
/// green.
pub proof fn lemma_score_bar_shape(score: u32)
    ensures
        bar_text(score).len() == 10,
        forall|i: int|
            0 <= i < 10 ==> #[trigger] bar_text(score)[i] == (if i < score / 100 { '█' } else { '░' }),
        no_escape(bar_text(score)),
        700 <= score <= 1000 ==> band_code(score) == seq!['3', '2'],
        400 <= score <= 699 ==> band_code(score) == seq!['3', '3'],
        score < 400 || score > 1000 ==> band_code(score) == seq!['3', '1'],
        700 <= score <= 1000 ==> band_code(score) != seq!['3', '1'],
        score < 400 ==> band_code(score) != seq!['3', '2'],
{
    assert forall|i: int| 0 <= i < 10 implies #[trigger] bar_text(score)[i] == (if i < score / 100 { '█' } else { '░' }) by {}
    assert(seq!['3', '2'] != seq!['3', '1']) by {
        assert(seq!['3', '2'][1] != seq!['3', '1'][1]);
    }
}

/// A ten-cell bar showing a score out of 1000; green from 700, yellow from 400,
/// red below, when `color` is set.
pub fn score_bar(score: u32, color: bool) -> (bar: String)
    ensures
        shown(bar@, bar_text(score), band_code(score), color),
        color && 700 <= score <= 1000 ==> paints(bar@, bar_text(score), seq!['3', '2']),
        color && 400 <= score <= 699 ==> paints(bar@, bar_text(score), seq!['3', '3']),
        color && (score < 400 || score > 1000) ==> paints(bar@, bar_text(score), seq!['3', '1']),
{
    let filled: usize = if score / 100 <= 10 { (score / 100) as usize } else { 10 };
    let mut cells: Vec<char> = Vec::new();
    let mut i: usize = 0;
    while i < 10
        invariant
            filled == filled_cells(score),
            i <= 10,
            cells@ =~= Seq::new(if i <= filled { i as nat } else { filled as nat }, |k: int| '█')
                + Seq::new(if i <= filled { 0nat } else { (i - filled) as nat }, |k: int| '░'),
        decreases 10 - i,
    {
        if i < filled {
            cells.push('█');
        } else {
            cells.push('░');
        }
        i = i + 1;
    }
    let bar = string_from_chars(&cells);
    if !color {
        return bar;
    }
    if 700 <= score && score <= 1000 {
        green(bar.as_str())
    } else if 400 <= score && score <= 699 {
        yellow(bar.as_str())
    } else {
        red(bar.as_str())
    }
}

// ---------------------------------------------------------------------------
// Host information block
// ---------------------------------------------------------------------------

/// A host line with two fields: `  │  <a> <first, padded to 24> <b>  <second>`.
pub open spec fn host_pair_line(a: Seq<char>, first: Seq<char>, b: Seq<char>, second: Seq<char>) -> Seq<char> {
    "  │  "@ + a + " "@ + padded(first, 24) + " "@ + b + "  "@ + second + "\n"@
}

/// The CPU line: `  │  <label>  <brand> (<count> cores)`.
pub open spec fn cpu_line(label: Seq<char>, brand: Seq<char>, count: usize) -> Seq<char> {
    "  │  "@ + label + "  "@ + brand + " ("@ + decimal(count as nat) + " cores)"@ + "\n"@
}

/// The four lines of the host block of a summary, given the five field names
/// as they are shown.
pub open spec fn host_block(
    info: HostInfo,
    os: Seq<char>,
    host: Seq<char>,
    kernel: Seq<char>,
    memory: Seq<char>,
    cpu: Seq<char>,
) -> Seq<char> {
    host_pair_line(os, info.os@, host, info.hostname@) + host_pair_line(
        kernel,
        info.kernel@,
        memory,
        decimal(info.total_memory_mib as nat) + " MiB"@,
    ) + cpu_line(cpu, info.cpu_brand@, info.cpu_count) + "  │\n"@
}

fn render_pair_line(a: &str, first: &str, b: &str, second: &str) -> (line: String)
    ensures
        line@ == host_pair_line(a@, first@, b@, second@),
{
    let field = pad_right(first, 24);
    let mut line = "  │  ".to_owned();
    line.append(a);
    line.append(" ");
    line.append(field.as_str());
    line.append(" ");
    line.append(b);
    line.append("  ");
    line.append(second);
    line.append("\n");
    line
}

fn render_cpu_line(label: &str, brand: &str, count: usize) -> (line: String)
    ensures
        line@ == cpu_line(label@, brand@, count),
{
    let digits = u64_to_decimal(count as u64);
    let mut line = "  │  ".to_owned();
    line.append(label);
    line.append("  ");
    line.append(brand);
    line.append(" (");
    line.append(digits.as_str());
    line.append(" cores)");
    line.append("\n");
    line
}

/// The five field names of the host block as they are shown: each the plain
/// name without colour, painted bold cyan with colour.
pub open spec fn host_labels_shown(
    os: Seq<char>,
    host: Seq<char>,
    kernel: Seq<char>,
    memory: Seq<char>,
    cpu: Seq<char>,
    color: bool,
) -> bool {
    &&& shown(os, "OS"@, bold_cyan_code(), color)
    &&& shown(host, "Host"@, bold_cyan_code(), color)
    &&& shown(kernel, "Kernel"@, bold_cyan_code(), color)
    &&& shown(memory, "Memory"@, bold_cyan_code(), color)
    &&& shown(cpu, "CPU"@, bold_cyan_code(), color)
}

/// Appends the host block of a summary to `out`.
pub fn render_host_info(out: &mut String, info: &HostInfo, color: bool)
    ensures
        !color ==> final(out)@ == old(out)@ + host_block(*info, "OS"@, "Host"@, "Kernel"@, "Memory"@, "CPU"@),
        exists|os: Seq<char>, host: Seq<char>, kernel: Seq<char>, memory: Seq<char>, cpu: Seq<char>|
            #![trigger host_block(*info, os, host, kernel, memory, cpu)]
            host_labels_shown(os, host, kernel, memory, cpu, color) && final(out)@ == old(out)@ + host_block(
                *info,
                os,
                host,
                kernel,
                memory,
                cpu,
            ),
{
    let os = host_label("OS", color);
    let host = host_label("Host", color);
    let kernel = host_label("Kernel", color);
    let memory = host_label("Memory", color);
    let cpu = host_label("CPU", color);
    let mut memory_text = u64_to_decimal(info.total_memory_mib);
    memory_text.append(" MiB");
    let first = render_pair_line(os.as_str(), info.os.as_str(), host.as_str(), info.hostname.as_str());
    let second = render_pair_line(kernel.as_str(), info.kernel.as_str(), memory.as_str(), memory_text.as_str());
    let third = render_cpu_line(cpu.as_str(), info.cpu_brand.as_str(), info.cpu_count);
    let ghost start = out@;
    out.append(first.as_str());
    out.append(second.as_str());
    out.append(third.as_str());
    out.append("  │\n");
    proof {
        assert(out@ =~= start + host_block(*info, os@, host@, kernel@, memory@, cpu@));
        assert(host_labels_shown(os@, host@, kernel@, memory@, cpu@, color));
    }
}

// ---------------------------------------------------------------------------
// Summary of one flavour
// ---------------------------------------------------------------------------

/// The first line of a flavour's summary, given the flavour name as shown.
pub open spec fn summary_head_line(flavour: Seq<char>) -> Seq<char> {
    "\n  ┌─ "@ + flavour + " Results ─────────────────────────────────"@ + "\n"@
}

/// What every step line starts with: the step's name padded to 30 characters,
/// its score right-aligned in 4, and its score bar as shown.
pub open spec fn step_line_start_with(name: Seq<char>, score: u32, bar: Seq<char>) -> Seq<char> {
    "  │  "@ + padded(name, 30) + "  score="@ + padded_left(decimal(score as nat), 4) + "  ["@ + bar + "]  "@
}

/// [`step_line_start_with`] with the plain bar.
pub open spec fn step_line_start(name: Seq<char>, score: u32) -> Seq<char> {
    step_line_start_with(name, score, bar_text(score))
}

/// The line of a step that succeeded, given its bar as shown, its time and CPU
/// figures as they are to be shown, and its peak memory right-aligned in 4.
pub open spec fn step_line_with(
    name: Seq<char>,
    score: u32,
    bar: Seq<char>,
    time_text: Seq<char>,
    cpu_text: Seq<char>,
    memory_mib: u64,
) -> Seq<char> {
    step_line_start_with(name, score, bar) + "time="@ + time_text + "s  cpu="@ + cpu_text + "%  mem="@
        + padded_left(decimal(memory_mib as nat), 4) + "M\n"@
}

/// [`step_line_with`] with the plain bar.
pub open spec fn step_line(name: Seq<char>, score: u32, time_text: Seq<char>, cpu_text: Seq<char>, memory_mib: u64) -> Seq<char> {
    step_line_with(name, score, bar_text(score), time_text, cpu_text, memory_mib)
}

/// The line of a step that failed, given its bar and the failure mark as shown.
pub open spec fn failed_step_line_with(name: Seq<char>, score: u32, bar: Seq<char>, failed: Seq<char>) -> Seq<char> {
    step_line_start_with(name, score, bar) + failed + "                       \n"@
}

/// [`failed_step_line_with`] without colour.
pub open spec fn failed_step_line(name: Seq<char>, score: u32) -> Seq<char> {
    failed_step_line_with(name, score, bar_text(score), "FAILED"@)
}

/// The closing lines of a summary, given the total score's caption, the total
/// and the rating as shown.
pub open spec fn summary_foot_with(label: Seq<char>, value: Seq<char>, rating: Seq<char>) -> Seq<char> {
    "  ├─────────────────────────────────────────────────\n"@ + "  │  "@ + padded(label, 30) + "  "@ + padded(value, 4) + "\n"@ + "  │  "@ + rating + "\n"@
        + "  └─────────────────────────────────────────────────\n"@ + "\n"@
}

/// [`summary_foot_with`] without colour.
pub open spec fn summary_foot(total: u32, rating: Seq<char>) -> Seq<char> {
    summary_foot_with("TOTAL SCORE"@, decimal(total as nat), rating)
}

/// Appends the opening of a flavour's summary to `out`: its heading and the
/// host block.
pub fn render_summary_head(out: &mut String, flavour: &str, info: &HostInfo, color: bool)
    ensures
        !color ==> final(out)@ == old(out)@ + summary_head_line(flavour@) + host_block(
            *info,
            "OS"@,
            "Host"@,
            "Kernel"@,
            "Memory"@,
            "CPU"@,
        ),
        exists|label: Seq<char>, os: Seq<char>, host: Seq<char>, kernel: Seq<char>, memory: Seq<char>, cpu: Seq<char>|
            #![trigger summary_head_line(label), host_block(*info, os, host, kernel, memory, cpu)]
            shown(label, flavour@, bold_yellow_code(), color) && host_labels_shown(os, host, kernel, memory, cpu, color)
                && final(out)@ == old(out)@ + summary_head_line(label) + host_block(*info, os, host, kernel, memory, cpu),
{
    let label = flavour_label(flavour, color);
    let ghost start = out@;
    out.append("\n  ┌─ ");
    out.append(label.as_str());
    out.append(" Results ─────────────────────────────────");
    out.append("\n");
    let ghost middle = out@;
    render_host_info(out, info, color);
    proof {
        assert(middle == start + summary_head_line(label@));
        let (os, host, kernel, memory, cpu) = choose|os: Seq<char>, host: Seq<char>, kernel: Seq<char>, memory: Seq<char>, cpu: Seq<char>|
            #![trigger host_block(*info, os, host, kernel, memory, cpu)]
            host_labels_shown(os, host, kernel, memory, cpu, color) && out@ == middle + host_block(*info, os, host, kernel, memory, cpu);
        assert(out@ == start + summary_head_line(label@) + host_block(*info, os, host, kernel, memory, cpu));
        assert(shown(label@, flavour@, bold_yellow_code(), color));
    }
}

fn render_step_line_start(out: &mut String, name: &str, score: u32, bar: &str)
    ensures
        final(out)@ == old(out)@ + step_line_start_with(name@, score, bar@),
{
    let field = pad_right(name, 30);
    let digits = u64_to_decimal(score as u64);
    let shown = pad_left(digits.as_str(), 4);
    let ghost start = out@;
    out.append("  │  ");
    out.append(field.as_str());
    out.append("  score=");
    out.append(shown.as_str());
    out.append("  [");
    out.append(bar);
    out.append("]  ");
    proof {
        assert(out@ =~= start + step_line_start_with(name@, score, bar@));
    }
}

/// Appends the line of a step that succeeded to `out`; `time_text` and
/// `cpu_text` are its elapsed seconds and average CPU percentage as they are
/// to be shown.
pub fn render_step_line(
    out: &mut String,
    name: &str,
    score: u32,
    time_text: &str,
    cpu_text: &str,
    memory_mib: u64,
    color: bool,
)
    ensures
        !color ==> final(out)@ == old(out)@ + step_line(name@, score, time_text@, cpu_text@, memory_mib),
        exists|bar: Seq<char>|
            #![trigger step_line_with(name@, score, bar, time_text@, cpu_text@, memory_mib)]
            shown(bar, bar_text(score), band_code(score), color) && final(out)@ == old(out)@ + step_line_with(
                name@,
                score,
                bar,
                time_text@,
                cpu_text@,
                memory_mib,
            ),
{
    let digits = u64_to_decimal(memory_mib);
    let memory = pad_left(digits.as_str(), 4);
    let bar = score_bar(score, color);
    let ghost start = out@;
    render_step_line_start(out, name, score, bar.as_str());
    out.append("time=");
    out.append(time_text);
    out.append("s  cpu=");
    out.append(cpu_text);
    out.append("%  mem=");
    out.append(memory.as_str());
    out.append("M\n");
    proof {
        assert(out@ =~= start + step_line_with(name@, score, bar@, time_text@, cpu_text@, memory_mib));
    }
}

/// Appends the line of a step that failed to `out`.
pub fn render_failed_step_line(out: &mut String, name: &str, score: u32, color: bool)
    ensures
        !color ==> final(out)@ == old(out)@ + failed_step_line(name@, score),
        exists|bar: Seq<char>, failed: Seq<char>|
            #![trigger failed_step_line_with(name@, score, bar, failed)]
            shown(bar, bar_text(score), band_code(score), color) && shown(failed, "FAILED"@, bold_red_code(), color)
                && final(out)@ == old(out)@ + failed_step_line_with(name@, score, bar, failed),
{
    let failed = failed_label(color);
    let bar = score_bar(score, color);
    let ghost start = out@;
    render_step_line_start(out, name, score, bar.as_str());
    out.append(failed.as_str());
    out.append("                       \n");
    proof {
        assert(out@ =~= start + failed_step_line_with(name@, score, bar@, failed@));
    }
}

/// Appends the closing lines of a summary to `out`: the total score and the
/// rating.
pub fn render_summary_foot(out: &mut String, total: u32, rating: &str, color: bool)
    ensures
        !color ==> final(out)@ == old(out)@ + summary_foot(total, rating@),
        exists|label: Seq<char>, value: Seq<char>, rating_text: Seq<char>|
            #![trigger summary_foot_with(label, value, rating_text)]
            shown(label, "TOTAL SCORE"@, bold_code(), color) && shown(value, decimal(total as nat), bold_cyan_code(), color)
                && shown(rating_text, rating@, bold_code(), color) && final(out)@ == old(out)@ + summary_foot_with(
                label,
                value,
                rating_text,
            ),
{
    let label = total_score_label(color);
    let label_field = pad_right(label.as_str(), 30);
    let value = total_score_value(total, color);
    let value_field = pad_right(value.as_str(), 4);
    let rating_text = rating_label(rating, color);
    let ghost start = out@;
    out.append("  ├─────────────────────────────────────────────────\n");
    out.append("  │  ");
    out.append(label_field.as_str());
    out.append("  ");
    out.append(value_field.as_str());
    out.append("\n");
    out.append("  │  ");
    out.append(rating_text.as_str());
    out.append("\n");
    out.append("  └─────────────────────────────────────────────────\n");
    out.append("\n");
    proof {
        assert(out@ =~= start + summary_foot_with(label@, value@, rating_text@));
    }
}

/// What a summary shows of a step besides its score: whether it succeeded and,
/// if so, its elapsed seconds and average CPU percentage as they are to be
/// shown, and its peak memory.
pub struct StepFigures {
    pub succeeded: bool,
    pub time_text: String,
    pub cpu_text: String,
    pub memory_mib: u64,
}

/// The line of a step in a summary, given its bar and failure mark as shown.
pub open spec fn summary_step_line(step: StepScore, figures: StepFigures, bar: Seq<char>, failed: Seq<char>) -> Seq<char> {
    if figures.succeeded {
        step_line_with(step.name@, step.score, bar, figures.time_text@, figures.cpu_text@, figures.memory_mib)
    } else {
        failed_step_line_with(step.name@, step.score, bar, failed)
    }
}

/// The first `n` step lines of a summary.
pub open spec fn summary_step_lines(
    steps: Seq<StepScore>,
    figures: Seq<StepFigures>,
    bars: Seq<Seq<char>>,
    faileds: Seq<Seq<char>>,
    n: int,
) -> Seq<char>
    decreases n,
{
    if n <= 0 {
        seq![]
    } else {
        summary_step_lines(steps, figures, bars, faileds, n - 1) + summary_step_line(
            steps[n - 1],
            figures[n - 1],
            bars[n - 1],
            faileds[n - 1],
        )
    }
}

/// The number of step lines of a summary: one per step that has both a score
/// and figures.
pub open spec fn summary_step_count(steps: Seq<StepScore>, figures: Seq<StepFigures>) -> int {
    if steps.len() <= figures.len() {
        steps.len() as int
    } else {
        figures.len() as int
    }
}

/// `part` is the opening of a summary as shown: heading and host block.
pub open spec fn summary_head_shown(part: Seq<char>, flavour: Seq<char>, info: HostInfo, color: bool) -> bool {
    exists|label: Seq<char>, os: Seq<char>, host: Seq<char>, kernel: Seq<char>, memory: Seq<char>, cpu: Seq<char>|
        #![trigger summary_head_line(label), host_block(info, os, host, kernel, memory, cpu)]
        shown(label, flavour, bold_yellow_code(), color) && host_labels_shown(os, host, kernel, memory, cpu, color)
            && part == summary_head_line(label) + host_block(info, os, host, kernel, memory, cpu)
}

/// `part` is the step lines of a summary as shown.
pub open spec fn summary_steps_shown(part: Seq<char>, steps: Seq<StepScore>, figures: Seq<StepFigures>, color: bool) -> bool {
    exists|bars: Seq<Seq<char>>, faileds: Seq<Seq<char>>|
        #![trigger summary_step_lines(steps, figures, bars, faileds, summary_step_count(steps, figures))]
        bars.len() == summary_step_count(steps, figures) && faileds.len() == summary_step_count(steps, figures)
            && (forall|k: int|
            0 <= k < bars.len() ==> shown(#[trigger] bars[k], bar_text(steps[k].score), band_code(steps[k].score), color))
            && (forall|k: int| 0 <= k < faileds.len() ==> shown(#[trigger] faileds[k], "FAILED"@, bold_red_code(), color))
            && part == summary_step_lines(steps, figures, bars, faileds, summary_step_count(steps, figures))
}

/// `part` is the closing lines of a summary as shown.
pub open spec fn summary_foot_shown(part: Seq<char>, total: u32, rating: Seq<char>, color: bool) -> bool {
    exists|label: Seq<char>, value: Seq<char>, rating_text: Seq<char>|
        #![trigger summary_foot_with(label, value, rating_text)]
        shown(label, "TOTAL SCORE"@, bold_code(), color) && shown(value, decimal(total as nat), bold_cyan_code(), color)
            && shown(rating_text, rating, bold_code(), color) && part == summary_foot_with(label, value, rating_text)
}

proof fn lemma_step_lines_prefix(
    steps: Seq<StepScore>,
    figures: Seq<StepFigures>,
    bars: Seq<Seq<char>>,
    faileds: Seq<Seq<char>>,
    bars2: Seq<Seq<char>>,
    faileds2: Seq<Seq<char>>,
    n: int,
)
    requires
        0 <= n <= bars.len(),
        n <= faileds.len(),
        bars.len() <= bars2.len(),
        faileds.len() <= faileds2.len(),
        forall|j: int| 0 <= j < bars.len() ==> bars2[j] == bars[j],
        forall|j: int| 0 <= j < faileds.len() ==> faileds2[j] == faileds[j],
    ensures
        summary_step_lines(steps, figures, bars2, faileds2, n) == summary_step_lines(steps, figures, bars, faileds, n),
    decreases n,
{
    if n > 0 {
        lemma_step_lines_prefix(steps, figures, bars, faileds, bars2, faileds2, n - 1);
    }
}

/// The summary of one flavour: its heading and host block, a line per step
/// (the steps paired with their figures, as far as both go), and the total
/// score and rating.
pub fn render_summary(
    flavour: &str,
    info: &HostInfo,
    steps: &Vec<StepScore>,
    figures: &Vec<StepFigures>,
    total: u32,
    rating: &str,
    color: bool,
) -> (text: String)
    ensures
        exists|head: Seq<char>, lines: Seq<char>, foot: Seq<char>|
            #![trigger summary_head_shown(head, flavour@, *info, color), summary_steps_shown(lines, steps@, figures@, color), summary_foot_shown(foot, total, rating@, color)]
            summary_head_shown(head, flavour@, *info, color) && summary_steps_shown(lines, steps@, figures@, color)
                && summary_foot_shown(foot, total, rating@, color) && text@ == head + lines + foot,
{
    let mut out = String::new();
    render_summary_head(&mut out, flavour, info, color);
    let ghost head = out@;
    proof {
        assert(head == Seq::<char>::empty() + head);
        assert(summary_head_shown(head, flavour@, *info, color));
    }
    let n = if steps.len() <= figures.len() { steps.len() } else { figures.len() };
    let ghost mut bars: Seq<Seq<char>> = seq![];
    let ghost mut faileds: Seq<Seq<char>> = seq![];
    let mut k: usize = 0;
    while k < n
        invariant
            n == summary_step_count(steps@, figures@),
            n <= steps@.len(),
            n <= figures@.len(),
            k <= n,
            bars.len() == k,
            faileds.len() == k,
            forall|j: int|
                0 <= j < k ==> shown(#[trigger] bars[j], bar_text(steps@[j].score), band_code(steps@[j].score), color),
            forall|j: int| 0 <= j < k ==> shown(#[trigger] faileds[j], "FAILED"@, bold_red_code(), color),
            out@ == head + summary_step_lines(steps@, figures@, bars, faileds, k as int),
        decreases n - k,
    {
        let step = &steps[k];
        let fig = &figures[k];
        let ghost before = out@;
        let ghost mut bar: Seq<char> = seq![];
        let ghost mut failed: Seq<char> = "FAILED"@;
        if fig.succeeded {
            render_step_line(
                &mut out,
                step.name.as_str(),
                step.score,
                fig.time_text.as_str(),
                fig.cpu_text.as_str(),
                fig.memory_mib,
                color,
            );
            proof {
                bar = choose|b: Seq<char>|
                    #![trigger step_line_with(step.name@, step.score, b, fig.time_text@, fig.cpu_text@, fig.memory_mib)]
                    shown(b, bar_text(step.score), band_code(step.score), color) && out@ == before + step_line_with(
                        step.name@,
                        step.score,
                        b,
                        fig.time_text@,
                        fig.cpu_text@,
                        fig.memory_mib,
                    );
            }
        } else {
            render_failed_step_line(&mut out, step.name.as_str(), step.score, color);
            proof {
                let (b, f) = choose|b: Seq<char>, f: Seq<char>|
                    #![trigger failed_step_line_with(step.name@, step.score, b, f)]
                    shown(b, bar_text(step.score), band_code(step.score), color) && shown(f, "FAILED"@, bold_red_code(), color)
                        && out@ == before + failed_step_line_with(step.name@, step.score, b, f);
                bar = b;
                failed = f;
            }
        }
        proof {
            let new_bars = bars.push(bar);
            let new_faileds = faileds.push(failed);
            lemma_step_lines_prefix(steps@, figures@, bars, faileds, new_bars, new_faileds, k as int);
            assert(out@ == before + summary_step_line(*step, *fig, bar, failed));
            assert(out@ =~= head + summary_step_lines(steps@, figures@, new_bars, new_faileds, k + 1));
            bars = new_bars;
            faileds = new_faileds;
        }
        k = k + 1;
    }
    let ghost lines = out@.subrange(head.len() as int, out@.len() as int);
    proof {
        assert(lines =~= summary_step_lines(steps@, figures@, bars, faileds, n as int));
        assert(summary_steps_shown(lines, steps@, figures@, color));
    }
    let ghost middle = out@;
    render_summary_foot(&mut out, total, rating, color);
    proof {
        let foot = out@.subrange(middle.len() as int, out@.len() as int);
        let (l, v, r) = choose|l: Seq<char>, v: Seq<char>, r: Seq<char>|
            #![trigger summary_foot_with(l, v, r)]
            shown(l, "TOTAL SCORE"@, bold_code(), color) && shown(v, decimal(total as nat), bold_cyan_code(), color)
                && shown(r, rating@, bold_code(), color) && out@ == middle + summary_foot_with(l, v, r);
        assert(foot =~= summary_foot_with(l, v, r));
        assert(summary_foot_shown(foot, total, rating@, color));
        assert(middle =~= head + lines);
        assert(out@ =~= head + lines + foot);
    }
    out
}

// ---------------------------------------------------------------------------
// Leaderboard
// ---------------------------------------------------------------------------

/// What the leaderboard shows of one scored run.
#[derive(Debug, Clone)]
pub struct LeaderboardEntry {
    pub flavour: String,
    pub total_score: u32,
    pub rating: String,
}

/// Run `i` is listed before run `j`: a higher total, or the same total and an
/// earlier run (the order is stable).
pub open spec fn ranks_before(totals: Seq<u32>, i: int, j: int) -> bool {
    totals[i] > totals[j] || (totals[i] == totals[j] && i < j)
}

/// `order` lists every run once, best total first, ties in the order the runs were given.
pub open spec fn is_ranking(totals: Seq<u32>, order: Seq<usize>) -> bool {
    &&& order.len() == totals.len()
    &&& forall|k: int| 0 <= k < order.len() ==> #[trigger] order[k] < totals.len()
    &&& forall|k: int, l: int| 0 <= k < l < order.len() ==> ranks_before(totals, #[trigger] order[k] as int, #[trigger] order[l] as int)
}

/// A ranking lists every run.
proof fn lemma_ranking_lists_every_run(totals: Seq<u32>, order: Seq<usize>, run: int)
    requires
        is_ranking(totals, order),
        0 <= run < totals.len(),
    ensures
        exists|k: int| 0 <= k < order.len() && order[k] == run,
{
    let n = totals.len() as int;
    let positions = order.map_values(|p: usize| p as int);
    assert(positions.no_duplicates()) by {
        assert forall|k: int, l: int| 0 <= k < positions.len() && 0 <= l < positions.len() && k != l implies positions[k]
            != positions[l] by {
            if k < l {
                assert(ranks_before(totals, order[k] as int, order[l] as int));
            } else {
                assert(ranks_before(totals, order[l] as int, order[k] as int));
            }
        }
    }
    positions.unique_seq_to_set();
    vstd::seq_lib::seq_to_set_is_finite(positions);
    vstd::set_lib::lemma_int_range(0, n);
    assert(positions.to_set().subset_of(vstd::set_lib::set_int_range(0, n))) by {
        assert forall|x: int| #[trigger] positions.to_set().contains(x) implies vstd::set_lib::set_int_range(0, n).contains(x) by {
            let k = choose|k: int| 0 <= k < positions.len() && positions[k] == x;
            assert(order[k] < n);
        }
    }
    vstd::set_lib::lemma_subset_equality(positions.to_set(), vstd::set_lib::set_int_range(0, n));
    assert(vstd::set_lib::set_int_range(0, n).contains(run));
    assert(positions.to_set().contains(run));
    let k = choose|k: int| 0 <= k < positions.len() && positions[k] == run;
    assert(order[k] == run);
}

proof fn lemma_rankings_agree_up_to(totals: Seq<u32>, a: Seq<usize>, b: Seq<usize>, k: int)
    requires
        is_ranking(totals, a),
        is_ranking(totals, b),
        0 <= k < a.len(),
    ensures
        forall|j: int| 0 <= j <= k ==> #[trigger] a[j] == b[j],
    decreases k,
{
    if k > 0 {
        lemma_rankings_agree_up_to(totals, a, b, k - 1);
    }
    let x = a[k] as int;
    let y = b[k] as int;
    if x != y {
        lemma_ranking_lists_every_run(totals, b, x);
        lemma_ranking_lists_every_run(totals, a, y);
        let j = choose|j: int| 0 <= j < b.len() && b[j] == x;
        let i = choose|i: int| 0 <= i < a.len() && a[i] == y;
        if j < k {
            assert(a[j] == b[j]);
            assert(ranks_before(totals, a[j] as int, a[k] as int));
        }
        if i < k {
            assert(a[i] == b[i]);
            assert(ranks_before(totals, b[i] as int, b[k] as int));
        }
        assert(ranks_before(totals, b[k] as int, b[j] as int));
        assert(ranks_before(totals, a[k] as int, a[i] as int));
    }
}

/// The leaderboard's order is determined by the totals alone: any two
/// rankings of the same totals are the same.
pub proof fn lemma_ranking_is_unique(totals: Seq<u32>, a: Seq<usize>, b: Seq<usize>)
    requires
        is_ranking(totals, a),
        is_ranking(totals, b),
    ensures
        a == b,
{
    if a.len() > 0 {
        lemma_rankings_agree_up_to(totals, a, b, a.len() - 1);
    }
    assert(a =~= b);
}

/// The positions of the runs, best total first; runs with equal totals keep
/// their order.
pub fn leaderboard_order(totals: &Vec<u32>) -> (order: Vec<usize>)
    ensures
        is_ranking(totals@, order@),
{
    let mut order: Vec<usize> = Vec::new();
    let mut i: usize = 0;
    while i < totals.len()
        invariant
            i <= totals@.len(),
            order@.len() == i,
            forall|k: int| 0 <= k < order@.len() ==> #[trigger] order@[k] < i,
            forall|k: int, l: int| 0 <= k < l < order@.len() ==> ranks_before(totals@, #[trigger] order@[k] as int, #[trigger] order@[l] as int),
        decreases totals.len() - i,
    {
        let t = totals[i];
        let mut p: usize = 0;
        while p < order.len() && totals[order[p]] >= t
            invariant
                p <= order@.len(),
                order@.len() == i,
                i < totals@.len(),
                t == totals@[i as int],
                forall|k: int| 0 <= k < order@.len() ==> #[trigger] order@[k] < i,
                forall|k: int| 0 <= k < p ==> totals@[#[trigger] order@[k] as int] >= t,
            decreases order.len() - p,
        {
            p = p + 1;
        }
        let ghost before = order@;
        order.insert(p, i);
        proof {
            let after = order@;
            assert forall|k: int| 0 <= k < after.len() implies #[trigger] after[k] < i + 1 by {
                if k < p {
                    assert(after[k] == before[k]);
                } else if k > p {
                    assert(after[k] == before[k - 1]);
                }
            }
            assert forall|k: int, l: int| 0 <= k < l < after.len() implies ranks_before(totals@, #[trigger] after[k] as int, #[trigger] after[l] as int) by {
                if l < p {
                    assert(after[k] == before[k] && after[l] == before[l]);
                } else if l == p {
                    assert(after[k] == before[k]);
                } else if k > p {
                    assert(after[k] == before[k - 1] && after[l] == before[l - 1]);
                } else if k == p {
                    assert(after[l] == before[l - 1]);
                    assert(p < before.len());
                    assert(totals@[before[p as int] as int] < t);
                    if l - 1 > p {
                        assert(ranks_before(totals@, before[p as int] as int, before[l - 1] as int));
                    }
                } else {
                    assert(after[k] == before[k] && after[l] == before[l - 1]);
                }
            }
        }
        i = i + 1;
    }
    order
}

/// The medal of the run at position `rank` of the leaderboard.
pub open spec fn medal_text(rank: int) -> Seq<char> {
    if rank == 0 {
        "🥇"@
    } else if rank == 1 {
        "🥈"@
    } else {
        "🥉"@
    }
}

/// The leaderboard line of the run at position `rank`, given its flavour name
/// and its total as shown.
pub open spec fn leaderboard_row(rank: int, entry: LeaderboardEntry, label: Seq<char>, value: Seq<char>) -> Seq<char> {
    "  "@ + medal_text(rank) + "  "@ + padded(label, 8) + "  score="@ + padded(value, 4) + "  "@ + entry.rating@ + "\n"@
}

/// The first `n` lines of the leaderboard listing `entries` in `order`, with
/// the flavour names and totals as shown in `labels` and `values`.
pub open spec fn leaderboard_rows(
    entries: Seq<LeaderboardEntry>,
    order: Seq<usize>,
    labels: Seq<Seq<char>>,
    values: Seq<Seq<char>>,
    n: int,
) -> Seq<char>
    decreases n,
{
    if n <= 0 {
        seq![]
    } else {
        leaderboard_rows(entries, order, labels, values, n - 1) + leaderboard_row(
            n - 1,
            entries[order[n - 1] as int],
            labels[n - 1],
            values[n - 1],
        )
    }
}

/// The flavour names and totals of the leaderboard's lines as shown: plain
/// without colour; the name bold yellow and the total cyan with colour.
pub open spec fn rows_shown(
    entries: Seq<LeaderboardEntry>,
    order: Seq<usize>,
    labels: Seq<Seq<char>>,
    values: Seq<Seq<char>>,
    color: bool,
) -> bool {
    &&& labels.len() == order.len()
    &&& values.len() == order.len()
    &&& forall|k: int|
        0 <= k < order.len() ==> shown(#[trigger] labels[k], entries[order[k] as int].flavour@, bold_yellow_code(), color)
    &&& forall|k: int|
        0 <= k < order.len() ==> shown(
            #[trigger] values[k],
            decimal(entries[order[k] as int].total_score as nat),
            cyan_code(),
            color,
        )
}

/// The totals of the entries.
pub open spec fn totals_of(entries: Seq<LeaderboardEntry>) -> Seq<u32> {
    entries.map_values(|e: LeaderboardEntry| e.total_score)
}

/// The whole leaderboard: a blank line, the heading as shown, one line per run
/// in ranking order, and a blank line.
pub open spec fn leaderboard_text(
    title: Seq<char>,
    entries: Seq<LeaderboardEntry>,
    order: Seq<usize>,
    labels: Seq<Seq<char>>,
    values: Seq<Seq<char>>,
) -> Seq<char> {
    "\n"@ + title + "\n"@ + leaderboard_rows(entries, order, labels, values, order.len() as int) + "\n"@
}

fn render_leaderboard_row(rank: usize, entry: &LeaderboardEntry, label: &str, value: &str) -> (row: String)
    ensures
        row@ == leaderboard_row(rank as int, *entry, label@, value@),
{
    let medal = if rank == 0 {
        "🥇"
    } else if rank == 1 {
        "🥈"
    } else {
        "🥉"
    };
    let flavour = pad_right(label, 8);
    let score = pad_right(value, 4);
    let mut row = "  ".to_owned();
    row.append(medal);
    row.append("  ");
    row.append(flavour.as_str());
    row.append("  score=");
    row.append(score.as_str());
    row.append("  ");
    row.append(entry.rating.as_str());
    row.append("\n");
    row
}

/// `text` is the leaderboard of `entries`: the runs ranked by total score,
/// best first, ties in the order given, with the heading, names and totals as
/// shown.
pub open spec fn shows_leaderboard(entries: Seq<LeaderboardEntry>, text: Seq<char>, color: bool) -> bool {
    exists|order: Seq<usize>, title: Seq<char>, labels: Seq<Seq<char>>, values: Seq<Seq<char>>|
        #![trigger leaderboard_text(title, entries, order, labels, values)]
        is_ranking(totals_of(entries), order) && shown(title, leaderboard_title_text(), bold_yellow_code(), color)
            && rows_shown(entries, order, labels, values, color) && text == leaderboard_text(
            title,
            entries,
            order,
            labels,
            values,
        )
}

/// The leaderboard, which is only worth showing when at least two runs are
/// compared: `None` for fewer.
pub fn leaderboard_report(entries: &Vec<LeaderboardEntry>, color: bool) -> (report: Option<String>)
    ensures
        report is None <==> entries@.len() < 2,
        report matches Some(text) ==> shows_leaderboard(entries@, text@, color),
{
    if entries.len() < 2 {
        None
    } else {
        Some(render_leaderboard(entries, color))
    }
}

/// Renders the leaderboard: the runs ranked by total score, best first, ties
/// in the order given.
pub fn render_leaderboard(entries: &Vec<LeaderboardEntry>, color: bool) -> (text: String)
    ensures
        shows_leaderboard(entries@, text@, color),
{
    let mut totals: Vec<u32> = Vec::new();
    let mut i: usize = 0;
    while i < entries.len()
        invariant
            i <= entries@.len(),
            totals@ =~= totals_of(entries@).take(i as int),
        decreases entries.len() - i,
    {
        totals.push(entries[i].total_score);
        i = i + 1;
    }
    proof {
        assert(totals@ =~= totals_of(entries@));
    }
    let order = leaderboard_order(&totals);
    let title = leaderboard_title(color);
    let mut text = "\n".to_owned();
    text.append(title.as_str());
    text.append("\n");
    let ghost head = text@;
    let ghost mut labels: Seq<Seq<char>> = seq![];
    let ghost mut values: Seq<Seq<char>> = seq![];
    let mut k: usize = 0;
    while k < order.len()
        invariant
            k <= order@.len(),
            order@.len() == entries@.len(),
            is_ranking(totals_of(entries@), order@),
            head == "\n"@ + title@ + "\n"@,
            labels.len() == k,
            values.len() == k,
            forall|j: int|
                0 <= j < k ==> shown(#[trigger] labels[j], entries@[order@[j] as int].flavour@, bold_yellow_code(), color),
            forall|j: int|
                0 <= j < k ==> shown(
                    #[trigger] values[j],
                    decimal(entries@[order@[j] as int].total_score as nat),
                    cyan_code(),
                    color,
                ),
            text@ == head + leaderboard_rows(entries@, order@, labels, values, k as int),
        decreases order.len() - k,
    {
        let entry = &entries[order[k]];
        let label = flavour_label(entry.flavour.as_str(), color);
        let value = score_value(entry.total_score, color);
        let row = render_leaderboard_row(k, entry, label.as_str(), value.as_str());
        proof {
            let new_labels = labels.push(label@);
            let new_values = values.push(value@);
            lemma_rows_prefix(entries@, order@, labels, values, new_labels, new_values, k as int);
            labels = new_labels;
            values = new_values;
        }
        text.append(row.as_str());
        k = k + 1;
    }
    text.append("\n");
    proof {
        assert(text@ =~= leaderboard_text(title@, entries@, order@, labels, values));
        assert(rows_shown(entries@, order@, labels, values, color));
    }
    text
}

/// The first `n` lines depend only on the first `n` shown names and totals.
proof fn lemma_rows_prefix(
    entries: Seq<LeaderboardEntry>,
    order: Seq<usize>,
    labels: Seq<Seq<char>>,
    values: Seq<Seq<char>>,
    labels2: Seq<Seq<char>>,
    values2: Seq<Seq<char>>,
    n: int,
)
    requires
        0 <= n <= labels.len(),
        n <= values.len(),
        labels.len() <= labels2.len(),
        values.len() <= values2.len(),
        forall|j: int| 0 <= j < labels.len() ==> labels2[j] == labels[j],
        forall|j: int| 0 <= j < values.len() ==> values2[j] == values[j],
    ensures
        leaderboard_rows(entries, order, labels2, values2, n) == leaderboard_rows(entries, order, labels, values, n),
    decreases n,
{
    if n > 0 {
        lemma_rows_prefix(entries, order, labels, values, labels2, values2, n - 1);
    }
}

} // verus!
