//! Character and string primitives the text functions are built from: the
//! standard library's Unicode case mappings, building strings out of characters,
//! decimal rendering of integers and padding.
use vstd::prelude::*;

verus! {

broadcast use vstd::string::group_string_axioms;

/// An ASCII character: its code point is below 128.
pub open spec fn is_ascii_char(c: char) -> bool {
    (c as u32) < 128
}

pub open spec fn is_ascii_upper(c: char) -> bool {
    'A' <= c && c <= 'Z'
}

pub open spec fn is_ascii_lower(c: char) -> bool {
    'a' <= c && c <= 'z'
}

pub open spec fn is_ascii_digit(c: char) -> bool {
    '0' <= c && c <= '9'
}

/// ASCII upper-casing: `a`-`z` become `A`-`Z`, every other character stays.
pub open spec fn ascii_upper(c: char) -> char {
    if is_ascii_lower(c) {
        ((c as u32) - 32) as char
    } else {
        c
    }
}

/// ASCII lower-casing: `A`-`Z` become `a`-`z`, every other character stays.
pub open spec fn ascii_lower(c: char) -> char {
    if is_ascii_upper(c) {
        ((c as u32) + 32) as char
    } else {
        c
    }
}

/// The characters of the Unicode uppercase mapping of a non-ASCII `c` (`char::to_uppercase`).
pub uninterp spec fn uppercase_of(c: char) -> Seq<char>;

/// The characters of the Unicode lowercase mapping of a non-ASCII `c` (`char::to_lowercase`).
pub uninterp spec fn lowercase_of(c: char) -> Seq<char>;

/// Whether a non-ASCII `c` has the Unicode `Uppercase` property (`char::is_uppercase`).
pub uninterp spec fn has_uppercase_property(c: char) -> bool;

/// The uppercase mapping of `c`: for ASCII the capital of a letter `a`-`z` and
/// the character itself otherwise.
pub open spec fn upper_mapping(c: char) -> Seq<char> {
    if is_ascii_char(c) {
        seq![ascii_upper(c)]
    } else {
        uppercase_of(c)
    }
}

/// The lowercase mapping of `c`: for ASCII the small letter of `A`-`Z` and
/// the character itself otherwise.
pub open spec fn lower_mapping(c: char) -> Seq<char> {
    if is_ascii_char(c) {
        seq![ascii_lower(c)]
    } else {
        lowercase_of(c)
    }
}

/// Whether `c` is an uppercase character: among ASCII characters exactly `A`-`Z`.
pub open spec fn is_upper(c: char) -> bool {
    if is_ascii_char(c) {
        is_ascii_upper(c)
    } else {
        has_uppercase_property(c)
    }
}

/// `char::to_uppercase`, collected: the characters of `c`'s uppercase mapping,
/// which for an ASCII character its documentation gives (a letter `a`-`z` maps
/// to its capital, any other ASCII character to itself).
#[verifier::external_body]
pub(crate) fn to_uppercase_chars(c: char) -> (upper: Vec<char>)
    ensures
        is_ascii_char(c) ==> upper@ == seq![ascii_upper(c)],
        !is_ascii_char(c) ==> upper@ == uppercase_of(c),
{
    c.to_uppercase().collect()
}

/// `char::to_lowercase`, collected: the characters of `c`'s lowercase mapping,
/// which for an ASCII character its documentation gives (a letter `A`-`Z` maps
/// to its small letter, any other ASCII character to itself).
#[verifier::external_body]
pub(crate) fn to_lowercase_chars(c: char) -> (lower: Vec<char>)
    ensures
        is_ascii_char(c) ==> lower@ == seq![ascii_lower(c)],
        !is_ascii_char(c) ==> lower@ == lowercase_of(c),
{
    c.to_lowercase().collect()
}

/// `char::is_uppercase`: the Unicode `Uppercase` property; among ASCII characters
/// exactly `A`-`Z` have it.
#[verifier::external_body]
pub(crate) fn is_uppercase(c: char) -> (upper: bool)
    ensures
        is_ascii_char(c) ==> (upper <==> is_ascii_upper(c)),
        !is_ascii_char(c) ==> upper == has_uppercase_property(c),
{
    c.is_uppercase()
}

/// The lowercase form of a text with some non-ASCII character (`str::to_lowercase`).
pub uninterp spec fn text_lowercase(s: Seq<char>) -> Seq<char>;

/// Every character is ASCII.
pub open spec fn all_ascii(s: Seq<char>) -> bool {
    forall|i: int| 0 <= i < s.len() ==> is_ascii_char(#[trigger] s[i])
}

/// The ASCII lower-casing of every character.
pub open spec fn ascii_lowercase(s: Seq<char>) -> Seq<char> {
    s.map_values(|c: char| ascii_lower(c))
}

/// `str::to_lowercase`: the lowercase form of the text; for an ASCII text that
/// is every letter `A`-`Z` replaced by its small letter.
#[verifier::external_body]
pub(crate) fn to_lowercase_text(s: &str) -> (lower: String)
    ensures
        all_ascii(s@) ==> lower@ == ascii_lowercase(s@),
        !all_ascii(s@) ==> lower@ == text_lowercase(s@),
{
    s.to_lowercase()
}

/// `String::push`: appends one character.
#[verifier::external_body]
pub(crate) fn push_char(s: &mut String, c: char)
    ensures
        final(s)@ == old(s)@.push(c),
{
    s.push(c);
}

/// The string made of the given characters, in order.
pub fn string_from_chars(chars: &Vec<char>) -> (s: String)
    ensures
        s@ == chars@,
{
    let mut s = String::new();
    let mut i: usize = 0;
    while i < chars.len()
        invariant
            i <= chars@.len(),
            s@ == chars@.take(i as int),
        decreases chars.len() - i,
    {
        push_char(&mut s, chars[i]);
        i = i + 1;
        assert(chars@.take(i as int) == chars@.take(i - 1).push(chars@[i - 1]));
    }
    assert(chars@.take(i as int) == chars@);
    s
}

/// The characters of a string slice, in order.
pub fn chars_of(s: &str) -> (chars: Vec<char>)
    ensures
        chars@ == s@,
{
    let mut chars: Vec<char> = Vec::new();
    for c in it: s.chars()
        invariant
            it.seq() == s@,
            chars@ == it.seq().take(it.index() as int),
    {
        chars.push(c);
    }
    chars
}

/// Appends `extra` to `chars`.
pub fn extend_chars(chars: &mut Vec<char>, extra: &Vec<char>)
    ensures
        final(chars)@ == old(chars)@ + extra@,
{
    let mut i: usize = 0;
    while i < extra.len()
        invariant
            i <= extra.len(),
            chars@ == old(chars)@ + extra@.take(i as int),
        decreases extra.len() - i,
    {
        chars.push(extra[i]);
        i = i + 1;
        assert(extra@.take(i as int) == extra@.take(i - 1).push(extra@[i - 1]));
    }
    assert(extra@.take(i as int) == extra@);
}

/// The decimal digit for `d < 10`.
pub open spec fn digit_char(d: nat) -> char {
    ((d + 48) as u32) as char
}

/// Decimal representation of `n`, without leading zeros ("0" for zero).
pub open spec fn decimal(n: nat) -> Seq<char>
    decreases n,
{
    if n < 10 {
        seq![digit_char(n)]
    } else {
        decimal(n / 10).push(digit_char(n % 10))
    }
}

/// The decimal representation of `n`, as `n.to_string()` renders it.
pub fn u64_to_decimal(n: u64) -> (text: String)
    ensures
        text@ == decimal(n as nat),
{
    let mut digits: Vec<char> = Vec::new();
    let mut rest: u64 = n;
    loop
        invariant
            rest <= n,
            decimal(n as nat) == decimal(rest as nat) + digits@,
        decreases rest,
    {
        let d = rest % 10;
        let c = char_of_digit(d);
        let ghost old_digits = digits@;
        digits.insert(0, c);
        assert(digits@ == seq![c] + old_digits);
        if rest < 10 {
            assert(decimal(rest as nat) == seq![c]);
            assert(decimal(n as nat) == digits@);
            return string_from_chars(&digits);
        }
        assert(decimal(rest as nat) == decimal((rest / 10) as nat).push(c));
        assert(decimal((rest / 10) as nat).push(c) + old_digits == decimal((rest / 10) as nat) + digits@);
        rest = rest / 10;
    }
}

fn char_of_digit(d: u64) -> (c: char)
    requires
        d < 10,
    ensures
        c == digit_char(d as nat),
{
    let code: u8 = (d as u8) + 48;
    let c = code as char;
    assert(c == digit_char(d as nat)) by {
        assert(c as u32 == d + 48);
    }
    c
}

/// `s` padded on the right with spaces to at least `width` characters
/// (what `{:width}` does to a string argument).
pub open spec fn padded(s: Seq<char>, width: nat) -> Seq<char> {
    if s.len() >= width {
        s
    } else {
        s + Seq::new((width - s.len()) as nat, |i: int| ' ')
    }
}

/// `s` padded on the left with spaces to at least `width` characters (what
/// `{:width}` does to a number).
pub open spec fn padded_left(s: Seq<char>, width: nat) -> Seq<char> {
    if s.len() >= width {
        s
    } else {
        Seq::new((width - s.len()) as nat, |i: int| ' ') + s
    }
}

/// Pads `s` on the left with spaces to at least `width` characters.
pub fn pad_left(s: &str, width: usize) -> (out: String)
    ensures
        out@ == padded_left(s@, width as nat),
{
    let chars = chars_of(s);
    let mut out: Vec<char> = Vec::new();
    let mut count = chars.len();
    while count < width
        invariant
            chars@ == s@,
            count >= chars@.len(),
            count <= width || count == chars@.len(),
            out@ == Seq::new((count - chars@.len()) as nat, |i: int| ' '),
        decreases width - count,
    {
        out.push(' ');
        count = count + 1;
        assert(out@ =~= Seq::new((count - chars@.len()) as nat, |i: int| ' '));
    }
    extend_chars(&mut out, &chars);
    proof {
        if chars@.len() >= width {
            assert(out@ =~= s@);
        }
    }
    string_from_chars(&out)
}

/// Pads `s` on the right with spaces to at least `width` characters.
pub fn pad_right(s: &str, width: usize) -> (out: String)
    ensures
        out@ == padded(s@, width as nat),
{
    let mut chars = chars_of(s);
    let ghost initial = chars@;
    let mut count = chars.len();
    while count < width
        invariant
            initial == s@,
            count <= width || count == initial.len(),
            chars@.len() == count,
            count >= initial.len(),
            chars@ == initial + Seq::new((count - initial.len()) as nat, |i: int| ' '),
        decreases width - count,
    {
        chars.push(' ');
        count = count + 1;
        assert(chars@ =~= initial + Seq::new((count - initial.len()) as nat, |i: int| ' '));
    }
    proof {
        if initial.len() >= width {
            assert(chars@ =~= initial);
        }
    }
    string_from_chars(&chars)
}

// ---------------------------------------------------------------------------
// UTF-8 lengths
// ---------------------------------------------------------------------------

/// Number of bytes of the UTF-8 encoding of `s` (what `str::len` returns).
pub open spec fn byte_len(s: Seq<char>) -> nat {
    vstd::utf8::encode_utf8(s).len()
}

/// Number of bytes of the UTF-8 encoding of one character.
pub open spec fn char_width(c: char) -> nat {
    if (c as u32) <= 0x7F {
        1
    } else if (c as u32) <= 0x7FF {
        2
    } else if (c as u32) <= 0xFFFF {
        3
    } else {
        4
    }
}

proof fn lemma_char_width(c: char)
    ensures
        vstd::utf8::encode_scalar(c as u32).len() == char_width(c),
{
    vstd::utf8::char_is_scalar(c);
}

/// The encoding of a concatenation is the concatenation of the encodings.
pub proof fn lemma_byte_len_concat(a: Seq<char>, b: Seq<char>)
    ensures
        byte_len(a + b) == byte_len(a) + byte_len(b),
    decreases a.len(),
{
    if a.len() > 0 {
        assert((a + b).drop_first() =~= a.drop_first() + b);
        assert((a + b)[0] == a[0]);
        lemma_byte_len_concat(a.drop_first(), b);
    } else {
        assert(a + b =~= b);
    }
}

/// Appending a character adds its width.
pub proof fn lemma_byte_len_push(a: Seq<char>, c: char)
    ensures
        byte_len(a.push(c)) == byte_len(a) + char_width(c),
{
    lemma_byte_len_concat(a, seq![c]);
    assert(a.push(c) =~= a + seq![c]);
    lemma_char_width(c);
    let single = seq![c];
    assert(single.drop_first() =~= Seq::<char>::empty());
    assert(single[0] == c);
    assert(vstd::utf8::encode_utf8(single.drop_first()).len() == 0);
    assert(vstd::utf8::encode_utf8(single) == vstd::utf8::encode_scalar(c as u32) + vstd::utf8::encode_utf8(single.drop_first()));
}

/// Every character takes between one and four bytes.
pub proof fn lemma_byte_len_bounds(s: Seq<char>)
    ensures
        s.len() <= byte_len(s) <= 4 * s.len(),
        s.len() == 0 <==> byte_len(s) == 0,
    decreases s.len(),
{
    if s.len() > 0 {
        lemma_byte_len_bounds(s.drop_first());
        lemma_char_width(s[0]);
    }
}

/// The number of bytes `c` takes in UTF-8 (`char::len_utf8`).
pub fn utf8_width(c: char) -> (width: u128)
    ensures
        width == char_width(c),
{
    let v = c as u32;
    if v <= 0x7F {
        1
    } else if v <= 0x7FF {
        2
    } else if v <= 0xFFFF {
        3
    } else {
        4
    }
}

/// The number of bytes of the UTF-8 encoding of `chars`.
pub fn utf8_len(chars: &Vec<char>) -> (len: u128)
    ensures
        len == byte_len(chars@),
{
    let mut total: u128 = 0;
    let mut i: usize = 0;
    while i < chars.len()
        invariant
            i <= chars@.len(),
            total == byte_len(chars@.take(i as int)),
            total <= 4 * i,
        decreases chars.len() - i,
    {
        proof {
            assert(chars@.take(i + 1) =~= chars@.take(i as int).push(chars@[i as int]));
            lemma_byte_len_push(chars@.take(i as int), chars@[i as int]);
        }
        total = total + utf8_width(chars[i]);
        i = i + 1;
    }
    assert(chars@.take(i as int) =~= chars@);
    total
}

// ---------------------------------------------------------------------------
// Lines
// ---------------------------------------------------------------------------

/// Position of the first `\n` in `s` (its length when there is none).
pub open spec fn first_newline(s: Seq<char>) -> nat
    decreases s.len(),
{
    if s.len() == 0 {
        0
    } else if s[0] == '\n' {
        0
    } else {
        1 + first_newline(s.drop_first())
    }
}

pub proof fn lemma_first_newline_bound(s: Seq<char>)
    ensures
        first_newline(s) <= s.len(),
        first_newline(s) < s.len() ==> s[first_newline(s) as int] == '\n',
        forall|i: int| 0 <= i < first_newline(s) ==> s[i] != '\n',
    decreases s.len(),
{
    if s.len() > 0 && s[0] != '\n' {
        lemma_first_newline_bound(s.drop_first());
        assert forall|i: int| 0 <= i < first_newline(s) implies s[i] != '\n' by {
            if i > 0 {
                assert(s[i] == s.drop_first()[i - 1]);
            }
        }
    }
}

/// `line` without one trailing carriage return.
pub open spec fn without_cr(line: Seq<char>) -> Seq<char> {
    if line.len() > 0 && line.last() == '\r' {
        line.drop_last()
    } else {
        line
    }
}

/// The lines of `s` as `str::lines` gives them: the text between line feeds,
/// each without a carriage return that ends it; a final line feed does not
/// start an empty last line, and the empty string has no lines.
pub open spec fn text_lines(s: Seq<char>) -> Seq<Seq<char>>
    decreases s.len(),
{
    if s.len() == 0 {
        seq![]
    } else if first_newline(s) >= s.len() {
        seq![s]
    } else {
        let k = first_newline(s);
        proof {
            lemma_first_newline_bound(s);
        }
        seq![without_cr(s.take(k as int))] + text_lines(s.skip(k as int + 1))
    }
}

/// No character of `s` is a line feed.
pub open spec fn single_line(s: Seq<char>) -> bool {
    forall|i: int| 0 <= i < s.len() ==> s[i] != '\n'
}

proof fn lemma_first_newline_after_line(line: Seq<char>, rest: Seq<char>)
    requires
        single_line(line),
    ensures
        first_newline(line + rest) == line.len() + first_newline(rest),
    decreases line.len(),
{
    if line.len() > 0 {
        assert((line + rest).drop_first() =~= line.drop_first() + rest);
        assert((line + rest)[0] == line[0]);
        lemma_first_newline_after_line(line.drop_first(), rest);
    } else {
        assert(line + rest =~= rest);
    }
}

/// Every line is free of line feeds.
pub proof fn lemma_text_lines_single(s: Seq<char>)
    ensures
        forall|i: int| 0 <= i < text_lines(s).len() ==> single_line(#[trigger] text_lines(s)[i]),
    decreases s.len(),
{
    if s.len() > 0 {
        lemma_first_newline_bound(s);
        let k = first_newline(s);
        if k < s.len() {
            lemma_text_lines_single(s.skip(k as int + 1));
            let first = without_cr(s.take(k as int));
            assert(single_line(first));
            assert forall|i: int| 0 <= i < text_lines(s).len() implies single_line(#[trigger] text_lines(s)[i]) by {
                if i > 0 {
                    assert(text_lines(s)[i] == text_lines(s.skip(k as int + 1))[i - 1]);
                }
            }
        }
    }
}

/// The lines of `s`, as `str::lines` splits it.
pub fn split_lines(s: &str) -> (lines: Vec<Vec<char>>)
    ensures
        lines@.len() == text_lines(s@).len(),
        forall|i: int| 0 <= i < lines@.len() ==> #[trigger] lines@[i]@ == text_lines(s@)[i],
{
    let chars = chars_of(s);
    let mut lines: Vec<Vec<char>> = Vec::new();
    let mut current: Vec<char> = Vec::new();
    let mut i: usize = 0;
    let ghost done: Seq<Seq<char>> = seq![];
    assert(s@.skip(0) =~= s@);
    assert(current@ + s@.skip(0) =~= s@);
    while i < chars.len()
        invariant
            chars@ == s@,
            i <= chars@.len(),
            single_line(current@),
            lines@.len() == done.len(),
            forall|j: int| 0 <= j < lines@.len() ==> #[trigger] lines@[j]@ == done[j],
            done + text_lines(current@ + s@.skip(i as int)) == text_lines(s@),
        decreases chars.len() - i,
    {
        let c = chars[i];
        let ghost rest = s@.skip(i + 1);
        proof {
            assert(s@.skip(i as int) =~= seq![c] + rest);
        }
        if c == '\n' {
            proof {
                let t = current@ + s@.skip(i as int);
                lemma_first_newline_after_line(current@, s@.skip(i as int));
                assert(first_newline(s@.skip(i as int)) == 0);
                assert(t.take(current@.len() as int) =~= current@);
                assert(t.skip(current@.len() as int + 1) =~= rest);
                assert(text_lines(t) == seq![without_cr(current@)] + text_lines(rest));
            }
            if current.len() > 0 && current[current.len() - 1] == '\r' {
                current.pop();
            }
            proof {
                done = done.push(current@);
                assert(done.last() == current@);
            }
            lines.push(current);
            current = Vec::new();
            proof {
                assert(current@ + rest =~= rest);
                assert(done.drop_last() + text_lines(current@ + rest).insert(0, done.last()) =~= done + text_lines(current@ + rest));
            }
        } else {
            let ghost before = current@;
            current.push(c);
            proof {
                assert(current@ + rest =~= before + s@.skip(i as int));
                assert forall|k: int| 0 <= k < current@.len() implies current@[k] != '\n' by {
                    if k < before.len() {
                        assert(current@[k] == before[k]);
                    }
                }
            }
        }
        i = i + 1;
    }
    proof {
        assert(s@.skip(i as int) =~= Seq::<char>::empty());
        assert(current@ + s@.skip(i as int) =~= current@);
        if current@.len() > 0 {
            lemma_first_newline_after_line(current@, Seq::<char>::empty());
            assert(current@ + Seq::<char>::empty() =~= current@);
        }
    }
    if current.len() > 0 {
        proof {
            done = done.push(current@);
        }
        lines.push(current);
    }
    proof {
        assert(done =~= text_lines(s@));
    }
    lines
}

// ---------------------------------------------------------------------------
// Terminal styling
// ---------------------------------------------------------------------------

/// `text` holds no escape character.
pub open spec fn no_escape(text: Seq<char>) -> bool {
    forall|i: int| 0 <= i < text.len() ==> text[i] != '\x1B'
}

/// The escape sequence that switches a style on: `ESC [ <code> m`.
pub open spec fn escape_start(code: Seq<char>) -> Seq<char> {
    seq!['\x1B', '['] + code + seq!['m']
}

/// The escape sequence that switches every style off: `ESC [ 0 m`.
pub open spec fn escape_reset() -> Seq<char> {
    seq!['\x1B', '[', '0', 'm']
}

/// What styling `text` with the style `code` can render to, for a text without
/// escape characters: the text itself, where the environment turns colours off,
/// or the text between the style's escape sequence and the reset.
pub open spec fn paints(out: Seq<char>, text: Seq<char>, code: Seq<char>) -> bool {
    no_escape(text) ==> (out == text || out == escape_start(code) + text + escape_reset())
}

/// How a piece of a report shows `text`: exactly, without colour; painted
/// with the style `code`, with colour.
pub open spec fn shown(out: Seq<char>, text: Seq<char>, code: Seq<char>, color: bool) -> bool {
    if color {
        paints(out, text, code)
    } else {
        out == text
    }
}

/// Style code: green foreground.
pub open spec fn green_code() -> Seq<char> {
    seq!['3', '2']
}

/// Style code: yellow foreground.
pub open spec fn yellow_code() -> Seq<char> {
    seq!['3', '3']
}

/// Style code: red foreground.
pub open spec fn red_code() -> Seq<char> {
    seq!['3', '1']
}

/// Style code: cyan foreground.
pub open spec fn cyan_code() -> Seq<char> {
    seq!['3', '6']
}

/// Style code: bold.
pub open spec fn bold_code() -> Seq<char> {
    seq!['1']
}

/// Style code: bold with a yellow foreground.
pub open spec fn bold_yellow_code() -> Seq<char> {
    seq!['1', ';', '3', '3']
}

/// Style code: bold with a cyan foreground.
pub open spec fn bold_cyan_code() -> Seq<char> {
    seq!['1', ';', '3', '6']
}

/// Style code: bold with a red foreground.
pub open spec fn bold_red_code() -> Seq<char> {
    seq!['1', ';', '3', '1']
}

} // verus!
