//! General-purpose utilities: case conversion, truncation, clamping and the
//! string-keyed registry.
use vstd::prelude::*;
use crate::order::{comparisons_follow_spec, gt, le, lemma_order_facts, lt, total_order};
use crate::text::{
    all_ascii, ascii_lower, ascii_upper, chars_of, extend_chars, is_ascii_char, is_ascii_digit, is_ascii_lower,
    is_ascii_upper, is_upper, is_uppercase, lower_mapping, string_from_chars, to_lowercase_chars,
    to_uppercase_chars, upper_mapping,
};

verus! {

broadcast use vstd::string::group_string_axioms;

// ---------------------------------------------------------------------------
// Errors
// ---------------------------------------------------------------------------

/// The errors that the utilities report, each with the text it concerns.
#[derive(Debug, Clone)]
pub enum UtilsError {
    Parse(String),
    NotFound(String),
    InvalidArgument(String),
}

/// How an error is reported to a reader.
pub open spec fn utils_error_text(error: UtilsError) -> Seq<char> {
    match error {
        UtilsError::Parse(detail) => "Parse error: "@ + detail@,
        UtilsError::NotFound(detail) => "Not found: "@ + detail@,
        UtilsError::InvalidArgument(detail) => "Invalid argument: "@ + detail@,
    }
}

impl UtilsError {
    /// The error's message.
    pub fn message(&self) -> (text: String)
        ensures
            text@ == utils_error_text(*self),
    {
        let (mut text, detail) = match self {
            UtilsError::Parse(detail) => ("Parse error: ".to_owned(), detail),
            UtilsError::NotFound(detail) => ("Not found: ".to_owned(), detail),
            UtilsError::InvalidArgument(detail) => ("Invalid argument: ".to_owned(), detail),
        };
        text.append(detail.as_str());
        text
    }
}

// ---------------------------------------------------------------------------
// Case conversion
// ---------------------------------------------------------------------------

/// Camel-casing of `s`, where `at_word_start` says whether the previous
/// character was an underscore (or there was none): underscores are dropped and
/// the first character of every word is replaced by its uppercase mapping.
pub open spec fn camel_from(s: Seq<char>, at_word_start: bool) -> Seq<char>
    decreases s.len(),
{
    if s.len() == 0 {
        seq![]
    } else if s[0] == '_' {
        camel_from(s.drop_first(), true)
    } else {
        (if at_word_start {
            upper_mapping(s[0])
        } else {
            seq![s[0]]
        }) + camel_from(s.drop_first(), false)
    }
}

/// `snake_case` words joined into `CamelCase`.
pub open spec fn camel_case(s: Seq<char>) -> Seq<char> {
    camel_from(s, true)
}

/// Snake-casing of `s`, where `first` says whether `s` starts the string: every
/// character becomes its lowercase mapping, preceded by an underscore when it is
/// an uppercase character other than the very first.
pub open spec fn snake_from(s: Seq<char>, first: bool) -> Seq<char>
    decreases s.len(),
{
    if s.len() == 0 {
        seq![]
    } else {
        (if is_upper(s[0]) && !first {
            seq!['_']
        } else {
            seq![]
        }) + lower_mapping(s[0]) + snake_from(s.drop_first(), false)
    }
}

/// `CamelCase` split into `snake_case` words.
pub open spec fn snake_case(s: Seq<char>) -> Seq<char> {
    snake_from(s, true)
}

/// Converts a `snake_case` string to `CamelCase`.
pub fn to_camel_case(s: &str) -> (camel: String)
    ensures
        camel@ == camel_case(s@),
{
    let chars = chars_of(s);
    let mut out: Vec<char> = Vec::new();
    let mut at_word_start = true;
    let mut i: usize = 0;
    assert(s@.skip(0) =~= s@);
    while i < chars.len()
        invariant
            chars@ == s@,
            i <= chars.len(),
            camel_case(s@) == out@ + camel_from(s@.skip(i as int), at_word_start),
        decreases chars.len() - i,
    {
        let c = chars[i];
        proof {
            assert(s@.skip(i as int)[0] == c);
            assert(s@.skip(i as int).drop_first() =~= s@.skip(i + 1));
        }
        if c == '_' {
            at_word_start = true;
        } else if at_word_start {
            let upper = to_uppercase_chars(c);
            proof {
                assert(out@ + camel_from(s@.skip(i as int), true) == (out@ + upper@) + camel_from(
                    s@.skip(i + 1),
                    false,
                ));
            }
            extend_chars(&mut out, &upper);
            at_word_start = false;
        } else {
            proof {
                assert(out@ + camel_from(s@.skip(i as int), false) == out@.push(c) + camel_from(
                    s@.skip(i + 1),
                    false,
                ));
            }
            out.push(c);
        }
        i = i + 1;
    }
    proof {
        assert(s@.skip(i as int) =~= Seq::<char>::empty());
        assert(out@ + Seq::<char>::empty() == out@);
    }
    string_from_chars(&out)
}

/// Converts a `CamelCase` string to `snake_case`.
pub fn to_snake_case(s: &str) -> (snake: String)
    ensures
        snake@ == snake_case(s@),
{
    let chars = chars_of(s);
    let mut out: Vec<char> = Vec::new();
    let mut i: usize = 0;
    assert(s@.skip(0) =~= s@);
    while i < chars.len()
        invariant
            chars@ == s@,
            i <= chars.len(),
            snake_case(s@) == out@ + snake_from(s@.skip(i as int), i == 0),
        decreases chars.len() - i,
    {
        let c = chars[i];
        proof {
            assert(s@.skip(i as int)[0] == c);
            assert(s@.skip(i as int).drop_first() =~= s@.skip(i + 1));
        }
        let ghost before = out@;
        if is_uppercase(c) && i != 0 {
            out.push('_');
        }
        let lower = to_lowercase_chars(c);
        extend_chars(&mut out, &lower);
        proof {
            let sep = if is_upper(c) && i != 0 {
                seq!['_']
            } else {
                seq![]
            };
            assert(out@ == before + sep + lower@);
            assert(before + snake_from(s@.skip(i as int), i == 0) == before + (sep + lower@ + snake_from(s@.skip(i + 1), false)));
            assert(before + (sep + lower@ + snake_from(s@.skip(i + 1), false)) == out@ + snake_from(s@.skip(i + 1), false));
        }
        i = i + 1;
    }
    proof {
        assert(s@.skip(i as int) =~= Seq::<char>::empty());
        assert(out@ + Seq::<char>::empty() == out@);
    }
    string_from_chars(&out)
}

proof fn lemma_camel_from_split(a: Seq<char>, b: Seq<char>, at_word_start: bool)
    ensures
        camel_from(a + seq!['_'] + b, at_word_start) == camel_from(a, at_word_start) + camel_from(b, true),
    decreases a.len(),
{
    let s = a + seq!['_'] + b;
    if a.len() == 0 {
        assert(s.drop_first() =~= b);
        assert(s[0] == '_');
        assert(camel_from(a, at_word_start) =~= Seq::<char>::empty());
        assert(camel_from(s, at_word_start) =~= camel_from(a, at_word_start) + camel_from(b, true));
    } else {
        assert(s.drop_first() =~= a.drop_first() + seq!['_'] + b);
        assert(s[0] == a[0]);
        if a[0] == '_' {
            lemma_camel_from_split(a.drop_first(), b, true);
        } else {
            lemma_camel_from_split(a.drop_first(), b, false);
            let head = if at_word_start { upper_mapping(a[0]) } else { seq![a[0]] };
            assert(camel_from(s, at_word_start) =~= head + (camel_from(a.drop_first(), false) + camel_from(b, true)));
        }
    }
}

proof fn lemma_camel_from_no_underscore(s: Seq<char>, at_word_start: bool)
    requires
        all_ascii(s),
    ensures
        !camel_from(s, at_word_start).contains('_'),
    decreases s.len(),
{
    if s.len() > 0 {
        let rest = s.drop_first();
        assert(all_ascii(rest)) by {
            assert forall|i: int| 0 <= i < rest.len() implies is_ascii_char(#[trigger] rest[i]) by {
                assert(rest[i] == s[i + 1]);
            }
        }
        lemma_camel_from_no_underscore(rest, true);
        lemma_camel_from_no_underscore(rest, false);
        if s[0] != '_' {
            assert(is_ascii_char(s[0]));
            let head = if at_word_start { upper_mapping(s[0]) } else { seq![s[0]] };
            assert(head.len() == 1 && head[0] != '_');
            let out = head + camel_from(rest, false);
            assert(out == camel_from(s, at_word_start));
            if out.contains('_') {
                let k = choose|k: int| 0 <= k < out.len() && out[k] == '_';
                if k > 0 {
                    assert(camel_from(rest, false)[k - 1] == '_');
                }
            }
        }
    }
}

/// Camel-casing: underscores separate words and are dropped (`"sha_256"` is
/// `camel_case("sha") + camel_case("256")`); a word keeps its characters but
/// the first, which is replaced by its uppercase mapping; an ASCII input gives
/// an output without underscores.
pub proof fn lemma_camel_case_laws(a: Seq<char>, b: Seq<char>)
    ensures
        camel_case(a + seq!['_'] + b) == camel_case(a) + camel_case(b),
        a.len() > 0 && !a.contains('_') ==> camel_case(a) == upper_mapping(a[0]) + a.drop_first(),
        camel_case(seq!['_']) == Seq::<char>::empty(),
        all_ascii(a) ==> !camel_case(a).contains('_'),
{
    lemma_camel_from_split(a, b, true);
    if a.len() > 0 && !a.contains('_') {
        lemma_camel_from_word(a.drop_first());
        assert(!a.drop_first().contains('_')) by {
            if a.drop_first().contains('_') {
                let k = choose|k: int| 0 <= k < a.drop_first().len() && a.drop_first()[k] == '_';
                assert(a[k + 1] == '_');
            }
        }
        assert(a[0] != '_');
    }
    let u = seq!['_'];
    assert(u.drop_first() =~= Seq::<char>::empty());
    assert(camel_from(u.drop_first(), true) =~= Seq::<char>::empty());
    assert(u[0] == '_');
    assert(camel_from(u, true) == camel_from(u.drop_first(), true));
    if all_ascii(a) {
        lemma_camel_from_no_underscore(a, true);
    }
}

proof fn lemma_camel_from_word(w: Seq<char>)
    ensures
        !w.contains('_') ==> camel_from(w, false) == w,
    decreases w.len(),
{
    if w.len() > 0 && !w.contains('_') {
        let rest = w.drop_first();
        assert(!rest.contains('_')) by {
            if rest.contains('_') {
                let k = choose|k: int| 0 <= k < rest.len() && rest[k] == '_';
                assert(w[k + 1] == '_');
            }
        }
        lemma_camel_from_word(rest);
        assert(w[0] != '_');
        assert(w =~= seq![w[0]] + rest);
    }
}

proof fn lemma_snake_from_concat(a: Seq<char>, b: Seq<char>, first: bool)
    ensures
        snake_from(a + b, first) == snake_from(a, first) + snake_from(b, a.len() == 0 && first),
    decreases a.len(),
{
    if a.len() == 0 {
        assert(a + b =~= b);
        assert(snake_from(a, first) =~= Seq::<char>::empty());
        assert(snake_from(a + b, first) =~= snake_from(a, first) + snake_from(b, first));
    } else {
        let s = a + b;
        assert(s.drop_first() =~= a.drop_first() + b);
        assert(s[0] == a[0]);
        lemma_snake_from_concat(a.drop_first(), b, false);
        let sep = if is_upper(a[0]) && !first { seq!['_'] } else { seq![] };
        assert(snake_from(s, first) =~= sep + lower_mapping(a[0]) + (snake_from(a.drop_first(), false) + snake_from(
            b,
            false,
        )));
    }
}

/// Snake-casing works character by character: appending text after a
/// non-empty start adds its snake-casing, preceded by an underscore exactly
/// when the appended text starts with an uppercase character (`"myVar"` is
/// `"my" + "_" + "var"`); a single character becomes its lowercase mapping.
pub proof fn lemma_snake_case_laws(a: Seq<char>, b: Seq<char>, c: char)
    ensures
        a.len() > 0 ==> snake_case(a + b) == snake_case(a) + (if b.len() > 0 && is_upper(b[0]) {
            seq!['_']
        } else {
            Seq::<char>::empty()
        }) + snake_case(b),
        snake_case(seq![c]) == lower_mapping(c),
        snake_case(Seq::<char>::empty()) == Seq::<char>::empty(),
{
    lemma_snake_from_concat(a, b, true);
    if a.len() > 0 && b.len() > 0 {
        let sep = if is_upper(b[0]) { seq!['_'] } else { Seq::<char>::empty() };
        assert(snake_from(b, false) =~= sep + (lower_mapping(b[0]) + snake_from(b.drop_first(), false)));
        assert(snake_from(b, true) =~= lower_mapping(b[0]) + snake_from(b.drop_first(), false));
        assert(snake_case(a + b) =~= snake_case(a) + sep + snake_case(b));
    } else if a.len() > 0 {
        assert(snake_from(b, false) =~= Seq::<char>::empty());
        assert(snake_case(a + b) =~= snake_case(a) + Seq::<char>::empty() + snake_case(b));
    }
    let one = seq![c];
    assert(one.drop_first() =~= Seq::<char>::empty());
    assert(snake_from(one.drop_first(), false) =~= Seq::<char>::empty());
    assert(one[0] == c);
    assert(snake_case(one) =~= Seq::<char>::empty() + lower_mapping(c) + snake_from(one.drop_first(), false));
}

/// A character that may stand in a `snake_case` identifier.
pub open spec fn is_snake_char(c: char) -> bool {
    is_ascii_lower(c) || is_ascii_digit(c) || c == '_'
}

/// Lowercase ASCII letters, digits and underscores, where every underscore
/// has a character before it and a lowercase letter after it.
pub open spec fn is_snake_identifier(s: Seq<char>) -> bool {
    &&& forall|i: int| 0 <= i < s.len() ==> is_snake_char(#[trigger] s[i])
    &&& forall|i: int| 0 <= i < s.len() && #[trigger] s[i] == '_' ==> 0 < i && i + 1 < s.len() && is_ascii_lower(s[i + 1])
}

/// Inside a word, camel-casing a snake identifier and snake-casing the result
/// gives the identifier back.
proof fn lemma_snake_of_camel_tail(t: Seq<char>)
    requires
        forall|i: int| 0 <= i < t.len() ==> is_snake_char(#[trigger] t[i]),
        forall|i: int| 0 <= i < t.len() && #[trigger] t[i] == '_' ==> i + 1 < t.len() && is_ascii_lower(t[i + 1]),
    ensures
        snake_from(camel_from(t, false), false) == t,
    decreases t.len(),
{
    if t.len() == 0 {
        assert(camel_from(t, false) == Seq::<char>::empty());
    } else if t[0] == '_' {
        let x = t[1];
        let rest = t.skip(2);
        assert(t.drop_first()[0] == x);
        assert(t.drop_first().drop_first() =~= rest);
        assert(is_ascii_char(x));
        let upper = ascii_upper(x);
        assert(upper_mapping(x) == seq![upper]);
        assert(camel_from(t, false) == camel_from(t.drop_first(), true));
        assert(camel_from(t.drop_first(), true) == seq![upper] + camel_from(rest, false));
        assert(is_ascii_char(upper) && is_ascii_upper(upper));
        assert(ascii_lower(upper) == x);
        let c = seq![upper] + camel_from(rest, false);
        assert(c[0] == upper);
        assert(c.drop_first() =~= camel_from(rest, false));
        assert forall|i: int| 0 <= i < rest.len() implies is_snake_char(#[trigger] rest[i]) by {
            assert(rest[i] == t[i + 2]);
        }
        assert forall|i: int| 0 <= i < rest.len() && #[trigger] rest[i] == '_' implies i + 1 < rest.len()
            && is_ascii_lower(rest[i + 1]) by {
            assert(rest[i] == t[i + 2]);
            assert(t[i + 3] == rest[i + 1]);
        }
        lemma_snake_of_camel_tail(rest);
        assert(snake_from(c, false) == seq!['_'] + seq![x] + rest);
        assert(seq!['_'] + seq![x] + rest =~= t);
    } else {
        let x = t[0];
        let rest = t.drop_first();
        assert(camel_from(t, false) == seq![x] + camel_from(rest, false));
        let c = seq![x] + camel_from(rest, false);
        assert(c[0] == x);
        assert(c.drop_first() =~= camel_from(rest, false));
        assert(is_ascii_char(x));
        assert(!is_ascii_upper(x));
        assert(ascii_lower(x) == x);
        assert forall|i: int| 0 <= i < rest.len() implies is_snake_char(#[trigger] rest[i]) by {
            assert(rest[i] == t[i + 1]);
        }
        assert forall|i: int| 0 <= i < rest.len() && #[trigger] rest[i] == '_' implies i + 1 < rest.len()
            && is_ascii_lower(rest[i + 1]) by {
            assert(rest[i] == t[i + 1]);
            assert(t[i + 2] == rest[i + 1]);
        }
        lemma_snake_of_camel_tail(rest);
        assert(snake_from(c, false) == seq![x] + rest);
        assert(seq![x] + rest =~= t);
    }
}

/// Round trip: `to_snake_case(to_camel_case(s)) == s` for every snake identifier `s`
/// (such as `hello_world_foo`).
pub proof fn lemma_snake_camel_round_trip(s: Seq<char>)
    requires
        is_snake_identifier(s),
    ensures
        snake_case(camel_case(s)) == s,
{
    if s.len() == 0 {
        assert(camel_case(s) == Seq::<char>::empty());
    } else {
        let x = s[0];
        let rest = s.drop_first();
        assert(x != '_');
        assert(is_ascii_char(x));
        let upper = ascii_upper(x);
        assert(camel_case(s) == seq![upper] + camel_from(rest, false));
        let c = seq![upper] + camel_from(rest, false);
        assert(c[0] == upper);
        assert(c.drop_first() =~= camel_from(rest, false));
        assert(is_ascii_char(upper));
        assert(ascii_lower(upper) == x);
        assert forall|i: int| 0 <= i < rest.len() implies is_snake_char(#[trigger] rest[i]) by {
            assert(rest[i] == s[i + 1]);
        }
        assert forall|i: int| 0 <= i < rest.len() && #[trigger] rest[i] == '_' implies i + 1 < rest.len()
            && is_ascii_lower(rest[i + 1]) by {
            assert(rest[i] == s[i + 1]);
            assert(s[i + 2] == rest[i + 1]);
        }
        lemma_snake_of_camel_tail(rest);
        assert(snake_from(c, true) == seq![x] + rest);
        assert(seq![x] + rest =~= s);
    }
}

// ---------------------------------------------------------------------------
// Truncation
// ---------------------------------------------------------------------------

/// `s` cut to its first `max - 1` characters followed by an ellipsis when it has
/// more than `max` characters (empty when `max` is 0, as no character fits).
pub open spec fn truncated(s: Seq<char>, max: nat) -> Seq<char> {
    if s.len() <= max {
        s
    } else if max == 0 {
        Seq::<char>::empty()
    } else {
        s.take(max - 1) + seq!['…']
    }
}

/// Truncates `s` to at most `max` characters, appending `…` if truncated.
pub fn truncate(s: &str, max: usize) -> (out: String)
    ensures
        out@ == truncated(s@, max as nat),
{
    let chars = chars_of(s);
    if chars.len() <= max {
        return s.to_owned();
    }
    if max == 0 {
        return String::new();
    }
    let keep = max - 1;
    let mut out: Vec<char> = Vec::new();
    let mut i: usize = 0;
    while i < keep
        invariant
            chars@ == s@,
            keep < chars.len(),
            i <= keep,
            out@ == s@.take(i as int),
        decreases keep - i,
    {
        out.push(chars[i]);
        i = i + 1;
        assert(out@ =~= s@.take(i as int));
    }
    out.push('…');
    string_from_chars(&out)
}

/// A truncated string never has more than `max` characters, what stands
/// before the ellipsis is a prefix of the input, and a short enough input is
/// kept whole.
pub proof fn lemma_truncated_fits(s: Seq<char>, max: nat)
    ensures
        truncated(s, max).len() <= max,
        s.len() <= max ==> truncated(s, max) == s,
        s.len() > max && max >= 1 ==> truncated(s, max).drop_last() == s.take(max - 1) && truncated(s, max).last() == '…',
{
    if s.len() > max && max >= 1 {
        assert(truncated(s, max).drop_last() =~= s.take(max - 1));
    }
}

// ---------------------------------------------------------------------------
// Clamping
// ---------------------------------------------------------------------------

/// `value` clamped to `[min, max]`: `min` when `value < min`, else `max` when
/// `value > max`, else `value`.
pub open spec fn clamped<T: PartialOrd>(value: T, min: T, max: T) -> T {
    if lt(value, min) {
        min
    } else if gt(value, max) {
        max
    } else {
        value
    }
}

/// Clamps `value` to `[min, max]`.
pub fn clamp<T: PartialOrd>(value: T, min: T, max: T) -> (result: T)
    ensures
        comparisons_follow_spec::<T>() ==> result == clamped(value, min, max),
{
    if value < min {
        min
    } else if value > max {
        max
    } else {
        value
    }
}

/// For a totally ordered type and `min <= max`, clamping gives a value between
/// `min` and `max`, and leaves a value already between them unchanged.
pub proof fn lemma_clamp_within_bounds<T: Ord>(value: T, min: T, max: T)
    requires
        total_order::<T>(),
        le(min, max),
    ensures
        le(min, clamped(value, min, max)),
        le(clamped(value, min, max), max),
        le(min, value) && le(value, max) ==> clamped(value, min, max) == value,
{
    lemma_order_facts(min, max);
    lemma_order_facts(max, min);
    lemma_order_facts(value, min);
    lemma_order_facts(min, value);
    lemma_order_facts(value, max);
}

// ---------------------------------------------------------------------------
// Describable
// ---------------------------------------------------------------------------

/// Any type that can describe itself in a short human-readable string.
pub trait Describable {
    fn describe(&self) -> String;
}

// ---------------------------------------------------------------------------
// Registry
// ---------------------------------------------------------------------------

/// A simple string-keyed registry holding values of any `Clone + Send + Sync` type.
#[derive(Debug)]
pub struct Registry<V: Clone + Send + Sync> {
    entries: Vec<(String, V)>,
}

/// The entries of `entries` have pairwise different keys.
pub open spec fn distinct_keys<V>(entries: Seq<(String, V)>) -> bool {
    forall|i: int, j: int|
        0 <= i < entries.len() && 0 <= j < entries.len() && i != j ==> #[trigger] entries[i].0@
            != #[trigger] entries[j].0@
}

/// Some entry has key `key`.
pub open spec fn has_key<V>(entries: Seq<(String, V)>, key: Seq<char>) -> bool {
    exists|i: int| 0 <= i < entries.len() && #[trigger] entries[i].0@ == key
}

/// The position of the entry with key `key`.
pub open spec fn position_of<V>(entries: Seq<(String, V)>, key: Seq<char>) -> int {
    choose|i: int| 0 <= i < entries.len() && #[trigger] entries[i].0@ == key
}

/// The map from keys to values that `entries` describes.
pub open spec fn map_of<V>(entries: Seq<(String, V)>) -> Map<Seq<char>, V> {
    Map::new(|k: Seq<char>| has_key(entries, k), |k: Seq<char>| entries[position_of(entries, k)].1)
}

pub(crate) proof fn lemma_map_of_at<V>(entries: Seq<(String, V)>, i: int)
    requires
        distinct_keys(entries),
        0 <= i < entries.len(),
    ensures
        map_of(entries).contains_key(entries[i].0@),
        map_of(entries)[entries[i].0@] == entries[i].1,
{
    let k = entries[i].0@;
    assert(has_key(entries, k));
    let j = position_of(entries, k);
    assert(entries[j].0@ == k);
}

impl<V: Clone + Send + Sync> Registry<V> {
    /// Keys are unique.
    #[verifier::type_invariant]
    pub closed spec fn well_formed(&self) -> bool {
        distinct_keys(self.entries@)
    }

    /// The registry's contents: a map from key to value.
    pub closed spec fn view(&self) -> Map<Seq<char>, V> {
        map_of(self.entries@)
    }

    /// The keys in the order `keys` and `values` hand them out.
    pub closed spec fn key_order(&self) -> Seq<Seq<char>> {
        self.entries@.map_values(|e: (String, V)| e.0@)
    }

    /// The values in the order `keys` and `values` hand them out.
    pub closed spec fn value_order(&self) -> Seq<V> {
        self.entries@.map_values(|e: (String, V)| e.1)
    }

    /// The key order lists every key of the registry once, and the value order
    /// pairs each of them with its value.
    pub proof fn lemma_orders(&self)
        requires
            self.well_formed(),
        ensures
            self.key_order().len() == self.value_order().len(),
            self.key_order().len() == self@.dom().len(),
            self.key_order().no_duplicates(),
            self.key_order().to_set() == self@.dom(),
            forall|i: int| 0 <= i < self.key_order().len() ==> #[trigger] self@[self.key_order()[i]] == self.value_order()[i],
    {
        let e = self.entries@;
        let ks = self.key_order();
        assert forall|i: int| 0 <= i < ks.len() implies #[trigger] self@[ks[i]] == self.value_order()[i] by {
            lemma_map_of_at(e, i);
        }
        assert(ks.no_duplicates()) by {
            assert forall|i: int, j: int| 0 <= i < ks.len() && 0 <= j < ks.len() && i != j implies ks[i] != ks[j] by {
                assert(ks[i] == e[i].0@);
                assert(ks[j] == e[j].0@);
            }
        }
        assert forall|k: Seq<char>| #[trigger] self@.dom().contains(k) <==> ks.to_set().contains(k) by {
            if self@.dom().contains(k) {
                let i = position_of(e, k);
                assert(ks[i] == k);
            }
            if ks.to_set().contains(k) {
                let i = choose|i: int| 0 <= i < ks.len() && ks[i] == k;
                assert(e[i].0@ == k);
            }
        }
        assert(ks.to_set() =~= self@.dom());
        ks.unique_seq_to_set();
    }

    /// An empty registry.
    pub fn new() -> (registry: Self)
        ensures
            registry.well_formed(),
            registry@ == Map::<Seq<char>, V>::empty(),
    {
        let registry = Registry { entries: Vec::new() };
        assert(registry@ =~= Map::<Seq<char>, V>::empty());
        registry
    }

    /// The position of the entry with key `key`, if there is one.
    fn find(entries: &Vec<(String, V)>, key: &String) -> (position: Option<usize>)
        ensures
            match position {
                Some(i) => i < entries@.len() && entries@[i as int].0@ == key@,
                None => !has_key(entries@, key@),
            },
    {
        let mut i: usize = 0;
        while i < entries.len()
            invariant
                i <= entries@.len(),
                forall|j: int| 0 <= j < i ==> #[trigger] entries@[j].0@ != key@,
            decreases entries.len() - i,
        {
            if entries[i].0 == *key {
                return Some(i);
            }
            i = i + 1;
        }
        None
    }

    /// Stores `value` under `key`, replacing any value stored there before.
    pub fn insert(&mut self, key: &str, value: V)
        ensures
            final(self)@ == old(self)@.insert(key@, value),
    {
        proof {
            use_type_invariant(&*self);
        }
        let key = key.to_owned();
        let ghost before = self.entries@;
        let mut entries: Vec<(String, V)> = Vec::new();
        std::mem::swap(&mut entries, &mut self.entries);
        match Self::find(&entries, &key) {
            Some(i) => {
                entries.set(i, (key, value));
                proof {
                    let after = entries@;
                    assert forall|a: int, b: int|
                        0 <= a < after.len() && 0 <= b < after.len() && a != b implies #[trigger] after[a].0@
                            != #[trigger] after[b].0@ by {
                        assert(a == i ==> after[a].0@ == before[a].0@);
                        assert(b == i ==> after[b].0@ == before[b].0@);
                    }
                    assert forall|k: Seq<char>| #[trigger] map_of(after).contains_key(k) <==> map_of(before).insert(key@, value).contains_key(k) by {
                        if has_key(before, k) {
                            let j = choose|j: int| 0 <= j < before.len() && #[trigger] before[j].0@ == k;
                            assert(after[j].0@ == k);
                        }
                        if has_key(after, k) {
                            let j = choose|j: int| 0 <= j < after.len() && #[trigger] after[j].0@ == k;
                            if j != i {
                                assert(before[j].0@ == k);
                            }
                        }
                    }
                    assert forall|k: Seq<char>| map_of(after).contains_key(k) implies #[trigger] map_of(after)[k] == map_of(before).insert(key@, value)[k] by {
                        let j = position_of(after, k);
                        if j == i {
                            lemma_map_of_at(after, i as int);
                        } else {
                            assert(before[j].0@ == k);
                            lemma_map_of_at(before, j);
                            lemma_map_of_at(after, j);
                        }
                    }
                    assert(map_of(after) =~= map_of(before).insert(key@, value));
                }
            },
            None => {
                entries.push((key, value));
                proof {
                    let after = entries@;
                    let n = before.len() as int;
                    assert(after[n].0@ == key@);
                    assert forall|a: int, b: int|
                        0 <= a < after.len() && 0 <= b < after.len() && a != b implies #[trigger] after[a].0@
                            != #[trigger] after[b].0@ by {
                        if a == n {
                            assert(after[b] == before[b]);
                        } else if b == n {
                            assert(after[a] == before[a]);
                        } else {
                            assert(after[a] == before[a]);
                            assert(after[b] == before[b]);
                        }
                    }
                    assert forall|k: Seq<char>| #[trigger] map_of(after).contains_key(k) <==> map_of(before).insert(key@, value).contains_key(k) by {
                        if has_key(before, k) {
                            let j = choose|j: int| 0 <= j < before.len() && #[trigger] before[j].0@ == k;
                            assert(after[j].0@ == k);
                        }
                        if has_key(after, k) {
                            let j = choose|j: int| 0 <= j < after.len() && #[trigger] after[j].0@ == k;
                            if j != n {
                                assert(before[j].0@ == k);
                            }
                        }
                    }
                    assert forall|k: Seq<char>| map_of(after).contains_key(k) implies #[trigger] map_of(after)[k] == map_of(before).insert(key@, value)[k] by {
                        let j = position_of(after, k);
                        if j == n {
                            lemma_map_of_at(after, n);
                        } else {
                            assert(before[j].0@ == k);
                            lemma_map_of_at(before, j);
                            lemma_map_of_at(after, j);
                        }
                    }
                    assert(map_of(after) =~= map_of(before).insert(key@, value));
                }
            },
        }
        self.entries = entries;
    }

    /// The value stored under `key`, if any.
    pub fn get(&self, key: &str) -> (value: Option<&V>)
        ensures
            value == (if self@.contains_key(key@) {
                Some(&self@[key@])
            } else {
                None
            }),
    {
        proof {
            use_type_invariant(self);
        }
        let key = key.to_owned();
        match Self::find(&self.entries, &key) {
            Some(i) => {
                proof {
                    lemma_map_of_at(self.entries@, i as int);
                }
                Some(&self.entries[i].1)
            },
            None => None,
        }
    }

    /// Removes the value stored under `key` and returns it, if any.
    pub fn remove(&mut self, key: &str) -> (removed: Option<V>)
        ensures
            final(self)@ == old(self)@.remove(key@),
            removed == (if old(self)@.contains_key(key@) {
                Some(old(self)@[key@])
            } else {
                None
            }),
    {
        proof {
            use_type_invariant(&*self);
        }
        let key = key.to_owned();
        let ghost before = self.entries@;
        let mut entries: Vec<(String, V)> = Vec::new();
        std::mem::swap(&mut entries, &mut self.entries);
        match Self::find(&entries, &key) {
            Some(i) => {
                proof {
                    lemma_map_of_at(before, i as int);
                }
                let entry = entries.remove(i);
                proof {
                    let after = entries@;
                    assert forall|a: int, b: int|
                        0 <= a < after.len() && 0 <= b < after.len() && a != b implies #[trigger] after[a].0@
                            != #[trigger] after[b].0@ by {
                        let a0 = if a < i { a } else { a + 1 };
                        let b0 = if b < i { b } else { b + 1 };
                        assert(after[a] == before[a0]);
                        assert(after[b] == before[b0]);
                    }
                    assert forall|k: Seq<char>| #[trigger] map_of(after).contains_key(k) <==> map_of(before).remove(key@).contains_key(k) by {
                        if has_key(before, k) && k != key@ {
                            let j = choose|j: int| 0 <= j < before.len() && #[trigger] before[j].0@ == k;
                            if j < i {
                                assert(after[j].0@ == k);
                            } else {
                                assert(after[j - 1].0@ == k);
                            }
                        }
                        if has_key(after, k) {
                            let j = choose|j: int| 0 <= j < after.len() && #[trigger] after[j].0@ == k;
                            let j0 = if j < i { j } else { j + 1 };
                            assert(before[j0].0@ == k);
                        }
                    }
                    assert forall|k: Seq<char>| map_of(after).contains_key(k) implies #[trigger] map_of(after)[k] == map_of(before).remove(key@)[k] by {
                        let j = position_of(after, k);
                        let j0 = if j < i { j } else { j + 1 };
                        assert(before[j0] == after[j]);
                        lemma_map_of_at(before, j0);
                        lemma_map_of_at(after, j);
                    }
                    assert(map_of(after) =~= map_of(before).remove(key@));
                }
                self.entries = entries;
                Some(entry.1)
            },
            None => {
                proof {
                    assert(map_of(before) =~= map_of(before).remove(key@));
                }
                self.entries = entries;
                None
            },
        }
    }

    /// The number of entries.
    pub fn len(&self) -> (count: usize)
        ensures
            count == self@.len(),
    {
        proof {
            use_type_invariant(self);
            self.lemma_orders();
        }
        self.entries.len()
    }

    /// Whether the registry has no entries.
    pub fn is_empty(&self) -> (empty: bool)
        ensures
            empty == (self@.len() == 0),
    {
        proof {
            use_type_invariant(self);
            self.lemma_orders();
        }
        self.entries.len() == 0
    }

    /// The keys, each once, in the registry's order.
    pub fn keys(&self) -> (keys: Vec<&String>)
        ensures
            keys@.len() == self.key_order().len(),
            forall|i: int| 0 <= i < keys@.len() ==> #[trigger] keys@[i]@ == self.key_order()[i],
    {
        proof {
            use_type_invariant(self);
        }
        let mut keys: Vec<&String> = Vec::new();
        let mut i: usize = 0;
        while i < self.entries.len()
            invariant
                i <= self.entries@.len(),
                keys@.len() == i,
                forall|j: int| 0 <= j < i ==> #[trigger] keys@[j]@ == self.key_order()[j],
            decreases self.entries.len() - i,
        {
            keys.push(&self.entries[i].0);
            i = i + 1;
        }
        keys
    }

    /// The values, in the same order as `keys` hands out their keys.
    pub fn values(&self) -> (values: Vec<&V>)
        ensures
            values@.len() == self.value_order().len(),
            forall|i: int| 0 <= i < values@.len() ==> *#[trigger] values@[i] == self.value_order()[i],
    {
        proof {
            use_type_invariant(self);
        }
        let mut values: Vec<&V> = Vec::new();
        let mut i: usize = 0;
        while i < self.entries.len()
            invariant
                i <= self.entries@.len(),
                values@.len() == i,
                forall|j: int| 0 <= j < i ==> *#[trigger] values@[j] == self.value_order()[j],
            decreases self.entries.len() - i,
        {
            values.push(&self.entries[i].1);
            i = i + 1;
        }
        values
    }
}

/// Storing `value` under `key` and reading `key` back gives `value`; every
/// other key keeps what it had; the number of entries grows by one exactly
/// when `key` was new.
pub proof fn lemma_registry_insert<V: Clone + Send + Sync>(
    before: Registry<V>,
    after: Registry<V>,
    key: Seq<char>,
    value: V,
    other: Seq<char>,
)
    requires
        before.well_formed(),
        after@ == before@.insert(key, value),
    ensures
        after@.contains_key(key),
        after@[key] == value,
        other != key ==> (after@.contains_key(other) <==> before@.contains_key(other)),
        other != key && before@.contains_key(other) ==> after@[other] == before@[other],
        after@.len() == before@.len() + (if before@.contains_key(key) { 0nat } else { 1nat }),
{
    before.lemma_orders();
    vstd::seq_lib::seq_to_set_is_finite(before.key_order());
    if before@.contains_key(key) {
        assert(before@.dom().insert(key) =~= before@.dom());
    }
}

/// Removing `key` leaves no value under it; every other key keeps what it
/// had; the number of entries drops by one exactly when `key` was present.
pub proof fn lemma_registry_remove<V: Clone + Send + Sync>(
    before: Registry<V>,
    after: Registry<V>,
    key: Seq<char>,
    other: Seq<char>,
)
    requires
        before.well_formed(),
        after@ == before@.remove(key),
    ensures
        !after@.contains_key(key),
        other != key ==> (after@.contains_key(other) <==> before@.contains_key(other)),
        other != key && before@.contains_key(other) ==> after@[other] == before@[other],
        after@.len() == before@.len() - (if before@.contains_key(key) { 1int } else { 0int }),
{
    before.lemma_orders();
    vstd::seq_lib::seq_to_set_is_finite(before.key_order());
    if !before@.contains_key(key) {
        assert(before@.dom().remove(key) =~= before@.dom());
    }
}

impl<V: Clone + Send + Sync> Clone for Registry<V> {
    /// A registry with the same keys, in the same order, and clones of the values.
    fn clone(&self) -> (copy: Self)
        ensures
            copy.key_order() == self.key_order(),
    {
        proof {
            use_type_invariant(self);
        }
        let mut entries: Vec<(String, V)> = Vec::new();
        let mut i: usize = 0;
        while i < self.entries.len()
            invariant
                i <= self.entries@.len(),
                distinct_keys(self.entries@),
                entries@.len() == i,
                forall|j: int| 0 <= j < i ==> #[trigger] entries@[j].0@ == self.entries@[j].0@,
            decreases self.entries.len() - i,
        {
            let key = self.entries[i].0.clone();
            let value = self.entries[i].1.clone();
            entries.push((key, value));
            i = i + 1;
        }
        proof {
            assert forall|a: int, b: int|
                0 <= a < entries@.len() && 0 <= b < entries@.len() && a != b implies #[trigger] entries@[a].0@
                    != #[trigger] entries@[b].0@ by {
                assert(entries@[a].0@ == self.entries@[a].0@);
                assert(entries@[b].0@ == self.entries@[b].0@);
            }
        }
        let copy = Registry { entries };
        assert(copy.key_order() =~= self.key_order());
        copy
    }
}

impl<V: Clone + Send + Sync> Default for Registry<V> {
    fn default() -> (registry: Self)
        ensures
            registry.well_formed(),
            registry@ == Map::<Seq<char>, V>::empty(),
    {
        Registry::new()
    }
}

} // verus!
