//! Terminal styling through the `colored` crate. A styled text renders
//! (`Display`) as the text itself when the environment turns colours off (a
//! variable such as `NO_COLOR`, or output that is not a terminal), and
//! otherwise as the text between the escape sequence of its style and the
//! reset. For a text without escape characters each wrapper states exactly
//! these two outcomes; for a text with one (colored then rewrites any reset
//! inside it) nothing is stated.
use vstd::prelude::*;
use crate::text::{
    bold_code, bold_cyan_code, bold_red_code, bold_yellow_code, cyan_code, green_code, paints, red_code,
    yellow_code,
};

verus! {

/// `Colorize::green`: the text with a green foreground, rendered with `to_string`.
#[verifier::external_body]
pub(crate) fn green(text: &str) -> (styled: String)
    ensures
        paints(styled@, text@, green_code()),
{
    colored::Colorize::green(text).to_string()
}

/// `Colorize::yellow`: the text with a yellow foreground, rendered with `to_string`.
#[verifier::external_body]
pub(crate) fn yellow(text: &str) -> (styled: String)
    ensures
        paints(styled@, text@, yellow_code()),
{
    colored::Colorize::yellow(text).to_string()
}

/// `Colorize::red`: the text with a red foreground, rendered with `to_string`.
#[verifier::external_body]
pub(crate) fn red(text: &str) -> (styled: String)
    ensures
        paints(styled@, text@, red_code()),
{
    colored::Colorize::red(text).to_string()
}

/// `Colorize::cyan`: the text with a cyan foreground, rendered with `to_string`.
#[verifier::external_body]
pub(crate) fn cyan(text: &str) -> (styled: String)
    ensures
        paints(styled@, text@, cyan_code()),
{
    colored::Colorize::cyan(text).to_string()
}

/// `Colorize::bold`: the text in bold, rendered with `to_string`.
#[verifier::external_body]
pub(crate) fn bold(text: &str) -> (styled: String)
    ensures
        paints(styled@, text@, bold_code()),
{
    colored::Colorize::bold(text).to_string()
}

/// `Colorize::yellow`, then `Colorize::bold`: the text in bold yellow (code `1;33`), rendered with `to_string`.
#[verifier::external_body]
pub(crate) fn yellow_bold(text: &str) -> (styled: String)
    ensures
        paints(styled@, text@, bold_yellow_code()),
{
    colored::Colorize::bold(colored::Colorize::yellow(text)).to_string()
}

/// `Colorize::bold`, then `Colorize::yellow`: the text in bold yellow (code `1;33`), rendered with `to_string`.
#[verifier::external_body]
pub(crate) fn bold_yellow(text: &str) -> (styled: String)
    ensures
        paints(styled@, text@, bold_yellow_code()),
{
    colored::Colorize::yellow(colored::Colorize::bold(text)).to_string()
}

/// `Colorize::cyan`, then `Colorize::bold`: the text in bold cyan (code `1;36`), rendered with `to_string`.
#[verifier::external_body]
pub(crate) fn cyan_bold(text: &str) -> (styled: String)
    ensures
        paints(styled@, text@, bold_cyan_code()),
{
    colored::Colorize::bold(colored::Colorize::cyan(text)).to_string()
}

/// `Colorize::bold`, then `Colorize::cyan`: the text in bold cyan (code `1;36`), rendered with `to_string`.
#[verifier::external_body]
pub(crate) fn bold_cyan(text: &str) -> (styled: String)
    ensures
        paints(styled@, text@, bold_cyan_code()),
{
    colored::Colorize::cyan(colored::Colorize::bold(text)).to_string()
}

/// `Colorize::red`, then `Colorize::bold`: the text in bold red (code `1;31`), rendered with `to_string`.
#[verifier::external_body]
pub(crate) fn red_bold(text: &str) -> (styled: String)
    ensures
        paints(styled@, text@, bold_red_code()),
{
    colored::Colorize::bold(colored::Colorize::red(text)).to_string()
}

} // verus!
