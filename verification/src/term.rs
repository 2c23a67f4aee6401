//! The crate's only trusted surface: the calls into the text-decoding,
//! styling and table-rendering code that the highlighter builds on. Every
//! function here is believed on its contract, which states no more than the
//! called code's own source shows.

use owo_colors::colors::White;
use owo_colors::OwoColorize;
use std::io::Write;
use vstd::prelude::*;

verus! {

/// The text that a byte sequence decodes to, replacing invalid sequences:
/// a function of the bytes alone. On well-formed UTF-8 it is the encoded
/// text itself.
pub uninterp spec fn decoded_of(bytes: Seq<u8>) -> Seq<char>;

/// Relies on String::from_utf8_lossy: the result depends on the bytes alone.
#[verifier::external_body]
pub(crate) fn bytes_to_string(v: &Vec<u8>) -> (r: String)
    ensures
        r@ == decoded_of(v@),
{
    String::from_utf8_lossy(v.as_slice()).into_owned()
}

/// The control sequence written before the highlighted slice: the
/// background color code for the highlight green, then the foreground
/// color code for white.
pub open spec fn highlight_pre() -> Seq<char> {
    seq![
        '\u{1b}', '[', '4', '8', ';', '2', ';', '0', '2', '3', ';', '0', '6', '9', ';', '0', '3',
        '7', 'm', '\u{1b}', '[', '3', '7', 'm',
    ]
}

/// The control sequence written after the highlighted slice: the foreground
/// reset, then the background reset.
pub open spec fn highlight_post() -> Seq<char> {
    seq!['\u{1b}', '[', '3', '9', 'm', '\u{1b}', '[', '4', '9', 'm']
}

/// Relies on owo_colors: a value given a constant foreground and background
/// color displays as the background code, the foreground code, the value,
/// the foreground reset and the background reset, in that order.
#[verifier::external_body]
pub(crate) fn style_row_text(prefix: &String, middle: &String, suffix: &String) -> (r: String)
    ensures
        r@ == prefix@ + highlight_pre() + middle@ + highlight_post() + suffix@,
{
    format!(
        "{}{}{}",
        prefix,
        middle.as_str().fg::<White>().bg_rgb::<0x17, 0x45, 0x25>(),
        suffix
    )
}

/// The text that the table renderer produces for the given cell rows: a
/// function of the cell strings alone.
pub uninterp spec fn table_of(cells: Seq<Seq<Seq<char>>>) -> Seq<char>;

/// Relies on tabled: building a table from string records and rendering it
/// with the sharp style depends on the cell strings alone.
#[verifier::external_body]
pub(crate) fn render_table(records: Vec<Vec<String>>) -> (r: String)
    ensures
        r@ == table_of(records.deep_view()),
{
    let mut table = tabled::builder::Builder::from(records).build();
    table.with(tabled::settings::Style::sharp());
    table.to_string()
}

/// Relies on std::io::stdout: writes the text and a trailing newline to the
/// standard output stream.
#[verifier::external_body]
pub(crate) fn emit_line(s: &String) {
    let mut out = std::io::stdout();
    let _ = writeln!(out, "{}", s);
}

} // verus!
