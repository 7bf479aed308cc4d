use vstd::prelude::*;

use super::markdown_elements::{elements_view, lemma_paragraph_view, Element, MarkdownElement};
use crate::text::{string_of, to_chars, trim, trimmed};
use vstd::string::StringExecFns;

verus! {

// ---------------------------------------------------------------------------
// The grammar of a page.
//
// Every rule reads the characters `s[i..e]` of the page, from position `i` up
// to the end `e` of the current window, and tells where it stops and what it
// read, or that it does not apply there (`None`).
// ---------------------------------------------------------------------------
/// The character classes that the grammar reads runs of.
#[derive(Clone, Copy)]
pub enum CharClass {
    /// a space or a tab
    Blank,
    /// a space, a tab, a carriage return or a line feed
    MultiSpace,
    /// an ASCII digit
    Digit,
    Hash,
    Dash,
    Underscore,
    /// a character that may appear in a link
    Url,
    /// a character that may appear between the brackets of a wiki link
    Wiki,
    /// a character of the text of a link or of an image
    LinkText,
    /// a character of plain text
    Plain,
    /// a character of the language hint of a code block
    Language,
    NotPipe,
}

/// The low byte of the code of `c` (what `c as u8` keeps).
pub open spec fn low_byte(c: char) -> u32 {
    (c as u32) % 256
}

pub open spec fn is_alphanumeric_byte(b: u32) -> bool {
    (0x41 <= b <= 0x5a) || (0x61 <= b <= 0x7a) || (0x30 <= b <= 0x39)
}

pub open spec fn is_space_byte(b: u32) -> bool {
    b == 0x20 || b == 0x09
}

pub open spec fn is_url_char(c: char) -> bool {
    ||| c == '/'
    ||| c == '?'
    ||| c == '#'
    ||| c == '.'
    ||| c == '-'
    ||| c == ':'
    ||| c == '_'
    ||| c == '@'
    ||| c == '+'
    ||| c == '&'
    ||| c == '='
    ||| is_alphanumeric_byte(low_byte(c))
}

/// The characters that end a run of plain text.
pub open spec fn is_special(c: char) -> bool {
    c == '\\' || c == '_' || c == '*' || c == '['
}

pub open spec fn in_class(k: CharClass, c: char) -> bool {
    match k {
        CharClass::Blank => c == ' ' || c == '\t',
        CharClass::MultiSpace => c == ' ' || c == '\t' || c == '\r' || c == '\n',
        CharClass::Digit => '0' <= c <= '9',
        CharClass::Hash => c == '#',
        CharClass::Dash => c == '-',
        CharClass::Underscore => c == '_',
        CharClass::Url => is_url_char(c),
        CharClass::Wiki => is_url_char(c) || is_space_byte(low_byte(c)) || c == '|',
        CharClass::LinkText => c != ']' && c != '\\',
        CharClass::Plain => !is_space_byte(low_byte(c)) && low_byte(c) != 0x0a && !is_special(c),
        CharClass::Language => !is_space_byte(low_byte(c)) && low_byte(c) != 0x0a,
        CharClass::NotPipe => c != '|',
    }
}

/// The length of the longest run of characters of class `k` from `i` on.
pub open spec fn span(s: Seq<char>, i: int, e: int, k: CharClass) -> nat
    decreases e - i,
{
    if 0 <= i < e && i < s.len() && in_class(k, s[i]) {
        1 + span(s, i + 1, e, k)
    } else {
        0
    }
}

/// The position after the spaces and tabs that start at `i`.
pub open spec fn blanks(s: Seq<char>, i: int, e: int) -> int {
    i + span(s, i, e, CharClass::Blank)
}

/// `t` stands in the window at position `i`.
pub open spec fn starts_at(s: Seq<char>, i: int, e: int, t: Seq<char>) -> bool {
    0 <= i && i + t.len() <= e && e <= s.len() && s.subrange(i, i + t.len()) =~= t
}

/// The first position from `i` on where `t` stands in the window.
pub open spec fn find(s: Seq<char>, i: int, e: int, t: Seq<char>) -> Option<int>
    decreases e - i,
{
    if i < 0 || i + t.len() > e {
        None
    } else if starts_at(s, i, e, t) {
        Some(i)
    } else if i < e {
        find(s, i + 1, e, t)
    } else {
        None
    }
}

pub open spec fn newline_tag() -> Seq<char> {
    seq!['\n']
}

/// A backslash and the character (or the three backticks) that it escapes.
pub open spec fn escape_at(s: Seq<char>, i: int, e: int) -> Option<(int, Seq<char>)> {
    if starts_at(s, i, e, seq!['\\']) {
        let j = i + 1;
        if starts_at(s, j, e, seq!['*']) {
            Some((j + 1, seq!['*']))
        } else if starts_at(s, j, e, seq!['_']) {
            Some((j + 1, seq!['_']))
        } else if starts_at(s, j, e, seq!['-']) {
            Some((j + 1, seq!['-']))
        } else if starts_at(s, j, e, seq!['`', '`', '`']) {
            Some((j + 3, seq!['`', '`', '`']))
        } else if starts_at(s, j, e, seq!['`']) {
            Some((j + 1, seq!['`']))
        } else {
            None
        }
    } else {
        None
    }
}

/// A run of escapes and characters of class `k` (a class without the
/// backslash): where it stops, and the text it stands for.
pub open spec fn escaped_run(s: Seq<char>, i: int, e: int, k: CharClass) -> (int, Seq<char>)
    decreases e - i,
{
    match escape_at(s, i, e) {
        Some((j, t)) => if i < j <= e {
            let r = escaped_run(s, j, e, k);
            (r.0, t + r.1)
        } else {
            (i, seq![])
        },
        None => if 0 <= i < e && e <= s.len() && in_class(k, s[i]) {
            let r = escaped_run(s, i + 1, e, k);
            (r.0, seq![s[i]] + r.1)
        } else {
            (i, seq![])
        },
    }
}

/// `%-%TOC%-%`
pub open spec fn toc_tag() -> Seq<char> {
    seq!['%', '-', '%', 'T', 'O', 'C', '%', '-', '%']
}

pub open spec fn toc_marker_at(s: Seq<char>, i: int, e: int) -> Option<(int, Element)> {
    if starts_at(s, i, e, toc_tag()) {
        Some((i + 9, Element::TocMarker))
    } else {
        None
    }
}

/// `#`s, blanks, and the rest of the line.
pub open spec fn header_at(s: Seq<char>, i: int, e: int) -> Option<(int, Element)> {
    let h = span(s, i, e, CharClass::Hash);
    let j = i + h;
    let k = blanks(s, j, e);
    if h == 0 || k == j {
        None
    } else {
        match find(s, k, e, newline_tag()) {
            Some(f) => Some((f, Element::Heading(h, s.subrange(k, f)))),
            None => None,
        }
    }
}

/// A list item: a paragraph that ends the line.
pub open spec fn list_item_rest(s: Seq<char>, k: int, e: int) -> Option<(int, Element)> {
    match paragraph_at(s, k, e) {
        Some((f, para)) => if 0 <= f < e && e <= s.len() && s[f] == '\n' {
            Some((f + 1, para))
        } else {
            None
        },
        None => None,
    }
}

/// Blanks, `-`, `*` or `+`, blanks, and a paragraph that ends the line.
pub open spec fn unordered_list_item_at(s: Seq<char>, i: int, e: int) -> Option<(int, Element)> {
    let j = blanks(s, i, e);
    if 0 <= j < e && e <= s.len() && (s[j] == '-' || s[j] == '*' || s[j] == '+') {
        let k = blanks(s, j + 1, e);
        if k == j + 1 {
            None
        } else {
            match list_item_rest(s, k, e) {
                Some((f, para)) => Some(
                    (f, Element::UnorderedList((j - i + 1) as nat, Box::new(para))),
                ),
                None => None,
            }
        }
    } else {
        None
    }
}

/// Blanks, digits, `.`, blanks, and a paragraph that ends the line.
pub open spec fn ordered_list_item_at(s: Seq<char>, i: int, e: int) -> Option<(int, Element)> {
    let j = blanks(s, i, e);
    let d = span(s, j, e, CharClass::Digit);
    let k = j + d;
    if d > 0 && 0 <= k < e && e <= s.len() && s[k] == '.' {
        let m = blanks(s, k + 1, e);
        if m == k + 1 {
            None
        } else {
            match list_item_rest(s, m, e) {
                Some((f, para)) => Some(
                    (f, Element::OrderedList((j - i + 1) as nat, Box::new(para))),
                ),
                None => None,
            }
        }
    } else {
        None
    }
}

/// `![[url]]`, with blanks around, and the white space after it.
pub open spec fn obsidian_image_at(s: Seq<char>, i: int, e: int) -> Option<(int, Element)> {
    let a = blanks(s, i, e);
    if starts_at(s, a, e, seq!['!', '[', '[']) {
        let b = blanks(s, a + 3, e);
        let c = b + span(s, b, e, CharClass::Url);
        let d = blanks(s, c, e);
        if c > b && starts_at(s, d, e, seq![']', ']']) {
            let g = d + 2;
            Some(
                (
                    g + span(s, g, e, CharClass::MultiSpace),
                    Element::Image(seq![], s.subrange(b, c)),
                ),
            )
        } else {
            None
        }
    } else {
        None
    }
}

/// `(url)`, with blanks before the closing parenthesis and the white space
/// after it: where it stops.
pub open spec fn link_target_end(s: Seq<char>, d: int, e: int) -> Option<int> {
    let b = d + 1;
    let f = b + span(s, b, e, CharClass::Url);
    let g = blanks(s, f, e);
    if starts_at(s, d, e, seq!['(']) && f > b && starts_at(s, g, e, seq![')']) {
        Some(g + 1 + span(s, g + 1, e, CharClass::MultiSpace))
    } else {
        None
    }
}

/// The url of a link target that starts at `d`.
pub open spec fn link_target(s: Seq<char>, d: int, e: int) -> Seq<char> {
    s.subrange(d + 1, d + 1 + span(s, d + 1, e, CharClass::Url))
}

/// `![alt text](url)`, with blanks around.
pub open spec fn image_at(s: Seq<char>, i: int, e: int) -> Option<(int, Element)> {
    let a = blanks(s, i, e);
    if starts_at(s, a, e, seq!['!', '[']) {
        let b = blanks(s, a + 2, e);
        let r = escaped_run(s, b, e, CharClass::LinkText);
        let d = blanks(s, r.0, e);
        if r.0 > b && starts_at(s, d, e, seq![']']) {
            match link_target_end(s, d + 1, e) {
                Some(g) => Some((g, Element::Image(r.1, link_target(s, d + 1, e)))),
                None => None,
            }
        } else {
            None
        }
    } else {
        None
    }
}

/// The link `[[url | text]]` once its inside `s[b..c]` is known.
pub open spec fn wikilink_of(s: Seq<char>, b: int, c: int) -> Element {
    let p = b + span(s, b, c, CharClass::NotPipe);
    if p < c {
        let q = blanks(s, p + 1, c);
        Element::WikiLink(trim(s.subrange(q, c)), trim(s.subrange(b, p)))
    } else {
        Element::WikiLink(trim(s.subrange(b, c)), trim(s.subrange(b, c)))
    }
}

/// `[[url]]` or `[[url|text]]`, with blanks around.
pub open spec fn wikilink_at(s: Seq<char>, i: int, e: int) -> Option<(int, Element)> {
    let a = blanks(s, i, e);
    if starts_at(s, a, e, seq!['[', '[']) {
        let b = blanks(s, a + 2, e);
        let c = b + span(s, b, e, CharClass::Wiki);
        let d = blanks(s, c, e);
        if c > b && starts_at(s, d, e, seq![']', ']']) {
            Some((d + 2, wikilink_of(s, b, c)))
        } else {
            None
        }
    } else {
        None
    }
}

/// `[text](url)`.
pub open spec fn hyperlink_at(s: Seq<char>, i: int, e: int) -> Option<(int, Element)> {
    if starts_at(s, i, e, seq!['[']) {
        let b = blanks(s, i + 1, e);
        let r = escaped_run(s, b, e, CharClass::LinkText);
        let d = blanks(s, r.0, e);
        if r.0 > b && starts_at(s, d, e, seq![']']) {
            match link_target_end(s, d + 1, e) {
                Some(g) => Some((g, Element::Hyperlink(trim(r.1), link_target(s, d + 1, e)))),
                None => None,
            }
        } else {
            None
        }
    } else {
        None
    }
}

/// ```` ```hint ````, the rest of that line, white space, the code, and a
/// line that starts with ```` ``` ````.
pub open spec fn codeblock_at(s: Seq<char>, i: int, e: int) -> Option<(int, Element)> {
    let b = i + 3;
    let c = b + span(s, b, e, CharClass::Language);
    if starts_at(s, i, e, seq!['`', '`', '`']) && c > b {
        match find(s, c, e, newline_tag()) {
            Some(f) => {
                let g = f + span(s, f, e, CharClass::MultiSpace);
                match find(s, g, e, seq!['\n', '`', '`', '`']) {
                    Some(h) => if h > g {
                        Some((h + 4, Element::Codeblock(s.subrange(b, c), s.subrange(g, h))))
                    } else {
                        None
                    },
                    None => None,
                }
            },
            None => None,
        }
    } else {
        None
    }
}

/// The text between `open` and the first `close` after it.
pub open spec fn delimited_at(s: Seq<char>, i: int, e: int, open: Seq<char>, close: Seq<char>) -> Option<
    (int, Seq<char>),
> {
    if starts_at(s, i, e, open) {
        match find(s, i + open.len(), e, close) {
            Some(f) => Some((f + close.len(), s.subrange(i + open.len(), f))),
            None => None,
        }
    } else {
        None
    }
}

pub open spec fn bold_italics_text_at(s: Seq<char>, i: int, e: int) -> Option<(int, Seq<char>)> {
    match delimited_at(s, i, e, seq!['*', '*', '*'], seq!['*', '*', '*']) {
        Some(r) => Some(r),
        None => match delimited_at(s, i, e, seq!['_', '_', '_'], seq!['_', '_', '_']) {
            Some(r) => Some(r),
            None => match delimited_at(s, i, e, seq!['*', '_', '_'], seq!['_', '_', '*']) {
                Some(r) => Some(r),
                None => match delimited_at(s, i, e, seq!['_', '_', '*'], seq!['*', '_', '_']) {
                    Some(r) => Some(r),
                    None => match delimited_at(s, i, e, seq!['_', '*', '*'], seq!['*', '*', '_']) {
                        Some(r) => Some(r),
                        None => delimited_at(s, i, e, seq!['*', '*', '_'], seq!['_', '*', '*']),
                    },
                },
            },
        },
    }
}

pub open spec fn bold_italics_at(s: Seq<char>, i: int, e: int) -> Option<(int, Element)> {
    match bold_italics_text_at(s, i, e) {
        Some((j, t)) => Some((j, Element::BoldItalics(t))),
        None => None,
    }
}

pub open spec fn inline_code_at(s: Seq<char>, i: int, e: int) -> Option<(int, Element)> {
    match delimited_at(s, i, e, seq!['`'], seq!['`']) {
        Some((j, t)) => Some((j, Element::InlineCode(t))),
        None => None,
    }
}

pub open spec fn bold_at(s: Seq<char>, i: int, e: int) -> Option<(int, Element)> {
    match delimited_at(s, i, e, seq!['*', '*'], seq!['*', '*']) {
        Some((j, t)) => Some((j, Element::Bold(t))),
        None => match delimited_at(s, i, e, seq!['_', '_'], seq!['_', '_']) {
            Some((j, t)) => Some((j, Element::Bold(t))),
            None => None,
        },
    }
}

pub open spec fn italics_at(s: Seq<char>, i: int, e: int) -> Option<(int, Element)> {
    match delimited_at(s, i, e, seq!['*'], seq!['*']) {
        Some((j, t)) => Some((j, Element::Italics(t))),
        None => match delimited_at(s, i, e, seq!['_'], seq!['_']) {
            Some((j, t)) => Some((j, Element::Italics(t))),
            None => None,
        },
    }
}

/// `\n` or `\r\n`.
pub open spec fn new_line_at(s: Seq<char>, i: int, e: int) -> Option<(int, Element)> {
    if starts_at(s, i, e, newline_tag()) {
        Some((i + 1, Element::Newline))
    } else if starts_at(s, i, e, seq!['\r', '\n']) {
        Some((i + 2, Element::Newline))
    } else {
        None
    }
}

pub open spec fn plain_text_at(s: Seq<char>, i: int, e: int) -> Option<(int, Element)> {
    let r = escaped_run(s, i, e, CharClass::Plain);
    if r.0 > i {
        Some((r.0, Element::PlainText(r.1)))
    } else {
        None
    }
}

pub open spec fn whitespace_at(s: Seq<char>, i: int, e: int) -> Option<(int, Element)> {
    let j = blanks(s, i, e);
    if j > i {
        Some((j, Element::Whitespace(s.subrange(i, j))))
    } else {
        None
    }
}

/// Three or more `c` and a line feed.
pub open spec fn rule_of_at(s: Seq<char>, i: int, e: int, c: char, k: CharClass) -> Option<
    (int, Element),
> {
    let j = i + 3 + span(s, i + 3, e, k);
    if starts_at(s, i, e, seq![c, c, c]) && starts_at(s, j, e, newline_tag()) {
        Some((j + 1, Element::HorizontalLine))
    } else {
        None
    }
}

pub open spec fn horizontal_line_at(s: Seq<char>, i: int, e: int) -> Option<(int, Element)> {
    match rule_of_at(s, i, e, '-', CharClass::Dash) {
        Some(r) => Some(r),
        None => rule_of_at(s, i, e, '_', CharClass::Underscore),
    }
}

/// The first of the inline rules that applies at `i`.
#[verifier::opaque]
pub open spec fn inline_at(s: Seq<char>, i: int, e: int) -> Option<(int, Element)> {
    match obsidian_image_at(s, i, e) {
        Some(r) => Some(r),
        None => match image_at(s, i, e) {
            Some(r) => Some(r),
            None => match wikilink_at(s, i, e) {
                Some(r) => Some(r),
                None => match hyperlink_at(s, i, e) {
                    Some(r) => Some(r),
                    None => match inline_code_at(s, i, e) {
                        Some(r) => Some(r),
                        None => match bold_italics_at(s, i, e) {
                            Some(r) => Some(r),
                            None => match bold_at(s, i, e) {
                                Some(r) => Some(r),
                                None => match italics_at(s, i, e) {
                                    Some(r) => Some(r),
                                    None => match whitespace_at(s, i, e) {
                                        Some(r) => Some(r),
                                        None => plain_text_at(s, i, e),
                                    },
                                },
                            },
                        },
                    },
                },
            },
        },
    }
}

/// The inline elements read one after the other from `i` on, as long as one
/// of the inline rules applies.
pub open spec fn inline_items(s: Seq<char>, i: int, e: int) -> Seq<Element>
    decreases e - i,
{
    match inline_at(s, i, e) {
        Some((j, el)) => if i < j <= e {
            seq![el] + inline_items(s, j, e)
        } else {
            seq![]
        },
        None => seq![],
    }
}

/// A nonempty line read as inline elements; what the inline rules do not
/// read at the end of the line is dropped. The line feed is not consumed.
pub open spec fn paragraph_at(s: Seq<char>, i: int, e: int) -> Option<(int, Element)> {
    match find(s, i, e, newline_tag()) {
        Some(f) => {
            let items = inline_items(s, i, f);
            if f > i && items.len() > 0 {
                Some((f, Element::Paragraph(items)))
            } else {
                None
            }
        },
        None => None,
    }
}

/// The first of the block rules that applies at `i`.
#[verifier::opaque]
pub open spec fn block_at(s: Seq<char>, i: int, e: int) -> Option<(int, Element)> {
    match toc_marker_at(s, i, e) {
        Some(r) => Some(r),
        None => match header_at(s, i, e) {
            Some(r) => Some(r),
            None => match ordered_list_item_at(s, i, e) {
                Some(r) => Some(r),
                None => match unordered_list_item_at(s, i, e) {
                    Some(r) => Some(r),
                    None => match codeblock_at(s, i, e) {
                        Some(r) => Some(r),
                        None => match new_line_at(s, i, e) {
                            Some(r) => Some(r),
                            None => match horizontal_line_at(s, i, e) {
                                Some(r) => Some(r),
                                None => paragraph_at(s, i, e),
                            },
                        },
                    },
                },
            },
        },
    }
}

/// The blocks read one after the other from `i` on, as long as one of the
/// block rules applies, and where the reading stopped.
pub open spec fn blocks_from(s: Seq<char>, i: int, e: int) -> (Seq<Element>, int)
    decreases e - i,
{
    match block_at(s, i, e) {
        Some((j, el)) => if i < j <= e {
            let r = blocks_from(s, j, e);
            (seq![el] + r.0, r.1)
        } else {
            (seq![], i)
        },
        None => (seq![], i),
    }
}

/// What `parse_page` gives for a page: `None` where no block rule applies at
/// the start of the page and a line feed; otherwise the blocks read, or the
/// error that names the text that could not be read.
pub open spec fn parse_page_result(page: Seq<char>) -> Option<Result<Seq<Element>, Seq<char>>> {
    let m = page.push('\n');
    let r = blocks_from(m, 0, m.len() as int);
    if r.0.len() == 0 {
        None
    } else if r.1 == m.len() {
        Some(Ok(r.0))
    } else {
        Some(Err("Could not parse string: "@ + m.subrange(r.1, m.len() as int)))
    }
}

// ---------------------------------------------------------------------------
// Reading the grammar.
// ---------------------------------------------------------------------------
/// The model of what an element reader returns: where it stopped, and the
/// element it read.
pub open spec fn read_view(r: Option<(usize, MarkdownElement)>) -> Option<(int, Element)> {
    match r {
        Some((j, el)) => Some((j as int, el@)),
        None => None,
    }
}

/// What an element reader at `i` may return: a stop after `i`, inside the
/// window.
pub open spec fn read_moves(r: Option<(usize, MarkdownElement)>, i: usize, e: usize) -> bool {
    r matches Some((j, _)) ==> i < j <= e
}

fn is_url(c: char) -> (b: bool)
    ensures
        b == is_url_char(c),
{
    let lb = (c as u32) % 256;
    c == '/' || c == '?' || c == '#' || c == '.' || c == '-' || c == ':' || c == '_' || c == '@'
        || c == '+' || c == '&' || c == '=' || (0x41 <= lb && lb <= 0x5a) || (0x61 <= lb && lb
        <= 0x7a) || (0x30 <= lb && lb <= 0x39)
}

fn class_contains(k: CharClass, c: char) -> (b: bool)
    ensures
        b == in_class(k, c),
{
    let lb = (c as u32) % 256;
    match k {
        CharClass::Blank => c == ' ' || c == '\t',
        CharClass::MultiSpace => c == ' ' || c == '\t' || c == '\r' || c == '\n',
        CharClass::Digit => '0' <= c && c <= '9',
        CharClass::Hash => c == '#',
        CharClass::Dash => c == '-',
        CharClass::Underscore => c == '_',
        CharClass::Url => is_url(c),
        CharClass::Wiki => is_url(c) || lb == 0x20 || lb == 0x09 || c == '|',
        CharClass::LinkText => c != ']' && c != '\\',
        CharClass::Plain => !(lb == 0x20 || lb == 0x09) && lb != 0x0a && !(c == '\\' || c == '_'
            || c == '*' || c == '['),
        CharClass::Language => !(lb == 0x20 || lb == 0x09) && lb != 0x0a,
        CharClass::NotPipe => c != '|',
    }
}

fn span_of(v: &Vec<char>, i: usize, e: usize, k: CharClass) -> (n: usize)
    requires
        i <= e <= v@.len(),
    ensures
        n == span(v@, i as int, e as int, k),
        i + n <= e,
{
    let mut j = i;
    while j < e && class_contains(k, v[j])
        invariant
            i <= j <= e <= v@.len(),
            span(v@, i as int, e as int, k) == (j - i) + span(v@, j as int, e as int, k),
        decreases e - j,
    {
        j = j + 1;
    }
    j - i
}

fn blanks_from(v: &Vec<char>, i: usize, e: usize) -> (j: usize)
    requires
        i <= e <= v@.len(),
    ensures
        j == blanks(v@, i as int, e as int),
        i <= j <= e,
{
    i + span_of(v, i, e, CharClass::Blank)
}

pub(crate) fn tag_at(v: &Vec<char>, i: usize, e: usize, t: &[char]) -> (b: bool)
    requires
        i <= e <= v@.len(),
    ensures
        b == starts_at(v@, i as int, e as int, t@),
{
    if t.len() > e - i {
        return false;
    }
    let mut k: usize = 0;
    while k < t.len()
        invariant
            k <= t@.len(),
            i + t@.len() <= e <= v@.len(),
            forall|m: int| 0 <= m < k ==> v@[i + m] == t@[m],
        decreases t@.len() - k,
    {
        if v[i + k] != t[k] {
            assert(v@.subrange(i as int, i + t@.len())[k as int] != t@[k as int]);
            return false;
        }
        k = k + 1;
    }
    assert(v@.subrange(i as int, i + t@.len()) =~= t@);
    true
}

pub open spec fn pos_view(r: Option<usize>) -> Option<int> {
    match r {
        Some(f) => Some(f as int),
        None => None,
    }
}

pub(crate) fn find_tag(v: &Vec<char>, i: usize, e: usize, t: &[char]) -> (r: Option<usize>)
    requires
        i <= e <= v@.len(),
    ensures
        pos_view(r) == find(v@, i as int, e as int, t@),
        r matches Some(f) ==> i <= f && f + t@.len() <= e && starts_at(v@, f as int, e as int, t@),
{
    let mut j = i;
    loop
        invariant
            i <= j <= e <= v@.len(),
            find(v@, i as int, e as int, t@) == find(v@, j as int, e as int, t@),
        decreases e - j,
    {
        if t.len() > e - j {
            return None;
        }
        if tag_at(v, j, e, t) {
            return Some(j);
        }
        if j == e {
            return None;
        }
        j = j + 1;
    }
}

fn escape(v: &Vec<char>, i: usize, e: usize) -> (r: Option<(usize, Vec<char>)>)
    requires
        i <= e <= v@.len(),
    ensures
        match r {
            Some((j, t)) => escape_at(v@, i as int, e as int) == Some((j as int, t@)) && i < j
                <= e,
            None => escape_at(v@, i as int, e as int) is None,
        },
{
    if !tag_at(v, i, e, &['\\']) {
        return None;
    }
    let j = i + 1;
    let mut t: Vec<char> = Vec::new();
    if tag_at(v, j, e, &['*']) {
        t.push('*');
        assert(t@ =~= seq!['*']);
        Some((j + 1, t))
    } else if tag_at(v, j, e, &['_']) {
        t.push('_');
        assert(t@ =~= seq!['_']);
        Some((j + 1, t))
    } else if tag_at(v, j, e, &['-']) {
        t.push('-');
        assert(t@ =~= seq!['-']);
        Some((j + 1, t))
    } else if tag_at(v, j, e, &['`', '`', '`']) {
        t.push('`');
        t.push('`');
        t.push('`');
        assert(t@ =~= seq!['`', '`', '`']);
        Some((j + 3, t))
    } else if tag_at(v, j, e, &['`']) {
        t.push('`');
        assert(t@ =~= seq!['`']);
        Some((j + 1, t))
    } else {
        None
    }
}

fn escaped_run_of(v: &Vec<char>, i: usize, e: usize, k: CharClass) -> (r: (usize, Vec<char>))
    requires
        i <= e <= v@.len(),
    ensures
        escaped_run(v@, i as int, e as int, k) == (r.0 as int, r.1@),
        i <= r.0 <= e,
{
    let mut j = i;
    let mut acc: Vec<char> = Vec::new();
    loop
        invariant
            i <= j <= e <= v@.len(),
            escaped_run(v@, i as int, e as int, k).0 == escaped_run(v@, j as int, e as int, k).0,
            escaped_run(v@, i as int, e as int, k).1 == acc@ + escaped_run(
                v@,
                j as int,
                e as int,
                k,
            ).1,
        decreases e - j,
    {
        match escape(v, j, e) {
            Some((n, t)) => {
                let ghost before = acc@;
                let ghost tv = t@;
                let mut t = t;
                acc.append(&mut t);
                assert(before + (tv + escaped_run(v@, n as int, e as int, k).1) =~= acc@
                    + escaped_run(v@, n as int, e as int, k).1);
                j = n;
            },
            None => {
                if j < e && class_contains(k, v[j]) {
                    let ghost before = acc@;
                    acc.push(v[j]);
                    assert(before + (seq![v@[j as int]] + escaped_run(v@, j + 1, e as int, k).1)
                        =~= acc@ + escaped_run(v@, j + 1, e as int, k).1);
                    j = j + 1;
                } else {
                    assert(acc@ + escaped_run(v@, j as int, e as int, k).1 =~= acc@);
                    return (j, acc);
                }
            },
        }
    }
}

fn link_target_end_of(v: &Vec<char>, d: usize, e: usize) -> (r: Option<usize>)
    requires
        d <= e <= v@.len(),
    ensures
        pos_view(r) == link_target_end(v@, d as int, e as int),
        r matches Some(g) ==> d < g <= e && d + 1 + span(v@, d + 1, e as int, CharClass::Url) <= e,
{
    if !tag_at(v, d, e, &['(']) {
        return None;
    }
    let b = d + 1;
    let f = b + span_of(v, b, e, CharClass::Url);
    let g = blanks_from(v, f, e);
    if f > b && tag_at(v, g, e, &[')']) {
        Some(g + 1 + span_of(v, g + 1, e, CharClass::MultiSpace))
    } else {
        None
    }
}

fn link_target_of(v: &Vec<char>, d: usize, e: usize) -> (res: String)
    requires
        d < e <= v@.len(),
    ensures
        res@ == link_target(v@, d as int, e as int),
{
    let u = span_of(v, d + 1, e, CharClass::Url);
    string_of(v, d + 1, d + 1 + u)
}

fn obsidian_image_parser(v: &Vec<char>, i: usize, e: usize) -> (r: Option<(usize, MarkdownElement)>)
    requires
        i <= e <= v@.len(),
    ensures
        read_view(r) == obsidian_image_at(v@, i as int, e as int),
        read_moves(r, i, e),
{
    let a = blanks_from(v, i, e);
    if !tag_at(v, a, e, &['!', '[', '[']) {
        return None;
    }
    let b = blanks_from(v, a + 3, e);
    let c = b + span_of(v, b, e, CharClass::Url);
    let d = blanks_from(v, c, e);
    if c > b && tag_at(v, d, e, &[']', ']']) {
        let g = d + 2;
        let end = g + span_of(v, g, e, CharClass::MultiSpace);
        let url = string_of(v, b, c);
        Some((end, MarkdownElement::Image(String::new(), url)))
    } else {
        None
    }
}

fn image_parser(v: &Vec<char>, i: usize, e: usize) -> (r: Option<(usize, MarkdownElement)>)
    requires
        i <= e <= v@.len(),
    ensures
        read_view(r) == image_at(v@, i as int, e as int),
        read_moves(r, i, e),
{
    let a = blanks_from(v, i, e);
    if !tag_at(v, a, e, &['!', '[']) {
        return None;
    }
    let b = blanks_from(v, a + 2, e);
    let (c, alt) = escaped_run_of(v, b, e, CharClass::LinkText);
    let d = blanks_from(v, c, e);
    if c > b && tag_at(v, d, e, &[']']) {
        match link_target_end_of(v, d + 1, e) {
            Some(g) => {
                let text = string_of(&alt, 0, alt.len());
                assert(alt@.subrange(0, alt@.len() as int) =~= alt@);
                let url = link_target_of(v, d + 1, e);
                Some((g, MarkdownElement::Image(text, url)))
            },
            None => None,
        }
    } else {
        None
    }
}

fn wikilink_of_range(v: &Vec<char>, b: usize, c: usize) -> (el: MarkdownElement)
    requires
        b <= c <= v@.len(),
    ensures
        el@ == wikilink_of(v@, b as int, c as int),
{
    let p = b + span_of(v, b, c, CharClass::NotPipe);
    if p < c {
        let q = blanks_from(v, p + 1, c);
        MarkdownElement::WikiLink(trimmed(v, q, c), trimmed(v, b, p))
    } else {
        MarkdownElement::WikiLink(trimmed(v, b, c), trimmed(v, b, c))
    }
}

fn wikilink_parser(v: &Vec<char>, i: usize, e: usize) -> (r: Option<(usize, MarkdownElement)>)
    requires
        i <= e <= v@.len(),
    ensures
        read_view(r) == wikilink_at(v@, i as int, e as int),
        read_moves(r, i, e),
{
    let a = blanks_from(v, i, e);
    if !tag_at(v, a, e, &['[', '[']) {
        return None;
    }
    let b = blanks_from(v, a + 2, e);
    let c = b + span_of(v, b, e, CharClass::Wiki);
    let d = blanks_from(v, c, e);
    if c > b && tag_at(v, d, e, &[']', ']']) {
        Some((d + 2, wikilink_of_range(v, b, c)))
    } else {
        None
    }
}

fn hyperlink_parser(v: &Vec<char>, i: usize, e: usize) -> (r: Option<(usize, MarkdownElement)>)
    requires
        i <= e <= v@.len(),
    ensures
        read_view(r) == hyperlink_at(v@, i as int, e as int),
        read_moves(r, i, e),
{
    if !tag_at(v, i, e, &['[']) {
        return None;
    }
    let b = blanks_from(v, i + 1, e);
    let (c, alt) = escaped_run_of(v, b, e, CharClass::LinkText);
    let d = blanks_from(v, c, e);
    if c > b && tag_at(v, d, e, &[']']) {
        match link_target_end_of(v, d + 1, e) {
            Some(g) => {
                let text = trimmed(&alt, 0, alt.len());
                assert(alt@.subrange(0, alt@.len() as int) =~= alt@);
                let url = link_target_of(v, d + 1, e);
                Some((g, MarkdownElement::Hyperlink(text, url)))
            },
            None => None,
        }
    } else {
        None
    }
}

fn delimited_of(v: &Vec<char>, i: usize, e: usize, open: &[char], close: &[char]) -> (r: Option<
    (usize, String),
>)
    requires
        i <= e <= v@.len(),
        open@.len() > 0,
    ensures
        match r {
            Some((j, t)) => delimited_at(v@, i as int, e as int, open@, close@) == Some(
                (j as int, t@),
            ) && i < j <= e,
            None => delimited_at(v@, i as int, e as int, open@, close@) is None,
        },
{
    if !tag_at(v, i, e, open) {
        return None;
    }
    let a = i + open.len();
    match find_tag(v, a, e, close) {
        Some(f) => Some((f + close.len(), string_of(v, a, f))),
        None => None,
    }
}

fn bold_italics_parser(v: &Vec<char>, i: usize, e: usize) -> (r: Option<(usize, MarkdownElement)>)
    requires
        i <= e <= v@.len(),
    ensures
        read_view(r) == bold_italics_at(v@, i as int, e as int),
        read_moves(r, i, e),
{
    let mut t = delimited_of(v, i, e, &['*', '*', '*'], &['*', '*', '*']);
    if t.is_none() {
        t = delimited_of(v, i, e, &['_', '_', '_'], &['_', '_', '_']);
    }
    if t.is_none() {
        t = delimited_of(v, i, e, &['*', '_', '_'], &['_', '_', '*']);
    }
    if t.is_none() {
        t = delimited_of(v, i, e, &['_', '_', '*'], &['*', '_', '_']);
    }
    if t.is_none() {
        t = delimited_of(v, i, e, &['_', '*', '*'], &['*', '*', '_']);
    }
    if t.is_none() {
        t = delimited_of(v, i, e, &['*', '*', '_'], &['_', '*', '*']);
    }
    match t {
        Some((j, text)) => Some((j, MarkdownElement::BoldItalics(text))),
        None => None,
    }
}

fn inline_code_parser(v: &Vec<char>, i: usize, e: usize) -> (r: Option<(usize, MarkdownElement)>)
    requires
        i <= e <= v@.len(),
    ensures
        read_view(r) == inline_code_at(v@, i as int, e as int),
        read_moves(r, i, e),
{
    let tick: [char; 1] = ['`'];
    assert(tick@ =~= seq!['`']);
    match delimited_of(v, i, e, &tick, &tick) {
        Some((j, text)) => Some((j, MarkdownElement::InlineCode(text))),
        None => None,
    }
}

fn bold_parser(v: &Vec<char>, i: usize, e: usize) -> (r: Option<(usize, MarkdownElement)>)
    requires
        i <= e <= v@.len(),
    ensures
        read_view(r) == bold_at(v@, i as int, e as int),
        read_moves(r, i, e),
{
    match delimited_of(v, i, e, &['*', '*'], &['*', '*']) {
        Some((j, text)) => Some((j, MarkdownElement::Bold(text))),
        None => match delimited_of(v, i, e, &['_', '_'], &['_', '_']) {
            Some((j, text)) => Some((j, MarkdownElement::Bold(text))),
            None => None,
        },
    }
}

fn italics_parser(v: &Vec<char>, i: usize, e: usize) -> (r: Option<(usize, MarkdownElement)>)
    requires
        i <= e <= v@.len(),
    ensures
        read_view(r) == italics_at(v@, i as int, e as int),
        read_moves(r, i, e),
{
    let star: [char; 1] = ['*'];
    let low: [char; 1] = ['_'];
    assert(star@ =~= seq!['*']);
    assert(low@ =~= seq!['_']);
    match delimited_of(v, i, e, &star, &star) {
        Some((j, text)) => Some((j, MarkdownElement::Italics(text))),
        None => match delimited_of(v, i, e, &low, &low) {
            Some((j, text)) => Some((j, MarkdownElement::Italics(text))),
            None => None,
        },
    }
}

fn new_line_parser(v: &Vec<char>, i: usize, e: usize) -> (r: Option<(usize, MarkdownElement)>)
    requires
        i <= e <= v@.len(),
    ensures
        read_view(r) == new_line_at(v@, i as int, e as int),
        read_moves(r, i, e),
{
    if tag_at(v, i, e, &['\n']) {
        Some((i + 1, MarkdownElement::Newline))
    } else if tag_at(v, i, e, &['\r', '\n']) {
        Some((i + 2, MarkdownElement::Newline))
    } else {
        None
    }
}

fn plain_text_parser(v: &Vec<char>, i: usize, e: usize) -> (r: Option<(usize, MarkdownElement)>)
    requires
        i <= e <= v@.len(),
    ensures
        read_view(r) == plain_text_at(v@, i as int, e as int),
        read_moves(r, i, e),
{
    let (c, text) = escaped_run_of(v, i, e, CharClass::Plain);
    if c > i {
        let t = string_of(&text, 0, text.len());
        assert(text@.subrange(0, text@.len() as int) =~= text@);
        Some((c, MarkdownElement::PlainText(t)))
    } else {
        None
    }
}

fn whitespace_parser(v: &Vec<char>, i: usize, e: usize) -> (r: Option<(usize, MarkdownElement)>)
    requires
        i <= e <= v@.len(),
    ensures
        read_view(r) == whitespace_at(v@, i as int, e as int),
        read_moves(r, i, e),
{
    let j = blanks_from(v, i, e);
    if j > i {
        Some((j, MarkdownElement::Whitespace(string_of(v, i, j))))
    } else {
        None
    }
}

fn inline_parser(v: &Vec<char>, i: usize, e: usize) -> (r: Option<(usize, MarkdownElement)>)
    requires
        i <= e <= v@.len(),
    ensures
        read_view(r) == inline_at(v@, i as int, e as int),
        read_moves(r, i, e),
{
    reveal(inline_at);
    let r = obsidian_image_parser(v, i, e);
    if r.is_some() {
        return r;
    }
    let r = image_parser(v, i, e);
    if r.is_some() {
        return r;
    }
    let r = wikilink_parser(v, i, e);
    if r.is_some() {
        return r;
    }
    let r = hyperlink_parser(v, i, e);
    if r.is_some() {
        return r;
    }
    let r = inline_code_parser(v, i, e);
    if r.is_some() {
        return r;
    }
    let r = bold_italics_parser(v, i, e);
    if r.is_some() {
        return r;
    }
    let r = bold_parser(v, i, e);
    if r.is_some() {
        return r;
    }
    let r = italics_parser(v, i, e);
    if r.is_some() {
        return r;
    }
    let r = whitespace_parser(v, i, e);
    if r.is_some() {
        return r;
    }
    plain_text_parser(v, i, e)
}

fn paragraph_parser(v: &Vec<char>, i: usize, e: usize) -> (r: Option<(usize, MarkdownElement)>)
    requires
        i <= e <= v@.len(),
    ensures
        read_view(r) == paragraph_at(v@, i as int, e as int),
        read_moves(r, i, e),
        r matches Some((f, _)) ==> f < e && v@[f as int] == '\n',
{
    let nl: [char; 1] = ['\n'];
    assert(nl@ =~= newline_tag());
    let f = match find_tag(v, i, e, &nl) {
        Some(f) => f,
        None => {
            return None;
        },
    };
    if f == i {
        return None;
    }
    let mut items: Vec<MarkdownElement> = Vec::new();
    let mut k = i;
    loop
        invariant
            i <= k <= f < e <= v@.len(),
            inline_items(v@, i as int, f as int) == elements_view(items@) + inline_items(
                v@,
                k as int,
                f as int,
            ),
        ensures
            inline_items(v@, i as int, f as int) == elements_view(items@),
        decreases f - k,
    {
        match inline_parser(v, k, f) {
            Some((j, el)) => {
                let ghost before = elements_view(items@);
                items.push(el);
                assert(before + (seq![el@] + inline_items(v@, j as int, f as int)) =~= elements_view(
                    items@,
                ) + inline_items(v@, j as int, f as int));
                k = j;
            },
            None => {
                assert(elements_view(items@) + inline_items(v@, k as int, f as int) =~= elements_view(items@));
                break ;
            },
        }
    }
    if items.len() == 0 {
        return None;
    }
    proof {
        lemma_paragraph_view(items);
        assert(v@.subrange(f as int, f + 1) =~= seq!['\n']);
        assert(v@.subrange(f as int, f + 1)[0] == v@[f as int]);
    }
    Some((f, MarkdownElement::Paragraph(items)))
}

fn toc_marker_parser(v: &Vec<char>, i: usize, e: usize) -> (r: Option<(usize, MarkdownElement)>)
    requires
        i <= e <= v@.len(),
    ensures
        read_view(r) == toc_marker_at(v@, i as int, e as int),
        read_moves(r, i, e),
{
    if tag_at(v, i, e, &['%', '-', '%', 'T', 'O', 'C', '%', '-', '%']) {
        Some((i + 9, MarkdownElement::TocMarker))
    } else {
        None
    }
}

fn header_parser(v: &Vec<char>, i: usize, e: usize) -> (r: Option<(usize, MarkdownElement)>)
    requires
        i <= e <= v@.len(),
    ensures
        read_view(r) == header_at(v@, i as int, e as int),
        read_moves(r, i, e),
{
    let h = span_of(v, i, e, CharClass::Hash);
    let j = i + h;
    let k = blanks_from(v, j, e);
    if h == 0 || k == j {
        return None;
    }
    let nl: [char; 1] = ['\n'];
    assert(nl@ =~= newline_tag());
    match find_tag(v, k, e, &nl) {
        Some(f) => Some((f, MarkdownElement::Heading(h, string_of(v, k, f)))),
        None => None,
    }
}

fn list_item_rest_of(v: &Vec<char>, k: usize, e: usize) -> (r: Option<(usize, MarkdownElement)>)
    requires
        k <= e <= v@.len(),
    ensures
        read_view(r) == list_item_rest(v@, k as int, e as int),
        read_moves(r, k, e),
{
    match paragraph_parser(v, k, e) {
        Some((f, para)) => Some((f + 1, para)),
        None => None,
    }
}

fn unordered_list_item_parser(v: &Vec<char>, i: usize, e: usize) -> (r: Option<
    (usize, MarkdownElement),
>)
    requires
        i <= e <= v@.len(),
    ensures
        read_view(r) == unordered_list_item_at(v@, i as int, e as int),
        read_moves(r, i, e),
{
    let j = blanks_from(v, i, e);
    if j < e && (v[j] == '-' || v[j] == '*' || v[j] == '+') {
        let k = blanks_from(v, j + 1, e);
        if k == j + 1 {
            return None;
        }
        match list_item_rest_of(v, k, e) {
            Some((f, para)) => Some(
                (f, MarkdownElement::UnorderedList(j - i + 1, Box::new(para))),
            ),
            None => None,
        }
    } else {
        None
    }
}

fn ordered_list_item_parser(v: &Vec<char>, i: usize, e: usize) -> (r: Option<
    (usize, MarkdownElement),
>)
    requires
        i <= e <= v@.len(),
    ensures
        read_view(r) == ordered_list_item_at(v@, i as int, e as int),
        read_moves(r, i, e),
{
    let j = blanks_from(v, i, e);
    let d = span_of(v, j, e, CharClass::Digit);
    let k = j + d;
    if d > 0 && k < e && v[k] == '.' {
        let m = blanks_from(v, k + 1, e);
        if m == k + 1 {
            return None;
        }
        match list_item_rest_of(v, m, e) {
            Some((f, para)) => Some((f, MarkdownElement::OrderedList(j - i + 1, Box::new(para)))),
            None => None,
        }
    } else {
        None
    }
}

fn codeblock_parser(v: &Vec<char>, i: usize, e: usize) -> (r: Option<(usize, MarkdownElement)>)
    requires
        i <= e <= v@.len(),
    ensures
        read_view(r) == codeblock_at(v@, i as int, e as int),
        read_moves(r, i, e),
{
    if !tag_at(v, i, e, &['`', '`', '`']) {
        return None;
    }
    let b = i + 3;
    let c = b + span_of(v, b, e, CharClass::Language);
    if c == b {
        return None;
    }
    let nl: [char; 1] = ['\n'];
    assert(nl@ =~= newline_tag());
    let f = match find_tag(v, c, e, &nl) {
        Some(f) => f,
        None => {
            return None;
        },
    };
    let g = f + span_of(v, f, e, CharClass::MultiSpace);
    match find_tag(v, g, e, &['\n', '`', '`', '`']) {
        Some(h) => if h > g {
            Some((h + 4, MarkdownElement::Codeblock(string_of(v, b, c), string_of(v, g, h))))
        } else {
            None
        },
        None => None,
    }
}

fn rule_of(v: &Vec<char>, i: usize, e: usize, c: char, k: CharClass) -> (r: Option<
    (usize, MarkdownElement),
>)
    requires
        i <= e <= v@.len(),
    ensures
        read_view(r) == rule_of_at(v@, i as int, e as int, c, k),
        read_moves(r, i, e),
{
    let three: [char; 3] = [c, c, c];
    assert(three@ =~= seq![c, c, c]);
    if !tag_at(v, i, e, &three) {
        return None;
    }
    let j = i + 3 + span_of(v, i + 3, e, k);
    let nl: [char; 1] = ['\n'];
    assert(nl@ =~= newline_tag());
    if tag_at(v, j, e, &nl) {
        Some((j + 1, MarkdownElement::HorizontalLine))
    } else {
        None
    }
}

fn horizontal_line_parser(v: &Vec<char>, i: usize, e: usize) -> (r: Option<
    (usize, MarkdownElement),
>)
    requires
        i <= e <= v@.len(),
    ensures
        read_view(r) == horizontal_line_at(v@, i as int, e as int),
        read_moves(r, i, e),
{
    let r = rule_of(v, i, e, '-', CharClass::Dash);
    if r.is_some() {
        return r;
    }
    rule_of(v, i, e, '_', CharClass::Underscore)
}

fn block_parser(v: &Vec<char>, i: usize, e: usize) -> (r: Option<(usize, MarkdownElement)>)
    requires
        i <= e <= v@.len(),
    ensures
        read_view(r) == block_at(v@, i as int, e as int),
        read_moves(r, i, e),
{
    reveal(block_at);
    let r = toc_marker_parser(v, i, e);
    if r.is_some() {
        return r;
    }
    let r = header_parser(v, i, e);
    if r.is_some() {
        return r;
    }
    let r = ordered_list_item_parser(v, i, e);
    if r.is_some() {
        return r;
    }
    let r = unordered_list_item_parser(v, i, e);
    if r.is_some() {
        return r;
    }
    let r = codeblock_parser(v, i, e);
    if r.is_some() {
        return r;
    }
    let r = new_line_parser(v, i, e);
    if r.is_some() {
        return r;
    }
    let r = horizontal_line_parser(v, i, e);
    if r.is_some() {
        return r;
    }
    paragraph_parser(v, i, e)
}

/// The blocks read from the start of `v`, and where the reading stopped.
fn blocks_of(v: &Vec<char>) -> (r: (Vec<MarkdownElement>, usize))
    ensures
        blocks_from(v@, 0, v@.len() as int) == (elements_view(r.0@), r.1 as int),
        r.1 <= v@.len(),
{
    let e = v.len();
    let mut items: Vec<MarkdownElement> = Vec::new();
    let mut k: usize = 0;
    loop
        invariant
            k <= e == v@.len(),
            blocks_from(v@, 0, e as int).0 == elements_view(items@) + blocks_from(
                v@,
                k as int,
                e as int,
            ).0,
            blocks_from(v@, 0, e as int).1 == blocks_from(v@, k as int, e as int).1,
        ensures
            blocks_from(v@, 0, e as int) == (elements_view(items@), k as int),
        decreases e - k,
    {
        match block_parser(v, k, e) {
            Some((j, el)) => {
                let ghost before = elements_view(items@);
                items.push(el);
                assert(before + (seq![el@] + blocks_from(v@, j as int, e as int).0) =~= elements_view(
                    items@,
                ) + blocks_from(v@, j as int, e as int).0);
                k = j;
            },
            None => {
                assert(elements_view(items@) + blocks_from(v@, k as int, e as int).0 =~= elements_view(items@));
                break ;
            },
        }
    }
    (items, k)
}

/// The model of what `parse_page` returns.
pub open spec fn parse_view(r: Result<Vec<MarkdownElement>, String>) -> Result<
    Seq<Element>,
    Seq<char>,
> {
    match r {
        Ok(v) => Ok(elements_view(v@)),
        Err(m) => Err(m@),
    }
}

/// Parses a page where `parse_page` parses it, and returns `None` on the pages
/// where no block rule applies at the very start (on which `parse_page`
/// cannot go on).
pub fn try_parse_page(page: &str) -> (res: Option<Result<Vec<MarkdownElement>, String>>)
    ensures
        match res {
            Some(r) => parse_page_result(page@) == Some(parse_view(r)),
            None => parse_page_result(page@) is None,
        },
{
    let mut m = to_chars(page);
    m.push('\n');
    assert(m@ == page@.push('\n'));
    let (items, stop) = blocks_of(&m);
    if items.len() == 0 {
        return None;
    }
    if stop == m.len() {
        Some(Ok(items))
    } else {
        let mut message = String::from_str("Could not parse string: ");
        let rest = string_of(&m, stop, m.len());
        message.append(rest.as_str());
        Some(Err(message))
    }
}

/// Parses a markdown page into its tokens. The page is read with a line feed
/// added at its end; when some text is left that no rule reads, the result is
/// an error that names that text.
pub fn parse_page(page: &str) -> (res: Result<Vec<MarkdownElement>, String>)
    requires
        parse_page_result(page@) is Some,
    ensures
        parse_page_result(page@) == Some(parse_view(res)),
{
    match try_parse_page(page) {
        Some(r) => r,
        None => vstd::pervasive::unreached(),
    }
}

} // verus!
