use vstd::prelude::*;

use super::markdown_elements::Element;
use super::page_parser::{
    block_at, blocks_from, bold_at, bold_italics_at, escaped_run, find, hyperlink_at, image_at,
    in_class, inline_at, inline_code_at, inline_items, italics_at, link_target, link_target_end,
    list_item_rest, newline_tag, obsidian_image_at, ordered_list_item_at, paragraph_at,
    parse_page_result, span, starts_at, toc_tag, unordered_list_item_at, wikilink_at, wikilink_of,
    CharClass,
};
use crate::text::{is_unicode_whitespace, trim};

verus! {

/// The characters that a link target is made of: `/ ? # . - : _ @ + & =` and
/// the ASCII letters and digits.
pub open spec fn is_link_target_char(c: char) -> bool {
    ||| c == '/' || c == '?' || c == '#' || c == '.' || c == '-' || c == ':' || c == '_'
    ||| c == '@' || c == '+' || c == '&' || c == '='
    ||| ('a' <= c <= 'z') || ('A' <= c <= 'Z') || ('0' <= c <= '9')
}

pub open spec fn is_ascii_alphanumeric(c: char) -> bool {
    ('a' <= c <= 'z') || ('A' <= c <= 'Z') || ('0' <= c <= '9')
}

/// Every one of `/ ? # . - : _ @ + & =` and every ASCII letter and digit may
/// stand in a link target.
pub proof fn lemma_link_target_chars(c: char)
    requires
        is_link_target_char(c),
    ensures
        in_class(CharClass::Url, c),
{
    assert((c as u32) < 256);
}

/// A run of characters of class `k` that ends where the window ends or at a
/// character not of class `k` has the length of that run.
pub proof fn lemma_span_of_run(s: Seq<char>, i: int, n: int, e: int, k: CharClass)
    requires
        0 <= i <= i + n <= e <= s.len(),
        forall|j: int| i <= j < i + n ==> in_class(k, #[trigger] s[j]),
        i + n == e || !in_class(k, s[i + n]),
    ensures
        span(s, i, e, k) == n,
    decreases n,
{
    if n > 0 {
        lemma_span_of_run(s, i + 1, n - 1, e, k);
    }
}

/// A run of ASCII letters and digits ended by `]` is read as link text
/// as it is.
proof fn lemma_escaped_run_of_alphanumerics(s: Seq<char>, i: int, n: int, e: int)
    requires
        0 <= i <= i + n < e <= s.len(),
        forall|j: int| i <= j < i + n ==> is_ascii_alphanumeric(#[trigger] s[j]),
        s[i + n] == ']',
    ensures
        escaped_run(s, i, e, CharClass::LinkText) == (i + n, s.subrange(i, i + n)),
    decreases n,
{
    if n > 0 {
        assert(s.subrange(i, i + 1)[0] == s[i]);
        lemma_escaped_run_of_alphanumerics(s, i + 1, n - 1, e);
        assert(seq![s[i]] + s.subrange(i + 1, i + n) =~= s.subrange(i, i + n));
    } else {
        assert(s.subrange(i, i + 1)[0] == s[i]);
        assert(s.subrange(i, i) =~= Seq::<char>::empty());
    }
}

/// A text that starts and ends with no white space is its own trim.
pub proof fn lemma_trim_of_unpadded(t: Seq<char>)
    requires
        t.len() > 0,
        !is_unicode_whitespace(t[0]),
        !is_unicode_whitespace(t.last()),
    ensures
        trim(t) == t,
{
}

/// The link text `[t](u)`.
pub open spec fn link_line(t: Seq<char>, u: Seq<char>) -> Seq<char> {
    seq!['['] + t + seq![']', '('] + u + seq![')']
}

/// `[t](u)` standing at `p` in any text, read in the window that ends after
/// its `)`.
#[verifier::spinoff_prover]
#[verifier::rlimit(40)]
proof fn lemma_hyperlink_read_at(s: Seq<char>, p: int, t: Seq<char>, u: Seq<char>)
    requires
        t.len() > 0,
        forall|j: int| 0 <= j < t.len() ==> is_ascii_alphanumeric(#[trigger] t[j]),
        u.len() > 0,
        forall|j: int| 0 <= j < u.len() ==> is_link_target_char(#[trigger] u[j]),
        0 <= p,
        p + link_line(t, u).len() <= s.len(),
        s.subrange(p, p + link_line(t, u).len()) =~= link_line(t, u),
    ensures
        hyperlink_at(s, p, p + link_line(t, u).len()) == Some(
            (p + link_line(t, u).len(), Element::Hyperlink(t, u)),
        ),
        inline_at(s, p, p + link_line(t, u).len()) == Some(
            (p + link_line(t, u).len(), Element::Hyperlink(t, u)),
        ),
{
    let line = link_line(t, u);
    let e = p + line.len();
    let n = t.len() as int;
    let m = u.len() as int;
    assert forall|j: int| 0 <= j < line.len() implies #[trigger] s[p + j] == line[j] by {
        assert(s.subrange(p, e)[j] == s[p + j]);
    }
    assert(s[p] == line[0]);
    assert(s[p] == '[');
    assert forall|j: int| p + 1 <= j < p + 1 + n implies is_ascii_alphanumeric(#[trigger] s[j]) by {
        assert(s[p + (j - p)] == line[j - p]);
        assert(line[j - p] == t[j - p - 1]);
    }
    assert(s[p + (1 + n)] == line[1 + n]);
    assert(s[p + (2 + n)] == line[2 + n]);
    assert(s[p + (3 + n + m)] == line[3 + n + m]);
    assert forall|j: int| p + 3 + n <= j < p + 3 + n + m implies in_class(
        CharClass::Url,
        #[trigger] s[j],
    ) by {
        assert(s[p + (j - p)] == line[j - p]);
        assert(line[j - p] == u[j - p - 3 - n]);
        lemma_link_target_chars(u[j - p - 3 - n]);
    }
    // the text
    lemma_span_of_run(s, p + 1, 0, e, CharClass::Blank);
    lemma_escaped_run_of_alphanumerics(s, p + 1, n, e);
    assert(s.subrange(p + 1, p + 1 + n) =~= t) by {
        assert forall|j: int| 0 <= j < n implies #[trigger] s.subrange(p + 1, p + 1 + n)[j] == t[j] by {
            assert(s[p + (1 + j)] == line[1 + j]);
        }
    }
    lemma_span_of_run(s, p + 1 + n, 0, e, CharClass::Blank);
    assert(starts_at(s, p + 1 + n, e, seq![']']));
    // the target
    assert(starts_at(s, p + 2 + n, e, seq!['(']));
    lemma_span_of_run(s, p + 3 + n, m, e, CharClass::Url);
    lemma_span_of_run(s, p + 3 + n + m, 0, e, CharClass::Blank);
    assert(starts_at(s, p + 3 + n + m, e, seq![')']));
    lemma_span_of_run(s, p + 4 + n + m, 0, e, CharClass::MultiSpace);
    assert(link_target_end(s, p + 2 + n, e) == Some(e));
    assert(s.subrange(p + 3 + n, p + 3 + n + m) =~= u) by {
        assert forall|j: int| 0 <= j < m implies #[trigger] s.subrange(p + 3 + n, p + 3 + n + m)[j]
            == u[j] by {
            assert(s[p + (3 + n + j)] == line[3 + n + j]);
        }
    }
    assert(link_target(s, p + 2 + n, e) == u);
    lemma_trim_of_unpadded(t);
    assert(starts_at(s, p, e, seq!['[']));
    assert(hyperlink_at(s, p, e) == Some((e, Element::Hyperlink(t, u))));
    // the rules tried before it do not apply
    reveal(inline_at);
    lemma_span_of_run(s, p, 0, e, CharClass::Blank);
    assert(s[p + 1] == line[1]);
    assert(!starts_at(s, p, e, seq!['!', '[', '[']));
    assert(!starts_at(s, p, e, seq!['!', '[']));
    assert(!starts_at(s, p, e, seq!['[', '[']));
}

/// `[t](u)` followed by anything, read in the window that ends after `)`.
proof fn lemma_hyperlink_read_in(t: Seq<char>, u: Seq<char>, rest: Seq<char>)
    requires
        t.len() > 0,
        forall|j: int| 0 <= j < t.len() ==> is_ascii_alphanumeric(#[trigger] t[j]),
        u.len() > 0,
        forall|j: int| 0 <= j < u.len() ==> is_link_target_char(#[trigger] u[j]),
    ensures
        ({
            let line = seq!['['] + t + seq![']', '('] + u + seq![')'];
            let s = line + rest;
            &&& hyperlink_at(s, 0, line.len() as int) == Some(
                (line.len() as int, Element::Hyperlink(t, u)),
            )
            &&& inline_at(s, 0, line.len() as int) == Some(
                (line.len() as int, Element::Hyperlink(t, u)),
            )
        }),
{
    let line = link_line(t, u);
    let s = line + rest;
    assert(s.subrange(0, line.len() as int) =~= line);
    lemma_hyperlink_read_at(s, 0, t, u);
}

/// The line `[t](u)`, with `t` a nonempty run of ASCII letters and digits and
/// `u` a nonempty link target, is read whole as the hyperlink `t` to `u`.
pub proof fn lemma_hyperlink_read(t: Seq<char>, u: Seq<char>)
    requires
        t.len() > 0,
        forall|j: int| 0 <= j < t.len() ==> is_ascii_alphanumeric(#[trigger] t[j]),
        u.len() > 0,
        forall|j: int| 0 <= j < u.len() ==> is_link_target_char(#[trigger] u[j]),
    ensures
        ({
            let s = seq!['['] + t + seq![']', '('] + u + seq![')'];
            &&& hyperlink_at(s, 0, s.len() as int) == Some((s.len() as int, Element::Hyperlink(t, u)))
            &&& inline_at(s, 0, s.len() as int) == Some((s.len() as int, Element::Hyperlink(t, u)))
        }),
{
    let s = seq!['['] + t + seq![']', '('] + u + seq![')'];
    lemma_hyperlink_read_in(t, u, Seq::<char>::empty());
    assert(s + Seq::<char>::empty() =~= s);
}

/// `find` stops at the first line feed.
proof fn lemma_find_first_newline(s: Seq<char>, i: int, f: int, e: int)
    requires
        0 <= i <= f < e <= s.len(),
        forall|j: int| i <= j < f ==> #[trigger] s[j] != '\n',
        s[f] == '\n',
    ensures
        find(s, i, e, newline_tag()) == Some(f),
    decreases f - i,
{
    assert(s.subrange(i, i + 1)[0] == s[i]);
    if i < f {
        assert(!starts_at(s, i, e, newline_tag()));
        lemma_find_first_newline(s, i + 1, f, e);
    } else {
        assert(s.subrange(i, i + 1) =~= newline_tag());
    }
}

/// A line feed is read as a newline token: no other block rule applies to it.
pub proof fn lemma_newline_block(s: Seq<char>, i: int, e: int)
    requires
        0 <= i < e <= s.len(),
        s[i] == '\n',
    ensures
        block_at(s, i, e) == Some((i + 1, Element::Newline)),
{
    reveal(block_at);
    assert(s.subrange(i, i + 1)[0] == s[i]);
    assert(s.subrange(i, i + 1) =~= newline_tag());
    assert(!starts_at(s, i, e, toc_tag()));
    assert(!starts_at(s, i, e, seq!['`', '`', '`']));
    lemma_span_of_run(s, i, 0, e, CharClass::Hash);
    lemma_span_of_run(s, i, 0, e, CharClass::Blank);
    lemma_span_of_run(s, i, 0, e, CharClass::Digit);
}

/// The first block of the page `[t](u)`: a paragraph that holds the
/// hyperlink alone, up to the line feed.
#[verifier::spinoff_prover]
proof fn lemma_link_line_block(t: Seq<char>, u: Seq<char>)
    requires
        t.len() > 0,
        forall|j: int| 0 <= j < t.len() ==> is_ascii_alphanumeric(#[trigger] t[j]),
        u.len() > 0,
        forall|j: int| 0 <= j < u.len() ==> is_link_target_char(#[trigger] u[j]),
    ensures
        ({
            let line = seq!['['] + t + seq![']', '('] + u + seq![')'];
            let m = line.push('\n');
            block_at(m, 0, m.len() as int) == Some(
                (line.len() as int, Element::Paragraph(seq![Element::Hyperlink(t, u)])),
            )
        }),
{
    let line = seq!['['] + t + seq![']', '('] + u + seq![')'];
    let m = line.push('\n');
    let n = t.len() as int;
    let l = line.len() as int;
    let e = m.len() as int;
    assert(m =~= line + seq!['\n']);
    lemma_hyperlink_read_in(t, u, seq!['\n']);
    assert(inline_items(m, l, l) =~= Seq::<Element>::empty());
    assert(inline_items(m, 0, l) =~= seq![Element::Hyperlink(t, u)]);
    assert forall|j: int| 0 <= j < l implies #[trigger] m[j] != '\n' by {
        if 1 <= j < 1 + n {
            assert(m[j] == t[j - 1]);
            assert(is_ascii_alphanumeric(t[j - 1]));
        } else if 3 + n <= j < l - 1 {
            assert(m[j] == u[j - 3 - n]);
            assert(is_link_target_char(u[j - 3 - n]));
        }
    }
    lemma_find_first_newline(m, 0, l, e);
    assert(paragraph_at(m, 0, e) == Some((l, Element::Paragraph(seq![Element::Hyperlink(t, u)]))));
    lemma_bracket_line_is_paragraph(m, e);
}

/// A line that starts with `[` is read by the paragraph rule: no other block
/// rule applies to it.
#[verifier::spinoff_prover]
proof fn lemma_bracket_line_is_paragraph(m: Seq<char>, e: int)
    requires
        0 < e <= m.len(),
        m[0] == '[',
    ensures
        block_at(m, 0, e) == paragraph_at(m, 0, e),
{
    reveal(block_at);
    assert(m.subrange(0, 1)[0] == '[');
    assert(!starts_at(m, 0, e, toc_tag()));
    assert(!starts_at(m, 0, e, seq!['`', '`', '`']));
    assert(!starts_at(m, 0, e, newline_tag()));
    assert(!starts_at(m, 0, e, seq!['\r', '\n']));
    assert(!starts_at(m, 0, e, seq!['-', '-', '-']));
    assert(!starts_at(m, 0, e, seq!['_', '_', '_']));
    lemma_span_of_run(m, 0, 0, e, CharClass::Hash);
    lemma_span_of_run(m, 0, 0, e, CharClass::Blank);
    lemma_span_of_run(m, 0, 0, e, CharClass::Digit);
}

/// A page that is the single line `[t](u)`, with `t` a nonempty run of ASCII
/// letters and digits and `u` a nonempty run of link target characters (so
/// with `#` fragments, queries and the like), is read as a paragraph that
/// holds the hyperlink `t` to `u` and nothing else, then the line feed.
pub proof fn lemma_page_of_one_hyperlink(t: Seq<char>, u: Seq<char>)
    requires
        t.len() > 0,
        forall|j: int| 0 <= j < t.len() ==> is_ascii_alphanumeric(#[trigger] t[j]),
        u.len() > 0,
        forall|j: int| 0 <= j < u.len() ==> is_link_target_char(#[trigger] u[j]),
    ensures
        parse_page_result(seq!['['] + t + seq![']', '('] + u + seq![')']) == Some(
            Ok::<Seq<Element>, Seq<char>>(
                seq![Element::Paragraph(seq![Element::Hyperlink(t, u)]), Element::Newline],
            ),
        ),
{
    let line = seq!['['] + t + seq![']', '('] + u + seq![')'];
    let m = line.push('\n');
    let l = line.len() as int;
    let e = m.len() as int;
    let p = Element::Paragraph(seq![Element::Hyperlink(t, u)]);
    lemma_link_line_block(t, u);
    lemma_newline_block(m, l, e);
    assert(blocks_from(m, e, e) == (Seq::<Element>::empty(), e));
    assert(blocks_from(m, l, e) == (seq![Element::Newline], e));
    assert(blocks_from(m, 0, e) == (seq![p] + seq![Element::Newline], e));
    assert(seq![p] + seq![Element::Newline] =~= seq![p, Element::Newline]);
}

/// `h` number signs.
pub open spec fn hashes(h: nat) -> Seq<char> {
    Seq::new(h, |j: int| '#')
}

/// The first block of the page `### text`: the heading, up to the line feed.
#[verifier::spinoff_prover]
proof fn lemma_heading_line_block(h: nat, text: Seq<char>)
    requires
        h > 0,
        text.len() > 0,
        text[0] != ' ' && text[0] != '\t',
        forall|j: int| 0 <= j < text.len() ==> #[trigger] text[j] != '\n',
    ensures
        ({
            let line = hashes(h) + seq![' '] + text;
            let m = line.push('\n');
            block_at(m, 0, m.len() as int) == Some(
                (line.len() as int, Element::Heading(h, text)),
            )
        }),
{
    let line = hashes(h) + seq![' '] + text;
    let m = line.push('\n');
    let l = line.len() as int;
    let e = m.len() as int;
    let k: int = (h + 1) as int;
    assert forall|j: int| 0 <= j < h implies in_class(CharClass::Hash, #[trigger] m[j]) by {
        assert(m[j] == hashes(h)[j]);
    }
    assert(m[h as int] == ' ');
    lemma_span_of_run(m, 0, h as int, e, CharClass::Hash);
    assert(m[k] == text[0]);
    lemma_span_of_run(m, h as int, 1, e, CharClass::Blank);
    assert forall|j: int| k <= j < l implies #[trigger] m[j] != '\n' by {
        assert(m[j] == text[j - k]);
    }
    lemma_find_first_newline(m, k, l, e);
    assert(m.subrange(k, l) =~= text);
    reveal(block_at);
    assert(m.subrange(0, 1)[0] == m[0]);
    assert(!starts_at(m, 0, e, toc_tag()));
}

/// A page that is the single line of `h` number signs, a space and a text
/// (that starts with no blank and holds no line feed) is read as the heading
/// of level `h` with that text, then the line feed.
pub proof fn lemma_page_of_one_heading(h: nat, text: Seq<char>)
    requires
        h > 0,
        text.len() > 0,
        text[0] != ' ' && text[0] != '\t',
        forall|j: int| 0 <= j < text.len() ==> #[trigger] text[j] != '\n',
    ensures
        parse_page_result(hashes(h) + seq![' '] + text) == Some(
            Ok::<Seq<Element>, Seq<char>>(seq![Element::Heading(h, text), Element::Newline]),
        ),
{
    let line = hashes(h) + seq![' '] + text;
    let m = line.push('\n');
    let l = line.len() as int;
    let e = m.len() as int;
    let hd = Element::Heading(h, text);
    lemma_heading_line_block(h, text);
    lemma_newline_block(m, l, e);
    assert(blocks_from(m, e, e) == (Seq::<Element>::empty(), e));
    assert(blocks_from(m, l, e) == (seq![Element::Newline], e));
    assert(blocks_from(m, 0, e) == (seq![hd] + seq![Element::Newline], e));
    assert(seq![hd] + seq![Element::Newline] =~= seq![hd, Element::Newline]);
}

/// A run of ASCII letters and digits, up to a space or to the end of the
/// window, is read as plain text as it is.
proof fn lemma_escaped_plain_run_to(s: Seq<char>, i: int, f: int, e: int)
    requires
        0 <= i <= f <= e <= s.len(),
        forall|j: int| i <= j < f ==> is_ascii_alphanumeric(#[trigger] s[j]),
        f == e || s[f] == ' ',
    ensures
        escaped_run(s, i, e, CharClass::Plain) == (f, s.subrange(i, f)),
    decreases f - i,
{
    if i < f {
        let c = s[i];
        assert(is_ascii_alphanumeric(c));
        assert((c as u32) < 256);
        assert(s.subrange(i, i + 1)[0] == c);
        assert(!starts_at(s, i, e, seq!['\\']));
        assert(in_class(CharClass::Plain, c));
        lemma_escaped_plain_run_to(s, i + 1, f, e);
        assert(seq![c] + s.subrange(i + 1, f) =~= s.subrange(i, f));
    } else {
        if f < e {
            assert(s.subrange(f, f + 1)[0] == s[f]);
            assert(!in_class(CharClass::Plain, s[f]));
        }
        assert(!starts_at(s, i, e, seq!['\\']));
        assert(s.subrange(i, f) =~= Seq::<char>::empty());
    }
}

/// A run of ASCII letters and digits up to the end of the window is read as
/// plain text as it is.
proof fn lemma_escaped_plain_run(s: Seq<char>, i: int, e: int)
    requires
        0 <= i <= e <= s.len(),
        forall|j: int| i <= j < e ==> is_ascii_alphanumeric(#[trigger] s[j]),
    ensures
        escaped_run(s, i, e, CharClass::Plain) == (e, s.subrange(i, e)),
{
    lemma_escaped_plain_run_to(s, i, e, e);
}

/// A word of ASCII letters and digits ended by a space is read as one piece
/// of plain text: no other inline rule applies to it.
#[verifier::spinoff_prover]
proof fn lemma_word_inline_to(s: Seq<char>, i: int, f: int, e: int)
    requires
        0 <= i < f < e <= s.len(),
        forall|j: int| i <= j < f ==> is_ascii_alphanumeric(#[trigger] s[j]),
        s[f] == ' ',
    ensures
        inline_at(s, i, e) == Some((f, Element::PlainText(s.subrange(i, f)))),
{
    let c = s[i];
    assert(is_ascii_alphanumeric(c));
    assert(s.subrange(i, i + 1)[0] == c);
    lemma_span_of_run(s, i, 0, e, CharClass::Blank);
    assert(!starts_at(s, i, e, seq!['!', '[', '[']));
    assert(!starts_at(s, i, e, seq!['!', '[']));
    assert(!starts_at(s, i, e, seq!['[', '[']));
    assert(!starts_at(s, i, e, seq!['[']));
    assert(!starts_at(s, i, e, seq!['`']));
    assert(!starts_at(s, i, e, seq!['*', '*', '*']));
    assert(!starts_at(s, i, e, seq!['_', '_', '_']));
    assert(!starts_at(s, i, e, seq!['*', '_', '_']));
    assert(!starts_at(s, i, e, seq!['_', '_', '*']));
    assert(!starts_at(s, i, e, seq!['_', '*', '*']));
    assert(!starts_at(s, i, e, seq!['*', '*', '_']));
    assert(!starts_at(s, i, e, seq!['*', '*']));
    assert(!starts_at(s, i, e, seq!['_', '_']));
    assert(!starts_at(s, i, e, seq!['*']));
    assert(!starts_at(s, i, e, seq!['_']));
    lemma_escaped_plain_run_to(s, i, f, e);
    reveal(inline_at);
}

/// A word of ASCII letters and digits that fills the window is read as one
/// piece of plain text: no other inline rule applies to it.
#[verifier::spinoff_prover]
proof fn lemma_word_inline(s: Seq<char>, i: int, e: int)
    requires
        0 <= i < e <= s.len(),
        forall|j: int| i <= j < e ==> is_ascii_alphanumeric(#[trigger] s[j]),
    ensures
        inline_at(s, i, e) == Some((e, Element::PlainText(s.subrange(i, e)))),
        inline_items(s, i, e) == seq![Element::PlainText(s.subrange(i, e))],
{
    let c = s[i];
    assert(is_ascii_alphanumeric(c));
    assert(s.subrange(i, i + 1)[0] == c);
    lemma_span_of_run(s, i, 0, e, CharClass::Blank);
    assert(!starts_at(s, i, e, seq!['!', '[', '[']));
    assert(!starts_at(s, i, e, seq!['!', '[']));
    assert(!starts_at(s, i, e, seq!['[', '[']));
    assert(!starts_at(s, i, e, seq!['[']));
    assert(!starts_at(s, i, e, seq!['`']));
    assert(!starts_at(s, i, e, seq!['*', '*', '*']));
    assert(!starts_at(s, i, e, seq!['_', '_', '_']));
    assert(!starts_at(s, i, e, seq!['*', '_', '_']));
    assert(!starts_at(s, i, e, seq!['_', '_', '*']));
    assert(!starts_at(s, i, e, seq!['_', '*', '*']));
    assert(!starts_at(s, i, e, seq!['*', '*', '_']));
    assert(!starts_at(s, i, e, seq!['*', '*']));
    assert(!starts_at(s, i, e, seq!['_', '_']));
    assert(!starts_at(s, i, e, seq!['*']));
    assert(!starts_at(s, i, e, seq!['_']));
    lemma_escaped_plain_run(s, i, e);
    reveal(inline_at);
    assert(inline_at(s, i, e) == Some((e, Element::PlainText(s.subrange(i, e)))));
    assert(inline_items(s, e, e) =~= Seq::<Element>::empty());
    assert(inline_items(s, i, e) =~= seq![Element::PlainText(s.subrange(i, e))]);
}

/// The text of a list item that is one word ended by a line feed: a
/// paragraph of that word as plain text, read up to and with the line feed.
proof fn lemma_word_item_text(s: Seq<char>, k: int, f: int, e: int)
    requires
        0 <= k < f < e <= s.len(),
        forall|j: int| k <= j < f ==> is_ascii_alphanumeric(#[trigger] s[j]),
        s[f] == '\n',
    ensures
        list_item_rest(s, k, e) == Some(
            (f + 1, Element::Paragraph(seq![Element::PlainText(s.subrange(k, f))])),
        ),
{
    assert forall|j: int| k <= j < f implies #[trigger] s[j] != '\n' by {
        assert(is_ascii_alphanumeric(s[j]));
    }
    lemma_find_first_newline(s, k, f, e);
    lemma_word_inline(s, k, f);
}

/// A run of spaces followed by a letter or digit, by a link (`[` and a
/// letter or digit), or by the end of the window, is read as that white
/// space, kept as it is.
#[verifier::spinoff_prover]
pub proof fn lemma_spaces_read(s: Seq<char>, i: int, n: int, e: int)
    requires
        0 <= i,
        n > 0,
        i + n <= e <= s.len(),
        forall|j: int| i <= j < i + n ==> #[trigger] s[j] == ' ',
        i + n == e || is_ascii_alphanumeric(s[i + n]) || (s[i + n] == '[' && i + n + 1 < e
            && is_ascii_alphanumeric(s[i + n + 1])),
    ensures
        inline_at(s, i, e) == Some((i + n, Element::Whitespace(s.subrange(i, i + n)))),
{
    lemma_span_of_run(s, i, n, e, CharClass::Blank);
    let a = i + n;
    if a < e {
        assert(s.subrange(a, a + 1)[0] == s[a]);
        if a + 1 < e {
            assert(s.subrange(a, a + 2)[0] == s[a]);
            assert(s.subrange(a, a + 2)[1] == s[a + 1]);
        }
    }
    assert(!starts_at(s, a, e, seq!['!', '[', '[']));
    assert(!starts_at(s, a, e, seq!['!', '[']));
    assert(!starts_at(s, a, e, seq!['[', '[']));
    assert(obsidian_image_at(s, i, e) is None);
    assert(image_at(s, i, e) is None);
    assert(wikilink_at(s, i, e) is None);
    assert(s.subrange(i, i + 1)[0] == ' ');
    assert(!starts_at(s, i, e, seq!['[']));
    assert(!starts_at(s, i, e, seq!['`']));
    assert(!starts_at(s, i, e, seq!['*', '*', '*']));
    assert(!starts_at(s, i, e, seq!['_', '_', '_']));
    assert(!starts_at(s, i, e, seq!['*', '_', '_']));
    assert(!starts_at(s, i, e, seq!['_', '_', '*']));
    assert(!starts_at(s, i, e, seq!['_', '*', '*']));
    assert(!starts_at(s, i, e, seq!['*', '*', '_']));
    assert(!starts_at(s, i, e, seq!['*', '*']));
    assert(!starts_at(s, i, e, seq!['_', '_']));
    assert(!starts_at(s, i, e, seq!['*']));
    assert(!starts_at(s, i, e, seq!['_']));
    reveal(inline_at);
}

/// An ASCII letter.
pub open spec fn is_ascii_letter(c: char) -> bool {
    ('a' <= c <= 'z') || ('A' <= c <= 'Z')
}

/// A line that starts with a letter is read by the paragraph rule: no other
/// block rule applies to it.
#[verifier::spinoff_prover]
proof fn lemma_word_line_is_paragraph(m: Seq<char>, e: int)
    requires
        0 < e <= m.len(),
        is_ascii_letter(m[0]),
    ensures
        block_at(m, 0, e) == paragraph_at(m, 0, e),
{
    reveal(block_at);
    assert(m.subrange(0, 1)[0] == m[0]);
    assert(!starts_at(m, 0, e, toc_tag()));
    assert(!starts_at(m, 0, e, seq!['`', '`', '`']));
    assert(!starts_at(m, 0, e, newline_tag()));
    assert(!starts_at(m, 0, e, seq!['\r', '\n']));
    assert(!starts_at(m, 0, e, seq!['-', '-', '-']));
    assert(!starts_at(m, 0, e, seq!['_', '_', '_']));
    lemma_span_of_run(m, 0, 0, e, CharClass::Hash);
    lemma_span_of_run(m, 0, 0, e, CharClass::Blank);
    lemma_span_of_run(m, 0, 0, e, CharClass::Digit);
}

/// The inline elements of the line of a word, a space and a link.
#[verifier::spinoff_prover]
proof fn lemma_word_and_link_items(w: Seq<char>, t: Seq<char>, u: Seq<char>)
    requires
        w.len() > 0,
        forall|j: int| 0 <= j < w.len() ==> is_ascii_letter(#[trigger] w[j]),
        t.len() > 0,
        forall|j: int| 0 <= j < t.len() ==> is_ascii_alphanumeric(#[trigger] t[j]),
        u.len() > 0,
        forall|j: int| 0 <= j < u.len() ==> is_link_target_char(#[trigger] u[j]),
    ensures
        ({
            let line = w + seq![' '] + link_line(t, u);
            let m = line.push('\n');
            inline_items(m, 0, line.len() as int) == seq![
                Element::PlainText(w),
                Element::Whitespace(seq![' ']),
                Element::Hyperlink(t, u),
            ]
        }),
{
    let line = w + seq![' '] + link_line(t, u);
    let m = line.push('\n');
    let l = line.len() as int;
    let a = w.len() as int;
    let p = a + 1;
    let link = Element::Hyperlink(t, u);
    assert forall|j: int| 0 <= j < a implies is_ascii_alphanumeric(#[trigger] m[j]) by {
        assert(m[j] == w[j]);
        assert(is_ascii_letter(w[j]));
    }
    assert(m[a] == ' ');
    assert(m[p] == '[');
    assert(m[p + 1] == t[0]);
    assert(is_ascii_alphanumeric(t[0]));
    lemma_word_inline_to(m, 0, a, l);
    assert(m.subrange(0, a) =~= w);
    assert forall|j: int| a <= j < a + 1 implies #[trigger] m[j] == ' ' by {}
    lemma_spaces_read(m, a, 1, l);
    assert(m.subrange(a, a + 1) =~= seq![' ']);
    assert(m.subrange(p, l) =~= link_line(t, u));
    lemma_hyperlink_read_at(m, p, t, u);
    assert(inline_items(m, l, l) =~= Seq::<Element>::empty());
    assert(inline_items(m, p, l) =~= seq![link]);
    assert(inline_items(m, a, l) =~= seq![Element::Whitespace(seq![' ']), link]);
}

/// The line of a word, a space and a link holds no line feed.
proof fn lemma_word_and_link_one_line(w: Seq<char>, t: Seq<char>, u: Seq<char>)
    requires
        forall|j: int| 0 <= j < w.len() ==> is_ascii_letter(#[trigger] w[j]),
        forall|j: int| 0 <= j < t.len() ==> is_ascii_alphanumeric(#[trigger] t[j]),
        forall|j: int| 0 <= j < u.len() ==> is_link_target_char(#[trigger] u[j]),
    ensures
        forall|j: int|
            0 <= j < (w + seq![' '] + link_line(t, u)).len() ==> #[trigger] (w + seq![' ']
                + link_line(t, u))[j] != '\n',
{
    let line = w + seq![' '] + link_line(t, u);
    let a = w.len() as int;
    let p = a + 1;
    let n = t.len() as int;
    let k = u.len() as int;
    assert forall|j: int| 0 <= j < line.len() implies #[trigger] line[j] != '\n' by {
        if j < a {
            assert(line[j] == w[j]);
            assert(is_ascii_letter(w[j]));
        } else if j > a {
            assert(line[j] == link_line(t, u)[j - p]);
            if 1 <= j - p < 1 + n {
                assert(link_line(t, u)[j - p] == t[j - p - 1]);
                assert(is_ascii_alphanumeric(t[j - p - 1]));
            } else if 3 + n <= j - p < 3 + n + k {
                assert(link_line(t, u)[j - p] == u[j - p - 3 - n]);
                assert(is_link_target_char(u[j - p - 3 - n]));
            }
        }
    }
}

/// A page that is the single line of a word, a space and the link `[t](u)`
/// (the word of ASCII letters, `t` of ASCII letters and digits, `u` of link
/// target characters, `#` fragments included) is read as a paragraph of the
/// word, the space and the hyperlink `t` to `u`, then the line feed: nothing
/// of the line is dropped.
#[verifier::spinoff_prover]
pub proof fn lemma_page_of_word_and_link(w: Seq<char>, t: Seq<char>, u: Seq<char>)
    requires
        w.len() > 0,
        forall|j: int| 0 <= j < w.len() ==> is_ascii_letter(#[trigger] w[j]),
        t.len() > 0,
        forall|j: int| 0 <= j < t.len() ==> is_ascii_alphanumeric(#[trigger] t[j]),
        u.len() > 0,
        forall|j: int| 0 <= j < u.len() ==> is_link_target_char(#[trigger] u[j]),
    ensures
        parse_page_result(w + seq![' '] + link_line(t, u)) == Some(
            Ok::<Seq<Element>, Seq<char>>(
                seq![
                    Element::Paragraph(
                        seq![
                            Element::PlainText(w),
                            Element::Whitespace(seq![' ']),
                            Element::Hyperlink(t, u),
                        ],
                    ),
                    Element::Newline,
                ],
            ),
        ),
{
    let line = w + seq![' '] + link_line(t, u);
    let m = line.push('\n');
    let e = m.len() as int;
    let l = line.len() as int;
    let items = seq![Element::PlainText(w), Element::Whitespace(seq![' ']), Element::Hyperlink(t, u)];
    lemma_word_and_link_items(w, t, u);
    lemma_word_and_link_one_line(w, t, u);
    assert forall|j: int| 0 <= j < l implies #[trigger] m[j] != '\n' by {
        assert(m[j] == line[j]);
    }
    assert(m[l] == '\n');
    lemma_find_first_newline(m, 0, l, e);
    let para = Element::Paragraph(items);
    assert(paragraph_at(m, 0, e) == Some((l, para)));
    assert(m[0] == w[0]);
    lemma_word_line_is_paragraph(m, e);
    lemma_newline_block(m, l, e);
    assert(blocks_from(m, e, e) == (Seq::<Element>::empty(), e));
    assert(blocks_from(m, l, e) == (seq![Element::Newline], e));
    assert(blocks_from(m, 0, e) == (seq![para] + seq![Element::Newline], e));
    assert(seq![para] + seq![Element::Newline] =~= seq![para, Element::Newline]);
}

/// `d` spaces.
pub open spec fn indent(d: nat) -> Seq<char> {
    Seq::new(d, |j: int| ' ')
}

/// A page that is the single line of `d` spaces, `-`, a space and a word of
/// ASCII letters and digits is read as an unordered list item of level
/// `d + 1` whose text is that word.
#[verifier::spinoff_prover]
pub proof fn lemma_page_of_one_unordered_item(d: nat, w: Seq<char>)
    requires
        w.len() > 0,
        forall|j: int| 0 <= j < w.len() ==> is_ascii_alphanumeric(#[trigger] w[j]),
    ensures
        parse_page_result(indent(d) + seq!['-', ' '] + w) == Some(
            Ok::<Seq<Element>, Seq<char>>(
                seq![
                    Element::UnorderedList(
                        d + 1,
                        Box::new(Element::Paragraph(seq![Element::PlainText(w)])),
                    ),
                ],
            ),
        ),
{
    let line = indent(d) + seq!['-', ' '] + w;
    let m = line.push('\n');
    let e = m.len() as int;
    let l = line.len() as int;
    let j = d as int;
    let k = j + 2;
    let para = Element::Paragraph(seq![Element::PlainText(w)]);
    let item = Element::UnorderedList(d + 1, Box::new(para));
    assert forall|x: int| 0 <= x < j implies in_class(CharClass::Blank, #[trigger] m[x]) by {
        assert(m[x] == indent(d)[x]);
    }
    assert(m[j] == '-');
    assert(m[j + 1] == ' ');
    lemma_span_of_run(m, 0, j, e, CharClass::Blank);
    assert forall|x: int| k <= x < l implies is_ascii_alphanumeric(#[trigger] m[x]) by {
        assert(m[x] == w[x - k]);
    }
    assert(m[k] == w[0]);
    assert(is_ascii_alphanumeric(m[k]));
    lemma_span_of_run(m, j + 1, 1, e, CharClass::Blank);
    lemma_word_item_text(m, k, l, e);
    assert(m.subrange(k, l) =~= w);
    assert(unordered_list_item_at(m, 0, e) == Some((e, item)));
    // the rules tried before it do not apply
    reveal(block_at);
    assert(m.subrange(0, 1)[0] == m[0]);
    assert(!starts_at(m, 0, e, toc_tag()));
    lemma_span_of_run(m, 0, 0, e, CharClass::Hash);
    lemma_span_of_run(m, j, 0, e, CharClass::Digit);
    assert(block_at(m, 0, e) == Some((e, item)));
    assert(blocks_from(m, e, e) == (Seq::<Element>::empty(), e));
    assert(blocks_from(m, 0, e) == (seq![item] + Seq::<Element>::empty(), e));
    assert(seq![item] + Seq::<Element>::empty() =~= seq![item]);
}

/// A page that is the single line of `d` spaces, `1.`, a space and a word
/// of ASCII letters and digits is read as an ordered list item of level
/// `d + 1` whose text is that word.
#[verifier::spinoff_prover]
pub proof fn lemma_page_of_one_ordered_item(d: nat, w: Seq<char>)
    requires
        w.len() > 0,
        forall|j: int| 0 <= j < w.len() ==> is_ascii_alphanumeric(#[trigger] w[j]),
    ensures
        parse_page_result(indent(d) + seq!['1', '.', ' '] + w) == Some(
            Ok::<Seq<Element>, Seq<char>>(
                seq![
                    Element::OrderedList(
                        d + 1,
                        Box::new(Element::Paragraph(seq![Element::PlainText(w)])),
                    ),
                ],
            ),
        ),
{
    let line = indent(d) + seq!['1', '.', ' '] + w;
    let m = line.push('\n');
    let e = m.len() as int;
    let l = line.len() as int;
    let j = d as int;
    let k = j + 3;
    let para = Element::Paragraph(seq![Element::PlainText(w)]);
    let item = Element::OrderedList(d + 1, Box::new(para));
    assert forall|x: int| 0 <= x < j implies in_class(CharClass::Blank, #[trigger] m[x]) by {
        assert(m[x] == indent(d)[x]);
    }
    assert(m[j] == '1');
    assert(m[j + 1] == '.');
    assert(m[j + 2] == ' ');
    lemma_span_of_run(m, 0, j, e, CharClass::Blank);
    lemma_span_of_run(m, j, 1, e, CharClass::Digit);
    assert forall|x: int| k <= x < l implies is_ascii_alphanumeric(#[trigger] m[x]) by {
        assert(m[x] == w[x - k]);
    }
    assert(m[k] == w[0]);
    assert(is_ascii_alphanumeric(m[k]));
    lemma_span_of_run(m, j + 2, 1, e, CharClass::Blank);
    lemma_word_item_text(m, k, l, e);
    assert(m.subrange(k, l) =~= w);
    assert(ordered_list_item_at(m, 0, e) == Some((e, item)));
    // the rules tried before it do not apply
    reveal(block_at);
    assert(m.subrange(0, 1)[0] == m[0]);
    assert(!starts_at(m, 0, e, toc_tag()));
    lemma_span_of_run(m, 0, 0, e, CharClass::Hash);
    assert(block_at(m, 0, e) == Some((e, item)));
    assert(blocks_from(m, e, e) == (Seq::<Element>::empty(), e));
    assert(blocks_from(m, 0, e) == (seq![item] + Seq::<Element>::empty(), e));
    assert(seq![item] + Seq::<Element>::empty() =~= seq![item]);
}

/// `find` stops at the first place where `t` stands, when no character
/// before it is the first character of `t`.
proof fn lemma_find_first_tag(s: Seq<char>, i: int, f: int, e: int, t: Seq<char>)
    requires
        0 <= i <= f,
        t.len() > 0,
        f + t.len() <= e <= s.len(),
        forall|j: int| i <= j < f ==> #[trigger] s[j] != t[0],
        s.subrange(f, f + t.len()) =~= t,
    ensures
        find(s, i, e, t) == Some(f),
    decreases f - i,
{
    if i < f {
        assert(s.subrange(i, i + t.len())[0] == s[i]);
        assert(!starts_at(s, i, e, t));
        lemma_find_first_tag(s, i + 1, f, e, t);
    }
}

/// The text between two delimiters, a word of ASCII letters and digits.
proof fn lemma_word_between(s: Seq<char>, a: int, n: int, t: Seq<char>)
    requires
        0 <= a,
        n > 0,
        t.len() > 0,
        a + n + t.len() <= s.len(),
        forall|j: int| a <= j < a + n ==> is_ascii_alphanumeric(#[trigger] s[j]),
        !is_ascii_alphanumeric(t[0]),
        s.subrange(a + n, a + n + t.len()) =~= t,
    ensures
        find(s, a, s.len() as int, t) == Some(a + n),
{
    assert forall|j: int| a <= j < a + n implies #[trigger] s[j] != t[0] by {
        assert(is_ascii_alphanumeric(s[j]));
    }
    lemma_find_first_tag(s, a, a + n, s.len() as int, t);
}

/// At a star, no link, image or inline code starts.
proof fn lemma_no_link_at_star(s: Seq<char>, e: int)
    requires
        0 < e <= s.len(),
        s[0] == '*',
    ensures
        obsidian_image_at(s, 0, e) is None,
        image_at(s, 0, e) is None,
        wikilink_at(s, 0, e) is None,
        hyperlink_at(s, 0, e) is None,
        inline_code_at(s, 0, e) is None,
{
    lemma_span_of_run(s, 0, 0, e, CharClass::Blank);
    assert(s.subrange(0, 1)[0] == s[0]);
    assert(!starts_at(s, 0, e, seq!['!', '[', '[']));
    assert(!starts_at(s, 0, e, seq!['!', '[']));
    assert(!starts_at(s, 0, e, seq!['[', '[']));
    assert(!starts_at(s, 0, e, seq!['[']));
    assert(!starts_at(s, 0, e, seq!['`']));
}

/// `**w**`, with `w` a word of ASCII letters and digits, is read as the bold
/// text `w`.
#[verifier::spinoff_prover]
pub proof fn lemma_bold_read(w: Seq<char>)
    requires
        w.len() > 0,
        forall|j: int| 0 <= j < w.len() ==> is_ascii_alphanumeric(#[trigger] w[j]),
    ensures
        ({
            let s = seq!['*', '*'] + w + seq!['*', '*'];
            inline_at(s, 0, s.len() as int) == Some((s.len() as int, Element::Bold(w)))
        }),
{
    let s = seq!['*', '*'] + w + seq!['*', '*'];
    let n = w.len() as int;
    let e = s.len() as int;
    assert forall|j: int| 2 <= j < 2 + n implies is_ascii_alphanumeric(#[trigger] s[j]) by {
        assert(s[j] == w[j - 2]);
    }
    assert(s[2] == w[0]);
    lemma_word_between(s, 2, n, seq!['*', '*']);
    assert(s.subrange(2, 2 + n) =~= w);
    assert(s.subrange(0, 3)[2] == s[2]);
    assert(s.subrange(0, 2) =~= seq!['*', '*']);
    assert(bold_italics_at(s, 0, e) is None) by {
        assert(!starts_at(s, 0, e, seq!['*', '*', '*']));
        assert(!starts_at(s, 0, e, seq!['_', '_', '_']));
        assert(!starts_at(s, 0, e, seq!['*', '_', '_']));
        assert(!starts_at(s, 0, e, seq!['_', '_', '*']));
        assert(!starts_at(s, 0, e, seq!['_', '*', '*']));
        assert(!starts_at(s, 0, e, seq!['*', '*', '_']));
    }
    assert(bold_at(s, 0, e) == Some((e, Element::Bold(w))));
    lemma_no_link_at_star(s, e);
    reveal(inline_at);
}

/// `*w*`, with `w` a word of ASCII letters and digits, is read as the italic
/// text `w`.
#[verifier::spinoff_prover]
pub proof fn lemma_italics_read(w: Seq<char>)
    requires
        w.len() > 0,
        forall|j: int| 0 <= j < w.len() ==> is_ascii_alphanumeric(#[trigger] w[j]),
    ensures
        ({
            let s = seq!['*'] + w + seq!['*'];
            inline_at(s, 0, s.len() as int) == Some((s.len() as int, Element::Italics(w)))
        }),
{
    let s = seq!['*'] + w + seq!['*'];
    let n = w.len() as int;
    let e = s.len() as int;
    assert forall|j: int| 1 <= j < 1 + n implies is_ascii_alphanumeric(#[trigger] s[j]) by {
        assert(s[j] == w[j - 1]);
    }
    assert(s[1] == w[0]);
    lemma_word_between(s, 1, n, seq!['*']);
    assert(s.subrange(1, 1 + n) =~= w);
    assert(s.subrange(0, 2)[1] == s[1]);
    assert(s.subrange(0, 3)[1] == s[1]);
    assert(s.subrange(0, 1) =~= seq!['*']);
    assert(bold_italics_at(s, 0, e) is None) by {
        assert(!starts_at(s, 0, e, seq!['*', '*', '*']));
        assert(!starts_at(s, 0, e, seq!['_', '_', '_']));
        assert(!starts_at(s, 0, e, seq!['*', '_', '_']));
        assert(!starts_at(s, 0, e, seq!['_', '_', '*']));
        assert(!starts_at(s, 0, e, seq!['_', '*', '*']));
        assert(!starts_at(s, 0, e, seq!['*', '*', '_']));
    }
    assert(bold_at(s, 0, e) is None) by {
        assert(!starts_at(s, 0, e, seq!['*', '*']));
        assert(!starts_at(s, 0, e, seq!['_', '_']));
    }
    assert(italics_at(s, 0, e) == Some((e, Element::Italics(w))));
    lemma_no_link_at_star(s, e);
    reveal(inline_at);
}

/// `` `w` ``, with `w` a word of ASCII letters and digits, is read as the
/// inline code `w`.
#[verifier::spinoff_prover]
pub proof fn lemma_inline_code_read(w: Seq<char>)
    requires
        w.len() > 0,
        forall|j: int| 0 <= j < w.len() ==> is_ascii_alphanumeric(#[trigger] w[j]),
    ensures
        ({
            let s = seq!['`'] + w + seq!['`'];
            inline_at(s, 0, s.len() as int) == Some((s.len() as int, Element::InlineCode(w)))
        }),
{
    let s = seq!['`'] + w + seq!['`'];
    let n = w.len() as int;
    let e = s.len() as int;
    assert forall|j: int| 1 <= j < 1 + n implies is_ascii_alphanumeric(#[trigger] s[j]) by {
        assert(s[j] == w[j - 1]);
    }
    assert(s[1] == w[0]);
    lemma_word_between(s, 1, n, seq!['`']);
    assert(s.subrange(1, 1 + n) =~= w);
    lemma_span_of_run(s, 0, 0, e, CharClass::Blank);
    reveal(inline_at);
    assert(!starts_at(s, 0, e, seq!['!', '[', '[']));
    assert(!starts_at(s, 0, e, seq!['!', '[']));
    assert(!starts_at(s, 0, e, seq!['[', '[']));
    assert(!starts_at(s, 0, e, seq!['[']));
    assert(starts_at(s, 0, e, seq!['`']));
}

/// `***w***`, with `w` a word of ASCII letters and digits, is read as the
/// bold italic text `w`.
#[verifier::spinoff_prover]
pub proof fn lemma_bold_italics_read(w: Seq<char>)
    requires
        w.len() > 0,
        forall|j: int| 0 <= j < w.len() ==> is_ascii_alphanumeric(#[trigger] w[j]),
    ensures
        ({
            let s = seq!['*', '*', '*'] + w + seq!['*', '*', '*'];
            inline_at(s, 0, s.len() as int) == Some((s.len() as int, Element::BoldItalics(w)))
        }),
{
    let s = seq!['*', '*', '*'] + w + seq!['*', '*', '*'];
    let n = w.len() as int;
    let e = s.len() as int;
    assert forall|j: int| 3 <= j < 3 + n implies is_ascii_alphanumeric(#[trigger] s[j]) by {
        assert(s[j] == w[j - 3]);
    }
    lemma_word_between(s, 3, n, seq!['*', '*', '*']);
    assert(s.subrange(3, 3 + n) =~= w);
    lemma_span_of_run(s, 0, 0, e, CharClass::Blank);
    reveal(inline_at);
    assert(!starts_at(s, 0, e, seq!['!', '[', '[']));
    assert(!starts_at(s, 0, e, seq!['!', '[']));
    assert(!starts_at(s, 0, e, seq!['[', '[']));
    assert(!starts_at(s, 0, e, seq!['[']));
    assert(!starts_at(s, 0, e, seq!['`']));
    assert(starts_at(s, 0, e, seq!['*', '*', '*']));
}

/// `![t](u)`, with `t` a nonempty run of ASCII letters and digits and `u` a
/// nonempty link target, is read whole as the image `t` of `u`.
#[verifier::spinoff_prover]
pub proof fn lemma_image_read(t: Seq<char>, u: Seq<char>)
    requires
        t.len() > 0,
        forall|j: int| 0 <= j < t.len() ==> is_ascii_alphanumeric(#[trigger] t[j]),
        u.len() > 0,
        forall|j: int| 0 <= j < u.len() ==> is_link_target_char(#[trigger] u[j]),
    ensures
        ({
            let s = seq!['!', '['] + t + seq![']', '('] + u + seq![')'];
            inline_at(s, 0, s.len() as int) == Some((s.len() as int, Element::Image(t, u)))
        }),
{
    let s = seq!['!', '['] + t + seq![']', '('] + u + seq![')'];
    let e = s.len() as int;
    let n = t.len() as int;
    let m = u.len() as int;
    assert(s[0] == '!');
    assert(s[1] == '[');
    assert forall|j: int| 2 <= j < 2 + n implies is_ascii_alphanumeric(#[trigger] s[j]) by {
        assert(s[j] == t[j - 2]);
    }
    assert(s[2] == t[0]);
    assert(s[2 + n] == ']');
    assert(s[3 + n] == '(');
    assert forall|j: int| 4 + n <= j < 4 + n + m implies in_class(
        CharClass::Url,
        #[trigger] s[j],
    ) by {
        assert(s[j] == u[j - 4 - n]);
        lemma_link_target_chars(u[j - 4 - n]);
    }
    assert(s[4 + n + m] == ')');
    // the text
    lemma_span_of_run(s, 0, 0, e, CharClass::Blank);
    lemma_span_of_run(s, 2, 0, e, CharClass::Blank);
    lemma_escaped_run_of_alphanumerics(s, 2, n, e);
    assert(s.subrange(2, 2 + n) =~= t);
    lemma_span_of_run(s, 2 + n, 0, e, CharClass::Blank);
    assert(starts_at(s, 2 + n, e, seq![']']));
    // the target
    assert(starts_at(s, 3 + n, e, seq!['(']));
    lemma_span_of_run(s, 4 + n, m, e, CharClass::Url);
    lemma_span_of_run(s, 4 + n + m, 0, e, CharClass::Blank);
    assert(starts_at(s, 4 + n + m, e, seq![')']));
    lemma_span_of_run(s, 5 + n + m, 0, e, CharClass::MultiSpace);
    assert(link_target_end(s, 3 + n, e) == Some(e));
    assert(s.subrange(4 + n, 4 + n + m) =~= u);
    assert(link_target(s, 3 + n, e) == u);
    assert(starts_at(s, 0, e, seq!['!', '[']));
    assert(image_at(s, 0, e) == Some((e, Element::Image(t, u))));
    // the rule tried before it does not apply
    assert(s.subrange(0, 3)[2] == s[2]);
    assert(!starts_at(s, 0, e, seq!['!', '[', '[']));
    assert(obsidian_image_at(s, 0, e) is None);
    reveal(inline_at);
}

/// The characters of a link target are not white space.
proof fn lemma_link_target_not_whitespace(u: Seq<char>)
    requires
        forall|j: int| 0 <= j < u.len() ==> is_link_target_char(#[trigger] u[j]),
    ensures
        forall|j: int| 0 <= j < u.len() ==> !is_unicode_whitespace(#[trigger] u[j]),
{
    assert forall|j: int| 0 <= j < u.len() implies !is_unicode_whitespace(#[trigger] u[j]) by {
        assert(is_link_target_char(u[j]));
    }
}

/// `[[u|t]]`, with `u` a nonempty link target and `t` a nonempty run of
/// ASCII letters and digits, is read whole as the wiki link to `u` that
/// shows `t`.
#[verifier::spinoff_prover]
pub proof fn lemma_wikilink_read(u: Seq<char>, t: Seq<char>)
    requires
        t.len() > 0,
        forall|j: int| 0 <= j < t.len() ==> is_ascii_alphanumeric(#[trigger] t[j]),
        u.len() > 0,
        forall|j: int| 0 <= j < u.len() ==> is_link_target_char(#[trigger] u[j]),
    ensures
        ({
            let s = seq!['[', '['] + u + seq!['|'] + t + seq![']', ']'];
            inline_at(s, 0, s.len() as int) == Some((s.len() as int, Element::WikiLink(t, u)))
        }),
{
    let s = seq!['[', '['] + u + seq!['|'] + t + seq![']', ']'];
    let e = s.len() as int;
    let m = u.len() as int;
    let n = t.len() as int;
    let p = 2 + m;
    let c = 3 + m + n;
    assert(s[0] == '[');
    assert(s[1] == '[');
    assert(s[p] == '|');
    assert(s[c] == ']');
    assert(s[c + 1] == ']');
    assert forall|j: int| 2 <= j < p implies in_class(CharClass::Wiki, #[trigger] s[j]) && in_class(
        CharClass::NotPipe,
        s[j],
    ) by {
        assert(s[j] == u[j - 2]);
        lemma_link_target_chars(u[j - 2]);
    }
    assert forall|j: int| p + 1 <= j < c implies in_class(CharClass::Wiki, #[trigger] s[j]) by {
        assert(s[j] == t[j - p - 1]);
        assert(is_ascii_alphanumeric(t[j - p - 1]));
        lemma_link_target_chars(t[j - p - 1]);
    }
    assert(in_class(CharClass::Wiki, s[p]));
    assert(s[p + 1] == t[0]);
    assert(is_ascii_alphanumeric(s[p + 1]));
    // the inside of the brackets
    lemma_span_of_run(s, 0, 0, e, CharClass::Blank);
    lemma_span_of_run(s, 2, 0, e, CharClass::Blank);
    lemma_span_of_run(s, 2, c - 2, e, CharClass::Wiki);
    lemma_span_of_run(s, c, 0, e, CharClass::Blank);
    assert(starts_at(s, 0, e, seq!['[', '[']));
    assert(starts_at(s, c, e, seq![']', ']']));
    // the link and the text
    lemma_span_of_run(s, 2, m, c, CharClass::NotPipe);
    lemma_span_of_run(s, p + 1, 0, c, CharClass::Blank);
    assert(s.subrange(p + 1, c) =~= t);
    assert(s.subrange(2, p) =~= u);
    lemma_trim_of_unpadded(t);
    lemma_link_target_not_whitespace(u);
    lemma_trim_of_unpadded(u);
    assert(wikilink_of(s, 2, c) == Element::WikiLink(t, u));
    assert(wikilink_at(s, 0, e) == Some((e, Element::WikiLink(t, u))));
    // the rules tried before it do not apply
    assert(s.subrange(0, 1)[0] == s[0]);
    assert(!starts_at(s, 0, e, seq!['!', '[', '[']));
    assert(!starts_at(s, 0, e, seq!['!', '[']));
    assert(obsidian_image_at(s, 0, e) is None);
    assert(image_at(s, 0, e) is None);
    reveal(inline_at);
}

/// A page that is a code block, three backticks and a language hint, a line
/// feed, the code and a line feed, and three backticks (hint and code being
/// words of ASCII letters and digits), is read as that code block, then the
/// line feed.
#[verifier::spinoff_prover]
pub proof fn lemma_page_of_one_code_block(hint: Seq<char>, code: Seq<char>)
    requires
        hint.len() > 0,
        forall|j: int| 0 <= j < hint.len() ==> is_ascii_alphanumeric(#[trigger] hint[j]),
        code.len() > 0,
        forall|j: int| 0 <= j < code.len() ==> is_ascii_alphanumeric(#[trigger] code[j]),
    ensures
        parse_page_result(seq!['`', '`', '`'] + hint + seq!['\n'] + code + seq!['\n', '`', '`', '`'])
            == Some(
            Ok::<Seq<Element>, Seq<char>>(
                seq![Element::Codeblock(hint, code), Element::Newline],
            ),
        ),
{
    let line = seq!['`', '`', '`'] + hint + seq!['\n'] + code + seq!['\n', '`', '`', '`'];
    let m = line.push('\n');
    let e = m.len() as int;
    let l = line.len() as int;
    let a = hint.len() as int;
    let n = code.len() as int;
    let c = 3 + a;
    let g = c + 1;
    let h = g + n;
    assert(m[0] == '`');
    assert(m[c] == '\n');
    assert(m[h] == '\n');
    assert(m[l] == '\n');
    assert forall|j: int| 3 <= j < c implies is_ascii_alphanumeric(#[trigger] m[j]) by {
        assert(m[j] == hint[j - 3]);
    }
    assert forall|j: int| g <= j < h implies is_ascii_alphanumeric(#[trigger] m[j]) by {
        assert(m[j] == code[j - g]);
    }
    // the hint
    assert forall|j: int| 3 <= j < c implies in_class(CharClass::Language, #[trigger] m[j]) by {
        assert(is_ascii_alphanumeric(m[j]));
        assert((m[j] as u32) < 256);
    }
    lemma_span_of_run(m, 3, a, e, CharClass::Language);
    assert(m.subrange(3, c) =~= hint);
    assert(starts_at(m, 0, e, seq!['`', '`', '`']));
    assert(m.subrange(c, c + 1) =~= newline_tag());
    assert(find(m, c, e, newline_tag()) == Some(c));
    // the code
    assert(is_ascii_alphanumeric(m[g]));
    lemma_span_of_run(m, c, 1, e, CharClass::MultiSpace);
    assert(m.subrange(h, h + 4) =~= seq!['\n', '`', '`', '`']);
    lemma_word_between(m, g, n, seq!['\n', '`', '`', '`']);
    assert(m.subrange(g, h) =~= code);
    assert(h + 4 == l);
    // the rules tried before it do not apply
    reveal(block_at);
    assert(m.subrange(0, 1)[0] == m[0]);
    assert(!starts_at(m, 0, e, toc_tag()));
    lemma_span_of_run(m, 0, 0, e, CharClass::Hash);
    lemma_span_of_run(m, 0, 0, e, CharClass::Blank);
    lemma_span_of_run(m, 0, 0, e, CharClass::Digit);
    let cb = Element::Codeblock(hint, code);
    assert(block_at(m, 0, e) == Some((l, cb)));
    lemma_newline_block(m, l, e);
    assert(blocks_from(m, e, e) == (Seq::<Element>::empty(), e));
    assert(blocks_from(m, l, e) == (seq![Element::Newline], e));
    assert(blocks_from(m, 0, e) == (seq![cb] + seq![Element::Newline], e));
    assert(seq![cb] + seq![Element::Newline] =~= seq![cb, Element::Newline]);
}

/// A page that is the line `---` is read as a horizontal line (which takes
/// the line feed with it).
pub proof fn lemma_page_of_one_rule()
    ensures
        parse_page_result(seq!['-', '-', '-']) == Some(
            Ok::<Seq<Element>, Seq<char>>(seq![Element::HorizontalLine]),
        ),
{
    let m = seq!['-', '-', '-'].push('\n');
    let e = m.len() as int;
    assert(m =~= seq!['-', '-', '-', '\n']);
    reveal(block_at);
    assert(!starts_at(m, 0, e, toc_tag()));
    assert(!starts_at(m, 0, e, seq!['`', '`', '`']));
    assert(!starts_at(m, 0, e, newline_tag()));
    assert(!starts_at(m, 0, e, seq!['\r', '\n']));
    assert(starts_at(m, 0, e, seq!['-', '-', '-']));
    assert(starts_at(m, 3, e, newline_tag()));
    lemma_span_of_run(m, 0, 0, e, CharClass::Hash);
    lemma_span_of_run(m, 0, 0, e, CharClass::Blank);
    lemma_span_of_run(m, 1, 0, e, CharClass::Blank);
    lemma_span_of_run(m, 0, 0, e, CharClass::Digit);
    lemma_span_of_run(m, 3, 0, e, CharClass::Dash);
    assert(block_at(m, 0, e) == Some((e, Element::HorizontalLine)));
    assert(blocks_from(m, e, e) == (Seq::<Element>::empty(), e));
    assert(blocks_from(m, 0, e) == (seq![Element::HorizontalLine] + Seq::<Element>::empty(), e));
    assert(seq![Element::HorizontalLine] + Seq::<Element>::empty() =~= seq![
        Element::HorizontalLine,
    ]);
}

/// A page that is the line `%-%TOC%-%` is read as the marker of the table of
/// contents, then the line feed.
pub proof fn lemma_page_of_toc_marker()
    ensures
        parse_page_result(toc_tag()) == Some(
            Ok::<Seq<Element>, Seq<char>>(seq![Element::TocMarker, Element::Newline]),
        ),
{
    let m = toc_tag().push('\n');
    let e = m.len() as int;
    assert(m.subrange(0, 9) =~= toc_tag());
    assert(m[9] == '\n');
    reveal(block_at);
    assert(block_at(m, 0, e) == Some((9int, Element::TocMarker)));
    lemma_newline_block(m, 9, e);
    assert(blocks_from(m, e, e) == (Seq::<Element>::empty(), e));
    assert(blocks_from(m, 9, e) == (seq![Element::Newline], e));
    assert(blocks_from(m, 0, e) == (seq![Element::TocMarker] + seq![Element::Newline], e));
    assert(seq![Element::TocMarker] + seq![Element::Newline] =~= seq![
        Element::TocMarker,
        Element::Newline,
    ]);
}

} // verus!
