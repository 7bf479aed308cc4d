use blog_on_it::parser::markdown_elements::MarkdownElement;
use blog_on_it::parser::page_parser::{parse_page, try_parse_page};

fn show(el: &MarkdownElement) -> String {
    match el {
        MarkdownElement::TocMarker => "Toc".to_string(),
        MarkdownElement::Heading(l, t) => format!("H{}({})", l, t),
        MarkdownElement::OrderedList(l, b) => format!("OL{}[{}]", l, show(b)),
        MarkdownElement::UnorderedList(l, b) => format!("UL{}[{}]", l, show(b)),
        MarkdownElement::Image(t, l) => format!("Img({}|{})", t, l),
        MarkdownElement::Hyperlink(t, l) => format!("Link({}|{})", t, l),
        MarkdownElement::WikiLink(t, l) => format!("Wiki({}|{})", t, l),
        MarkdownElement::Codeblock(h, c) => format!("Code({}|{})", h, c),
        MarkdownElement::BlockQuote(t) => format!("Quote({})", t),
        MarkdownElement::InlineCode(t) => format!("Tick({})", t),
        MarkdownElement::HorizontalLine => "Hr".to_string(),
        MarkdownElement::Newline => "Nl".to_string(),
        MarkdownElement::Whitespace(t) => format!("Ws({})", t),
        MarkdownElement::Italics(t) => format!("I({})", t),
        MarkdownElement::Bold(t) => format!("B({})", t),
        MarkdownElement::BoldItalics(t) => format!("BI({})", t),
        MarkdownElement::PlainText(t) => format!("T({})", t),
        MarkdownElement::Paragraph(v) => {
            format!("P[{}]", v.iter().map(show).collect::<Vec<_>>().join(","))
        }
    }
}

fn parsed(page: &str) -> String {
    match parse_page(page) {
        Ok(tokens) => tokens.iter().map(show).collect::<Vec<_>>().join(" "),
        Err(e) => format!("ERR {}", e),
    }
}

#[test]
fn heading_and_paragraph() {
    assert_eq!(
        parsed("# Title\nSome *text* here\n"),
        "H1(Title) Nl P[T(Some),Ws( ),I(text),Ws( ),T(here)] Nl Nl"
    );
}

#[test]
fn deeper_heading_keeps_its_level() {
    assert_eq!(parsed("### Three  x"), "H3(Three  x) Nl");
}

#[test]
fn hashes_without_space_are_text() {
    assert_eq!(parsed("#tag\n"), "P[T(#tag)] Nl Nl");
}

#[test]
fn empty_page_is_one_newline() {
    assert_eq!(parsed(""), "Nl");
}

#[test]
fn list_items_and_levels() {
    assert_eq!(
        parsed("- a\n  - b\n1. c\n"),
        "UL1[P[T(a)]] UL3[P[T(b)]] OL1[P[T(c)]] Nl"
    );
}

#[test]
fn star_and_plus_bullets() {
    assert_eq!(parsed("* x\n+ y\n"), "UL1[P[T(x)]] UL1[P[T(y)]] Nl");
}

#[test]
fn codeblock_with_language() {
    assert_eq!(
        parsed("```rust\nfn main() {}\n```\n"),
        "Code(rust|fn main() {}) Nl Nl"
    );
}

#[test]
fn links_wikilinks_and_images() {
    assert_eq!(
        parsed("[Rust](https://rust-lang.org) and [[Page|Alias]] ![[pic.png]]\n"),
        "P[Link(Rust|https://rust-lang.org),T(and),Wiki(Alias|Page),Img(|pic.png)] Nl Nl"
    );
}

#[test]
fn markdown_image_keeps_alt_text() {
    assert_eq!(parsed("![a cat](cat.png)"), "P[Img(a cat|cat.png)] Nl");
}

#[test]
fn wikilink_without_alias_uses_the_page() {
    assert_eq!(parsed("[[ My Page ]]"), "P[Wiki(My Page|My Page)] Nl");
}

#[test]
fn horizontal_rules() {
    assert_eq!(parsed("---\n____\n"), "Hr Hr Nl");
}

#[test]
fn toc_marker() {
    assert_eq!(parsed("%-%TOC%-%\n## A\n"), "Toc Nl H2(A) Nl Nl");
}

#[test]
fn escapes_in_plain_text() {
    assert_eq!(parsed("a\\*b\\_c\\```d"), "P[T(a*b_c```d)] Nl");
}

#[test]
fn bold_and_bold_italics() {
    assert_eq!(
        parsed("**bold** __also__ ***bi***\n"),
        "P[B(bold),Ws( ),B(also),Ws( ),BI(bi)] Nl Nl"
    );
}

#[test]
fn inline_code() {
    assert_eq!(parsed("use `x` now"), "P[T(use),Ws( ),Tick(x),Ws( ),T(now)] Nl");
}

#[test]
fn carriage_return_line_ending() {
    assert_eq!(parsed("\r\n"), "Nl Nl");
}

#[test]
fn unreadable_rest_is_an_error() {
    assert_eq!(parsed("ok\n\\q"), "ERR Could not parse string: \\q\n");
}

#[test]
fn unreadable_start_is_refused() {
    assert!(try_parse_page("\\q").is_none());
    assert!(try_parse_page("ok").is_some());
}

#[test]
fn rest_of_a_line_the_inline_rules_cannot_read_is_dropped() {
    assert_eq!(parsed("ab \\q cd"), "P[T(ab),Ws( )] Nl");
}
