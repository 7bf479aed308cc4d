pub mod generator;
pub mod parser;
pub mod site;
pub mod text;
pub mod utils;

use vstd::prelude::*;

use generator::page_generator::{
    block_html, generate_page, inline_html, is_level_one_heading, is_list_token,
    lemma_inline_html_shows_text, lemma_page_without_lists_shows_every_token,
    lemma_paragraph_of_one, lemma_title_is_first_level_one_heading, list_items_are_paragraphs,
    list_text_is_paragraph, paragraph_html, rendered_page,
};
use generator::toc_generator::toc_html;
use generator::Html;
use parser::markdown_elements::Element;
use parser::page_parser::{block_at, blocks_from, parse_page_result, try_parse_page};
use parser::properties::{
    hashes, is_ascii_alphanumeric, is_ascii_letter, is_link_target_char, lemma_page_of_one_heading,
    lemma_page_of_one_hyperlink, lemma_page_of_word_and_link, link_line,
};
use text::{has_substring, lemma_substring_trans, lemma_substring_widen};

verus! {

proof fn lemma_block_list_text(s: Seq<char>, i: int, e: int)
    ensures
        block_at(s, i, e) matches Some((_, el)) ==> list_text_is_paragraph(el),
{
    reveal(block_at);
}

/// Every list item that the page grammar reads has a paragraph as its text,
/// so that every page the parser reads can be written as HTML.
pub proof fn lemma_blocks_list_text(s: Seq<char>, i: int, e: int)
    ensures
        list_items_are_paragraphs(blocks_from(s, i, e).0),
    decreases e - i,
{
    lemma_block_list_text(s, i, e);
    match block_at(s, i, e) {
        Some((j, el)) => if i < j <= e {
            lemma_blocks_list_text(s, j, e);
            let r = blocks_from(s, j, e);
            assert forall|k: int| 0 <= k < blocks_from(s, i, e).0.len() implies #[trigger] list_text_is_paragraph(
                blocks_from(s, i, e).0[k],
            ) by {
                if k > 0 {
                    assert(blocks_from(s, i, e).0[k] == r.0[k - 1]);
                }
            }
        },
        None => {},
    }
}

/// A page that `parse_and_generator` converts: the parser reads it whole.
pub open spec fn page_converts(page: Seq<char>) -> bool {
    parse_page_result(page) matches Some(Ok(_))
}

/// What `parse_and_generator` gives for a page that it converts, the page's
/// file being named `file_stem`.
pub open spec fn converted_page(page: Seq<char>, file_stem: Seq<char>) -> (Seq<char>, Seq<char>) {
    match parse_page_result(page) {
        Some(Ok(tokens)) => rendered_page(tokens, file_stem),
        _ => (seq![], seq![]),
    }
}

/// Converts a markdown page (as `parse_and_generator` does, `file_stem` being
/// the name of its file), and returns `None` on the pages that the parser
/// does not read whole (on which `parse_and_generator` cannot go on).
pub fn try_parse_and_generator(page: &str, file_stem: &str) -> (res: Option<(String, Html)>)
    ensures
        match res {
            Some((title, html)) => page_converts(page@) && (title@, html@) == converted_page(
                page@,
                file_stem@,
            ),
            None => !page_converts(page@),
        },
{
    match try_parse_page(page) {
        Some(Ok(tokens)) => {
            proof {
                let m = page@.push('\n');
                lemma_blocks_list_text(m, 0, m.len() as int);
            }
            match generate_page(tokens, file_stem) {
                Ok(r) => Some(r),
                Err(_) => vstd::pervasive::unreached(),
            }
        },
        _ => None,
    }
}

/// Converts a markdown page to its title and its HTML document. The title is
/// the text of the page's first heading of level 1, or, in a page without
/// one, the name of its file `file_stem` (without folders and `.md`).
pub fn parse_and_generator(page: &str, file_stem: &str) -> (res: (String, Html))
    requires
        page_converts(page@),
    ensures
        (res.0@, res.1@) == converted_page(page@, file_stem@),
{
    match try_parse_and_generator(page, file_stem) {
        Some(r) => r,
        None => vstd::pervasive::unreached(),
    }
}

/// The page `# text` (a text that starts with no blank and holds no line
/// feed) is converted, and its title is the text as written, named in the
/// document's `<title>`.
pub proof fn lemma_heading_page_is_titled(text: Seq<char>, file_stem: Seq<char>)
    requires
        text.len() > 0,
        text[0] != ' ' && text[0] != '\t',
        forall|j: int| 0 <= j < text.len() ==> #[trigger] text[j] != '\n',
    ensures
        page_converts(hashes(1) + seq![' '] + text),
        converted_page(hashes(1) + seq![' '] + text, file_stem).0 == text,
        has_substring(
            converted_page(hashes(1) + seq![' '] + text, file_stem).1,
            "<title>"@ + text + "</title>"@,
        ),
{
    lemma_page_of_one_heading(1, text);
    let tokens = seq![Element::Heading(1, text), Element::Newline];
    assert forall|j: int| 0 <= j < 0 implies !is_level_one_heading(#[trigger] tokens[j]) by {}
    lemma_title_is_first_level_one_heading(tokens, 0, text, file_stem);
}

/// The page `[t](u)` (`t` ASCII letters and digits, `u` link target
/// characters, `#` fragments included) is converted, and its document holds
/// the link to `u` with the text `t`.
pub proof fn lemma_link_page_shows_link(t: Seq<char>, u: Seq<char>, file_stem: Seq<char>)
    requires
        t.len() > 0,
        forall|j: int| 0 <= j < t.len() ==> is_ascii_alphanumeric(#[trigger] t[j]),
        u.len() > 0,
        forall|j: int| 0 <= j < u.len() ==> is_link_target_char(#[trigger] u[j]),
    ensures
        page_converts(seq!['['] + t + seq![']', '('] + u + seq![')']),
        has_substring(
            converted_page(seq!['['] + t + seq![']', '('] + u + seq![')'], file_stem).1,
            "href="@ + u + ">"@ + t + "</a>"@,
        ),
{
    lemma_page_of_one_hyperlink(t, u);
    let link = Element::Hyperlink(t, u);
    let para = Element::Paragraph(seq![link]);
    let tokens = seq![para, Element::Newline];
    assert forall|j: int| 0 <= j < tokens.len() implies !is_list_token(#[trigger] tokens[j]) by {}
    lemma_page_without_lists_shows_every_token(tokens, file_stem, 0);
    let doc = rendered_page(tokens, file_stem).1;
    lemma_paragraph_of_one(link);
    lemma_inline_html_shows_text(link);
    let shown = "href="@ + u + ">"@ + t + "</a>"@;
    lemma_substring_widen("<p>"@, inline_html(link), "</p>"@, shown);
    lemma_substring_trans(doc, block_html(para, toc_html(tokens)), shown);
}

/// The page of a word, a space and the link `[t](u)` is converted whole:
/// its document holds the paragraph of the word, the space and the link to
/// `u` with the text `t` (a `#` fragment of `u` included).
pub proof fn lemma_word_and_link_page_renders(
    w: Seq<char>,
    t: Seq<char>,
    u: Seq<char>,
    file_stem: Seq<char>,
)
    requires
        w.len() > 0,
        forall|j: int| 0 <= j < w.len() ==> is_ascii_letter(#[trigger] w[j]),
        t.len() > 0,
        forall|j: int| 0 <= j < t.len() ==> is_ascii_alphanumeric(#[trigger] t[j]),
        u.len() > 0,
        forall|j: int| 0 <= j < u.len() ==> is_link_target_char(#[trigger] u[j]),
    ensures
        page_converts(w + seq![' '] + link_line(t, u)),
        has_substring(
            converted_page(w + seq![' '] + link_line(t, u), file_stem).1,
            "<p>"@ + w + seq![' '] + "<a href="@ + u + ">"@ + t + "</a>"@ + "</p>"@,
        ),
{
    lemma_page_of_word_and_link(w, t, u);
    let word = Element::PlainText(w);
    let space = Element::Whitespace(seq![' ']);
    let link = Element::Hyperlink(t, u);
    let items = seq![word, space, link];
    let para = Element::Paragraph(items);
    let tokens = seq![para, Element::Newline];
    assert forall|j: int| 0 <= j < tokens.len() implies !is_list_token(#[trigger] tokens[j]) by {}
    lemma_page_without_lists_shows_every_token(tokens, file_stem, 0);
    assert(items.drop_last() =~= seq![word, space]);
    assert(seq![word, space].drop_last() =~= seq![word]);
    lemma_paragraph_of_one(word);
    assert(paragraph_html(seq![word, space]) == paragraph_html(seq![word]) + inline_html(space));
    assert(paragraph_html(items) == paragraph_html(seq![word, space]) + inline_html(link));
    assert(block_html(para, toc_html(tokens)) =~= "<p>"@ + w + seq![' '] + "<a href="@ + u + ">"@
        + t + "</a>"@ + "</p>"@);
}

} // verus!
