use vstd::prelude::*;

use super::toc_generator::{lemma_toc_has_link, toc_html, toc_of};
use super::Html;
use crate::parser::markdown_elements::{elements_view, lemma_paragraph_view, Element, MarkdownElement};
use crate::text::{
    decimal, has_substring, join_strings, lemma_has_infix, lemma_seq_join_has_piece,
    lemma_substring_widen, push_decimal, seq_join, strings_view,
};
use crate::utils::{remove_all_special, without_specials};
use vstd::string::StringExecFns;

verus! {

// ---------------------------------------------------------------------------
// The HTML of a page.
// ---------------------------------------------------------------------------
/// The HTML of an element inside a paragraph.
pub open spec fn inline_html(el: Element) -> Seq<char> {
    match el {
        Element::Image(text, link) => "<figure><img class='image' src=\""@ + link + "\" alt=\""@
            + text + "\"><figcaption>"@ + text + "</figcaption></figure>"@,
        Element::WikiLink(text, link) => "<a href="@ + link + ">"@ + text + "</a>"@,
        Element::Hyperlink(text, link) => "<a href="@ + link + ">"@ + text + "</a>"@,
        Element::InlineCode(code) => "<code>"@ + code + "</code>"@,
        Element::BoldItalics(text) => "<b><em>"@ + text + "</em></b>"@,
        Element::Italics(text) => "<em>"@ + text + "</em>"@,
        Element::Bold(text) => "<b>"@ + text + "</b>"@,
        Element::Whitespace(space) => space,
        Element::PlainText(text) => text,
        _ => seq![],
    }
}

/// The HTML of the elements of a paragraph, one after the other.
pub open spec fn paragraph_html(items: Seq<Element>) -> Seq<char>
    decreases items.len(),
{
    if items.len() == 0 {
        seq![]
    } else {
        paragraph_html(items.drop_last()) + inline_html(items.last())
    }
}

/// The start of a heading's HTML, up to its anchor (its `id`) and the space
/// after it.
pub open spec fn heading_open(level: nat, text: Seq<char>) -> Seq<char> {
    "<h"@ + decimal(level) + " id="@ + without_specials(text) + " "@
}

pub open spec fn heading_html(level: nat, text: Seq<char>) -> Seq<char> {
    heading_open(level, text) + "class=main-h"@ + decimal(level)
        + ">"@ + text + "</h"@ + decimal(level) + ">"@
}

pub open spec fn code_html(code: Seq<char>) -> Seq<char> {
    "<pre>\n<code>"@ + code + "</code>\n</pre>"@
}

/// A list item; the text of a list item is a paragraph.
pub open spec fn li_html(level: nat, text: Element, ordered: bool) -> Seq<char> {
    match text {
        Element::Paragraph(items) => "<li class="@ + (if ordered {
            "ordered"@
        } else {
            "unordered"@
        }) + "-list-"@ + decimal(level) + ">"@ + paragraph_html(items) + "</li>"@,
        _ => seq![],
    }
}

pub open spec fn list_opener(ordered: bool) -> Seq<char> {
    if ordered {
        "<ol>"@
    } else {
        "<ul>"@
    }
}

pub open spec fn list_closer(ordered: bool) -> Seq<char> {
    if ordered {
        "</ol>"@
    } else {
        "</ul>"@
    }
}

/// One step of writing nested lists: from the level of the item before and
/// the lists still open (innermost last, `true` for an ordered one), the
/// level and open lists after an item of `level`, and the HTML of the item.
pub open spec fn list_item_step(
    current: nat,
    open: Seq<bool>,
    level: nat,
    ordered: bool,
    text: Element,
) -> (nat, Seq<bool>, Seq<char>) {
    let li = li_html(level, text, ordered);
    if current < level {
        (level, open.push(ordered), list_opener(ordered) + li)
    } else if current == level {
        if open.len() > 0 && open.last() != ordered {
            (
                level,
                open.drop_last().push(ordered),
                list_closer(!ordered) + list_opener(ordered) + li,
            )
        } else {
            (current, open, li)
        }
    } else {
        (level, open.drop_last().push(ordered), list_closer(open.last()) + list_opener(ordered) + li)
    }
}

pub open spec fn list_step(current: nat, open: Seq<bool>, el: Element) -> (
    nat,
    Seq<bool>,
    Seq<char>,
) {
    match el {
        Element::OrderedList(level, text) => list_item_step(current, open, level, true, *text),
        Element::UnorderedList(level, text) => list_item_step(current, open, level, false, *text),
        _ => (current, open, seq![]),
    }
}

/// The HTML pieces of the list items `items`, and the lists left open after
/// them.
pub open spec fn list_pieces(items: Seq<Element>, current: nat, open: Seq<bool>) -> (
    Seq<Seq<char>>,
    Seq<bool>,
)
    decreases items.len(),
{
    if items.len() == 0 {
        (seq![], open)
    } else {
        let st = list_step(current, open, items[0]);
        let r = list_pieces(items.drop_first(), st.0, st.1);
        (seq![st.2] + r.0, r.1)
    }
}

/// The closing tags of the lists left open, innermost first.
pub open spec fn closers(open: Seq<bool>) -> Seq<Seq<char>> {
    open.reverse().map_values(|o: bool| list_closer(o))
}

/// The HTML of a run of list items, with every list it opens closed at the
/// end.
pub open spec fn list_html(items: Seq<Element>) -> Seq<char> {
    let r = list_pieces(items, 0, seq![]);
    seq_join(r.0 + closers(r.1), "\n"@)
}

/// Writing nested lists never closes a list that is not open: from a state
/// where a nonzero level has a list open, a step that goes up a level finds a
/// list to close, and the state after the step is again of that kind.
pub proof fn lemma_list_step_closes_only_open_lists(current: nat, open: Seq<bool>, el: Element)
    requires
        current > 0 ==> open.len() > 0,
    ensures
        (el matches Element::OrderedList(level, _) && level < current) ==> open.len() > 0,
        (el matches Element::UnorderedList(level, _) && level < current) ==> open.len() > 0,
        list_step(current, open, el).0 > 0 ==> list_step(current, open, el).1.len() > 0,
{
}

/// The HTML of the elements of two paragraphs put together is the HTML of
/// the first followed by that of the second; no element gives nothing.
pub proof fn lemma_paragraph_html_concat(a: Seq<Element>, b: Seq<Element>)
    ensures
        paragraph_html(a + b) == paragraph_html(a) + paragraph_html(b),
        paragraph_html(seq![]) == Seq::<char>::empty(),
    decreases b.len(),
{
    if b.len() == 0 {
        assert(a + b =~= a);
        assert(paragraph_html(a) + paragraph_html(b) =~= paragraph_html(a));
    } else {
        assert((a + b).drop_last() =~= a + b.drop_last());
        assert((a + b).last() == b.last());
        lemma_paragraph_html_concat(a, b.drop_last());
        assert(paragraph_html(a) + paragraph_html(b.drop_last()) + inline_html(b.last())
            =~= paragraph_html(a) + paragraph_html(b));
    }
}

/// Every link of the table of contents goes to the anchor that the page
/// gives its heading: for a heading that is not of level 1, the table of
/// contents holds a link to `#` and the heading's cleaned text, and the
/// heading's HTML starts with that same cleaned text as its `id`.
pub proof fn lemma_toc_links_to_heading_ids(tokens: Seq<Element>, i: int, level: nat, text: Seq<char>)
    requires
        0 <= i < tokens.len(),
        tokens[i] == Element::Heading(level, text),
        level != 1,
    ensures
        has_substring(
            toc_html(tokens),
            "<a href='#"@ + without_specials(text) + "'>"@ + text + "</a>"@,
        ),
        ("<h"@ + decimal(level) + " id="@ + without_specials(text) + " "@).is_prefix_of(
            heading_html(level, text),
        ),
{
    lemma_toc_has_link(tokens, i, level, text);
    assert(heading_html(level, text).take(heading_open(level, text).len() as int) =~= heading_open(
        level,
        text,
    ));
}

/// A paragraph of one element is that element's HTML.
pub proof fn lemma_paragraph_of_one(el: Element)
    ensures
        paragraph_html(seq![el]) == inline_html(el),
{
    assert(seq![el].len() == 1);
    assert(seq![el].drop_last() =~= Seq::<Element>::empty());
    assert(paragraph_html(Seq::<Element>::empty()) == Seq::<char>::empty());
    assert(seq![el].last() == el);
    assert(paragraph_html(seq![el]) == paragraph_html(seq![el].drop_last()) + inline_html(el));
    assert(Seq::<char>::empty() + inline_html(el) =~= inline_html(el));
}

proof fn lemma_image_caption(text: Seq<char>, link: Seq<char>)
    ensures
        has_substring(
            inline_html(Element::Image(text, link)),
            "<figcaption>"@ + text + "</figcaption>"@,
        ),
{
    let a = "<figure><img class='image' src=\""@ + link + "\" alt=\""@ + text;
    assert("\"><figcaption>"@ =~= "\">"@ + "<figcaption>"@) by {
        reveal_strlit("\"><figcaption>");
        reveal_strlit("\">");
        reveal_strlit("<figcaption>");
    }
    assert("</figcaption></figure>"@ =~= "</figcaption>"@ + "</figure>"@) by {
        reveal_strlit("</figcaption></figure>");
        reveal_strlit("</figcaption>");
        reveal_strlit("</figure>");
    }
    let caption = "<figcaption>"@ + text + "</figcaption>"@;
    assert(inline_html(Element::Image(text, link)) =~= (a + "\">"@) + caption + "</figure>"@);
    lemma_has_infix(a + "\">"@, caption, "</figure>"@);
}

proof fn lemma_image_alt(text: Seq<char>, link: Seq<char>)
    ensures
        has_substring(inline_html(Element::Image(text, link)), "alt=\""@ + text + "\""@),
{
    assert("\" alt=\""@ =~= "\" "@ + "alt=\""@) by {
        reveal_strlit("\" alt=\"");
        reveal_strlit("\" ");
        reveal_strlit("alt=\"");
    }
    assert("\"><figcaption>"@ =~= "\""@ + "><figcaption>"@) by {
        reveal_strlit("\"><figcaption>");
        reveal_strlit("\"");
        reveal_strlit("><figcaption>");
    }
    let before = "<figure><img class='image' src=\""@ + link + "\" "@;
    let alt = "alt=\""@ + text + "\""@;
    let after = "><figcaption>"@ + text + "</figcaption></figure>"@;
    assert(inline_html(Element::Image(text, link)) =~= before + alt + after);
    lemma_has_infix(before, alt, after);
}

proof fn lemma_image_source(text: Seq<char>, link: Seq<char>)
    ensures
        has_substring(inline_html(Element::Image(text, link)), "src=\""@ + link + "\""@),
{
    assert("<figure><img class='image' src=\""@ =~= "<figure><img class='image' "@ + "src=\""@)
        by {
        reveal_strlit("<figure><img class='image' src=\"");
        reveal_strlit("<figure><img class='image' ");
        reveal_strlit("src=\"");
    }
    assert("\" alt=\""@ =~= "\""@ + " alt=\""@) by {
        reveal_strlit("\" alt=\"");
        reveal_strlit("\"");
        reveal_strlit(" alt=\"");
    }
    let src = "src=\""@ + link + "\""@;
    let after = " alt=\""@ + text + "\"><figcaption>"@ + text + "</figcaption></figure>"@;
    assert(inline_html(Element::Image(text, link)) =~= "<figure><img class='image' "@ + src + after);
    lemma_has_infix("<figure><img class='image' "@, src, after);
}

/// An image shows its text twice, as the alternative text of the picture and
/// as its caption, and links the picture to its target: the HTML of an image
/// (alone in a paragraph too) holds `src="link"`, `alt="text"` and
/// `<figcaption>text</figcaption>`.
pub proof fn lemma_image_shows_caption_and_source(text: Seq<char>, link: Seq<char>)
    ensures
        has_substring(
            inline_html(Element::Image(text, link)),
            "<figcaption>"@ + text + "</figcaption>"@,
        ),
        has_substring(inline_html(Element::Image(text, link)), "alt=\""@ + text + "\""@),
        has_substring(inline_html(Element::Image(text, link)), "src=\""@ + link + "\""@),
        has_substring(
            paragraph_html(seq![Element::Image(text, link)]),
            "<figcaption>"@ + text + "</figcaption>"@,
        ),
{
    lemma_image_caption(text, link);
    lemma_image_alt(text, link);
    lemma_image_source(text, link);
    lemma_paragraph_of_one(Element::Image(text, link));
}

/// Every element of a paragraph shows its text: a link (hyperlink or wiki
/// link) points `href=` at its target and shows its text before `</a>`,
/// code, bold and italic text stand between their tags, and plain text and
/// white space are written as they are.
pub proof fn lemma_inline_html_shows_text(el: Element)
    ensures
        el matches Element::Hyperlink(text, link) ==> has_substring(
            inline_html(el),
            "href="@ + link + ">"@ + text + "</a>"@,
        ),
        el matches Element::WikiLink(text, link) ==> has_substring(
            inline_html(el),
            "href="@ + link + ">"@ + text + "</a>"@,
        ),
        el matches Element::InlineCode(code) ==> has_substring(
            inline_html(el),
            "<code>"@ + code + "</code>"@,
        ),
        el matches Element::Bold(text) ==> has_substring(inline_html(el), "<b>"@ + text + "</b>"@),
        el matches Element::Italics(text) ==> has_substring(
            inline_html(el),
            "<em>"@ + text + "</em>"@,
        ),
        el matches Element::BoldItalics(text) ==> has_substring(
            inline_html(el),
            "<b><em>"@ + text + "</em></b>"@,
        ),
        el matches Element::PlainText(text) ==> inline_html(el) == text,
        el matches Element::Whitespace(space) ==> inline_html(el) == space,
{
    let h = inline_html(el);
    let none = Seq::<char>::empty();
    match el {
        Element::Hyperlink(text, link) | Element::WikiLink(text, link) => {
            assert("<a href="@ =~= "<a "@ + "href="@) by {
                reveal_strlit("<a href=");
                reveal_strlit("<a ");
                reveal_strlit("href=");
            }
            let w = "href="@ + link + ">"@ + text + "</a>"@;
            assert(h =~= "<a "@ + w + none);
            lemma_has_infix("<a "@, w, none);
        },
        _ => {
            assert(h =~= none + h + none);
            lemma_has_infix(none, h, none);
        },
    }
}

/// A heading shows its text at its level: its HTML holds the class of its
/// level, then its text, then the closing tag of its level. A code block
/// holds its code between `<code>` and `</code>`, and a list item holds the
/// level of its list and the HTML of its text.
pub proof fn lemma_block_html_shows_text(
    level: nat,
    text: Seq<char>,
    code: Seq<char>,
    items: Seq<Element>,
    ordered: bool,
)
    ensures
        has_substring(
            heading_html(level, text),
            "class=main-h"@ + decimal(level) + ">"@ + text + "</h"@ + decimal(level) + ">"@,
        ),
        has_substring(code_html(code), "<code>"@ + code + "</code>"@),
        has_substring(
            li_html(level, Element::Paragraph(items), ordered),
            "-list-"@ + decimal(level) + ">"@ + paragraph_html(items) + "</li>"@,
        ),
{
    let none = Seq::<char>::empty();
    let shown = "class=main-h"@ + decimal(level) + ">"@ + text + "</h"@ + decimal(level) + ">"@;
    assert(heading_html(level, text) =~= heading_open(level, text) + shown + none);
    lemma_has_infix(heading_open(level, text), shown, none);
    assert("<pre>\n<code>"@ =~= "<pre>\n"@ + "<code>"@) by {
        reveal_strlit("<pre>\n<code>");
        reveal_strlit("<pre>\n");
        reveal_strlit("<code>");
    }
    assert("</code>\n</pre>"@ =~= "</code>"@ + "\n</pre>"@) by {
        reveal_strlit("</code>\n</pre>");
        reveal_strlit("</code>");
        reveal_strlit("\n</pre>");
    }
    let c = "<code>"@ + code + "</code>"@;
    assert(code_html(code) =~= "<pre>\n"@ + c + "\n</pre>"@);
    lemma_has_infix("<pre>\n"@, c, "\n</pre>"@);
    let kind = if ordered {
        "ordered"@
    } else {
        "unordered"@
    };
    let item = "-list-"@ + decimal(level) + ">"@ + paragraph_html(items) + "</li>"@;
    assert(li_html(level, Element::Paragraph(items), ordered) =~= ("<li class="@ + kind) + item
        + none);
    lemma_has_infix("<li class="@ + kind, item, none);
}

/// A heading of level 1: what gives a page its title.
pub open spec fn is_level_one_heading(el: Element) -> bool {
    el matches Element::Heading(level, _) && level == 1
}

proof fn lemma_first_title_at(tokens: Seq<Element>, i: int, text: Seq<char>)
    requires
        0 <= i < tokens.len(),
        tokens[i] == Element::Heading(1, text),
        forall|j: int| 0 <= j < i ==> !is_level_one_heading(#[trigger] tokens[j]),
    ensures
        first_title(tokens) == Some(text),
    decreases i,
{
    if i > 0 {
        assert(!is_level_one_heading(tokens[0]));
        let rest = tokens.drop_first();
        assert forall|j: int| 0 <= j < i - 1 implies !is_level_one_heading(#[trigger] rest[j]) by {
            assert(rest[j] == tokens[j + 1]);
        }
        lemma_first_title_at(rest, i - 1, text);
    }
}

proof fn lemma_first_title_none(tokens: Seq<Element>)
    requires
        forall|j: int| 0 <= j < tokens.len() ==> !is_level_one_heading(#[trigger] tokens[j]),
    ensures
        first_title(tokens) == None::<Seq<char>>,
    decreases tokens.len(),
{
    if tokens.len() > 0 {
        assert(!is_level_one_heading(tokens[0]));
        let rest = tokens.drop_first();
        assert forall|j: int|
            0 <= j < rest.len() implies !is_level_one_heading(#[trigger] rest[j]) by {
            assert(rest[j] == tokens[j + 1]);
        }
        lemma_first_title_none(rest);
    }
}

/// The document of a page names its title in its `<title>` element.
pub proof fn lemma_document_names_title(title: Seq<char>, body: Seq<char>)
    ensures
        has_substring(page_document(title, body), "<title>"@ + title + "</title>"@),
{
    let head = "<!DOCTYPE html>\n<html lang=\"en\">\n\n<head>\n  "@;
    let meta = "\n  <meta charset=\"UTF-8\">\n  <meta name=\"viewport\" content=\"width=device-width, initial-scale=1\">\n  <link href=\"css/style.css\" rel=\"stylesheet\">\n</head>\n"@;
    assert("<!DOCTYPE html>\n<html lang=\"en\">\n\n<head>\n  <title>"@ =~= head + "<title>"@) by {
        reveal_strlit("<!DOCTYPE html>\n<html lang=\"en\">\n\n<head>\n  <title>");
        reveal_strlit("<!DOCTYPE html>\n<html lang=\"en\">\n\n<head>\n  ");
        reveal_strlit("<title>");
    }
    assert("</title>\n  <meta charset=\"UTF-8\">\n  <meta name=\"viewport\" content=\"width=device-width, initial-scale=1\">\n  <link href=\"css/style.css\" rel=\"stylesheet\">\n</head>\n"@
        =~= "</title>"@ + meta) by {
        reveal_strlit("</title>\n  <meta charset=\"UTF-8\">\n  <meta name=\"viewport\" content=\"width=device-width, initial-scale=1\">\n  <link href=\"css/style.css\" rel=\"stylesheet\">\n</head>\n");
        reveal_strlit("</title>");
        reveal_strlit("\n  <meta charset=\"UTF-8\">\n  <meta name=\"viewport\" content=\"width=device-width, initial-scale=1\">\n  <link href=\"css/style.css\" rel=\"stylesheet\">\n</head>\n");
    }
    let named = "<title>"@ + title + "</title>"@;
    let after = meta + body + "\n<body>\n</body>\n</html>"@;
    assert(page_document(title, body) =~= head + named + after);
    lemma_has_infix(head, named, after);
}

/// The title of a page is the text of its first heading of level 1, exactly
/// as it was written, and the page's document names it in its `<title>`.
pub proof fn lemma_title_is_first_level_one_heading(
    tokens: Seq<Element>,
    i: int,
    text: Seq<char>,
    file_stem: Seq<char>,
)
    requires
        0 <= i < tokens.len(),
        tokens[i] == Element::Heading(1, text),
        forall|j: int| 0 <= j < i ==> !is_level_one_heading(#[trigger] tokens[j]),
    ensures
        rendered_page(tokens, file_stem).0 == text,
        has_substring(rendered_page(tokens, file_stem).1, "<title>"@ + text + "</title>"@),
{
    lemma_first_title_at(tokens, i, text);
    lemma_document_names_title(text, seq_join(page_pieces(tokens, 0, toc_html(tokens)), "\n"@));
}

/// A page without a heading of level 1 takes the name of its file as its
/// title, and its document names that in its `<title>`.
pub proof fn lemma_title_without_level_one_heading(tokens: Seq<Element>, file_stem: Seq<char>)
    requires
        forall|j: int| 0 <= j < tokens.len() ==> !is_level_one_heading(#[trigger] tokens[j]),
    ensures
        rendered_page(tokens, file_stem).0 == file_stem,
        has_substring(rendered_page(tokens, file_stem).1, "<title>"@ + file_stem + "</title>"@),
{
    lemma_first_title_none(tokens);
    lemma_document_names_title(
        file_stem,
        seq_join(page_pieces(tokens, 0, toc_html(tokens)), "\n"@),
    );
}

/// A list item of the given kind (ordered or not) at the given level.
pub open spec fn is_list_item(el: Element, level: nat, ordered: bool) -> bool {
    if ordered {
        el matches Element::OrderedList(l, _) && l == level
    } else {
        el matches Element::UnorderedList(l, _) && l == level
    }
}

proof fn lemma_run_of_same_items(tokens: Seq<Element>, j: int, level: nat, ordered: bool)
    requires
        0 <= j <= tokens.len(),
        forall|i: int| 0 <= i < tokens.len() ==> is_list_item(#[trigger] tokens[i], level, ordered),
    ensures
        list_run_len(tokens, j, level, ordered) == tokens.len() - j,
    decreases tokens.len() - j,
{
    if j < tokens.len() {
        assert(is_list_item(tokens[j], level, ordered));
        lemma_run_of_same_items(tokens, j + 1, level, ordered);
    }
}

/// Consecutive list items of one kind at one level make a single list: the
/// page gives them one piece, the HTML of all of them together.
pub proof fn lemma_same_level_items_form_one_list(
    tokens: Seq<Element>,
    level: nat,
    ordered: bool,
    toc: Seq<char>,
)
    requires
        tokens.len() > 0,
        forall|i: int| 0 <= i < tokens.len() ==> is_list_item(#[trigger] tokens[i], level, ordered),
    ensures
        page_pieces(tokens, 0, toc) == seq![list_html(tokens)],
{
    assert(is_list_item(tokens[0], level, ordered));
    lemma_run_of_same_items(tokens, 1, level, ordered);
    assert(tokens.subrange(0, tokens.len() as int) =~= tokens);
    assert(page_pieces(tokens, tokens.len() as int, toc) =~= Seq::<Seq<char>>::empty());
    assert(seq![list_html(tokens)] + Seq::<Seq<char>>::empty() =~= seq![list_html(tokens)]);
}

/// Two ordered items at the same level are one list: one `<ol>` before the
/// first item, no list tag between them, and one `</ol>` after the second.
pub proof fn lemma_two_ordered_items(level: nat, a: Seq<Element>, b: Seq<Element>, toc: Seq<char>)
    requires
        level >= 1,
    ensures
        page_pieces(
            seq![
                Element::OrderedList(level, Box::new(Element::Paragraph(a))),
                Element::OrderedList(level, Box::new(Element::Paragraph(b))),
            ],
            0,
            toc,
        ) == seq![
            "<ol>"@ + li_html(level, Element::Paragraph(a), true) + "\n"@ + li_html(
                level,
                Element::Paragraph(b),
                true,
            ) + "\n"@ + "</ol>"@,
        ],
{
    let x = Element::OrderedList(level, Box::new(Element::Paragraph(a)));
    let y = Element::OrderedList(level, Box::new(Element::Paragraph(b)));
    let tokens = seq![x, y];
    lemma_same_level_items_form_one_list(tokens, level, true, toc);
    let la = li_html(level, Element::Paragraph(a), true);
    let lb = li_html(level, Element::Paragraph(b), true);
    let st1 = list_step(0, seq![], x);
    assert(st1 == (level, seq![true], "<ol>"@ + la));
    let st2 = list_step(level, seq![true], y);
    assert(st2 == (level, seq![true], lb));
    assert(tokens.drop_first() =~= seq![y]);
    assert(seq![y].drop_first() =~= Seq::<Element>::empty());
    let r = list_pieces(tokens, 0, seq![]);
    assert(seq![y][0] == y);
    assert(list_pieces(Seq::<Element>::empty(), level, seq![true]) == (
        Seq::<Seq<char>>::empty(),
        seq![true],
    ));
    assert(seq![lb] + Seq::<Seq<char>>::empty() =~= seq![lb]);
    assert(list_pieces(seq![y], level, seq![true]) == (seq![lb], seq![true]));
    assert(r == (seq!["<ol>"@ + la, lb], seq![true]));
    assert(closers(seq![true]) =~= seq!["</ol>"@]);
    let all = seq!["<ol>"@ + la, lb, "</ol>"@];
    assert(r.0 + closers(r.1) =~= all);
    assert(all.drop_last() =~= seq!["<ol>"@ + la, lb]);
    assert(seq!["<ol>"@ + la, lb].drop_last() =~= seq!["<ol>"@ + la]);
    let two = seq!["<ol>"@ + la, lb];
    assert(seq![two[0]] == two.drop_last());
    assert(seq_join(seq![two[0]], "\n"@) == "<ol>"@ + la);
    assert(seq_join(two, "\n"@) == "<ol>"@ + la + "\n"@ + lb);
    assert(all.last() == "</ol>"@);
    assert(seq_join(all, "\n"@) == seq_join(two, "\n"@) + "\n"@ + "</ol>"@);
    assert(seq_join(all, "\n"@) =~= "<ol>"@ + la + "\n"@ + lb + "\n"@ + "</ol>"@);
}

/// An item one level deeper than an ordered item opens a list of its own
/// kind inside the ordered list, and the two lists are closed at the end,
/// the inner one first.
pub proof fn lemma_deeper_item_nests_a_list(
    a: Seq<Element>,
    b: Seq<Element>,
    inner_ordered: bool,
    toc: Seq<char>,
)
    ensures
        ({
            let x = Element::OrderedList(1, Box::new(Element::Paragraph(a)));
            let y = if inner_ordered {
                Element::OrderedList(2, Box::new(Element::Paragraph(b)))
            } else {
                Element::UnorderedList(2, Box::new(Element::Paragraph(b)))
            };
            page_pieces(seq![x, y], 0, toc) == seq![
                "<ol>"@ + li_html(1, Element::Paragraph(a), true) + "\n"@ + (if inner_ordered {
                    "<ol>"@
                } else {
                    "<ul>"@
                }) + li_html(2, Element::Paragraph(b), inner_ordered) + "\n"@ + (if inner_ordered {
                    "</ol>"@
                } else {
                    "</ul>"@
                }) + "\n"@ + "</ol>"@,
            ]
        }),
{
    let x = Element::OrderedList(1, Box::new(Element::Paragraph(a)));
    let y = if inner_ordered {
        Element::OrderedList(2, Box::new(Element::Paragraph(b)))
    } else {
        Element::UnorderedList(2, Box::new(Element::Paragraph(b)))
    };
    let tokens = seq![x, y];
    let opener = if inner_ordered {
        "<ol>"@
    } else {
        "<ul>"@
    };
    let closer = if inner_ordered {
        "</ol>"@
    } else {
        "</ul>"@
    };
    let la = li_html(1, Element::Paragraph(a), true);
    let lb = li_html(2, Element::Paragraph(b), inner_ordered);
    // the run holds both items
    assert(tokens[1] == y);
    assert(continues_list(y, 1, true));
    assert(list_run_len(tokens, 2, 1, true) == 0);
    assert(list_run_len(tokens, 1, 1, true) == 1);
    assert(tokens.subrange(0, 2) =~= tokens);
    assert(page_pieces(tokens, 2, toc) =~= Seq::<Seq<char>>::empty());
    assert(page_pieces(tokens, 0, toc) =~= seq![list_html(tokens)]);
    // the pieces of the run
    let st1 = list_step(0, seq![], x);
    assert(st1 == (1nat, seq![true], "<ol>"@ + la));
    let st2 = list_step(1, seq![true], y);
    assert(st2 == (2nat, seq![true, inner_ordered], opener + lb));
    assert(tokens.drop_first() =~= seq![y]);
    assert(seq![y].drop_first() =~= Seq::<Element>::empty());
    assert(seq![y][0] == y);
    assert(list_pieces(Seq::<Element>::empty(), 2, seq![true, inner_ordered]) == (
        Seq::<Seq<char>>::empty(),
        seq![true, inner_ordered],
    ));
    assert(seq![opener + lb] + Seq::<Seq<char>>::empty() =~= seq![opener + lb]);
    assert(list_pieces(seq![y], 1, seq![true]) == (seq![opener + lb], seq![true, inner_ordered]));
    let r = list_pieces(tokens, 0, seq![]);
    assert(r == (seq!["<ol>"@ + la, opener + lb], seq![true, inner_ordered]));
    assert(closers(seq![true, inner_ordered]) =~= seq![closer, "</ol>"@]);
    let all = seq!["<ol>"@ + la, opener + lb, closer, "</ol>"@];
    assert(r.0 + closers(r.1) =~= all);
    // joined with line feeds
    let one = seq!["<ol>"@ + la];
    let two = seq!["<ol>"@ + la, opener + lb];
    let three = seq!["<ol>"@ + la, opener + lb, closer];
    assert(two.drop_last() =~= one);
    assert(three.drop_last() =~= two);
    assert(all.drop_last() =~= three);
    assert(seq_join(one, "\n"@) == "<ol>"@ + la);
    assert(seq_join(two, "\n"@) == "<ol>"@ + la + "\n"@ + (opener + lb));
    assert(seq_join(three, "\n"@) == seq_join(two, "\n"@) + "\n"@ + closer);
    assert(seq_join(all, "\n"@) == seq_join(three, "\n"@) + "\n"@ + "</ol>"@);
    assert(seq_join(all, "\n"@) =~= "<ol>"@ + la + "\n"@ + opener + lb + "\n"@ + closer + "\n"@
        + "</ol>"@);
}

/// A list item of either kind.
pub open spec fn is_list_token(el: Element) -> bool {
    el is OrderedList || el is UnorderedList
}

proof fn lemma_pieces_without_lists(tokens: Seq<Element>, i: int, toc: Seq<char>)
    requires
        0 <= i <= tokens.len(),
        forall|j: int| 0 <= j < tokens.len() ==> !is_list_token(#[trigger] tokens[j]),
    ensures
        page_pieces(tokens, i, toc) =~= Seq::new(
            (tokens.len() - i) as nat,
            |k: int| block_html(tokens[i + k], toc),
        ),
    decreases tokens.len() - i,
{
    if i < tokens.len() {
        assert(!is_list_token(tokens[i]));
        lemma_pieces_without_lists(tokens, i + 1, toc);
    }
}

/// On a page without list items every token gets a piece of its own, in
/// order, so the HTML of each token stands in the page's document: the
/// marker of the table of contents, in particular, puts the table of
/// contents there.
pub proof fn lemma_page_without_lists_shows_every_token(
    tokens: Seq<Element>,
    file_stem: Seq<char>,
    i: int,
)
    requires
        0 <= i < tokens.len(),
        forall|j: int| 0 <= j < tokens.len() ==> !is_list_token(#[trigger] tokens[j]),
    ensures
        has_substring(rendered_page(tokens, file_stem).1, block_html(tokens[i], toc_html(tokens))),
        tokens[i] == Element::TocMarker ==> has_substring(
            rendered_page(tokens, file_stem).1,
            toc_html(tokens),
        ),
{
    let toc = toc_html(tokens);
    let pieces = page_pieces(tokens, 0, toc);
    lemma_pieces_without_lists(tokens, 0, toc);
    assert(pieces[i] == block_html(tokens[i], toc));
    lemma_seq_join_has_piece(pieces, "\n"@, i);
    let title = page_title(tokens, file_stem);
    let body = seq_join(pieces, "\n"@);
    let before = "<!DOCTYPE html>\n<html lang=\"en\">\n\n<head>\n  <title>"@ + title
        + "</title>\n  <meta charset=\"UTF-8\">\n  <meta name=\"viewport\" content=\"width=device-width, initial-scale=1\">\n  <link href=\"css/style.css\" rel=\"stylesheet\">\n</head>\n"@;
    lemma_substring_widen(before, body, "\n<body>\n</body>\n</html>"@, pieces[i]);
    assert(before + body + "\n<body>\n</body>\n</html>"@ =~= page_document(title, body));
}

/// A token that continues a run of list items that started with an item of
/// level `level` (ordered or not): an item of the same kind at that level or
/// deeper, or one of the other kind deeper.
pub open spec fn continues_list(el: Element, level: nat, ordered: bool) -> bool {
    match el {
        Element::OrderedList(l, _) => if ordered {
            l >= level
        } else {
            l > level
        },
        Element::UnorderedList(l, _) => if ordered {
            l > level
        } else {
            l >= level
        },
        _ => false,
    }
}

/// The number of tokens from `j` on that continue a list run.
pub open spec fn list_run_len(tokens: Seq<Element>, j: int, level: nat, ordered: bool) -> nat
    decreases tokens.len() - j,
{
    if 0 <= j < tokens.len() && continues_list(tokens[j], level, ordered) {
        1 + list_run_len(tokens, j + 1, level, ordered)
    } else {
        0
    }
}

pub proof fn lemma_list_run_len_bound(tokens: Seq<Element>, j: int, level: nat, ordered: bool)
    requires
        0 <= j <= tokens.len(),
    ensures
        j + list_run_len(tokens, j, level, ordered) <= tokens.len(),
    decreases tokens.len() - j,
{
    if j < tokens.len() {
        lemma_list_run_len_bound(tokens, j + 1, level, ordered);
    }
}

/// The HTML of a token that is not a list item.
pub open spec fn block_html(el: Element, toc: Seq<char>) -> Seq<char> {
    match el {
        Element::TocMarker => toc,
        Element::Heading(level, text) => heading_html(level, text),
        Element::Codeblock(_, code) => code_html(code),
        Element::HorizontalLine => "<hr>"@,
        Element::Newline => "\n"@,
        Element::Whitespace(space) => space,
        Element::Paragraph(items) => "<p>"@ + paragraph_html(items) + "</p>"@,
        _ => seq![],
    }
}

/// The HTML pieces of the tokens from `i` on: one for each token, but one for
/// each run of list items.
pub open spec fn page_pieces(tokens: Seq<Element>, i: int, toc: Seq<char>) -> Seq<Seq<char>>
    decreases tokens.len() - i,
{
    if i < 0 || i >= tokens.len() {
        seq![]
    } else {
        match tokens[i] {
            Element::OrderedList(level, _) => {
                let n = list_run_len(tokens, i + 1, level, true);
                proof {
                    lemma_list_run_len_bound(tokens, i + 1, level, true);
                }
                seq![list_html(tokens.subrange(i, i + 1 + n))] + page_pieces(tokens, i + 1 + n, toc)
            },
            Element::UnorderedList(level, _) => {
                let n = list_run_len(tokens, i + 1, level, false);
                proof {
                    lemma_list_run_len_bound(tokens, i + 1, level, false);
                }
                seq![list_html(tokens.subrange(i, i + 1 + n))] + page_pieces(tokens, i + 1 + n, toc)
            },
            _ => seq![block_html(tokens[i], toc)] + page_pieces(tokens, i + 1, toc),
        }
    }
}

/// The text of the first heading of level 1, if there is one.
pub open spec fn first_title(tokens: Seq<Element>) -> Option<Seq<char>>
    decreases tokens.len(),
{
    if tokens.len() == 0 {
        None
    } else {
        match tokens[0] {
            Element::Heading(level, text) => if level == 1 {
                Some(text)
            } else {
                first_title(tokens.drop_first())
            },
            _ => first_title(tokens.drop_first()),
        }
    }
}

/// The title of a page: the text of its first heading of level 1, or else
/// the name of its file (which stands for the heading of level 1).
pub open spec fn page_title(tokens: Seq<Element>, file_stem: Seq<char>) -> Seq<char> {
    match first_title(tokens) {
        Some(text) => text,
        None => file_stem,
    }
}

/// The whole HTML document of a page.
pub open spec fn page_document(title: Seq<char>, body: Seq<char>) -> Seq<char> {
    "<!DOCTYPE html>\n<html lang=\"en\">\n\n<head>\n  <title>"@ + title
        + "</title>\n  <meta charset=\"UTF-8\">\n  <meta name=\"viewport\" content=\"width=device-width, initial-scale=1\">\n  <link href=\"css/style.css\" rel=\"stylesheet\">\n</head>\n"@
        + body + "\n<body>\n</body>\n</html>"@
}

/// A list item's text is a paragraph (any other token passes).
pub open spec fn list_text_is_paragraph(el: Element) -> bool {
    match el {
        Element::OrderedList(_, text) => (*text) is Paragraph,
        Element::UnorderedList(_, text) => (*text) is Paragraph,
        _ => true,
    }
}

/// The text of every list item is a paragraph.
pub open spec fn list_items_are_paragraphs(tokens: Seq<Element>) -> bool {
    forall|i: int| 0 <= i < tokens.len() ==> #[trigger] list_text_is_paragraph(tokens[i])
}

/// The title and the HTML document that `generate_page` makes of a page's
/// tokens, the page's file being named `file_stem`.
pub open spec fn rendered_page(tokens: Seq<Element>, file_stem: Seq<char>) -> (Seq<char>, Seq<char>) {
    let title = page_title(tokens, file_stem);
    (title, page_document(title, seq_join(page_pieces(tokens, 0, toc_html(tokens)), "\n"@)))
}

// ---------------------------------------------------------------------------
// Writing the HTML.
// ---------------------------------------------------------------------------
/// Appends the HTML of an element inside a paragraph.
fn push_inline(res: &mut String, el: &MarkdownElement)
    ensures
        final(res)@ == old(res)@ + inline_html(el@),
{
    let ghost start = res@;
    match el {
        MarkdownElement::Image(text, link) => {
            res.append("<figure><img class='image' src=\"");
            res.append(link.as_str());
            res.append("\" alt=\"");
            res.append(text.as_str());
            res.append("\"><figcaption>");
            res.append(text.as_str());
            res.append("</figcaption></figure>");
            assert(res@ =~= start + inline_html(el@));
        },
        MarkdownElement::WikiLink(text, link) => {
            res.append("<a href=");
            res.append(link.as_str());
            res.append(">");
            res.append(text.as_str());
            res.append("</a>");
            assert(res@ =~= start + inline_html(el@));
        },
        MarkdownElement::Hyperlink(text, link) => {
            res.append("<a href=");
            res.append(link.as_str());
            res.append(">");
            res.append(text.as_str());
            res.append("</a>");
            assert(res@ =~= start + inline_html(el@));
        },
        MarkdownElement::InlineCode(code) => {
            res.append("<code>");
            res.append(code.as_str());
            res.append("</code>");
            assert(res@ =~= start + inline_html(el@));
        },
        MarkdownElement::BoldItalics(text) => {
            res.append("<b><em>");
            res.append(text.as_str());
            res.append("</em></b>");
            assert(res@ =~= start + inline_html(el@));
        },
        MarkdownElement::Italics(text) => {
            res.append("<em>");
            res.append(text.as_str());
            res.append("</em>");
            assert(res@ =~= start + inline_html(el@));
        },
        MarkdownElement::Bold(text) => {
            res.append("<b>");
            res.append(text.as_str());
            res.append("</b>");
            assert(res@ =~= start + inline_html(el@));
        },
        MarkdownElement::Whitespace(space) => {
            res.append(space.as_str());
        },
        MarkdownElement::PlainText(text) => {
            res.append(text.as_str());
        },
        _ => {
            assert(res@ =~= start + inline_html(el@));
        },
    }
}

/// The HTML of the elements of a paragraph.
pub fn paragraph_generator(tokens: &Vec<MarkdownElement>) -> (res: Html)
    ensures
        res@ == paragraph_html(elements_view(tokens@)),
{
    let ghost all = elements_view(tokens@);
    let mut res = String::new();
    let mut k: usize = 0;
    assert(all.take(0) =~= Seq::<Element>::empty());
    while k < tokens.len()
        invariant
            k <= tokens@.len(),
            all == elements_view(tokens@),
            res@ == paragraph_html(all.take(k as int)),
        decreases tokens@.len() - k,
    {
        assert(all.take(k + 1).drop_last() =~= all.take(k as int));
        assert(all.take(k + 1).last() == tokens@[k as int]@);
        push_inline(&mut res, &tokens[k]);
        k = k + 1;
    }
    assert(all.take(k as int) =~= all);
    res
}

fn heading_generator(level: usize, text: &str) -> (res: Html)
    ensures
        res@ == heading_html(level as nat, text@),
{
    let mut res = String::from_str("<h");
    push_decimal(&mut res, level);
    res.append(" id=");
    let anchor = remove_all_special(text);
    res.append(anchor.as_str());
    res.append(" ");
    res.append("class=main-h");
    push_decimal(&mut res, level);
    res.append(">");
    res.append(text);
    res.append("</h");
    push_decimal(&mut res, level);
    res.append(">");
    res
}

fn li_generator(level: usize, text: &MarkdownElement, add_ordered_classname: bool) -> (res: Html)
    requires
        text@ is Paragraph,
    ensures
        res@ == li_html(level as nat, text@, add_ordered_classname),
{
    match text {
        MarkdownElement::Paragraph(tokens) => {
            proof {
                lemma_paragraph_view(*tokens);
            }
            let mut res = String::from_str("<li class=");
            if add_ordered_classname {
                res.append("ordered");
            } else {
                res.append("unordered");
            }
            res.append("-list-");
            push_decimal(&mut res, level);
            res.append(">");
            let inner = paragraph_generator(tokens);
            res.append(inner.as_str());
            res.append("</li>");
            res
        },
        _ => String::new(),
    }
}

fn opener_of(ordered: bool) -> (res: &'static str)
    ensures
        res@ == list_opener(ordered),
{
    if ordered {
        "<ol>"
    } else {
        "<ul>"
    }
}

fn closer_of(ordered: bool) -> (res: &'static str)
    ensures
        res@ == list_closer(ordered),
{
    if ordered {
        "</ol>"
    } else {
        "</ul>"
    }
}

/// One list item: updates the level and the open lists, and returns the HTML
/// of the item with the tags that close and open lists before it.
fn list_item_piece(
    current: &mut usize,
    open: &mut Vec<bool>,
    level: usize,
    ordered: bool,
    text: &MarkdownElement,
) -> (piece: String)
    requires
        text@ is Paragraph,
        *old(current) > 0 ==> old(open)@.len() > 0,
    ensures
        (*final(current) as nat, final(open)@, piece@) == list_item_step(
            *old(current) as nat,
            old(open)@,
            level as nat,
            ordered,
            text@,
        ),
        *final(current) > 0 ==> final(open)@.len() > 0,
{
    let li = li_generator(level, text, ordered);
    let mut piece = String::new();
    if *current < level {
        open.push(ordered);
        *current = level;
        piece.append(opener_of(ordered));
    } else if *current == level {
        if open.len() > 0 && open[open.len() - 1] != ordered {
            open.pop();
            open.push(ordered);
            piece.append(closer_of(!ordered));
            piece.append(opener_of(ordered));
        }
    } else {
        let last = open.pop().unwrap();
        open.push(ordered);
        *current = level;
        piece.append(closer_of(last));
        piece.append(opener_of(ordered));
    }
    piece.append(li.as_str());
    piece
}

/// The HTML of the run of list items `tokens[a..b]`, every list it opens
/// closed at the end.
fn complete_list_generator(tokens: &Vec<MarkdownElement>, a: usize, b: usize) -> (res: Html)
    requires
        a <= b <= tokens@.len(),
        list_items_are_paragraphs(elements_view(tokens@)),
    ensures
        res@ == list_html(elements_view(tokens@).subrange(a as int, b as int)),
{
    let ghost items = elements_view(tokens@).subrange(a as int, b as int);
    let mut current: usize = 0;
    let mut open: Vec<bool> = Vec::new();
    let mut pieces: Vec<String> = Vec::new();
    let mut k = a;
    assert(items.skip(0) =~= items);
    assert(strings_view(pieces@) + list_pieces(items, 0, seq![]).0 =~= list_pieces(
        items,
        0,
        seq![],
    ).0);
    while k < b
        invariant
            a <= k <= b <= tokens@.len(),
            items == elements_view(tokens@).subrange(a as int, b as int),
            list_items_are_paragraphs(elements_view(tokens@)),
            current > 0 ==> open@.len() > 0,
            list_pieces(items, 0, seq![]).0 == strings_view(pieces@) + list_pieces(
                items.skip(k - a),
                current as nat,
                open@,
            ).0,
            list_pieces(items, 0, seq![]).1 == list_pieces(
                items.skip(k - a),
                current as nat,
                open@,
            ).1,
        decreases b - k,
    {
        let ghost rest = items.skip(k - a);
        assert(rest[0] == tokens@[k as int]@);
        assert(rest.drop_first() =~= items.skip(k + 1 - a));
        let ghost before = strings_view(pieces@);
        let ghost st = list_step(current as nat, open@, tokens@[k as int]@);
        let piece = match &tokens[k] {
            MarkdownElement::OrderedList(level, text) => {
                assert(elements_view(tokens@)[k as int] == tokens@[k as int]@);
                assert(list_text_is_paragraph(elements_view(tokens@)[k as int]));
                list_item_piece(&mut current, &mut open, *level, true, text)
            },
            MarkdownElement::UnorderedList(level, text) => {
                assert(elements_view(tokens@)[k as int] == tokens@[k as int]@);
                assert(list_text_is_paragraph(elements_view(tokens@)[k as int]));
                list_item_piece(&mut current, &mut open, *level, false, text)
            },
            _ => String::new(),
        };
        assert(st == (current as nat, open@, piece@));
        pieces.push(piece);
        assert(strings_view(pieces@) =~= before.push(piece@));
        assert(before + (seq![piece@] + list_pieces(items.skip(k + 1 - a), current as nat, open@).0)
            =~= strings_view(pieces@) + list_pieces(items.skip(k + 1 - a), current as nat, open@).0);
        k = k + 1;
    }
    assert(items.skip(k - a) =~= Seq::<Element>::empty());
    let ghost base = strings_view(pieces@);
    assert(base + list_pieces(items.skip(k - a), current as nat, open@).0 =~= base);
    let n = open.len();
    let mut j: usize = 0;
    assert(closers(open@).take(0) =~= Seq::<Seq<char>>::empty());
    assert(base + closers(open@).take(0) =~= base);
    while j < n
        invariant
            j <= n == open@.len(),
            strings_view(pieces@) == base + closers(open@).take(j as int),
        decreases n - j,
    {
        let closer = String::from_str(closer_of(open[n - 1 - j]));
        assert(closers(open@)[j as int] == list_closer(open@[n - 1 - j]));
        let ghost prev = strings_view(pieces@);
        pieces.push(closer);
        assert(strings_view(pieces@) =~= prev.push(closer@));
        assert(closers(open@).take(j + 1) =~= closers(open@).take(j as int).push(
            closers(open@)[j as int],
        ));
        j = j + 1;
    }
    assert(closers(open@).take(n as int) =~= closers(open@));
    join_strings(&pieces, "\n")
}

fn code_generator(_language: &String, code: &String) -> (res: Html)
    ensures
        res@ == code_html(code@),
{
    let mut res = String::from_str("<pre>\n<code>");
    res.append(code.as_str());
    res.append("</code>\n</pre>");
    res
}

fn continues_list_of(el: &MarkdownElement, level: usize, ordered: bool) -> (b: bool)
    ensures
        b == continues_list(el@, level as nat, ordered),
{
    match el {
        MarkdownElement::OrderedList(l, _) => if ordered {
            *l >= level
        } else {
            *l > level
        },
        MarkdownElement::UnorderedList(l, _) => if ordered {
            *l > level
        } else {
            *l >= level
        },
        _ => false,
    }
}

/// The end of the run of list items that continues the one at `i`.
fn list_run_end(tokens: &Vec<MarkdownElement>, i: usize, level: usize, ordered: bool) -> (j: usize)
    requires
        i < tokens@.len(),
    ensures
        j == i + 1 + list_run_len(elements_view(tokens@), i + 1, level as nat, ordered),
        j <= tokens@.len(),
{
    let ghost all = elements_view(tokens@);
    let _len = tokens.len();
    let mut j = i + 1;
    while j < tokens.len() && continues_list_of(&tokens[j], level, ordered)
        invariant
            i + 1 <= j <= tokens@.len(),
            all == elements_view(tokens@),
            list_run_len(all, i + 1, level as nat, ordered) == (j - (i + 1)) + list_run_len(
                all,
                j as int,
                level as nat,
                ordered,
            ),
        decreases tokens@.len() - j,
    {
        assert(all[j as int] == tokens@[j as int]@);
        j = j + 1;
    }
    if j < tokens.len() {
        assert(all[j as int] == tokens@[j as int]@);
    }
    j
}

/// The title of the page: the text of its first heading of level 1, or else
/// the name of its file.
fn title_of(tokens: &Vec<MarkdownElement>, file_stem: &str) -> (title: String)
    ensures
        title@ == page_title(elements_view(tokens@), file_stem@),
{
    let ghost all = elements_view(tokens@);
    let mut k: usize = 0;
    assert(all.skip(0) =~= all);
    while k < tokens.len()
        invariant
            k <= tokens@.len(),
            all == elements_view(tokens@),
            first_title(all) == first_title(all.skip(k as int)),
        decreases tokens@.len() - k,
    {
        let ghost rest = all.skip(k as int);
        assert(rest[0] == tokens@[k as int]@);
        assert(rest.drop_first() =~= all.skip(k + 1));
        match &tokens[k] {
            MarkdownElement::Heading(level, heading) => {
                if *level == 1 {
                    return heading.clone();
                }
            },
            _ => {},
        }
        k = k + 1;
    }
    assert(all.skip(k as int) =~= Seq::<Element>::empty());
    String::from_str(file_stem)
}

/// The HTML of a token that is not a list item.
fn block_generator(el: &MarkdownElement, toc: &String) -> (res: Html)
    ensures
        res@ == block_html(el@, toc@),
{
    match el {
        MarkdownElement::TocMarker => toc.clone(),
        MarkdownElement::Heading(level, text) => heading_generator(*level, text.as_str()),
        MarkdownElement::Codeblock(language, code) => code_generator(language, code),
        MarkdownElement::HorizontalLine => String::from_str("<hr>"),
        MarkdownElement::Newline => String::from_str("\n"),
        MarkdownElement::Whitespace(space) => space.clone(),
        MarkdownElement::Paragraph(paragraph) => {
            proof {
                lemma_paragraph_view(*paragraph);
            }
            let mut res = String::from_str("<p>");
            let inner = paragraph_generator(paragraph);
            res.append(inner.as_str());
            res.append("</p>");
            res
        },
        _ => String::new(),
    }
}

/// Writes the HTML document of a page from its tokens, and gives the page's
/// title: the text of its first heading of level 1, or, in a page without
/// one, the name of its file `file_stem` (without folders and `.md`). Each token gives one
/// piece of the body, but each run of list items gives one piece of nested
/// lists; a table-of-contents marker gives the table of contents of the
/// whole page.
pub fn generate_page(tokens: Vec<MarkdownElement>, file_stem: &str) -> (res: Result<
    (String, Html),
    String,
>)
    requires
        list_items_are_paragraphs(elements_view(tokens@)),
    ensures
        res matches Ok((title, html)) && (title@, html@) == rendered_page(
            elements_view(tokens@),
            file_stem@,
        ),
{
    let ghost all = elements_view(tokens@);
    let title = title_of(&tokens, file_stem);
    let toc = toc_of(&tokens);
    let mut pieces: Vec<String> = Vec::new();
    let mut i: usize = 0;
    assert(strings_view(pieces@) + page_pieces(all, 0, toc@) =~= page_pieces(all, 0, toc@));
    while i < tokens.len()
        invariant
            i <= tokens@.len(),
            all == elements_view(tokens@),
            list_items_are_paragraphs(all),
            page_pieces(all, 0, toc@) == strings_view(pieces@) + page_pieces(all, i as int, toc@),
        decreases tokens@.len() - i,
    {
        assert(all[i as int] == tokens@[i as int]@);
        let ghost before = strings_view(pieces@);
        let (next, piece) = match &tokens[i] {
            MarkdownElement::OrderedList(level, _) => {
                let next = list_run_end(&tokens, i, *level, true);
                (next, complete_list_generator(&tokens, i, next))
            },
            MarkdownElement::UnorderedList(level, _) => {
                let next = list_run_end(&tokens, i, *level, false);
                (next, complete_list_generator(&tokens, i, next))
            },
            _ => (i + 1, block_generator(&tokens[i], &toc)),
        };
        pieces.push(piece);
        assert(strings_view(pieces@) =~= before.push(piece@));
        assert(before + (seq![piece@] + page_pieces(all, next as int, toc@)) =~= strings_view(
            pieces@,
        ) + page_pieces(all, next as int, toc@));
        i = next;
    }
    assert(strings_view(pieces@) + page_pieces(all, i as int, toc@) =~= strings_view(pieces@));
    let html = join_strings(&pieces, "\n");
    let mut document = String::from_str("<!DOCTYPE html>\n<html lang=\"en\">\n\n<head>\n  <title>");
    document.append(title.as_str());
    document.append(
        "</title>\n  <meta charset=\"UTF-8\">\n  <meta name=\"viewport\" content=\"width=device-width, initial-scale=1\">\n  <link href=\"css/style.css\" rel=\"stylesheet\">\n</head>\n",
    );
    document.append(html.as_str());
    document.append("\n<body>\n</body>\n</html>");
    Ok((title, document))
}

} // verus!
