use blog_on_it::generator::page_generator::{generate_page, paragraph_generator};
use blog_on_it::generator::toc_generator::generate_toc;
use blog_on_it::parser::markdown_elements::MarkdownElement;
use blog_on_it::parser::page_parser::parse_page;
use blog_on_it::utils::remove_all_special;
use blog_on_it::{parse_and_generator, try_parse_and_generator};

const HEAD_START: &str = "<!DOCTYPE html>\n<html lang=\"en\">\n\n<head>\n  <title>";
const HEAD_END: &str = "</title>\n  <meta charset=\"UTF-8\">\n  <meta name=\"viewport\" content=\"width=device-width, initial-scale=1\">\n  <link href=\"css/style.css\" rel=\"stylesheet\">\n</head>\n";
const TAIL: &str = "\n<body>\n</body>\n</html>";

fn document(title: &str, body: &str) -> String {
    format!("{}{}{}{}{}", HEAD_START, title, HEAD_END, body, TAIL)
}

fn body_of(page: &str) -> (String, String) {
    let (title, html) = parse_and_generator(page, "post");
    let prefix = format!("{}{}{}", HEAD_START, title, HEAD_END);
    assert!(html.starts_with(&prefix));
    assert!(html.ends_with(TAIL));
    (title.clone(), html[prefix.len()..html.len() - TAIL.len()].to_string())
}

#[test]
fn remove_all_special_cleans_anchors() {
    assert_eq!(remove_all_special("Hello, World: (a) <b>."), "Hello_World_a_b");
    assert_eq!(remove_all_special("it's \"q\";\r\n"), "its_q");
    assert_eq!(remove_all_special("tab\there"), "tab\there");
}

#[test]
fn remove_all_special_is_idempotent_on_an_example() {
    let once = remove_all_special("A (b), c: d.");
    assert_eq!(remove_all_special(&once), once);
}

#[test]
fn page_with_title_and_paragraph() {
    let (title, html) = parse_and_generator("# Title\nSome *text* here\n", "post");
    assert_eq!(title, "Title");
    assert_eq!(
        html,
        document(
            "Title",
            "<h1 id=Title class=main-h1>Title</h1>\n\n\n<p>Some <em>text</em> here</p>\n\n\n\n"
        )
    );
}

#[test]
fn page_without_level_one_heading_takes_the_file_name() {
    let (title, body) = body_of("## Sub\n");
    assert_eq!(title, "post");
    assert_eq!(body, "<h2 id=Sub class=main-h2>Sub</h2>\n\n\n\n");
}

#[test]
fn nested_unordered_list_then_ordered_list() {
    let (_, body) = body_of("- a\n  - b\n1. c\n");
    assert_eq!(
        body,
        "<ul><li class=unordered-list-1>a</li>\n<ul><li class=unordered-list-3>b</li>\n</ul>\n</ul>\n<ol><li class=ordered-list-1>c</li>\n</ol>\n\n"
    );
}

#[test]
fn list_kind_switch_at_same_level() {
    let (_, body) = body_of("1. a\n  - b\n  1. c\n");
    assert_eq!(
        body,
        "<ol><li class=ordered-list-1>a</li>\n<ul><li class=unordered-list-3>b</li>\n</ul><ol><li class=ordered-list-3>c</li>\n</ol>\n</ol>\n\n"
    );
}

#[test]
fn list_going_back_up_a_level() {
    let (_, body) = body_of("- a\n    - b\n  - c\n");
    assert_eq!(
        body,
        "<ul><li class=unordered-list-1>a</li>\n<ul><li class=unordered-list-5>b</li>\n</ul><ul><li class=unordered-list-3>c</li>\n</ul>\n</ul>\n\n"
    );
}

#[test]
fn codeblock_page() {
    let (_, body) = body_of("```rust\nfn main() {}\n```\n");
    assert_eq!(body, "<pre>\n<code>fn main() {}</code>\n</pre>\n\n\n\n");
}

#[test]
fn links_and_images_page() {
    let (_, body) = body_of("[Rust](https://rust-lang.org) and [[Page|Alias]] ![[pic.png]]\n");
    assert_eq!(
        body,
        "<p><a href=https://rust-lang.org>Rust</a>and<a href=Page>Alias</a><figure><img class='image' src=\"pic.png\" alt=\"\"><figcaption></figcaption></figure></p>\n\n\n\n"
    );
}

#[test]
fn bold_and_code_page() {
    let (_, body) = body_of("**bold** __also__ ***bi*** `x`");
    assert_eq!(
        body,
        "<p><b>bold</b> <b>also</b> <b><em>bi</em></b> <code>x</code></p>\n\n"
    );
}

#[test]
fn rule_page() {
    let (_, body) = body_of("---\n");
    assert_eq!(body, "<hr>\n\n");
}

#[test]
fn toc_marker_page() {
    let (_, body) = body_of("%-%TOC%-%\n## A\n");
    assert_eq!(
        body,
        "<ol><li class=toc-h2><a href='#A'>A</a></li>\n</ol>\n\n\n<h2 id=A class=main-h2>A</h2>\n\n\n\n"
    );
}

#[test]
fn table_of_contents_levels() {
    let tokens = parse_page("# T\n## A b\n### C\n## D\n").ok().unwrap();
    assert_eq!(
        generate_toc(tokens).ok().unwrap(),
        "<ol><li class=toc-h2><a href='#A_b'>A b</a></li>\n\n<ol><li class=toc-h3><a href='#C'>C</a></li>\n\n</ol><li class=toc-h2><a href='#D'>D</a></li>\n</ol>"
    );
}

#[test]
fn table_of_contents_of_no_heading() {
    assert_eq!(generate_toc(Vec::new()).ok().unwrap(), "</ol>");
}

#[test]
fn table_of_contents_skips_level_one() {
    let with_h1 = vec![
        MarkdownElement::Heading(1, "Top".to_string()),
        MarkdownElement::Heading(2, "Sub".to_string()),
    ];
    let without_h1 = vec![MarkdownElement::Heading(2, "Sub".to_string())];
    assert_eq!(
        generate_toc(with_h1).ok().unwrap(),
        generate_toc(without_h1).ok().unwrap()
    );
}

#[test]
fn generate_page_title_is_first_level_one_heading() {
    let tokens = vec![
        MarkdownElement::Heading(2, "x".to_string()),
        MarkdownElement::Heading(1, "First".to_string()),
        MarkdownElement::Heading(1, "Second".to_string()),
    ];
    let (title, _) = generate_page(tokens, "file").ok().unwrap();
    assert_eq!(title, "First");
}

#[test]
fn heading_level_with_two_digits() {
    let tokens = vec![MarkdownElement::Heading(12, "x y".to_string())];
    let (title, html) = generate_page(tokens, "name").ok().unwrap();
    assert_eq!(title, "name");
    assert_eq!(
        html,
        document("name", "<h12 id=x_y class=main-h12>x y</h12>")
    );
}

#[test]
fn unparsable_page_is_refused() {
    assert!(try_parse_and_generator("\\q", "a").is_none());
    assert!(try_parse_and_generator("ok\n\\q", "a").is_none());
    assert!(try_parse_and_generator("ok", "a").is_some());
}

#[test]
fn empty_level_one_heading_is_still_the_title() {
    let (title, _) = parse_and_generator("# \nx\n", "file");
    assert_eq!(title, "");
}

#[test]
fn generate_page_without_heading_uses_the_file_name() {
    let tokens = vec![MarkdownElement::Newline];
    let (title, html) = generate_page(tokens, "My Post").ok().unwrap();
    assert_eq!(title, "My Post");
    assert_eq!(html, document("My Post", "\n"));
}

#[test]
fn toc_link_matches_heading_id() {
    let (_, body) = body_of("%-%TOC%-%\n## A b: c\n");
    assert!(body.contains("<a href='#A_b_c'>A b: c</a>"));
    assert!(body.contains("<h2 id=A_b_c class=main-h2>A b: c</h2>"));
}

#[test]
fn cloned_tokens_render_the_same() {
    let tokens = parse_page("# T\n- a *b*\n").ok().unwrap();
    let copy: Vec<MarkdownElement> = tokens.iter().map(|t| t.clone()).collect();
    let a = generate_page(tokens, "x").ok().unwrap();
    let b = generate_page(copy, "x").ok().unwrap();
    assert_eq!(a, b);
}

#[test]
fn paragraph_html_of_joined_paragraphs() {
    let a = vec![
        MarkdownElement::PlainText("x".to_string()),
        MarkdownElement::Bold("y".to_string()),
    ];
    let b = vec![
        MarkdownElement::Whitespace(" ".to_string()),
        MarkdownElement::InlineCode("z".to_string()),
    ];
    let joined: Vec<MarkdownElement> = a.iter().chain(b.iter()).map(|t| t.clone()).collect();
    assert_eq!(
        paragraph_generator(&joined),
        paragraph_generator(&a) + &paragraph_generator(&b)
    );
    assert_eq!(paragraph_generator(&joined), "x<b>y</b> <code>z</code>");
    assert_eq!(paragraph_generator(&Vec::new()), "");
}
