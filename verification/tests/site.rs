use blog_on_it::site::{
    file_stem, html_path, index_md_path, index_page, order_entries, plan_entry, post_link,
    source_root, EntryAction,
};

fn plan(entry: &str, is_dir: bool, root: &str) -> String {
    match plan_entry(entry, is_dir, root) {
        EntryAction::CreateDirectory(p) => format!("dir {}", p),
        EntryAction::SkipIndex => "skip".to_string(),
        EntryAction::CopyFile(p) => format!("copy {}", p),
        EntryAction::ConvertMarkdown(p) => format!("md {}", p),
    }
}

#[test]
fn source_root_ends_with_slash() {
    assert_eq!(source_root("notes"), "notes/");
    assert_eq!(source_root("notes/"), "notes/");
    assert_eq!(source_root(""), "/");
}

#[test]
fn index_md_is_found_under_the_root() {
    assert_eq!(index_md_path("notes"), "notes/index.md");
    assert_eq!(index_md_path("notes/"), "notes/index.md");
}

#[test]
fn entries_are_planned() {
    assert_eq!(plan("notes/a b.md", false, "notes/"), "md website/a_bmd");
    assert_eq!(plan("notes/index.md", false, "notes/"), "skip");
    assert_eq!(plan("notes/img.png", false, "notes/"), "copy website/imgpng");
    assert_eq!(plan("notes/sub", true, "notes/"), "dir website/sub");
    assert_eq!(plan("notes/sub/index.md", false, "notes/"), "md website/sub/indexmd");
    assert_eq!(plan("notes/x.md.txt", false, "notes/"), "copy website/xmdtxt");
    assert_eq!(plan("notes/md", false, "notes/"), "copy website/md");
    assert_eq!(plan("md", false, ""), "md website/md");
}

#[test]
fn page_paths_and_links() {
    assert_eq!(html_path("website/a_bmd"), "website/a_b.html");
    assert_eq!(
        post_link("website/a_b.html", "T"),
        "<li><a href='a_b.html'>T</a></li>\n"
    );
}

#[test]
fn index_page_lists_posts_newest_first() {
    let head = "<!DOCTYPE html>\n<html lang=\"en\">\n\n<head>\n  <title>Blog</title>\n  <meta charset=\"UTF-8\">\n  <meta name=\"viewport\" content=\"width=device-width, initial-scale=1\">\n  <link href=\"css/style.css\" rel=\"stylesheet\">\n</head>\n<body>\n";
    let posts = vec![
        ("<li>1</li>\n".to_string(), 10),
        ("<li>2</li>\n".to_string(), 20),
    ];
    assert_eq!(
        index_page("Blog", None, &posts),
        format!(
            "{}<H1>Blog</H1></br>\n<ol><li>2</li>\n<li>1</li>\n</ol>\n</body></html>",
            head
        )
    );
    assert_eq!(
        index_page("Blog", Some(""), &Vec::new()),
        format!("{}\n<ol></ol>\n</body></html>", head)
    );
}

#[test]
fn index_page_orders_posts_across_folders() {
    // a subfolder's older posts, taken after the newer post of its parent
    let posts = vec![
        ("<li>parent-new</li>\n".to_string(), 300),
        ("<li>sub-old</li>\n".to_string(), 100),
        ("<li>sub-mid</li>\n".to_string(), 200),
        ("<li>tie-a</li>\n".to_string(), 100),
    ];
    let page = index_page("B", Some("x"), &posts);
    let list = page.split("<ol>").nth(1).unwrap();
    assert_eq!(
        list,
        "<li>parent-new</li>\n<li>sub-mid</li>\n<li>tie-a</li>\n<li>sub-old</li>\n</ol>\n</body></html>"
    );
}

#[test]
fn file_stems() {
    assert_eq!(file_stem("notes/sub/My Post.md"), "My Post");
    assert_eq!(file_stem("a.b.md"), "a.b");
    assert_eq!(file_stem("notes/readme"), "readme");
    assert_eq!(file_stem("notes/"), "");
    assert_eq!(file_stem("md"), "md");
}

#[test]
fn entries_ordered_by_time_ties_in_place() {
    let entries = vec![
        ("c".to_string(), false, 30),
        ("a".to_string(), true, 10),
        ("b1".to_string(), false, 20),
        ("b2".to_string(), false, 20),
        ("z".to_string(), false, -5),
        ("b3".to_string(), true, 20),
    ];
    let names: Vec<String> = order_entries(entries).into_iter().map(|e| e.0).collect();
    assert_eq!(names, vec!["z", "a", "b1", "b2", "b3", "c"]);
    assert!(order_entries(Vec::new()).is_empty());
}
