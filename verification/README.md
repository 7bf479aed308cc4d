# blog_on_it

Turns a folder of markdown files into a small static website: one HTML page
per markdown file, with a table of contents where a page asks for one, and a
home page that lists the posts, newest first. A page's title is its first
level-1 heading, or the name of its file when it has none.

Layout:

- `src/parser/` — the markdown grammar (`page_parser`) and the tokens it
  produces (`markdown_elements`). The grammar is stated as spec functions
  over the characters of a page; the readers are proved to follow it.
- `src/generator/` — the HTML of a page (`page_generator`) and of its table
  of contents (`toc_generator`), each proved against a spec of the output.
- `src/site.rs` — the decisions of building the website: where each file
  goes, which files are converted, copied or skipped, and the home page.
- `src/utils.rs`, `src/text.rs` — anchors and file names, and string helpers.
- `app/main.rs` — the command line: walks the folder and reads and writes the
  files, `cargo run -- <markdown folder> <website name>`.
