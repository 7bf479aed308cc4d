use vstd::prelude::*;

use crate::text::{
    has_substring, lemma_has_infix, lemma_substring_trans, lemma_substring_widen, push_char,
    string_of, to_chars,
};
use crate::utils::{remove_all_special, without_specials};
use vstd::string::StringExecFns;

verus! {

// ---------------------------------------------------------------------------
// The decisions of building a website out of a folder of markdown files.
// The folder is walked, and files are read and written, outside this module.
// ---------------------------------------------------------------------------
/// The folder path with a slash at its end.
pub open spec fn with_slash(path: Seq<char>) -> Seq<char> {
    if path.len() > 0 && path.last() == '/' {
        path
    } else {
        path.push('/')
    }
}

/// The path of the source folder with a slash at its end: the prefix of the
/// paths of all the files in it.
pub fn source_root(folder_path: &str) -> (res: String)
    ensures
        res@ == with_slash(folder_path@),
{
    let v = to_chars(folder_path);
    let mut res = String::from_str(folder_path);
    if v.len() == 0 || v[v.len() - 1] != '/' {
        push_char(&mut res, '/');
    }
    res
}

/// The path of the `index.md` of the source folder, whose HTML goes into the
/// home page as it is.
pub fn index_md_path(folder_path: &str) -> (res: String)
    ensures
        res@ == with_slash(folder_path@) + "index.md"@,
{
    let mut res = source_root(folder_path);
    res.append("index.md");
    res
}

/// The path in the website of a file of the source folder: `website/` and
/// its path below the folder, without special characters.
pub open spec fn output_path(entry: Seq<char>, root: Seq<char>) -> Seq<char> {
    "website/"@ + without_specials(entry.skip(root.len() as int))
}

/// The piece of a file path after its last dot (the whole path if it has no
/// dot).
pub open spec fn extension(path: Seq<char>) -> Seq<char>
    decreases path.len(),
{
    if path.len() == 0 {
        path
    } else if path.last() == '.' {
        seq![]
    } else {
        extension(path.drop_last()).push(path.last())
    }
}

/// A markdown file: its path ends in `.md` (or is `md`).
pub open spec fn is_markdown_path(path: Seq<char>) -> bool {
    extension(path) == "md"@
}

/// The last component of a path: what follows its last slash.
pub open spec fn file_name(path: Seq<char>) -> Seq<char>
    decreases path.len(),
{
    if path.len() == 0 {
        path
    } else if path.last() == '/' {
        seq![]
    } else {
        file_name(path.drop_last()).push(path.last())
    }
}

/// The name of a markdown file without its folders and without `.md`: what
/// stands for the title of a page that has no heading of level 1.
pub open spec fn markdown_stem(path: Seq<char>) -> Seq<char> {
    let name = file_name(path);
    if name.len() >= 3 && name.subrange(name.len() - 3, name.len() as int) == seq!['.', 'm', 'd'] {
        name.take(name.len() - 3)
    } else {
        name
    }
}

proof fn lemma_file_name_push(path: Seq<char>, c: char)
    ensures
        file_name(path.push(c)) == if c == '/' {
            seq![]
        } else {
            file_name(path).push(c)
        },
{
    assert(path.push(c).drop_last() =~= path);
}

/// The name of the file at `path`, without its folders and its `.md`.
pub fn file_stem(path: &str) -> (res: String)
    ensures
        res@ == markdown_stem(path@),
{
    let v = to_chars(path);
    let mut start: usize = 0;
    let mut k: usize = 0;
    assert(v@.take(0) =~= Seq::<char>::empty());
    assert(v@.subrange(0, 0) =~= Seq::<char>::empty());
    while k < v.len()
        invariant
            start <= k <= v@.len(),
            file_name(v@.take(k as int)) == v@.subrange(start as int, k as int),
        decreases v@.len() - k,
    {
        proof {
            assert(v@.take(k + 1) =~= v@.take(k as int).push(v@[k as int]));
            lemma_file_name_push(v@.take(k as int), v@[k as int]);
        }
        if v[k] == '/' {
            start = k + 1;
            assert(v@.subrange(start as int, k + 1) =~= Seq::<char>::empty());
        } else {
            assert(v@.subrange(start as int, k + 1) =~= v@.subrange(start as int, k as int).push(
                v@[k as int],
            ));
        }
        k = k + 1;
    }
    assert(v@.take(k as int) =~= v@);
    let n = v.len();
    let ghost name = v@.subrange(start as int, n as int);
    if n - start >= 3 && v[n - 3] == '.' && v[n - 2] == 'm' && v[n - 1] == 'd' {
        assert(name.subrange(name.len() - 3, name.len() as int) =~= seq!['.', 'm', 'd']);
        assert(name.take(name.len() - 3) =~= v@.subrange(start as int, n - 3));
        string_of(&v, start, n - 3)
    } else {
        if n - start >= 3 {
            assert(name.subrange(name.len() - 3, name.len() as int)[0] == v@[n - 3]);
            assert(name.subrange(name.len() - 3, name.len() as int)[1] == v@[n - 2]);
            assert(name.subrange(name.len() - 3, name.len() as int)[2] == v@[n - 1]);
        }
        string_of(&v, start, n)
    }
}

/// `perm` lists every position of `times` once, by increasing time, and
/// positions of equal times in increasing order.
pub open spec fn ordered_by_time(perm: Seq<int>, times: Seq<i128>) -> bool {
    &&& perm.len() == times.len()
    &&& forall|k: int| 0 <= k < perm.len() ==> 0 <= #[trigger] perm[k] < times.len()
    &&& forall|k: int, l: int|
        0 <= k < l < perm.len() ==> times[#[trigger] perm[k]] < times[#[trigger] perm[l]] || (
        times[perm[k]] == times[perm[l]] && perm[k] < perm[l])
}

/// The positions of a sequence, as integers.
pub open spec fn positions(order: Seq<usize>) -> Seq<int> {
    Seq::new(order.len(), |j: int| order[j] as int)
}

/// The positions of `times` in the order of their times, oldest first, and
/// positions of equal times in increasing order.
pub fn time_order(times: &Vec<i128>) -> (order: Vec<usize>)
    ensures
        ordered_by_time(positions(order@), times@),
{
    let ghost t = times@;
    let n = times.len();
    let mut order: Vec<usize> = Vec::new();
    let mut i: usize = 0;
    while i < n
        invariant
            i <= n == t.len(),
            t == times@,
            order@.len() == i,
            forall|k: int| 0 <= k < order@.len() ==> #[trigger] order@[k] < i,
            forall|k: int, l: int|
                0 <= k < l < order@.len() ==> t[#[trigger] order@[k] as int] < t[
                #[trigger] order@[l] as int] || (t[order@[k] as int] == t[order@[l] as int]
                    && order@[k] < order@[l]),
        decreases n - i,
    {
        let ti = times[i];
        let mut p: usize = 0;
        while p < order.len() && times[order[p]] <= ti
            invariant
                p <= order@.len() == i,
                i < n == t.len(),
                t == times@,
                ti == t[i as int],
                forall|k: int| 0 <= k < order@.len() ==> #[trigger] order@[k] < i,
                forall|k: int| 0 <= k < p ==> t[#[trigger] order@[k] as int] <= ti,
            decreases i - p,
        {
            p = p + 1;
        }
        proof {
            if p < order@.len() {
                assert(t[order@[p as int] as int] > ti);
                assert forall|k: int| p < k < order@.len() implies t[#[trigger] order@[k] as int]
                    > ti by {
                    assert(t[order@[p as int] as int] <= t[order@[k] as int]);
                }
            }
        }
        let ghost old_order = order@;
        order.insert(p, i);
        assert forall|k: int| 0 <= k < order@.len() implies #[trigger] order@[k] < i + 1 by {
            if k < p {
                assert(order@[k] == old_order[k]);
            } else if k > p {
                assert(order@[k] == old_order[k - 1]);
            }
        }
        assert forall|k: int, l: int|
            0 <= k < l < order@.len() implies t[#[trigger] order@[k] as int] < t[
            #[trigger] order@[l] as int] || (t[order@[k] as int] == t[order@[l] as int]
            && order@[k] < order@[l]) by {
            if l < p {
                assert(order@[k] == old_order[k] && order@[l] == old_order[l]);
            } else if l == p {
                assert(order@[k] == old_order[k]);
            } else if k > p {
                assert(order@[k] == old_order[k - 1] && order@[l] == old_order[l - 1]);
            } else if k == p {
                assert(order@[l] == old_order[l - 1]);
            } else {
                assert(order@[k] == old_order[k] && order@[l] == old_order[l - 1]);
            }
        }
        i = i + 1;
    }
    assert(ordered_by_time(positions(order@), t));
    order
}

/// The modification times of the entries.
pub open spec fn entry_times(entries: Seq<(String, bool, i128)>) -> Seq<i128> {
    Seq::new(entries.len(), |i: int| entries[i].2)
}

/// Puts the entries of a folder (path, whether it is a folder, modification
/// time) in the order they are taken: oldest first, entries of the same time
/// in the order they came in.
pub fn order_entries(entries: Vec<(String, bool, i128)>) -> (res: Vec<(String, bool, i128)>)
    ensures
        exists|perm: Seq<int>|
            ordered_by_time(perm, entry_times(entries@)) && res@.len() == perm.len() && forall|
                k: int,
            |
                0 <= k < perm.len() ==> #[trigger] res@[k] == entries@[perm[k]],
{
    let n = entries.len();
    let mut times: Vec<i128> = Vec::new();
    let mut i: usize = 0;
    while i < n
        invariant
            i <= n == entries@.len(),
            times@.len() == i,
            forall|j: int| 0 <= j < i ==> #[trigger] times@[j] == entries@[j].2,
        decreases n - i,
    {
        times.push(entries[i].2);
        i = i + 1;
    }
    assert(times@ =~= entry_times(entries@));
    let order = time_order(&times);
    let ghost perm = positions(order@);
    let mut res: Vec<(String, bool, i128)> = Vec::new();
    let mut k: usize = 0;
    while k < n
        invariant
            k <= n == entries@.len() == order@.len(),
            perm == positions(order@),
            forall|j: int| 0 <= j < perm.len() ==> 0 <= #[trigger] perm[j] < n,
            res@.len() == k,
            forall|j: int| 0 <= j < k ==> #[trigger] res@[j] == entries@[perm[j]],
        decreases n - k,
    {
        assert(perm[k as int] == order@[k as int] as int);
        let e = &entries[order[k]];
        res.push((e.0.clone(), e.1, e.2));
        k = k + 1;
    }
    res
}

/// What to do with an entry of the source folder.
pub enum EntryAction {
    /// create the directory in the website, and walk it
    CreateDirectory(String),
    /// leave the `index.md` of the source folder out
    SkipIndex,
    /// copy the file to this path of the website
    CopyFile(String),
    /// convert the markdown file to a page of the website, at the path
    /// that `html_path` gives for this one
    ConvertMarkdown(String),
}

pub enum EntryPlan {
    CreateDirectory(Seq<char>),
    SkipIndex,
    CopyFile(Seq<char>),
    ConvertMarkdown(Seq<char>),
}

impl View for EntryAction {
    type V = EntryPlan;

    open spec fn view(&self) -> EntryPlan {
        match self {
            EntryAction::CreateDirectory(p) => EntryPlan::CreateDirectory(p@),
            EntryAction::SkipIndex => EntryPlan::SkipIndex,
            EntryAction::CopyFile(p) => EntryPlan::CopyFile(p@),
            EntryAction::ConvertMarkdown(p) => EntryPlan::ConvertMarkdown(p@),
        }
    }
}

/// What is done with an entry of the source folder whose path is `entry`,
/// `root` being the folder's path with a slash at its end.
pub open spec fn entry_plan(entry: Seq<char>, is_dir: bool, root: Seq<char>) -> EntryPlan {
    let out = output_path(entry, root);
    if is_dir {
        EntryPlan::CreateDirectory(out)
    } else if entry == root + "index.md"@ {
        EntryPlan::SkipIndex
    } else if is_markdown_path(entry) {
        EntryPlan::ConvertMarkdown(out)
    } else {
        EntryPlan::CopyFile(out)
    }
}

proof fn lemma_extension_push(path: Seq<char>, c: char)
    ensures
        extension(path.push(c)) == if c == '.' {
            seq![]
        } else {
            extension(path).push(c)
        },
{
    assert(path.push(c).drop_last() =~= path);
}

fn is_markdown(path: &Vec<char>) -> (b: bool)
    ensures
        b == is_markdown_path(path@),
{
    let mut last: Vec<char> = Vec::new();
    let mut k: usize = 0;
    assert(path@.take(0) =~= Seq::<char>::empty());
    while k < path.len()
        invariant
            k <= path@.len(),
            last@ == extension(path@.take(k as int)),
        decreases path@.len() - k,
    {
        proof {
            assert(path@.take(k + 1) =~= path@.take(k as int).push(path@[k as int]));
            lemma_extension_push(path@.take(k as int), path@[k as int]);
        }
        if path[k] == '.' {
            last = Vec::new();
            assert(last@ =~= Seq::<char>::empty());
        } else {
            last.push(path[k]);
        }
        k = k + 1;
    }
    assert(path@.take(k as int) =~= path@);
    let md: [char; 2] = ['m', 'd'];
    assert(md@ =~= "md"@) by {
        reveal_strlit("md");
    }
    if last.len() != 2 {
        return false;
    }
    if last[0] == 'm' && last[1] == 'd' {
        assert(last@ =~= md@);
        true
    } else {
        assert(last@[0] != md@[0] || last@[1] != md@[1]);
        false
    }
}

/// Decides what to do with an entry of the source folder, given its path,
/// whether it is a directory, and the path of the folder with a slash at its
/// end.
pub fn plan_entry(entry: &str, is_dir: bool, root: &str) -> (res: EntryAction)
    requires
        root@.is_prefix_of(entry@),
    ensures
        res@ == entry_plan(entry@, is_dir, root@),
{
    let v = to_chars(entry);
    let r = to_chars(root);
    let relative = string_of(&v, r.len(), v.len());
    let mut out = String::from_str("website/");
    let cleaned = remove_all_special(relative.as_str());
    out.append(cleaned.as_str());
    if is_dir {
        return EntryAction::CreateDirectory(out);
    }
    let mut index_path = String::from_str(root);
    index_path.append("index.md");
    if index_path == String::from_str(entry) {
        EntryAction::SkipIndex
    } else if is_markdown(&v) {
        EntryAction::ConvertMarkdown(out)
    } else {
        EntryAction::CopyFile(out)
    }
}

/// The path of the HTML page of a markdown file whose website path is
/// `new_path`: `new_path` without its final `md`, and `.html`.
pub open spec fn html_path_of(new_path: Seq<char>) -> Seq<char> {
    new_path.take(new_path.len() - 2) + ".html"@
}

pub fn html_path(new_path: &str) -> (res: String)
    requires
        "md"@.is_suffix_of(new_path@),
    ensures
        res@ == html_path_of(new_path@),
{
    proof {
        reveal_strlit("md");
    }
    let v = to_chars(new_path);
    let mut res = string_of(&v, 0, v.len() - 2);
    res.append(".html");
    res
}

/// The line of the home page that links to a page: its path below `website/`
/// and its title.
pub open spec fn post_line(page_path: Seq<char>, title: Seq<char>) -> Seq<char> {
    "<li><a href='"@ + page_path.skip(8) + "'>"@ + title + "</a></li>\n"@
}

pub fn post_link(page_path: &str, title: &str) -> (res: String)
    requires
        "website/"@.is_prefix_of(page_path@),
    ensures
        res@ == post_line(page_path@, title@),
{
    proof {
        reveal_strlit("website/");
    }
    let v = to_chars(page_path);
    let below = string_of(&v, 8, v.len());
    assert(below@ =~= page_path@.skip(8));
    let mut res = String::from_str("<li><a href='");
    res.append(below.as_str());
    res.append("'>");
    res.append(title);
    res.append("</a></li>\n");
    res
}

/// The lines of the home page's list, one after the other.
pub open spec fn concat_lines(lines: Seq<Seq<char>>) -> Seq<char>
    decreases lines.len(),
{
    if lines.len() == 0 {
        seq![]
    } else {
        concat_lines(lines.drop_last()) + lines.last()
    }
}

/// The modification times of the posts.
pub open spec fn post_times(posts: Seq<(String, i128)>) -> Seq<i128> {
    Seq::new(posts.len(), |i: int| posts[i].1)
}

/// The lines of the posts, newest first, `perm` giving the posts oldest
/// first.
pub open spec fn newest_first(perm: Seq<int>, posts: Seq<(String, i128)>) -> Seq<Seq<char>> {
    Seq::new(perm.len(), |k: int| posts[perm[perm.len() - 1 - k]].0@)
}

/// The home page of the website, listing `post_lines` in that order.
pub open spec fn index_html(
    website_name: Seq<char>,
    custom_html: Option<Seq<char>>,
    post_lines: Seq<Seq<char>>,
) -> Seq<char> {
    let custom = match custom_html {
        Some(h) => h,
        None => "<H1>"@ + website_name + "</H1></br>"@,
    };
    "<!DOCTYPE html>\n<html lang=\"en\">\n\n<head>\n  <title>"@ + website_name
        + "</title>\n  <meta charset=\"UTF-8\">\n  <meta name=\"viewport\" content=\"width=device-width, initial-scale=1\">\n  <link href=\"css/style.css\" rel=\"stylesheet\">\n</head>\n<body>\n"@
        + custom + "\n<ol>"@ + concat_lines(post_lines) + "</ol>\n</body></html>"@
}

/// Writes the home page: the website's name as title, the HTML of the
/// source folder's `index.md` when there is one (else the name as a
/// heading), and the lines of the posts (each with its page's modification
/// time), newest first, whatever folder each comes from; of posts with the
/// same time, the one that came later comes first.
pub fn index_page(website_name: &str, custom_html: Option<&str>, posts: &Vec<(String, i128)>) -> (res: String)
    ensures
        exists|perm: Seq<int>|
            ordered_by_time(perm, post_times(posts@)) && res@ == index_html(
                website_name@,
                match custom_html {
                    Some(h) => Some(h@),
                    None => None,
                },
                newest_first(perm, posts@),
            ),
{
    let mut res = String::from_str("<!DOCTYPE html>\n<html lang=\"en\">\n\n<head>\n  <title>");
    res.append(website_name);
    res.append(
        "</title>\n  <meta charset=\"UTF-8\">\n  <meta name=\"viewport\" content=\"width=device-width, initial-scale=1\">\n  <link href=\"css/style.css\" rel=\"stylesheet\">\n</head>\n<body>\n",
    );
    match custom_html {
        Some(h) => res.append(h),
        None => {
            res.append("<H1>");
            res.append(website_name);
            res.append("</H1></br>");
        },
    }
    res.append("\n<ol>");
    let n = posts.len();
    let mut times: Vec<i128> = Vec::new();
    let mut i: usize = 0;
    while i < n
        invariant
            i <= n == posts@.len(),
            times@.len() == i,
            forall|j: int| 0 <= j < i ==> #[trigger] times@[j] == posts@[j].1,
        decreases n - i,
    {
        times.push(posts[i].1);
        i = i + 1;
    }
    assert(times@ =~= post_times(posts@));
    let order = time_order(&times);
    let ghost perm = positions(order@);
    let ghost lines = newest_first(perm, posts@);
    let ghost base = res@;
    let mut j: usize = 0;
    assert(lines.take(0) =~= Seq::<Seq<char>>::empty());
    assert(res@ =~= base + concat_lines(lines.take(0)));
    while j < n
        invariant
            j <= n == posts@.len() == order@.len(),
            perm == positions(order@),
            lines == newest_first(perm, posts@),
            forall|k: int| 0 <= k < perm.len() ==> 0 <= #[trigger] perm[k] < n,
            res@ == base + concat_lines(lines.take(j as int)),
        decreases n - j,
    {
        let idx = order[n - 1 - j];
        assert(perm[n - 1 - j] == idx as int);
        assert(lines[j as int] == posts@[idx as int].0@);
        res.append(posts[idx].0.as_str());
        assert(lines.take(j + 1).drop_last() =~= lines.take(j as int));
        assert(lines.take(j + 1).last() == lines[j as int]);
        j = j + 1;
        assert(res@ =~= base + concat_lines(lines.take(j as int)));
    }
    assert(lines.take(n as int) =~= lines);
    res.append("</ol>\n</body></html>");
    res
}

/// A folder path with a slash at its end ends with a slash, starts with the
/// path, and gets no second slash.
pub proof fn lemma_with_slash_ends_with_slash(path: Seq<char>)
    ensures
        with_slash(path).len() > 0,
        with_slash(path).last() == '/',
        path.is_prefix_of(with_slash(path)),
        with_slash(with_slash(path)) == with_slash(path),
{
    assert(with_slash(path).take(path.len() as int) =~= path);
}

proof fn lemma_file_name_after_slash(dir: Seq<char>, name: Seq<char>)
    requires
        forall|j: int| 0 <= j < name.len() ==> #[trigger] name[j] != '/',
    ensures
        file_name(dir + seq!['/'] + name) == name,
    decreases name.len(),
{
    let p = dir + seq!['/'] + name;
    if name.len() == 0 {
        assert(p.last() == '/');
    } else {
        assert(p.drop_last() =~= dir + seq!['/'] + name.drop_last());
        assert(p.last() == name.last());
        lemma_file_name_after_slash(dir, name.drop_last());
        assert(name.drop_last().push(name.last()) =~= name);
    }
}

/// The stem of a markdown file in a folder is its name without the folder
/// and without `.md`: the title of a page with no heading of level 1.
pub proof fn lemma_stem_of_markdown_file(dir: Seq<char>, name: Seq<char>)
    requires
        forall|j: int| 0 <= j < name.len() ==> #[trigger] name[j] != '/',
    ensures
        markdown_stem(dir + seq!['/'] + name + ".md"@) == name,
{
    reveal_strlit(".md");
    let full = name + ".md"@;
    assert forall|j: int| 0 <= j < full.len() implies #[trigger] full[j] != '/' by {
        if j >= name.len() {
            assert(full[j] == ".md"@[j - name.len()]);
        }
    }
    lemma_file_name_after_slash(dir, full);
    assert(dir + seq!['/'] + name + ".md"@ =~= dir + seq!['/'] + full);
    assert(full.subrange(full.len() - 3, full.len() as int) =~= seq!['.', 'm', 'd']);
    assert(full.take(full.len() - 3) =~= name);
}

/// Every path that ends in `.md` is a markdown file, and a path whose last
/// character is neither `d` nor a dot has another extension.
pub proof fn lemma_md_paths_are_markdown(path: Seq<char>)
    ensures
        is_markdown_path(path + ".md"@),
        path.len() > 0 && path.last() != 'd' && path.last() != '.' ==> !is_markdown_path(path),
{
    reveal_strlit(".md");
    reveal_strlit("md");
    let p = path + ".md"@;
    assert(p.drop_last() =~= path + seq!['.', 'm']);
    assert(p.drop_last().drop_last() =~= path + seq!['.']);
    assert(extension(path + seq!['.']) =~= Seq::<char>::empty());
    assert(extension(path + seq!['.', 'm']) =~= seq!['m']);
    assert(extension(p) =~= "md"@);
    if path.len() > 0 && path.last() != 'd' && path.last() != '.' {
        assert(extension(path).last() == path.last());
    }
}

/// What is done with the entries of the source folder: a folder is created
/// in the website under its cleaned path; the folder's own `index.md` is
/// left out; another `.md` file is converted to a page at its cleaned path;
/// a file of another kind is copied to its cleaned path.
pub proof fn lemma_entry_plans(root: Seq<char>, name: Seq<char>)
    ensures
        entry_plan(root + name, true, root) == EntryPlan::CreateDirectory(
            "website/"@ + without_specials(name),
        ),
        entry_plan(root + "index.md"@, false, root) == EntryPlan::SkipIndex,
        name + ".md"@ != "index.md"@ ==> entry_plan(root + (name + ".md"@), false, root)
            == EntryPlan::ConvertMarkdown("website/"@ + without_specials(name + ".md"@)),
        name.len() > 0 && name.last() != 'd' && name.last() != '.' ==> entry_plan(
            root + name,
            false,
            root,
        ) == EntryPlan::CopyFile("website/"@ + without_specials(name)),
{
    assert((root + name).skip(root.len() as int) =~= name);
    let md = name + ".md"@;
    assert((root + md).skip(root.len() as int) =~= md);
    lemma_md_paths_are_markdown(root + name);
    assert(root + name + ".md"@ =~= root + md);
    if md != "index.md"@ {
        assert(root + md != root + "index.md"@) by {
            assert((root + "index.md"@).skip(root.len() as int) =~= "index.md"@);
            if root + md == root + "index.md"@ {
                assert(md == "index.md"@);
            }
        }
    }
    if name.len() > 0 && name.last() != 'd' && name.last() != '.' {
        assert(root + name != root + "index.md"@) by {
            reveal_strlit("index.md");
            assert((root + "index.md"@).last() == 'd');
            assert((root + name).last() == name.last());
        }
        assert((root + name).last() == name.last());
        lemma_md_paths_are_markdown(root + name);
    }
}

/// The page of a markdown file takes the file's website path with `.html`
/// in place of its `md`.
pub proof fn lemma_html_path_replaces_md(stem: Seq<char>)
    ensures
        html_path_of(stem + "md"@) == stem + ".html"@,
{
    reveal_strlit("md");
    assert((stem + "md"@).take(stem.len() as int) =~= stem);
}

proof fn lemma_concat_lines_has_line(lines: Seq<Seq<char>>, k: int)
    requires
        0 <= k < lines.len(),
    ensures
        has_substring(concat_lines(lines), lines[k]),
    decreases lines.len(),
{
    let none = Seq::<char>::empty();
    if k == lines.len() - 1 {
        lemma_has_infix(concat_lines(lines.drop_last()), lines[k], none);
        assert(concat_lines(lines.drop_last()) + lines[k] + none =~= concat_lines(lines));
    } else {
        lemma_concat_lines_has_line(lines.drop_last(), k);
        assert(lines.drop_last()[k] == lines[k]);
        lemma_substring_widen(none, concat_lines(lines.drop_last()), lines.last(), lines[k]);
        assert(none + concat_lines(lines.drop_last()) + lines.last() =~= concat_lines(lines));
    }
}

/// The home page is titled with the website's name, shows the HTML of the
/// folder's `index.md` when there is one and else the name as a heading,
/// and lists every post line.
pub proof fn lemma_index_page_shows(
    website_name: Seq<char>,
    custom_html: Option<Seq<char>>,
    post_lines: Seq<Seq<char>>,
    k: int,
)
    requires
        0 <= k < post_lines.len(),
    ensures
        has_substring(
            index_html(website_name, custom_html, post_lines),
            "<title>"@ + website_name + "</title>"@,
        ),
        custom_html matches Some(h) ==> has_substring(
            index_html(website_name, custom_html, post_lines),
            h,
        ),
        custom_html is None ==> has_substring(
            index_html(website_name, custom_html, post_lines),
            "<H1>"@ + website_name + "</H1>"@,
        ),
        has_substring(index_html(website_name, custom_html, post_lines), post_lines[k]),
{
    let page = index_html(website_name, custom_html, post_lines);
    let custom = match custom_html {
        Some(h) => h,
        None => "<H1>"@ + website_name + "</H1></br>"@,
    };
    let head = "<!DOCTYPE html>\n<html lang=\"en\">\n\n<head>\n  "@;
    let meta = "\n  <meta charset=\"UTF-8\">\n  <meta name=\"viewport\" content=\"width=device-width, initial-scale=1\">\n  <link href=\"css/style.css\" rel=\"stylesheet\">\n</head>\n<body>\n"@;
    assert("<!DOCTYPE html>\n<html lang=\"en\">\n\n<head>\n  <title>"@ =~= head + "<title>"@) by {
        reveal_strlit("<!DOCTYPE html>\n<html lang=\"en\">\n\n<head>\n  <title>");
        reveal_strlit("<!DOCTYPE html>\n<html lang=\"en\">\n\n<head>\n  ");
        reveal_strlit("<title>");
    }
    assert("</title>\n  <meta charset=\"UTF-8\">\n  <meta name=\"viewport\" content=\"width=device-width, initial-scale=1\">\n  <link href=\"css/style.css\" rel=\"stylesheet\">\n</head>\n<body>\n"@
        =~= "</title>"@ + meta) by {
        reveal_strlit("</title>\n  <meta charset=\"UTF-8\">\n  <meta name=\"viewport\" content=\"width=device-width, initial-scale=1\">\n  <link href=\"css/style.css\" rel=\"stylesheet\">\n</head>\n<body>\n");
        reveal_strlit("</title>");
        reveal_strlit("\n  <meta charset=\"UTF-8\">\n  <meta name=\"viewport\" content=\"width=device-width, initial-scale=1\">\n  <link href=\"css/style.css\" rel=\"stylesheet\">\n</head>\n<body>\n");
    }
    let titled = "<title>"@ + website_name + "</title>"@;
    let tail = "\n<ol>"@ + concat_lines(post_lines) + "</ol>\n</body></html>"@;
    assert(page =~= head + titled + (meta + custom + tail));
    lemma_has_infix(head, titled, meta + custom + tail);
    let front = head + titled + meta;
    assert(page =~= front + custom + tail);
    lemma_has_infix(front, custom, tail);
    if custom_html is None {
        let heading = "<H1>"@ + website_name + "</H1>"@;
        assert("</H1></br>"@ =~= "</H1>"@ + "</br>"@) by {
            reveal_strlit("</H1></br>");
            reveal_strlit("</H1>");
            reveal_strlit("</br>");
        }
        assert(custom =~= heading + "</br>"@);
        lemma_has_infix(Seq::<char>::empty(), heading, "</br>"@);
        assert(Seq::<char>::empty() + heading + "</br>"@ =~= custom);
        lemma_substring_trans(page, custom, heading);
    }
    lemma_concat_lines_has_line(post_lines, k);
    let before_lines = front + custom + "\n<ol>"@;
    let after_lines = "</ol>\n</body></html>"@;
    lemma_substring_widen(before_lines, concat_lines(post_lines), after_lines, post_lines[k]);
    assert(before_lines + concat_lines(post_lines) + after_lines =~= page);
}

/// The home page lists the newest post first: of two lines, the one that
/// comes first is of a post no older than the other.
pub proof fn lemma_newest_posts_come_first(
    perm: Seq<int>,
    posts: Seq<(String, i128)>,
    k: int,
    l: int,
)
    requires
        ordered_by_time(perm, post_times(posts)),
        0 <= k < l < perm.len(),
    ensures
        newest_first(perm, posts)[k] == posts[perm[perm.len() - 1 - k]].0@,
        newest_first(perm, posts)[l] == posts[perm[perm.len() - 1 - l]].0@,
        posts[perm[perm.len() - 1 - k]].1 >= posts[perm[perm.len() - 1 - l]].1,
{
    let n = perm.len();
    let a = perm[n - 1 - l];
    let b = perm[n - 1 - k];
    assert(post_times(posts)[a] == posts[a].1);
    assert(post_times(posts)[b] == posts[b].1);
}

} // verus!
