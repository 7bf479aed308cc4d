use itertools::Itertools;
use vstd::prelude::*;

use super::Html;
use crate::parser::markdown_elements::{elements_view, Element, MarkdownElement};
use crate::text::{
    decimal, has_substring, lemma_seq_join_has_piece, lemma_substring_widen, push_decimal, seq_join,
    strings_view,
};
use crate::utils::{remove_all_special, without_specials};

verus! {

/// `Itertools::join` on the items of `items`: the items written one after the
/// other, with `sep` between each two of them (nothing for no item).
#[verifier::external_body]
fn itertools_join(items: &Vec<String>, sep: &str) -> (res: String)
    ensures
        res@ == seq_join(strings_view(items@), sep@),
{
    items.iter().join(sep)
}

/// What opens or closes a list of the table of contents before an entry of
/// `level`, when the entry before it was of level `current`.
pub open spec fn level_change(current: nat, level: nat) -> Seq<char> {
    if current < level {
        "<ol>"@
    } else if current == level {
        seq![]
    } else {
        "</ol>"@
    }
}

/// The link of the table of contents to a heading: to the heading's anchor,
/// with the heading's text.
pub open spec fn toc_link(text: Seq<char>) -> Seq<char> {
    "<a href='#"@ + without_specials(text) + "'>"@ + text + "</a>"@
}

/// The entry of the table of contents for a heading.
pub open spec fn toc_entry(prefix: Seq<char>, level: nat, text: Seq<char>) -> Seq<char> {
    prefix + "<li class=toc-h"@ + decimal(level) + ">"@ + toc_link(text) + "</li>\n"@
}

/// The entries of the table of contents for the headings of `tokens` that are
/// not of level 1, `current` being the level of the entry before them.
pub open spec fn toc_entries(tokens: Seq<Element>, current: nat) -> Seq<Seq<char>>
    decreases tokens.len(),
{
    if tokens.len() == 0 {
        seq![]
    } else {
        match tokens[0] {
            Element::Heading(level, text) => if level != 1 {
                seq![toc_entry(level_change(current, level), level, text)] + toc_entries(
                    tokens.drop_first(),
                    level,
                )
            } else {
                toc_entries(tokens.drop_first(), current)
            },
            _ => toc_entries(tokens.drop_first(), current),
        }
    }
}

/// The table of contents of a page.
pub open spec fn toc_html(tokens: Seq<Element>) -> Seq<char> {
    seq_join(toc_entries(tokens, 0), "\n"@) + "</ol>"@
}

/// A token that has an entry in the table of contents: a heading that is not
/// of level 1.
pub open spec fn is_listed_heading(el: Element) -> bool {
    el matches Element::Heading(level, _) && level != 1
}

proof fn lemma_toc_entries_of_listed(tokens: Seq<Element>, current: nat)
    ensures
        toc_entries(tokens, current) == toc_entries(
            tokens.filter(|el: Element| is_listed_heading(el)),
            current,
        ),
    decreases tokens.len(),
{
    let p = |el: Element| is_listed_heading(el);
    tokens.lemma_filter_eq_filter_alt(p);
    if tokens.len() > 0 {
        let rest = tokens.drop_first();
        lemma_toc_entries_of_listed(rest, current);
        if let Element::Heading(level, _) = tokens[0] {
            lemma_toc_entries_of_listed(rest, level);
        }
        let f = tokens.filter(p);
        if p(tokens[0]) {
            assert(f[0] == tokens[0]);
            assert(f.drop_first() =~= rest.filter(p));
        } else {
            assert(f == rest.filter(p));
        }
    }
}

/// The table of contents depends only on the headings that are not of level
/// 1: the title heading and every other token leave it unchanged.
pub proof fn lemma_toc_only_reads_listed_headings(tokens: Seq<Element>)
    ensures
        toc_html(tokens) == toc_html(tokens.filter(|el: Element| is_listed_heading(el))),
{
    lemma_toc_entries_of_listed(tokens, 0);
}

proof fn lemma_toc_entries_have_link(tokens: Seq<Element>, current: nat, i: int, level: nat, text: Seq<char>)
    requires
        0 <= i < tokens.len(),
        tokens[i] == Element::Heading(level, text),
        level != 1,
    ensures
        exists|k: int|
            0 <= k < toc_entries(tokens, current).len() && has_substring(
                #[trigger] toc_entries(tokens, current)[k],
                toc_link(text),
            ),
    decreases i,
{
    let rest = tokens.drop_first();
    let entries = toc_entries(tokens, current);
    if i == 0 {
        let e = toc_entry(level_change(current, level), level, text);
        assert(entries[0] == e);
        let x = level_change(current, level) + "<li class=toc-h"@ + decimal(level) + ">"@;
        assert(e.subrange(x.len() as int, x.len() + toc_link(text).len() as int) =~= toc_link(text));
        assert(has_substring(entries[0], toc_link(text)));
    } else {
        assert(rest[i - 1] == tokens[i]);
        let next = match tokens[0] {
            Element::Heading(l, _) => if l != 1 {
                l
            } else {
                current
            },
            _ => current,
        };
        lemma_toc_entries_have_link(rest, next, i - 1, level, text);
        let k = choose|k: int|
            0 <= k < toc_entries(rest, next).len() && has_substring(
                #[trigger] toc_entries(rest, next)[k],
                toc_link(text),
            );
        if is_listed_heading(tokens[0]) {
            assert(entries[k + 1] == toc_entries(rest, next)[k]);
        } else {
            assert(entries[k] == toc_entries(rest, next)[k]);
        }
    }
}

/// For every heading that is not of level 1, the table of contents holds a
/// link to that heading's anchor, with the heading's text.
pub proof fn lemma_toc_has_link(tokens: Seq<Element>, i: int, level: nat, text: Seq<char>)
    requires
        0 <= i < tokens.len(),
        tokens[i] == Element::Heading(level, text),
        level != 1,
    ensures
        has_substring(toc_html(tokens), toc_link(text)),
{
    lemma_toc_entries_have_link(tokens, 0, i, level, text);
    let entries = toc_entries(tokens, 0);
    let k = choose|k: int|
        0 <= k < entries.len() && has_substring(#[trigger] entries[k], toc_link(text));
    lemma_seq_join_has_piece(entries, "\n"@, k);
    let j = seq_join(entries, "\n"@);
    let a = choose|a: int|
        0 <= a && a + entries[k].len() <= j.len() && #[trigger] j.subrange(a, a + entries[k].len())
            == entries[k];
    lemma_substring_widen(j.take(a), entries[k], j.skip(a + entries[k].len()) + "</ol>"@, toc_link(text));
    assert(j.take(a) + entries[k] + (j.skip(a + entries[k].len()) + "</ol>"@) =~= toc_html(tokens));
}

/// The tag written before an entry of the table of contents depends on the
/// level of the entry before it: a deeper heading opens a list (`<ol>`), a
/// shallower one closes one (`</ol>`), and a heading of the same level is a
/// sibling in the same list, with no tag at all.
pub proof fn lemma_toc_entry_list_tags(tokens: Seq<Element>, current: nat, level: nat, text: Seq<char>)
    requires
        tokens.len() > 0,
        tokens[0] == Element::Heading(level, text),
        level != 1,
    ensures
        toc_entries(tokens, current).len() > 0,
        current == level ==> toc_entries(tokens, current)[0] == "<li class=toc-h"@ + decimal(level)
            + ">"@ + toc_link(text) + "</li>\n"@,
        current < level ==> toc_entries(tokens, current)[0] == "<ol>"@ + "<li class=toc-h"@
            + decimal(level) + ">"@ + toc_link(text) + "</li>\n"@,
        current > level ==> toc_entries(tokens, current)[0] == "</ol>"@ + "<li class=toc-h"@
            + decimal(level) + ">"@ + toc_link(text) + "</li>\n"@,
{
    let e = toc_entry(level_change(current, level), level, text);
    assert(toc_entries(tokens, current)[0] == e);
    if current == level {
        assert(e =~= "<li class=toc-h"@ + decimal(level) + ">"@ + toc_link(text) + "</li>\n"@);
    }
}

/// Two headings of the same level (not 1) are siblings in one list: the
/// table of contents opens one `<ol>` before the first, puts nothing but the
/// separating newline between the two entries, and closes the list once.
pub proof fn lemma_toc_of_sibling_headings(level: nat, a: Seq<char>, b: Seq<char>)
    requires
        level > 1,
    ensures
        toc_html(seq![Element::Heading(level, a), Element::Heading(level, b)]) == "<ol>"@
            + "<li class=toc-h"@ + decimal(level) + ">"@ + toc_link(a) + "</li>\n"@ + "\n"@
            + "<li class=toc-h"@ + decimal(level) + ">"@ + toc_link(b) + "</li>\n"@ + "</ol>"@,
{
    let x = Element::Heading(level, a);
    let y = Element::Heading(level, b);
    let tokens = seq![x, y];
    let ea = "<li class=toc-h"@ + decimal(level) + ">"@ + toc_link(a) + "</li>\n"@;
    let eb = "<li class=toc-h"@ + decimal(level) + ">"@ + toc_link(b) + "</li>\n"@;
    assert(tokens.drop_first() =~= seq![y]);
    assert(seq![y].drop_first() =~= Seq::<Element>::empty());
    assert(seq![y][0] == y);
    lemma_toc_entry_list_tags(seq![y], level, level, b);
    assert(toc_entries(Seq::<Element>::empty(), level) =~= Seq::<Seq<char>>::empty());
    assert(toc_entries(seq![y], level) =~= seq![eb]);
    lemma_toc_entry_list_tags(tokens, 0, level, a);
    assert(tokens[0] == x);
    assert(toc_entries(tokens, 0) == seq![toc_entry(level_change(0, level), level, a)]
        + toc_entries(seq![y], level));
    assert(toc_entries(tokens, 0)[0] =~= "<ol>"@ + ea);
    assert(toc_entries(tokens, 0) =~= seq!["<ol>"@ + ea, eb]);
    let two = seq!["<ol>"@ + ea, eb];
    assert(seq![two[0]] == two.drop_last());
    assert(seq_join(seq![two[0]], "\n"@) == "<ol>"@ + ea);
    assert(seq_join(two, "\n"@) == "<ol>"@ + ea + "\n"@ + eb);
    assert(toc_html(tokens) =~= "<ol>"@ + ea + "\n"@ + eb + "</ol>"@);
}

/// The table of contents of the tokens.
pub(crate) fn toc_of(tokens: &Vec<MarkdownElement>) -> (res: Html)
    ensures
        res@ == toc_html(elements_view(tokens@)),
{
    let ghost all = elements_view(tokens@);
    let mut current: usize = 0;
    let mut entries: Vec<String> = Vec::new();
    let mut k: usize = 0;
    assert(all.skip(0) =~= all);
    assert(strings_view(entries@) + toc_entries(all, 0) =~= toc_entries(all, 0));
    while k < tokens.len()
        invariant
            k <= tokens@.len(),
            all == elements_view(tokens@),
            toc_entries(all, 0) == strings_view(entries@) + toc_entries(
                all.skip(k as int),
                current as nat,
            ),
        decreases tokens@.len() - k,
    {
        let ghost rest = all.skip(k as int);
        assert(rest[0] == tokens@[k as int]@);
        assert(rest.drop_first() =~= all.skip(k + 1));
        match &tokens[k] {
            MarkdownElement::Heading(level, text) => {
                if *level != 1 {
                    let mut entry = String::new();
                    if current < *level {
                        entry.append("<ol>");
                    } else if current > *level {
                        entry.append("</ol>");
                    }
                    assert(entry@ =~= level_change(current as nat, *level as nat));
                    let ghost prefix = entry@;
                    current = *level;
                    entry.append("<li class=toc-h");
                    push_decimal(&mut entry, *level);
                    entry.append(">");
                    entry.append("<a href='#");
                    let anchor = remove_all_special(text.as_str());
                    entry.append(anchor.as_str());
                    entry.append("'>");
                    entry.append(text.as_str());
                    entry.append("</a>");
                    entry.append("</li>\n");
                    assert(entry@ =~= toc_entry(prefix, *level as nat, text@));
                    let ghost before = strings_view(entries@);
                    entries.push(entry);
                    assert(strings_view(entries@) =~= before.push(entry@));
                    assert(before + (seq![entry@] + toc_entries(all.skip(k + 1), current as nat))
                        =~= strings_view(entries@) + toc_entries(all.skip(k + 1), current as nat));
                }
            },
            _ => {},
        }
        k = k + 1;
    }
    assert(all.skip(k as int) =~= Seq::<Element>::empty());
    assert(strings_view(entries@) + toc_entries(all.skip(k as int), current as nat)
        =~= strings_view(entries@));
    let mut res = itertools_join(&entries, "\n");
    res.append("</ol>");
    res
}

/// Builds the table of contents of a page from its tokens: one entry for each
/// heading that is not of level 1, in order, each linked to the heading's
/// anchor, with lists opened and closed as the heading level changes.
pub fn generate_toc(parsed_tokens: Vec<MarkdownElement>) -> (res: Result<Html, String>)
    ensures
        res matches Ok(h) && h@ == toc_html(elements_view(parsed_tokens@)),
{
    Ok(toc_of(&parsed_tokens))
}

} // verus!
