use vstd::prelude::*;

use crate::text::{push_char, to_chars};

verus! {

/// The characters that `remove_all_special` drops.
pub open spec fn is_removed_char(c: char) -> bool {
    c == '(' || c == ')' || c == '<' || c == '>' || c == ',' || c == '"' || c == '.' || c == ';'
        || c == ':' || c == '\'' || c == '\n' || c == '\r'
}

/// A space becomes an underscore; any other character stays.
pub open spec fn space_to_underscore(c: char) -> char {
    if c == ' ' {
        '_'
    } else {
        c
    }
}

/// `text` without the characters `( ) < > , " . ; : '`, line feeds and
/// carriage returns, and with each space turned into an underscore.
pub open spec fn without_specials(text: Seq<char>) -> Seq<char> {
    text.filter(|c: char| !is_removed_char(c)).map_values(|c: char| space_to_underscore(c))
}

pub proof fn lemma_without_specials_push(t: Seq<char>, c: char)
    ensures
        without_specials(t.push(c)) == if is_removed_char(c) {
            without_specials(t)
        } else {
            without_specials(t).push(space_to_underscore(c))
        },
{
    reveal(Seq::filter);
    let p = |c: char| !is_removed_char(c);
    assert(t.push(c).drop_last() =~= t);
    assert(t.push(c).filter(p) == if p(c) {
        t.filter(p).push(c)
    } else {
        t.filter(p)
    });
    if p(c) {
        assert(t.filter(p).push(c).map_values(|c: char| space_to_underscore(c)) =~= t.filter(
            p,
        ).map_values(|c: char| space_to_underscore(c)).push(space_to_underscore(c)));
    }
}

/// No character that `remove_all_special` drops, and no space, is left in
/// its result.
pub proof fn lemma_without_specials_clean(text: Seq<char>)
    ensures
        forall|i: int|
            0 <= i < without_specials(text).len() ==> !is_removed_char(
                #[trigger] without_specials(text)[i],
            ) && without_specials(text)[i] != ' ',
{
    let p = |c: char| !is_removed_char(c);
    let f = text.filter(p);
    assert forall|i: int| 0 <= i < without_specials(text).len() implies !is_removed_char(
        #[trigger] without_specials(text)[i],
    ) && without_specials(text)[i] != ' ' by {
        f.lemma_filter_len(p);
        text.lemma_filter_pred(p, i);
        assert(without_specials(text)[i] == space_to_underscore(f[i]));
    }
}

/// A text with no character that `remove_all_special` drops and no space is
/// left as it is.
pub proof fn lemma_without_specials_of_clean(text: Seq<char>)
    requires
        forall|i: int| 0 <= i < text.len() ==> !is_removed_char(#[trigger] text[i]) && text[i] != ' ',
    ensures
        without_specials(text) == text,
    decreases text.len(),
{
    reveal(Seq::filter);
    if text.len() > 0 {
        let rest = text.drop_last();
        assert forall|i: int| 0 <= i < rest.len() implies !is_removed_char(#[trigger] rest[i])
            && rest[i] != ' ' by {
            assert(rest[i] == text[i]);
        }
        lemma_without_specials_of_clean(rest);
        lemma_without_specials_push(rest, text.last());
        assert(rest.push(text.last()) =~= text);
    } else {
        assert(without_specials(text) =~= text);
    }
}

/// Removing the special characters twice is removing them once.
pub proof fn lemma_without_specials_idempotent(text: Seq<char>)
    ensures
        without_specials(without_specials(text)) == without_specials(text),
{
    lemma_without_specials_clean(text);
    lemma_without_specials_of_clean(without_specials(text));
}

/// Cleaning a text drops each of `( ) < > , " . ; : '`, line feeds and
/// carriage returns, turns a space into an underscore, and keeps every other
/// character (letters, digits, `#`, `-`, `_`, `/` and the like) as it is.
pub proof fn lemma_without_specials_of_each_char(t: Seq<char>, c: char)
    ensures
        (c == '(' || c == ')' || c == '<' || c == '>' || c == ',' || c == '"' || c == '.' || c
            == ';' || c == ':' || c == '\'' || c == '\n' || c == '\r') ==> without_specials(t.push(c))
            == without_specials(t),
        c == ' ' ==> without_specials(t.push(c)) == without_specials(t).push('_'),
        (('a' <= c <= 'z') || ('A' <= c <= 'Z') || ('0' <= c <= '9') || c == '#' || c == '-' || c
            == '_' || c == '/') ==> without_specials(t.push(c)) == without_specials(t).push(c),
{
    lemma_without_specials_push(t, c);
}

/// Drops the characters that cannot stand in a file name or an anchor, and
/// turns spaces into underscores.
pub fn remove_all_special(text: &str) -> (res: String)
    ensures
        res@ == without_specials(text@),
{
    let v = to_chars(text);
    let mut res = String::new();
    let mut k: usize = 0;
    proof {
        reveal(Seq::filter);
        assert(v@.take(0) =~= Seq::<char>::empty());
        assert(without_specials(v@.take(0)) =~= Seq::<char>::empty());
    }
    while k < v.len()
        invariant
            k <= v@.len(),
            res@ == without_specials(v@.take(k as int)),
        decreases v@.len() - k,
    {
        let c = v[k];
        proof {
            assert(v@.take(k + 1) =~= v@.take(k as int).push(c));
            lemma_without_specials_push(v@.take(k as int), c);
        }
        if !(c == '(' || c == ')' || c == '<' || c == '>' || c == ',' || c == '"' || c == '.' || c
            == ';' || c == ':' || c == '\'' || c == '\n' || c == '\r') {
            if c == ' ' {
                push_char(&mut res, '_');
            } else {
                push_char(&mut res, c);
            }
        }
        k = k + 1;
    }
    assert(v@.take(k as int) =~= v@);
    res
}

} // verus!
