use vstd::prelude::*;

verus! {

/// `String::push` appends one character at the end of the string.
#[verifier::external_body]
pub(crate) fn push_char(s: &mut String, c: char)
    ensures
        final(s)@ == old(s)@.push(c),
{
    s.push(c);
}

/// The characters of `s`, in order.
pub fn to_chars(s: &str) -> (res: Vec<char>)
    ensures
        res@ == s@,
{
    let mut res: Vec<char> = Vec::new();
    for c in it: s.chars()
        invariant
            res@ == it.seq().take(it.index() as int),
    {
        res.push(c);
    }
    res
}

/// The string made of the characters `v[a..b]`.
pub fn string_of(v: &Vec<char>, a: usize, b: usize) -> (res: String)
    requires
        a <= b <= v@.len(),
    ensures
        res@ == v@.subrange(a as int, b as int),
{
    let mut res = String::new();
    let mut k = a;
    while k < b
        invariant
            a <= k <= b <= v@.len(),
            res@ == v@.subrange(a as int, k as int),
        decreases b - k,
    {
        push_char(&mut res, v[k]);
        k = k + 1;
        assert(res@ =~= v@.subrange(a as int, k as int));
    }
    res
}

/// The pieces of `list` put one after the other, with `sep` between two
/// neighbours.
pub open spec fn seq_join(list: Seq<Seq<char>>, sep: Seq<char>) -> Seq<char>
    decreases list.len(),
{
    if list.len() == 0 {
        seq![]
    } else if list.len() == 1 {
        list[0]
    } else {
        seq_join(list.drop_last(), sep) + sep + list.last()
    }
}

/// `w` stands somewhere in `s`.
pub open spec fn has_substring(s: Seq<char>, w: Seq<char>) -> bool {
    exists|a: int| 0 <= a && a + w.len() <= s.len() && #[trigger] s.subrange(a, a + w.len()) == w
}

/// What stands in `u` stands in any text that has `u` in it.
pub proof fn lemma_substring_widen(x: Seq<char>, u: Seq<char>, y: Seq<char>, w: Seq<char>)
    requires
        has_substring(u, w),
    ensures
        has_substring(x + u + y, w),
{
    let a = choose|a: int| 0 <= a && a + w.len() <= u.len() && #[trigger] u.subrange(a, a + w.len()) == w;
    let s = x + u + y;
    let b = x.len() + a;
    assert(s.subrange(b, b + w.len()) =~= u.subrange(a, a + w.len()));
}

/// A text stands in any text that is made of it with something before and
/// something after it.
pub proof fn lemma_has_infix(x: Seq<char>, w: Seq<char>, y: Seq<char>)
    ensures
        has_substring(x + w + y, w),
{
    let a: int = x.len() as int;
    assert((x + w + y).subrange(a, a + w.len()) =~= w);
}

/// What stands in a part of a text stands in the text.
pub proof fn lemma_substring_trans(a: Seq<char>, b: Seq<char>, c: Seq<char>)
    requires
        has_substring(a, b),
        has_substring(b, c),
    ensures
        has_substring(a, c),
{
    let p = choose|p: int| 0 <= p && p + b.len() <= a.len() && #[trigger] a.subrange(p, p + b.len()) == b;
    let q = choose|q: int| 0 <= q && q + c.len() <= b.len() && #[trigger] b.subrange(q, q + c.len()) == c;
    let x = a.take(p);
    let y = a.skip(p + b.len());
    assert(a =~= x + b + y);
    lemma_substring_widen(x, b, y, c);
}

/// Each piece stands in the joined text.
pub proof fn lemma_seq_join_has_piece(list: Seq<Seq<char>>, sep: Seq<char>, k: int)
    requires
        0 <= k < list.len(),
    ensures
        has_substring(seq_join(list, sep), list[k]),
    decreases list.len(),
{
    let w = list[k];
    if list.len() == 1 {
        let a: int = 0;
        assert(seq_join(list, sep).subrange(a, a + w.len()) =~= w);
        assert(has_substring(seq_join(list, sep), w));
    } else if k == list.len() - 1 {
        let j = seq_join(list.drop_last(), sep);
        let b = (j.len() + sep.len()) as int;
        assert(seq_join(list, sep).subrange(b, b + w.len()) =~= w);
        assert(has_substring(seq_join(list, sep), w));
    } else {
        lemma_seq_join_has_piece(list.drop_last(), sep, k);
        assert(list.drop_last()[k] == w);
        lemma_substring_widen(seq![], seq_join(list.drop_last(), sep), sep + list.last(), w);
        assert(seq![] + seq_join(list.drop_last(), sep) + (sep + list.last()) =~= seq_join(
            list,
            sep,
        ));
    }
}

/// The views of a sequence of strings.
pub open spec fn strings_view(v: Seq<String>) -> Seq<Seq<char>> {
    Seq::new(v.len(), |i: int| v[i]@)
}

/// Joins the strings of `list` with `sep` between each two of them.
pub fn join_strings(list: &Vec<String>, sep: &str) -> (res: String)
    ensures
        res@ == seq_join(strings_view(list@), sep@),
{
    let mut res = String::new();
    let mut k: usize = 0;
    while k < list.len()
        invariant
            k <= list@.len(),
            res@ == seq_join(strings_view(list@).take(k as int), sep@),
        decreases list@.len() - k,
    {
        if k != 0 {
            res.append(sep);
        }
        res.append(list[k].as_str());
        k = k + 1;
        assert(strings_view(list@).take(k as int).drop_last() =~= strings_view(list@).take(
            (k - 1) as int,
        ));
    }
    assert(strings_view(list@).take(k as int) =~= strings_view(list@));
    res
}

/// The character of the decimal digit `d`.
pub open spec fn digit_char(d: nat) -> char {
    if d == 0 {
        '0'
    } else if d == 1 {
        '1'
    } else if d == 2 {
        '2'
    } else if d == 3 {
        '3'
    } else if d == 4 {
        '4'
    } else if d == 5 {
        '5'
    } else if d == 6 {
        '6'
    } else if d == 7 {
        '7'
    } else if d == 8 {
        '8'
    } else {
        '9'
    }
}

/// The decimal notation of `n`, without leading zeros.
pub open spec fn decimal(n: nat) -> Seq<char>
    decreases n,
{
    if n < 10 {
        seq![digit_char(n)]
    } else {
        decimal(n / 10).push(digit_char(n % 10))
    }
}

fn digit_of(d: usize) -> (c: char)
    requires
        d < 10,
    ensures
        c == digit_char(d as nat),
{
    if d == 0 {
        '0'
    } else if d == 1 {
        '1'
    } else if d == 2 {
        '2'
    } else if d == 3 {
        '3'
    } else if d == 4 {
        '4'
    } else if d == 5 {
        '5'
    } else if d == 6 {
        '6'
    } else if d == 7 {
        '7'
    } else if d == 8 {
        '8'
    } else {
        '9'
    }
}

/// Appends the decimal notation of `n` to `s`.
pub fn push_decimal(s: &mut String, n: usize)
    ensures
        final(s)@ == old(s)@ + decimal(n as nat),
    decreases n,
{
    if n < 10 {
        push_char(s, digit_of(n));
    } else {
        push_decimal(s, n / 10);
        push_char(s, digit_of(n % 10));
    }
}

/// The characters that have the Unicode property White_Space.
pub open spec fn is_unicode_whitespace(c: char) -> bool {
    ||| '\u{9}' <= c <= '\u{d}'
    ||| c == ' '
    ||| c == '\u{85}'
    ||| c == '\u{a0}'
    ||| c == '\u{1680}'
    ||| '\u{2000}' <= c <= '\u{200a}'
    ||| c == '\u{2028}'
    ||| c == '\u{2029}'
    ||| c == '\u{202f}'
    ||| c == '\u{205f}'
    ||| c == '\u{3000}'
}

pub fn whitespace(c: char) -> (b: bool)
    ensures
        b == is_unicode_whitespace(c),
{
    ('\u{9}' <= c && c <= '\u{d}') || c == ' ' || c == '\u{85}' || c == '\u{a0}' || c
        == '\u{1680}' || ('\u{2000}' <= c && c <= '\u{200a}') || c == '\u{2028}' || c
        == '\u{2029}' || c == '\u{202f}' || c == '\u{205f}' || c == '\u{3000}'
}

/// `t` without its leading whitespace.
pub open spec fn trim_start(t: Seq<char>) -> Seq<char>
    decreases t.len(),
{
    if t.len() > 0 && is_unicode_whitespace(t[0]) {
        trim_start(t.drop_first())
    } else {
        t
    }
}

/// `t` without its trailing whitespace.
pub open spec fn trim_end(t: Seq<char>) -> Seq<char>
    decreases t.len(),
{
    if t.len() > 0 && is_unicode_whitespace(t.last()) {
        trim_end(t.drop_last())
    } else {
        t
    }
}

/// `t` without leading and trailing whitespace.
pub open spec fn trim(t: Seq<char>) -> Seq<char> {
    trim_end(trim_start(t))
}

/// The string `v[a..b]` without its leading and trailing whitespace.
pub fn trimmed(v: &Vec<char>, a: usize, b: usize) -> (res: String)
    requires
        a <= b <= v@.len(),
    ensures
        res@ == trim(v@.subrange(a as int, b as int)),
{
    let mut lo = a;
    while lo < b && whitespace(v[lo])
        invariant
            a <= lo <= b <= v@.len(),
            trim_start(v@.subrange(a as int, b as int)) == trim_start(
                v@.subrange(lo as int, b as int),
            ),
        decreases b - lo,
    {
        assert(v@.subrange(lo as int, b as int).drop_first() =~= v@.subrange(
            lo + 1,
            b as int,
        ));
        lo = lo + 1;
    }
    let mut hi = b;
    while hi > lo && whitespace(v[hi - 1])
        invariant
            a <= lo <= hi <= b <= v@.len(),
            trim_end(v@.subrange(lo as int, b as int)) == trim_end(
                v@.subrange(lo as int, hi as int),
            ),
        decreases hi - lo,
    {
        assert(v@.subrange(lo as int, hi as int).drop_last() =~= v@.subrange(
            lo as int,
            hi - 1,
        ));
        hi = hi - 1;
    }
    string_of(v, lo, hi)
}

/// The number that a text of decimal digits stands for.
pub open spec fn digits_value(s: Seq<char>) -> int
    decreases s.len(),
{
    if s.len() == 0 {
        0
    } else {
        digits_value(s.drop_last()) * 10 + (s.last() as int - '0' as int)
    }
}

/// The decimal notation of a number is made of digits, starts with a zero
/// only for zero itself, and stands for that number.
pub proof fn lemma_decimal_denotes(n: nat)
    ensures
        decimal(n).len() > 0,
        forall|j: int| 0 <= j < decimal(n).len() ==> '0' <= #[trigger] decimal(n)[j] <= '9',
        decimal(n)[0] == '0' ==> n == 0,
        digits_value(decimal(n)) == n,
    decreases n,
{
    let r = n % 10;
    assert(digit_char(r) as int - '0' as int == r);
    if n < 10 {
        let one = seq![digit_char(n)];
        assert(one.drop_last() =~= Seq::<char>::empty());
        assert(digits_value(Seq::<char>::empty()) == 0);
        assert(digits_value(one) == digits_value(one.drop_last()) * 10 + (one.last() as int
            - '0' as int));
        assert(r == n);
    } else {
        assert(n == (n / 10) * 10 + r);
        lemma_decimal_denotes(n / 10);
        let d = decimal(n / 10);
        assert(decimal(n) == d.push(digit_char(n % 10)));
        assert(decimal(n).drop_last() =~= d);
        assert(decimal(n).last() == digit_char(r));
        assert(digits_value(decimal(n)) == digits_value(d) * 10 + (digit_char(r) as int
            - '0' as int));
        assert(decimal(n)[0] == d[0]);
        assert forall|j: int| 0 <= j < decimal(n).len() implies '0' <= #[trigger] decimal(n)[j]
            <= '9' by {
            if j < d.len() {
                assert(decimal(n)[j] == d[j]);
            }
        }
    }
}

/// Trimming the start removes exactly the white space in front: what is
/// left ends the text and does not start with white space.
pub proof fn lemma_trim_start_removes_leading_whitespace(t: Seq<char>)
    ensures
        trim_start(t).len() <= t.len(),
        trim_start(t) =~= t.skip(t.len() - trim_start(t).len()),
        forall|j: int|
            0 <= j < t.len() - trim_start(t).len() ==> is_unicode_whitespace(#[trigger] t[j]),
        trim_start(t).len() > 0 ==> !is_unicode_whitespace(trim_start(t)[0]),
    decreases t.len(),
{
    if t.len() > 0 && is_unicode_whitespace(t[0]) {
        let r = t.drop_first();
        lemma_trim_start_removes_leading_whitespace(r);
        assert forall|j: int| 0 <= j < t.len() - trim_start(t).len() implies is_unicode_whitespace(
            #[trigger] t[j],
        ) by {
            if j > 0 {
                assert(t[j] == r[j - 1]);
            }
        }
        assert(r.skip(r.len() - trim_start(r).len()) =~= t.skip(t.len() - trim_start(t).len()));
    } else {
        assert(t.skip(0) =~= t);
    }
}

/// Trimming the end removes exactly the white space at the end: what is left
/// starts the text and does not end with white space.
pub proof fn lemma_trim_end_removes_trailing_whitespace(t: Seq<char>)
    ensures
        trim_end(t).len() <= t.len(),
        trim_end(t) =~= t.take(trim_end(t).len() as int),
        forall|j: int|
            trim_end(t).len() <= j < t.len() ==> is_unicode_whitespace(#[trigger] t[j]),
        trim_end(t).len() > 0 ==> !is_unicode_whitespace(trim_end(t).last()),
    decreases t.len(),
{
    if t.len() > 0 && is_unicode_whitespace(t.last()) {
        let r = t.drop_last();
        lemma_trim_end_removes_trailing_whitespace(r);
        assert forall|j: int| trim_end(t).len() <= j < t.len() implies is_unicode_whitespace(
            #[trigger] t[j],
        ) by {
            if j < t.len() - 1 {
                assert(t[j] == r[j]);
            }
        }
        assert(r.take(trim_end(r).len() as int) =~= t.take(trim_end(t).len() as int));
    } else {
        assert(t.take(t.len() as int) =~= t);
    }
}

} // verus!
