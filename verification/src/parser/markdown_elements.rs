use vstd::prelude::*;

verus! {

pub type Level = usize;

pub type Link = String;

pub type Text = String;

pub type LanguageHint = String;

/// One token of a markdown page, as produced by the page parser and consumed
/// by the page generator.
pub enum MarkdownElement {
    TocMarker,
    /// level, text
    Heading(Level, Text),
    OrderedList(Level, Box<MarkdownElement>),
    UnorderedList(Level, Box<MarkdownElement>),
    Image(Text, Link),
    /// text, link
    Hyperlink(Text, Link),
    /// text, link
    WikiLink(Text, Link),
    /// language, text
    Codeblock(LanguageHint, String),
    BlockQuote(String),
    InlineCode(String),
    HorizontalLine,
    Newline,
    /// whatever whitespace it is, we take it
    Whitespace(String),
    Italics(Text),
    Bold(Text),
    BoldItalics(Text),
    PlainText(Text),
    Paragraph(Vec<MarkdownElement>),
}

/// The mathematical model of a `MarkdownElement`: every string is taken as
/// its sequence of characters.
pub enum Element {
    TocMarker,
    Heading(nat, Seq<char>),
    OrderedList(nat, Box<Element>),
    UnorderedList(nat, Box<Element>),
    Image(Seq<char>, Seq<char>),
    Hyperlink(Seq<char>, Seq<char>),
    WikiLink(Seq<char>, Seq<char>),
    Codeblock(Seq<char>, Seq<char>),
    BlockQuote(Seq<char>),
    InlineCode(Seq<char>),
    HorizontalLine,
    Newline,
    Whitespace(Seq<char>),
    Italics(Seq<char>),
    Bold(Seq<char>),
    BoldItalics(Seq<char>),
    PlainText(Seq<char>),
    Paragraph(Seq<Element>),
}

impl MarkdownElement {
    pub open spec fn model(&self) -> Element
        decreases self,
    {
        match self {
            MarkdownElement::TocMarker => Element::TocMarker,
            MarkdownElement::Heading(l, t) => Element::Heading(*l as nat, t@),
            MarkdownElement::OrderedList(l, b) => Element::OrderedList(*l as nat, Box::new(b.model())),
            MarkdownElement::UnorderedList(l, b) => Element::UnorderedList(
                *l as nat,
                Box::new(b.model()),
            ),
            MarkdownElement::Image(t, l) => Element::Image(t@, l@),
            MarkdownElement::Hyperlink(t, l) => Element::Hyperlink(t@, l@),
            MarkdownElement::WikiLink(t, l) => Element::WikiLink(t@, l@),
            MarkdownElement::Codeblock(h, c) => Element::Codeblock(h@, c@),
            MarkdownElement::BlockQuote(t) => Element::BlockQuote(t@),
            MarkdownElement::InlineCode(t) => Element::InlineCode(t@),
            MarkdownElement::HorizontalLine => Element::HorizontalLine,
            MarkdownElement::Newline => Element::Newline,
            MarkdownElement::Whitespace(t) => Element::Whitespace(t@),
            MarkdownElement::Italics(t) => Element::Italics(t@),
            MarkdownElement::Bold(t) => Element::Bold(t@),
            MarkdownElement::BoldItalics(t) => Element::BoldItalics(t@),
            MarkdownElement::PlainText(t) => Element::PlainText(t@),
            MarkdownElement::Paragraph(v) => Element::Paragraph(
                Seq::new(
                    v@.len(),
                    |i: int|
                        if 0 <= i < v@.len() {
                            v@[i].model()
                        } else {
                            Element::Newline
                        },
                ),
            ),
        }
    }
}

impl View for MarkdownElement {
    type V = Element;

    open spec fn view(&self) -> Element {
        self.model()
    }
}

impl MarkdownElement {
    /// A copy of the element, down to the strings it holds.
    pub fn deep_copy(&self) -> (res: Self)
        ensures
            res@ == self@,
        decreases self,
    {
        match self {
            MarkdownElement::TocMarker => MarkdownElement::TocMarker,
            MarkdownElement::Heading(l, t) => MarkdownElement::Heading(*l, t.clone()),
            MarkdownElement::OrderedList(l, b) => MarkdownElement::OrderedList(
                *l,
                Box::new((**b).deep_copy()),
            ),
            MarkdownElement::UnorderedList(l, b) => MarkdownElement::UnorderedList(
                *l,
                Box::new((**b).deep_copy()),
            ),
            MarkdownElement::Image(t, l) => MarkdownElement::Image(t.clone(), l.clone()),
            MarkdownElement::Hyperlink(t, l) => MarkdownElement::Hyperlink(t.clone(), l.clone()),
            MarkdownElement::WikiLink(t, l) => MarkdownElement::WikiLink(t.clone(), l.clone()),
            MarkdownElement::Codeblock(h, c) => MarkdownElement::Codeblock(h.clone(), c.clone()),
            MarkdownElement::BlockQuote(t) => MarkdownElement::BlockQuote(t.clone()),
            MarkdownElement::InlineCode(t) => MarkdownElement::InlineCode(t.clone()),
            MarkdownElement::HorizontalLine => MarkdownElement::HorizontalLine,
            MarkdownElement::Newline => MarkdownElement::Newline,
            MarkdownElement::Whitespace(t) => MarkdownElement::Whitespace(t.clone()),
            MarkdownElement::Italics(t) => MarkdownElement::Italics(t.clone()),
            MarkdownElement::Bold(t) => MarkdownElement::Bold(t.clone()),
            MarkdownElement::BoldItalics(t) => MarkdownElement::BoldItalics(t.clone()),
            MarkdownElement::PlainText(t) => MarkdownElement::PlainText(t.clone()),
            MarkdownElement::Paragraph(v) => {
                let mut w: Vec<MarkdownElement> = Vec::new();
                let mut k: usize = 0;
                while k < v.len()
                    invariant
                        k <= v@.len(),
                        self is Paragraph,
                        self->Paragraph_0 == *v,
                        w@.len() == k,
                        forall|j: int| 0 <= j < k ==> #[trigger] w@[j]@ == v@[j]@,
                    decreases v@.len() - k,
                {
                    assert(decreases_to!(*self => self->Paragraph_0));
                    assert(decreases_to!(*v => v@));
                    w.push(v[k].deep_copy());
                    k = k + 1;
                }
                proof {
                    lemma_paragraph_view(*v);
                    lemma_paragraph_view(w);
                    assert(elements_view(w@) =~= elements_view(v@));
                }
                MarkdownElement::Paragraph(w)
            },
        }
    }
}

impl Clone for MarkdownElement {
    fn clone(&self) -> (res: Self)
        ensures
            res@ == self@,
    {
        self.deep_copy()
    }
}

/// The models of a sequence of tokens.
pub open spec fn elements_view(v: Seq<MarkdownElement>) -> Seq<Element> {
    Seq::new(v.len(), |i: int| v[i]@)
}

pub(crate) proof fn lemma_paragraph_view(v: Vec<MarkdownElement>)
    ensures
        MarkdownElement::Paragraph(v)@ == Element::Paragraph(elements_view(v@)),
{
    let m = MarkdownElement::Paragraph(v)@;
    if let Element::Paragraph(q) = m {
        assert(q =~= elements_view(v@));
    }
}

} // verus!
