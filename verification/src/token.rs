//! The tokens of a description, each with the site where it stands. The
//! front end reads the source text and hands the tokens over as plain values:
//! an integer literal with its digits and suffix, a byte string with its
//! bytes, a group with the tokens between its brackets.

use vstd::prelude::*;
use vstd::string::StringExecFns;

verus! {

/// An anchor into the source text. The front end that builds the entry tree
/// assigns one to each token it keeps; failures hand it back unchanged.
#[derive(Clone, Copy, Debug, PartialEq, Eq, Structural)]
pub struct Site {
    pub index: usize,
}

/// An identifier as it stands in the source.
#[derive(Debug, Clone, PartialEq, Eq)]
pub struct Ident {
    pub name: String,
    pub site: Site,
}

/// The mathematical form of an [`Ident`].
pub struct IdentView {
    pub name: Seq<char>,
    pub site: Site,
}

impl View for Ident {
    type V = IdentView;

    open spec fn view(&self) -> IdentView {
        IdentView { name: self.name@, site: self.site }
    }
}

impl Ident {
    pub fn new(name: &str, site: Site) -> (r: Ident)
        ensures
            r@ == (IdentView { name: name@, site }),
    {
        Ident { name: name.to_owned(), site }
    }

    /// A copy with the same name and site.
    pub fn duplicate(&self) -> (r: Ident)
        ensures
            r@ == self@,
    {
        Ident { name: self.name.clone(), site: self.site }
    }
}

/// A label as it stands in the source: its name, without the quote that
/// introduces it, and where it stands.
#[derive(Debug, Clone, PartialEq, Eq)]
pub struct Label {
    pub name: String,
    pub site: Site,
}

/// The mathematical form of a [`Label`].
pub struct LabelView {
    pub name: Seq<char>,
    pub site: Site,
}

impl View for Label {
    type V = LabelView;

    open spec fn view(&self) -> LabelView {
        LabelView { name: self.name@, site: self.site }
    }
}

impl Label {
    pub fn new(name: &str, site: Site) -> (r: Label)
        ensures
            r@ == (LabelView { name: name@, site }),
    {
        Label { name: name.to_owned(), site }
    }

    /// A copy with the same name and site.
    pub fn duplicate(&self) -> (r: Label)
        ensures
            r@ == self@,
    {
        Label { name: self.name.clone(), site: self.site }
    }
}

/// The views of a sequence of labels, in order.
pub open spec fn label_views(labels: Seq<Label>) -> Seq<LabelView> {
    Seq::new(labels.len(), |i: int| labels[i]@)
}

/// What `syn` makes of a text that it reads as one integer literal: the
/// literal as written, its value in decimal digits, and its suffix. `None`
/// where `syn` does not read the text as an integer literal.
pub uninterp spec fn int_literal_parts(text: Seq<char>) -> Option<(Seq<char>, Seq<char>, Seq<char>)>;

/// `syn::parse_str::<syn::LitInt>`, with `to_string`, `base10_digits` and
/// `suffix` of the literal that it gives: the three strings are what
/// [`int_literal_parts`] names for `text`, and there are none where the text
/// is refused.
#[verifier::external_body]
fn split_int_literal(text: &str) -> (r: Option<(String, String, String)>)
    ensures
        match r {
            Some(p) => int_literal_parts(text@) == Some((p.0@, p.1@, p.2@)),
            None => int_literal_parts(text@) is None,
        },
{
    match syn::parse_str::<syn::LitInt>(text) {
        Ok(lit) => Some((lit.to_string(), lit.base10_digits().to_owned(), lit.suffix().to_owned())),
        Err(_) => None,
    }
}

/// An integer literal: the text as written, the decimal digits of its value,
/// and the suffix behind the digits.
#[derive(Debug, Clone, PartialEq, Eq)]
pub struct LitInt {
    repr: String,
    digits: String,
    suffix: String,
    site: Site,
}

/// The mathematical form of a [`LitInt`].
pub struct LitIntView {
    pub repr: Seq<char>,
    pub digits: Seq<char>,
    pub suffix: Seq<char>,
    pub site: Site,
}

impl View for LitInt {
    type V = LitIntView;

    closed spec fn view(&self) -> LitIntView {
        LitIntView { repr: self.repr@, digits: self.digits@, suffix: self.suffix@, site: self.site }
    }
}

impl LitIntView {
    /// The literal with a minus sign in front of it.
    pub open spec fn negated(self) -> LitIntView {
        LitIntView { repr: seq!['-'] + self.repr, digits: seq!['-'] + self.digits, ..self }
    }
}

impl LitInt {
    /// Reads `text` as one integer literal.
    pub fn parse(text: &str, site: Site) -> (r: Option<LitInt>)
        ensures
            match int_literal_parts(text@) {
                Some(p) => r matches Some(lit) && lit@ == (LitIntView {
                    repr: p.0,
                    digits: p.1,
                    suffix: p.2,
                    site,
                }),
                None => r is None,
            },
    {
        match split_int_literal(text) {
            Some(p) => Some(LitInt { repr: p.0, digits: p.1, suffix: p.2, site }),
            None => None,
        }
    }

    /// A literal from its three parts.
    pub fn from_parts(repr: &str, digits: &str, suffix: &str, site: Site) -> (r: LitInt)
        ensures
            r@ == (LitIntView { repr: repr@, digits: digits@, suffix: suffix@, site }),
    {
        LitInt { repr: repr.to_owned(), digits: digits.to_owned(), suffix: suffix.to_owned(), site }
    }

    /// A copy with the same parts and site.
    pub fn duplicate(&self) -> (r: LitInt)
        ensures
            r@ == self@,
    {
        LitInt {
            repr: self.repr.clone(),
            digits: self.digits.clone(),
            suffix: self.suffix.clone(),
            site: self.site,
        }
    }

    /// The literal with a minus sign in front of it.
    pub fn negated(&self) -> (r: LitInt)
        ensures
            r@ == self@.negated(),
    {
        proof {
            reveal_strlit("-");
        }
        let mut repr: String = "-".to_owned();
        repr.append(self.repr.as_str());
        let mut digits: String = "-".to_owned();
        digits.append(self.digits.as_str());
        assert(repr@ =~= seq!['-'] + self.repr@);
        assert(digits@ =~= seq!['-'] + self.digits@);
        LitInt { repr, digits, suffix: self.suffix.clone(), site: self.site }
    }

    /// The literal as written.
    pub fn repr(&self) -> (r: &str)
        ensures
            r@ == self@.repr,
    {
        self.repr.as_str()
    }

    /// The value in decimal digits.
    pub fn base10_digits(&self) -> (r: &str)
        ensures
            r@ == self@.digits,
    {
        self.digits.as_str()
    }

    pub fn suffix(&self) -> (r: &str)
        ensures
            r@ == self@.suffix,
    {
        self.suffix.as_str()
    }

    pub fn site(&self) -> (r: Site)
        ensures
            r == self@.site,
    {
        self.site
    }
}

/// The brackets of a group.
#[derive(Debug, Clone, Copy, PartialEq, Eq, Structural)]
pub enum Delimiter {
    /// `( ... )`
    Parenthesis,
    /// `{ ... }`
    Brace,
    /// `[ ... ]`
    Bracket,
}

/// One token of a description.
#[derive(Debug, PartialEq, Eq)]
#[allow(inconsistent_fields)]
pub enum Token {
    /// A name.
    Ident(Ident),
    /// A label: a quote and a name.
    Lifetime(Label),
    /// One character of punctuation.
    Punct { ch: char, site: Site },
    /// An integer literal.
    Int(LitInt),
    /// A byte literal, with the byte that it stands for.
    Byte { value: u8, site: Site },
    /// A byte string literal, with the bytes that it stands for.
    ByteStr { value: Vec<u8>, site: Site },
    /// A C string literal, with its bytes up to the zero byte that ends it.
    CStr { value: Vec<u8>, site: Site },
    /// A literal of any other kind.
    Literal { site: Site },
    /// The tokens between two brackets.
    Group { delimiter: Delimiter, tokens: Vec<Token>, site: Site },
}

/// The mathematical form of a [`Token`].
#[allow(inconsistent_fields)]
pub enum TokenView {
    Ident(IdentView),
    Lifetime(LabelView),
    Punct { ch: char, site: Site },
    Int(LitIntView),
    Byte { value: u8, site: Site },
    ByteStr { value: Seq<u8>, site: Site },
    CStr { value: Seq<u8>, site: Site },
    Literal { site: Site },
    Group { delimiter: Delimiter, tokens: Seq<TokenView>, site: Site },
}

/// The mathematical form of `token`.
pub open spec fn token_view(token: Token) -> TokenView
    decreases token, 0nat,
{
    match token {
        Token::Ident(ident) => TokenView::Ident(ident@),
        Token::Lifetime(label) => TokenView::Lifetime(label@),
        Token::Punct { ch, site } => TokenView::Punct { ch, site },
        Token::Int(lit) => TokenView::Int(lit@),
        Token::Byte { value, site } => TokenView::Byte { value, site },
        Token::ByteStr { value, site } => TokenView::ByteStr { value: value@, site },
        Token::CStr { value, site } => TokenView::CStr { value: value@, site },
        Token::Literal { site } => TokenView::Literal { site },
        Token::Group { delimiter, tokens, site } => TokenView::Group {
            delimiter,
            tokens: tokens_view(tokens@, tokens@.len()),
            site,
        },
    }
}

/// The mathematical forms of the first `upto` tokens of `tokens`.
pub open spec fn tokens_view(tokens: Seq<Token>, upto: nat) -> Seq<TokenView>
    decreases tokens, 1nat, upto,
{
    if upto == 0 || upto > tokens.len() {
        Seq::empty()
    } else {
        tokens_view(tokens, (upto - 1) as nat).push(token_view(tokens[upto - 1]))
    }
}

impl View for Token {
    type V = TokenView;

    open spec fn view(&self) -> TokenView {
        token_view(*self)
    }
}

/// The mathematical form of a list of tokens.
pub open spec fn token_views(tokens: Seq<Token>) -> Seq<TokenView> {
    tokens_view(tokens, tokens.len())
}

/// The form of a list of tokens has the form of each token at its place.
pub proof fn lemma_tokens_view(tokens: Seq<Token>, upto: nat)
    requires
        upto <= tokens.len(),
    ensures
        tokens_view(tokens, upto).len() == upto,
        forall|i: int| 0 <= i < upto ==> #[trigger] tokens_view(tokens, upto)[i] == token_view(tokens[i]),
    decreases upto,
{
    if upto > 0 {
        lemma_tokens_view(tokens, (upto - 1) as nat);
    }
}

impl TokenView {
    /// Where the token stands.
    pub open spec fn site(self) -> Site {
        match self {
            TokenView::Ident(ident) => ident.site,
            TokenView::Lifetime(label) => label.site,
            TokenView::Punct { site, .. } => site,
            TokenView::Int(lit) => lit.site,
            TokenView::Byte { site, .. } => site,
            TokenView::ByteStr { site, .. } => site,
            TokenView::CStr { site, .. } => site,
            TokenView::Literal { site } => site,
            TokenView::Group { site, .. } => site,
        }
    }

    /// The token is the one character `ch` of punctuation.
    pub open spec fn is_punct(self, ch: char) -> bool {
        self matches TokenView::Punct { ch: c, .. } && c == ch
    }
}

impl Token {
    /// Where the token stands.
    pub fn site(&self) -> (r: Site)
        ensures
            r == self@.site(),
    {
        match self {
            Token::Ident(ident) => ident.site,
            Token::Lifetime(label) => label.site,
            Token::Punct { site, .. } => *site,
            Token::Int(lit) => lit.site(),
            Token::Byte { site, .. } => *site,
            Token::ByteStr { site, .. } => *site,
            Token::CStr { site, .. } => *site,
            Token::Literal { site } => *site,
            Token::Group { site, .. } => *site,
        }
    }

    /// Whether the token is the one character `ch` of punctuation.
    pub fn is_punct(&self, ch: char) -> (r: bool)
        ensures
            r == self@.is_punct(ch),
    {
        match self {
            Token::Punct { ch: c, .. } => *c == ch,
            _ => false,
        }
    }
}

} // verus!
