//! The grammar of a description. A description is a list of entries with
//! commas between them and, if one likes, a comma behind the last. An entry
//! is told by the token that it starts with:
//!
//! - a literal stands for itself, an integer literal with a minus sign in
//!   front of it too;
//! - braces hold a block of entries;
//! - a label and a colon stand in front of the entry that they name;
//! - a name and round brackets are a call where a colon and a type follow,
//!   and a directive where they do not;
//! - `@`, a name, `=` and a name are a change of mode;
//! - square brackets hold a repeat: a block or a literal, a semicolon, and
//!   the count.

use vstd::prelude::*;
use crate::entry::Entry;
use crate::entry::EntryView;
use crate::entry::block::BlockEntry;
use crate::entry::call::CallEntry;
use crate::entry::call::CallEntryView;
use crate::entry::call::CallExpr;
use crate::entry::call::CallExprEntry;
use crate::entry::call::CallExprEntryView;
use crate::entry::call::CallExprView;
use crate::entry::call::DirectiveEntry;
use crate::entry::call::DirectiveEntryView;
use crate::entry::call::query_named;
use crate::entry::call::query_of;
use crate::entry::labeled::LabeledEntry;
use crate::entry::labeled::LabeledEntryView;
use crate::entry::literal::ByteLiteral;
use crate::entry::literal::ByteStringLiteral;
use crate::entry::literal::CStringLiteral;
use crate::entry::literal::IntLiteral;
use crate::entry::literal::LiteralEntry;
use crate::entry::literal::LiteralEntryView;
use crate::entry::mode_change::ModeChange;
use crate::entry::mode_change::ModeChangeView;
use crate::entry::repeat::Contents;
use crate::entry::repeat::ContentsView;
use crate::entry::repeat::RepeatEntry;
use crate::entry::repeat::RepeatEntryView;
use crate::entry::sequence::SequenceEntry;
use crate::entry::sequence::entries_view;
use crate::entry::sequence::lemma_entries_view_push;
use crate::error::Error;
use crate::error::ErrorView;
use crate::parse::base::PrimitiveSpec;
use crate::parse::base::primitive_of;
use crate::text::str_eq;
use crate::to_bytes::outcome;
use crate::token::Delimiter;
use crate::token::Ident;
use crate::token::IdentView;
use crate::token::Label;
use crate::token::LabelView;
use crate::token::LitInt;
use crate::token::LitIntView;
use crate::token::Site;
use crate::token::Token;
use crate::token::TokenView;
use crate::token::lemma_tokens_view;
use crate::token::token_views;

verus! {

/// The integer literal that stands at `at`, and the index behind it: an
/// integer literal, or a minus sign and an integer literal.
pub open spec fn int_at(tokens: Seq<TokenView>, at: int) -> Option<(LitIntView, int)> {
    if 0 <= at < tokens.len() {
        match tokens[at] {
            TokenView::Int(lit) => Some((lit, at + 1)),
            TokenView::Punct { ch, .. } => if ch == '-' && at + 1 < tokens.len() {
                match tokens[at + 1] {
                    TokenView::Int(lit) => Some((lit.negated(), at + 2)),
                    _ => None,
                }
            } else {
                None
            },
            _ => None,
        }
    } else {
        None
    }
}

/// The literal that stands at `at`, and the index behind it.
pub open spec fn literal_at(tokens: Seq<TokenView>, at: int) -> Option<(LiteralEntryView, int)> {
    if 0 <= at < tokens.len() {
        match tokens[at] {
            TokenView::Byte { value, .. } => Some((LiteralEntryView::Byte(value), at + 1)),
            TokenView::ByteStr { value, .. } => Some((LiteralEntryView::ByteString(value), at + 1)),
            TokenView::CStr { value, .. } => Some((LiteralEntryView::CString(value), at + 1)),
            _ => match int_at(tokens, at) {
                Some((lit, next)) => Some((LiteralEntryView::Int(lit), next)),
                None => None,
            },
        }
    } else {
        None
    }
}

/// What stands in the way where the token at `at` is not the one wanted:
/// that token, or the end of the tokens; `end` is the group that the tokens
/// stand in.
pub open spec fn unexpected(tokens: Seq<TokenView>, at: int, end: Option<Site>) -> ErrorView {
    if 0 <= at < tokens.len() {
        ErrorView::UnexpectedToken { site: tokens[at].site() }
    } else {
        ErrorView::UnexpectedEnd { site: end }
    }
}

/// The index behind the character `ch` of punctuation, which stands at `at`.
pub open spec fn punct_at(tokens: Seq<TokenView>, at: int, ch: char, end: Option<Site>) -> Result<
    int,
    ErrorView,
> {
    if 0 <= at < tokens.len() && tokens[at].is_punct(ch) {
        Ok(at + 1)
    } else {
        Err(unexpected(tokens, at, end))
    }
}

/// The name that stands at `at`.
pub open spec fn ident_at(tokens: Seq<TokenView>, at: int, end: Option<Site>) -> Result<IdentView, ErrorView> {
    if 0 <= at < tokens.len() && tokens[at] is Ident {
        Ok(tokens[at]->Ident_0)
    } else {
        Err(unexpected(tokens, at, end))
    }
}

/// The index behind a comma at `at`, or `at` where none stands there.
pub open spec fn behind_comma(tokens: Seq<TokenView>, at: int) -> int {
    if 0 <= at < tokens.len() && tokens[at].is_punct(',') {
        at + 1
    } else {
        at
    }
}

/// The tokens end at `at`.
pub open spec fn end_at(tokens: Seq<TokenView>, at: int) -> Result<(), ErrorView> {
    if at >= tokens.len() {
        Ok(())
    } else {
        Err(unexpected(tokens, at, None))
    }
}

/// The label between the brackets of a call: a label, and a comma behind it
/// or none.
pub open spec fn call_args(tokens: Seq<TokenView>, site: Site) -> Result<LabelView, ErrorView> {
    if tokens.len() > 0 && tokens[0] is Lifetime {
        match end_at(tokens, behind_comma(tokens, 1)) {
            Ok(()) => Ok(tokens[0]->Lifetime_0),
            Err(e) => Err(e),
        }
    } else {
        Err(unexpected(tokens, 0, Some(site)))
    }
}

/// The number between the brackets of a directive: an integer literal, and
/// a comma behind it or none.
pub open spec fn directive_args(tokens: Seq<TokenView>, site: Site) -> Result<LitIntView, ErrorView> {
    match int_at(tokens, 0) {
        Some((lit, next)) => match end_at(tokens, behind_comma(tokens, next)) {
            Ok(()) => Ok(lit),
            Err(e) => Err(e),
        },
        None => Err(unexpected(tokens, 0, Some(site))),
    }
}

/// The call that starts at `at` with the name `name`, the tokens `args`
/// between its brackets and a colon, and the index behind it.
pub open spec fn call_at(
    tokens: Seq<TokenView>,
    at: int,
    end: Option<Site>,
    name: IdentView,
    args: Seq<TokenView>,
    args_site: Site,
) -> Result<(EntryView, int), ErrorView> {
    if query_of(name.name) is None {
        Err(ErrorView::UnknownCall { site: name.site })
    } else {
        match call_args(args, args_site) {
            Err(e) => Err(e),
            Ok(lifetime) => match ident_at(tokens, at + 3, end) {
                Err(e) => Err(e),
                Ok(primitive) => match primitive_of(primitive) {
                    Err(e) => Err(e),
                    Ok(_) => Ok(
                        (
                            EntryView::Call(
                                CallEntryView::CallExpr(
                                    CallExprEntryView {
                                        call_expr: CallExprView { name, lifetime },
                                        primitive,
                                    },
                                ),
                            ),
                            at + 4,
                        ),
                    ),
                },
            },
        }
    }
}

/// The directive that starts at `at` with the name `name` and the tokens
/// `args` between its brackets, and the index behind it.
pub open spec fn directive_at(at: int, name: IdentView, args: Seq<TokenView>, args_site: Site) -> Result<
    (EntryView, int),
    ErrorView,
> {
    if name.name != "align"@ {
        Err(ErrorView::UnknownDirective { site: name.site })
    } else {
        match directive_args(args, args_site) {
            Err(e) => Err(e),
            Ok(lit) => Ok(
                (EntryView::Call(CallEntryView::Directive(DirectiveEntryView { name, args: lit })), at + 2),
            ),
        }
    }
}

/// The change of mode that starts at `at` with `@`, the name `mode` and `=`,
/// and the index behind it.
pub open spec fn mode_change_at(tokens: Seq<TokenView>, at: int, end: Option<Site>, mode: IdentView) -> Result<
    (EntryView, int),
    ErrorView,
> {
    match ident_at(tokens, at + 3, end) {
        Err(e) => Err(e),
        Ok(new_mode) => Ok((EntryView::ModeChange(ModeChangeView { mode, new_mode }), at + 4)),
    }
}

/// The tokens at `at` open a call or a directive: a name and round brackets.
pub open spec fn opens_call(tokens: Seq<TokenView>, at: int) -> bool {
    &&& at + 1 < tokens.len()
    &&& tokens[at] is Ident
    &&& tokens[at + 1] matches TokenView::Group { delimiter, .. }
    &&& delimiter == Delimiter::Parenthesis
}

/// The tokens at `at` open a change of mode: `@`, a name and `=`.
pub open spec fn opens_mode_change(tokens: Seq<TokenView>, at: int) -> bool {
    &&& at + 2 < tokens.len()
    &&& tokens[at].is_punct('@')
    &&& tokens[at + 1] is Ident
    &&& tokens[at + 2].is_punct('=')
}

/// The tokens at `at` open a labelled entry: a label and a colon.
pub open spec fn opens_labeled(tokens: Seq<TokenView>, at: int) -> bool {
    &&& at + 1 < tokens.len()
    &&& tokens[at] is Lifetime
    &&& tokens[at + 1].is_punct(':')
}

/// The token is a group in the brackets `delimiter`.
pub open spec fn is_group(token: TokenView, delimiter: Delimiter) -> bool {
    token matches TokenView::Group { delimiter: d, .. } && d == delimiter
}

/// The entry that starts at `at`, and the index behind it; `end` is the
/// group that the tokens stand in.
pub open spec fn entry_at(tokens: Seq<TokenView>, at: int, end: Option<Site>) -> Result<
    (EntryView, int),
    ErrorView,
>
    decreases tokens, tokens.len() - at, 0nat,
{
    if !(0 <= at < tokens.len()) {
        Err(unexpected(tokens, at, end))
    } else if let Some((literal, next)) = literal_at(tokens, at) {
        Ok((EntryView::Literal(literal), next))
    } else if is_group(tokens[at], Delimiter::Brace) {
        match entries_from(tokens[at]->Group_tokens, 0, Some(tokens[at]->Group_site)) {
            Ok(entries) => Ok((EntryView::Block(entries), at + 1)),
            Err(e) => Err(e),
        }
    } else if opens_labeled(tokens, at) {
        match entry_at(tokens, at + 2, end) {
            Ok((sub_entry, next)) => Ok(
                (
                    EntryView::Labeled(
                        LabeledEntryView { label: tokens[at]->Lifetime_0, sub_entry: Box::new(sub_entry) },
                    ),
                    next,
                ),
            ),
            Err(e) => Err(e),
        }
    } else if opens_call(tokens, at) {
        if at + 2 < tokens.len() && tokens[at + 2].is_punct(':') {
            call_at(
                tokens,
                at,
                end,
                tokens[at]->Ident_0,
                tokens[at + 1]->Group_tokens,
                tokens[at + 1]->Group_site,
            )
        } else {
            directive_at(at, tokens[at]->Ident_0, tokens[at + 1]->Group_tokens, tokens[at + 1]->Group_site)
        }
    } else if opens_mode_change(tokens, at) {
        mode_change_at(tokens, at, end, tokens[at + 1]->Ident_0)
    } else if is_group(tokens[at], Delimiter::Bracket) {
        match repeat_in(tokens[at]->Group_tokens, tokens[at]->Group_site) {
            Ok(repeat) => Ok((EntryView::Repeat(repeat), at + 1)),
            Err(e) => Err(e),
        }
    } else {
        Err(ErrorView::UnexpectedToken { site: tokens[at].site() })
    }
}

/// The repeat that the tokens between square brackets stand for: a block or
/// a literal, a semicolon, and the count; `site` is where the brackets stand.
pub open spec fn repeat_in(tokens: Seq<TokenView>, site: Site) -> Result<RepeatEntryView, ErrorView>
    decreases tokens, tokens.len() + 1, 0nat,
{
    match contents_in(tokens, site) {
        Err(e) => Err(e),
        Ok((contents, next)) => match punct_at(tokens, next, ';', Some(site)) {
            Err(e) => Err(e),
            Ok(at) => match int_at(tokens, at) {
                None => Err(unexpected(tokens, at, Some(site))),
                Some((count, behind)) => match end_at(tokens, behind) {
                    Err(e) => Err(e),
                    Ok(()) => Ok(RepeatEntryView { contents, count }),
                },
            },
        },
    }
}

/// What a repeat repeats, which stands first between its brackets, and the
/// index behind it.
pub open spec fn contents_in(tokens: Seq<TokenView>, site: Site) -> Result<(ContentsView, int), ErrorView>
    decreases tokens, tokens.len(), 0nat,
{
    if tokens.len() > 0 && is_group(tokens[0], Delimiter::Brace) {
        match entries_from(tokens[0]->Group_tokens, 0, Some(tokens[0]->Group_site)) {
            Ok(entries) => Ok((ContentsView::Braced(entries), 1)),
            Err(e) => Err(e),
        }
    } else {
        match literal_at(tokens, 0) {
            Some((literal, next)) => Ok((ContentsView::SingleLiteral(literal), next)),
            None => Err(unexpected(tokens, 0, Some(site))),
        }
    }
}

/// The entries that the tokens from `at` on stand for: entries with commas
/// between them, and a comma behind the last or none.
pub open spec fn entries_from(tokens: Seq<TokenView>, at: int, end: Option<Site>) -> Result<
    Seq<EntryView>,
    ErrorView,
>
    decreases tokens, tokens.len() - at, 1nat,
{
    if !(0 <= at < tokens.len()) {
        Ok(Seq::empty())
    } else {
        match entry_at(tokens, at, end) {
            Err(e) => Err(e),
            Ok((entry, next)) => if next >= tokens.len() {
                Ok(seq![entry])
            } else if next > at && tokens[next].is_punct(',') {
                match entries_from(tokens, next + 1, end) {
                    Ok(rest) => Ok(seq![entry] + rest),
                    Err(e) => Err(e),
                }
            } else {
                Err(ErrorView::UnexpectedToken { site: tokens[next].site() })
            },
        }
    }
}

/// The entries `front` with those of `rest` behind them, where there are any.
pub open spec fn behind(front: Seq<EntryView>, rest: Result<Seq<EntryView>, ErrorView>) -> Result<
    Seq<EntryView>,
    ErrorView,
> {
    match rest {
        Ok(entries) => Ok(front + entries),
        Err(e) => Err(e),
    }
}

/// The entries that a whole description stands for.
pub open spec fn parsed(tokens: Seq<TokenView>) -> Result<Seq<EntryView>, ErrorView> {
    entries_from(tokens, 0, None)
}

/// An entry takes up one token at the least, and no more than there are.
pub proof fn lemma_entry_at_advances(tokens: Seq<TokenView>, at: int, end: Option<Site>)
    ensures
        entry_at(tokens, at, end) matches Ok((_, next)) ==> at < next <= tokens.len(),
    decreases tokens.len() - at,
{
    if 0 <= at < tokens.len() && literal_at(tokens, at) is None && !is_group(
        tokens[at],
        Delimiter::Brace,
    ) && opens_labeled(tokens, at) {
        lemma_entry_at_advances(tokens, at + 2, end);
    }
}

/// A copy of `bytes`.
fn copy_bytes(bytes: &Vec<u8>) -> (r: Vec<u8>)
    ensures
        r@ == bytes@,
{
    let r = bytes.clone();
    assert(r@ =~= bytes@);
    r
}

/// The integer literal that stands at `at`; see [`int_at`].
fn parse_int_at(tokens: &Vec<Token>, at: usize) -> (r: Option<(LitInt, usize)>)
    ensures
        match int_at(token_views(tokens@), at as int) {
            Some((lit, next)) => r matches Some(p) && p.0@ == lit && p.1 == next && at < next
                <= tokens.len(),
            None => r is None,
        },
{
    proof {
        lemma_tokens_view(tokens@, tokens@.len());
    }
    if at >= tokens.len() {
        return None;
    }
    match &tokens[at] {
        Token::Int(lit) => Some((lit.duplicate(), at + 1)),
        Token::Punct { ch, .. } => {
            if *ch == '-' && at + 1 < tokens.len() {
                match &tokens[at + 1] {
                    Token::Int(lit) => Some((lit.negated(), at + 2)),
                    _ => None,
                }
            } else {
                None
            }
        },
        _ => None,
    }
}

/// The literal that stands at `at`; see [`literal_at`].
fn parse_literal_at(tokens: &Vec<Token>, at: usize) -> (r: Option<(LiteralEntry, usize)>)
    ensures
        match literal_at(token_views(tokens@), at as int) {
            Some((literal, next)) => r matches Some(p) && p.0@ == literal && p.1 == next && at < next
                <= tokens.len(),
            None => r is None,
        },
{
    proof {
        lemma_tokens_view(tokens@, tokens@.len());
    }
    if at >= tokens.len() {
        return None;
    }
    match &tokens[at] {
        Token::Byte { value, .. } => Some((LiteralEntry::Byte(ByteLiteral { value: *value }), at + 1)),
        Token::ByteStr { value, .. } => Some(
            (LiteralEntry::ByteString(ByteStringLiteral { value: copy_bytes(value) }), at + 1),
        ),
        Token::CStr { value, .. } => Some(
            (LiteralEntry::CString(CStringLiteral { value: copy_bytes(value) }), at + 1),
        ),
        _ => match parse_int_at(tokens, at) {
            Some((lit, next)) => Some((LiteralEntry::Int(IntLiteral { value: lit }), next)),
            None => None,
        },
    }
}

/// The failure for a token at `at` that is not the one wanted; see
/// [`unexpected`].
fn fail_at(tokens: &Vec<Token>, at: usize, end: Option<Site>) -> (r: Error)
    ensures
        r@ == unexpected(token_views(tokens@), at as int, end),
{
    proof {
        lemma_tokens_view(tokens@, tokens@.len());
    }
    if at < tokens.len() {
        Error::UnexpectedToken { site: tokens[at].site() }
    } else {
        Error::UnexpectedEnd { site: end }
    }
}

/// The name that stands at `at`; see [`ident_at`].
fn parse_ident_at(tokens: &Vec<Token>, at: usize, end: Option<Site>) -> (r: Result<Ident, Error>)
    ensures
        match ident_at(token_views(tokens@), at as int, end) {
            Ok(ident) => r matches Ok(x) && x@ == ident && at < tokens.len(),
            Err(e) => r matches Err(x) && x@ == e,
        },
{
    proof {
        lemma_tokens_view(tokens@, tokens@.len());
    }
    if at < tokens.len() {
        match &tokens[at] {
            Token::Ident(ident) => {
                return Ok(ident.duplicate());
            },
            _ => {},
        }
    }
    Err(fail_at(tokens, at, end))
}

/// Whether the character `ch` of punctuation stands at `at`.
fn punct_stands_at(tokens: &Vec<Token>, at: usize, ch: char) -> (r: bool)
    ensures
        r == (at < tokens.len() && token_views(tokens@)[at as int].is_punct(ch)),
{
    proof {
        lemma_tokens_view(tokens@, tokens@.len());
    }
    at < tokens.len() && tokens[at].is_punct(ch)
}

/// Tests that the tokens end behind a comma at `at`, or at `at`.
fn parse_end_behind_comma(tokens: &Vec<Token>, at: usize) -> (r: Result<(), Error>)
    requires
        at <= tokens.len(),
    ensures
        outcome(r) == end_at(token_views(tokens@), behind_comma(token_views(tokens@), at as int)),
{
    proof {
        lemma_tokens_view(tokens@, tokens@.len());
    }
    let behind: usize = if punct_stands_at(tokens, at, ',') {
        at + 1
    } else {
        at
    };
    if behind >= tokens.len() {
        Ok(())
    } else {
        Err(fail_at(tokens, behind, None))
    }
}

/// The call that starts at `at`; see [`call_at`].
fn parse_call_at(
    tokens: &Vec<Token>,
    at: usize,
    end: Option<Site>,
    name: &Ident,
    args: &Vec<Token>,
    args_site: Site,
) -> (r: Result<(Entry, usize), Error>)
    requires
        at + 2 < tokens.len(),
    ensures
        match call_at(token_views(tokens@), at as int, end, name@, token_views(args@), args_site) {
            Ok((entry, next)) => r matches Ok(p) && p.0@ == entry && p.1 == next && at < next <= tokens.len(),
            Err(e) => r matches Err(x) && x@ == e,
        },
{
    proof {
        lemma_tokens_view(tokens@, tokens@.len());
        lemma_tokens_view(args@, args@.len());
    }
    if query_named(name.name.as_str()).is_none() {
        return Err(Error::UnknownCall { site: name.site });
    }
    let lifetime: Label = if args.len() > 0 {
        match &args[0] {
            Token::Lifetime(label) => label.duplicate(),
            _ => {
                return Err(fail_at(args, 0, Some(args_site)));
            },
        }
    } else {
        return Err(fail_at(args, 0, Some(args_site)));
    };
    match parse_end_behind_comma(args, 1) {
        Ok(()) => {},
        Err(e) => {
            return Err(e);
        },
    }
    let primitive: Ident = match parse_ident_at(tokens, at + 3, end) {
        Ok(primitive) => primitive,
        Err(e) => {
            return Err(e);
        },
    };
    match PrimitiveSpec::parse(primitive.duplicate()) {
        Ok(_) => {},
        Err(e) => {
            return Err(e);
        },
    }
    let entry = Entry::Call(
        CallEntry::CallExpr(
            CallExprEntry { call_expr: CallExpr { name: name.duplicate(), lifetime }, primitive },
        ),
    );
    Ok((entry, at + 4))
}

/// The directive that starts at `at`; see [`directive_at`].
fn parse_directive_at(at: usize, name: &Ident, args: &Vec<Token>, args_site: Site) -> (r: Result<
    (Entry, usize),
    Error,
>)
    requires
        at + 2 <= usize::MAX,
    ensures
        match directive_at(at as int, name@, token_views(args@), args_site) {
            Ok((entry, next)) => r matches Ok(p) && p.0@ == entry && p.1 == next,
            Err(e) => r matches Err(x) && x@ == e,
        },
{
    if !str_eq(name.name.as_str(), "align") {
        return Err(Error::UnknownDirective { site: name.site });
    }
    let (lit, next) = match parse_int_at(args, 0) {
        Some(found) => found,
        None => {
            return Err(fail_at(args, 0, Some(args_site)));
        },
    };
    match parse_end_behind_comma(args, next) {
        Ok(()) => {},
        Err(e) => {
            return Err(e);
        },
    }
    let entry = Entry::Call(CallEntry::Directive(DirectiveEntry { name: name.duplicate(), args: lit }));
    Ok((entry, at + 2))
}

/// What a repeat repeats; see [`contents_in`].
fn parse_contents_in(tokens: &Vec<Token>, site: Site) -> (r: Result<(Contents, usize), Error>)
    ensures
        match contents_in(token_views(tokens@), site) {
            Ok((contents, next)) => r matches Ok(p) && p.0@ == contents && p.1 == next && next
                <= tokens.len(),
            Err(e) => r matches Err(x) && x@ == e,
        },
    decreases *tokens, tokens.len(), 0nat,
{
    proof {
        lemma_tokens_view(tokens@, tokens@.len());
    }
    if tokens.len() > 0 {
        match &tokens[0] {
            Token::Group { delimiter: Delimiter::Brace, tokens: inner, site: inner_site } => {
                return match parse_entries_from(inner, Some(*inner_site)) {
                    Ok(entries) => Ok((Contents::Braced(BlockEntry { entries }), 1)),
                    Err(e) => Err(e),
                };
            },
            _ => {},
        }
    }
    match parse_literal_at(tokens, 0) {
        Some((literal, next)) => Ok((Contents::SingleLiteral(literal), next)),
        None => Err(fail_at(tokens, 0, Some(site))),
    }
}

/// The repeat between square brackets; see [`repeat_in`].
fn parse_repeat_in(tokens: &Vec<Token>, site: Site) -> (r: Result<RepeatEntry, Error>)
    ensures
        match repeat_in(token_views(tokens@), site) {
            Ok(repeat) => r matches Ok(x) && x@ == repeat,
            Err(e) => r matches Err(x) && x@ == e,
        },
    decreases *tokens, tokens.len() + 1, 0nat,
{
    proof {
        lemma_tokens_view(tokens@, tokens@.len());
    }
    let (contents, next) = match parse_contents_in(tokens, site) {
        Ok(found) => found,
        Err(e) => {
            return Err(e);
        },
    };
    if !punct_stands_at(tokens, next, ';') {
        return Err(fail_at(tokens, next, Some(site)));
    }
    let at: usize = next + 1;
    let (count, behind) = match parse_int_at(tokens, at) {
        Some(found) => found,
        None => {
            return Err(fail_at(tokens, at, Some(site)));
        },
    };
    if behind < tokens.len() {
        return Err(fail_at(tokens, behind, None));
    }
    Ok(RepeatEntry { contents, count })
}

/// The entry that starts at `at`; see [`entry_at`].
fn parse_entry_at(tokens: &Vec<Token>, at: usize, end: Option<Site>) -> (r: Result<(Entry, usize), Error>)
    ensures
        match entry_at(token_views(tokens@), at as int, end) {
            Ok((entry, next)) => r matches Ok(p) && p.0@ == entry && p.1 == next && at < next <= tokens.len(),
            Err(e) => r matches Err(x) && x@ == e,
        },
    decreases *tokens, tokens.len() - at, 0nat,
{
    proof {
        lemma_tokens_view(tokens@, tokens@.len());
    }
    if at >= tokens.len() {
        return Err(fail_at(tokens, at, end));
    }
    match parse_literal_at(tokens, at) {
        Some((literal, next)) => {
            return Ok((Entry::Literal(literal), next));
        },
        None => {},
    }
    match &tokens[at] {
        Token::Group { delimiter: Delimiter::Brace, tokens: inner, site } => {
            match parse_entries_from(inner, Some(*site)) {
                Ok(entries) => Ok((Entry::Block(BlockEntry { entries }), at + 1)),
                Err(e) => Err(e),
            }
        },
        Token::Group { delimiter: Delimiter::Bracket, tokens: inner, site } => {
            match parse_repeat_in(inner, *site) {
                Ok(repeat) => Ok((Entry::Repeat(repeat), at + 1)),
                Err(e) => Err(e),
            }
        },
        Token::Lifetime(label) => {
            if punct_stands_at(tokens, at + 1, ':') {
                match parse_entry_at(tokens, at + 2, end) {
                    Ok((sub_entry, next)) => Ok(
                        (
                            Entry::Labeled(
                                LabeledEntry { label: label.duplicate(), sub_entry: Box::new(sub_entry) },
                            ),
                            next,
                        ),
                    ),
                    Err(e) => Err(e),
                }
            } else {
                Err(Error::UnexpectedToken { site: label.site })
            }
        },
        Token::Ident(name) => {
            if at + 1 < tokens.len() {
                match &tokens[at + 1] {
                    Token::Group { delimiter: Delimiter::Parenthesis, tokens: args, site: args_site } => {
                        return if punct_stands_at(tokens, at + 2, ':') {
                            parse_call_at(tokens, at, end, name, args, *args_site)
                        } else {
                            parse_directive_at(at, name, args, *args_site)
                        };
                    },
                    _ => {},
                }
            }
            Err(Error::UnexpectedToken { site: name.site })
        },
        Token::Punct { ch, site } => {
            if *ch == '@' && at + 1 < tokens.len() && punct_stands_at(tokens, at + 2, '=') {
                match &tokens[at + 1] {
                    Token::Ident(mode) => {
                        return match parse_ident_at(tokens, at + 3, end) {
                            Ok(new_mode) => Ok(
                                (Entry::ModeChange(ModeChange { mode: mode.duplicate(), new_mode }), at + 4),
                            ),
                            Err(e) => Err(e),
                        };
                    },
                    _ => {},
                }
            }
            Err(Error::UnexpectedToken { site: *site })
        },
        other => Err(Error::UnexpectedToken { site: other.site() }),
    }
}

/// The entries that the tokens stand for; see [`entries_from`].
#[verifier::loop_isolation(false)]
fn parse_entries_from(tokens: &Vec<Token>, end: Option<Site>) -> (r: Result<SequenceEntry, Error>)
    ensures
        match entries_from(token_views(tokens@), 0, end) {
            Ok(entries) => r matches Ok(x) && x@ == entries,
            Err(e) => r matches Err(x) && x@ == e,
        },
    decreases *tokens, tokens.len() + 2, 0nat,
{
    proof {
        lemma_tokens_view(tokens@, tokens@.len());
    }
    let ghost views = token_views(tokens@);
    let mut entries: Vec<Entry> = Vec::new();
    let mut at: usize = 0;
    while at < tokens.len()
        invariant
            at <= tokens.len(),
            views == token_views(tokens@),
            entries_from(views, 0, end) == behind(
                entries_view(entries@, entries@.len()),
                entries_from(views, at as int, end),
            ),
        decreases tokens.len() - at,
    {
        let ghost before = entries_view(entries@, entries@.len());
        let (entry, next) = match parse_entry_at(tokens, at, end) {
            Ok(found) => found,
            Err(e) => {
                return Err(e);
            },
        };
        proof {
            lemma_entries_view_push(entries@, entry);
        }
        entries.push(entry);
        if next >= tokens.len() {
            assert(before + seq![entry@] =~= before.push(entry@));
            assert(before.push(entry@) + Seq::<EntryView>::empty() =~= before.push(entry@));
            at = tokens.len();
        } else if tokens[next].is_punct(',') {
            proof {
                match entries_from(views, next + 1, end) {
                    Ok(rest) => {
                        assert(before + (seq![entry@] + rest) =~= before.push(entry@) + rest);
                    },
                    Err(_) => {},
                }
            }
            at = next + 1;
        } else {
            return Err(Error::UnexpectedToken { site: tokens[next].site() });
        }
    }
    assert(entries_view(entries@, entries@.len()) + Seq::<EntryView>::empty() =~= entries_view(
        entries@,
        entries@.len(),
    ));
    Ok(SequenceEntry { entries })
}

/// Reads a whole description: the entries that `input` stands for.
pub fn parse_entries(input: &Vec<Token>) -> (r: Result<SequenceEntry, Error>)
    ensures
        outcome(r) == parsed(token_views(input@)),
{
    parse_entries_from(input, None)
}

} // verus!
