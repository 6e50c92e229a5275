use datalit::entry::block::BlockEntry;
use datalit::entry::call::CallEntry;
use datalit::entry::call::CallExpr;
use datalit::entry::call::CallExprEntry;
use datalit::entry::call::DirectiveEntry;
use datalit::entry::labeled::LabeledEntry;
use datalit::entry::literal::ByteLiteral;
use datalit::entry::literal::ByteStringLiteral;
use datalit::entry::literal::CStringLiteral;
use datalit::entry::literal::IntLiteral;
use datalit::entry::literal::LiteralEntry;
use datalit::entry::mode_change::ModeChange;
use datalit::entry::repeat::Contents;
use datalit::entry::repeat::RepeatEntry;
use datalit::entry::sequence::SequenceEntry;
use datalit::entry::Entry;
use datalit::error::Error;
use datalit::generate_data;
use datalit::generate_data_for;
use datalit::parse::entries::parse_entries;
use datalit::to_bytes::ByteOrder;
use datalit::token::Delimiter;
use datalit::token::Ident;
use datalit::token::Label;
use datalit::token::LitInt;
use datalit::token::Site;
use datalit::token::Token;
use proc_macro2::TokenStream;
use proc_macro2::TokenTree;

fn numbered(stream: TokenStream, count: &mut usize) -> Vec<Token> {
    let mut out = Vec::new();
    let mut trees = stream.into_iter().peekable();
    while let Some(tree) = trees.next() {
        let site = Site { index: *count };
        *count += 1;
        match tree {
            TokenTree::Group(group) => {
                let tokens = numbered(group.stream(), count);
                let delimiter = match group.delimiter() {
                    proc_macro2::Delimiter::Parenthesis => Delimiter::Parenthesis,
                    proc_macro2::Delimiter::Brace => Delimiter::Brace,
                    proc_macro2::Delimiter::Bracket => Delimiter::Bracket,
                    proc_macro2::Delimiter::None => {
                        out.extend(tokens);
                        continue;
                    }
                };
                out.push(Token::Group { delimiter, tokens, site });
            }
            TokenTree::Ident(ident) => out.push(Token::Ident(Ident::new(&ident.to_string(), site))),
            TokenTree::Punct(punct) => {
                if punct.as_char() == '\'' {
                    if let Some(TokenTree::Ident(name)) = trees.peek() {
                        out.push(Token::Lifetime(Label::new(&name.to_string(), site)));
                        trees.next();
                        continue;
                    }
                }
                out.push(Token::Punct { ch: punct.as_char(), site });
            }
            TokenTree::Literal(literal) => out.push(match syn::Lit::new(literal) {
                syn::Lit::Int(lit) => Token::Int(LitInt::from_parts(
                    &lit.to_string(),
                    lit.base10_digits(),
                    lit.suffix(),
                    site,
                )),
                syn::Lit::Byte(lit) => Token::Byte { value: lit.value(), site },
                syn::Lit::ByteStr(lit) => Token::ByteStr { value: lit.value(), site },
                syn::Lit::CStr(lit) => Token::CStr { value: lit.value().into_bytes(), site },
                _ => Token::Literal { site },
            }),
        }
    }
    out
}

fn read(text: &str) -> Vec<Token> {
    let stream: TokenStream = text.parse().expect("tokens");
    let mut count = 0;
    numbered(stream, &mut count)
}

fn parse(text: &str) -> Result<Vec<Entry>, Error> {
    parse_entries(&read(text)).map(|sequence| sequence.entries)
}

fn bytes(text: &str) -> Result<Vec<u8>, Error> {
    generate_data_for(&read(text), ByteOrder::Little)
}

fn site_no(index: usize) -> Site {
    Site { index }
}

fn int_token(text: &str, index: usize) -> LitInt {
    LitInt::parse(text, site_no(index)).expect("an integer literal")
}

fn int_lit(text: &str, index: usize) -> LiteralEntry {
    LiteralEntry::Int(IntLiteral { value: int_token(text, index) })
}

fn unexpected(index: usize) -> Result<Vec<Entry>, Error> {
    Err(Error::UnexpectedToken { site: site_no(index) })
}

#[test]
fn nothing_is_no_entries() {
    assert_eq!(parse(""), Ok(vec![]));
    assert_eq!(parse("  // only a remark\n"), Ok(vec![]));
    assert_eq!(bytes(""), Ok(vec![]));
}

#[test]
fn entries_stand_between_commas() {
    assert_eq!(parse("1u8"), Ok(vec![Entry::Literal(int_lit("1u8", 0))]));
    assert_eq!(parse("1u8,"), Ok(vec![Entry::Literal(int_lit("1u8", 0))]));
    assert_eq!(
        parse("1u8, 2u8"),
        Ok(vec![Entry::Literal(int_lit("1u8", 0)), Entry::Literal(int_lit("2u8", 2))])
    );
    assert_eq!(
        parse("1u8, 2u8,"),
        Ok(vec![Entry::Literal(int_lit("1u8", 0)), Entry::Literal(int_lit("2u8", 2))])
    );
}

#[test]
fn commas_stand_between_entries_only() {
    assert_eq!(parse(","), unexpected(0));
    assert_eq!(parse("1u8,,"), unexpected(2));
    assert_eq!(parse("1u8 2u8"), unexpected(1));
    assert_eq!(parse("1u8; 2u8"), unexpected(1));
    assert_eq!(parse("{1u8,,}"), unexpected(3));
    assert_eq!(parse("{1u8 2u8}"), unexpected(2));
}

#[test]
fn literals_of_the_four_kinds() {
    assert_eq!(
        parse("7u8, b'a', b\"bc\", c\"de\""),
        Ok(vec![
            Entry::Literal(int_lit("7u8", 0)),
            Entry::Literal(LiteralEntry::Byte(ByteLiteral { value: b'a' })),
            Entry::Literal(LiteralEntry::ByteString(ByteStringLiteral { value: b"bc".to_vec() })),
            Entry::Literal(LiteralEntry::CString(CStringLiteral { value: b"de".to_vec() })),
        ])
    );
    assert_eq!(
        bytes("7u8, b'a', b\"bc\", c\"de\", b'\\n', b\"\\x00\\xff\""),
        Ok(vec![7, b'a', b'b', b'c', b'd', b'e', 0, b'\n', 0, 255])
    );
}

#[test]
fn other_literals_are_no_entries() {
    assert_eq!(parse("\"text\""), unexpected(0));
    assert_eq!(parse("'c'"), unexpected(0));
    assert_eq!(parse("1.5"), unexpected(0));
    assert_eq!(parse("1u8, true"), unexpected(2));
}

#[test]
fn minus_and_an_integer_are_one_literal() {
    let negative = LitInt::from_parts("-5i8", "-5", "i8", site_no(1));
    assert_eq!(
        parse("-5i8"),
        Ok(vec![Entry::Literal(LiteralEntry::Int(IntLiteral { value: negative }))])
    );
    assert_eq!(int_token("5i8", 1).negated(), LitInt::parse("-5i8", site_no(1)).expect("a literal"));
    assert_eq!(bytes("-5i8, -1i16_be, - 2i8"), Ok(vec![0xFB, 0xFF, 0xFF, 0xFE]));
    assert_eq!(bytes("-5u8"), Err(Error::InvalidDigits));
    assert_eq!(bytes("-0x10i8"), Ok(vec![0xF0]));
    assert_eq!(bytes("-0x10"), Err(Error::MissingSuffix { site: site_no(1) }));
}

#[test]
fn minus_alone_is_no_entry() {
    assert_eq!(parse("-"), unexpected(0));
    assert_eq!(parse("- b'a'"), unexpected(0));
    assert_eq!(parse("-1.5"), unexpected(0));
    assert_eq!(parse("--1i8"), unexpected(0));
    assert_eq!(parse("+1i8"), unexpected(0));
}

#[test]
fn braces_hold_a_block() {
    assert_eq!(
        parse("{}"),
        Ok(vec![Entry::Block(BlockEntry { entries: SequenceEntry { entries: vec![] } })])
    );
    assert_eq!(
        parse("{ 1u8, { 2u8, }, }"),
        Ok(vec![Entry::Block(BlockEntry {
            entries: SequenceEntry {
                entries: vec![
                    Entry::Literal(int_lit("1u8", 1)),
                    Entry::Block(BlockEntry {
                        entries: SequenceEntry { entries: vec![Entry::Literal(int_lit("2u8", 4))] },
                    }),
                ],
            },
        })])
    );
    assert_eq!(bytes("{ 1u8, { 2u8, }, }, 3u8"), Ok(vec![1, 2, 3]));
}

#[test]
fn round_brackets_alone_are_no_entry() {
    assert_eq!(parse("(1u8)"), unexpected(0));
    assert_eq!(parse("{(1u8)}"), unexpected(1));
}

#[test]
fn label_and_colon_name_an_entry() {
    assert_eq!(
        parse("'a: 'b: 1u8"),
        Ok(vec![Entry::Labeled(LabeledEntry {
            label: Label::new("a", site_no(0)),
            sub_entry: Box::new(Entry::Labeled(LabeledEntry {
                label: Label::new("b", site_no(2)),
                sub_entry: Box::new(Entry::Literal(int_lit("1u8", 4))),
            })),
        })])
    );
    assert_eq!(bytes("'a: 'b: 1u8, len('a): u8, start('b): u8"), Ok(vec![1, 1, 0]));
}

#[test]
fn label_wants_a_colon_and_an_entry() {
    assert_eq!(parse("'a"), unexpected(0));
    assert_eq!(parse("'a 1u8"), unexpected(0));
    assert_eq!(parse("'a, 1u8"), unexpected(0));
    assert_eq!(parse("'a:"), Err(Error::UnexpectedEnd { site: None }));
    assert_eq!(parse("{'a:}"), Err(Error::UnexpectedEnd { site: Some(site_no(0)) }));
    assert_eq!(parse("'a: ,"), unexpected(2));
    assert_eq!(parse("'a:: 1u8"), unexpected(2));
}

#[test]
fn name_brackets_colon_and_type_are_a_call() {
    for name in ["start", "end", "len"].iter() {
        let text = format!("{}('x): u16_le", name);
        assert_eq!(
            parse(&text),
            Ok(vec![Entry::Call(CallEntry::CallExpr(CallExprEntry {
                call_expr: CallExpr {
                    name: Ident::new(name, site_no(0)),
                    lifetime: Label::new("x", site_no(2)),
                },
                primitive: Ident::new("u16_le", site_no(4)),
            }))])
        );
    }
    assert_eq!(
        parse("start('x,): u8,").map(|entries| entries.len()),
        Ok(1)
    );
}

#[test]
fn call_name_is_tested_before_its_brackets() {
    assert_eq!(parse("middle(1, 2): u8"), Err(Error::UnknownCall { site: site_no(0) }));
    assert_eq!(parse("middle('x): u8"), Err(Error::UnknownCall { site: site_no(0) }));
    assert_eq!(parse("Start('x): u8"), Err(Error::UnknownCall { site: site_no(0) }));
    assert_eq!(bytes("'x: 1u8, middle('x): u8"), Err(Error::UnknownCall { site: site_no(4) }));
}

#[test]
fn call_wants_one_label_in_its_brackets() {
    assert_eq!(parse("start(): u8"), Err(Error::UnexpectedEnd { site: Some(site_no(1)) }));
    assert_eq!(parse("start(x): u8"), unexpected(2));
    assert_eq!(parse("start(1): u8"), unexpected(2));
    assert_eq!(parse("start('x 'y): u8"), unexpected(3));
    assert_eq!(parse("start('x, 'y): u8"), unexpected(4));
    assert_eq!(parse("start('x,,): u8"), unexpected(4));
}

#[test]
fn call_wants_a_type_behind_the_colon() {
    assert_eq!(parse("start('x):"), Err(Error::UnexpectedEnd { site: None }));
    assert_eq!(parse("{start('x):}"), Err(Error::UnexpectedEnd { site: Some(site_no(0)) }));
    assert_eq!(parse("start('x): 8"), unexpected(4));
    assert_eq!(parse("start('x): , 1u8"), unexpected(4));
    assert_eq!(parse("start('x): u9"), Err(Error::InvalidSuffix { site: site_no(4) }));
    assert_eq!(parse("start('x): le"), Err(Error::InvalidSuffix { site: site_no(4) }));
}

#[test]
fn name_and_brackets_are_a_directive() {
    assert_eq!(
        parse("align(16)"),
        Ok(vec![Entry::Call(CallEntry::Directive(DirectiveEntry {
            name: Ident::new("align", site_no(0)),
            args: int_token("16", 2),
        }))])
    );
    assert_eq!(parse("align(16,)").map(|entries| entries.len()), Ok(1));
    assert_eq!(bytes("1u8, align(2,), 2u8"), Ok(vec![1, 0, 2]));
}

#[test]
fn directive_name_is_tested_before_its_brackets() {
    assert_eq!(parse("pad(4)"), Err(Error::UnknownDirective { site: site_no(0) }));
    assert_eq!(parse("pad()"), Err(Error::UnknownDirective { site: site_no(0) }));
    assert_eq!(parse("start('x)"), Err(Error::UnknownDirective { site: site_no(0) }));
    assert_eq!(parse("start('x) u8"), Err(Error::UnknownDirective { site: site_no(0) }));
}

#[test]
fn align_wants_one_number_in_its_brackets() {
    assert_eq!(parse("align()"), Err(Error::UnexpectedEnd { site: Some(site_no(1)) }));
    assert_eq!(parse("align('x)"), unexpected(2));
    assert_eq!(parse("align(4 4)"), unexpected(3));
    assert_eq!(parse("align(4, 4)"), unexpected(4));
    assert_eq!(parse("align(-)"), unexpected(2));
    assert_eq!(bytes("align(-4)"), Err(Error::InvalidAlignment { site: site_no(3) }));
}

#[test]
fn name_alone_is_no_entry() {
    assert_eq!(parse("align"), unexpected(0));
    assert_eq!(parse("align 4"), unexpected(0));
    assert_eq!(parse("align{4}"), unexpected(0));
    assert_eq!(parse("align[4]"), unexpected(0));
}

#[test]
fn at_name_equals_name_is_a_mode_change() {
    assert_eq!(
        parse("@endian_mode = be"),
        Ok(vec![Entry::ModeChange(ModeChange {
            mode: Ident::new("endian_mode", site_no(1)),
            new_mode: Ident::new("be", site_no(3)),
        })])
    );
    assert_eq!(bytes("@endian_mode = be, 1u16, @endian_mode = le, 1u16"), Ok(vec![0, 1, 1, 0]));
    assert_eq!(bytes("@speed = fast"), Err(Error::UnknownMode { site: site_no(1) }));
    assert_eq!(bytes("@endian = le"), Err(Error::UnknownMode { site: site_no(1) }));
    assert_eq!(bytes("@foo = le, 1u16"), Err(Error::UnknownMode { site: site_no(1) }));
    assert_eq!(bytes("@endian_mode = fast"), Err(Error::InvalidEndianMode { site: site_no(3) }));
}

#[test]
fn mode_change_wants_all_four_tokens() {
    assert_eq!(parse("@"), unexpected(0));
    assert_eq!(parse("@endian_mode"), unexpected(0));
    assert_eq!(parse("@endian_mode be"), unexpected(0));
    assert_eq!(parse("@ = be"), unexpected(0));
    assert_eq!(parse("@endian_mode ="), Err(Error::UnexpectedEnd { site: None }));
    assert_eq!(parse("@endian_mode = 1"), unexpected(3));
    assert_eq!(parse("@endian_mode = ,"), unexpected(3));
    assert_eq!(parse("{@endian_mode =}"), Err(Error::UnexpectedEnd { site: Some(site_no(0)) }));
}

#[test]
fn square_brackets_hold_a_repeat() {
    assert_eq!(
        parse("[1u8; 3]"),
        Ok(vec![Entry::Repeat(RepeatEntry {
            contents: Contents::SingleLiteral(int_lit("1u8", 1)),
            count: int_token("3", 3),
        })])
    );
    assert_eq!(
        parse("[{1u8, 2u8}; 2]"),
        Ok(vec![Entry::Repeat(RepeatEntry {
            contents: Contents::Braced(BlockEntry {
                entries: SequenceEntry {
                    entries: vec![Entry::Literal(int_lit("1u8", 2)), Entry::Literal(int_lit("2u8", 4))],
                },
            }),
            count: int_token("2", 6),
        })])
    );
    assert_eq!(bytes("[b\"ab\"; 2], [-1i8; 2], [[{7u8}; 2]; 0]"), Err(Error::UnexpectedToken { site: site_no(12) }));
    assert_eq!(bytes("[b\"ab\"; 2], [-1i8; 2], [{[7u8; 2]}; 2]"), Ok(vec![b'a', b'b', b'a', b'b', 255, 255, 7, 7, 7, 7]));
}

#[test]
fn repeat_wants_contents_semicolon_and_count() {
    assert_eq!(parse("[]"), Err(Error::UnexpectedEnd { site: Some(site_no(0)) }));
    assert_eq!(parse("[;3]"), unexpected(1));
    assert_eq!(parse("['a: 1u8; 3]"), unexpected(1));
    assert_eq!(parse("[1u8]"), Err(Error::UnexpectedEnd { site: Some(site_no(0)) }));
    assert_eq!(parse("[1u8, 3]"), unexpected(2));
    assert_eq!(parse("[1u8;]"), Err(Error::UnexpectedEnd { site: Some(site_no(0)) }));
    assert_eq!(parse("[1u8; x]"), unexpected(3));
    assert_eq!(parse("[1u8; 3,]"), unexpected(4));
    assert_eq!(parse("[1u8; 3; 4]"), unexpected(4));
    assert_eq!(parse("[{1u8; 2}; 3]"), unexpected(3));
}

#[test]
fn repeat_count_is_tested_when_the_repeat_is_applied() {
    assert_eq!(parse("[1u8; 3u8]").map(|entries| entries.len()), Ok(1));
    assert_eq!(parse("[1u8; -3]").map(|entries| entries.len()), Ok(1));
    assert_eq!(bytes("[1u8; 3u8]"), Err(Error::InvalidRepeatCount { site: site_no(3) }));
    assert_eq!(bytes("[1u8; -3]"), Err(Error::InvalidRepeatCount { site: site_no(4) }));
}

#[test]
fn first_failure_is_what_comes_out() {
    assert_eq!(bytes("300u8, ?"), Err(Error::UnexpectedToken { site: site_no(2) }));
    assert_eq!(bytes("300u8, 'a: 1u8, 'a: 2u8"), Err(Error::OutOfRange));
    assert_eq!(
        bytes("'a: 1u8, 'a: 2u8, 300u8"),
        Err(Error::DuplicateLabel { label: "a".to_string(), site: site_no(4), original: site_no(0) })
    );
    assert_eq!(
        bytes("start('b): u8, 'a: 1u8, start('c): u8, end('a): u8"),
        Err(Error::UndefinedLabels {
            uses: vec![Label::new("b", site_no(2)), Label::new("c", site_no(12))],
        })
    );
}

#[test]
fn generate_data_is_for_the_machine_it_runs_on() {
    let native = if 1u16.to_ne_bytes()[0] == 1 {
        ByteOrder::Little
    } else {
        ByteOrder::Big
    };
    let text = "0x0102u16, 3u8_be, 'x: 4u32_ne, end('x): i24";
    assert_eq!(generate_data(&read(text)), generate_data_for(&read(text), native));
    assert_eq!(
        generate_data_for(&read(text), ByteOrder::Little),
        Ok(vec![2, 1, 3, 4, 0, 0, 0, 7, 0, 0])
    );
    assert_eq!(
        generate_data_for(&read(text), ByteOrder::Big),
        Ok(vec![1, 2, 3, 0, 0, 0, 4, 0, 0, 7])
    );
}

#[test]
fn scenario_align_after_two_bytes() {
    assert_eq!(bytes("1u8, 2u8, align(4), 3u8"), Ok(vec![1, 2, 0, 0, 3]));
}

#[test]
fn scenario_length_of_a_block() {
    assert_eq!(bytes("'blk: { 1u8, 12u16_le }, len('blk): u8"), Ok(vec![1, 12, 0, 3]));
}

#[test]
fn scenario_repeats() {
    assert_eq!(bytes("[1u8; 3]"), Ok(vec![1, 1, 1]));
    assert_eq!(bytes("[{1u8, 2u8}; 2]"), Ok(vec![1, 2, 1, 2]));
}

#[test]
fn scenario_mode_changes() {
    let text = "@endian_mode = le, 1u16, @endian_mode = be, 1u16";
    assert_eq!(generate_data_for(&read(text), ByteOrder::Little), Ok(vec![1, 0, 0, 1]));
    assert_eq!(generate_data_for(&read(text), ByteOrder::Big), Ok(vec![1, 0, 0, 1]));
    assert_eq!(generate_data(&read(text)), Ok(vec![1, 0, 0, 1]));
}

#[test]
fn tokens_say_where_they_stand() {
    let tokens = read("a 'b , 1u8 b'c' b\"d\" c\"e\" \"f\" (x)");
    let sites: Vec<usize> = tokens.iter().map(|token| token.site().index).collect();
    assert_eq!(sites, vec![0, 1, 2, 3, 4, 5, 6, 7, 8]);
    assert!(tokens[2].is_punct(','));
    assert!(!tokens[2].is_punct(';'));
    assert!(!tokens[0].is_punct(','));
    match &tokens[8] {
        Token::Group { delimiter, tokens, site } => {
            assert_eq!(*delimiter, Delimiter::Parenthesis);
            assert_eq!(*site, site_no(8));
            assert_eq!(tokens.len(), 1);
            assert_eq!(tokens[0].site(), site_no(9));
        }
        other => panic!("expected a group, got {:?}", other),
    }
}
