use minilex::lex::{Lexer, Token};
use minilex::registry::OperatorRegistry;
use minilex::symbol::Table;
use minilex::val::Number;

fn float_of(t: Option<Token>) -> f64 {
    match t {
        Some(Token::Number(Number::F64(text))) => text.parse::<f64>().unwrap(),
        other => panic!("expected a floating-point number token, got {:?}", other),
    }
}

#[test]
fn it_lexes_identifiers() {
    let mut tab = Table::new();
    let ops = OperatorRegistry::new();
    let next = tab.intern("test");
    assert_eq!(Lexer::new("test").next(&mut tab, &ops), Some(Token::Identifier(next.clone())));
    assert_eq!(Lexer::new("test ").next(&mut tab, &ops), Some(Token::Identifier(next)));
}

#[test]
fn it_lexes_whitespace() {
    let mut tab = Table::new();
    let ops = OperatorRegistry::new();
    let next = tab.intern("    ");
    assert_eq!(Lexer::new("    ").next(&mut tab, &ops), Some(Token::Whitespace(next.clone())));
    assert_eq!(Lexer::new("    test").next(&mut tab, &ops), Some(Token::Whitespace(next)));
}

#[test]
fn it_lexes_decimals() {
    let mut tab = Table::new();
    let ops = OperatorRegistry::new();
    assert_eq!(Lexer::new("0").next(&mut tab, &ops), Some(Token::Number(Number::I64(0))));
    assert_eq!(Lexer::new("0 ").next(&mut tab, &ops), Some(Token::Number(Number::I64(0))));
    assert_eq!(Lexer::new("99").next(&mut tab, &ops), Some(Token::Number(Number::I64(99))));
    assert_eq!(Lexer::new("1_000").next(&mut tab, &ops), Some(Token::Number(Number::I64(1000))));
}

#[test]
fn it_lexes_floats() {
    let mut tab = Table::new();
    let ops = OperatorRegistry::new();
    assert_eq!(float_of(Lexer::new("1.0").next(&mut tab, &ops)), 1.0);
    assert_eq!(float_of(Lexer::new("1e0").next(&mut tab, &ops)), 1.0);
    assert_eq!(float_of(Lexer::new("1.e0").next(&mut tab, &ops)), 1.0);
    assert_eq!(float_of(Lexer::new("1_e0").next(&mut tab, &ops)), 1.0);
    // Not a literal that Rust itself would accept, but the grammar does.
    assert_eq!(float_of(Lexer::new("0_e0").next(&mut tab, &ops)), 0.0);
}

#[test]
fn it_lexes_hexadecimals() {
    let mut tab = Table::new();
    let ops = OperatorRegistry::new();
    assert_eq!(Lexer::new("0x1").next(&mut tab, &ops), Some(Token::Number(Number::U64(1))));
    assert_eq!(Lexer::new("0x1 ").next(&mut tab, &ops), Some(Token::Number(Number::U64(1))));
}

#[test]
fn it_lexes_octals() {
    let mut tab = Table::new();
    let ops = OperatorRegistry::new();
    assert_eq!(Lexer::new("0o1").next(&mut tab, &ops), Some(Token::Number(Number::U64(1))));
    assert_eq!(Lexer::new("0o1 ").next(&mut tab, &ops), Some(Token::Number(Number::U64(1))));
}

#[test]
fn it_lexes_strings() {
    let mut tab = Table::new();
    let ops = OperatorRegistry::new();
    assert_eq!(
        Lexer::new("\"test\"").next(&mut tab, &ops),
        Some(Token::String("test".to_owned()))
    );
    {
        let mut lexer = Lexer::new("\"");
        assert_eq!(lexer.next(&mut tab, &ops), Some(Token::BrokenString("".to_owned())));
    }
    {
        let mut lexer = Lexer::new("\"a");
        assert_eq!(lexer.next(&mut tab, &ops), Some(Token::BrokenString("a".to_owned())));
    }
    {
        let mut lexer = Lexer::new("\"\n\"");
        assert_eq!(lexer.next(&mut tab, &ops), Some(Token::String("\n".to_owned())));
    }
    {
        let mut lexer = Lexer::new("\"\t\"");
        assert_eq!(lexer.next(&mut tab, &ops), Some(Token::String("\t".to_owned())));
    }
    {
        let mut lexer = Lexer::new("\"\\u{0}\"");
        assert_eq!(lexer.next(&mut tab, &ops), Some(Token::String("\u{0}".to_owned())));
    }
    {
        let mut lexer = Lexer::new("\"\\x00\"");
        assert_eq!(lexer.next(&mut tab, &ops), Some(Token::String("\x00".to_owned())));
    }
    {
        let mut lexer = Lexer::new("\"\\u{1234}\"");
        assert_eq!(lexer.next(&mut tab, &ops), Some(Token::String("\u{1234}".to_owned())));
    }
    {
        let mut lexer = Lexer::new("\"\\u{000000}\"");
        assert_eq!(lexer.next(&mut tab, &ops), Some(Token::String("\x00".to_owned())));
    }
    {
        let mut lexer = Lexer::new("\"\\u{0000000}\"");
        assert_eq!(
            lexer.next(&mut tab, &ops),
            Some(Token::Error(
                "overlong unicode escape (can have at most 6 hex digits)".to_owned()
            ))
        );
    }
    {
        let mut lexer = Lexer::new("\"\\u{00000000}\"");
        assert_eq!(
            lexer.next(&mut tab, &ops),
            Some(Token::Error(
                "overlong unicode escape (can have at most 6 hex digits)".to_owned()
            ))
        );
    }
}

#[test]
fn it_lexes_binary() {
    let mut tab = Table::new();
    let ops = OperatorRegistry::new();
    assert_eq!(Lexer::new("0b1").next(&mut tab, &ops), Some(Token::Number(Number::U64(1))));
    assert_eq!(Lexer::new("0b1 ").next(&mut tab, &ops), Some(Token::Number(Number::U64(1))));
}

#[test]
fn it_lexes_weird_combinations() {
    // The ones starting with 0 are not literals Rust would accept, but
    // the radix-prefix fallback makes them a zero followed by a word.
    let mut tab = Table::new();
    let ops = OperatorRegistry::new();
    let e = tab.intern("e");
    let tokene_ver = tab.intern("e_ver");
    let ever = tab.intern("ever");
    let x = tab.intern("x");
    let x_x = tab.intern("x_x");
    let o = tab.intern("o");
    let o_o = tab.intern("o_o");
    let b = tab.intern("b");
    let b_b = tab.intern("b_b");
    let big = tab.intern("big");
    {
        let mut lexer = Lexer::new("1e");
        assert_eq!(lexer.next(&mut tab, &ops), Some(Token::Number(Number::I64(1))));
        assert_eq!(lexer.next(&mut tab, &ops), Some(Token::Identifier(e)));
    }
    {
        let mut lexer = Lexer::new("1ever");
        assert_eq!(lexer.next(&mut tab, &ops), Some(Token::Number(Number::I64(1))));
        assert_eq!(lexer.next(&mut tab, &ops), Some(Token::Identifier(ever)));
    }
    {
        let mut lexer = Lexer::new("1e_ver");
        assert_eq!(lexer.next(&mut tab, &ops), Some(Token::Number(Number::I64(1))));
        assert_eq!(lexer.next(&mut tab, &ops), Some(Token::Identifier(tokene_ver)));
    }
    {
        let mut lexer = Lexer::new("0x");
        assert_eq!(lexer.next(&mut tab, &ops), Some(Token::Number(Number::I64(0))));
        assert_eq!(lexer.next(&mut tab, &ops), Some(Token::Identifier(x)));
    }
    {
        let mut lexer = Lexer::new("0x_x");
        assert_eq!(lexer.next(&mut tab, &ops), Some(Token::Number(Number::I64(0))));
        assert_eq!(lexer.next(&mut tab, &ops), Some(Token::Identifier(x_x)));
    }
    {
        let mut lexer = Lexer::new("0o");
        assert_eq!(lexer.next(&mut tab, &ops), Some(Token::Number(Number::I64(0))));
        assert_eq!(lexer.next(&mut tab, &ops), Some(Token::Identifier(o)));
    }
    {
        let mut lexer = Lexer::new("0o_o");
        assert_eq!(lexer.next(&mut tab, &ops), Some(Token::Number(Number::I64(0))));
        assert_eq!(lexer.next(&mut tab, &ops), Some(Token::Identifier(o_o)));
    }
    {
        let mut lexer = Lexer::new("0b");
        assert_eq!(lexer.next(&mut tab, &ops), Some(Token::Number(Number::I64(0))));
        assert_eq!(lexer.next(&mut tab, &ops), Some(Token::Identifier(b)));
    }
    {
        let mut lexer = Lexer::new("0b_b");
        assert_eq!(lexer.next(&mut tab, &ops), Some(Token::Number(Number::I64(0))));
        assert_eq!(lexer.next(&mut tab, &ops), Some(Token::Identifier(b_b)));
    }
    {
        let mut lexer = Lexer::new("0big");
        assert_eq!(lexer.next(&mut tab, &ops), Some(Token::Number(Number::I64(0))));
        assert_eq!(lexer.next(&mut tab, &ops), Some(Token::Identifier(big)));
    }
}

#[test]
fn it_lexes_comments() {
    let mut tab = Table::new();
    let ops = OperatorRegistry::new();
    assert_eq!(
        Lexer::new("/*test*/").next(&mut tab, &ops),
        Some(Token::Comment("test".to_owned()))
    );
    assert_eq!(Lexer::new("/*").next(&mut tab, &ops), Some(Token::BrokenComment("".to_owned())));
    assert_eq!(Lexer::new("/**/").next(&mut tab, &ops), Some(Token::Comment("".to_owned())));
}

#[test]
fn it_lexes_operators() {
    let mut tab = Table::new();
    let mut ops = OperatorRegistry::new();
    let plus = tab.intern("+");
    let plus_plus = tab.intern("++");
    let plus_minus = tab.intern("+-");
    let space = tab.intern(" ");
    let mut lexer = Lexer::new("+ ++ +- +++");
    ops.register("+");
    ops.register("++");
    ops.register("+-");
    assert_eq!(lexer.next(&mut tab, &ops), Some(Token::Operator(plus.clone())));
    assert_eq!(lexer.next(&mut tab, &ops), Some(Token::Whitespace(space.clone())));
    assert_eq!(lexer.next(&mut tab, &ops), Some(Token::Operator(plus_plus.clone())));
    assert_eq!(lexer.next(&mut tab, &ops), Some(Token::Whitespace(space.clone())));
    assert_eq!(lexer.next(&mut tab, &ops), Some(Token::Operator(plus_minus.clone())));
    assert_eq!(lexer.next(&mut tab, &ops), Some(Token::Whitespace(space.clone())));
    assert_eq!(lexer.next(&mut tab, &ops), Some(Token::Operator(plus_plus.clone())));
    assert_eq!(lexer.next(&mut tab, &ops), Some(Token::Operator(plus.clone())));
    assert_eq!(lexer.next(&mut tab, &ops), None);
}

#[test]
fn it_lexes_mixed_sequences() {
    let mut tab = Table::new();
    let mut ops = OperatorRegistry::new();
    let plus = tab.intern("+");
    let plus_plus = tab.intern("++");
    let minus = tab.intern("-");
    let space = tab.intern(" ");
    let a = tab.intern("a");
    let test = tab.intern("test");
    let mut lexer = Lexer::new("test a ++ + 1 - 1.0e3 +");
    ops.register("+");
    ops.register("-");
    ops.register("++");
    assert_eq!(lexer.next(&mut tab, &ops), Some(Token::Identifier(test.clone())));
    assert_eq!(lexer.next(&mut tab, &ops), Some(Token::Whitespace(space.clone())));
    assert_eq!(lexer.next(&mut tab, &ops), Some(Token::Identifier(a.clone())));
    assert_eq!(lexer.next(&mut tab, &ops), Some(Token::Whitespace(space.clone())));
    assert_eq!(lexer.next(&mut tab, &ops), Some(Token::Operator(plus_plus.clone())));
    assert_eq!(lexer.next(&mut tab, &ops), Some(Token::Whitespace(space.clone())));
    assert_eq!(lexer.next(&mut tab, &ops), Some(Token::Operator(plus.clone())));
    assert_eq!(lexer.next(&mut tab, &ops), Some(Token::Whitespace(space.clone())));
    assert_eq!(lexer.next(&mut tab, &ops), Some(Token::Number(Number::I64(1))));
    assert_eq!(lexer.next(&mut tab, &ops), Some(Token::Whitespace(space.clone())));
    assert_eq!(lexer.next(&mut tab, &ops), Some(Token::Operator(minus.clone())));
    assert_eq!(lexer.next(&mut tab, &ops), Some(Token::Whitespace(space.clone())));
    assert_eq!(float_of(lexer.next(&mut tab, &ops)), 1e3);
    assert_eq!(lexer.next(&mut tab, &ops), Some(Token::Whitespace(space.clone())));
    assert_eq!(lexer.next(&mut tab, &ops), Some(Token::Operator(plus.clone())));
    assert_eq!(lexer.next(&mut tab, &ops), None);
}

#[test]
fn empty_input_ends_immediately() {
    let mut tab = Table::new();
    let ops = OperatorRegistry::new();
    let mut lexer = Lexer::new("");
    assert_eq!(lexer.next(&mut tab, &ops), None);
    assert_eq!(lexer.next(&mut tab, &ops), None);
}

#[test]
fn spans_tile_the_source() {
    // The texts of consecutive tokens, read back from the interning
    // table, reassemble the source exactly.
    let mut tab = Table::new();
    let mut ops = OperatorRegistry::new();
    ops.register("+");
    let source = "alpha  beta+gamma";
    let mut lexer = Lexer::new(source);
    let mut rebuilt = String::new();
    while let Some(token) = lexer.next(&mut tab, &ops) {
        match token {
            Token::Identifier(s) | Token::Whitespace(s) | Token::Operator(s) => {
                rebuilt.push_str(&tab.entries[s.id]);
            }
            other => panic!("unexpected token: {:?}", other),
        }
    }
    assert_eq!(rebuilt, source);
}

#[test]
fn underscores_do_not_change_values() {
    let mut tab = Table::new();
    let ops = OperatorRegistry::new();
    assert_eq!(
        Lexer::new("1_2_3").next(&mut tab, &ops),
        Lexer::new("123").next(&mut tab, &ops)
    );
    assert_eq!(
        Lexer::new("0xf_f").next(&mut tab, &ops),
        Some(Token::Number(Number::U64(255)))
    );
    assert_eq!(
        Lexer::new("0b1_1").next(&mut tab, &ops),
        Some(Token::Number(Number::U64(3)))
    );
}

#[test]
fn exponent_marker_without_digit_is_left() {
    let mut tab = Table::new();
    let ops = OperatorRegistry::new();
    let e9 = tab.intern("e_9");
    let mut lexer = Lexer::new("7e_9");
    assert_eq!(lexer.next(&mut tab, &ops), Some(Token::Number(Number::I64(7))));
    assert_eq!(lexer.next(&mut tab, &ops), Some(Token::Identifier(e9)));
}

#[test]
fn string_escape_errors_are_reported() {
    let mut tab = Table::new();
    let ops = OperatorRegistry::new();
    assert_eq!(
        Lexer::new("\"\\xg1\"").next(&mut tab, &ops),
        Some(Token::Error("numeric character escape is too short".to_owned()))
    );
    assert_eq!(
        Lexer::new("\"\\x80\"").next(&mut tab, &ops),
        Some(Token::Error(
            "this form of character escape may only be used with characters in the range [\\x00-\\x7f]"
                .to_owned()
        ))
    );
    assert_eq!(
        Lexer::new("\"\\uz\"").next(&mut tab, &ops),
        Some(Token::Error("incorrect unicode escape sequence".to_owned()))
    );
    assert_eq!(
        Lexer::new("\"\\u{12g}\"").next(&mut tab, &ops),
        Some(Token::Error("invalid character in unicode escape: g".to_owned()))
    );
    assert_eq!(
        Lexer::new("\"\\u{d800}\"").next(&mut tab, &ops),
        Some(Token::Error("invalid unicode character escape".to_owned()))
    );
}

#[test]
fn unknown_escapes_are_dropped() {
    let mut tab = Table::new();
    let ops = OperatorRegistry::new();
    assert_eq!(
        Lexer::new("\"a\\qb\"").next(&mut tab, &ops),
        Some(Token::String("ab".to_owned()))
    );
}

#[test]
fn nested_comments_balance() {
    let mut tab = Table::new();
    let ops = OperatorRegistry::new();
    assert_eq!(
        Lexer::new("/*a/*b*/c*/").next(&mut tab, &ops),
        Some(Token::Comment("a/*b*/c".to_owned()))
    );
    assert_eq!(
        Lexer::new("/*a/*b*/").next(&mut tab, &ops),
        Some(Token::BrokenComment("a/*b*/".to_owned()))
    );
}

#[test]
fn unrecognized_characters_become_errors() {
    let mut tab = Table::new();
    let ops = OperatorRegistry::new();
    let hash = Lexer::new("#").next(&mut tab, &ops);
    assert_eq!(hash, Some(Token::Error("unrecognized character: #".to_owned())));
    let mut lexer = Lexer::new("#a");
    assert_eq!(
        lexer.next(&mut tab, &ops),
        Some(Token::Error("unrecognized character: #".to_owned()))
    );
    let a = tab.intern("a");
    assert_eq!(lexer.next(&mut tab, &ops), Some(Token::Identifier(a)));
}

#[test]
fn radix_literal_leaves_following_text() {
    let mut tab = Table::new();
    let ops = OperatorRegistry::new();
    let sp = tab.intern(" ");
    let mut lexer = Lexer::new("0x1 ");
    assert_eq!(lexer.next(&mut tab, &ops), Some(Token::Number(Number::U64(1))));
    assert_eq!(lexer.next(&mut tab, &ops), Some(Token::Whitespace(sp)));
    assert_eq!(lexer.next(&mut tab, &ops), None);
}

#[test]
fn radix_fallback_consumes_exactly_the_zero() {
    let mut tab = Table::new();
    let ops = OperatorRegistry::new();
    let x = tab.intern("x");
    let mut lexer = Lexer::new("0x");
    assert_eq!(lexer.next(&mut tab, &ops), Some(Token::Number(Number::I64(0))));
    assert_eq!(lexer.next(&mut tab, &ops), Some(Token::Identifier(x)));
    assert_eq!(lexer.next(&mut tab, &ops), None);
}

#[test]
fn broken_string_carries_decoded_text() {
    let mut tab = Table::new();
    let ops = OperatorRegistry::new();
    assert_eq!(
        Lexer::new("\"a\\n").next(&mut tab, &ops),
        Some(Token::BrokenString("a\n".to_owned()))
    );
}
