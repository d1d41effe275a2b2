use scanner::scanner::Scanner;
use scanner::scanner::Token;
use scanner::scanner::TokenAndPos;

/// Scans `src` to completion and returns every token produced, the final
/// `Eof` included.
fn collect(src: &str) -> Vec<TokenAndPos> {
    let mut sc = Scanner::from_string(src);
    let mut out: Vec<TokenAndPos> = Vec::new();
    loop {
        let t = sc.scan();
        let done = matches!(t.tok, Token::Eof);
        out.push(t);
        if done {
            break;
        }
    }
    out
}

fn ident_text(t: &Token) -> String {
    match t {
        Token::Ident(n) => n.text.clone(),
        _ => panic!("expected an identifier token"),
    }
}

#[test]
fn whitespace_only_input_yields_eof_immediately() {
    let mut sc = Scanner::from_string("  \t\r\n   ");
    let t = sc.scan();
    assert!(matches!(t.tok, Token::Eof));
    assert_eq!(t.pos, 8);
    let t2 = sc.scan();
    assert!(matches!(t2.tok, Token::Eof));
    assert_eq!(t2.pos, 8);
    let t3 = sc.scan();
    assert!(matches!(t3.tok, Token::Eof));
    assert_eq!(t3.pos, 8);
}

#[test]
fn empty_input_yields_eof_at_zero() {
    let mut sc = Scanner::from_string("");
    let t = sc.scan();
    assert!(matches!(t.tok, Token::Eof));
    assert_eq!(t.pos, 0);
    let t2 = sc.scan();
    assert!(matches!(t2.tok, Token::Eof));
    assert_eq!(t2.pos, 0);
}

#[test]
fn identifier_with_digits_and_underscore() {
    let toks = collect("abc123_x");
    assert_eq!(toks.len(), 2);
    assert_eq!(ident_text(&toks[0].tok), "abc123_x");
    assert_eq!(toks[0].pos, 0);
    assert!(matches!(toks[1].tok, Token::Eof));
    assert_eq!(toks[1].pos, 8);
}

#[test]
fn arrow_token() {
    let toks = collect("->");
    assert_eq!(toks.len(), 2);
    assert!(matches!(toks[0].tok, Token::Arrow));
    assert_eq!(toks[0].pos, 0);
    assert!(matches!(toks[1].tok, Token::Eof));
    assert_eq!(toks[1].pos, 2);
}

#[test]
fn paren_ident_paren() {
    let toks = collect("(a)");
    assert_eq!(toks.len(), 4);
    assert!(matches!(toks[0].tok, Token::Lparen));
    assert_eq!(toks[0].pos, 0);
    assert_eq!(ident_text(&toks[1].tok), "a");
    assert_eq!(toks[1].pos, 1);
    assert!(matches!(toks[2].tok, Token::Rparen));
    assert_eq!(toks[2].pos, 2);
    assert!(matches!(toks[3].tok, Token::Eof));
    assert_eq!(toks[3].pos, 3);
    for w in toks.windows(2) {
        assert!(w[0].pos <= w[1].pos);
    }
}

#[test]
fn table_keeps_longer_literal_first() {
    // The arrow literal must stand before any entry it could be confused
    // with: a front-to-back search stops at the first full match, so a
    // misordered table would truncate the match.
    let table = scanner::scanner::token_table();
    assert_eq!(table[0].lit, vec!['-', '>']);
    for a in 0..table.len() {
        for b in 0..table.len() {
            if a != b && table[a].lit.len() < table[b].lit.len() {
                let is_prefix = table[b].lit[..table[a].lit.len()] == table[a].lit[..];
                if is_prefix {
                    assert!(b < a, "a literal must come after every literal it is a prefix of");
                }
            }
        }
    }
    // And the scan commits to the longer literal, not to a one-character cut.
    let toks = collect("->");
    assert!(matches!(toks[0].tok, Token::Arrow));
    assert_eq!(toks.len(), 2);
}

#[test]
fn lone_dash_is_an_error() {
    let toks = collect("-");
    assert_eq!(toks.len(), 2);
    assert!(matches!(toks[0].tok, Token::Error));
    assert_eq!(toks[0].pos, 0);
    assert!(matches!(toks[1].tok, Token::Eof));
    assert_eq!(toks[1].pos, 1);
}

#[test]
fn newline_offset_recorded() {
    let mut sc = Scanner::from_string("a\nb");
    loop {
        let t = sc.scan();
        if matches!(t.tok, Token::Eof) {
            break;
        }
    }
    assert_eq!(sc.line_offsets(), &vec![1]);
}

#[test]
fn newline_at_start_recorded() {
    let mut sc = Scanner::from_string("\nx");
    let t = sc.scan();
    assert_eq!(ident_text(&t.tok), "x");
    assert_eq!(t.pos, 1);
    let t2 = sc.scan();
    assert!(matches!(t2.tok, Token::Eof));
    assert_eq!(sc.line_offsets(), &vec![0]);
}

#[test]
fn forward_progress_on_unmatched_characters() {
    let toks = collect("##@@");
    assert_eq!(toks.len(), 5);
    for k in 0..4 {
        assert!(matches!(toks[k].tok, Token::Error));
        assert_eq!(toks[k].pos, k);
    }
    assert!(matches!(toks[4].tok, Token::Eof));
    assert_eq!(toks[4].pos, 4);
    for w in toks.windows(2) {
        assert!(w[0].pos < w[1].pos);
    }
}

#[test]
fn double_quote_is_reserved_and_consumed() {
    let toks = collect("\"");
    assert_eq!(toks.len(), 2);
    assert!(matches!(toks[0].tok, Token::Error));
    assert_eq!(toks[0].pos, 0);
    assert!(matches!(toks[1].tok, Token::Eof));
    assert_eq!(toks[1].pos, 1);
}

#[test]
fn slash_is_reserved_and_consumed() {
    let toks = collect("/x");
    assert_eq!(toks.len(), 3);
    assert!(matches!(toks[0].tok, Token::Error));
    assert_eq!(toks[0].pos, 0);
    assert_eq!(ident_text(&toks[1].tok), "x");
    assert_eq!(toks[1].pos, 1);
    assert!(matches!(toks[2].tok, Token::Eof));
}

#[test]
fn single_quote_token() {
    let toks = collect("'");
    assert_eq!(toks.len(), 2);
    assert!(matches!(toks[0].tok, Token::Quote));
    assert_eq!(toks[0].pos, 0);
}

#[test]
fn error_then_recovery() {
    let toks = collect("#(");
    assert_eq!(toks.len(), 3);
    assert!(matches!(toks[0].tok, Token::Error));
    assert_eq!(toks[0].pos, 0);
    assert!(matches!(toks[1].tok, Token::Lparen));
    assert_eq!(toks[1].pos, 1);
    assert!(matches!(toks[2].tok, Token::Eof));
    assert_eq!(toks[2].pos, 2);
}

#[test]
fn multibyte_characters_use_byte_offsets() {
    // The alpha character occupies two bytes, so the closing parenthesis
    // stands at byte offset 3 and the end at byte offset 4.
    let toks = collect("(\u{3b1})");
    assert_eq!(toks.len(), 4);
    assert!(matches!(toks[0].tok, Token::Lparen));
    assert_eq!(toks[0].pos, 0);
    assert_eq!(ident_text(&toks[1].tok), "\u{3b1}");
    assert_eq!(toks[1].pos, 1);
    assert!(matches!(toks[2].tok, Token::Rparen));
    assert_eq!(toks[2].pos, 3);
    assert!(matches!(toks[3].tok, Token::Eof));
    assert_eq!(toks[3].pos, 4);
}

#[test]
fn newline_after_symbol_recorded() {
    let mut sc = Scanner::from_string("->\n(");
    let t = sc.scan();
    assert!(matches!(t.tok, Token::Arrow));
    let t2 = sc.scan();
    assert!(matches!(t2.tok, Token::Lparen));
    assert_eq!(t2.pos, 3);
    let t3 = sc.scan();
    assert!(matches!(t3.tok, Token::Eof));
    assert_eq!(sc.line_offsets(), &vec![2]);
}

#[test]
fn identifiers_are_split_by_whitespace() {
    let toks = collect("  foo   bar_2 ");
    assert_eq!(toks.len(), 3);
    assert_eq!(ident_text(&toks[0].tok), "foo");
    assert_eq!(toks[0].pos, 2);
    assert_eq!(ident_text(&toks[1].tok), "bar_2");
    assert_eq!(toks[1].pos, 8);
    assert!(matches!(toks[2].tok, Token::Eof));
    assert_eq!(toks[2].pos, 14);
}
