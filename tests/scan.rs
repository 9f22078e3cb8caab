use marky::{marky_str, Lexer, Token, TokenType};

fn tok(token_type: TokenType, text: &str) -> Token<'_> {
    Token { token_type, text }
}

#[test]
fn title_and_body() {
    let tokens = marky_str("# Title\n\nbody text\n");
    assert_eq!(
        tokens,
        vec![tok(TokenType::H(1), "Title"), tok(TokenType::P, "body text"), tok(TokenType::EOF, "")]
    );
}

#[test]
fn seven_hashes_stay_a_paragraph() {
    let tokens = marky_str("####### not a header\n");
    assert_eq!(tokens, vec![tok(TokenType::P, "####### not a header"), tok(TokenType::EOF, "")]);
}

#[test]
fn numbered_lines_and_bare_number() {
    let tokens = marky_str("1. a\n2. b\n1 c\n");
    assert_eq!(
        tokens,
        vec![
            tok(TokenType::OLItem, "a"),
            tok(TokenType::OLItem, "b"),
            tok(TokenType::P, "1 c"),
            tok(TokenType::EOF, ""),
        ]
    );
}

#[test]
fn empty_input_gives_only_end() {
    assert_eq!(marky_str(""), vec![tok(TokenType::EOF, "")]);
}

#[test]
fn blank_input_gives_only_end() {
    assert_eq!(marky_str(" \t\r\n\n  "), vec![tok(TokenType::EOF, "")]);
}

#[test]
fn last_line_without_newline() {
    let tokens = marky_str("para\n## head ##\n* item\n- item two\n+ plus\n12. twelve\nend");
    assert_eq!(
        tokens,
        vec![
            tok(TokenType::P, "para"),
            tok(TokenType::H(2), "head"),
            tok(TokenType::ULItem, "item"),
            tok(TokenType::ULItem, "item two"),
            tok(TokenType::ULItem, "plus"),
            tok(TokenType::OLItem, "twelve"),
            tok(TokenType::P, "end"),
            tok(TokenType::EOF, ""),
        ]
    );
}

#[test]
fn markers_at_end_of_input() {
    assert_eq!(marky_str("#"), vec![tok(TokenType::P, "#"), tok(TokenType::EOF, "")]);
    assert_eq!(marky_str("*"), vec![tok(TokenType::P, "*"), tok(TokenType::EOF, "")]);
    assert_eq!(marky_str("+"), vec![tok(TokenType::P, "+"), tok(TokenType::EOF, "")]);
    assert_eq!(marky_str("7"), vec![tok(TokenType::P, "7"), tok(TokenType::EOF, "")]);
    assert_eq!(marky_str("7."), vec![tok(TokenType::P, "7."), tok(TokenType::EOF, "")]);
    assert_eq!(marky_str("- "), vec![tok(TokenType::ULItem, ""), tok(TokenType::EOF, "")]);
    assert_eq!(marky_str("# "), vec![tok(TokenType::H(1), ""), tok(TokenType::EOF, "")]);
}

#[test]
fn markers_without_space_are_paragraphs() {
    let tokens = marky_str("+plus\n3.x\n4.\n-dash\n*star*\n");
    assert_eq!(
        tokens,
        vec![
            tok(TokenType::P, "+plus"),
            tok(TokenType::P, "3.x"),
            tok(TokenType::P, "4."),
            tok(TokenType::P, "-dash"),
            tok(TokenType::P, "*star*"),
            tok(TokenType::EOF, ""),
        ]
    );
}

#[test]
fn header_levels_one_to_six() {
    let tokens = marky_str("# a\n## b\n### c\n#### d\n##### e\n###### f\n");
    for (i, t) in tokens.iter().take(6).enumerate() {
        assert_eq!(t.token_type, TokenType::H(i + 1));
    }
    assert_eq!(tokens.len(), 7);
}

#[test]
fn header_closing_hashes_need_no_space() {
    let tokens = marky_str("# closed#\n# only ###\n# #\n");
    assert_eq!(
        tokens,
        vec![
            tok(TokenType::H(1), "closed"),
            tok(TokenType::H(1), "only"),
            tok(TokenType::H(1), ""),
            tok(TokenType::EOF, ""),
        ]
    );
}

#[test]
fn header_text_is_trimmed_of_unicode_white_space() {
    let tokens = marky_str("#   spaced \u{3000}\u{a0}\n## \tstill\t ##\n##\ttab\n");
    assert_eq!(
        tokens,
        vec![
            tok(TokenType::H(1), "spaced"),
            tok(TokenType::H(2), "still"),
            tok(TokenType::P, "##\ttab"),
            tok(TokenType::EOF, ""),
        ]
    );
}

#[test]
fn list_text_is_not_trimmed() {
    let tokens = marky_str("*  two spaces \n1.  wide \n");
    assert_eq!(
        tokens,
        vec![tok(TokenType::ULItem, " two spaces "), tok(TokenType::OLItem, " wide "), tok(TokenType::EOF, "")]
    );
}

#[test]
fn carriage_return_stays_in_paragraph_text() {
    let tokens = marky_str("line\r\n");
    assert_eq!(tokens, vec![tok(TokenType::P, "line\r"), tok(TokenType::EOF, "")]);
}

#[test]
fn non_ascii_text() {
    let tokens = marky_str("été\n# señor ñ\n* 日本\n10. ü\n");
    assert_eq!(
        tokens,
        vec![
            tok(TokenType::P, "été"),
            tok(TokenType::H(1), "señor ñ"),
            tok(TokenType::ULItem, "日本"),
            tok(TokenType::OLItem, "ü"),
            tok(TokenType::EOF, ""),
        ]
    );
}

#[test]
fn exactly_one_end_token() {
    let tokens = marky_str("a\n\n# b\n- c\n");
    let ends = tokens.iter().filter(|t| t.token_type == TokenType::EOF).count();
    assert_eq!(ends, 1);
    assert_eq!(tokens.last().unwrap().token_type, TokenType::EOF);
}

#[test]
fn tokens_follow_source_order() {
    let source = "z\n# y\nx\n- w\n";
    let tokens = marky_str(source);
    let mut last = 0;
    for t in tokens.iter().take(tokens.len() - 1) {
        let at = source.find(t.text).unwrap();
        assert!(at >= last);
        last = at;
    }
}

#[test]
fn lexer_matches_entry_point() {
    let source = "# h\ntext\n* item\n";
    let mut lexer = Lexer::new(source);
    lexer.scan();
    assert_eq!(lexer.into_tokens(), marky_str(source));
}
