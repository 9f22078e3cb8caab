use marky::{Lexer, Token, TokenType};

#[test]
fn header() {
    let source = " 
        # header 1
        ## header 2
        ### header 3
        #### header 4
        ##### header 5
        ###### header 6
        
        ### this is a longer header
        # this is a header with a #hashtag in the middle
        
        # header 1 #
        ## header 2 ##
        ### header 3 ###
        #### header 4 ####
        ##### header 5 #####
        ###### header 6 ######
        ####### not a header
        #not a header
        ";

    let expected: Vec<Token> = vec![
    Token { text: "header 1", token_type: TokenType::H(1) },
    Token { text: "header 2", token_type: TokenType::H(2) },
    Token { text: "header 3", token_type: TokenType::H(3) },
    Token { text: "header 4", token_type: TokenType::H(4) },
    Token { text: "header 5", token_type: TokenType::H(5) },
    Token { text: "header 6", token_type: TokenType::H(6) },
    Token { text: "this is a longer header", token_type: TokenType::H(3) },
    Token { text: "this is a header with a #hashtag in the middle", token_type: TokenType::H(1) },
    Token { text: "header 1", token_type: TokenType::H(1) },
    Token { text: "header 2", token_type: TokenType::H(2) },
    Token { text: "header 3", token_type: TokenType::H(3) },
    Token { text: "header 4", token_type: TokenType::H(4) },
    Token { text: "header 5", token_type: TokenType::H(5) },
    Token { text: "header 6", token_type: TokenType::H(6) },
    Token { text: "####### not a header", token_type: TokenType::P },
    Token { text: "#not a header", token_type: TokenType::P },
    Token { text: "", token_type: TokenType::EOF },
    ];

    let mut lexer = Lexer::new(source);
    lexer.scan();

    for (i, e) in expected.iter().enumerate() {
        assert_eq!(e, &lexer.tokens()[i], "failed at index {i}");
    }
}

#[test]
fn paragraph() {
    let source = "
        # this is a header

        and this is a paragraph.

        this is another one.
        ";

    let expected = vec![
        Token { token_type: TokenType::H(1), text: "this is a header" },
        Token { token_type: TokenType::P, text: "and this is a paragraph." },
        Token { token_type: TokenType::P, text: "this is another one." },
        Token { token_type: TokenType::EOF, text: "" },
    ];

    let mut lexer = Lexer::new(source);
    lexer.scan();

    for (i, e) in expected.iter().enumerate() {
        assert_eq!(e, &lexer.tokens()[i], "failed at index {i}");
    }
}

#[test]
fn unordered_list_item() {
    let expected = vec![
        Token { token_type: TokenType::ULItem, text: "list item 1"},
        Token { token_type: TokenType::ULItem, text: "list item 2"},
        Token { token_type: TokenType::ULItem, text: "list item 3"},
        Token { token_type: TokenType::ULItem, text: "list item 1"},
        Token { token_type: TokenType::ULItem, text: "list item 2"},
        Token { token_type: TokenType::ULItem, text: "list item 3"},
        Token { token_type: TokenType::ULItem, text: "list item 1"},
        Token { token_type: TokenType::ULItem, text: "list item 2"},
        Token { token_type: TokenType::ULItem, text: "list item 3"},
        Token { token_type: TokenType::ULItem, text: "list item 1"},
        Token { token_type: TokenType::ULItem, text: "list item 2"},
        Token { token_type: TokenType::ULItem, text: "list item 3"},
        Token { token_type: TokenType::P, text: "*not a list item*" },
        Token { token_type: TokenType::P, text: "*also not a list item" },
        Token { token_type: TokenType::P, text: "-also *not* a list item" },
        Token { token_type: TokenType::P, text: "---"},
        Token { token_type: TokenType::EOF, text: "" },
    ];

    let source = "
        * list item 1
        * list item 2
        * list item 3
        
        - list item 1
        - list item 2
        - list item 3

        + list item 1
        + list item 2
        + list item 3

        * list item 1
        - list item 2
        + list item 3

        *not a list item*
        *also not a list item
        -also *not* a list item
        ---
        ";

    let mut lexer = Lexer::new(source);
    lexer.scan();

    for (i, e) in expected.iter().enumerate() {
        assert_eq!(e, &lexer.tokens()[i], "failed at index {i}");
    }
}

#[test]
fn ordered_list_item() {
    let expected = vec![
        Token { token_type: TokenType::OLItem, text: "list item 1"},
        Token { token_type: TokenType::OLItem, text: "list item 2"},
        Token { token_type: TokenType::OLItem, text: "list item 3"},
        Token { token_type: TokenType::P, text: "1 not a list item" },
        Token { token_type: TokenType::OLItem, text: "list item 1"},
        Token { token_type: TokenType::OLItem, text: "list item 2"},
        Token { token_type: TokenType::OLItem, text: "list item 3"},
        Token { token_type: TokenType::OLItem, text: "2 digit list item"},
    ];

    let source = "
        1. list item 1
        2. list item 2
        3. list item 3

        1 not a list item

        8. list item 1
        3. list item 2
        1. list item 3

        13. 2 digit list item
        ";

    let mut lexer = Lexer::new(source);
    lexer.scan();

    for (i, e) in expected.iter().enumerate() {
        assert_eq!(e, &lexer.tokens()[i], "failed at index {i}");
    }
}
