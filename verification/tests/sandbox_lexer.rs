use rustfx::sandbox::bug_match::MyStruct;
use rustfx::sandbox::lexer::{Lexer, Token};

fn float_of(token: Token) -> f32 {
    match token {
        Token::FloatNumber(text) => text.parse::<f32>().unwrap(),
        other => panic!("expected a float, got {:?}", other),
    }
}

#[test]
fn test_token_eof() {
    let text1 = "".to_string();
    let mut lexer = Lexer::new(&text1);
    assert!(lexer.next_token() == Token::EOF);
}

#[test]
fn test_token_plugin() {
    let text1 = "plugin".to_string();
    let mut lexer = Lexer::new(&text1);
    assert!(lexer.next_token() == Token::PluginCommand);
}

#[test]
fn test_token_plugin_with_spaces() {
    let text1 = "  plugin  ".to_string();
    let mut lexer = Lexer::new(&text1);
    assert!(lexer.next_token() == Token::PluginCommand);
}

#[test]
fn test_token_createnode() {
    let text1 = "node".to_string();
    let mut lexer = Lexer::new(&text1);
    assert!(lexer.next_token() == Token::NodeCommand);
}

#[test]
fn test_two_tokens() {
    let text1 = "plugin node".to_string();
    let mut lexer = Lexer::new(&text1);
    assert!(lexer.next_token() == Token::PluginCommand);
    assert!(lexer.next_token() == Token::NodeCommand);
}

#[test]
fn test_string_literal() {
    let text1 = "\"literal string test\"".to_string();
    let mut lexer = Lexer::new(&text1);
    assert!(lexer.next_token() == Token::StringLiteral("literal string test".to_string()));
}

#[test]
fn test_two_string_literal() {
    let text1 = "\"literal string test\"\"new text\"".to_string();
    let mut lexer = Lexer::new(&text1);
    assert!(lexer.next_token() == Token::StringLiteral("literal string test".to_string()));
    assert!(lexer.next_token() == Token::StringLiteral("new text".to_string()));
}

#[test]
fn test_unfinished_string_literal() {
    let text1 = "\"literal string test".to_string();
    let mut lexer = Lexer::new(&text1);
    assert!(lexer.next_token() == Token::EOF);
}

#[test]
fn test_float() {
    let text1 = "20.2334".to_string();
    let mut lexer = Lexer::new(&text1);
    assert!(float_of(lexer.next_token()) == 20.2334);
}

#[test]
fn test_int() {
    let text1 = "202334".to_string();
    let mut lexer = Lexer::new(&text1);
    assert!(lexer.next_token() == Token::IntNumber(202334));
}

#[test]
fn test_int_and_float() {
    let text1 = "202334 982.345".to_string();
    let mut lexer = Lexer::new(&text1);
    assert!(lexer.next_token() == Token::IntNumber(202334));
    assert!(float_of(lexer.next_token()) == 982.345);
}

#[test]
fn test_int_semicolon_float() {
    let text1 = "202334;982.345".to_string();
    let mut lexer = Lexer::new(&text1);
    assert!(lexer.next_token() == Token::IntNumber(202334));
    assert!(lexer.next_token() == Token::SemiColon);
    assert!(float_of(lexer.next_token()) == 982.345);
}

#[test]
fn test_token_2_lines() {
    let text1 = "node\nnode\n".to_string();
    let mut lexer = Lexer::new(&text1);
    assert!(lexer.next_token() == Token::NodeCommand);
    assert!(lexer.next_token() == Token::NodeCommand);
}

#[test]
fn test_token_2_comments() {
    let text1 = "# random comment\nnode# and a new comment\nnode".to_string();
    let mut lexer = Lexer::new(&text1);
    assert!(lexer.next_token() == Token::NodeCommand);
    assert!(lexer.next_token() == Token::NodeCommand);
}

#[test]
fn test_token_comment() {
    let text1 = "# random comment\nnode".to_string();
    let mut lexer = Lexer::new(&text1);
    assert!(lexer.next_token() == Token::NodeCommand);
}

#[test]
fn test_skip_linebreaks() {
    let text1 = "\n\n\n\n\nnode".to_string();
    let mut lexer = Lexer::new(&text1);
    assert!(lexer.next_token() == Token::NodeCommand);
}

#[test]
fn test_token_open_close_brace() {
    let text1 = "node {\nnode}".to_string();
    let mut lexer = Lexer::new(&text1);
    assert!(lexer.next_token() == Token::NodeCommand);
    assert!(lexer.next_token() == Token::OpenBrace);
    assert!(lexer.next_token() == Token::NodeCommand);
    assert!(lexer.next_token() == Token::CloseBrace);
}

#[test]
fn sandbox_keywords_path_and_param() {
    let text = "path param;".to_string();
    let mut lexer = Lexer::new(&text);
    assert!(lexer.next_token() == Token::PathCommand);
    assert!(lexer.next_token() == Token::ParamCommand);
    assert!(lexer.next_token() == Token::SemiColon);
    assert!(lexer.next_token() == Token::EOF);
    assert!(lexer.next_token() == Token::EOF);
}

#[test]
fn sandbox_unknown_word_gives_eof() {
    let text = "xyz".to_string();
    let mut lexer = Lexer::new(&text);
    assert!(lexer.next_token() == Token::EOF);
}

#[test]
fn sandbox_float_keeps_its_text() {
    let text = "1e5".to_string();
    let mut lexer = Lexer::new(&text);
    assert!(lexer.next_token() == Token::FloatNumber("1e5".to_string()));
}

#[test]
fn sandbox_comment_to_the_end() {
    let text = "# only a comment".to_string();
    let mut lexer = Lexer::new(&text);
    assert!(lexer.next_token() == Token::EOF);
}

#[test]
fn sandbox_quote_at_the_end() {
    let text = "\"".to_string();
    let mut lexer = Lexer::new(&text);
    assert!(lexer.next_token() == Token::EOF);
}

#[test]
fn sandbox_skip_whitespaces_then_token() {
    let text = " \t plugin".to_string();
    let mut lexer = Lexer::new(&text);
    lexer.skip_whitespaces();
    assert!(lexer.next_token() == Token::PluginCommand);
}

#[test]
fn my_struct_matches_the_constant() {
    assert!(MyStruct(b"ConstantString\0").is_constant());
    assert!(!MyStruct(b"ConstantString").is_constant());
    assert!(MyStruct(b"abc\0") == MyStruct(b"abc\0"));
}

#[test]
fn test_file() {
    let file_content = "path \"\";\nplugin \"uk.co.thefoundry.BasicGain\";\nnode \"uk.co.thefoundry.BasicGain\" {\n  param \"name\" \"testnode1\";\n  param \"offset\" 0.89;\n  param \"color\" 23 23 10;\n}\n".to_string();
    let mut lexer = Lexer::new(&file_content);

    assert!(lexer.next_token() == Token::PathCommand);
    assert!(lexer.next_token() == Token::StringLiteral("".to_string()));
    assert!(lexer.next_token() == Token::SemiColon);
    assert!(lexer.next_token() == Token::PluginCommand);
    assert!(lexer.next_token() == Token::StringLiteral("uk.co.thefoundry.BasicGain".to_string()));
    assert!(lexer.next_token() == Token::SemiColon);
    assert!(lexer.next_token() == Token::NodeCommand);
    assert!(lexer.next_token() == Token::StringLiteral("uk.co.thefoundry.BasicGain".to_string()));
    assert!(lexer.next_token() == Token::OpenBrace);
    assert!(lexer.next_token() == Token::ParamCommand);
    assert!(lexer.next_token() == Token::StringLiteral("name".to_string()));
    assert!(lexer.next_token() == Token::StringLiteral("testnode1".to_string()));
    assert!(lexer.next_token() == Token::SemiColon);
    assert!(lexer.next_token() == Token::ParamCommand);
    assert!(lexer.next_token() == Token::StringLiteral("offset".to_string()));
    assert!(float_of(lexer.next_token()) == 0.89);
    assert!(lexer.next_token() == Token::SemiColon);
    assert!(lexer.next_token() == Token::ParamCommand);
    assert!(lexer.next_token() == Token::StringLiteral("color".to_string()));
    assert!(lexer.next_token() == Token::IntNumber(23));
    assert!(lexer.next_token() == Token::IntNumber(23));
    assert!(lexer.next_token() == Token::IntNumber(10));
}

#[test]
fn sandbox_can_read_next() {
    let text = "\"12".to_string();
    let mut lexer = Lexer::new(&text);
    assert!(lexer.can_read_next());
    assert!(lexer.next_token() == Token::EOF);
    assert!(!lexer.can_read_next());
    let text = "node 12".to_string();
    let mut lexer = Lexer::new(&text);
    assert!(lexer.can_read_next());
    assert!(lexer.next_token() == Token::NodeCommand);
    assert!(lexer.can_read_next());
    assert!(lexer.next_token() == Token::IntNumber(12));
}
