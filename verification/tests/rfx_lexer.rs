use rustfx::rfx::rfxfileformat::{CommandType, LexError, Lexer, NodeDeclaration, ParseError, RfxFileFormat, Token};

fn float_of(token: Result<Token, LexError>) -> f32 {
    match token {
        Ok(Token::FloatNumber(text)) => text.parse::<f32>().unwrap(),
        other => panic!("expected a float, got {:?}", other),
    }
}

#[test]
fn lexer_token_openbrace() {
    let obrace = "{".to_string();
    let mut lexer = Lexer::new(&obrace);
    assert!(lexer.next_token() == Ok(Token::OpenBrace));
    assert!(lexer.next_token() == Ok(Token::EOF));
}

#[test]
fn lexer_token_closebrace() {
    let cbrace = "}".to_string();
    let mut lexer = Lexer::new(&cbrace);
    assert!(lexer.next_token() == Ok(Token::CloseBrace));
    assert!(lexer.next_token() == Ok(Token::EOF));
}

#[test]
fn lexer_token_space() {
    let spaces = "   {   }   ".to_string();
    let mut lexer = Lexer::new(&spaces);
    assert!(lexer.next_token() == Ok(Token::OpenBrace));
    assert!(lexer.next_token() == Ok(Token::CloseBrace));
    assert!(lexer.next_token() == Ok(Token::EOF));
}

#[test]
fn lexer_token_command_node() {
    let node = "node".to_string();
    let mut lexer = Lexer::new(&node);
    assert!(lexer.next_token() == Ok(Token::Command(CommandType::Node)));
    assert!(lexer.next_token() == Ok(Token::EOF));
}

#[test]
fn lexer_token_command_param() {
    let param = "param".to_string();
    let mut lexer = Lexer::new(&param);
    assert!(lexer.next_token() == Ok(Token::Command(CommandType::Param)));
}

#[test]
fn lexer_token_command_path() {
    let path = "path".to_string();
    let mut lexer = Lexer::new(&path);
    assert!(lexer.next_token() == Ok(Token::Command(CommandType::Path)));
}

#[test]
fn lexer_token_command_property() {
    let property = "property".to_string();
    let mut lexer = Lexer::new(&property);
    assert!(lexer.next_token() == Ok(Token::Command(CommandType::Property)));
    assert!(lexer.next_token() == Ok(Token::EOF));
}

#[test]
fn lexer_token_command_followed_by_brace() {
    let path = "path{".to_string();
    let mut lexer = Lexer::new(&path);
    assert!(lexer.next_token() == Ok(Token::Command(CommandType::Path)));
    assert!(lexer.next_token() == Ok(Token::OpenBrace));
    assert!(lexer.next_token() == Ok(Token::EOF));
}

#[test]
fn lexer_token_comment() {
    let comment = "# comment ".to_string();
    let mut lexer = Lexer::new(&comment);
    assert!(lexer.next_token() == Ok(Token::EOF));
}

#[test]
fn lexer_token_comment_followed_by_command() {
    let comment = "# comment \nnode".to_string();
    let mut lexer = Lexer::new(&comment);
    assert!(lexer.next_token() == Ok(Token::Command(CommandType::Node)));
    assert!(lexer.next_token() == Ok(Token::EOF));
}

#[test]
fn lexer_token_comment_surrounded_by_command() {
    let comment = "path # comment \nnode  ".to_string();
    let mut lexer = Lexer::new(&comment);
    assert!(lexer.next_token() == Ok(Token::Command(CommandType::Path)));
    assert!(lexer.next_token() == Ok(Token::Command(CommandType::Node)));
    assert!(lexer.next_token() == Ok(Token::EOF));
}

#[test]
fn lexer_token_string_literal() {
    let comment = "\"a string\"".to_string();
    let mut lexer = Lexer::new(&comment);
    assert!(lexer.next_token() == Ok(Token::StringLiteral("a string".to_string())));
    assert!(lexer.next_token() == Ok(Token::EOF));
}

#[test]
fn lexer_token_integer() {
    let comment = "3102954".to_string();
    let mut lexer = Lexer::new(&comment);
    assert!(lexer.next_token() == Ok(Token::IntNumber(3102954)));
    assert!(lexer.next_token() == Ok(Token::EOF));
}

#[test]
fn lexer_token_negative_integer() {
    let comment = "-3102954".to_string();
    let mut lexer = Lexer::new(&comment);
    assert!(lexer.next_token() == Ok(Token::IntNumber(-3102954)));
    assert!(lexer.next_token() == Ok(Token::EOF));
}

#[test]
fn lexer_token_multiple_integer() {
    let comment = "3102954 56 89233".to_string();
    let mut lexer = Lexer::new(&comment);
    assert!(lexer.next_token() == Ok(Token::IntNumber(3102954)));
    assert!(lexer.next_token() == Ok(Token::IntNumber(56)));
    assert!(lexer.next_token() == Ok(Token::IntNumber(89233)));
    assert!(lexer.next_token() == Ok(Token::EOF));
}

#[test]
fn lexer_token_float() {
    let comment = "3102954.67".to_string();
    let mut lexer = Lexer::new(&comment);
    assert!(float_of(lexer.next_token()) == 3102954.67);
    assert!(lexer.next_token() == Ok(Token::EOF));
}

#[test]
fn lexer_token_float_starting_with_zero() {
    let comment = "0.3102954 0.67".to_string();
    let mut lexer = Lexer::new(&comment);
    assert!(float_of(lexer.next_token()) == 0.3102954);
    assert!(float_of(lexer.next_token()) == 0.67);
    assert!(lexer.next_token() == Ok(Token::EOF));
}

#[test]
fn lexer_token_negative_float() {
    let comment = "-3102954.67".to_string();
    let mut lexer = Lexer::new(&comment);
    assert!(float_of(lexer.next_token()) == -3102954.67);
    assert!(lexer.next_token() == Ok(Token::EOF));
}

#[test]
fn lexer_token_scientific_float() {
    let comment = "-314.67e10".to_string();
    let mut lexer = Lexer::new(&comment);
    assert!(float_of(lexer.next_token()) == -314.67e10);
    assert!(lexer.next_token() == Ok(Token::EOF));
}

#[test]
fn lexer_float_keeps_its_text() {
    let text = "-314.67e10".to_string();
    let mut lexer = Lexer::new(&text);
    assert_eq!(lexer.next_token(), Ok(Token::FloatNumber("-314.67e10".to_string())));
}

#[test]
fn lexer_unknown_command_is_an_error() {
    let text = "nodes".to_string();
    let mut lexer = Lexer::new(&text);
    assert_eq!(lexer.next_token(), Err(LexError::UnknownCommand));
}

#[test]
fn lexer_unrecognized_character_is_an_error() {
    let text = "@".to_string();
    let mut lexer = Lexer::new(&text);
    assert_eq!(lexer.next_token(), Err(LexError::UnrecognizedCharacter));
}

#[test]
fn lexer_integer_out_of_range_is_an_error() {
    let text = "2147483648".to_string();
    let mut lexer = Lexer::new(&text);
    assert_eq!(lexer.next_token(), Err(LexError::InvalidInteger));
    let text = "2147483647".to_string();
    let mut lexer = Lexer::new(&text);
    assert_eq!(lexer.next_token(), Ok(Token::IntNumber(2147483647)));
}

#[test]
fn lexer_lone_minus_is_an_error() {
    let text = "- 1".to_string();
    let mut lexer = Lexer::new(&text);
    assert_eq!(lexer.next_token(), Err(LexError::InvalidInteger));
}

#[test]
fn lexer_bad_float_is_an_error() {
    let text = "900.-40".to_string();
    let mut lexer = Lexer::new(&text);
    assert_eq!(lexer.next_token(), Err(LexError::InvalidFloat));
    let text = "1.2.3".to_string();
    let mut lexer = Lexer::new(&text);
    assert_eq!(lexer.next_token(), Ok(Token::FloatNumber("1.2".to_string())));
    assert_eq!(lexer.next_token(), Err(LexError::UnrecognizedCharacter));
}

#[test]
fn lexer_unfinished_string_gives_eof() {
    let text = "\"abc".to_string();
    let mut lexer = Lexer::new(&text);
    assert_eq!(lexer.next_token(), Ok(Token::EOF));
}

#[test]
fn lexer_non_ascii_string_is_an_error() {
    let text = "\"é\"".to_string();
    let mut lexer = Lexer::new(&text);
    assert_eq!(lexer.next_token(), Err(LexError::NonAsciiText));
}

fn declarations(text: &str) -> Result<Vec<NodeDeclaration>, ParseError> {
    RfxFileFormat::new(text.to_string()).node_declarations()
}

#[test]
fn parse_node_without_body() {
    let d = declarations("node \"uk.co.thefoundry.BasicGain\";").unwrap();
    assert_eq!(d.len(), 1);
    assert_eq!(d[0].plugin, "uk.co.thefoundry.BasicGain");
    assert_eq!(d[0].name, "");
}

#[test]
fn parse_two_named_node_declarations() {
    let text = "# two gains\nnode \"Gain\" {\n name \"Gain.1\";\n}\nnode \"Gain\" { name \"Gain.2\"; }\n";
    let d = declarations(text).unwrap();
    assert_eq!(d.len(), 2);
    assert_eq!(d[0].plugin, "Gain");
    assert_eq!(d[0].name, "Gain.1");
    assert_eq!(d[1].name, "Gain.2");
}

#[test]
fn parse_empty_file() {
    assert_eq!(declarations("").unwrap().len(), 0);
    assert_eq!(declarations("# nothing\n").unwrap().len(), 0);
}

#[test]
fn parse_errors() {
    assert_eq!(declarations("{").err(), Some(ParseError::ExpectedCommand));
    assert_eq!(declarations("node ;").err(), Some(ParseError::ExpectedPluginName));
    assert_eq!(declarations("node \"p\" 3").err(), Some(ParseError::ExpectedNodeBody));
    assert_eq!(declarations("node \"p\" { name \"n\" }").err(), Some(ParseError::ExpectedSemicolonAfterName));
    assert_eq!(declarations("@").err(), Some(ParseError::Lex(LexError::UnrecognizedCharacter)));
}

#[test]
fn lexer_eof_repeats() {
    let text = "node ".to_string();
    let mut lexer = Lexer::new(&text);
    assert_eq!(lexer.next_token(), Ok(Token::Command(CommandType::Node)));
    assert_eq!(lexer.next_token(), Ok(Token::EOF));
    assert_eq!(lexer.next_token(), Ok(Token::EOF));
}

#[test]
fn lexer_integer_round_trip() {
    for n in [0i32, 7, -7, 2147483647, -2147483648, 1000000] {
        let text = n.to_string();
        let mut lexer = Lexer::new(&text);
        assert_eq!(lexer.next_token(), Ok(Token::IntNumber(n)));
        assert_eq!(lexer.next_token(), Ok(Token::EOF));
    }
}

#[test]
fn lexer_quoted_round_trip() {
    let inner = "a # {b};\nc -1 ";
    let text = format!("\"{}\"", inner);
    let mut lexer = Lexer::new(&text);
    assert_eq!(lexer.next_token(), Ok(Token::StringLiteral(inner.to_string())));
    assert_eq!(lexer.next_token(), Ok(Token::EOF));
}

#[test]
fn lexer_surrounding_whitespace() {
    let text = " \t\n node {} 12 # c\n \r\n".to_string();
    let mut lexer = Lexer::new(&text);
    assert_eq!(lexer.next_token(), Ok(Token::Command(CommandType::Node)));
    assert_eq!(lexer.next_token(), Ok(Token::OpenBrace));
    assert_eq!(lexer.next_token(), Ok(Token::CloseBrace));
    assert_eq!(lexer.next_token(), Ok(Token::IntNumber(12)));
    assert_eq!(lexer.next_token(), Ok(Token::EOF));
}

#[test]
fn parse_node_block_gives_last_name_whatever_follows() {
    let text = "node \"Gain\" { name \"a\"; name \"b\"; }";
    let d = declarations(text).unwrap();
    assert_eq!(d[0].name, "b");
    let text = "node \"Gain\" { name \"a\" ; } @";
    assert_eq!(declarations(text).err(), Some(ParseError::Lex(LexError::UnrecognizedCharacter)));
    let text = "node \"Gain\" { param \"gain\" 1; }";
    assert_eq!(declarations(text).err(), Some(ParseError::UnexpectedParameterToken));
}
