use tyozo::lexer::Lexer;

#[test]
fn a_lexer_starts_in_front_of_the_input() {
    let lexer = Lexer::new(String::from("ab"));
    assert_eq!(lexer.current_ch(), '\0');
    assert!(lexer.is_end());
}

#[test]
fn read_char_goes_through_the_input_and_stays_at_its_end() {
    let mut lexer = Lexer::new(String::from("a\u{e9}"));
    lexer.read_char();
    assert_eq!(lexer.current_ch(), 'a');
    assert!(!lexer.is_end());
    lexer.read_char();
    assert_eq!(lexer.current_ch(), '\u{e9}');
    lexer.read_char();
    assert_eq!(lexer.current_ch(), '\0');
    assert!(lexer.is_end());
    lexer.read_char();
    lexer.read_char();
    assert_eq!(lexer.current_ch(), '\0');
}

#[test]
fn is_end_holds_at_a_line_end() {
    let mut lexer = Lexer::new(String::from("\nx"));
    lexer.read_char();
    assert_eq!(lexer.current_ch(), '\n');
    assert!(lexer.is_end());
    lexer.read_char();
    assert!(!lexer.is_end());
}

#[test]
fn read_identifier_reads_up_to_a_blank_or_the_end() {
    let mut lexer = Lexer::new(String::from("key-1 rest"));
    lexer.read_char();
    assert_eq!(lexer.read_identifier(), "key-1");
    assert_eq!(lexer.current_ch(), ' ');
    lexer.read_char();
    assert_eq!(lexer.read_identifier(), "rest");
    assert!(lexer.is_end());
    assert_eq!(lexer.read_identifier(), "");
}

#[test]
fn read_identifier_in_front_of_the_input_reads_nothing() {
    let mut lexer = Lexer::new(String::from("key"));
    assert_eq!(lexer.read_identifier(), "");
    lexer.read_char();
    assert_eq!(lexer.current_ch(), 'k');
}

#[test]
fn read_string_literal_reads_between_the_quotes() {
    let mut lexer = Lexer::new(String::from("\"a b\" c"));
    lexer.read_char();
    assert_eq!(lexer.read_string_literal(), Ok(String::from("a b")));
    assert_eq!(lexer.current_ch(), '"');
    lexer.read_char();
    assert_eq!(lexer.current_ch(), ' ');
}

#[test]
fn read_string_literal_fails_off_a_quote_and_stays() {
    let mut lexer = Lexer::new(String::from("ab\""));
    lexer.read_char();
    assert_eq!(
        lexer.read_string_literal(),
        Err(String::from("failed to read string literal"))
    );
    assert_eq!(lexer.current_ch(), 'a');
}

#[test]
fn read_string_literal_fails_where_the_input_ends_first() {
    let mut lexer = Lexer::new(String::from("\"ab"));
    lexer.read_char();
    assert_eq!(
        lexer.read_string_literal(),
        Err(String::from("failed to read string literal"))
    );
    assert!(lexer.is_end());
}
