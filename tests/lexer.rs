use spectral_rt::lexer::{LexError, Lexeme, Lexer};

#[test]
fn test_example_1() {
    let input = "LookAt 3 4 1.5  # eye
        .5 .5 0  # look at point
        0 0 1    # up vector
        Camera \"perspective\" \"float fov\" 45";

    let mut lexer = Lexer::new(&input);

    assert_eq!(lexer.next().unwrap(), Lexeme::Str("LookAt"));
    assert_eq!(lexer.next().unwrap(), Lexeme::Num("3"));
    assert_eq!(lexer.next().unwrap(), Lexeme::Num("4"));
    assert_eq!(lexer.next().unwrap(), Lexeme::Num("1.5"));

    assert_eq!(lexer.next().unwrap(), Lexeme::Num(".5"));
    assert_eq!(lexer.next().unwrap(), Lexeme::Num(".5"));
    assert_eq!(lexer.next().unwrap(), Lexeme::Num("0"));

    assert_eq!(lexer.next().unwrap(), Lexeme::Num("0"));
    assert_eq!(lexer.next().unwrap(), Lexeme::Num("0"));
    assert_eq!(lexer.next().unwrap(), Lexeme::Num("1"));

    assert_eq!(lexer.next().unwrap(), Lexeme::Str("Camera"));
    assert_eq!(lexer.next().unwrap(), Lexeme::Qoutes);
    assert_eq!(lexer.next().unwrap(), Lexeme::Str("perspective"));
    assert_eq!(lexer.next().unwrap(), Lexeme::Qoutes);
    assert_eq!(lexer.next().unwrap(), Lexeme::Qoutes);
    assert_eq!(lexer.next().unwrap(), Lexeme::Str("float"));
    assert_eq!(lexer.next().unwrap(), Lexeme::Str("fov"));
    assert_eq!(lexer.next().unwrap(), Lexeme::Qoutes);
    assert_eq!(lexer.next().unwrap(), Lexeme::Num("45"));
    assert_eq!(lexer.next().unwrap(), Lexeme::Eof);
}

#[test]
fn test_example_2() {
    let input = "Texture \"checks\" \"spectrum\" \"checkerboard\"
        \"float uscale\" [16] \"float vscale\" [16]
        \"rgb tex1\" [.1 .1 .1] \"rgb tex2\" [.8 .8 .8]";

    let mut lexer = Lexer::new(&input);

    assert_eq!(lexer.next().unwrap(), Lexeme::Str("Texture"));
    assert_eq!(lexer.next().unwrap(), Lexeme::Qoutes);
    assert_eq!(lexer.next().unwrap(), Lexeme::Str("checks"));
    assert_eq!(lexer.next().unwrap(), Lexeme::Qoutes);
    assert_eq!(lexer.next().unwrap(), Lexeme::Qoutes);
    assert_eq!(lexer.next().unwrap(), Lexeme::Str("spectrum"));
    assert_eq!(lexer.next().unwrap(), Lexeme::Qoutes);
    assert_eq!(lexer.next().unwrap(), Lexeme::Qoutes);
    assert_eq!(lexer.next().unwrap(), Lexeme::Str("checkerboard"));
    assert_eq!(lexer.next().unwrap(), Lexeme::Qoutes);

    assert_eq!(lexer.next().unwrap(), Lexeme::Qoutes);
    assert_eq!(lexer.next().unwrap(), Lexeme::Str("float"));
    assert_eq!(lexer.next().unwrap(), Lexeme::Str("uscale"));
    assert_eq!(lexer.next().unwrap(), Lexeme::Qoutes);
    assert_eq!(lexer.next().unwrap(), Lexeme::OpenBracket);
    assert_eq!(lexer.next().unwrap(), Lexeme::Num("16"));
    assert_eq!(lexer.next().unwrap(), Lexeme::CloseBracket);
    assert_eq!(lexer.next().unwrap(), Lexeme::Qoutes);
    assert_eq!(lexer.next().unwrap(), Lexeme::Str("float"));
    assert_eq!(lexer.next().unwrap(), Lexeme::Str("vscale"));
    assert_eq!(lexer.next().unwrap(), Lexeme::Qoutes);
    assert_eq!(lexer.next().unwrap(), Lexeme::OpenBracket);
    assert_eq!(lexer.next().unwrap(), Lexeme::Num("16"));
    assert_eq!(lexer.next().unwrap(), Lexeme::CloseBracket);

    assert_eq!(lexer.next().unwrap(), Lexeme::Qoutes);
    assert_eq!(lexer.next().unwrap(), Lexeme::Str("rgb"));
    assert_eq!(lexer.next().unwrap(), Lexeme::Str("tex1"));
    assert_eq!(lexer.next().unwrap(), Lexeme::Qoutes);
    assert_eq!(lexer.next().unwrap(), Lexeme::OpenBracket);
    assert_eq!(lexer.next().unwrap(), Lexeme::Num(".1"));
    assert_eq!(lexer.next().unwrap(), Lexeme::Num(".1"));
    assert_eq!(lexer.next().unwrap(), Lexeme::Num(".1"));
    assert_eq!(lexer.next().unwrap(), Lexeme::CloseBracket);
    assert_eq!(lexer.next().unwrap(), Lexeme::Qoutes);
    assert_eq!(lexer.next().unwrap(), Lexeme::Str("rgb"));
    assert_eq!(lexer.next().unwrap(), Lexeme::Str("tex2"));
    assert_eq!(lexer.next().unwrap(), Lexeme::Qoutes);
    assert_eq!(lexer.next().unwrap(), Lexeme::OpenBracket);
    assert_eq!(lexer.next().unwrap(), Lexeme::Num(".8"));
    assert_eq!(lexer.next().unwrap(), Lexeme::Num(".8"));
    assert_eq!(lexer.next().unwrap(), Lexeme::Num(".8"));
    assert_eq!(lexer.next().unwrap(), Lexeme::CloseBracket);
    assert_eq!(lexer.next().unwrap(), Lexeme::Eof);
}

#[test]
fn test_comments() {
    let input = "#
        Camera
        # dsds dsdsdsd s ds sdd s Sampler
        #     
        WorldBegin";

    let mut lexer = Lexer::new(input);

    assert_eq!(lexer.next().unwrap(), Lexeme::Str("Camera"));
    assert_eq!(lexer.next().unwrap(), Lexeme::Str("WorldBegin"));
    assert_eq!(lexer.next().unwrap(), Lexeme::Eof);
}

#[test]
fn test_floats_exp() {
    let input = "4.37114e-8 1 1.91069e-15";
    let mut lexer = Lexer::new(input);
    assert_eq!(lexer.next().unwrap(), Lexeme::Num("4.37114e-8"));
    assert_eq!(lexer.next().unwrap(), Lexeme::Num("1"));
    assert_eq!(lexer.next().unwrap(), Lexeme::Num("1.91069e-15"));
    assert_eq!(lexer.next().unwrap(), Lexeme::Eof);
}

#[test]
fn peek_does_not_consume() {
    let mut lexer = Lexer::new("Shape [ 1 ]");
    assert_eq!(lexer.peek().unwrap(), Lexeme::Str("Shape"));
    assert_eq!(lexer.peek().unwrap(), Lexeme::Str("Shape"));
    assert_eq!(lexer.next().unwrap(), Lexeme::Str("Shape"));
    assert_eq!(lexer.peek().unwrap(), Lexeme::OpenBracket);
    assert_eq!(lexer.next().unwrap(), Lexeme::OpenBracket);
    assert_eq!(lexer.next().unwrap(), Lexeme::Num("1"));
    assert_eq!(lexer.next().unwrap(), Lexeme::CloseBracket);
    assert_eq!(lexer.peek().unwrap(), Lexeme::Eof);
    assert_eq!(lexer.next().unwrap(), Lexeme::Eof);
}

#[test]
fn invalid_character_is_an_error() {
    let mut lexer = Lexer::new("  { x");
    assert_eq!(lexer.next(), Err(LexError::InvalidCharacter(b'{')));
    let mut lexer = Lexer::new("a ]]");
    assert_eq!(lexer.next().unwrap(), Lexeme::Str("a"));
    assert_eq!(lexer.peek().unwrap(), Lexeme::CloseBracket);
    let mut lexer = Lexer::new("*");
    assert_eq!(lexer.peek(), Err(LexError::InvalidCharacter(b'*')));
}

#[test]
fn empty_and_comment_only_input() {
    let mut lexer = Lexer::new("");
    assert_eq!(lexer.next().unwrap(), Lexeme::Eof);
    assert_eq!(lexer.next().unwrap(), Lexeme::Eof);
    let mut lexer = Lexer::new("   # trailing comment without newline");
    assert_eq!(lexer.next().unwrap(), Lexeme::Eof);
}

#[test]
fn words_stop_at_quotes_and_keep_non_ascii() {
    let mut lexer = Lexer::new("\"café\"-2.5e3x");
    assert_eq!(lexer.next().unwrap(), Lexeme::Qoutes);
    assert_eq!(lexer.next().unwrap(), Lexeme::Str("café"));
    assert_eq!(lexer.next().unwrap(), Lexeme::Qoutes);
    assert_eq!(lexer.next().unwrap(), Lexeme::Num("-2.5e3"));
    assert_eq!(lexer.next().unwrap(), Lexeme::Str("x"));
    assert_eq!(lexer.next().unwrap(), Lexeme::Eof);
}

#[test]
fn unwrap_accessors() {
    assert_eq!(Lexeme::Str("Camera").unwrap_str(), "Camera");
    assert_eq!(Lexeme::Num("4.5").unwrap_num(), "4.5");
}
