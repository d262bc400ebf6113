use rowan_tools::lexer::{self, Consumed, Error, State, Token};

#[derive(Debug, Clone, Copy, PartialEq, Eq)]
enum TokenKind {
    Error,
    Whitespace,
    Add,
    Float,
    Integer,
}

impl From<Error> for TokenKind {
    fn from(_error: Error) -> Self {
        Self::Error
    }
}

fn lex(remaining: &str) -> Option<(TokenKind, u32)> {
    lexer::wrap(State::new(remaining), |state| match state.peek().unwrap() {
        c if c.is_whitespace() => {
            state.take_while(char::is_whitespace);
            Ok(TokenKind::Whitespace)
        },
        c if c == '.' || c.is_ascii_digit() => {
            state.take_while(|c| c.is_ascii_digit());
            if state.take(".").any() {
                state.take_while(|c| c.is_ascii_digit()).at_least(1)?;
                Ok(TokenKind::Float)
            } else {
                Ok(TokenKind::Integer)
            }
        },
        '+' => {
            state.bump();
            Ok(TokenKind::Add)
        },
        _ => {
            state.bump();
            Err(Error::UnexpectedInput)
        },
    })
}

fn lex_all(input: &str) -> Vec<(TokenKind, u32)> {
    let mut tokens = lexer::into_iter(input, lex);
    let mut out = Vec::new();
    while let Some(token) = tokens.next() {
        out.push(token);
    }
    out
}

fn tokenize(input: &str) -> Vec<(TokenKind, &str)> {
    lexer::string_slices(input, lex_all(input))
}

#[test]
fn end_to_end_math() {
    let tokens = tokenize("1 + 2.3 + 4. + .5");
    let expected = vec![
        (TokenKind::Integer, "1"),
        (TokenKind::Whitespace, " "),
        (TokenKind::Add, "+"),
        (TokenKind::Whitespace, " "),
        (TokenKind::Float, "2.3"),
        (TokenKind::Whitespace, " "),
        (TokenKind::Add, "+"),
        (TokenKind::Whitespace, " "),
        (TokenKind::Error, "4."),
        (TokenKind::Whitespace, " "),
        (TokenKind::Add, "+"),
        (TokenKind::Whitespace, " "),
        (TokenKind::Float, ".5"),
    ];
    assert_eq!(tokens, expected);
}

#[test]
fn end_to_end_lengths() {
    let lens: Vec<u32> = lex_all("1 + 2.3").iter().map(|t| t.len()).collect();
    assert_eq!(lens, vec![1, 1, 1, 1, 3]);
}

#[test]
fn empty_input_yields_nothing() {
    let mut tokens = lexer::into_iter("", lex);
    assert!(tokens.next().is_none());
    assert!(tokenize("").is_empty());
}

#[test]
fn wrap_on_empty_input_is_none() {
    let out = lexer::wrap(State::new(""), |state| {
        state.bump();
        Ok::<TokenKind, Error>(TokenKind::Add)
    });
    assert_eq!(out, None);
}

#[test]
fn wrap_attaches_consumed_bytes() {
    let out = lexer::wrap(State::new("été!"), |state| {
        state.take_while(|c| c != '!');
        Ok::<TokenKind, Error>(TokenKind::Integer)
    });
    assert_eq!(out, Some((TokenKind::Integer, 5)));
}

#[test]
fn wrap_turns_errors_into_tokens() {
    let out = lexer::wrap(State::new("ab"), |state| {
        state.bump();
        Err::<TokenKind, Error>(Error::UnexpectedEOF)
    });
    assert_eq!(out, Some((TokenKind::Error, 1)));
}

#[test]
fn lossless_reconstruction() {
    let input = "12 +x+ 3.4.5 é  + ..";
    let joined: String = tokenize(input).iter().map(|t| t.1).collect();
    assert_eq!(joined, input);
}

#[test]
fn token_count_bounded_by_chars() {
    let input = "a+b + 1.2 ü";
    let tokens = lex_all(input);
    assert!(tokens.len() <= input.chars().count());
    assert!(tokens.iter().all(|t| t.1 > 0));
}

#[test]
fn unknown_characters_become_single_error_tokens() {
    let tokens = tokenize("xé");
    assert_eq!(tokens, vec![(TokenKind::Error, "x"), (TokenKind::Error, "é")]);
}

#[test]
fn take_literal_match() {
    let mut state = State::new("abcdef");
    let consumed = state.take("abc");
    assert!(consumed.any());
    assert_eq!(consumed.chars(), 3);
    assert_eq!(consumed.bytes(), 3);
    assert_eq!(state.remaining(), "def");
}

#[test]
fn take_literal_mismatch() {
    let mut state = State::new("xyz");
    let consumed = state.take("abc");
    assert!(!consumed.any());
    assert_eq!(consumed.chars(), 0);
    assert_eq!(consumed.bytes(), 0);
    assert_eq!(state.remaining(), "xyz");
}

#[test]
fn take_literal_longer_than_input() {
    let mut state = State::new("ab");
    assert!(!state.take("abc").any());
    assert_eq!(state.remaining(), "ab");
}

#[test]
fn take_multibyte_literal_counts_bytes() {
    let mut state = State::new("héllo");
    let consumed = state.take("hé");
    assert_eq!(consumed.chars(), 2);
    assert_eq!(consumed.bytes(), 3);
    assert_eq!(state.remaining(), "llo");
}

#[test]
fn take_empty_literal() {
    let mut state = State::new("abc");
    let consumed = state.take("");
    assert!(!consumed.any());
    assert_eq!(state.remaining(), "abc");
}

#[test]
fn take_while_stops_at_first_failure() {
    let mut state = State::new("ääb");
    let consumed = state.take_while(|c| c == 'ä');
    assert_eq!(consumed.chars(), 2);
    assert_eq!(consumed.bytes(), 4);
    assert_eq!(state.remaining(), "b");
}

#[test]
fn take_while_may_consume_nothing() {
    let mut state = State::new("abc");
    let consumed = state.take_while(|c| c.is_ascii_digit());
    assert_eq!(consumed.chars(), 0);
    assert!(!consumed.any());
    assert_eq!(state.remaining(), "abc");
}

#[test]
fn take_while_to_end() {
    let mut state = State::new("123");
    let consumed = state.take_while(|c| c.is_ascii_digit());
    assert_eq!(consumed.chars(), 3);
    assert_eq!(state.remaining(), "");
}

#[test]
fn peek_and_bump() {
    let mut state = State::new("€x");
    assert_eq!(state.peek(), Ok('€'));
    let start = state;
    state.bump();
    assert_eq!(state.peek(), Ok('x'));
    assert_eq!(state.sub(start), 3);
    state.bump();
    assert_eq!(state.peek(), Err(Error::UnexpectedEOF));
    assert_eq!(state.sub(start), 4);
}

#[test]
fn peek_does_not_advance() {
    let state = State::new("ab");
    assert_eq!(state.peek(), Ok('a'));
    assert_eq!(state.peek(), Ok('a'));
    assert_eq!(state.remaining(), "ab");
}

#[test]
fn consume_bytes() {
    let mut state = State::new("añb");
    state.consume(3);
    assert_eq!(state.remaining(), "b");
    state.consume(0);
    assert_eq!(state.remaining(), "b");
}

#[test]
fn sub_of_same_state_is_zero() {
    let state = State::new("abc");
    assert_eq!(state.sub(state), 0);
}

#[test]
fn consumed_zero() {
    let zero = Consumed::zero();
    assert_eq!(zero.chars(), 0);
    assert_eq!(zero.bytes(), 0);
    assert!(!zero.any());
}

#[test]
fn at_least_bounds() {
    let mut state = State::new("aaa");
    let consumed = state.take_while(|c| c == 'a');
    assert_eq!(consumed.at_least(3).map(|c| c.chars()), Ok(3));
    assert_eq!(consumed.at_least(0).map(|c| c.chars()), Ok(3));
    assert_eq!(consumed.at_least(4).map(|c| c.chars()), Err(Error::UnexpectedInput));
    assert_eq!(consumed.chars(), 3);
}

#[test]
fn at_most_bounds() {
    let mut state = State::new("aaa");
    let consumed = state.take_while(|c| c == 'a');
    assert_eq!(consumed.at_most(3).map(|c| c.bytes()), Ok(3));
    assert_eq!(consumed.at_most(10).map(|c| c.bytes()), Ok(3));
    assert_eq!(consumed.at_most(2).map(|c| c.bytes()), Err(Error::UnexpectedInput));
    assert_eq!(consumed.bytes(), 3);
}

#[test]
fn string_slices_cuts_runs() {
    let slices = lexer::string_slices("añbc", vec![('x', 3), ('y', 0), ('z', 2)]);
    assert_eq!(slices, vec![('x', "añ"), ('y', ""), ('z', "bc")]);
}

#[test]
fn string_slices_of_nothing() {
    let slices = lexer::string_slices::<char>("abc", Vec::new());
    assert!(slices.is_empty());
}

#[test]
fn default_state_is_empty() {
    let state = State::default();
    assert_eq!(state.remaining(), "");
    assert_eq!(state.peek(), Err(Error::UnexpectedEOF));
}

#[test]
fn take_while_counts_all_chars_and_widths() {
    let mut state = State::new("aé€");
    let consumed = state.take_while(|_| true);
    assert_eq!(consumed.chars(), 3);
    assert_eq!(consumed.bytes(), 6);
    assert_eq!(state.remaining(), "");
}

#[test]
fn digit_run_meets_lower_bound() {
    let mut digits = State::new("123");
    let run = digits.take_while(|c| c.is_ascii_digit());
    let checked = run.at_least(3).unwrap();
    assert_eq!((checked.chars(), checked.bytes()), (3, 3));
    let mut letters = State::new("abc");
    let none = letters.take_while(|c| c.is_ascii_digit());
    assert_eq!(none.at_least(1).map(|c| c.chars()), Err(Error::UnexpectedInput));
}

#[test]
fn sub_matches_drop_in_remaining_bytes() {
    let mut state = State::new("añ€z");
    let start = state;
    let consumed = state.take_while(|c| c != 'z');
    assert_eq!(
        state.sub(start) as usize,
        start.remaining().len() - state.remaining().len()
    );
    assert_eq!(consumed.bytes(), state.sub(start));
}

#[test]
fn wrap_float_at_end_of_input() {
    assert_eq!(lex(".5"), Some((TokenKind::Float, 2)));
    assert_eq!(lex("2.3 + 4. + .5"), Some((TokenKind::Float, 3)));
}
