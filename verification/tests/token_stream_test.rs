use postcss_value_parser::syntax::Lexer;
use postcss_value_parser::tokenizer::{
  char_code_at, get_str, get_token_type, index_of_byte, index_of_end_comment, index_of_word_end,
  sub_str, unicode_range, Token, TokenType, Tokenizer,
};

fn tokens_of(value: &str) -> Vec<Token> {
  let mut tokenizer = Tokenizer::new(value);
  let mut tokens = vec![];
  while !tokenizer.end_of_file() {
    tokens.push(tokenizer.next_token());
  }
  tokens
}

const SAMPLES: [&str; 24] = [
  "",
  " ",
  "a",
  "10px solid red",
  "rgba( 29, 439 , 29 )",
  "url( /gfx/img/bg.jpg )",
  "calc(1px + 2px)",
  "/*before*/ 1px /*between*/ 1px /*after*/",
  "/* unclosed ",
  "/*/",
  "/*",
  "'unclosed \\' string",
  "\"a\\\\\" b",
  "a\\",
  "\\",
  "*",
  "a*b",
  "((()))",
  ") ) )",
  "U+0025-00FF, U+4??",
  "\u{0}\u{1} \u{0}",
  "h\u{e9}llo w\u{f6}rld",
  "\\\u{e9}(\u{4e2d}\u{6587})",
  "'\u{1f600}' /*\u{1f600}*/ \u{1f600}",
];

#[test]
fn tokens_cover_the_input_without_gap_or_overlap() {
  for value in SAMPLES {
    let tokens = tokens_of(value);
    let mut at = 0;
    let mut text = std::string::String::new();
    for token in &tokens {
      assert_eq!(token.2, at, "in {:?}", value);
      assert!(token.2 < token.3, "in {:?}", value);
      text.push_str(&value[token.2..token.3]);
      at = token.3;
    }
    assert_eq!(at, value.len(), "in {:?}", value);
    assert_eq!(text, value);
  }
}

#[test]
fn content_of_a_token_is_the_input_it_covers() {
  for value in SAMPLES {
    for token in tokens_of(value) {
      if token.0 != TokenType::Comment {
        assert_eq!(token.1, &value[token.2..token.3], "in {:?}", value);
      }
    }
  }
}

#[test]
fn end_of_file_comes_with_the_last_token_and_not_before() {
  for value in SAMPLES {
    let mut tokenizer = Tokenizer::new(value);
    assert_eq!(tokenizer.end_of_file(), value.is_empty());
    while !tokenizer.end_of_file() {
      let token = tokenizer.next_token();
      assert_eq!(tokenizer.end_of_file(), token.3 == value.len(), "in {:?}", value);
    }
  }
}

#[test]
fn every_token_moves_the_cursor_forward() {
  for value in SAMPLES {
    let mut tokenizer = Tokenizer::new(value);
    assert_eq!(tokenizer.position(), 0);
    while !tokenizer.end_of_file() {
      let before = tokenizer.position();
      let token = tokenizer.next_token();
      assert!(tokenizer.position() > before, "in {:?}", value);
      assert_eq!(tokenizer.position(), token.3);
      assert_eq!(token.2, before);
    }
  }
}

#[test]
fn tokenizing_twice_gives_the_same_tokens() {
  for value in SAMPLES {
    assert_eq!(tokens_of(value), tokens_of(value));
  }
}

#[test]
fn lexer_gives_the_tokens_and_then_nothing() {
  let mut lexer = Lexer::new("a b");
  assert_eq!(lexer.next(), Some(Token(TokenType::Word, "a", 0, 1)));
  assert_eq!(lexer.next(), Some(Token(TokenType::Space, " ", 1, 2)));
  assert_eq!(lexer.next(), Some(Token(TokenType::Word, "b", 2, 3)));
  assert_eq!(lexer.next(), None);
  assert_eq!(lexer.next(), None);
  let mut empty = Lexer::new("");
  assert_eq!(empty.next(), None);
}

#[test]
fn nul_starts_white_space_but_does_not_continue_it() {
  assert_eq!(tokens_of("\u{0}"), vec![Token(TokenType::Space, "\u{0}", 0, 1)]);
  assert_eq!(tokens_of("\u{0} \t"), vec![Token(TokenType::Space, "\u{0} \t", 0, 3)]);
  assert_eq!(
    tokens_of(" \u{0}"),
    vec![Token(TokenType::Space, " ", 0, 1), Token(TokenType::Space, "\u{0}", 1, 2)]
  );
  assert_eq!(
    tokens_of("\u{1}\u{20}!"),
    vec![Token(TokenType::Space, "\u{1}\u{20}", 0, 2), Token(TokenType::Word, "!", 2, 3)]
  );
}

#[test]
fn quote_after_an_even_run_of_backslashes_closes_the_string() {
  assert_eq!(
    tokens_of("'a\\\\'b"),
    vec![Token(TokenType::String, "'a\\\\'", 0, 5), Token(TokenType::Word, "b", 5, 6)]
  );
  assert_eq!(tokens_of("'a\\\\\\'b'"), vec![Token(TokenType::String, "'a\\\\\\'b'", 0, 8)]);
  assert_eq!(tokens_of("'\\'"), vec![Token(TokenType::String, "'\\'", 0, 3)]);
  assert_eq!(
    tokens_of("\"a'\"'"),
    vec![Token(TokenType::String, "\"a'\"", 0, 4), Token(TokenType::String, "'", 4, 5)]
  );
}

#[test]
fn comment_ends_after_its_closing_marker() {
  assert_eq!(tokens_of("/**/"), vec![Token(TokenType::Comment, "", 0, 4)]);
  assert_eq!(
    tokens_of("/*a*/b"),
    vec![Token(TokenType::Comment, "a", 0, 5), Token(TokenType::Word, "b", 5, 6)]
  );
  assert_eq!(
    tokens_of("/* * / */*"),
    vec![Token(TokenType::Comment, " * / ", 0, 9), Token(TokenType::Word, "*", 9, 10)]
  );
}

#[test]
fn unclosed_comment_runs_to_the_end_of_the_input() {
  assert_eq!(tokens_of("/*"), vec![Token(TokenType::Comment, "", 0, 2)]);
  assert_eq!(tokens_of("/* a"), vec![Token(TokenType::Comment, " a", 0, 4)]);
  assert_eq!(tokens_of("/* a *"), vec![Token(TokenType::Comment, " a *", 0, 6)]);
}

#[test]
fn closing_marker_may_share_the_star_of_the_opening_one() {
  assert_eq!(tokens_of("/*/"), vec![Token(TokenType::Comment, "", 0, 3)]);
  assert_eq!(
    tokens_of("/*/ a */"),
    vec![
      Token(TokenType::Comment, "", 0, 3),
      Token(TokenType::Space, " ", 3, 4),
      Token(TokenType::Word, "a", 4, 5),
      Token(TokenType::Space, " ", 5, 6),
      Token(TokenType::Word, "*", 6, 7),
      Token(TokenType::Div, "/", 7, 8),
    ]
  );
}

#[test]
fn slash_without_star_is_a_divider() {
  assert_eq!(
    tokens_of("/ *"),
    vec![
      Token(TokenType::Div, "/", 0, 1),
      Token(TokenType::Space, " ", 1, 2),
      Token(TokenType::Word, "*", 2, 3),
    ]
  );
  assert_eq!(
    tokens_of("//"),
    vec![Token(TokenType::Div, "/", 0, 1), Token(TokenType::Div, "/", 1, 2)]
  );
}

#[test]
fn backslash_takes_the_next_byte_into_the_word() {
  assert_eq!(tokens_of("a\\ b"), vec![Token(TokenType::Word, "a\\ b", 0, 4)]);
  assert_eq!(tokens_of("\\\\"), vec![Token(TokenType::Word, "\\\\", 0, 2)]);
  assert_eq!(
    tokens_of("\\\\("),
    vec![Token(TokenType::Word, "\\\\", 0, 2), Token(TokenType::OpenParentheses, "(", 2, 3)]
  );
  assert_eq!(
    tokens_of("\\/*"),
    vec![Token(TokenType::Word, "\\/", 0, 2), Token(TokenType::Word, "*", 2, 3)]
  );
}

#[test]
fn backslash_at_the_end_of_the_input_stands_alone() {
  assert_eq!(tokens_of("\\"), vec![Token(TokenType::Word, "\\", 0, 1)]);
  assert_eq!(tokens_of("a\\"), vec![Token(TokenType::Word, "a\\", 0, 2)]);
  assert_eq!(
    tokens_of(")\\"),
    vec![Token(TokenType::CloseParentheses, ")", 0, 1), Token(TokenType::Word, "\\", 1, 2)]
  );
}

#[test]
fn star_alone_is_a_word_of_one_byte() {
  assert_eq!(tokens_of("*"), vec![Token(TokenType::Word, "*", 0, 1)]);
  assert_eq!(
    tokens_of("**"),
    vec![Token(TokenType::Word, "*", 0, 1), Token(TokenType::Word, "*", 1, 2)]
  );
  assert_eq!(
    tokens_of("a*"),
    vec![Token(TokenType::Word, "a", 0, 1), Token(TokenType::Word, "*", 1, 2)]
  );
}

#[test]
fn tokens_of_text_beyond_ascii() {
  assert_eq!(
    tokens_of("h\u{e9} \u{4e2d}"),
    vec![
      Token(TokenType::Word, "h\u{e9}", 0, 3),
      Token(TokenType::Space, " ", 3, 4),
      Token(TokenType::Word, "\u{4e2d}", 4, 7),
    ]
  );
  assert_eq!(
    tokens_of("\\\u{e9}("),
    vec![
      Token(TokenType::Word, "\\\u{e9}", 0, 3),
      Token(TokenType::OpenParentheses, "(", 3, 4),
    ]
  );
  assert_eq!(
    tokens_of("'\u{1f600}'/*\u{1f600}*/"),
    vec![
      Token(TokenType::String, "'\u{1f600}'", 0, 6),
      Token(TokenType::Comment, "\u{1f600}", 6, 14),
    ]
  );
  assert_eq!(tokens_of("\u{e9}\\"), vec![Token(TokenType::Word, "\u{e9}\\", 0, 3)]);
}

#[test]
fn unicode_range_needs_its_prefix_and_one_more_byte() {
  assert!(unicode_range("U+0"));
  assert!(unicode_range("u+0"));
  assert!(unicode_range("U+-"));
  assert!(unicode_range("u+?"));
  assert!(unicode_range("U+0123456789abcdefABCDEF?-"));
  assert!(!unicode_range(""));
  assert!(!unicode_range("U"));
  assert!(!unicode_range("U+"));
  assert!(!unicode_range("u+g"));
  assert!(!unicode_range("U+G"));
  assert!(!unicode_range("U-0"));
  assert!(!unicode_range("V+0"));
  assert!(!unicode_range("U+0 "));
  assert!(!unicode_range("U++"));
  assert!(!unicode_range("U+0z0"));
  assert!(!unicode_range("U+\u{e9}"));
}

#[test]
fn word_is_a_unicode_range_exactly_when_it_has_the_form_of_one() {
  for value in
    ["U+0", "u+ff", "U+4??", "U+0-7F", "U+", "U+Z", "Uu+0", "u+0g", "+U0", "U+0+", "abc"]
  {
    let tokens = tokens_of(value);
    assert_eq!(tokens.len(), 1, "in {:?}", value);
    let expected = if unicode_range(value) { TokenType::UnicodeRange } else { TokenType::Word };
    assert_eq!(tokens[0], Token(expected, value, 0, value.len()));
  }
  assert_eq!(tokens_of("U+0")[0].0, TokenType::UnicodeRange);
  assert_eq!(tokens_of("U+Z")[0].0, TokenType::Word);
}

#[test]
fn index_of_byte_finds_the_first_from_the_given_index() {
  assert_eq!(index_of_byte("a'b'c'", b'\'', 0), Some(1));
  assert_eq!(index_of_byte("a'b'c'", b'\'', 1), Some(1));
  assert_eq!(index_of_byte("a'b'c'", b'\'', 2), Some(3));
  assert_eq!(index_of_byte("a'b'c'", b'\'', 4), Some(5));
  assert_eq!(index_of_byte("a'b'c'", b'\'', 6), None);
  assert_eq!(index_of_byte("a'b'c'", b'"', 0), None);
  assert_eq!(index_of_byte("", b'a', 0), None);
  assert_eq!(index_of_byte("\u{e9}a", b'a', 0), Some(2));
}

#[test]
fn index_of_end_comment_finds_the_first_from_the_given_index() {
  assert_eq!(index_of_end_comment("/* a */ b */", 0), Some(5));
  assert_eq!(index_of_end_comment("/* a */ b */", 5), Some(5));
  assert_eq!(index_of_end_comment("/* a */ b */", 6), Some(10));
  assert_eq!(index_of_end_comment("/* a */ b */", 11), None);
  assert_eq!(index_of_end_comment("/* a */ b */", 12), None);
  assert_eq!(index_of_end_comment("/* a * /", 0), None);
  assert_eq!(index_of_end_comment("*/", 0), Some(0));
  assert_eq!(index_of_end_comment("*", 0), None);
  assert_eq!(index_of_end_comment("", 0), None);
}

#[test]
fn index_of_word_end_stops_at_the_first_byte_outside_the_word() {
  assert_eq!(index_of_word_end("abc def", 0), 3);
  assert_eq!(index_of_word_end("abc def", 3), 3);
  assert_eq!(index_of_word_end("abc def", 4), 7);
  assert_eq!(index_of_word_end("abc def", 7), 7);
  assert_eq!(index_of_word_end("a\\ b c", 0), 4);
  assert_eq!(index_of_word_end("a\\", 0), 2);
  assert_eq!(index_of_word_end("a'", 0), 1);
  assert_eq!(index_of_word_end("a\"", 0), 1);
  assert_eq!(index_of_word_end("a,", 0), 1);
  assert_eq!(index_of_word_end("a:", 0), 1);
  assert_eq!(index_of_word_end("a/", 0), 1);
  assert_eq!(index_of_word_end("a*", 0), 1);
  assert_eq!(index_of_word_end("a(", 0), 1);
  assert_eq!(index_of_word_end("a)", 0), 1);
  assert_eq!(index_of_word_end("a\u{0}", 0), 1);
  assert_eq!(index_of_word_end("a!#$%&+-.;<=>?@[]^_`{|}~", 0), 24);
}

#[test]
fn char_code_at_gives_zero_from_the_end_on() {
  assert_eq!(char_code_at("", 0), 0);
  assert_eq!(char_code_at("a", 0), b'a');
  assert_eq!(char_code_at("a", 1), 0);
  assert_eq!(char_code_at("\u{e9}", 0), 0xc3);
  assert_eq!(char_code_at("\u{e9}", 1), 0xa9);
  assert_eq!(char_code_at("a", usize::MAX), 0);
}

#[test]
fn sub_str_stops_at_the_end_of_the_text() {
  assert_eq!(sub_str("abc", 0, 3), "abc");
  assert_eq!(sub_str("abc", 0, 4), "abc");
  assert_eq!(sub_str("abc", 3, 3), "");
  assert_eq!(sub_str("abc", 3, usize::MAX), "");
  assert_eq!(sub_str("abc", 1, 2), "b");
  assert_eq!(sub_str("a\u{e9}b", 1, 3), "\u{e9}");
  assert_eq!(sub_str("", 0, 0), "");
}

#[test]
fn single_byte_tokens_have_their_kind_and_text() {
  assert_eq!(get_token_type(b'('), TokenType::OpenParentheses);
  assert_eq!(get_token_type(b')'), TokenType::CloseParentheses);
  assert_eq!(get_token_type(b'/'), TokenType::Div);
  assert_eq!(get_token_type(b','), TokenType::Div);
  assert_eq!(get_token_type(b':'), TokenType::Div);
  assert_eq!(get_str(b'('), "(");
  assert_eq!(get_str(b')'), ")");
  assert_eq!(get_str(b'/'), "/");
  assert_eq!(get_str(b','), ",");
  assert_eq!(get_str(b':'), ":");
}

#[test]
fn token_kinds_have_names() {
  assert_eq!(TokenType::OpenParentheses.to_string(), "(");
  assert_eq!(TokenType::CloseParentheses.to_string(), ")");
  assert_eq!(TokenType::Space.to_string(), "space");
  assert_eq!(TokenType::Word.to_string(), "word");
  assert_eq!(TokenType::String.to_string(), "string");
  assert_eq!(TokenType::Div.to_string(), "div");
  assert_eq!(TokenType::Comment.to_string(), "comment");
  assert_eq!(TokenType::UnicodeRange.to_string(), "unicode-range");
  assert_eq!(TokenType::Unknown.to_string(), "unknown");
}

#[test]
fn token_new_keeps_its_arguments() {
  assert_eq!(Token::new(TokenType::Word, "ab", 3, 5), Token(TokenType::Word, "ab", 3, 5));
}
