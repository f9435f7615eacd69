use postcss_value_parser::unit::{start_a_number, unit, Dimension};

#[test]
fn unit_fails_exactly_when_the_text_does_not_start_a_number() {
  for value in [
    "", "+", "-", ".", "+.", "-.", "a", "+a", ".a", "+.a", "e1", "px", "+-1", "--1", "..1", " 1",
    "0", "+0", "-0", ".0", "+.0", "-.0", "12px", "1.", "1e", "1.5e3x", "+1e+1", "9\u{e9}",
  ] {
    assert_eq!(unit(value).is_none(), !start_a_number(value), "for {:?}", value);
  }
  assert!(!start_a_number(""));
  assert!(!start_a_number("+"));
  assert!(!start_a_number("+."));
  assert!(!start_a_number("."));
  assert!(!start_a_number("+-1"));
  assert!(start_a_number("+.1"));
  assert!(start_a_number("-1"));
  assert!(start_a_number(".1"));
  assert!(start_a_number("1"));
}

#[test]
fn number_and_unit_put_together_are_the_text() {
  for value in [
    "0", "+0", "-.5", "12px", "1.", "1e", "1e+", "1e+1", "1.5e3x", "1.1e--++1e", "100.0.0px",
    "1e1e1", "1.e1", ".5.5", "9\u{e9}", "1\u{1f600}e1",
  ] {
    let dimension = unit(value).unwrap();
    let mut text = dimension.number.to_owned();
    text.push_str(dimension.unit);
    assert_eq!(text, value);
  }
}

#[test]
fn fraction_and_exponent_are_taken_once_and_in_this_order() {
  assert_eq!(unit("1.2.3"), Some(Dimension::new("1.2", ".3")));
  assert_eq!(unit("1e2e3"), Some(Dimension::new("1e2", "e3")));
  assert_eq!(unit("1e2.3"), Some(Dimension::new("1e2", ".3")));
  assert_eq!(unit("1.2e3.4e5"), Some(Dimension::new("1.2e3", ".4e5")));
  assert_eq!(unit("1E-2x"), Some(Dimension::new("1E-2", "x")));
  assert_eq!(unit("1E+2"), Some(Dimension::new("1E+2", "")));
  assert_eq!(unit("1.e2"), Some(Dimension::new("1", ".e2")));
  assert_eq!(unit("+.5e-10em"), Some(Dimension::new("+.5e-10", "em")));
}

#[test]
fn number_may_be_a_sign_and_a_fraction_alone() {
  assert_eq!(unit("-.5"), Some(Dimension::new("-.5", "")));
  assert_eq!(unit(".5"), Some(Dimension::new(".5", "")));
  assert_eq!(unit("+.5px"), Some(Dimension::new("+.5", "px")));
}

#[test]
fn unit_may_hold_text_beyond_ascii() {
  assert_eq!(unit("9\u{e9}"), Some(Dimension::new("9", "\u{e9}")));
  assert_eq!(unit("1.5\u{1f600}"), Some(Dimension::new("1.5", "\u{1f600}")));
  assert_eq!(unit("\u{e9}9"), None);
}

#[test]
fn dimension_new_keeps_its_arguments() {
  let dimension = Dimension::new("12", "px");
  assert_eq!(dimension.number, "12");
  assert_eq!(dimension.unit, "px");
  assert_eq!(dimension.clone(), dimension);
}
