use osm_ingest::span::Span;
use osm_ingest::text::chars_of;
use osm_ingest::text::find;
use osm_ingest::text::is_decimal_text;
use osm_ingest::text::lower;
use osm_ingest::text::parse_i32;
use osm_ingest::text::parse_i64;
use osm_ingest::text::same_bytes;
use osm_ingest::text::same_text;
use osm_ingest::text::skip_digits;
use osm_ingest::text::split_spans;

fn chars(text: &str) -> Vec<char> {
    text.chars().collect()
}

fn pieces(text: &str, d: char, limit: Option<usize>) -> Vec<String> {
    let all = chars(text);
    split_spans(&all, d, limit).iter().map(|s: &Span| all[s.start..s.end].iter().collect()).collect()
}

#[test]
fn integers_are_read() {
    assert_eq!(parse_i64(&chars("0")), Some(0));
    assert_eq!(parse_i64(&chars("42")), Some(42));
    assert_eq!(parse_i64(&chars("-42")), Some(-42));
    assert_eq!(parse_i64(&chars("+42")), Some(42));
    assert_eq!(parse_i64(&chars("-0")), Some(0));
    assert_eq!(parse_i64(&chars("0007")), Some(7));
    assert_eq!(parse_i64(&chars("9223372036854775807")), Some(i64::MAX));
    assert_eq!(parse_i64(&chars("-9223372036854775808")), Some(i64::MIN));
    assert_eq!(parse_i64(&chars("00000000000000000000000000000000000001")), Some(1));
}

#[test]
fn what_is_no_integer_is_refused() {
    for text in ["", "-", "+", "--1", "1-", " 1", "1 ", "1_000", "1.0", "0x10", "٣", "9223372036854775808", "-9223372036854775809", "99999999999999999999999999999999999999999"] {
        assert_eq!(parse_i64(&chars(text)), None, "{}", text);
        assert_eq!(parse_i64(&chars(text)), text.parse::<i64>().ok(), "{}", text);
    }
}

#[test]
fn integers_are_read_as_the_standard_library_reads_them() {
    for text in ["0", "12", "-12", "+12", "-0", "+0", "007", "2147483647", "2147483648", "-2147483648", "-2147483649", "a", "1a"] {
        assert_eq!(parse_i64(&chars(text)), text.parse::<i64>().ok(), "{}", text);
        assert_eq!(parse_i32(&chars(text)), text.parse::<i32>().ok(), "{}", text);
    }
}

#[test]
fn thirty_two_bit_integers_have_their_own_range() {
    assert_eq!(parse_i32(&chars("2147483647")), Some(i32::MAX));
    assert_eq!(parse_i32(&chars("-2147483648")), Some(i32::MIN));
    assert_eq!(parse_i32(&chars("2147483648")), None);
    assert_eq!(parse_i32(&chars("-2147483649")), None);
}

#[test]
fn decimal_numbers_are_recognised() {
    for text in ["0", "1", "-1", "+1", "1.5", "1.", ".5", "-.5", "1e5", "1E5", "1e+5", "1e-5", "1.5e10", ".5e1", "5.e1", "inf", "-inf", "+Infinity", "NaN", "nan", "iNf", "55.6761", "-0.0"] {
        assert!(is_decimal_text(&chars(text)), "{}", text);
        assert!(text.parse::<f64>().is_ok(), "{}", text);
    }
}

#[test]
fn what_is_no_decimal_number_is_refused() {
    for text in ["", ".", "-", "+", "e5", ".e5", "1e", "1e+", "1e5.0", "1..5", "1.5.5", " 1", "1 ", "north", "in", "infinit", "nan1", "--1", "1,5", "0x1p3", "1_0", "١"] {
        assert!(!is_decimal_text(&chars(text)), "{}", text);
        assert!(text.parse::<f64>().is_err(), "{}", text);
    }
}

#[test]
fn split_gives_every_piece() {
    assert_eq!(pieces("a,b,c", ',', None), vec!["a", "b", "c"]);
    assert_eq!(pieces("", ',', None), vec![""]);
    assert_eq!(pieces(",", ',', None), vec!["", ""]);
    assert_eq!(pieces("a,", ',', None), vec!["a", ""]);
    assert_eq!(pieces(",a", ',', None), vec!["", "a"]);
    assert_eq!(pieces("abc", ',', None), vec!["abc"]);
    let expected: Vec<&str> = "x,,y,".split(',').collect();
    assert_eq!(pieces("x,,y,", ',', None), expected);
}

#[test]
fn split_with_a_limit_leaves_the_rest_in_the_last_piece() {
    assert_eq!(pieces("a:b:c", ':', Some(2)), vec!["a", "b:c"]);
    assert_eq!(pieces("a:b:c", ':', Some(3)), vec!["a", "b", "c"]);
    assert_eq!(pieces("a:b:c", ':', Some(9)), vec!["a", "b", "c"]);
    assert_eq!(pieces("a:b:c", ':', Some(1)), vec!["a:b:c"]);
    assert_eq!(pieces("a:b:c", ':', Some(0)), Vec::<String>::new());
    assert_eq!(pieces("", ':', Some(2)), vec![""]);
    let expected: Vec<&str> = "1::3:4:5:6:7".splitn(6, ':').collect();
    assert_eq!(pieces("1::3:4:5:6:7", ':', Some(6)), expected);
}

#[test]
fn find_gives_the_first_place() {
    let text = chars("a:b:c");
    assert_eq!(find(&text, ':', 0), 1);
    assert_eq!(find(&text, ':', 1), 1);
    assert_eq!(find(&text, ':', 2), 3);
    assert_eq!(find(&text, ':', 4), 5);
    assert_eq!(find(&text, ':', 5), 5);
    assert_eq!(find(&text, 'z', 0), 5);
}

#[test]
fn skip_digits_stops_at_the_first_other_character() {
    let text = chars("123a45");
    assert_eq!(skip_digits(&text, 0), 3);
    assert_eq!(skip_digits(&text, 3), 3);
    assert_eq!(skip_digits(&text, 4), 6);
    assert_eq!(skip_digits(&text, 6), 6);
}

#[test]
fn texts_are_compared_by_their_characters() {
    assert!(same_text("node", "node"));
    assert!(!same_text("node", "nodes"));
    assert!(!same_text("node", "nodE"));
    assert!(same_text("", ""));
    assert!(same_text("é", "é"));
    assert!(same_bytes(b"ab", b"ab"));
    assert!(!same_bytes(b"ab", b"ac"));
    assert!(!same_bytes(b"ab", b"a"));
}

#[test]
fn chars_of_gives_each_character() {
    assert_eq!(chars_of("aé€😀"), vec!['a', 'é', '€', '😀']);
    assert_eq!(chars_of(""), Vec::<char>::new());
}

#[test]
fn lower_changes_only_capital_letters() {
    assert_eq!(lower('A'), 'a');
    assert_eq!(lower('Z'), 'z');
    assert_eq!(lower('a'), 'a');
    assert_eq!(lower('5'), '5');
    assert_eq!(lower('É'), 'É');
    assert_eq!(lower('@'), '@');
    assert_eq!(lower('['), '[');
}
