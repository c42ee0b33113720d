use zstd_bench::decimal::Decimal;
use zstd_bench::print::Format;
use zstd_bench::text::{
    append_decimal, append_decimal_padded, append_repeated, compare_text, decimal_text, ends_with,
    same_text, starts_with, text_width, Order,
};
use zstd_bench::value::{Pad, Scalar};

fn shown(number: &Decimal) -> String {
    let mut text = String::new();
    number.append_to(&mut text);
    text
}

fn change(from: &Decimal, to: &Decimal) -> String {
    let mut text = String::new();
    from.append_change(to, &mut text);
    text
}

#[test]
fn numerals_are_decimal() {
    assert_eq!(decimal_text(0), "0");
    assert_eq!(decimal_text(7), "7");
    assert_eq!(decimal_text(10), "10");
    assert_eq!(decimal_text(1234567890), "1234567890");
    assert_eq!(decimal_text(u128::MAX), u128::MAX.to_string());
    let mut text = "x".to_string();
    append_decimal(&mut text, 42);
    assert_eq!(text, "x42");
    append_decimal_padded(&mut text, 7, 3);
    assert_eq!(text, "x42007");
    append_decimal_padded(&mut text, 1234, 2);
    assert_eq!(text, "x420071234");
    append_decimal_padded(&mut text, 5, 0);
    assert_eq!(text, "x4200712345");
}

#[test]
fn characters_are_repeated() {
    let mut text = "a".to_string();
    append_repeated(&mut text, "-", 3);
    assert_eq!(text, "a---");
    append_repeated(&mut text, " ", 0);
    assert_eq!(text, "a---");
}

#[test]
fn texts_are_ordered_by_their_bytes() {
    assert_eq!(compare_text("a", "b"), Order::Less);
    assert_eq!(compare_text("b", "a"), Order::Greater);
    assert_eq!(compare_text("abc", "abc"), Order::Equal);
    assert_eq!(compare_text("ab", "abc"), Order::Less);
    assert_eq!(compare_text("abc", "ab"), Order::Greater);
    assert_eq!(compare_text("", ""), Order::Equal);
    assert_eq!(compare_text("", "a"), Order::Less);
    assert_eq!(compare_text("Z", "a"), Order::Less);
    assert_eq!(compare_text("z", "é"), Order::Less);
    assert!(same_text("dev", "dev"));
    assert!(!same_text("dev", "dev1"));
    assert!(!same_text("dev", "deu"));
}

#[test]
fn texts_begin_and_end() {
    assert!(starts_with("duration_ns_max", "duration_ns"));
    assert!(starts_with("duration_ns", "duration_ns"));
    assert!(starts_with("anything", ""));
    assert!(!starts_with("duration", "duration_ns"));
    assert!(!starts_with("xduration_ns", "duration_ns"));
    assert!(ends_with("compressed_bytes", "bytes"));
    assert!(ends_with("bytes", "bytes"));
    assert!(ends_with("anything", ""));
    assert!(!ends_with("ytes", "bytes"));
    assert!(!ends_with("bytes_", "bytes"));
}

#[test]
fn the_width_of_a_text_is_the_number_of_its_bytes() {
    assert_eq!(text_width(""), 0);
    assert_eq!(text_width("abc"), 3);
    assert_eq!(text_width("é"), 2);
}

#[test]
fn quotients_are_shown_with_two_places() {
    assert_eq!(shown(&Decimal::ratio(1, 1)), "1.00");
    assert_eq!(shown(&Decimal::ratio(5, 2)), "2.50");
    assert_eq!(shown(&Decimal::ratio(1, 3)), "0.33");
    assert_eq!(shown(&Decimal::ratio(2, 3)), "0.67");
    assert_eq!(shown(&Decimal::ratio(1, 8)), "0.13");
    assert_eq!(shown(&Decimal::ratio(1, 200)), "0.01");
    assert_eq!(shown(&Decimal::ratio(1, 201)), "0.00");
    assert_eq!(shown(&Decimal::ratio(0, 5)), "0.00");
    assert_eq!(shown(&Decimal::ratio(999, 1000)), "1.00");
    assert_eq!(shown(&Decimal::ratio(123456, 100)), "1234.56");
    assert_eq!(shown(&Decimal::ratio(1000 * u64::MAX as u128, 1)), "18446744073709551615000.00");
    assert_eq!(shown(&Decimal::ratio(3, 0)), "inf");
    assert_eq!(shown(&Decimal::ratio(0, 0)), "NaN");
    assert_eq!(shown(&Decimal::from_count(17)), "17.00");
}

#[test]
fn quotients_are_ordered_by_their_size() {
    let half = Decimal::ratio(1, 2);
    let third = Decimal::ratio(1, 3);
    let infinite = Decimal::ratio(1, 0);
    let undefined = Decimal::ratio(0, 0);
    assert_eq!(third.order(&half), Some(Order::Less));
    assert_eq!(half.order(&third), Some(Order::Greater));
    assert_eq!(half.order(&Decimal::ratio(2, 4)), Some(Order::Equal));
    assert_eq!(half.order(&infinite), Some(Order::Less));
    assert_eq!(infinite.order(&half), Some(Order::Greater));
    assert_eq!(infinite.order(&infinite), Some(Order::Equal));
    assert_eq!(undefined.order(&half), None);
    assert_eq!(half.order(&undefined), None);
    assert_eq!(undefined.order(&undefined), None);
    assert!(half.same(&Decimal::ratio(3, 6)));
    assert!(!half.same(&third));
    assert!(infinite.same(&infinite));
    assert!(!undefined.same(&undefined));
    assert!(!infinite.same(&half));
}

#[test]
fn changes_are_shares_of_the_first_number() {
    let count = Decimal::from_count;
    assert_eq!(change(&count(100), &count(80)), "-20.0%");
    assert_eq!(change(&count(80), &count(100)), "25.0%");
    assert_eq!(change(&count(100), &count(100)), "0.0%");
    assert_eq!(change(&count(3), &count(4)), "33.3%");
    assert_eq!(change(&count(3), &count(5)), "66.7%");
    assert_eq!(change(&count(1), &count(1000)), "99900.0%");
    assert_eq!(change(&count(2000), &count(2001)), "0.1%");
    assert_eq!(change(&count(2001), &count(2002)), "0.0%");
    assert_eq!(change(&count(0), &count(5)), "inf%");
    assert_eq!(change(&count(0), &count(0)), "NaN%");
    assert_eq!(change(&count(u64::MAX), &count(0)), "-100.0%");
    assert_eq!(change(&count(5), &Decimal::ratio(1, 0)), "inf%");
    assert_eq!(change(&Decimal::ratio(1, 0), &count(5)), "NaN%");
    assert_eq!(change(&Decimal::ratio(0, 0), &count(5)), "NaN%");
    assert_eq!(change(&count(5), &Decimal::ratio(0, 0)), "NaN%");
    assert_eq!(change(&Decimal::ratio(5, 2), &Decimal::ratio(2, 1)), "-20.0%");
}

#[test]
fn values_have_a_kind() {
    let text = Scalar::Text("b".to_string());
    let count = Scalar::Integer(3);
    let quotient = Scalar::Decimal(Decimal::ratio(1, 2));
    let missing = Scalar::Missing;
    assert_eq!(text.display(), "b");
    assert_eq!(count.display(), "3");
    assert_eq!(quotient.display(), "0.50");
    assert_eq!(missing.display(), "N/A");
    assert_eq!(text.pad(), Pad::Right);
    assert_eq!(count.pad(), Pad::Left);
    assert_eq!(quotient.pad(), Pad::Left);
    assert_eq!(missing.pad(), Pad::Right);
    assert!(!text.is_numeric());
    assert!(count.is_numeric());
    assert!(quotient.is_numeric());
    assert!(!missing.is_numeric());
    assert_eq!(text.order(&count), Some(Order::Less));
    assert_eq!(count.order(&quotient), Some(Order::Less));
    assert_eq!(quotient.order(&missing), Some(Order::Less));
    assert_eq!(missing.order(&text), Some(Order::Greater));
    assert_eq!(missing.order(&missing), Some(Order::Equal));
    assert_eq!(text.order(&Scalar::Text("a".to_string())), Some(Order::Greater));
    assert_eq!(count.order(&Scalar::Integer(3)), Some(Order::Equal));
    assert_eq!(count.order(&Scalar::Integer(4)), Some(Order::Less));
    assert!(text == Scalar::Text("b".to_string()));
    assert!(text != Scalar::Text("c".to_string()));
    assert!(count == Scalar::Integer(3));
    assert!(count != quotient);
    assert!(missing == Scalar::Missing);
    assert!(Scalar::Decimal(Decimal::ratio(0, 0)) != Scalar::Decimal(Decimal::ratio(0, 0)));
    assert!(text.duplicate() == text);
    assert_eq!(count.diff(&Scalar::Integer(6)).as_deref(), Some("100.0%"));
    assert_eq!(quotient.diff(&Scalar::Decimal(Decimal::ratio(1, 4))).as_deref(), Some("-50.0%"));
    assert_eq!(count.diff(&quotient), None);
    assert_eq!(text.diff(&text), None);
    assert_eq!(missing.diff(&count), None);
    assert_eq!(Scalar::from_count(None).display(), "N/A");
    assert_eq!(Scalar::from_count(Some(2)).display(), "2");
    assert_eq!(Scalar::from_text(None).display(), "N/A");
    assert_eq!(Scalar::from_text(Some("x".to_string())).display(), "x");
}

#[test]
fn padding_is_split_between_the_sides() {
    assert_eq!(Pad::Left.padding(5), (5, 0));
    assert_eq!(Pad::Right.padding(5), (0, 5));
    assert_eq!(Pad::Middle.padding(5), (2, 3));
    assert_eq!(Pad::Middle.padding(4), (2, 2));
    assert_eq!(Pad::Middle.padding(0), (0, 0));
}

#[test]
fn values_are_padded_to_the_width_of_the_column() {
    let mut line = String::new();
    Format::Pretty.add_value(false, Pad::Left, 5, "ab", &mut line);
    assert_eq!(line, "   ab ");
    Format::Markdown.add_value(false, Pad::Right, 5, "ab", &mut line);
    assert_eq!(line, "   ab ab    | ");
    Format::PrettyCsv.add_value(true, Pad::Middle, 5, "ab", &mut line);
    assert_eq!(line, "   ab ab    |  ab  ");
    let mut line = String::new();
    Format::Csv.add_value(false, Pad::Left, 5, "ab", &mut line);
    Format::Tsv.add_value(true, Pad::Left, 5, "cd", &mut line);
    assert_eq!(line, "ab,cd");
}

#[test]
fn the_parts_of_a_line() {
    let mut line = String::new();
    Format::Markdown.add_line_start(false, &mut line);
    Format::Markdown.add_separater(&mut line);
    Format::Markdown.add_line_end(false, &mut line);
    assert_eq!(line, "|  |  |");
    let mut line = String::new();
    Format::Markdown.add_line_start(true, &mut line);
    Format::Markdown.add_sub_header_value(false, 3, &mut line);
    Format::Markdown.add_sub_header_value(true, 2, &mut line);
    Format::Markdown.add_line_end(true, &mut line);
    assert_eq!(line, "|-----|----|");
    let mut line = String::new();
    Format::Pretty.add_line_start(true, &mut line);
    Format::Pretty.add_sub_header_value(false, 3, &mut line);
    Format::Pretty.add_sub_header_separater(&mut line);
    Format::Pretty.add_padding(2, &mut line);
    Format::Pretty.add_line_end(true, &mut line);
    assert_eq!(line, "---    ");
    let mut line = String::new();
    Format::Csv.add_sub_header_value(false, 3, &mut line);
    Format::Csv.add_padding(2, &mut line);
    Format::PrettyTsv.add_separater(&mut line);
    assert_eq!(line, "\t");
    assert!(Format::Markdown.has_sub_header());
    assert!(Format::Pretty.has_sub_header());
    assert!(!Format::PrettyCsv.has_sub_header());
    assert_eq!(Format::Markdown.header_lines(), 2);
    assert_eq!(Format::Tsv.header_lines(), 1);
}

#[test]
fn lines_behind_the_last_value_stay_as_they_are() {
    let mut lines =
        vec![String::new(), String::new(), String::new(), "total".to_string(), String::new()];
    let values = vec!["12345".to_string()];
    Format::Pretty.add_values(false, "Id", Pad::Left, &values, &mut lines);
    assert_eq!(lines, vec![" Id   ", "----- ", "12345 ", "total", ""]);
    let mut lines = vec!["a,".to_string(), "b,".to_string(), "c,".to_string()];
    let values = vec!["1".to_string()];
    Format::Csv.add_values(true, "Id", Pad::Left, &values, &mut lines);
    assert_eq!(lines, vec!["a,Id", "b,1", "c,"]);
    let none: Vec<String> = Vec::new();
    Format::Csv.add_values(true, "No", Pad::Left, &none, &mut lines);
    assert_eq!(lines, vec!["a,IdNo", "b,1", "c,"]);
}

#[test]
fn a_column_is_as_wide_as_its_widest_value() {
    let mut lines = vec![String::new(), String::new(), String::new(), String::new()];
    let values = vec!["1".to_string(), "12345".to_string()];
    Format::Pretty.add_values(false, "Id", Pad::Left, &values, &mut lines);
    assert_eq!(lines, vec![" Id   ", "----- ", "    1 ", "12345 "]);
    let values = vec!["a".to_string(), "b".to_string()];
    Format::Pretty.add_values(true, "Name", Pad::Right, &values, &mut lines);
    assert_eq!(lines, vec![" Id   Name", "----- ----", "    1 a   ", "12345 b   "]);
}
