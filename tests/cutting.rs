use ncut::cutter::{read_and_output, mask_for_line, text_lines, Cutter, FieldSpecification};
use ncut::header::make_viewfield_str;
use ncut::mask::{set_viewfield, parse_token};
use ncut::project::project;
use ncut::text::{chars_of, parse_number_in, split_fields};
use ncut::CutError;

fn by_number(s: &str) -> FieldSpecification {
    FieldSpecification::ByFieldNumber(s.to_string())
}

fn by_name(s: &str) -> FieldSpecification {
    FieldSpecification::ByFieldName(s.to_string())
}

fn by_chars(s: &str) -> FieldSpecification {
    FieldSpecification::ByCharCount(s.to_string())
}

fn strings(v: &[&str]) -> Vec<String> {
    v.iter().map(|s| s.to_string()).collect()
}

#[test]
fn full_listing_keeps_every_field() {
    assert_eq!(set_viewfield(4, "1,2,3,4"), Ok(vec![true; 4]));
    let mask = set_viewfield(4, "1,2,3,4").unwrap();
    assert_eq!(project("w,x,y,z", ",", &mask), Ok("w,x,y,z".to_string()));
    assert_eq!(read_and_output("a b c\nd e f\n", " ", by_number("1,2,3")), Ok("a b c\nd e f\n".to_string()));
}

#[test]
fn single_field_line_is_always_kept() {
    assert_eq!(set_viewfield(1, "5"), Ok(vec![true]));
    assert_eq!(set_viewfield(1, "x"), Ok(vec![true]));
    assert_eq!(read_and_output("whole\n", ",", by_number("5")), Ok("whole\n".to_string()));
}

#[test]
fn range_end_is_clamped() {
    let expected = vec![false, true, true, true, true, true, true, true];
    assert_eq!(set_viewfield(8, "2-10"), Ok(expected.clone()));
    assert_eq!(set_viewfield(8, "2-8"), Ok(expected));
}

#[test]
fn range_start_beyond_fields_marks_last() {
    assert_eq!(set_viewfield(3, "7-9"), Ok(vec![false, false, true]));
}

#[test]
fn open_range_runs_to_last_field() {
    let expected = vec![false, false, true, true, true, true];
    assert_eq!(set_viewfield(6, "3-"), Ok(expected.clone()));
    assert_eq!(set_viewfield(6, "3-6"), Ok(expected));
}

#[test]
fn non_numeric_range_end_defaults_to_last_field() {
    assert_eq!(set_viewfield(4, "2-x"), Ok(vec![false, true, true, true]));
    assert_eq!(set_viewfield(4, "2-3-4"), Ok(vec![false, true, true, true]));
}

#[test]
fn reversed_range_marks_nothing() {
    assert_eq!(set_viewfield(4, "3-1"), Ok(vec![false; 4]));
    assert_eq!(set_viewfield(4, "3-0"), Ok(vec![false; 4]));
}

#[test]
fn out_of_range_numbers_are_ignored() {
    assert_eq!(set_viewfield(3, "5,2"), Ok(vec![false, true, false]));
    assert_eq!(set_viewfield(3, "0"), Ok(vec![false; 3]));
}

#[test]
fn overlapping_tokens_are_idempotent() {
    assert_eq!(set_viewfield(5, "1-3,2,3-4"), Ok(vec![true, true, true, true, false]));
}

#[test]
fn empty_specification_selects_nothing() {
    assert_eq!(set_viewfield(3, ""), Ok(vec![false; 3]));
}

#[test]
fn malformed_tokens_are_rejected() {
    assert_eq!(set_viewfield(3, "x"), Err(CutError::InvalidFieldSpec));
    assert_eq!(set_viewfield(3, "1,,2"), Err(CutError::InvalidFieldSpec));
    assert_eq!(set_viewfield(3, "-2"), Err(CutError::InvalidFieldSpec));
    assert_eq!(set_viewfield(3, "0-2"), Err(CutError::InvalidFieldSpec));
    assert_eq!(set_viewfield(3, "99999999999999999999999"), Err(CutError::InvalidFieldSpec));
}

#[test]
fn malformed_spec_fails_before_output() {
    assert_eq!(read_and_output("a,b\nc,d\n", ",", by_number("x")), Err(CutError::InvalidFieldSpec));
    let mut cutter = Cutter::new(",", by_number("1,x"));
    assert_eq!(cutter.cut_line("a,b"), Err(CutError::InvalidFieldSpec));
}

#[test]
fn header_resolution_is_ordered_first_match() {
    let headers = strings(&["a", "b", "a"]);
    assert_eq!(make_viewfield_str(&headers, "a,b"), "1,2".to_string());
    assert_eq!(make_viewfield_str(&headers, "b,a"), "2,1".to_string());
    assert_eq!(set_viewfield(3, "1,2"), Ok(vec![true, true, false]));
    assert_eq!(mask_for_line("a,b,a", ",", &by_name("a,b")), Ok(vec![true, true, false]));
}

#[test]
fn absent_header_selects_nothing() {
    let headers = strings(&["a", "b", "a"]);
    assert_eq!(make_viewfield_str(&headers, "c"), String::new());
    assert_eq!(mask_for_line("a,b,a", ",", &by_name("c")), Ok(vec![false; 3]));
    assert_eq!(read_and_output("a,b,a\n1,2,3\n", ",", by_name("c")), Ok("\n\n".to_string()));
}

#[test]
fn header_numbers_above_nine() {
    let names: Vec<String> = (1..=12).map(|i| format!("h{}", i)).collect();
    assert_eq!(make_viewfield_str(&names, "h12,h1,h10"), "12,1,10".to_string());
}

#[test]
fn full_mask_round_trip() {
    assert_eq!(project("a,b,,c", ",", &vec![true; 4]), Ok("a,b,,c".to_string()));
    assert_eq!(project("x::y::z", "::", &vec![true; 3]), Ok("x::y::z".to_string()));
}

#[test]
fn projection_keeps_order_and_drops_extra_fields() {
    assert_eq!(project("p::q::r::s", "::", &vec![false, true, false, true]), Ok("q::s".to_string()));
    assert_eq!(project("a,b,c,d", ",", &vec![true, false]), Ok("a".to_string()));
}

#[test]
fn projection_with_too_few_fields_fails() {
    assert_eq!(
        project("a,b", ",", &vec![true, true, true]),
        Err(CutError::FieldCountMismatch { fields: 2, mask: 3 })
    );
}

#[test]
fn character_count_mode() {
    assert_eq!(read_and_output("abcdefghij\n", "", by_chars("2,4-6")), Ok("bdef\n".to_string()));
    assert_eq!(read_and_output("abcdefghij\n", "\t", by_chars("2,4-6")), Ok("bdef\n".to_string()));
}

#[test]
fn character_count_mask_per_line() {
    assert_eq!(read_and_output("abc\nabcdef\n", "", by_chars("2-")), Ok("bc\nbcdef\n".to_string()));
}

#[test]
fn field_by_title_scenario() {
    let input = "name\tage\tcity\nAlice\t30\tNYC\n";
    assert_eq!(read_and_output(input, "\t", by_name("name,city")), Ok("name\tcity\nAlice\tNYC\n".to_string()));
}

#[test]
fn numeric_scenario() {
    assert_eq!(read_and_output("a,b,c,d,e\n", ",", by_number("1,3-4")), Ok("a,c,d\n".to_string()));
}

#[test]
fn later_line_with_fewer_fields_fails() {
    assert_eq!(
        read_and_output("a,b,c\nd,e\n", ",", by_number("1")),
        Err(CutError::FieldCountMismatch { fields: 2, mask: 3 })
    );
    let mut cutter = Cutter::new(",", by_number("1"));
    assert_eq!(cutter.cut_line("a,b,c"), Ok("a".to_string()));
    assert_eq!(cutter.cut_line("d,e,f,g"), Ok("d".to_string()));
    assert_eq!(cutter.cut_line("h"), Err(CutError::FieldCountMismatch { fields: 1, mask: 3 }));
}

#[test]
fn mask_is_decided_by_first_line() {
    let mut cutter = Cutter::new(",", by_number("2-"));
    assert_eq!(cutter.cut_line("a,b"), Ok("b".to_string()));
    assert_eq!(cutter.cut_line("c,d,e"), Ok("d".to_string()));
}

#[test]
fn empty_input_gives_no_output() {
    assert_eq!(read_and_output("", ",", by_number("1")), Ok(String::new()));
}

#[test]
fn lines_lose_terminators() {
    assert_eq!(text_lines("a\r\nb\n\nc"), strings(&["a", "b", "", "c"]));
    assert_eq!(text_lines("x\n"), strings(&["x"]));
    assert_eq!(read_and_output("a,b\r\nc,d\r\n", ",", by_number("2")), Ok("b\nd\n".to_string()));
}

#[test]
fn split_on_literal_delimiter() {
    assert_eq!(split_fields("a,,b", ","), strings(&["a", "", "b"]));
    assert_eq!(split_fields("a--b---c", "--"), strings(&["a", "b", "-c"]));
    assert_eq!(split_fields("abc", ","), strings(&["abc"]));
    assert_eq!(split_fields("", ","), strings(&[""]));
}

#[test]
fn split_on_empty_delimiter() {
    assert_eq!(split_fields("héj", ""), strings(&["h", "é", "j", ""]));
    assert_eq!(split_fields("", ""), strings(&[""]));
}

#[test]
fn tokens_and_numbers() {
    assert_eq!(parse_token(5, &chars_of("2-9")), Some((2, 5)));
    assert_eq!(parse_token(5, &chars_of("4")), Some((4, 4)));
    assert_eq!(parse_token(5, &chars_of("6")), Some((1, 0)));
    assert_eq!(parse_token(5, &chars_of("a-3")), None);
    let cs = chars_of("x1234y");
    assert_eq!(parse_number_in(&cs, 1, 5), Some(1234));
    assert_eq!(parse_number_in(&cs, 0, 5), None);
    assert_eq!(parse_number_in(&cs, 2, 2), None);
}
