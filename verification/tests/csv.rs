use robust_rs::csv::{all_records_have_width, parse_records, split_pieces, trim_chars};

fn chars(s: &str) -> Vec<char> {
    s.chars().collect()
}

fn strings(records: &[Vec<Vec<char>>]) -> Vec<Vec<String>> {
    records
        .iter()
        .map(|r| r.iter().map(|f| f.iter().collect()).collect())
        .collect()
}

#[test]
fn header_is_skipped_and_blank_lines_dropped() {
    let text = chars("Air.Flow,Water.Temp,Acid.Conc.,stack.loss\n80,27,89,42\n\n  \n80, 27 ,88,37\r\n");
    let recs = parse_records(&text);
    assert_eq!(
        strings(&recs),
        vec![
            vec!["80", "27", "89", "42"],
            vec!["80", "27", "88", "37"],
        ]
    );
    assert!(all_records_have_width(&recs, 4));
    assert!(!all_records_have_width(&recs, 3));
}

#[test]
fn empty_text_and_header_only_have_no_records() {
    assert!(parse_records(&chars("")).is_empty());
    assert!(parse_records(&chars("a,b\n")).is_empty());
    assert!(parse_records(&chars("a,b")).is_empty());
}

#[test]
fn last_line_needs_no_newline_and_empty_fields_count() {
    let recs = parse_records(&chars("h\n1,,3\n4,5,"));
    assert_eq!(strings(&recs), vec![vec!["1", "", "3"], vec!["4", "5", ""]]);
}

#[test]
fn split_and_trim() {
    let parts = split_pieces(&chars(",a,,b,"), ',');
    let parts: Vec<String> = parts.iter().map(|p| p.iter().collect()).collect();
    assert_eq!(parts, vec!["", "a", "", "b", ""]);
    let t: String = trim_chars(&chars("\u{a0}\t x y \u{3000}\n")).iter().collect();
    assert_eq!(t, "x y");
    let t2: String = trim_chars(&chars(" \t ")).iter().collect();
    assert_eq!(t2, "");
}

#[test]
fn parsing_agrees_with_std_lines_split_and_trim() {
    let text = "h1,h2\n 1.5 , -2 \n\n3,4\r\n  \n5,6,7\n";
    let want: Vec<Vec<String>> = text
        .lines()
        .skip(1)
        .map(str::trim)
        .filter(|l| !l.is_empty())
        .map(|l| l.split(',').map(|f| f.trim().to_string()).collect())
        .collect();
    assert_eq!(strings(&parse_records(&chars(text))), want);
}
