use line_grouper::form::{generate, group_size};
use line_grouper::grouper::{process, transform, GroupError};
use line_grouper::grouping::{join_lines, pair_lines};
use line_grouper::text::filter_lines;

fn strings(v: &[&str]) -> Vec<String> {
    v.iter().map(|s| s.to_string()).collect()
}

#[test]
fn count_not_multiple_is_rejected() {
    assert_eq!(
        process("a\nb\nc\nd\ne", 2),
        Err("总行数应当是每组行数的倍数".to_string())
    );
    assert_eq!(
        transform("a\nb\nc\nd\ne", 2),
        Err(GroupError::LineCountNotMultiple)
    );
}

#[test]
fn six_lines_in_threes_succeed() {
    assert_eq!(
        process("a\nb\nc\nd\ntag1\ntag2", 3),
        Ok("a\nc\n\nb\nc\n\nd\ntag2\n\ntag1\ntag2\n".to_string())
    );
}

#[test]
fn one_group_of_three() {
    assert_eq!(
        process("a\nb\nANCHOR", 3),
        Ok("a\nANCHOR\n\nb\nANCHOR\n".to_string())
    );
}

#[test]
fn one_group_of_two() {
    assert_eq!(process("x\ny", 2), Ok("x\ny\n".to_string()));
}

#[test]
fn blank_lines_and_spaces_are_dropped() {
    assert_eq!(
        filter_lines("  a  \n\n  b\nT\n\nc\nd\nU"),
        strings(&["a", "b", "T", "c", "d", "U"])
    );
    assert_eq!(
        process("  a  \n\n  b\nT\n\nc\nd\nU", 3),
        Ok("a\nT\n\nb\nT\n\nc\nU\n\nd\nU\n".to_string())
    );
}

#[test]
fn group_size_one_is_rejected() {
    assert_eq!(process("a\nb", 1), Err("每组行数应当大于1".to_string()));
    assert_eq!(transform("a\nb", 1), Err(GroupError::GroupSizeTooSmall));
}

#[test]
fn group_size_zero_is_rejected() {
    assert_eq!(transform("", 0), Err(GroupError::GroupSizeTooSmall));
    assert_eq!(transform("a\nb\nc", 0), Err(GroupError::GroupSizeTooSmall));
}

#[test]
fn size_is_checked_before_count() {
    assert_eq!(transform("a\nb\nc", 1), Err(GroupError::GroupSizeTooSmall));
}

#[test]
fn empty_input_gives_empty_output() {
    assert_eq!(process("", 4), Ok(String::new()));
    assert_eq!(process("", 2), Ok(String::new()));
    assert_eq!(process("  \n\t\n", 3), Ok(String::new()));
}

#[test]
fn crlf_and_lf_agree() {
    assert_eq!(process("a\r\nb\r\nc\r\nd\r\n", 2), process("a\nb\nc\nd", 2));
    assert_eq!(process("a\r\nb\r\n", 2), Ok("a\nb\n".to_string()));
}

#[test]
fn trailing_line_feed_adds_no_line() {
    assert_eq!(process("x\ny\n", 2), Ok("x\ny\n".to_string()));
}

#[test]
fn unicode_white_space_is_trimmed() {
    assert_eq!(
        filter_lines("\u{3000}甲\u{a0}\n\u{2003}\n乙"),
        strings(&["甲", "乙"])
    );
}

#[test]
fn inner_white_space_is_kept() {
    assert_eq!(filter_lines(" a b \n"), strings(&["a b"]));
}

#[test]
fn duplicate_lines_are_kept() {
    assert_eq!(
        process("q\nq\nq\nq", 2),
        Ok("q\nq\n\nq\nq\n".to_string())
    );
}

#[test]
fn shape_has_three_lines_per_pair() {
    let input = "1\n2\n3\n4\n5\n6\n7\n8";
    for m in [2usize, 4, 8] {
        let out = process(input, m).unwrap();
        let n = 8;
        assert_eq!(out.split('\n').count(), 3 * (n - n / m));
    }
}

#[test]
fn anchor_follows_each_line() {
    let out = process("a\nb\nc\nA\nd\ne\nf\nB", 4).unwrap();
    let lines: Vec<&str> = out.split('\n').collect();
    let block = 3 * (4 - 1);
    for g in 0..2 {
        let anchor = if g == 0 { "A" } else { "B" };
        for i in 0..3 {
            assert_eq!(lines[g * block + 3 * i + 1], anchor);
            assert_eq!(lines[g * block + 3 * i + 2], "");
        }
    }
}

#[test]
fn non_empty_lines_are_kept_with_anchor_repeated() {
    let out = process("a\nb\nc\nA\nd\ne\nf\nB", 4).unwrap();
    let mut got: Vec<&str> = out.split('\n').filter(|l| !l.is_empty()).collect();
    got.sort();
    let mut want = vec!["a", "b", "c", "A", "A", "A", "d", "e", "f", "B", "B", "B"];
    want.sort();
    assert_eq!(got, want);
}

#[test]
fn groups_keep_their_order() {
    let out = process("p1\np2\nP\nq1\nq2\nQ", 3).unwrap();
    let lines: Vec<&str> = out.split('\n').collect();
    let last_p = lines.iter().rposition(|l| l.starts_with('p') || *l == "P").unwrap();
    let first_q = lines.iter().position(|l| l.starts_with('q') || *l == "Q").unwrap();
    assert!(last_p < first_q);
    assert_eq!(out, "p1\nP\n\np2\nP\n\nq1\nQ\n\nq2\nQ\n");
}

#[test]
fn normalized_input_groups_the_same() {
    let raw = " x \n\n\ty\r\n  \nz\nw  ";
    let normal = filter_lines(raw).join("\n");
    assert_eq!(normal, "x\ny\nz\nw");
    for m in 0..6usize {
        assert_eq!(process(raw, m), process(&normal, m));
    }
}

#[test]
fn pair_lines_builds_blocks() {
    let out = pair_lines(&strings(&["a", "b", "c", "d"]), 2);
    assert_eq!(out, strings(&["a", "b", "", "c", "d", ""]));
}

#[test]
fn join_lines_puts_line_feeds_between() {
    assert_eq!(join_lines(&strings(&["a", "b", ""])), "a\nb\n");
    assert_eq!(join_lines(&strings(&["only"])), "only");
    assert_eq!(join_lines(&Vec::new()), "");
}

#[test]
fn error_messages() {
    assert_eq!(GroupError::GroupSizeTooSmall.message(), "每组行数应当大于1");
    assert_eq!(
        GroupError::LineCountNotMultiple.message(),
        "总行数应当是每组行数的倍数"
    );
}

#[test]
fn group_size_field_is_parsed() {
    assert_eq!(group_size(" 3 "), Some(3));
    assert_eq!(group_size("+12"), Some(12));
    assert_eq!(group_size("0"), Some(0));
    assert_eq!(group_size(""), None);
    assert_eq!(group_size("abc"), None);
    assert_eq!(group_size("-2"), None);
    assert_eq!(group_size("3 4"), None);
    assert_eq!(group_size("99999999999999999999999"), None);
}

#[test]
fn generate_reports_each_outcome() {
    assert_eq!(generate("x\ny", "2"), "x\ny\n");
    assert_eq!(generate("x\ny", ""), "请输入每组行数");
    assert_eq!(generate("x\ny", "zwei"), "请输入每组行数");
    assert_eq!(generate("x\ny", "0"), "每组行数应当大于1");
    assert_eq!(generate("x\ny\nz", " 2 "), "总行数应当是每组行数的倍数");
}
