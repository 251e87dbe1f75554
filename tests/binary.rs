use labyrinth::binary::parse_binary;
use labyrinth::solve_binary;

#[test]
fn non_binary_lines_are_skipped() {
    assert_eq!(solve_binary("abc\n101\n10\nxyz1"), vec![5, 2]);
}

#[test]
fn header_line_is_skipped() {
    assert_eq!(solve_binary("3,4\n0000\n1111\n0000\n"), vec![0, 15, 0]);
}

#[test]
fn signs_and_limits() {
    assert_eq!(solve_binary("-101\n+11\n-\n+\n\n"), vec![-5, 3]);
    let max = "1".repeat(31);
    let over = format!("1{}", "0".repeat(31));
    let min = format!("-1{}", "0".repeat(31));
    let under = format!("-1{}1", "0".repeat(30));
    let text = format!("{}\n{}\n{}\n{}\n", max, over, min, under);
    assert_eq!(solve_binary(&text), vec![i32::MAX, i32::MIN]);
}

#[test]
fn crlf_lines_and_leading_zeros() {
    assert_eq!(solve_binary("101\r\n0011\r\n"), vec![5, 3]);
    assert_eq!(solve_binary(""), Vec::<i32>::new());
}

#[test]
fn single_line_values() {
    assert_eq!(parse_binary(&"110".chars().collect()), Some(6));
    assert_eq!(parse_binary(&"12".chars().collect()), None);
    assert_eq!(parse_binary(&" 1".chars().collect()), None);
}
