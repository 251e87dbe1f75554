use labyrinth::labyrinth::{Direction, Labyrinth, Node, ParseError, State, Vector2d, START_X, START_Y};
use labyrinth::{solve_labyrinth, SolveError};

#[test]
fn straight_corridor_has_no_turn() {
    assert_eq!(solve_labyrinth("3,4\n0000\n1111\n0000\n"), Ok(0));
}

#[test]
fn l_shaped_corridor_has_one_turn() {
    assert_eq!(solve_labyrinth("4,3\n000\n111\n001\n000\n"), Ok(1));
}

#[test]
fn first_step_down_is_not_a_turn() {
    // (0,1) -> (0,2) is free, the step right after it is the one turn
    assert_eq!(solve_labyrinth("4,3\n000\n100\n111\n000"), Ok(1));
    assert_eq!(solve_labyrinth("4,2\n00\n10\n11\n00\n"), Ok(1));
    // (0,1) -> (0,0) up, then right along the top row, then down
    assert_eq!(solve_labyrinth("4,3\n111\n101\n001\n000\n"), Ok(2));
}

#[test]
fn two_turns_around_a_corner() {
    // right, down, right: exit (3,2)
    assert_eq!(solve_labyrinth("4,4\n0000\n1100\n0111\n0000\n"), Ok(2));
}

#[test]
fn fewest_turns_not_fewest_steps() {
    // six steps with four turns through the middle, eight steps with two
    // turns: up (free), along the top row, down the last column
    let text = "5,5\n11111\n11001\n01101\n00111\n00000\n";
    assert_eq!(solve_labyrinth(text), Ok(2));
    let text = "5,5\n00000\n11111\n10101\n11111\n00000\n";
    assert_eq!(solve_labyrinth(text), Ok(1));
}

#[test]
fn digits_as_read() {
    let l = Labyrinth::from_text("3,4\n0000\n1171\n0000\n").ok().unwrap();
    assert_eq!(l.digits(), vec![vec![0, 0, 0, 0], vec![1, 1, 7, 1], vec![0, 0, 0, 0]]);
}

#[test]
fn no_way_out_is_reported() {
    assert_eq!(solve_labyrinth("3,4\n0000\n1101\n0000\n"), Err(SolveError::NoWayOut));
    assert_eq!(SolveError::NoWayOut.message(), "No way out found");
}

#[test]
fn exit_one_step_right_of_start() {
    assert_eq!(solve_labyrinth("3,2\n00\n11\n00"), Ok(0));
}

#[test]
fn start_on_the_exit() {
    assert_eq!(solve_labyrinth("3,1\n0\n0\n0\n"), Ok(0));
}

#[test]
fn non_numeric_header_is_a_parse_error() {
    assert_eq!(solve_labyrinth("a,4\n0000\n1111\n0000\n"), Err(SolveError::Parse(ParseError::BadHeader)));
    assert_eq!(solve_labyrinth("3;4\n0000\n1111\n0000\n"), Err(SolveError::Parse(ParseError::BadHeader)));
    assert_eq!(solve_labyrinth("3,4,5\n0000\n1111\n0000\n"), Err(SolveError::Parse(ParseError::BadHeader)));
    assert_eq!(solve_labyrinth("3,\n0000\n1111\n0000\n"), Err(SolveError::Parse(ParseError::BadHeader)));
    assert_eq!(solve_labyrinth("99999999999999999999999,4\n"), Err(SolveError::Parse(ParseError::BadHeader)));
}

#[test]
fn empty_text_has_no_header() {
    assert_eq!(solve_labyrinth(""), Err(SolveError::Parse(ParseError::MissingHeader)));
}

#[test]
fn too_small_or_too_large_size() {
    assert_eq!(solve_labyrinth("1,4\n1111\n"), Err(SolveError::Parse(ParseError::BadSize)));
    assert_eq!(solve_labyrinth("3,0\n\n\n\n"), Err(SolveError::Parse(ParseError::BadSize)));
    assert_eq!(solve_labyrinth("65536,65536\n"), Err(SolveError::Parse(ParseError::BadSize)));
}

#[test]
fn rows_must_match_the_header() {
    assert_eq!(solve_labyrinth("3,4\n0000\n1111\n"), Err(SolveError::Parse(ParseError::BadRows)));
    assert_eq!(solve_labyrinth("3,4\n0000\n111\n0000\n"), Err(SolveError::Parse(ParseError::BadRows)));
    assert_eq!(solve_labyrinth("3,4\n0000\n1111\n0000\n0000\n"), Err(SolveError::Parse(ParseError::BadRows)));
}

#[test]
fn header_whitespace_and_crlf_are_accepted() {
    assert_eq!(solve_labyrinth(" 3 , 4 \r\n0000\r\n1111\r\n0000\r\n"), Ok(0));
    assert_eq!(solve_labyrinth("3,4\n0 0 0 0\n1 1 1 1\n0 0 0 0\n"), Ok(0));
}

#[test]
fn other_characters_are_walls() {
    assert_eq!(solve_labyrinth("3,4\n0000\n11x1\n0000\n"), Err(SolveError::NoWayOut));
    assert_eq!(solve_labyrinth("3,4\n0000\n1121\n0000\n"), Err(SolveError::NoWayOut));
}

#[test]
fn search_twice_gives_the_same_result() {
    let mut l = Labyrinth::from_text("4,3\n000\n111\n001\n000\n").ok().unwrap();
    let first = l.find_way_out();
    let second = l.find_way_out();
    assert_eq!(first, Some(1));
    assert_eq!(first, second);
}

#[test]
fn search_from_start_with_empty_state() {
    let mut l = Labyrinth::from_text("4,4\n0000\n1100\n0111\n0000\n").ok().unwrap();
    let start = Vector2d { x: START_X, y: START_Y };
    assert_eq!(l.find_way_out_from(&start, State::empty()), Some(2));
    assert_eq!(l.find_way_out_from(&start, State::empty()), Some(2));
}

#[test]
fn known_better_result_is_kept() {
    let mut l = Labyrinth::from_text("4,4\n0000\n1100\n0111\n0000\n").ok().unwrap();
    let start = Vector2d { x: START_X, y: START_Y };
    let s = State { turns: 0, current_result: Some(1), direction: Some(Direction::Right) };
    assert_eq!(l.find_way_out_from(&start, s), Some(1));
    let s = State { turns: 0, current_result: Some(5), direction: Some(Direction::Right) };
    assert_eq!(l.find_way_out_from(&start, s), Some(2));
    let s = State { turns: 3, current_result: Some(3), direction: Some(Direction::Right) };
    assert_eq!(l.find_way_out_from(&start, s), Some(3));
    let s = State { turns: 1, current_result: None, direction: Some(Direction::Down) };
    assert_eq!(l.find_way_out_from(&start, s), Some(4));
}

#[test]
fn empty_state() {
    let s = State::empty();
    assert_eq!(s.turns, 0);
    assert_eq!(s.current_result, None);
    assert_eq!(s.direction, None);
}

#[test]
fn directions_between_neighbours() {
    let c = Vector2d { x: 2, y: 2 };
    assert_eq!(c.get_direction(&Vector2d { x: 3, y: 2 }), Direction::Right);
    assert_eq!(c.get_direction(&Vector2d { x: 1, y: 2 }), Direction::Left);
    assert_eq!(c.get_direction(&Vector2d { x: 2, y: 1 }), Direction::Up);
    assert_eq!(c.get_direction(&Vector2d { x: 2, y: 3 }), Direction::Down);
}

#[test]
fn vector_from_pair() {
    assert_eq!(Vector2d::from((4, 7)), Vector2d { x: 4, y: 7 });
}

#[test]
fn nodes_from_characters() {
    assert!(Node::from_char('1').is_path());
    assert_eq!(Node::from_char('7').digit, 7);
    assert!(!Node::from_char('0').is_path());
    assert_eq!(Node::from_char('x').digit, 0);
    assert!(!Node::from_char('x').visited);
}

#[test]
fn messages_for_the_user() {
    assert_eq!(SolveError::NoWayOut.message(), "No way out found");
    assert_eq!(
        SolveError::Parse(ParseError::BadHeader).message(),
        "An error occurred while parsing the input file"
    );
    let r = solve_labyrinth("3,3\n000\n101\n000");
    assert_eq!(r, Err(SolveError::NoWayOut));
    assert_eq!(r.err().unwrap().message(), "No way out found");
}

#[test]
fn unicode_whitespace_is_not_a_cell() {
    assert_eq!(solve_labyrinth("3,4\u{A0}\n0000\n11\u{A0}11\n0000\u{0B}\n"), Ok(0));
    assert_eq!(solve_labyrinth("\u{3000}3\u{2003},4\n0000\n1111\n0000\n"), Ok(0));
}

#[test]
fn header_numbers_may_have_a_plus_sign() {
    assert_eq!(solve_labyrinth("+3,+4\n0000\n1111\n0000\n"), Ok(0));
    assert_eq!(solve_labyrinth("+,4\n0000\n1111\n0000\n"), Err(SolveError::Parse(ParseError::BadHeader)));
    assert_eq!(solve_labyrinth("-3,4\n0000\n1111\n0000\n"), Err(SolveError::Parse(ParseError::BadHeader)));
}

#[test]
fn search_keeps_every_digit() {
    let mut l = Labyrinth::from_text("4,3\n070\n111\n201\n000\n").ok().unwrap();
    let before = l.digits();
    assert_eq!(l.find_way_out(), Some(1));
    assert_eq!(l.digits(), before);
    assert_eq!(before, vec![vec![0, 7, 0], vec![1, 1, 1], vec![2, 0, 1], vec![0, 0, 0]]);
}
