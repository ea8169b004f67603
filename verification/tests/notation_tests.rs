use cube_solver::cube::{Cube, FaceDir, Turn, TurnDir};
use cube_solver::notation::{parse_algorithm, string_to_face_dir};

#[test]
fn face_letters_parse_case_blind_and_trimmed() {
    assert_eq!(string_to_face_dir(&"U".to_string()), Some(FaceDir::Up));
    assert_eq!(string_to_face_dir(&" u \n".to_string()), Some(FaceDir::Up));
    assert_eq!(string_to_face_dir(&"d".to_string()), Some(FaceDir::Down));
    assert_eq!(string_to_face_dir(&"L".to_string()), Some(FaceDir::Left));
    assert_eq!(string_to_face_dir(&"r".to_string()), Some(FaceDir::Right));
    assert_eq!(string_to_face_dir(&"F".to_string()), Some(FaceDir::Front));
    assert_eq!(string_to_face_dir(&"b".to_string()), Some(FaceDir::Back));
    assert_eq!(string_to_face_dir(&"x".to_string()), None);
    assert_eq!(string_to_face_dir(&"".to_string()), None);
    assert_eq!(string_to_face_dir(&"UU".to_string()), None);
}

#[test]
fn parse_algorithm_reads_primes_and_doubles() {
    let parsed = parse_algorithm(vec!["R", "U'", "F2"]).expect("valid notation must parse");
    assert_eq!(
        parsed,
        vec![
            Turn::new(FaceDir::Right, TurnDir::Clockwise),
            Turn::new(FaceDir::Up, TurnDir::CounterClockwise),
            Turn::new(FaceDir::Front, TurnDir::Clockwise),
            Turn::new(FaceDir::Front, TurnDir::Clockwise),
        ]
    );
}

#[test]
fn parse_algorithm_rejects_invalid_tokens() {
    assert_eq!(parse_algorithm(vec!["R", "Q"]), None);
    assert_eq!(parse_algorithm(vec![""]), None);
    assert_eq!(parse_algorithm(vec!["R'", "2"]), None);
    assert_eq!(parse_algorithm(vec!["RU"]), None);
}

#[test]
fn parse_algorithm_of_no_tokens_is_empty() {
    assert_eq!(parse_algorithm(vec![]), Some(vec![]));
}

#[test]
fn algo_string_joins_notation_with_spaces() {
    let algo = vec![
        Turn::new(FaceDir::Right, TurnDir::Clockwise),
        Turn::new(FaceDir::Up, TurnDir::CounterClockwise),
        Turn::new(FaceDir::Back, TurnDir::Clockwise),
    ];
    assert_eq!(Turn::algo_string(&algo), "R U' B");
    assert_eq!(Turn::algo_string(&vec![]), "");
}

#[test]
fn notation_round_trips_through_parse_and_print() {
    let text = vec!["R", "U'", "F", "D'", "L", "B'"];
    let parsed = parse_algorithm(text).expect("valid notation must parse");
    assert_eq!(Turn::algo_string(&parsed), "R U' F D' L B'");
}

#[test]
fn parsed_sequence_and_its_reverse_cancel_on_the_cube() {
    let mut cube = Cube::new(2);
    let forward = parse_algorithm(vec!["R", "U", "R'", "U'"]).expect("valid notation");
    let backward = parse_algorithm(vec!["U", "R", "U'", "R'"]).expect("valid notation");
    cube.apply_algorithm(forward);
    cube.apply_algorithm(backward);
    assert!(cube.is_solved());
}
