use cube_solver::cube::{Cube, FaceDir, Turn, TurnDir};
use cube_solver::search::{all_l0, idastar, single_l0, Heuristic};

#[test]
fn single_l0_is_zero_on_the_solved_cube() {
    let cube = Cube::new(2);
    assert_eq!(single_l0(&cube), 0);
}

#[test]
fn single_l0_is_one_after_one_turn() {
    // one quarter turn moves 8 stickers, and 8 / 12 rounds up to 1
    let mut cube = Cube::new(2);
    cube.turn_layer(&Turn::new(FaceDir::Up, TurnDir::Clockwise), 1);
    assert_eq!(single_l0(&cube), 1);
}

#[test]
fn all_l0_is_zero_on_any_solved_orientation() {
    let goals = Cube::all_possible_solved_cubes(2);
    for goal in goals.iter() {
        assert_eq!(all_l0(goal, &goals), 0);
    }
}

#[test]
fn all_l0_never_exceeds_single_l0() {
    let goals = Cube::all_possible_solved_cubes(2);
    let mut cube = Cube::new(2);
    cube.scramble(6);
    assert!(all_l0(&cube, &goals) <= single_l0(&cube));
}

#[test]
fn idastar_on_solved_cube_returns_empty_solution_both_heuristics() {
    for heuristic in [Heuristic::SingleL0, Heuristic::new_all_l0()] {
        let cube = Cube::new(2);
        let result = idastar(cube, &heuristic, false);
        let solution = result.solution.expect("a solved cube must yield a solution");
        assert!(solution.is_empty());
        assert_eq!(result.solution_len, Some(0));
        assert_eq!(result.node_visited, 1);
    }
}

#[test]
fn idastar_undoes_one_known_turn_exactly() {
    let mut cube = Cube::new(2);
    cube.turn_layer(&Turn::new(FaceDir::Right, TurnDir::Clockwise), 1);
    let result = idastar(cube, &Heuristic::SingleL0, false);
    let solution = result.solution.expect("one turn away must be solvable");
    assert_eq!(solution.len(), 1);
    assert_eq!(result.solution_len, Some(1));
    assert_eq!(
        solution[0],
        Turn::new(FaceDir::Right, TurnDir::CounterClockwise)
    );
}

#[test]
fn idastar_finds_a_two_turn_solution_for_a_two_turn_scramble() {
    let mut cube = Cube::new(2);
    cube.apply_algorithm(vec![
        Turn::new(FaceDir::Right, TurnDir::Clockwise),
        Turn::new(FaceDir::Up, TurnDir::Clockwise),
    ]);
    let result = idastar(cube.clone(), &Heuristic::SingleL0, false);
    let solution = result.solution.expect("two turns away must be solvable");
    assert_eq!(solution.len(), 2);
    cube.apply_algorithm(solution);
    assert!(cube.is_solved());
}

#[test]
fn idastar_solves_a_single_random_scramble_turn() {
    let mut cube = Cube::new(2);
    let scramble = cube.scramble(1);
    assert_eq!(scramble.len(), 1);
    let result = idastar(cube.clone(), &Heuristic::SingleL0, false);
    let solution = result.solution.expect("one turn away must be solvable");
    assert_eq!(solution.len(), 1);
    cube.apply_algorithm(solution.clone());
    assert!(cube.is_solved());
}

#[test]
fn idastar_solves_short_scrambles_with_single_goal_heuristic() {
    let mut cube = Cube::new(2);
    cube.scramble(4);
    let result = idastar(cube.clone(), &Heuristic::SingleL0, false);
    let solution = result.solution.expect("a short scramble must be solvable");
    assert!(!solution.is_empty() || cube.is_solved());
    assert!(result.node_visited >= 1);
    cube.apply_algorithm(solution.clone());
    assert!(cube.is_solved());
}

#[test]
fn idastar_solves_short_scrambles_with_symmetry_heuristic() {
    let mut cube = Cube::new(2);
    cube.scramble(4);
    let heuristic = Heuristic::new_all_l0();
    let result = idastar(cube.clone(), &heuristic, false);
    let solution = result.solution.expect("a short scramble must be solvable");
    cube.apply_algorithm(solution.clone());
    assert!(cube.is_solved());
    assert_eq!(result.solution_len, Some(solution.len()));
}

#[test]
fn idastar_reports_solution_length_matching_solution() {
    let mut cube = Cube::new(2);
    cube.scramble(3);
    let result = idastar(cube, &Heuristic::SingleL0, false);
    match (&result.solution, result.solution_len) {
        (Some(path), Some(len)) => assert_eq!(path.len(), len),
        (None, None) => {}
        _ => panic!("solution and its length must agree"),
    }
}
