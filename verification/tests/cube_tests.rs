use cube_solver::cube::{all_face_dirs, Cube, CubeAxis, FaceDir, Turn, TurnDir};

fn cubes_equal(a: &Cube, b: &Cube) -> bool {
    if a.size() != b.size() {
        return false;
    }
    if a.get_dir_order() != b.get_dir_order() {
        return false;
    }
    let n = a.size();
    for d in all_face_dirs() {
        let fa = a.get_face(&d);
        let fb = b.get_face(&d);
        for y in 0..n {
            for x in 0..n {
                if fa.get(y, x) != fb.get(y, x) {
                    return false;
                }
            }
        }
    }
    true
}

fn turn(face: FaceDir, dir: TurnDir) -> Turn {
    Turn::new(face, dir)
}

fn setup_cube() -> Cube {
    // a deterministic, non-trivial state
    let mut cube = Cube::new(2);
    let algo = vec![
        turn(FaceDir::Right, TurnDir::Clockwise),
        turn(FaceDir::Up, TurnDir::Clockwise),
        turn(FaceDir::Front, TurnDir::CounterClockwise),
    ];
    cube.apply_algorithm(algo);
    cube
}

#[test]
fn fresh_cube_is_solved() {
    assert!(Cube::new(2).is_solved());
    assert!(Cube::new(3).is_solved());
    assert!(Cube::new(1).is_solved());
}

#[test]
fn turn_four_times_restores_state() {
    for face in all_face_dirs() {
        for dir in [TurnDir::Clockwise, TurnDir::CounterClockwise] {
            let reference = setup_cube();
            let mut cube = setup_cube();
            let t = turn(face, dir);
            for _ in 0..4 {
                cube.turn_layer(&t, 1);
            }
            assert!(cubes_equal(&cube, &reference));
        }
    }
}

#[test]
fn turn_then_reverse_restores_state() {
    for face in all_face_dirs() {
        for dir in [TurnDir::Clockwise, TurnDir::CounterClockwise] {
            let reference = setup_cube();
            let mut cube = setup_cube();
            let t = turn(face, dir);
            let back = turn(face, dir.get_reversed());
            cube.turn_layer(&t, 1);
            assert!(!cubes_equal(&cube, &reference));
            cube.turn_layer(&back, 1);
            assert!(cubes_equal(&cube, &reference));
        }
    }
}

#[test]
fn turn_reversal_detection() {
    let a = turn(FaceDir::Right, TurnDir::Clockwise);
    let b = turn(FaceDir::Right, TurnDir::CounterClockwise);
    let c = turn(FaceDir::Up, TurnDir::CounterClockwise);
    assert!(a.is_reversed(&b));
    assert!(b.is_reversed(&a));
    assert!(!a.is_reversed(&a));
    assert!(!a.is_reversed(&c));
}

#[test]
fn turn_dir_reversal_is_involutive() {
    assert_eq!(
        TurnDir::Clockwise.get_reversed().get_reversed(),
        TurnDir::Clockwise
    );
    assert_eq!(TurnDir::Clockwise.get_reversed(), TurnDir::CounterClockwise);
}

#[test]
fn scramble_zero_changes_nothing() {
    let mut cube = Cube::new(2);
    let algo = cube.scramble(0);
    assert!(algo.is_empty());
    assert!(cubes_equal(&cube, &Cube::new(2)));
}

#[test]
fn scramble_never_cancels_itself() {
    let mut cube = Cube::new(2);
    let algo = cube.scramble(50);
    assert_eq!(algo.len(), 50);
    for w in algo.windows(2) {
        assert!(!w[1].is_reversed(&w[0]));
    }
}

#[test]
fn hamming_distance_of_cube_with_itself_is_zero() {
    let cube = setup_cube();
    assert_eq!(cube.hamming_distance(&cube), 0);
    let fresh = Cube::new(2);
    assert_eq!(fresh.hamming_distance(&fresh), 0);
}

#[test]
fn hamming_distance_is_symmetric() {
    let a = setup_cube();
    let b = Cube::new(2);
    let d1 = a.hamming_distance(&b);
    let d2 = b.hamming_distance(&a);
    assert_eq!(d1, d2);
    assert!(d1 > 0);
}

#[test]
fn one_turn_moves_exactly_eight_stickers_on_smallest_cube() {
    // the turned face stays solid, the band moves two stickers on each of
    // the four surrounding faces
    let solved = Cube::new(2);
    let mut cube = Cube::new(2);
    cube.turn_layer(&turn(FaceDir::Right, TurnDir::Clockwise), 1);
    assert_eq!(cube.hamming_distance(&solved), 8);
}

#[test]
fn whole_cube_rotation_keeps_it_solved_but_moves_colors() {
    let mut cube = Cube::new(2);
    cube.rotate_whole_cube(CubeAxis::Y, TurnDir::Clockwise);
    assert!(cube.is_solved());
    assert!(cube.hamming_distance(&Cube::new(2)) > 0);
}

#[test]
fn all_possible_solved_cubes_has_24_distinct_solved_members() {
    let cubes = Cube::all_possible_solved_cubes(2);
    assert_eq!(cubes.len(), 24);
    for c in cubes.iter() {
        assert!(c.is_solved());
        assert_eq!(c.hamming_distance(c), 0);
    }
    for i in 0..cubes.len() {
        for j in 0..cubes.len() {
            if i != j {
                assert!(!cubes_equal(&cubes[i], &cubes[j]));
                assert!(cubes[i].hamming_distance(&cubes[j]) > 0);
            }
        }
    }
}

#[test]
fn sequence_then_exact_reverse_restores_solved_state() {
    // R U R' U' undone by U R U' R'
    let mut cube = Cube::new(2);
    let forward = vec![
        turn(FaceDir::Right, TurnDir::Clockwise),
        turn(FaceDir::Up, TurnDir::Clockwise),
        turn(FaceDir::Right, TurnDir::CounterClockwise),
        turn(FaceDir::Up, TurnDir::CounterClockwise),
    ];
    let backward = vec![
        turn(FaceDir::Up, TurnDir::Clockwise),
        turn(FaceDir::Right, TurnDir::Clockwise),
        turn(FaceDir::Up, TurnDir::CounterClockwise),
        turn(FaceDir::Right, TurnDir::CounterClockwise),
    ];
    cube.apply_algorithm(forward);
    assert!(!cube.is_solved());
    cube.apply_algorithm(backward);
    assert!(cube.is_solved());
    assert!(cubes_equal(&cube, &Cube::new(2)));
}

#[test]
fn turning_a_one_by_one_cube_keeps_it_solved() {
    let mut cube = Cube::new(1);
    cube.turn_layer(&turn(FaceDir::Up, TurnDir::Clockwise), 1);
    assert!(cube.is_solved());
}

#[test]
fn inner_layer_turn_of_a_larger_cube_leaves_outer_faces_mixed_correctly() {
    // turning layer 2 of a 3-cube does not rotate the outer face itself
    let mut cube = Cube::new(3);
    cube.turn_layer(&turn(FaceDir::Right, TurnDir::Clockwise), 2);
    assert!(!cube.is_solved());
    cube.turn_layer(&turn(FaceDir::Right, TurnDir::CounterClockwise), 2);
    assert!(cube.is_solved());
}
