//! Iterative-deepening heuristic search (IDA*) over cube states, with the
//! two admissible heuristics the solver ships with.
//!
//! The search keeps every explored node in an arena: a growing vector in
//! which each node holds the index of its parent, so reconstructing the
//! solution path is a walk up integer links. Each node's evaluation is
//! computed once, when the node is popped, and cached in a column of the
//! arena beside it.

use vstd::prelude::*;
use vstd::pervasive::VecAdditionalExecFns;
use std::io::Write;
use crate::cube::{
    lemma_apply_turns_snoc, lemma_mats_diff_bounds, oriented_solved, spec_apply_turns,
    spec_hamming, spec_is_solved, spec_solved_cube, spec_turn_mats, Cube, CubeView, FaceDir,
    Turn, TurnDir,
};

verus! {

#[verifier::external_type_specification]
#[verifier::external_body]
pub struct ExInstant(std::time::Instant);

/// Relies on std::time::Instant::now for a wall-clock reading; nothing is
/// assumed of the value.
#[verifier::external_body]
fn instant_now() -> std::time::Instant {
    std::time::Instant::now()
}

/// Relies on std::time::Instant::elapsed for the time since `start`;
/// nothing is assumed of the duration.
#[verifier::external_body]
fn elapsed_since(start: &std::time::Instant) -> std::time::Duration {
    start.elapsed()
}

/// Relies on the writeln macro over std::io::Stdout to show the current
/// threshold to an observer; the search state is untouched.
#[verifier::external_body]
fn report_progress(limit: usize) {
    let _ = writeln!(std::io::stdout(), "searching with limit = {}", limit);
}

/// The single-goal heuristic value: the Hamming distance to the one fixed
/// solved cube, divided by the most stickers a quarter turn can move
/// (twelve on the smallest cube), rounded up.
pub open spec fn spec_single_l0(c: CubeView) -> int {
    (spec_hamming(c, spec_solved_cube(2)) + 11) / 12
}

/// The least Hamming distance from `c` to the first `j` goal cubes.
pub open spec fn spec_min_dist_upto(c: CubeView, goals: Seq<Cube>, j: int) -> int
    decreases j,
{
    if j <= 1 {
        spec_hamming(c, goals[0]@)
    } else {
        let prev = spec_min_dist_upto(c, goals, j - 1);
        let d = spec_hamming(c, goals[j - 1]@);
        if d < prev {
            d
        } else {
            prev
        }
    }
}

/// The symmetry-aware heuristic value: the least Hamming distance to any of
/// the goal cubes, divided by twelve, rounded up.
pub open spec fn spec_all_l0(c: CubeView, goals: Seq<Cube>) -> int {
    (spec_min_dist_upto(c, goals, goals.len() as int) + 11) / 12
}

/// Whether the goal list is fit to evaluate against: nonempty, every entry
/// well formed and of the smallest cube size.
pub open spec fn goals_wf(goals: Seq<Cube>) -> bool {
    &&& goals.len() >= 1
    &&& forall|i: int|
        0 <= i < goals.len() ==> (#[trigger] goals[i]).wf() && goals[i]@.size == 2
}

/// The single-goal lower bound on turns to solve `cube`.
pub fn single_l0(cube: &Cube) -> (h: usize)
    requires
        cube.wf(),
        cube@.size == 2,
    ensures
        h == spec_single_l0(cube@),
        h <= 2,
{
    let goal = Cube::new(2);
    let d = cube.hamming_distance(&goal);
    proof {
        lemma_mats_diff_bounds(cube@.mats, goal@.mats, 2, 6);
    }
    (d + 11) / 12
}

/// The symmetry-aware lower bound on turns to solve `cube`, evaluated
/// against the caller's precomputed goal orientations.
pub fn all_l0(cube: &Cube, solved_cubes: &Vec<Cube>) -> (h: usize)
    requires
        cube.wf(),
        cube@.size == 2,
        goals_wf(solved_cubes@),
    ensures
        h == spec_all_l0(cube@, solved_cubes@),
        h <= 2,
{
    let n = solved_cubes.len();
    let mut min_dist = cube.hamming_distance(&solved_cubes[0]);
    proof {
        lemma_mats_diff_bounds(cube@.mats, solved_cubes@[0]@.mats, 2, 6);
    }
    let mut j: usize = 1;
    while j < n
        invariant
            cube.wf(),
            cube@.size == 2,
            goals_wf(solved_cubes@),
            n == solved_cubes@.len(),
            1 <= j <= n,
            min_dist == spec_min_dist_upto(cube@, solved_cubes@, j as int),
            min_dist <= 24,
        decreases n - j,
    {
        let d = cube.hamming_distance(&solved_cubes[j]);
        if d < min_dist {
            min_dist = d;
        }
        j += 1;
    }
    (min_dist + 11) / 12
}

/// An admissible estimator of turns left to solve: against the one fixed
/// solved state, or against a caller-built set of goal orientations.
pub enum Heuristic {
    SingleL0,
    AllL0 { solved_cubes: Vec<Cube> },
}

impl Heuristic {
    pub open spec fn wf(self) -> bool {
        match self {
            Heuristic::SingleL0 => true,
            Heuristic::AllL0 { solved_cubes } => goals_wf(solved_cubes@),
        }
    }

    pub open spec fn spec_eval(self, c: CubeView) -> int {
        match self {
            Heuristic::SingleL0 => spec_single_l0(c),
            Heuristic::AllL0 { solved_cubes } => spec_all_l0(c, solved_cubes@),
        }
    }

    /// The heuristic value of `cube`.
    pub fn evaluate(&self, cube: &Cube) -> (h: usize)
        requires
            self.wf(),
            cube.wf(),
            cube@.size == 2,
        ensures
            h == self.spec_eval(cube@),
            h <= 2,
    {
        match self {
            Heuristic::SingleL0 => single_l0(cube),
            Heuristic::AllL0 { solved_cubes } => all_l0(cube, solved_cubes),
        }
    }

    /// The symmetry-aware heuristic with its 24-orientation goal set
    /// computed once, up front: the 24 pairwise distinct solved
    /// orientations of the standard coloring, the standard solved cube
    /// first among them, every pair at positive Hamming distance.
    pub fn new_all_l0() -> (h: Heuristic)
        ensures
            h.wf(),
            h matches Heuristic::AllL0 { solved_cubes } && solved_cubes@.len() == 24
                && solved_cubes@[0]@ == spec_solved_cube(2) && (forall|i: int|
                0 <= i < 24 ==> (#[trigger] solved_cubes@[i]).wf() && solved_cubes@[i]@.size == 2
                    && spec_is_solved(solved_cubes@[i]@) && oriented_solved(solved_cubes@[i]@, 2))
                && (forall|i: int, j: int|
                0 <= i < j < 24 ==> solved_cubes@[i]@.order != solved_cubes@[j]@.order
                    && solved_cubes@[i]@.mats != solved_cubes@[j]@.mats && spec_hamming(
                    solved_cubes@[i]@,
                    solved_cubes@[j]@,
                ) >= 1),
    {
        Heuristic::AllL0 { solved_cubes: Cube::all_possible_solved_cubes(2) }
    }
}

/// Taking the minimum over more goals never raises it.
proof fn lemma_min_dist_upto_decreases(c: CubeView, goals: Seq<Cube>, j1: int, j2: int)
    requires
        1 <= j1 <= j2,
    ensures
        spec_min_dist_upto(c, goals, j2) <= spec_min_dist_upto(c, goals, j1),
    decreases j2 - j1,
{
    if j1 < j2 {
        lemma_min_dist_upto_decreases(c, goals, j1, j2 - 1);
    }
}

/// The symmetry-aware heuristic never exceeds the single-goal one when the
/// standard solved cube leads its goal set, as `Heuristic::new_all_l0`
/// guarantees: the minimum over the set is at most the distance to that
/// first member.
pub proof fn lemma_all_l0_le_single_l0(c: CubeView, goals: Seq<Cube>)
    requires
        goals.len() >= 1,
        goals[0]@ == spec_solved_cube(2),
    ensures
        spec_all_l0(c, goals) <= spec_single_l0(c),
{
    lemma_min_dist_upto_decreases(c, goals, 1, goals.len() as int);
    assert(spec_min_dist_upto(c, goals, 1) == spec_hamming(c, spec_solved_cube(2)));
    let a = spec_min_dist_upto(c, goals, goals.len() as int);
    let b = spec_hamming(c, spec_solved_cube(2));
    assert((a + 11) / 12 <= (b + 11) / 12) by (nonlinear_arith)
        requires
            a <= b,
    ;
}

/// A turn the solver's branch generation emits: one of the three chosen
/// faces (one per axis), either way around. The other three faces are
/// redundant under the symmetry the 24-orientation goal set captures.
pub open spec fn gen_turn(t: Turn) -> bool {
    t.face_dir == FaceDir::Right || t.face_dir == FaceDir::Up || t.face_dir == FaceDir::Front
}

pub open spec fn gen_seq(ts: Seq<Turn>) -> bool {
    forall|i: int| 0 <= i < ts.len() ==> gen_turn(#[trigger] ts[i])
}

/// No turn immediately undoes the one before it.
pub open spec fn spec_reduced(ts: Seq<Turn>) -> bool {
    forall|i: int| 0 <= i < ts.len() - 1 ==> !(#[trigger] ts[i + 1]).spec_is_reversed(ts[i])
}

/// The cube view reached by applying `ts` to a cube in state `init`.
pub open spec fn state_after(init: CubeView, ts: Seq<Turn>) -> CubeView {
    CubeView {
        mats: spec_apply_turns(init.mats, ts, init.size),
        order: init.order,
        size: init.size,
    }
}

/// The evaluation the search gives the node reached by `ts`: its depth
/// plus its heuristic value, never below any ancestor's evaluation.
pub open spec fn path_f(init: CubeView, h: Heuristic, ts: Seq<Turn>) -> int
    decreases ts.len(),
{
    let own = ts.len() + h.spec_eval(state_after(init, ts));
    if ts.len() == 0 {
        own
    } else {
        let prev = path_f(init, h, ts.drop_last());
        if prev > own {
            prev
        } else {
            own
        }
    }
}

spec fn is_path_prefix(p: Seq<Turn>, ts: Seq<Turn>) -> bool {
    p.len() <= ts.len() && ts.subrange(0, p.len() as int) == p
}

/// The `j`th candidate move of the expansion step: the three generated
/// faces, clockwise then counter-clockwise each.
pub open spec fn spec_candidate(j: int) -> Turn {
    if j == 0 {
        Turn { face_dir: FaceDir::Right, turn_dir: TurnDir::Clockwise }
    } else if j == 1 {
        Turn { face_dir: FaceDir::Right, turn_dir: TurnDir::CounterClockwise }
    } else if j == 2 {
        Turn { face_dir: FaceDir::Up, turn_dir: TurnDir::Clockwise }
    } else if j == 3 {
        Turn { face_dir: FaceDir::Up, turn_dir: TurnDir::CounterClockwise }
    } else if j == 4 {
        Turn { face_dir: FaceDir::Front, turn_dir: TurnDir::Clockwise }
    } else {
        Turn { face_dir: FaceDir::Front, turn_dir: TurnDir::CounterClockwise }
    }
}

/// The `j`th candidate move, and every generated turn is one of the six.
fn candidate_turn(k: usize) -> (t: Turn)
    requires
        k < 6,
    ensures
        t == spec_candidate(k as int),
        gen_turn(t),
{
    if k == 0 {
        Turn { face_dir: FaceDir::Right, turn_dir: TurnDir::Clockwise }
    } else if k == 1 {
        Turn { face_dir: FaceDir::Right, turn_dir: TurnDir::CounterClockwise }
    } else if k == 2 {
        Turn { face_dir: FaceDir::Up, turn_dir: TurnDir::Clockwise }
    } else if k == 3 {
        Turn { face_dir: FaceDir::Up, turn_dir: TurnDir::CounterClockwise }
    } else if k == 4 {
        Turn { face_dir: FaceDir::Front, turn_dir: TurnDir::Clockwise }
    } else {
        Turn { face_dir: FaceDir::Front, turn_dir: TurnDir::CounterClockwise }
    }
}

/// A generated turn is one of the six candidates.
proof fn lemma_candidate_covers(c: Turn)
    requires
        gen_turn(c),
    ensures
        c == spec_candidate(0) || c == spec_candidate(1) || c == spec_candidate(2) || c
            == spec_candidate(3) || c == spec_candidate(4) || c == spec_candidate(5),
{
    match (c.face_dir, c.turn_dir) {
        (FaceDir::Right, TurnDir::Clockwise) => {},
        (FaceDir::Right, TurnDir::CounterClockwise) => {},
        (FaceDir::Up, TurnDir::Clockwise) => {},
        (FaceDir::Up, TurnDir::CounterClockwise) => {},
        (FaceDir::Front, TurnDir::Clockwise) => {},
        (FaceDir::Front, TurnDir::CounterClockwise) => {},
        _ => {},
    }
}

/// Being each other's reverse is mutual.
proof fn lemma_reversed_symmetric(a: Turn, b: Turn)
    ensures
        a.spec_is_reversed(b) == b.spec_is_reversed(a),
{
    match (a.turn_dir, b.turn_dir) {
        (TurnDir::Clockwise, TurnDir::Clockwise) => {},
        (TurnDir::Clockwise, TurnDir::CounterClockwise) => {},
        (TurnDir::CounterClockwise, TurnDir::Clockwise) => {},
        (TurnDir::CounterClockwise, TurnDir::CounterClockwise) => {},
    }
}

/// The least Hamming distance to a goal set is between zero and the full
/// sticker count.
proof fn lemma_min_dist_bounds(c: CubeView, goals: Seq<Cube>, j: int)
    requires
        c.size == 2,
        j >= 1,
    ensures
        0 <= spec_min_dist_upto(c, goals, j) <= 24,
    decreases j,
{
    if j <= 1 {
        lemma_mats_diff_bounds(c.mats, goals[0]@.mats, 2, 6);
    } else {
        lemma_min_dist_bounds(c, goals, j - 1);
        lemma_mats_diff_bounds(c.mats, goals[j - 1]@.mats, 2, 6);
    }
}

/// Either heuristic values a smallest-size cube between zero and two.
proof fn lemma_spec_eval_bounds(h: Heuristic, cv: CubeView)
    requires
        h.wf(),
        cv.size == 2,
    ensures
        0 <= h.spec_eval(cv) <= 2,
{
    match h {
        Heuristic::SingleL0 => {
            lemma_mats_diff_bounds(cv.mats, spec_solved_cube(2).mats, 2, 6);
        },
        Heuristic::AllL0 { solved_cubes } => {
            lemma_min_dist_bounds(cv, solved_cubes@, solved_cubes@.len() as int);
        },
    }
}

/// An evaluation never falls along a path.
proof fn lemma_path_f_prefix(init: CubeView, h: Heuristic, p: Seq<Turn>, ts: Seq<Turn>)
    requires
        is_path_prefix(p, ts),
    ensures
        path_f(init, h, p) <= path_f(init, h, ts),
    decreases ts.len(),
{
    if p.len() == ts.len() {
        assert(ts.subrange(0, p.len() as int) =~= ts);
    } else {
        assert(ts.drop_last().subrange(0, p.len() as int) =~= ts.subrange(0, p.len() as int));
        lemma_path_f_prefix(init, h, p, ts.drop_last());
    }
}

/// An evaluation never exceeds the path's length plus two, because the
/// heuristics are bounded by two.
proof fn lemma_path_f_le(init: CubeView, h: Heuristic, ts: Seq<Turn>)
    requires
        h.wf(),
        init.size == 2,
    ensures
        path_f(init, h, ts) <= ts.len() + 2,
    decreases ts.len(),
{
    lemma_spec_eval_bounds(h, state_after(init, ts));
    if ts.len() > 0 {
        lemma_path_f_le(init, h, ts.drop_last());
    }
}

/// Any solving sequence over the generated moves has a solving sequence no
/// longer with no immediate cancellation: a turn followed by its reverse
/// can always be cut out.
proof fn lemma_reduce_cancelling(init: CubeView, ts: Seq<Turn>)
    requires
        crate::cube::mats6_wf(init.mats, init.size),
        init.size >= 1,
        gen_seq(ts),
        solves(init, ts),
    ensures
        exists|ts2: Seq<Turn>|
            gen_seq(ts2) && spec_reduced(ts2) && solves(init, ts2) && ts2.len() <= ts.len(),
    decreases ts.len(),
{
    if spec_reduced(ts) {
        assert(gen_seq(ts) && spec_reduced(ts) && solves(init, ts) && ts.len() <= ts.len());
    } else {
        let i = choose|i: int| 0 <= i < ts.len() - 1 && (#[trigger] ts[i + 1]).spec_is_reversed(
            ts[i],
        );
        let pre = ts.subrange(0, i);
        let pair = seq![ts[i], ts[i + 1]];
        let suf = ts.subrange(i + 2, ts.len() as int);
        let shorter = pre + suf;
        assert(ts =~= pre + pair + suf);
        let m = init.mats;
        let sz = init.size;
        crate::laws::lemma_apply_turns_concat(m, pre + pair, suf, sz);
        crate::laws::lemma_apply_turns_concat(m, pre, pair, sz);
        crate::laws::lemma_apply_turns_concat(m, pre, suf, sz);
        let m_pre = spec_apply_turns(m, pre, sz);
        assert(spec_apply_turns(m_pre, pair, sz) == m_pre) by {
            let one = seq![ts[i + 1]];
            assert(pair[0] == ts[i]);
            assert(pair.drop_first() =~= one);
            assert(one[0] == ts[i + 1]);
            assert(one.drop_first() =~= Seq::<Turn>::empty());
            let m1 = spec_turn_mats(m_pre, ts[i], 1, sz);
            let m2 = spec_turn_mats(m1, ts[i + 1], 1, sz);
            assert(spec_apply_turns(m_pre, pair, sz) == spec_apply_turns(m1, one, sz));
            assert(spec_apply_turns(m1, one, sz) == spec_apply_turns(m2, Seq::<Turn>::empty(), sz));
            assert(spec_apply_turns(m2, Seq::<Turn>::empty(), sz) == m2);
            assert(ts[i + 1] == ts[i].spec_reversed());
            crate::laws::lemma_apply_turns_wf(m, pre, sz);
            crate::laws::lemma_turn_then_reverse_restores(m_pre, ts[i], 1, sz);
        }
        assert(spec_apply_turns(m, shorter, sz) == spec_apply_turns(m, ts, sz));
        assert(gen_seq(shorter)) by {
            assert forall|k: int| 0 <= k < shorter.len() implies gen_turn(
                #[trigger] shorter[k],
            ) by {
                if k < pre.len() {
                    assert(shorter[k] == ts[k]);
                } else {
                    assert(shorter[k] == ts[k + 2]);
                }
            }
        }
        assert(solves(init, shorter));
        lemma_reduce_cancelling(init, shorter);
        let w = choose|ts2: Seq<Turn>|
            gen_seq(ts2) && spec_reduced(ts2) && solves(init, ts2) && ts2.len() <= shorter.len();
        assert(gen_seq(w) && spec_reduced(w) && solves(init, w) && w.len() <= ts.len());
    }
}

/// Reaching a target assignment in some number of turns bounds the Hamming
/// distance to it: each turn moves at most twelve stickers on the smallest
/// cube.
proof fn lemma_hamming_to_target(c: CubeView, gv: CubeView, ts: Seq<Turn>)
    requires
        c.size == 2,
        crate::cube::mats6_wf(c.mats, 2),
        spec_apply_turns(c.mats, ts, 2) == gv.mats,
    ensures
        spec_hamming(c, gv) <= 12 * ts.len(),
    decreases ts.len(),
{
    if ts.len() == 0 {
        crate::laws::lemma_hamming_self(c);
    } else {
        let m1 = spec_turn_mats(c.mats, ts[0], 1, 2);
        let c1 = CubeView { mats: m1, order: c.order, size: 2 };
        assert(spec_apply_turns(c.mats, ts, 2) == spec_apply_turns(m1, ts.drop_first(), 2));
        crate::laws::lemma_turn_step(c.mats, ts[0], 1, 2);
        lemma_hamming_to_target(c1, gv, ts.drop_first());
        crate::laws::lemma_turn_diff_bound(c.mats, ts[0], 2);
        crate::laws::lemma_mats_diff_triangle(c.mats, m1, gv.mats, 2, 6);
    }
}

/// The single-goal heuristic is admissible for reaching the standard
/// solved state exactly: it never exceeds the length of any turn sequence
/// that gets there, because one turn moves at most twelve stickers.
///
/// Against the looser goal of being solved in any orientation it can
/// overestimate: a reoriented solved cube needs no further turns yet lies
/// at a positive distance from the standard state.
pub proof fn lemma_single_l0_admissible(c: CubeView, ts: Seq<Turn>)
    requires
        c.size == 2,
        crate::cube::mats6_wf(c.mats, 2),
        spec_apply_turns(c.mats, ts, 2) == spec_solved_cube(2).mats,
    ensures
        spec_single_l0(c) <= ts.len(),
{
    lemma_hamming_to_target(c, spec_solved_cube(2), ts);
    let d = spec_hamming(c, spec_solved_cube(2));
    lemma_mats_diff_bounds(c.mats, spec_solved_cube(2).mats, 2, 6);
    assert((d + 11) / 12 <= ts.len() as int) by (nonlinear_arith)
        requires
            0 <= d,
            d <= 12 * (ts.len() as int),
    ;
}

/// The minimum over a goal set is at most the distance to any one member.
proof fn lemma_min_dist_upto_le_elem(c: CubeView, goals: Seq<Cube>, i: int, j: int)
    requires
        0 <= i < j,
    ensures
        spec_min_dist_upto(c, goals, j) <= spec_hamming(c, goals[i]@),
    decreases j,
{
    if j > i + 1 {
        lemma_min_dist_upto_le_elem(c, goals, i, j - 1);
    }
}

/// The symmetry-aware heuristic is admissible for reaching any member of
/// its goal set exactly.
pub proof fn lemma_all_l0_admissible(c: CubeView, goals: Seq<Cube>, i: int, ts: Seq<Turn>)
    requires
        c.size == 2,
        crate::cube::mats6_wf(c.mats, 2),
        0 <= i < goals.len(),
        spec_apply_turns(c.mats, ts, 2) == goals[i]@.mats,
    ensures
        spec_all_l0(c, goals) <= ts.len(),
{
    lemma_hamming_to_target(c, goals[i]@, ts);
    lemma_min_dist_upto_le_elem(c, goals, i, goals.len() as int);
    lemma_mats_diff_bounds(c.mats, goals[i]@.mats, 2, 6);
    let m = spec_min_dist_upto(c, goals, goals.len() as int);
    lemma_min_dist_bounds(c, goals, goals.len() as int);
    assert((m + 11) / 12 <= ts.len() as int) by (nonlinear_arith)
        requires
            0 <= m,
            m <= 12 * (ts.len() as int),
    ;
}

/// What a search run reports: the solving turn sequence and its length when
/// one was found within the bound, the number of nodes popped, and the wall
/// time spent.
pub struct SearchResult {
    pub solution: Option<Vec<Turn>>,
    pub solution_len: Option<usize>,
    pub node_visited: usize,
    pub wall_time: std::time::Duration,
}

/// Whether applying `ts` to a cube in state `init` solves it.
pub open spec fn solves(init: CubeView, ts: Seq<Turn>) -> bool {
    spec_is_solved(
        CubeView { mats: spec_apply_turns(init.mats, ts, init.size), order: init.order, size: init.size },
    )
}

/// One explored state: a snapshot of the cube, the turn that produced it,
/// the arena index of its parent, and the length of the path from the root.
struct Node {
    state: Cube,
    prev_action: Option<Turn>,
    parent: Option<usize>,
    path_cost: usize,
}

/// The turn path leading to node `i`: the parent's path plus the node's own
/// action.
spec fn node_path(a: Seq<Node>, i: int) -> Seq<Turn>
    decreases i,
{
    if 0 <= i < a.len() {
        match a[i].parent {
            Option::Some(p) => if p < i {
                match a[i].prev_action {
                    Option::Some(t) => node_path(a, p as int).push(t),
                    Option::None => Seq::empty(),
                }
            } else {
                Seq::empty()
            },
            Option::None => Seq::empty(),
        }
    } else {
        Seq::empty()
    }
}

/// Every arena node carries the state its path produces: parents come
/// earlier, the snapshot equals the root state with the path applied, and
/// the stored cost is the path length.
spec fn node_ok(a: Seq<Node>, i: int, init: CubeView) -> bool {
    let n = a[i];
    &&& n.state.wf()
    &&& n.state@.size == init.size
    &&& n.state@.order == init.order
    &&& match n.parent {
        Option::Some(p) => (p as int) < i && n.prev_action is Some,
        Option::None => n.prev_action is None,
    }
    &&& n.state@.mats == spec_apply_turns(init.mats, node_path(a, i), init.size)
    &&& n.path_cost == node_path(a, i).len()
    &&& gen_seq(node_path(a, i))
    &&& spec_reduced(node_path(a, i))
}

spec fn arena_ok(a: Seq<Node>, init: CubeView) -> bool {
    forall|i: int| 0 <= i < a.len() ==> node_ok(a, i, init)
}

/// One node's cached evaluation, once computed, is at least its parent's:
/// evaluations never decrease along a parent chain.
spec fn eval_entry_monotone(a: Seq<Node>, evals: Seq<Option<usize>>, i: int) -> bool {
    match (evals[i], a[i].parent) {
        (Option::Some(fi), Option::Some(p)) => evals[p as int] matches Option::Some(fp) && fp
            <= fi,
        _ => true,
    }
}

spec fn evals_monotone(a: Seq<Node>, evals: Seq<Option<usize>>) -> bool {
    forall|i: int| 0 <= i < a.len() ==> #[trigger] eval_entry_monotone(a, evals, i)
}

/// A node is only ever evaluated after its parent.
spec fn child_eval_after_parent(a: Seq<Node>, evals: Seq<Option<usize>>, i: int) -> bool {
    match a[i].parent {
        Option::Some(p) => evals[p as int] is None ==> evals[i] is None,
        Option::None => true,
    }
}

spec fn evals_ordered(a: Seq<Node>, evals: Seq<Option<usize>>) -> bool {
    forall|i: int| 0 <= i < a.len() ==> #[trigger] child_eval_after_parent(a, evals, i)
}

/// Whatever evaluation is cached for a node is the one its path defines.
spec fn evals_correct(
    a: Seq<Node>,
    evals: Seq<Option<usize>>,
    init: CubeView,
    h: Heuristic,
    i: int,
) -> bool {
    evals[i] matches Option::Some(fi) ==> fi == path_f(init, h, node_path(a, i))
}

/// Whether the expansion step would skip candidate `c` under the previous
/// action `prev`.
spec fn cand_skip(prev: Option<Turn>, c: Turn) -> bool {
    match prev {
        Option::Some(t) => t.spec_is_reversed(c),
        Option::None => false,
    }
}

/// Every reduced solving sequence over the generated moves evaluates at or
/// above the current threshold: the thresholds already tried found no goal.
spec fn above_threshold(init: CubeView, h: Heuristic, limit: int, ts: Seq<Turn>) -> bool {
    (gen_seq(ts) && spec_reduced(ts) && solves(init, ts)) ==> path_f(init, h, ts) >= limit
}

/// The depth-first loop never loses a solution: every reduced solving
/// sequence over the generated moves either still has an ancestor node
/// waiting on the stack, or its evaluation was seen to exceed the
/// threshold (and is at least the next threshold candidate).
spec fn covered(
    init: CubeView,
    h: Heuristic,
    limit: int,
    min_f: int,
    stack: Seq<usize>,
    a: Seq<Node>,
    ts: Seq<Turn>,
) -> bool {
    (gen_seq(ts) && spec_reduced(ts) && solves(init, ts)) ==> ((exists|k: int|
        0 <= k < stack.len() && is_path_prefix(node_path(a, #[trigger] stack[k] as int), ts)) || (
    path_f(init, h, ts) > limit && path_f(init, h, ts) >= min_f))
}

/// A node's path only reads entries up to its own index, so it survives
/// growing the arena or rewriting later entries.
proof fn lemma_node_path_frame(a1: Seq<Node>, a2: Seq<Node>, i: int)
    requires
        0 <= i < a1.len(),
        a1.len() <= a2.len(),
        forall|k: int|
            0 <= k <= i ==> a2[k].parent == a1[k].parent && a2[k].prev_action == a1[k].prev_action,
    ensures
        node_path(a2, i) == node_path(a1, i),
    decreases i,
{
    match a1[i].parent {
        Option::Some(p) => {
            if p < i {
                lemma_node_path_frame(a1, a2, p as int);
            }
        },
        Option::None => {},
    }
}

/// Rebuilds the turn path of node `i` by walking the parent links.
fn build_path(arena: &Vec<Node>, i: usize) -> (path: Vec<Turn>)
    requires
        i < arena@.len(),
        forall|k: int|
            0 <= k < arena@.len() ==> match (#[trigger] arena@[k]).parent {
                Option::Some(p) => (p as int) < k && arena@[k].prev_action is Some,
                Option::None => true,
            },
    ensures
        path@ == node_path(arena@, i as int),
    decreases i,
{
    match &arena[i].parent {
        Option::None => Vec::new(),
        Option::Some(p) => {
            let mut path = build_path(arena, *p);
            let t = arena[i].prev_action.unwrap();
            path.push(t);
            path
        },
    }
}

/// Powers of seven, the branching bound used by the termination measure.
pub open spec fn pow7(e: nat) -> nat
    decreases e,
{
    if e == 0 {
        1
    } else {
        7 * pow7((e - 1) as nat)
    }
}

proof fn lemma_pow7_pos(e: nat)
    ensures
        pow7(e) >= 1,
    decreases e,
{
    if e > 0 {
        lemma_pow7_pos((e - 1) as nat);
    }
}

/// The weight of a stack entry: exponential in how far the node still is
/// from the depth bound, so expanding it into children strictly shrinks the
/// total.
spec fn node_weight(a: Seq<Node>, i: usize, limit: int) -> nat {
    pow7((limit + 2 - a[i as int].path_cost) as nat)
}

/// The termination measure of the depth-first stack.
spec fn stack_measure(stack: Seq<usize>, a: Seq<Node>, limit: int) -> nat
    decreases stack.len(),
{
    if stack.len() == 0 {
        0
    } else {
        stack_measure(stack.drop_last(), a, limit) + node_weight(a, stack.last(), limit)
    }
}

/// The measure ignores arena entries that no stack index reaches, so it
/// survives growing the arena.
proof fn lemma_stack_measure_frame(stack: Seq<usize>, a1: Seq<Node>, a2: Seq<Node>, limit: int)
    requires
        a1.len() <= a2.len(),
        forall|k: int|
            0 <= k < stack.len() ==> (#[trigger] stack[k] as int) < a1.len()
                && a2[stack[k] as int].path_cost == a1[stack[k] as int].path_cost,
    ensures
        stack_measure(stack, a2, limit) == stack_measure(stack, a1, limit),
    decreases stack.len(),
{
    if stack.len() > 0 {
        lemma_stack_measure_frame(stack.drop_last(), a1, a2, limit);
        assert(stack.last() == stack[stack.len() - 1]);
    }
}

proof fn lemma_stack_measure_push(stack: Seq<usize>, a: Seq<Node>, limit: int, x: usize)
    ensures
        stack_measure(stack.push(x), a, limit) == stack_measure(stack, a, limit) + node_weight(
            a,
            x,
            limit,
        ),
{
    assert(stack.push(x).drop_last() =~= stack);
    assert(stack.push(x).last() == x);
}

/// The threshold past which the search reports failure instead of
/// deepening further.
pub const GIVE_UP_LIMIT: usize = 28;

/// Iterative-deepening heuristic search for a turn sequence that solves
/// `init_cube`.
///
/// Depth-first search over an explicit stack, pruned at an integer
/// threshold that starts at the root's heuristic value and grows to the
/// smallest pruned evaluation until the give-up bound is passed. Each
/// node's evaluation is `max(depth + heuristic, parent's evaluation)`, so
/// evaluations never decrease along a path even under an inconsistent
/// heuristic. A child that would undo its parent's turn is never generated.
///
/// Any solution returned really solves the cube, uses only the generated
/// moves, and a cube that is already solved reports an empty solution after
/// visiting only the root. A returned solution is optimal by evaluation:
/// its `path_f` is the least of any solving generated-move sequence's, so
/// its length never exceeds such a sequence's evaluation — in particular it
/// is within two turns of the shortest (exactly the heuristics' ceiling,
/// which they can reach on a solved-but-reoriented state; a sharper
/// length-optimality claim is not a theorem of this engine). Running past
/// the give-up bound is a normal outcome, reported as no solution — and it
/// is only reported when every solving generated-move sequence evaluates
/// past the bound, so when nothing two turns short of the bound solves the
/// cube.
#[verifier::rlimit(100)]
#[verifier::spinoff_prover]
pub fn idastar(init_cube: Cube, heuristic: &Heuristic, print_progress: bool) -> (r: SearchResult)
    requires
        init_cube.wf(),
        init_cube@.size == 2,
        heuristic.wf(),
    ensures
        r.node_visited >= 1,
        (match r.solution {
            Option::Some(path) => (r.solution_len matches Option::Some(l) && l == path@.len())
                && solves(init_cube@, path@) && gen_seq(path@),
            Option::None => r.solution_len is None,
        }),
        spec_is_solved(init_cube@) ==> (r.solution matches Option::Some(path) && path@.len() == 0
            && r.node_visited == 1),
        // the returned solution is optimal by evaluation: no solving
        // sequence over the generated moves evaluates below it, its own
        // evaluation sits within the give-up bound, and it is at most two
        // turns longer than any solving sequence at all (the two is the
        // heuristics' ceiling)
        r.solution matches Option::Some(path) ==> ({
            &&& path@.len() <= path_f(init_cube@, *heuristic, path@)
            &&& path_f(init_cube@, *heuristic, path@) <= GIVE_UP_LIMIT
            &&& forall|ts: Seq<Turn>|
                gen_seq(ts) && spec_reduced(ts) && solves(init_cube@, ts) ==> path_f(
                    init_cube@,
                    *heuristic,
                    path@,
                ) <= path_f(init_cube@, *heuristic, ts)
            &&& forall|ts: Seq<Turn>|
                gen_seq(ts) && solves(init_cube@, ts) ==> path@.len() <= ts.len() + 2
        }),
        // failure means every reduced solving sequence over the generated
        // moves evaluates past the give-up bound — so in particular nothing
        // short enough solves the cube
        r.solution is None ==> (forall|ts: Seq<Turn>|
            gen_seq(ts) && spec_reduced(ts) && solves(init_cube@, ts) ==> path_f(
                init_cube@,
                *heuristic,
                ts,
            ) > GIVE_UP_LIMIT),
        r.solution is None ==> (forall|ts: Seq<Turn>|
            gen_seq(ts) && ts.len() + 2 <= GIVE_UP_LIMIT ==> !solves(init_cube@, ts)),
{
    let ghost init = init_cube@;
    let start_time = instant_now();
    let root_h = heuristic.evaluate(&init_cube);
    if init_cube.is_solved() {
        if print_progress {
            report_progress(root_h);
        }
        proof {
            assert(spec_apply_turns(init.mats, Seq::<Turn>::empty(), init.size) == init.mats);
            assert(solves(init, Seq::<Turn>::empty()));
            assert(state_after(init, Seq::<Turn>::empty()) == init);
            assert(path_f(init, *heuristic, Seq::<Turn>::empty()) == root_h as int);
            assert forall|ts: Seq<Turn>|
                gen_seq(ts) && spec_reduced(ts) && solves(init, ts) implies path_f(
                init,
                *heuristic,
                Seq::<Turn>::empty(),
            ) <= path_f(init, *heuristic, ts) by {
                assert(ts.subrange(0, 0) =~= Seq::<Turn>::empty());
                lemma_path_f_prefix(init, *heuristic, Seq::<Turn>::empty(), ts);
            }
        }
        return SearchResult {
            solution: Option::Some(Vec::new()),
            solution_len: Option::Some(0),
            node_visited: 1,
            wall_time: elapsed_since(&start_time),
        };
    }
    let mut limit: usize = root_h;
    let mut node_visited: usize = 0;
    proof {
        // no solving sequence evaluates below the first threshold, the
        // root's own heuristic value
        assert forall|ts: Seq<Turn>| #[trigger] above_threshold(
            init,
            *heuristic,
            limit as int,
            ts,
        ) by {
            if gen_seq(ts) && spec_reduced(ts) && solves(init, ts) {
                assert(ts.subrange(0, 0) =~= Seq::<Turn>::empty());
                lemma_path_f_prefix(init, *heuristic, Seq::<Turn>::empty(), ts);
                assert(state_after(init, Seq::<Turn>::empty()) == init) by {
                    assert(spec_apply_turns(init.mats, Seq::<Turn>::empty(), init.size)
                        == init.mats);
                }
                assert(path_f(init, *heuristic, Seq::<Turn>::empty()) == root_h as int);
            }
        }
    }
    loop
        invariant
            init_cube.wf(),
            init_cube@ == init,
            init.size == 2,
            heuristic.wf(),
            !spec_is_solved(init),
            limit <= GIVE_UP_LIMIT,
            forall|ts: Seq<Turn>| #[trigger] above_threshold(init, *heuristic, limit as int, ts),
        decreases GIVE_UP_LIMIT + 1 - limit,
    {
        if print_progress {
            report_progress(limit);
        }
        let mut arena: Vec<Node> = Vec::new();
        let mut evals: Vec<Option<usize>> = Vec::new();
        let mut stack: Vec<usize> = Vec::new();
        arena.push(
            Node {
                state: init_cube.duplicate(),
                prev_action: Option::None,
                parent: Option::None,
                path_cost: 0,
            },
        );
        evals.push(Option::None);
        stack.push(0);
        let mut min_f: usize = usize::MAX;
        proof {
            assert(node_path(arena@, 0) == Seq::<Turn>::empty());
            assert(spec_apply_turns(init.mats, Seq::<Turn>::empty(), init.size) == init.mats);
            assert(node_ok(arena@, 0, init));
            assert(arena_ok(arena@, init));
            // the root's empty path starts every solving sequence
            assert forall|ts: Seq<Turn>| #[trigger] covered(
                init,
                *heuristic,
                limit as int,
                min_f as int,
                stack@,
                arena@,
                ts,
            ) by {
                if gen_seq(ts) && spec_reduced(ts) && solves(init, ts) {
                    assert(ts.subrange(0, 0) =~= Seq::<Turn>::empty());
                    assert(0 <= 0 < stack@.len() && is_path_prefix(
                        node_path(arena@, stack@[0] as int),
                        ts,
                    ));
                }
            }
        }
        while stack.len() > 0
            invariant
                init_cube.wf(),
                init_cube@ == init,
                init.size == 2,
                heuristic.wf(),
                !spec_is_solved(init),
                limit <= GIVE_UP_LIMIT,
                forall|ts: Seq<Turn>| #[trigger] above_threshold(
                    init,
                    *heuristic,
                    limit as int,
                    ts,
                ),
                evals@.len() == arena@.len(),
                arena_ok(arena@, init),
                forall|k: int|
                    0 <= k < stack@.len() ==> (#[trigger] stack@[k] as int) < arena@.len(),
                forall|k: int|
                    0 <= k < stack@.len() ==> arena@[#[trigger] stack@[k] as int].path_cost
                        <= limit + 1,
                forall|k: int|
                    0 <= k < stack@.len() ==> match arena@[#[trigger] stack@[k] as int].parent {
                        Option::Some(p) => evals@[p as int] is Some,
                        Option::None => true,
                    },
                forall|k: int|
                    0 <= k < stack@.len() ==> evals@[(#[trigger] stack@[k]) as int] is None,
                forall|k1: int, k2: int|
                    0 <= k1 < k2 < stack@.len() ==> stack@[k1] != stack@[k2],
                evals_monotone(arena@, evals@),
                evals_ordered(arena@, evals@),
                forall|i2: int|
                    0 <= i2 < arena@.len() ==> #[trigger] evals_correct(
                        arena@,
                        evals@,
                        init,
                        *heuristic,
                        i2,
                    ),
                forall|ts: Seq<Turn>| #[trigger] covered(
                    init,
                    *heuristic,
                    limit as int,
                    min_f as int,
                    stack@,
                    arena@,
                    ts,
                ),
                min_f > limit,
                node_visited >= 1 || stack@.len() >= 1,
            decreases stack_measure(stack@, arena@, limit as int),
        {
            let ghost m0 = stack_measure(stack@, arena@, limit as int);
            let ghost stack0 = stack@;
            let ghost evals0 = evals@;
            let idx = stack.pop().unwrap();
            let ghost w_pop = node_weight(arena@, idx, limit as int);
            proof {
                assert(stack@ == stack0.drop_last());
                assert(idx == stack0.last());
                assert(m0 == stack_measure(stack@, arena@, limit as int) + w_pop);
                assert(node_ok(arena@, idx as int, init));
            }
            node_visited = node_visited.saturating_add(1);
            let g = arena[idx].path_cost;
            let h = heuristic.evaluate(&arena[idx].state);
            let parent_f: usize = match arena[idx].parent {
                Option::Some(p) => evals[p].unwrap(),
                Option::None => 0,
            };
            let gh = g + h;
            let f = if gh > parent_f {
                gh
            } else {
                parent_f
            };
            evals.set(idx, Option::Some(f));
            proof {
                assert(evals@ == evals0.update(idx as int, Option::Some(f)));
                assert forall|k2: int| 0 <= k2 < stack@.len() implies match arena@[(
                #[trigger] stack@[k2]) as int].parent {
                    Option::Some(p) => evals@[p as int] is Some,
                    Option::None => true,
                } by {
                    assert(stack@[k2] == stack0[k2]);
                    assert(node_ok(arena@, stack0[k2] as int, init));
                    match arena@[stack0[k2] as int].parent {
                        Option::Some(p) => {
                            assert((p as int) < arena@.len());
                            assert(evals0[p as int] is Some);
                            assert(evals@[p as int] is Some);
                        },
                        Option::None => {},
                    }
                }
                // nothing left on the stack is evaluated: the popped index
                // occurred only once
                assert forall|k2: int| 0 <= k2 < stack@.len() implies evals@[(
                #[trigger] stack@[k2]) as int] is None by {
                    assert(stack@[k2] == stack0[k2]);
                    assert(stack0[k2] != idx);
                }
                // the cache stays monotone along parent chains
                assert forall|i2: int| 0 <= i2 < arena@.len() implies eval_entry_monotone(
                    arena@,
                    evals@,
                    i2,
                ) by {
                    assert(node_ok(arena@, i2, init));
                    assert(eval_entry_monotone(arena@, evals0, i2));
                    assert(child_eval_after_parent(arena@, evals0, i2));
                    if i2 == idx as int {
                        match arena@[i2].parent {
                            Option::Some(p) => {
                                assert((p as int) < i2);
                                assert(evals0[p as int] is Some);
                                assert(evals@[p as int] == evals0[p as int]);
                                assert(parent_f <= f);
                            },
                            Option::None => {},
                        }
                    } else {
                        match (evals@[i2], arena@[i2].parent) {
                            (Option::Some(fi), Option::Some(p)) => {
                                if p as int == idx as int {
                                    assert(evals0[idx as int] is None);
                                    assert(evals0[i2] is None);
                                    assert(false);
                                }
                            },
                            _ => {},
                        }
                    }
                }
                // the fresh cache entry is the evaluation its path defines
                assert forall|i2: int| 0 <= i2 < arena@.len() implies evals_correct(
                    arena@,
                    evals@,
                    init,
                    *heuristic,
                    i2,
                ) by {
                    assert(node_ok(arena@, i2, init));
                    if i2 == idx as int {
                        let p = node_path(arena@, idx as int);
                        assert(state_after(init, p) == arena@[idx as int].state@);
                        assert(g == p.len());
                        match (arena@[idx as int].parent, arena@[idx as int].prev_action) {
                            (Option::Some(par), Option::Some(t)) => {
                                assert(p == node_path(arena@, par as int).push(t));
                                assert(p.drop_last() =~= node_path(arena@, par as int));
                                assert(evals0[par as int] is Some);
                                assert(evals_correct(arena@, evals0, init, *heuristic, par as int));
                                assert(parent_f == path_f(init, *heuristic, p.drop_last()));
                                assert(f == path_f(init, *heuristic, p));
                            },
                            (Option::None, _) => {
                                assert(p.len() == 0);
                                assert(f == path_f(init, *heuristic, p));
                            },
                            _ => {
                                assert(false);
                            },
                        }
                    } else {
                        assert(evals_correct(arena@, evals0, init, *heuristic, i2));
                        assert(evals@[i2] == evals0[i2]);
                    }
                }
                // and a node stays unevaluated while its parent is
                assert forall|i2: int| 0 <= i2 < arena@.len() implies child_eval_after_parent(
                    arena@,
                    evals@,
                    i2,
                ) by {
                    assert(node_ok(arena@, i2, init));
                    assert(child_eval_after_parent(arena@, evals0, i2));
                    if i2 != idx as int {
                        match arena@[i2].parent {
                            Option::Some(p) => {
                                if p as int != idx as int {
                                    assert(evals@[p as int] == evals0[p as int]);
                                }
                            },
                            Option::None => {},
                        }
                    } else {
                        match arena@[i2].parent {
                            Option::Some(p) => {
                                assert((p as int) < i2);
                                assert(evals0[p as int] is Some);
                            },
                            Option::None => {},
                        }
                    }
                }
            }
            if f > limit {
                let ghost min_f0 = min_f;
                if f < min_f {
                    min_f = f;
                }
                proof {
                    lemma_pow7_pos((limit + 2 - arena@[idx as int].path_cost) as nat);
                    // pruning loses no solution: a sequence below this node
                    // evaluates past the threshold, and no lower than the
                    // next threshold candidate
                    assert forall|ts: Seq<Turn>| #[trigger] covered(
                        init,
                        *heuristic,
                        limit as int,
                        min_f as int,
                        stack@,
                        arena@,
                        ts,
                    ) by {
                        if gen_seq(ts) && spec_reduced(ts) && solves(init, ts) {
                            assert(covered(
                                init,
                                *heuristic,
                                limit as int,
                                min_f0 as int,
                                stack0,
                                arena@,
                                ts,
                            ));
                            if exists|kk: int|
                                0 <= kk < stack0.len() && is_path_prefix(
                                    node_path(arena@, #[trigger] stack0[kk] as int),
                                    ts,
                                ) {
                                let kk = choose|kk: int|
                                    0 <= kk < stack0.len() && is_path_prefix(
                                        node_path(arena@, #[trigger] stack0[kk] as int),
                                        ts,
                                    );
                                if kk < stack0.len() - 1 {
                                    assert(stack@[kk] == stack0[kk]);
                                } else {
                                    assert(stack0[kk] == idx);
                                    let p = node_path(arena@, idx as int);
                                    lemma_path_f_prefix(init, *heuristic, p, ts);
                                    assert(evals_correct(arena@, evals@, init, *heuristic, idx as int));
                                    assert(f == path_f(init, *heuristic, p));
                                    assert(path_f(init, *heuristic, ts) > limit);
                                    assert(path_f(init, *heuristic, ts) >= min_f as int);
                                }
                            }
                        }
                    }
                }
                continue;
            }
            if arena[idx].state.is_solved() {
                proof {
                    assert forall|k: int| 0 <= k < arena@.len() implies match (
                    #[trigger] arena@[k]).parent {
                        Option::Some(p) => (p as int) < k && arena@[k].prev_action is Some,
                        Option::None => true,
                    } by {
                        assert(node_ok(arena@, k, init));
                    }
                }
                let path = build_path(&arena, idx);
                let len = path.len();
                proof {
                    let st = arena@[idx as int].state;
                    assert(st@.mats == spec_apply_turns(init.mats, path@, init.size));
                    assert(spec_is_solved(st@));
                    let cv = CubeView {
                        mats: spec_apply_turns(init.mats, path@, init.size),
                        order: init.order,
                        size: init.size,
                    };
                    assert(cv.mats == st@.mats);
                    assert(spec_is_solved(cv));
                    assert(solves(init, path@));
                    assert(gen_seq(path@));
                    // the found node's cached evaluation is its path's, it
                    // passed the threshold, and nothing solving evaluates
                    // below the threshold
                    assert(evals_correct(arena@, evals@, init, *heuristic, idx as int));
                    assert(f == path_f(init, *heuristic, path@));
                    assert(path@.len() <= f);
                    assert forall|ts: Seq<Turn>|
                        gen_seq(ts) && spec_reduced(ts) && solves(init, ts) implies path_f(
                        init,
                        *heuristic,
                        path@,
                    ) <= path_f(init, *heuristic, ts) by {
                        assert(above_threshold(init, *heuristic, limit as int, ts));
                    }
                    assert forall|ts: Seq<Turn>|
                        gen_seq(ts) && solves(init, ts) implies path@.len() <= ts.len() + 2 by {
                        init_cube.lemma_wf_view();
                        lemma_reduce_cancelling(init, ts);
                        let ts2 = choose|ts2: Seq<Turn>|
                            gen_seq(ts2) && spec_reduced(ts2) && solves(init, ts2) && ts2.len()
                                <= ts.len();
                        lemma_path_f_le(init, *heuristic, ts2);
                        assert(above_threshold(init, *heuristic, limit as int, ts2));
                        assert(path_f(init, *heuristic, ts2) >= limit as int);
                    }
                }
                return SearchResult {
                    solution_len: Option::Some(len),
                    solution: Option::Some(path),
                    node_visited,
                    wall_time: elapsed_since(&start_time),
                };
            }
            // expand: one candidate pair of directions per axis; skipping
            // the reverse of the turn that produced this node
            proof {
                assert(g + h <= f && f <= limit);
            }
            let ghost m1 = stack_measure(stack@, arena@, limit as int);
            let ghost w = pow7((limit + 1 - g) as nat);
            let ghost a_mid = arena@;
            let ghost s_mid = stack@;
            let prev_action = arena[idx].prev_action;
            let mut k: usize = 0;
            while k < 6
                invariant
                    init_cube.wf(),
                    init_cube@ == init,
                    init.size == 2,
                    heuristic.wf(),
                    !spec_is_solved(init),
                    limit <= GIVE_UP_LIMIT,
                    k <= 6,
                    idx < arena@.len(),
                    g == arena@[idx as int].path_cost,
                    g <= limit,
                    evals@.len() == arena@.len(),
                    evals@[idx as int] is Some,
                    arena_ok(arena@, init),
                    forall|k2: int|
                        0 <= k2 < stack@.len() ==> (#[trigger] stack@[k2] as int) < arena@.len(),
                    forall|k2: int|
                        0 <= k2 < stack@.len() ==> arena@[#[trigger] stack@[k2] as int].path_cost
                            <= limit + 1,
                    forall|k2: int|
                        0 <= k2 < stack@.len() ==> match arena@[#[trigger] stack@[k2] as int].parent {
                            Option::Some(p) => evals@[p as int] is Some,
                            Option::None => true,
                        },
                    forall|k2: int|
                        0 <= k2 < stack@.len() ==> evals@[(#[trigger] stack@[k2]) as int] is None,
                    forall|k1: int, k2: int|
                        0 <= k1 < k2 < stack@.len() ==> stack@[k1] != stack@[k2],
                    evals_monotone(arena@, evals@),
                    evals_ordered(arena@, evals@),
                    forall|i2: int|
                        0 <= i2 < arena@.len() ==> #[trigger] evals_correct(
                            arena@,
                            evals@,
                            init,
                            *heuristic,
                            i2,
                        ),
                    min_f > limit,
                    node_visited >= 1,
                    w == pow7((limit + 1 - g) as nat),
                    stack_measure(stack@, arena@, limit as int) <= m1 + (k as int) * w,
                    a_mid.len() <= arena@.len(),
                    forall|j: int| 0 <= j < a_mid.len() ==> arena@[j] == a_mid[j],
                    s_mid.len() <= stack@.len(),
                    forall|j: int| 0 <= j < s_mid.len() ==> stack@[j] == s_mid[j],
                    idx < a_mid.len(),
                    prev_action == a_mid[idx as int].prev_action,
                    forall|j: int|
                        0 <= j < k ==> #[trigger] cand_skip(prev_action, spec_candidate(j)) || (
                        exists|k2: int|
                            0 <= k2 < stack@.len() && node_path(arena@, #[trigger] stack@[k2] as int)
                                == node_path(arena@, idx as int).push(spec_candidate(j))),
                decreases 6 - k,
            {
                let turn = candidate_turn(k);
                let skip = match &prev_action {
                    Option::Some(t) => t.is_reversed(&turn),
                    Option::None => false,
                };
                proof {
                    assert(skip == cand_skip(prev_action, turn));
                }
                if !skip {
                    proof {
                        assert(node_ok(arena@, idx as int, init));
                    }
                    let mut cs = arena[idx].state.duplicate();
                    cs.turn_layer(&turn, 1);
                    let ghost a_old = arena@;
                    let ghost s_old = stack@;
                    let ghost e_old = evals@;
                    arena.push(
                        Node {
                            state: cs,
                            prev_action: Option::Some(turn),
                            parent: Option::Some(idx),
                            path_cost: g + 1,
                        },
                    );
                    evals.push(Option::None);
                    let ci = arena.len() - 1;
                    stack.push(ci);
                    proof {
                        assert forall|i2: int| 0 <= i2 < a_old.len() implies node_path(arena@, i2)
                            == node_path(a_old, i2) by {
                            lemma_node_path_frame(a_old, arena@, i2);
                        }
                        assert(node_path(arena@, ci as int) == node_path(a_old, idx as int).push(
                            turn,
                        ));
                        lemma_apply_turns_snoc(
                            init.mats,
                            node_path(a_old, idx as int),
                            turn,
                            init.size,
                        );
                        // the child's path stays within the generated moves
                        // and never undoes its last turn
                        let p = node_path(a_old, idx as int);
                        assert(gen_seq(p.push(turn))) by {
                            assert forall|j: int| 0 <= j < p.push(turn).len() implies gen_turn(
                                #[trigger] p.push(turn)[j],
                            ) by {
                                if j < p.len() {
                                    assert(p.push(turn)[j] == p[j]);
                                } else {
                                    assert(p.push(turn)[j] == turn);
                                }
                            }
                        }
                        assert(spec_reduced(p.push(turn))) by {
                            assert forall|j: int| 0 <= j < p.push(turn).len() - 1 implies !(
                            #[trigger] p.push(turn)[j + 1]).spec_is_reversed(p.push(turn)[j]) by {
                                if j < p.len() - 1 {
                                    assert(p.push(turn)[j + 1] == p[j + 1]);
                                    assert(p.push(turn)[j] == p[j]);
                                } else {
                                    assert(a_old[idx as int] == a_mid[idx as int]);
                                    assert(prev_action == a_mid[idx as int].prev_action);
                                    match (a_old[idx as int].parent, a_old[idx as int].prev_action) {
                                        (Option::Some(par), Option::Some(t)) => {
                                            assert(p == node_path(a_old, par as int).push(t));
                                            assert(p[p.len() - 1] == t);
                                            assert(prev_action == Option::Some(t));
                                            assert(!t.spec_is_reversed(turn));
                                            lemma_reversed_symmetric(turn, t);
                                        },
                                        (Option::None, _) => {
                                            assert(p.len() == 0);
                                        },
                                        _ => {
                                            assert(false);
                                        },
                                    }
                                }
                            }
                        }
                        assert(node_ok(arena@, ci as int, init));
                        assert forall|i2: int| 0 <= i2 < arena@.len() implies node_ok(
                            arena@,
                            i2,
                            init,
                        ) by {
                            if i2 < a_old.len() {
                                assert(node_ok(a_old, i2, init));
                            }
                        }
                        lemma_stack_measure_frame(s_old, a_old, arena@, limit as int);
                        lemma_stack_measure_push(s_old, arena@, limit as int, ci);
                        assert(node_weight(arena@, ci, limit as int) == w);
                        assert forall|i2: int| 0 <= i2 < arena@.len() implies eval_entry_monotone(
                            arena@,
                            evals@,
                            i2,
                        ) && child_eval_after_parent(arena@, evals@, i2) by {
                            if i2 < a_old.len() {
                                assert(node_ok(a_old, i2, init));
                                assert(eval_entry_monotone(a_old, e_old, i2));
                                assert(child_eval_after_parent(a_old, e_old, i2));
                                assert(arena@[i2] == a_old[i2]);
                                assert(evals@[i2] == e_old[i2]);
                            } else {
                                assert(i2 == ci as int);
                                assert(evals@[i2] is None);
                            }
                        }
                        assert forall|k2: int| 0 <= k2 < stack@.len() implies match arena@[(
                        #[trigger] stack@[k2]) as int].parent {
                            Option::Some(p) => evals@[p as int] is Some,
                            Option::None => true,
                        } by {
                            if k2 < s_old.len() {
                                assert(stack@[k2] == s_old[k2]);
                                assert(node_ok(a_old, s_old[k2] as int, init));
                                match a_old[s_old[k2] as int].parent {
                                    Option::Some(p) => {
                                        assert((p as int) < a_old.len());
                                    },
                                    Option::None => {},
                                }
                            } else {
                                assert(stack@[k2] == ci);
                                assert(arena@[ci as int].parent == Option::Some(idx));
                                assert(evals@[idx as int] is Some);
                            }
                        }
                        // cached evaluations still match their paths
                        assert forall|i2: int| 0 <= i2 < arena@.len() implies evals_correct(
                            arena@,
                            evals@,
                            init,
                            *heuristic,
                            i2,
                        ) by {
                            if i2 < a_old.len() {
                                assert(evals_correct(a_old, e_old, init, *heuristic, i2));
                                assert(evals@[i2] == e_old[i2]);
                            } else {
                                assert(evals@[i2] is None);
                            }
                        }
                        // every candidate handled so far has its child on
                        // the stack (or was the skipped reverse)
                        assert(node_path(arena@, idx as int) == node_path(a_old, idx as int));
                        assert forall|j: int| 0 <= j < k + 1 implies #[trigger] cand_skip(
                            prev_action,
                            spec_candidate(j),
                        ) || (exists|k2: int|
                            0 <= k2 < stack@.len() && node_path(arena@, #[trigger] stack@[k2] as int)
                                == node_path(arena@, idx as int).push(spec_candidate(j))) by {
                            if j < k {
                                if !cand_skip(prev_action, spec_candidate(j)) {
                                    let k2 = choose|k2: int|
                                        0 <= k2 < s_old.len() && node_path(
                                            a_old,
                                            #[trigger] s_old[k2] as int,
                                        ) == node_path(a_old, idx as int).push(spec_candidate(j));
                                    assert(stack@[k2] == s_old[k2]);
                                    lemma_node_path_frame(a_old, arena@, s_old[k2] as int);
                                }
                            } else {
                                let k2 = stack@.len() - 1;
                                assert(stack@[k2] == ci);
                                assert(node_path(arena@, ci as int) == node_path(
                                    arena@,
                                    idx as int,
                                ).push(turn));
                            }
                        }
                    }
                }
                proof {
                    assert((k as int) * w + w == (k as int + 1) * w) by (nonlinear_arith);
                }
                k += 1;
            }
            proof {
                assert(m0 == m1 + w_pop);
                assert(w_pop == pow7((limit + 2 - g) as nat));
                assert(pow7((limit + 2 - g) as nat) == 7 * w);
                lemma_pow7_pos((limit + 1 - g) as nat);
                assert(stack_measure(stack@, arena@, limit as int) <= m1 + 6 * w);
                assert(stack_measure(stack@, arena@, limit as int) < m0);
                // expansion loses no solution: a sequence below this node
                // continues below one of its children
                assert forall|ts: Seq<Turn>| #[trigger] covered(
                    init,
                    *heuristic,
                    limit as int,
                    min_f as int,
                    stack@,
                    arena@,
                    ts,
                ) by {
                    if gen_seq(ts) && spec_reduced(ts) && solves(init, ts) {
                        assert(covered(
                            init,
                            *heuristic,
                            limit as int,
                            min_f as int,
                            stack0,
                            a_mid,
                            ts,
                        ));
                        if exists|kk: int|
                            0 <= kk < stack0.len() && is_path_prefix(
                                node_path(a_mid, #[trigger] stack0[kk] as int),
                                ts,
                            ) {
                            let kk = choose|kk: int|
                                0 <= kk < stack0.len() && is_path_prefix(
                                    node_path(a_mid, #[trigger] stack0[kk] as int),
                                    ts,
                                );
                            if kk < stack0.len() - 1 {
                                assert(stack@[kk] == s_mid[kk]);
                                assert(s_mid[kk] == stack0[kk]);
                                lemma_node_path_frame(a_mid, arena@, stack0[kk] as int);
                            } else {
                                assert(stack0[kk] == idx);
                                let p = node_path(a_mid, idx as int);
                                lemma_node_path_frame(a_mid, arena@, idx as int);
                                assert(node_path(arena@, idx as int) == p);
                                if ts.len() == p.len() {
                                    assert(ts.subrange(0, p.len() as int) =~= ts);
                                    assert(ts == p);
                                    let st = a_mid[idx as int].state;
                                    assert(st@.mats == spec_apply_turns(init.mats, p, init.size));
                                    assert(state_after(init, p).mats == st@.mats);
                                    assert(!spec_is_solved(st@));
                                    assert(false);
                                } else {
                                    let c = ts[p.len() as int];
                                    assert(gen_turn(c));
                                    assert(!cand_skip(prev_action, c)) by {
                                        assert(prev_action == a_mid[idx as int].prev_action);
                                        assert(node_ok(a_mid, idx as int, init));
                                        match (
                                            a_mid[idx as int].parent,
                                            a_mid[idx as int].prev_action,
                                        ) {
                                            (Option::Some(par), Option::Some(t)) => {
                                                assert(p == node_path(
                                                    a_mid,
                                                    par as int,
                                                ).push(t));
                                                assert(p[p.len() - 1] == t);
                                                assert(ts.subrange(0, p.len() as int)[p.len() - 1]
                                                    == ts[p.len() - 1]);
                                                assert(ts[p.len() - 1] == t);
                                                assert(!c.spec_is_reversed(t));
                                                lemma_reversed_symmetric(t, c);
                                                assert(prev_action == Option::Some(t));
                                            },
                                            (Option::None, _) => {
                                                assert(p.len() == 0);
                                            },
                                            _ => {
                                                assert(false);
                                            },
                                        }
                                    }
                                    lemma_candidate_covers(c);
                                    let j = choose|j: int| 0 <= j < 6 && c == spec_candidate(j);
                                    assert(!cand_skip(prev_action, spec_candidate(j)));
                                    let k2 = choose|k2: int|
                                        0 <= k2 < stack@.len() && node_path(
                                            arena@,
                                            #[trigger] stack@[k2] as int,
                                        ) == node_path(arena@, idx as int).push(spec_candidate(j));
                                    assert(is_path_prefix(p.push(c), ts)) by {
                                        assert(ts.subrange(0, p.len() as int + 1) =~= p.push(c)) by {
                                            assert forall|i3: int|
                                                0 <= i3 < p.len() as int + 1 implies ts.subrange(
                                                0,
                                                p.len() as int + 1,
                                            )[i3] == p.push(c)[i3] by {
                                                if i3 < p.len() {
                                                    assert(ts.subrange(0, p.len() as int)[i3]
                                                        == ts[i3]);
                                                    assert(p[i3] == ts[i3]);
                                                }
                                            }
                                        }
                                    }
                                    assert(is_path_prefix(
                                        node_path(arena@, stack@[k2] as int),
                                        ts,
                                    ));
                                }
                            }
                        }
                    }
                }
            }
        }
        proof {
            // an empty stack leaves no witnesses: every reduced solving
            // sequence over the generated moves evaluates at or above the
            // next threshold
            assert forall|ts: Seq<Turn>|
                gen_seq(ts) && spec_reduced(ts) && solves(init, ts) implies path_f(
                init,
                *heuristic,
                ts,
            ) >= min_f as int by {
                assert(covered(
                    init,
                    *heuristic,
                    limit as int,
                    min_f as int,
                    stack@,
                    arena@,
                    ts,
                ));
            }
        }
        let ghost mf = min_f as int;
        limit = min_f;
        if limit > GIVE_UP_LIMIT {
            proof {
                // past the give-up bound, every reduced solving sequence
                // evaluates beyond it ...
                assert forall|ts: Seq<Turn>|
                    gen_seq(ts) && spec_reduced(ts) && solves(init, ts) implies path_f(
                    init,
                    *heuristic,
                    ts,
                ) > GIVE_UP_LIMIT by {
                    assert(path_f(init, *heuristic, ts) >= mf);
                }
                // ... so nothing short enough can solve: a solving sequence
                // would first shed its cancelling pairs, and the reduced
                // sequence's evaluation — at most its length plus two —
                // would sit below every threshold tried
                assert forall|ts: Seq<Turn>|
                    gen_seq(ts) && ts.len() + 2 <= GIVE_UP_LIMIT implies !solves(init, ts) by {
                    if solves(init, ts) {
                        init_cube.lemma_wf_view();
                        lemma_reduce_cancelling(init, ts);
                        let ts2 = choose|ts2: Seq<Turn>|
                            gen_seq(ts2) && spec_reduced(ts2) && solves(init, ts2) && ts2.len()
                                <= ts.len();
                        lemma_path_f_le(init, *heuristic, ts2);
                        assert(path_f(init, *heuristic, ts2) >= mf);
                        assert(path_f(init, *heuristic, ts2) <= ts2.len() + 2);
                        assert(mf > GIVE_UP_LIMIT as int);
                        assert(false);
                    }
                }
            }
            return SearchResult {
                solution: Option::None,
                solution_len: Option::None,
                node_visited,
                wall_time: elapsed_since(&start_time),
            };
        }
        proof {
            // the raised threshold is still a lower bound on every
            // reduced solving sequence's evaluation
            assert forall|ts: Seq<Turn>| #[trigger] above_threshold(
                init,
                *heuristic,
                limit as int,
                ts,
            ) by {
                if gen_seq(ts) && spec_reduced(ts) && solves(init, ts) {
                    assert(path_f(init, *heuristic, ts) >= mf);
                }
            }
        }
    }
}

} // verus!
