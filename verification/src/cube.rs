//! Geometry of the cube: colors, axes, face directions, turns, faces,
//! and the cube model itself.
//!
//! A cube of size `n` has six faces, each an `n x n` grid of colors. Faces
//! are named by the direction they point at (`FaceDir`). Turning a face
//! rotates that face's own grid and shifts a band of slices around the four
//! faces surrounding the rotation axis.

use vstd::prelude::*;
use vstd::pervasive::VecAdditionalExecFns;
use vstd::string::StringExecFns;

verus! {

/// A sticker color. Six fixed values, one per face of a solved cube.
#[derive(Debug, PartialEq, Eq, Structural, Clone, Copy)]
pub enum Color {
    White,
    Red,
    Blue,
    Yellow,
    Orange,
    Green,
}

/// One of the two senses a face or the whole cube can be rotated in.
#[derive(Debug, PartialEq, Eq, Structural, Clone, Copy)]
pub enum TurnDir {
    Clockwise,
    CounterClockwise,
}

impl TurnDir {
    pub open spec fn spec_reversed(self) -> TurnDir {
        match self {
            TurnDir::Clockwise => TurnDir::CounterClockwise,
            TurnDir::CounterClockwise => TurnDir::Clockwise,
        }
    }

    /// The opposite sense: clockwise becomes counter-clockwise and back.
    pub fn get_reversed(&self) -> (r: TurnDir)
        ensures
            r == self.spec_reversed(),
    {
        match self {
            TurnDir::Clockwise => TurnDir::CounterClockwise,
            TurnDir::CounterClockwise => TurnDir::Clockwise,
        }
    }
}

/// Reversing a turn direction twice gives the direction back.
pub proof fn lemma_turn_dir_reversed_involutive(d: TurnDir)
    ensures
        d.spec_reversed().spec_reversed() == d,
{
}

/// One of the three orthogonal rotation axes of the cube.
///
/// `X` goes from left to right, `Y` from bottom to top, `Z` from back to
/// front.
#[derive(Debug, PartialEq, Eq, Structural, Clone, Copy)]
pub enum CubeAxis {
    X,
    Y,
    Z,
}

/// The direction one of the six faces points at.
#[derive(Debug, PartialEq, Eq, Structural, Hash, Clone, Copy)]
pub enum FaceDir {
    Up,
    Down,
    Right,
    Left,
    Front,
    Back,
}

impl FaceDir {
    /// The axis this direction lies on.
    pub open spec fn spec_axis(self) -> CubeAxis {
        match self {
            FaceDir::Up => CubeAxis::Y,
            FaceDir::Down => CubeAxis::Y,
            FaceDir::Right => CubeAxis::X,
            FaceDir::Left => CubeAxis::X,
            FaceDir::Front => CubeAxis::Z,
            FaceDir::Back => CubeAxis::Z,
        }
    }

    /// Whether the direction points the positive way along its axis.
    pub open spec fn spec_is_positive(self) -> bool {
        match self {
            FaceDir::Up => true,
            FaceDir::Down => false,
            FaceDir::Right => true,
            FaceDir::Left => false,
            FaceDir::Front => true,
            FaceDir::Back => false,
        }
    }

    /// Returns the axis this direction is on.
    pub fn get_axis(&self) -> (a: CubeAxis)
        ensures
            a == self.spec_axis(),
    {
        match self {
            FaceDir::Up => CubeAxis::Y,
            FaceDir::Down => CubeAxis::Y,
            FaceDir::Right => CubeAxis::X,
            FaceDir::Left => CubeAxis::X,
            FaceDir::Front => CubeAxis::Z,
            FaceDir::Back => CubeAxis::Z,
        }
    }

    /// Returns whether this direction points the positive way on its axis.
    pub fn is_positive(&self) -> (b: bool)
        ensures
            b == self.spec_is_positive(),
    {
        match self {
            FaceDir::Up => true,
            FaceDir::Down => false,
            FaceDir::Right => true,
            FaceDir::Left => false,
            FaceDir::Front => true,
            FaceDir::Back => false,
        }
    }

    /// Returns the axis of rotation and the effective direction of turning
    /// this face in `turn_dir`.
    ///
    /// Turning a negative face (Down, Left, Back) clockwise, as seen from
    /// outside that face, is a counter-clockwise rotation about the shared
    /// axis viewed from the positive side, so the direction flips.
    pub fn get_rotate_axis_and_dir(self, turn_dir: TurnDir) -> (r: (CubeAxis, TurnDir))
        ensures
            r.0 == self.spec_axis(),
            r.1 == spec_effective_dir(self, turn_dir),
    {
        (
            self.get_axis(),
            if self.is_positive() {
                turn_dir
            } else {
                turn_dir.get_reversed()
            },
        )
    }

    /// The four directions surrounding (orthogonal to) `axis`, in rotational
    /// order around it.
    ///
    /// The first direction is the one earliest alphabetically; the rest
    /// follow around the axis in `turn_dir`, looking at the axis with its
    /// positive direction pointing towards us.
    pub fn get_dir_surrounding_axis(axis: CubeAxis, turn_dir: TurnDir) -> (r: [FaceDir; 4])
        ensures
            r@ == spec_cycle(axis, turn_dir),
    {
        let r: [FaceDir; 4] = match (axis, turn_dir) {
            (CubeAxis::X, TurnDir::Clockwise) => [FaceDir::Back, FaceDir::Down, FaceDir::Front, FaceDir::Up],
            (CubeAxis::Y, TurnDir::Clockwise) => [FaceDir::Back, FaceDir::Right, FaceDir::Front, FaceDir::Left],
            (CubeAxis::Z, TurnDir::Clockwise) => [FaceDir::Down, FaceDir::Left, FaceDir::Up, FaceDir::Right],
            (CubeAxis::X, TurnDir::CounterClockwise) => [FaceDir::Up, FaceDir::Front, FaceDir::Down, FaceDir::Back],
            (CubeAxis::Y, TurnDir::CounterClockwise) => [FaceDir::Left, FaceDir::Front, FaceDir::Right, FaceDir::Back],
            (CubeAxis::Z, TurnDir::CounterClockwise) => [FaceDir::Right, FaceDir::Up, FaceDir::Left, FaceDir::Down],
        };
        proof {
            assert(r@ =~= spec_cycle(axis, turn_dir));
        }
        r
    }

    /// Rotate this face direction in `turn_dir` around `axis`: directions on
    /// the axis itself stay put, the other four move one step around it.
    pub fn apply_rotation(&mut self, axis: CubeAxis, turn_dir: TurnDir)
        ensures
            *final(self) == spec_rotated_dir(*old(self), axis, turn_dir),
    {
        let ds = FaceDir::get_dir_surrounding_axis(axis, turn_dir);
        if *self == ds[0] {
            *self = ds[1];
        } else if *self == ds[1] {
            *self = ds[2];
        } else if *self == ds[2] {
            *self = ds[3];
        } else if *self == ds[3] {
            *self = ds[0];
        }
    }
}

/// The effective rotation direction about the axis when face `d` is turned
/// in `turn_dir`: flipped for a negative face.
pub open spec fn spec_effective_dir(d: FaceDir, turn_dir: TurnDir) -> TurnDir {
    if d.spec_is_positive() {
        turn_dir
    } else {
        turn_dir.spec_reversed()
    }
}

/// The four directions around `axis`, in clockwise rotational order (viewed
/// from the positive side of the axis), starting alphabetically.
pub open spec fn spec_base_cycle(axis: CubeAxis) -> Seq<FaceDir> {
    match axis {
        CubeAxis::X => seq![FaceDir::Back, FaceDir::Down, FaceDir::Front, FaceDir::Up],
        CubeAxis::Y => seq![FaceDir::Back, FaceDir::Right, FaceDir::Front, FaceDir::Left],
        CubeAxis::Z => seq![FaceDir::Down, FaceDir::Left, FaceDir::Up, FaceDir::Right],
    }
}

/// The four directions around `axis` in rotational order for `dir`:
/// the clockwise order, reversed for a counter-clockwise turn.
pub open spec fn spec_cycle(axis: CubeAxis, dir: TurnDir) -> Seq<FaceDir> {
    if dir == TurnDir::Clockwise {
        spec_base_cycle(axis)
    } else {
        spec_base_cycle(axis).reverse()
    }
}

/// Where face direction `d` goes when the whole cube is rotated in `dir`
/// around `axis`.
pub open spec fn spec_rotated_dir(d: FaceDir, axis: CubeAxis, dir: TurnDir) -> FaceDir {
    let ds = spec_cycle(axis, dir);
    if d == ds[0] {
        ds[1]
    } else if d == ds[1] {
        ds[2]
    } else if d == ds[2] {
        ds[3]
    } else if d == ds[3] {
        ds[0]
    } else {
        d
    }
}

/// Rotating a direction and then rotating it the opposite way around the
/// same axis gives the direction back.
pub proof fn lemma_rotated_dir_inverse(d: FaceDir, axis: CubeAxis, dir: TurnDir)
    ensures
        spec_rotated_dir(spec_rotated_dir(d, axis, dir), axis, dir.spec_reversed()) == d,
{
    let ds = spec_base_cycle(axis);
    assert(spec_base_cycle(axis).reverse() =~= seq![ds[3], ds[2], ds[1], ds[0]]);
    match (axis, dir) {
        (CubeAxis::X, TurnDir::Clockwise) => {},
        (CubeAxis::X, TurnDir::CounterClockwise) => {},
        (CubeAxis::Y, TurnDir::Clockwise) => {},
        (CubeAxis::Y, TurnDir::CounterClockwise) => {},
        (CubeAxis::Z, TurnDir::Clockwise) => {},
        (CubeAxis::Z, TurnDir::CounterClockwise) => {},
    }
}

/// A color matrix: a sequence of rows, each a sequence of colors.
pub type ColorMat = Seq<Seq<Color>>;

/// A well-formed matrix of side `n`: square and nonempty.
pub open spec fn mat_wf(m: ColorMat, n: int) -> bool {
    &&& n >= 1
    &&& m.len() == n
    &&& forall|i: int| 0 <= i < n ==> (#[trigger] m[i]).len() == n
}

/// The matrix of side `n` filled with `c`.
pub open spec fn spec_const_mat(n: int, c: Color) -> ColorMat {
    Seq::new(n as nat, |i: int| Seq::new(n as nat, |j: int| c))
}

/// `m` rotated a quarter turn: clockwise sends entry `(n-1-j, i)` to
/// `(i, j)`, counter-clockwise sends `(j, n-1-i)` there.
pub open spec fn spec_rotated_mat(m: ColorMat, dir: TurnDir) -> ColorMat {
    let n = m.len() as int;
    match dir {
        TurnDir::Clockwise => Seq::new(n as nat, |i: int| Seq::new(n as nat, |j: int| m[n - 1 - j][i])),
        TurnDir::CounterClockwise => Seq::new(n as nat, |i: int| Seq::new(n as nat, |j: int| m[j][n - 1 - i])),
    }
}

/// Row `i` of `m`, or column `i` when `is_column` is set.
pub open spec fn spec_read_slice(m: ColorMat, i: int, is_column: bool) -> Seq<Color> {
    if is_column {
        Seq::new(m.len(), |r: int| m[r][i])
    } else {
        m[i]
    }
}

/// `m` with row `i` (or column `i` when `is_column` is set) replaced by `s`.
pub open spec fn spec_write_slice(m: ColorMat, i: int, is_column: bool, s: Seq<Color>) -> ColorMat {
    if is_column {
        Seq::new(m.len(), |r: int| m[r].update(i, s[r]))
    } else {
        m.update(i, s)
    }
}

/// `s` backwards.
pub open spec fn spec_reversed_slice(s: Seq<Color>) -> Seq<Color> {
    Seq::new(s.len(), |i: int| s[s.len() - 1 - i])
}

/// `s` backwards when `b` is set, `s` itself otherwise.
pub open spec fn spec_rev_if(b: bool, s: Seq<Color>) -> Seq<Color> {
    if b {
        spec_reversed_slice(s)
    } else {
        s
    }
}

/// Whether every entry of `m` has the one color of its top-left corner.
pub open spec fn spec_single_color(m: ColorMat) -> bool {
    forall|y: int, x: int|
        0 <= y < m.len() && 0 <= x < m.len() ==> #[trigger] m[y][x] == m[0][0]
}

/// One face of the cube: a square grid of colors of side `size`.
#[derive(Debug, Clone)]
pub struct Face {
    colors: Vec<Vec<Color>>,
    size: usize,
}

impl View for Face {
    type V = ColorMat;

    closed spec fn view(&self) -> ColorMat {
        Seq::new(self.colors@.len(), |i: int| self.colors@[i]@)
    }
}

impl Face {
    /// A face is well formed when its grid is square, nonempty, and matches
    /// its recorded size.
    pub open spec fn wf(self) -> bool {
        self.spec_size() >= 1 && mat_wf(self@, self.spec_size() as int)
    }

    pub closed spec fn spec_size(self) -> usize {
        self.size
    }

    /// Connects the stored grid with the view for the proofs below.
    proof fn shape(self)
        requires
            self.wf(),
        ensures
            self.colors@.len() == self.spec_size(),
            forall|i: int|
                0 <= i < self.spec_size() ==> (#[trigger] self.colors@[i])@ == self@[i],
            forall|i: int|
                0 <= i < self.spec_size() ==> (#[trigger] self.colors@[i])@.len()
                    == self.spec_size(),
    {
        assert(self@.len() == self.colors@.len());
        assert forall|i: int| 0 <= i < self.spec_size() implies (#[trigger] self.colors@[i])@
            == self@[i] && self.colors@[i]@.len() == self.spec_size() by {
            assert(self@[i] == self.colors@[i]@);
            assert(self@[i].len() == self.spec_size());
        }
    }

    /// The side length of the grid.
    pub fn size(&self) -> (n: usize)
        ensures
            n == self.spec_size(),
    {
        self.size
    }

    /// The color at row `y`, column `x`.
    pub fn get(&self, y: usize, x: usize) -> (c: Color)
        requires
            self.wf(),
            y < self.spec_size(),
            x < self.spec_size(),
        ensures
            c == self@[y as int][x as int],
    {
        proof {
            self.shape();
        }
        self.colors[y][x]
    }

    /// A fresh face of side `size`, every sticker colored `color`.
    pub fn new(size: usize, color: Color) -> (f: Face)
        requires
            size >= 1,
        ensures
            f.wf(),
            f.spec_size() == size,
            f@ == spec_const_mat(size as int, color),
    {
        let mut colors: Vec<Vec<Color>> = Vec::new();
        for y in 0..size
            invariant
                colors@.len() == y,
                forall|i: int| 0 <= i < y ==> (#[trigger] colors@[i])@ =~= Seq::new(
                    size as nat,
                    |j: int| color,
                ),
        {
            let mut row: Vec<Color> = Vec::new();
            for x in 0..size
                invariant
                    row@.len() == x,
                    forall|j: int| 0 <= j < x ==> row@[j] == color,
            {
                row.push(color);
            }
            proof {
                assert(row@ =~= Seq::new(size as nat, |j: int| color));
            }
            colors.push(row);
        }
        let f = Face { colors, size };
        proof {
            assert(f@ =~= spec_const_mat(size as int, color));
        }
        f
    }

    /// A fresh copy of this face, sticker for sticker.
    pub fn duplicate(&self) -> (f: Face)
        requires
            self.wf(),
        ensures
            f.wf(),
            f.spec_size() == self.spec_size(),
            f@ == self@,
    {
        let n = self.size;
        let mut colors: Vec<Vec<Color>> = Vec::new();
        for y in 0..n
            invariant
                self.wf(),
                n == self.spec_size(),
                colors@.len() == y,
                forall|i: int| 0 <= i < y ==> (#[trigger] colors@[i])@ =~= self@[i],
        {
            let mut row: Vec<Color> = Vec::new();
            for x in 0..n
                invariant
                    self.wf(),
                    n == self.spec_size(),
                    y < n,
                    row@.len() == x,
                    forall|j: int| 0 <= j < x ==> row@[j] == self@[y as int][j],
            {
                proof {
                    self.shape();
                }
                row.push(self.colors[y][x]);
            }
            proof {
                assert(row@ =~= self@[y as int]);
            }
            colors.push(row);
        }
        let f = Face { colors, size: self.size };
        proof {
            assert(f@ =~= self@);
        }
        f
    }

    /// Rotate the grid a quarter turn in `turn_dir`.
    pub fn rotate(&mut self, turn_dir: TurnDir)
        requires
            old(self).wf(),
        ensures
            final(self).wf(),
            final(self).spec_size() == old(self).spec_size(),
            final(self)@ == spec_rotated_mat(old(self)@, turn_dir),
    {
        let n = self.size;
        let ghost m = self@;
        let mut colors: Vec<Vec<Color>> = Vec::new();
        for i in 0..n
            invariant
                self.wf(),
                n == self.spec_size(),
                m == self@,
                colors@.len() == i,
                forall|a: int| 0 <= a < i ==> (#[trigger] colors@[a])@ =~= spec_rotated_mat(
                    m,
                    turn_dir,
                )[a],
        {
            let mut row: Vec<Color> = Vec::new();
            for j in 0..n
                invariant
                    self.wf(),
                    n == self.spec_size(),
                    m == self@,
                    i < n,
                    row@.len() == j,
                    forall|b: int| 0 <= b < j ==> row@[b] == spec_rotated_mat(m, turn_dir)[i as int][b],
            {
                proof {
                    self.shape();
                }
                let c = match turn_dir {
                    TurnDir::Clockwise => self.colors[n - 1 - j][i],
                    TurnDir::CounterClockwise => self.colors[j][n - 1 - i],
                };
                row.push(c);
            }
            proof {
                assert(row@ =~= spec_rotated_mat(m, turn_dir)[i as int]);
            }
            colors.push(row);
        }
        self.colors = colors;
        proof {
            assert(self@ =~= spec_rotated_mat(m, turn_dir));
        }
    }

    /// Returns the `i`th row, or the `i`th column when `is_column` is set.
    ///
    /// `i` starts at 0; rows read left to right, columns top to bottom.
    pub fn get_slice(&self, i: usize, is_column: bool) -> (s: Vec<Color>)
        requires
            self.wf(),
            i < self.spec_size(),
        ensures
            s@ == spec_read_slice(self@, i as int, is_column),
            s@.len() == self.spec_size(),
    {
        let n = self.size;
        let mut s: Vec<Color> = Vec::new();
        if is_column {
            for r in 0..n
                invariant
                    self.wf(),
                    n == self.spec_size(),
                    i < n,
                    s@.len() == r,
                    forall|a: int| 0 <= a < r ==> s@[a] == self@[a][i as int],
            {
                proof {
                    self.shape();
                }
                s.push(self.colors[r][i]);
            }
        } else {
            for x in 0..n
                invariant
                    self.wf(),
                    n == self.spec_size(),
                    i < n,
                    s@.len() == x,
                    forall|a: int| 0 <= a < x ==> s@[a] == self@[i as int][a],
            {
                proof {
                    self.shape();
                }
                s.push(self.colors[i][x]);
            }
        }
        proof {
            assert(s@ =~= spec_read_slice(self@, i as int, is_column));
        }
        s
    }

    /// Sets the `i`th row, or the `i`th column when `is_column` is set,
    /// to `slice`.
    pub fn set_slice(&mut self, i: usize, is_column: bool, slice: &Vec<Color>)
        requires
            old(self).wf(),
            i < old(self).spec_size(),
            slice@.len() == old(self).spec_size(),
        ensures
            final(self).wf(),
            final(self).spec_size() == old(self).spec_size(),
            final(self)@ == spec_write_slice(old(self)@, i as int, is_column, slice@),
    {
        let n = self.size;
        let ghost m = self@;
        let mut colors: Vec<Vec<Color>> = Vec::new();
        for y in 0..n
            invariant
                self.wf(),
                n == self.spec_size(),
                m == self@,
                i < n,
                slice@.len() == n,
                colors@.len() == y,
                forall|a: int| 0 <= a < y ==> (#[trigger] colors@[a])@ =~= spec_write_slice(
                    m,
                    i as int,
                    is_column,
                    slice@,
                )[a],
        {
            let mut row: Vec<Color> = Vec::new();
            for x in 0..n
                invariant
                    self.wf(),
                    n == self.spec_size(),
                    m == self@,
                    i < n,
                    y < n,
                    slice@.len() == n,
                    row@.len() == x,
                    forall|b: int| 0 <= b < x ==> row@[b] == spec_write_slice(
                        m,
                        i as int,
                        is_column,
                        slice@,
                    )[y as int][b],
            {
                proof {
                    self.shape();
                }
                let c = if is_column {
                    if x == i {
                        slice[y]
                    } else {
                        self.colors[y][x]
                    }
                } else {
                    if y == i {
                        slice[x]
                    } else {
                        self.colors[y][x]
                    }
                };
                row.push(c);
            }
            proof {
                assert(row@ =~= spec_write_slice(m, i as int, is_column, slice@)[y as int]);
            }
            colors.push(row);
        }
        self.colors = colors;
        proof {
            assert(self@ =~= spec_write_slice(m, i as int, is_column, slice@));
        }
    }

    /// Returns `true` exactly when the whole grid is one repeated color.
    pub fn is_single_color(&self) -> (r: bool)
        requires
            self.wf(),
        ensures
            r == spec_single_color(self@),
    {
        let n = self.size;
        proof {
            self.shape();
        }
        let first = self.colors[0][0];
        for y in 0..n
            invariant
                self.wf(),
                n == self.spec_size(),
                first == self@[0][0],
                forall|a: int, b: int| 0 <= a < y && 0 <= b < n ==> #[trigger] self@[a][b] == first,
        {
            for x in 0..n
                invariant
                    self.wf(),
                    n == self.spec_size(),
                    y < n,
                    first == self@[0][0],
                    forall|a: int, b: int|
                        0 <= a < y && 0 <= b < n ==> #[trigger] self@[a][b] == first,
                    forall|b: int| 0 <= b < x ==> #[trigger] self@[y as int][b] == first,
            {
                proof {
                    self.shape();
                }
                if self.colors[y][x] != first {
                    return false;
                }
            }
        }
        true
    }
}

/// One quarter-turn instruction: which face to turn, and which way.
#[derive(Debug, PartialEq, Eq, Structural, Clone, Copy)]
pub struct Turn {
    pub face_dir: FaceDir,
    pub turn_dir: TurnDir,
}

impl Turn {
    pub fn new(face_dir: FaceDir, turn_dir: TurnDir) -> (t: Turn)
        ensures
            t == (Turn { face_dir, turn_dir }),
    {
        Turn { face_dir, turn_dir }
    }

    /// The turn that undoes this one: same face, opposite direction.
    pub open spec fn spec_reversed(self) -> Turn {
        Turn { face_dir: self.face_dir, turn_dir: self.turn_dir.spec_reversed() }
    }

    pub open spec fn spec_is_reversed(self, other: Turn) -> bool {
        self.face_dir == other.face_dir && self.turn_dir == other.turn_dir.spec_reversed()
    }

    /// Check whether `other` is this turn reversed.
    pub fn is_reversed(&self, other: &Turn) -> (r: bool)
        ensures
            r == self.spec_is_reversed(*other),
    {
        self.face_dir == other.face_dir && self.turn_dir == other.turn_dir.get_reversed()
    }
}

/// The fixed index a face direction's matrix is kept at in a cube view.
pub open spec fn dir_index(d: FaceDir) -> int {
    match d {
        FaceDir::Up => 0,
        FaceDir::Down => 1,
        FaceDir::Left => 2,
        FaceDir::Right => 3,
        FaceDir::Front => 4,
        FaceDir::Back => 5,
    }
}

/// The face direction kept at index `i` of a cube view.
pub open spec fn dir_of_index(i: int) -> FaceDir {
    if i == 0 {
        FaceDir::Up
    } else if i == 1 {
        FaceDir::Down
    } else if i == 2 {
        FaceDir::Left
    } else if i == 3 {
        FaceDir::Right
    } else if i == 4 {
        FaceDir::Front
    } else {
        FaceDir::Back
    }
}

/// The color each face direction starts with on a fresh cube.
pub open spec fn spec_init_color(d: FaceDir) -> Color {
    match d {
        FaceDir::Up => Color::Yellow,
        FaceDir::Down => Color::White,
        FaceDir::Left => Color::Green,
        FaceDir::Right => Color::Blue,
        FaceDir::Front => Color::Orange,
        FaceDir::Back => Color::Red,
    }
}

/// The direction order a fresh cube starts with.
pub open spec fn spec_init_order() -> Seq<FaceDir> {
    seq![FaceDir::Up, FaceDir::Down, FaceDir::Left, FaceDir::Right, FaceDir::Front, FaceDir::Back]
}

/// Whether `d` occurs in `order`.
pub open spec fn has_dir(order: Seq<FaceDir>, d: FaceDir) -> bool {
    exists|i: int| 0 <= i < order.len() && order[i] == d
}

/// A direction order is a permutation of the six face directions.
pub open spec fn order_wf(order: Seq<FaceDir>) -> bool {
    &&& order.len() == 6
    &&& forall|i: int, j: int| 0 <= i < j < 6 ==> order[i] != order[j]
    &&& has_dir(order, FaceDir::Up)
    &&& has_dir(order, FaceDir::Down)
    &&& has_dir(order, FaceDir::Left)
    &&& has_dir(order, FaceDir::Right)
    &&& has_dir(order, FaceDir::Front)
    &&& has_dir(order, FaceDir::Back)
}

/// The position of `d` in `order`.
pub open spec fn pos_of(order: Seq<FaceDir>, d: FaceDir) -> int {
    choose|j: int| 0 <= j < order.len() && order[j] == d
}

/// In a permutation, the position of a direction is the one index holding it.
pub proof fn lemma_pos_of(order: Seq<FaceDir>, d: FaceDir, j: int)
    requires
        order_wf(order),
        0 <= j < 6,
        order[j] == d,
    ensures
        pos_of(order, d) == j,
{
    let k = pos_of(order, d);
    assert(0 <= k < order.len() && order[k] == d);
}

/// Every direction has a position inside a permutation.
pub proof fn lemma_pos_of_in_range(order: Seq<FaceDir>, d: FaceDir)
    requires
        order_wf(order),
    ensures
        0 <= pos_of(order, d) < 6,
        order[pos_of(order, d)] == d,
{
    assert(has_dir(order, d)) by {
        match d {
            FaceDir::Up => {},
            FaceDir::Down => {},
            FaceDir::Left => {},
            FaceDir::Right => {},
            FaceDir::Front => {},
            FaceDir::Back => {},
        }
    }
    let k = pos_of(order, d);
    assert(0 <= k < order.len() && order[k] == d);
}

/// The whole observable state of a cube: the matrix shown at each face
/// direction (indexed by `dir_index`), the direction order, and the size.
pub ghost struct CubeView {
    pub mats: Seq<ColorMat>,
    pub order: Seq<FaceDir>,
    pub size: int,
}

/// Six well-formed matrices of side `size`.
pub open spec fn mats6_wf(mats: Seq<ColorMat>, size: int) -> bool {
    &&& mats.len() == 6
    &&& forall|i: int| 0 <= i < 6 ==> mat_wf(#[trigger] mats[i], size)
}

/// A cube is solved when every face is a single repeated color.
pub open spec fn spec_is_solved(cv: CubeView) -> bool {
    forall|i: int| 0 <= i < 6 ==> spec_single_color(#[trigger] cv.mats[i])
}

/// The view of a fresh cube of side `size`.
pub open spec fn spec_solved_cube(size: int) -> CubeView {
    CubeView {
        mats: Seq::new(6, |i: int| spec_const_mat(size, spec_init_color(dir_of_index(i)))),
        order: spec_init_order(),
        size: size,
    }
}

/// A freshly constructed cube is solved.
pub proof fn lemma_solved_cube_is_solved(size: int)
    requires
        size >= 1,
    ensures
        spec_is_solved(spec_solved_cube(size)),
{
}

/// The cube model: six faces and a direction order saying which face
/// currently points which way.
#[derive(Clone)]
pub struct Cube {
    /// One `Face` per direction; `dir_order` says which is which.
    faces: Vec<Face>,
    /// The direction currently shown by each entry of `faces`.
    dir_order: Vec<FaceDir>,
    /// Side length of the cube.
    size: usize,
}

impl View for Cube {
    type V = CubeView;

    closed spec fn view(&self) -> CubeView {
        CubeView {
            mats: Seq::new(
                6,
                |i: int| self.faces@[pos_of(self.dir_order@, dir_of_index(i))]@,
            ),
            order: self.dir_order@,
            size: self.size as int,
        }
    }
}

impl Cube {
    pub closed spec fn fields_ok(self) -> bool {
        &&& self.size >= 1
        &&& self.faces@.len() == 6
        &&& forall|i: int|
            0 <= i < 6 ==> (#[trigger] self.faces@[i]).wf() && self.faces@[i].spec_size()
                == self.size
        &&& self.dir_order@.len() == 6
    }

    /// A cube is well formed when it has six well-formed faces of its size
    /// and its direction order is a permutation of the six directions.
    pub open spec fn wf(self) -> bool {
        &&& self.fields_ok()
        &&& order_wf(self@.order)
    }

    /// The matrix currently shown at direction `d`.
    pub open spec fn spec_face_at(self, d: FaceDir) -> ColorMat {
        self@.mats[dir_index(d)]
    }

    /// A well-formed cube's view has six well-formed matrices.
    pub proof fn lemma_wf_view(self)
        requires
            self.wf(),
        ensures
            self@.mats.len() == 6,
            self@.order.len() == 6,
            self@.size >= 1,
            forall|i: int| 0 <= i < 6 ==> mat_wf(#[trigger] self@.mats[i], self@.size),
            mats6_wf(self@.mats, self@.size),
    {
        assert forall|i: int| 0 <= i < 6 implies mat_wf(#[trigger] self@.mats[i], self@.size) by {
            lemma_pos_of_in_range(self.dir_order@, dir_of_index(i));
        }
    }

    /// Side length of the cube.
    pub fn size(&self) -> (n: usize)
        requires
            self.wf(),
        ensures
            n == self@.size,
    {
        self.size
    }

    /// The position of `face_dir` in the direction order.
    fn get_dir_index(&self, face_dir: &FaceDir) -> (i: usize)
        requires
            self.wf(),
        ensures
            i < 6,
            self@.order[i as int] == *face_dir,
            i == pos_of(self@.order, *face_dir),
    {
        proof {
            lemma_pos_of_in_range(self.dir_order@, *face_dir);
        }
        let mut i: usize = 0;
        while i < 5 && self.dir_order[i] != *face_dir
            invariant
                self.wf(),
                i <= 5,
                forall|j: int| 0 <= j < i ==> self@.order[j] != *face_dir,
            decreases 5 - i,
        {
            i += 1;
        }
        proof {
            assert(self.dir_order@[i as int] == *face_dir);
            lemma_pos_of(self.dir_order@, *face_dir, i as int);
        }
        i
    }

    /// Read access for collaborators: the face currently at `face_dir`.
    pub fn get_face(&self, face_dir: &FaceDir) -> (f: &Face)
        requires
            self.wf(),
        ensures
            f.wf(),
            f.spec_size() == self@.size,
            f@ == self.spec_face_at(*face_dir),
    {
        let i = self.get_dir_index(face_dir);
        proof {
            assert(dir_of_index(dir_index(*face_dir)) == *face_dir);
        }
        &self.faces[i]
    }

    /// Read access for collaborators: the direction order as a list.
    pub fn get_dir_order(&self) -> (order: Vec<FaceDir>)
        requires
            self.wf(),
        ensures
            order@ == self@.order,
    {
        let mut order: Vec<FaceDir> = Vec::new();
        let mut i: usize = 0;
        while i < 6
            invariant
                self.wf(),
                i <= 6,
                order@ =~= self@.order.take(i as int),
            decreases 6 - i,
        {
            order.push(self.dir_order[i]);
            i += 1;
        }
        proof {
            assert(order@ =~= self@.order);
        }
        order
    }

    /// Replace the face at position `i`, leaving the view updated at the
    /// direction that position shows.
    fn set_face(&mut self, i: usize, f: Face)
        requires
            old(self).wf(),
            i < 6,
            f.wf(),
            f.spec_size() == old(self)@.size,
        ensures
            final(self).wf(),
            final(self)@.order == old(self)@.order,
            final(self)@.size == old(self)@.size,
            final(self)@.mats == old(self)@.mats.update(
                dir_index(old(self)@.order[i as int]),
                f@,
            ),
    {
        let ghost olds = *self;
        self.faces.set(i, f);
        proof {
            let d = olds@.order[i as int];
            assert forall|k: int| 0 <= k < 6 implies self@.mats[k] == olds@.mats.update(
                dir_index(d),
                f@,
            )[k] by {
                let dk = dir_of_index(k);
                lemma_pos_of_in_range(olds.dir_order@, dk);
                if dk == d {
                    lemma_pos_of(olds.dir_order@, d, i as int);
                    assert(dir_index(dk) == k) by {
                        match dk {
                            FaceDir::Up => {},
                            FaceDir::Down => {},
                            FaceDir::Left => {},
                            FaceDir::Right => {},
                            FaceDir::Front => {},
                            FaceDir::Back => {},
                        }
                    }
                } else {
                    assert(pos_of(olds.dir_order@, dk) != i as int);
                    assert(dir_index(dk) != dir_index(d)) by {
                        match dk {
                            FaceDir::Up => {},
                            FaceDir::Down => {},
                            FaceDir::Left => {},
                            FaceDir::Right => {},
                            FaceDir::Front => {},
                            FaceDir::Back => {},
                        }
                    }
                }
            }
            assert(self@.mats =~= olds@.mats.update(dir_index(d), f@));
        }
    }

    /// A fresh cube of side `size`, each face one color, in the standard
    /// starting configuration.
    pub fn new(size: usize) -> (c: Cube)
        requires
            size >= 1,
        ensures
            c.wf(),
            c@ == spec_solved_cube(size as int),
            spec_is_solved(c@),
    {
        let mut faces: Vec<Face> = Vec::new();
        let mut dir_order: Vec<FaceDir> = Vec::new();
        faces.push(Face::new(size, Color::Yellow));
        dir_order.push(FaceDir::Up);
        faces.push(Face::new(size, Color::White));
        dir_order.push(FaceDir::Down);
        faces.push(Face::new(size, Color::Green));
        dir_order.push(FaceDir::Left);
        faces.push(Face::new(size, Color::Blue));
        dir_order.push(FaceDir::Right);
        faces.push(Face::new(size, Color::Orange));
        dir_order.push(FaceDir::Front);
        faces.push(Face::new(size, Color::Red));
        dir_order.push(FaceDir::Back);
        let c = Cube { faces, dir_order, size };
        proof {
            assert(c.dir_order@ =~= spec_init_order());
            assert(order_wf(c@.order)) by {
                assert(c@.order[0] == FaceDir::Up);
                assert(c@.order[1] == FaceDir::Down);
                assert(c@.order[2] == FaceDir::Left);
                assert(c@.order[3] == FaceDir::Right);
                assert(c@.order[4] == FaceDir::Front);
                assert(c@.order[5] == FaceDir::Back);
            }
            assert forall|i: int| 0 <= i < 6 implies c@.mats[i] == spec_solved_cube(
                size as int,
            ).mats[i] by {
                lemma_pos_of(c.dir_order@, dir_of_index(i), i);
            }
            assert(c@.mats =~= spec_solved_cube(size as int).mats);
            assert(c@ == spec_solved_cube(size as int));
            lemma_solved_cube_is_solved(size as int);
        }
        c
    }

    /// A fresh copy of this cube, sticker for sticker.
    pub fn duplicate(&self) -> (c: Cube)
        requires
            self.wf(),
        ensures
            c.wf(),
            c@ == self@,
    {
        let mut faces: Vec<Face> = Vec::new();
        let mut i: usize = 0;
        while i < 6
            invariant
                self.wf(),
                i <= 6,
                faces@.len() == i,
                forall|k: int|
                    0 <= k < i ==> (#[trigger] faces@[k]).wf() && faces@[k].spec_size()
                        == self@.size && faces@[k]@ == self.faces@[k]@,
            decreases 6 - i,
        {
            faces.push(self.faces[i].duplicate());
            i += 1;
        }
        let dir_order = self.get_dir_order();
        let c = Cube { faces, dir_order, size: self.size };
        proof {
            assert forall|k: int| 0 <= k < 6 implies c@.mats[k] == self@.mats[k] by {
                lemma_pos_of_in_range(self.dir_order@, dir_of_index(k));
            }
            assert(c@.mats =~= self@.mats);
            assert(c@ == self@);
        }
        c
    }
}

/// The two directions a face's own axes point at: first the direction rows
/// grow towards (top to bottom), then the one columns grow towards (left to
/// right), both seen in that face's own layout.
pub open spec fn spec_axes_order(d: FaceDir) -> (FaceDir, FaceDir) {
    match d {
        FaceDir::Up => (FaceDir::Front, FaceDir::Right),
        FaceDir::Down => (FaceDir::Back, FaceDir::Right),
        FaceDir::Right => (FaceDir::Down, FaceDir::Back),
        FaceDir::Left => (FaceDir::Down, FaceDir::Front),
        FaceDir::Front => (FaceDir::Down, FaceDir::Right),
        FaceDir::Back => (FaceDir::Down, FaceDir::Left),
    }
}

/// Whether the band slice of face `d` is read near index 0 rather than near
/// the far edge: true when one of `d`'s own axes lies on the rotation axis
/// but points the opposite way from the turned face.
pub open spec fn band_from_start(d: FaceDir, axis: CubeAxis, pos: bool) -> bool {
    let a = spec_axes_order(d);
    ||| (a.0.spec_axis() == axis && a.0.spec_is_positive() != pos)
    ||| (a.1.spec_axis() == axis && a.1.spec_is_positive() != pos)
}

/// Whether the band slice of face `d` is one of its columns: true when the
/// face's first (row-growing) axis is not the rotation axis.
pub open spec fn band_is_col(d: FaceDir, axis: CubeAxis) -> bool {
    spec_axes_order(d).0.spec_axis() != axis
}

/// The row or column index of the band slice on face `d` for `layer`.
pub open spec fn band_index(d: FaceDir, axis: CubeAxis, pos: bool, layer: int, size: int) -> int {
    if band_from_start(d, axis, pos) {
        layer - 1
    } else {
        size - layer
    }
}

/// Whether the slice must be reversed before being written into face `d`:
/// a fixed per-axis table of orientation-parity exceptions.
pub open spec fn band_reversed(d: FaceDir, axis: CubeAxis, dir: TurnDir) -> bool {
    match axis {
        CubeAxis::X => d == FaceDir::Back || (if dir == TurnDir::Clockwise {
            d == FaceDir::Down
        } else {
            d == FaceDir::Up
        }),
        CubeAxis::Y => false,
        CubeAxis::Z => if dir == TurnDir::Clockwise {
            d == FaceDir::Down || d == FaceDir::Up
        } else {
            d == FaceDir::Right || d == FaceDir::Left
        },
    }
}

/// The band slice of face `d` in `mats`.
pub open spec fn spec_band_slice(
    mats: Seq<ColorMat>,
    d: FaceDir,
    axis: CubeAxis,
    pos: bool,
    layer: int,
    size: int,
) -> Seq<Color> {
    spec_read_slice(mats[dir_index(d)], band_index(d, axis, pos, layer, size), band_is_col(d, axis))
}

/// One band rotation: each face of the cycle around the rotation axis
/// receives the previous face's slice, reversed where the orientation
/// parity demands it, and the first face receives the last one's.
pub open spec fn spec_band(
    mats: Seq<ColorMat>,
    fd: FaceDir,
    td: TurnDir,
    layer: int,
    size: int,
) -> Seq<ColorMat> {
    let axis = fd.spec_axis();
    let dir = spec_effective_dir(fd, td);
    let pos = fd.spec_is_positive();
    let ds = spec_cycle(axis, dir);
    let s0 = spec_band_slice(mats, ds[0], axis, pos, layer, size);
    let s1 = spec_band_slice(mats, ds[1], axis, pos, layer, size);
    let s2 = spec_band_slice(mats, ds[2], axis, pos, layer, size);
    let s3 = spec_band_slice(mats, ds[3], axis, pos, layer, size);
    mats.update(
        dir_index(ds[1]),
        spec_write_slice(
            mats[dir_index(ds[1])],
            band_index(ds[1], axis, pos, layer, size),
            band_is_col(ds[1], axis),
            spec_rev_if(band_reversed(ds[1], axis, dir), s0),
        ),
    ).update(
        dir_index(ds[2]),
        spec_write_slice(
            mats[dir_index(ds[2])],
            band_index(ds[2], axis, pos, layer, size),
            band_is_col(ds[2], axis),
            spec_rev_if(band_reversed(ds[2], axis, dir), s1),
        ),
    ).update(
        dir_index(ds[3]),
        spec_write_slice(
            mats[dir_index(ds[3])],
            band_index(ds[3], axis, pos, layer, size),
            band_is_col(ds[3], axis),
            spec_rev_if(band_reversed(ds[3], axis, dir), s2),
        ),
    ).update(
        dir_index(ds[0]),
        spec_write_slice(
            mats[dir_index(ds[0])],
            band_index(ds[0], axis, pos, layer, size),
            band_is_col(ds[0], axis),
            spec_rev_if(band_reversed(ds[0], axis, dir), s3),
        ),
    )
}

/// One full turn of `layer`: for the outermost layer the turned face's own
/// grid rotates a quarter turn, and in every case the band shifts one step
/// around the rotation axis.
pub open spec fn spec_turn_mats(mats: Seq<ColorMat>, t: Turn, layer: int, size: int) -> Seq<
    ColorMat,
> {
    let m1 = if layer == 1 {
        mats.update(
            dir_index(t.face_dir),
            spec_rotated_mat(mats[dir_index(t.face_dir)], t.turn_dir),
        )
    } else {
        mats
    };
    spec_band(m1, t.face_dir, t.turn_dir, layer, size)
}

/// The four faces around an axis are pairwise distinct and none lies on the
/// axis itself.
pub proof fn lemma_cycle_distinct(axis: CubeAxis, dir: TurnDir)
    ensures
        spec_cycle(axis, dir).len() == 4,
        forall|i: int, j: int|
            0 <= i < j < 4 ==> spec_cycle(axis, dir)[i] != spec_cycle(axis, dir)[j],
        forall|i: int| 0 <= i < 4 ==> (#[trigger] spec_cycle(axis, dir)[i]).spec_axis() != axis,
{
    let ds = spec_base_cycle(axis);
    assert(spec_base_cycle(axis).reverse() =~= seq![ds[3], ds[2], ds[1], ds[0]]);
    match (axis, dir) {
        (CubeAxis::X, TurnDir::Clockwise) => {},
        (CubeAxis::X, TurnDir::CounterClockwise) => {},
        (CubeAxis::Y, TurnDir::Clockwise) => {},
        (CubeAxis::Y, TurnDir::CounterClockwise) => {},
        (CubeAxis::Z, TurnDir::Clockwise) => {},
        (CubeAxis::Z, TurnDir::CounterClockwise) => {},
    }
}

/// Distinct face directions sit at distinct view indices.
pub proof fn lemma_dir_index_injective(a: FaceDir, b: FaceDir)
    requires
        a != b,
    ensures
        dir_index(a) != dir_index(b),
{
}

impl Cube {
    /// Returns the pair of directions the axes of the face at `face_dir`
    /// point at (rows first, then columns).
    fn get_axes_order(face_dir: &FaceDir) -> (r: (FaceDir, FaceDir))
        ensures
            r == spec_axes_order(*face_dir),
    {
        match face_dir {
            FaceDir::Up => (FaceDir::Front, FaceDir::Right),
            FaceDir::Down => (FaceDir::Back, FaceDir::Right),
            FaceDir::Right => (FaceDir::Down, FaceDir::Back),
            FaceDir::Left => (FaceDir::Down, FaceDir::Front),
            FaceDir::Front => (FaceDir::Down, FaceDir::Right),
            FaceDir::Back => (FaceDir::Down, FaceDir::Left),
        }
    }

    /// Whether the band slice of `d` is taken from the near edge.
    fn check_is_from_start(d: &FaceDir, axis: CubeAxis, pos: bool) -> (b: bool)
        ensures
            b == band_from_start(*d, axis, pos),
    {
        let (a0, a1) = Cube::get_axes_order(d);
        (a0.get_axis() == axis && a0.is_positive() != pos) || (a1.get_axis() == axis
            && a1.is_positive() != pos)
    }

    /// Whether the band slice of `d` is a column.
    fn check_is_column(d: &FaceDir, axis: CubeAxis) -> (b: bool)
        ensures
            b == band_is_col(*d, axis),
    {
        let (a0, _a1) = Cube::get_axes_order(d);
        a0.get_axis() != axis
    }

    /// Whether the slice must be reversed before being written into `d`.
    fn check_is_reversed(d: &FaceDir, axis: CubeAxis, dir: TurnDir) -> (b: bool)
        ensures
            b == band_reversed(*d, axis, dir),
    {
        match axis {
            CubeAxis::X => *d == FaceDir::Back || (match dir {
                TurnDir::Clockwise => *d == FaceDir::Down,
                TurnDir::CounterClockwise => *d == FaceDir::Up,
            }),
            CubeAxis::Y => false,
            CubeAxis::Z => match dir {
                TurnDir::Clockwise => *d == FaceDir::Down || *d == FaceDir::Up,
                TurnDir::CounterClockwise => *d == FaceDir::Right || *d == FaceDir::Left,
            },
        }
    }

    /// The row or column index of the band slice on face `d`.
    fn band_index_of(d: &FaceDir, axis: CubeAxis, pos: bool, layer: usize, size: usize) -> (i:
        usize)
        requires
            1 <= layer <= size,
        ensures
            i == band_index(*d, axis, pos, layer as int, size as int),
            i < size,
    {
        if Cube::check_is_from_start(d, axis, pos) {
            layer - 1
        } else {
            size - layer
        }
    }

    /// Reads the band slice of the face at `d`.
    fn read_band_slice(&self, d: &FaceDir, axis: CubeAxis, pos: bool, layer: usize) -> (s: Vec<
        Color,
    >)
        requires
            self.wf(),
            1 <= layer <= self@.size,
        ensures
            s@ == spec_band_slice(self@.mats, *d, axis, pos, layer as int, self@.size),
            s@.len() == self@.size,
    {
        let size = self.size;
        let i = Cube::band_index_of(d, axis, pos, layer, size);
        let is_col = Cube::check_is_column(d, axis);
        let f = self.get_face(d);
        f.get_slice(i, is_col)
    }

    /// Writes `s` (reversed first if the parity table says so) as the band
    /// slice of the face at `d`.
    fn write_band_slice(
        &mut self,
        d: &FaceDir,
        axis: CubeAxis,
        dir: TurnDir,
        pos: bool,
        layer: usize,
        s: &Vec<Color>,
    )
        requires
            old(self).wf(),
            1 <= layer <= old(self)@.size,
            s@.len() == old(self)@.size,
        ensures
            final(self).wf(),
            final(self)@.order == old(self)@.order,
            final(self)@.size == old(self)@.size,
            final(self)@.mats == old(self)@.mats.update(
                dir_index(*d),
                spec_write_slice(
                    old(self)@.mats[dir_index(*d)],
                    band_index(*d, axis, pos, layer as int, old(self)@.size),
                    band_is_col(*d, axis),
                    spec_rev_if(band_reversed(*d, axis, dir), s@),
                ),
            ),
    {
        let size = self.size;
        let i = Cube::band_index_of(d, axis, pos, layer, size);
        let is_col = Cube::check_is_column(d, axis);
        let w = if Cube::check_is_reversed(d, axis, dir) {
            reversed_vec(s)
        } else {
            duplicated_vec(s)
        };
        let j = self.get_dir_index(d);
        proof {
            self.lemma_wf_view();
            assert(dir_index(dir_of_index(dir_index(*d))) == dir_index(*d));
        }
        let mut f = self.faces[j].duplicate();
        proof {
            assert(self.faces@[j as int]@ == self@.mats[dir_index(*d)]) by {
                assert(dir_of_index(dir_index(*d)) == *d);
            }
        }
        f.set_slice(i, is_col, &w);
        self.set_face(j, f);
    }

    /// Rotate the band of `turn`'s face at depth `layer`: the ring of slices
    /// on the four faces around the rotation axis shifts one step.
    fn rotate_band(&mut self, turn: &Turn, layer: usize)
        requires
            old(self).wf(),
            1 <= layer <= old(self)@.size,
        ensures
            final(self).wf(),
            final(self)@.order == old(self)@.order,
            final(self)@.size == old(self)@.size,
            final(self)@.mats == spec_band(
                old(self)@.mats,
                turn.face_dir,
                turn.turn_dir,
                layer as int,
                old(self)@.size,
            ),
    {
        let ghost m0 = self@.mats;
        let ghost size = self@.size;
        let (axis, eff_dir) = turn.face_dir.get_rotate_axis_and_dir(turn.turn_dir);
        let pos = turn.face_dir.is_positive();
        let ds = FaceDir::get_dir_surrounding_axis(axis, eff_dir);
        proof {
            lemma_cycle_distinct(axis, eff_dir);
        }
        let s0 = self.read_band_slice(&ds[0], axis, pos, layer);
        let s1 = self.read_band_slice(&ds[1], axis, pos, layer);
        let s2 = self.read_band_slice(&ds[2], axis, pos, layer);
        let s3 = self.read_band_slice(&ds[3], axis, pos, layer);
        self.write_band_slice(&ds[1], axis, eff_dir, pos, layer, &s0);
        proof {
            assert(self@.mats[dir_index(ds@[2])] == m0[dir_index(ds@[2])]);
            assert(self@.mats[dir_index(ds@[3])] == m0[dir_index(ds@[3])]);
            assert(self@.mats[dir_index(ds@[0])] == m0[dir_index(ds@[0])]);
        }
        self.write_band_slice(&ds[2], axis, eff_dir, pos, layer, &s1);
        proof {
            assert(self@.mats[dir_index(ds@[3])] == m0[dir_index(ds@[3])]);
            assert(self@.mats[dir_index(ds@[0])] == m0[dir_index(ds@[0])]);
        }
        self.write_band_slice(&ds[3], axis, eff_dir, pos, layer, &s2);
        proof {
            assert(self@.mats[dir_index(ds@[0])] == m0[dir_index(ds@[0])]);
        }
        self.write_band_slice(&ds[0], axis, eff_dir, pos, layer, &s3);
        proof {
            assert(self@.mats == spec_band(
                m0,
                turn.face_dir,
                turn.turn_dir,
                layer as int,
                size,
            ));
        }
    }

    /// Turn the face at `turn.face_dir` in `turn.turn_dir`, at depth
    /// `layer` (1 is the outermost layer, which also rotates the face's own
    /// grid).
    pub fn turn_layer(&mut self, turn: &Turn, layer: usize)
        requires
            old(self).wf(),
            1 <= layer <= old(self)@.size,
        ensures
            final(self).wf(),
            final(self)@.order == old(self)@.order,
            final(self)@.size == old(self)@.size,
            final(self)@.mats == spec_turn_mats(
                old(self)@.mats,
                *turn,
                layer as int,
                old(self)@.size,
            ),
    {
        if layer == 1 {
            let j = self.get_dir_index(&turn.face_dir);
            proof {
                assert(dir_of_index(dir_index(turn.face_dir)) == turn.face_dir);
            }
            let mut f = self.faces[j].duplicate();
            proof {
                assert(self.faces@[j as int]@ == self@.mats[dir_index(turn.face_dir)]);
            }
            f.rotate(turn.turn_dir);
            self.set_face(j, f);
        }
        self.rotate_band(turn, layer);
    }
}

/// Applying a sequence of outermost-layer turns, one after the other.
pub open spec fn spec_apply_turns(mats: Seq<ColorMat>, ts: Seq<Turn>, size: int) -> Seq<ColorMat>
    decreases ts.len(),
{
    if ts.len() == 0 {
        mats
    } else {
        spec_apply_turns(spec_turn_mats(mats, ts[0], 1, size), ts.drop_first(), size)
    }
}

/// Applying `ts` and then one more turn is applying `ts.push(t)`.
pub proof fn lemma_apply_turns_snoc(mats: Seq<ColorMat>, ts: Seq<Turn>, t: Turn, size: int)
    ensures
        spec_apply_turns(mats, ts.push(t), size) == spec_turn_mats(
            spec_apply_turns(mats, ts, size),
            t,
            1,
            size,
        ),
    decreases ts.len(),
{
    if ts.len() == 0 {
        assert(ts.push(t)[0] == t);
        assert(ts.push(t).drop_first() =~= Seq::<Turn>::empty());
        assert(spec_apply_turns(mats, ts.push(t), size) == spec_apply_turns(
            spec_turn_mats(mats, t, 1, size),
            Seq::<Turn>::empty(),
            size,
        ));
        assert(spec_apply_turns(spec_turn_mats(mats, t, 1, size), Seq::<Turn>::empty(), size)
            == spec_turn_mats(mats, t, 1, size));
        assert(spec_apply_turns(mats, ts, size) == mats);
    } else {
        let m1 = spec_turn_mats(mats, ts[0], 1, size);
        assert(ts.push(t)[0] == ts[0]);
        assert(ts.push(t).drop_first() =~= ts.drop_first().push(t));
        assert(spec_apply_turns(mats, ts.push(t), size) == spec_apply_turns(
            m1,
            ts.drop_first().push(t),
            size,
        ));
        lemma_apply_turns_snoc(m1, ts.drop_first(), t, size);
        assert(spec_apply_turns(mats, ts, size) == spec_apply_turns(m1, ts.drop_first(), size));
    }
}

impl Cube {
    /// Returns `true` exactly when every face is one repeated color (not
    /// necessarily its starting color: a reoriented cube still counts).
    pub fn is_solved(&self) -> (r: bool)
        requires
            self.wf(),
        ensures
            r == spec_is_solved(self@),
    {
        let mut k: usize = 0;
        while k < 6
            invariant
                self.wf(),
                k <= 6,
                forall|j: int| 0 <= j < k ==> spec_single_color(#[trigger] self.faces@[j]@),
            decreases 6 - k,
        {
            if !self.faces[k].is_single_color() {
                proof {
                    let d = self@.order[k as int];
                    lemma_pos_of(self.dir_order@, d, k as int);
                    assert(self@.mats[dir_index(d)] == self.faces@[k as int]@) by {
                        assert(dir_of_index(dir_index(d)) == d);
                    }
                    assert(0 <= dir_index(d) < 6);
                    assert(!spec_is_solved(self@));
                }
                return false;
            }
            k += 1;
        }
        proof {
            assert forall|i: int| 0 <= i < 6 implies spec_single_color(#[trigger] self@.mats[i]) by {
                lemma_pos_of_in_range(self.dir_order@, dir_of_index(i));
            }
        }
        true
    }

    /// Applies the turns of `algo` in order, each on the outermost layer.
    pub fn apply_algorithm(&mut self, algo: Vec<Turn>)
        requires
            old(self).wf(),
        ensures
            final(self).wf(),
            final(self)@.order == old(self)@.order,
            final(self)@.size == old(self)@.size,
            final(self)@.mats == spec_apply_turns(old(self)@.mats, algo@, old(self)@.size),
    {
        let ghost m0 = self@.mats;
        let ghost size = self@.size;
        let n = algo.len();
        let mut i: usize = 0;
        while i < n
            invariant
                self.wf(),
                n == algo@.len(),
                i <= n,
                self@.size == size,
                self@.order == old(self)@.order,
                self@.mats == spec_apply_turns(m0, algo@.take(i as int), size),
            decreases n - i,
        {
            self.turn_layer(&algo[i], 1);
            proof {
                assert(algo@.take(i + 1) =~= algo@.take(i as int).push(algo@[i as int]));
                lemma_apply_turns_snoc(m0, algo@.take(i as int), algo@[i as int], size);
            }
            i += 1;
        }
        proof {
            assert(algo@.take(n as int) =~= algo@);
        }
    }

    /// Reorient the whole cube around `axis`: no sticker moves, only the
    /// assignment of faces to directions rotates.
    #[verifier::rlimit(100)]
    #[verifier::spinoff_prover]
    pub fn rotate_whole_cube(&mut self, axis: CubeAxis, turn_dir: TurnDir)
        requires
            old(self).wf(),
        ensures
            final(self).wf(),
            final(self)@.size == old(self)@.size,
            final(self)@.order == Seq::new(
                6,
                |i: int| spec_rotated_dir(old(self)@.order[i], axis, turn_dir),
            ),
            forall|d: FaceDir|
                final(self)@.mats[dir_index(#[trigger] spec_rotated_dir(d, axis, turn_dir))]
                    == old(self)@.mats[dir_index(d)],
            spec_is_solved(old(self)@) ==> spec_is_solved(final(self)@),
    {
        let ghost olds = *self;
        let mut i: usize = 0;
        while i < 6
            invariant
                olds.wf(),
                i <= 6,
                self.faces == olds.faces,
                self.size == olds.size,
                self.dir_order@.len() == 6,
                forall|j: int|
                    0 <= j < i ==> self.dir_order@[j] == spec_rotated_dir(
                        olds.dir_order@[j],
                        axis,
                        turn_dir,
                    ),
                forall|j: int| i <= j < 6 ==> self.dir_order@[j] == olds.dir_order@[j],
            decreases 6 - i,
        {
            let mut d = self.dir_order[i];
            d.apply_rotation(axis, turn_dir);
            self.dir_order.set(i, d);
            i += 1;
        }
        proof {
            let no = self.dir_order@;
            let oo = olds.dir_order@;
            // the new order is a permutation again
            assert forall|a: int, b: int| 0 <= a < b < 6 implies no[a] != no[b] by {
                if no[a] == no[b] {
                    lemma_rotated_dir_inverse(oo[a], axis, turn_dir);
                    lemma_rotated_dir_inverse(oo[b], axis, turn_dir);
                }
            }
            assert forall|v: FaceDir| #[trigger] has_dir(no, v) by {
                let u = spec_rotated_dir(v, axis, turn_dir.spec_reversed());
                lemma_rotated_dir_inverse(v, axis, turn_dir.spec_reversed());
                assert(spec_rotated_dir(u, axis, turn_dir) == v);
                lemma_pos_of_in_range(oo, u);
                let j = pos_of(oo, u);
                assert(no[j] == v);
            }
            assert(order_wf(no));
            assert(self.wf());
            // each direction's matrix moves with it
            assert forall|d: FaceDir| self@.mats[dir_index(
                #[trigger] spec_rotated_dir(d, axis, turn_dir),
            )] == olds@.mats[dir_index(d)] by {
                lemma_pos_of_in_range(oo, d);
                let j = pos_of(oo, d);
                let v = spec_rotated_dir(d, axis, turn_dir);
                assert(no[j] == v);
                lemma_pos_of(no, v, j);
                assert(dir_of_index(dir_index(v)) == v);
                assert(dir_of_index(dir_index(d)) == d);
                assert(self@.mats[dir_index(v)] == self.faces@[j]@);
                assert(olds@.mats[dir_index(d)] == olds.faces@[j]@);
            }
            // a solved cube stays solved under reorientation
            if spec_is_solved(olds@) {
                assert forall|i2: int| 0 <= i2 < 6 implies spec_single_color(
                    #[trigger] self@.mats[i2],
                ) by {
                    let v = dir_of_index(i2);
                    let u = spec_rotated_dir(v, axis, turn_dir.spec_reversed());
                    lemma_rotated_dir_inverse(v, axis, turn_dir.spec_reversed());
                    assert(spec_rotated_dir(u, axis, turn_dir) == v);
                    assert(self@.mats[dir_index(v)] == olds@.mats[dir_index(u)]);
                    assert(0 <= dir_index(u) < 6);
                    assert(dir_index(v) == i2);
                }
            }
        }
    }
}

/// Mismatches among the first `j` entries of two color rows.
pub open spec fn row_diff_upto(r1: Seq<Color>, r2: Seq<Color>, j: int) -> int
    decreases j,
{
    if j <= 0 {
        0
    } else {
        row_diff_upto(r1, r2, j - 1) + if r1[j - 1] == r2[j - 1] {
            0int
        } else {
            1int
        }
    }
}

/// Mismatches among the first `y` rows (of width `n`) of two matrices.
pub open spec fn mat_diff_upto(m1: ColorMat, m2: ColorMat, n: int, y: int) -> int
    decreases y,
{
    if y <= 0 {
        0
    } else {
        mat_diff_upto(m1, m2, n, y - 1) + row_diff_upto(m1[y - 1], m2[y - 1], n)
    }
}

/// Mismatches among the first `k` matrices (of side `n`) of two lists.
pub open spec fn mats_diff_upto(ms1: Seq<ColorMat>, ms2: Seq<ColorMat>, n: int, k: int) -> int
    decreases k,
{
    if k <= 0 {
        0
    } else {
        mats_diff_upto(ms1, ms2, n, k - 1) + mat_diff_upto(ms1[k - 1], ms2[k - 1], n, n)
    }
}

/// The Hamming distance of two same-sized cubes: over each face direction
/// and each position, the number of stickers whose colors differ.
pub open spec fn spec_hamming(a: CubeView, b: CubeView) -> int {
    mats_diff_upto(a.mats, b.mats, a.size, 6)
}

pub proof fn lemma_row_diff_bounds(r1: Seq<Color>, r2: Seq<Color>, j: int)
    requires
        j >= 0,
    ensures
        0 <= row_diff_upto(r1, r2, j) <= j,
    decreases j,
{
    if j > 0 {
        lemma_row_diff_bounds(r1, r2, j - 1);
    }
}

pub proof fn lemma_mat_diff_bounds(m1: ColorMat, m2: ColorMat, n: int, y: int)
    requires
        y >= 0,
        n >= 0,
    ensures
        0 <= mat_diff_upto(m1, m2, n, y) <= y * n,
    decreases y,
{
    if y > 0 {
        lemma_mat_diff_bounds(m1, m2, n, y - 1);
        lemma_row_diff_bounds(m1[y - 1], m2[y - 1], n);
        assert((y - 1) * n + n == y * n) by (nonlinear_arith);
    }
}

pub proof fn lemma_mats_diff_bounds(ms1: Seq<ColorMat>, ms2: Seq<ColorMat>, n: int, k: int)
    requires
        k >= 0,
        n >= 0,
    ensures
        0 <= mats_diff_upto(ms1, ms2, n, k) <= k * (n * n),
    decreases k,
{
    if k > 0 {
        lemma_mats_diff_bounds(ms1, ms2, n, k - 1);
        lemma_mat_diff_bounds(ms1[k - 1], ms2[k - 1], n, n);
        assert((k - 1) * (n * n) + n * n == k * (n * n)) by (nonlinear_arith);
    }
}

/// A mismatch inside the counted range makes the row count positive.
proof fn lemma_row_diff_pos(r1: Seq<Color>, r2: Seq<Color>, j: int, k: int)
    requires
        0 <= k < j,
        r1[k] != r2[k],
    ensures
        row_diff_upto(r1, r2, j) >= 1,
    decreases j,
{
    if k < j - 1 {
        lemma_row_diff_pos(r1, r2, j - 1, k);
    } else {
        lemma_row_diff_bounds(r1, r2, j - 1);
    }
}

proof fn lemma_mat_diff_pos(m1: ColorMat, m2: ColorMat, n: int, y: int, ky: int, kx: int)
    requires
        0 <= ky < y,
        0 <= kx < n,
        m1[ky][kx] != m2[ky][kx],
    ensures
        mat_diff_upto(m1, m2, n, y) >= 1,
    decreases y,
{
    if ky < y - 1 {
        lemma_mat_diff_pos(m1, m2, n, y - 1, ky, kx);
        lemma_row_diff_bounds(m1[y - 1], m2[y - 1], n);
    } else {
        lemma_row_diff_pos(m1[ky], m2[ky], n, kx);
        lemma_mat_diff_bounds(m1, m2, n, y - 1);
    }
}

proof fn lemma_mats_diff_pos(
    s1: Seq<ColorMat>,
    s2: Seq<ColorMat>,
    n: int,
    k: int,
    kf: int,
    ky: int,
    kx: int,
)
    requires
        0 <= kf < k,
        0 <= ky < n,
        0 <= kx < n,
        s1[kf][ky][kx] != s2[kf][ky][kx],
    ensures
        mats_diff_upto(s1, s2, n, k) >= 1,
    decreases k,
{
    if kf < k - 1 {
        lemma_mats_diff_pos(s1, s2, n, k - 1, kf, ky, kx);
        lemma_mat_diff_bounds(s1[k - 1], s2[k - 1], n, n);
    } else {
        lemma_mat_diff_pos(s1[kf], s2[kf], n, n, ky, kx);
        lemma_mats_diff_bounds(s1, s2, n, k - 1);
    }
}

/// Cubes with different sticker assignments sit at positive Hamming
/// distance.
pub proof fn lemma_hamming_positive(a: CubeView, b: CubeView)
    requires
        a.size == b.size,
        mats6_wf(a.mats, a.size),
        mats6_wf(b.mats, b.size),
        a.mats != b.mats,
    ensures
        spec_hamming(a, b) >= 1,
{
    let n = a.size;
    if forall|k: int| 0 <= k < 6 ==> a.mats[k] == b.mats[k] {
        assert(a.mats =~= b.mats);
    }
    let kf = choose|k: int| 0 <= k < 6 && a.mats[k] != b.mats[k];
    let m1 = a.mats[kf];
    let m2 = b.mats[kf];
    if forall|y: int| 0 <= y < n ==> m1[y] == m2[y] {
        assert(m1 =~= m2);
    }
    let ky = choose|y: int| 0 <= y < n && m1[y] != m2[y];
    if forall|x: int| 0 <= x < n ==> m1[ky][x] == m2[ky][x] {
        assert(m1[ky] =~= m2[ky]);
    }
    let kx = choose|x: int| 0 <= x < n && m1[ky][x] != m2[ky][x];
    lemma_mats_diff_pos(a.mats, b.mats, n, 6, kf, ky, kx);
}

/// The six face directions in their standard order.
pub fn all_face_dirs() -> (r: [FaceDir; 6])
    ensures
        r@ == spec_init_order(),
        forall|k: int| 0 <= k < 6 ==> r@[k] == dir_of_index(k),
{
    let r: [FaceDir; 6] = [
        FaceDir::Up,
        FaceDir::Down,
        FaceDir::Left,
        FaceDir::Right,
        FaceDir::Front,
        FaceDir::Back,
    ];
    proof {
        assert(r@ =~= spec_init_order());
    }
    r
}

/// Mismatching stickers between two same-sized faces.
fn count_face_diff(f1: &Face, f2: &Face) -> (c: usize)
    requires
        f1.wf(),
        f2.wf(),
        f1.spec_size() == f2.spec_size(),
        f1.spec_size() * f1.spec_size() <= usize::MAX,
    ensures
        c == mat_diff_upto(f1@, f2@, f1.spec_size() as int, f1.spec_size() as int),
{
    let n = f1.size();
    let mut c: usize = 0;
    let mut y: usize = 0;
    while y < n
        invariant
            f1.wf(),
            f2.wf(),
            n == f1.spec_size(),
            n == f2.spec_size(),
            n * n <= usize::MAX,
            y <= n,
            c == mat_diff_upto(f1@, f2@, n as int, y as int),
            c <= (y as int) * (n as int),
        decreases n - y,
    {
        let mut x: usize = 0;
        while x < n
            invariant
                f1.wf(),
                f2.wf(),
                n == f1.spec_size(),
                n == f2.spec_size(),
                n * n <= usize::MAX,
                y < n,
                x <= n,
                c == mat_diff_upto(f1@, f2@, n as int, y as int) + row_diff_upto(
                    f1@[y as int],
                    f2@[y as int],
                    x as int,
                ),
                c <= (y as int) * (n as int) + x as int,
            decreases n - x,
        {
            proof {
                lemma_mat_diff_bounds(f1@, f2@, n as int, y as int);
                lemma_row_diff_bounds(f1@[y as int], f2@[y as int], x as int);
                assert((y as int) * (n as int) + (n as int) <= (n as int) * (n as int))
                    by (nonlinear_arith)
                    requires
                        0 <= (y as int),
                        (y as int) < (n as int),
                ;
            }
            if f1.get(y, x) != f2.get(y, x) {
                c += 1;
            }
            x += 1;
        }
        proof {
            assert((y as int) * (n as int) + (n as int) == (y as int + 1) * (n as int))
                by (nonlinear_arith);
        }
        y += 1;
    }
    c
}

impl Cube {
    /// The number of positions, compared direction by direction, where the
    /// two cubes' sticker colors differ.
    pub fn hamming_distance(&self, other: &Cube) -> (d: usize)
        requires
            self.wf(),
            other.wf(),
            self@.size == other@.size,
            6 * self@.size * self@.size <= usize::MAX,
        ensures
            d == spec_hamming(self@, other@),
    {
        let dirs = all_face_dirs();
        let mut d: usize = 0;
        let mut k: usize = 0;
        while k < 6
            invariant
                self.wf(),
                other.wf(),
                self@.size == other@.size,
                6 * self@.size * self@.size <= usize::MAX,
                dirs@ == spec_init_order(),
                forall|j: int| 0 <= j < 6 ==> dirs@[j] == dir_of_index(j),
                k <= 6,
                d == mats_diff_upto(self@.mats, other@.mats, self@.size, k as int),
                d <= (k as int) * (self@.size * self@.size),
            decreases 6 - k,
        {
            proof {
                self.lemma_wf_view();
                other.lemma_wf_view();
                assert(dir_index(dir_of_index(k as int)) == k as int);
            }
            let f1 = self.get_face(&dirs[k]);
            let f2 = other.get_face(&dirs[k]);
            proof {
                lemma_mat_diff_bounds(f1@, f2@, self@.size, self@.size);
                assert((k as int) * (self@.size * self@.size) + self@.size * self@.size <= 6 * (
                self@.size * self@.size)) by (nonlinear_arith)
                    requires
                        0 <= (k as int),
                        (k as int) < 6,
                ;
                assert(6 * (self@.size * self@.size) == 6 * self@.size * self@.size)
                    by (nonlinear_arith);
                assert((k as int) * (self@.size * self@.size) + self@.size * self@.size == (
                k as int + 1) * (self@.size * self@.size)) by (nonlinear_arith);
            }
            let c = count_face_diff(f1, f2);
            d += c;
            k += 1;
        }
        d
    }

    /// The 24 rotationally distinct orientations of a fresh solved cube:
    /// four spins around each of six face-up choices, starting from the
    /// standard configuration.
    ///
    /// The first member is the standard solved cube itself, and the members
    /// are pairwise distinct orientations: no two share a direction order.
    #[verifier::rlimit(100)]
    #[verifier::spinoff_prover]
    pub fn all_possible_solved_cubes(size: usize) -> (res: Vec<Cube>)
        requires
            size >= 1,
        ensures
            res@.len() == 24,
            forall|i: int|
                0 <= i < 24 ==> (#[trigger] res@[i]).wf() && res@[i]@.size == size
                    && spec_is_solved(res@[i]@),
            res@[0]@ == spec_solved_cube(size as int),
            forall|i: int|
                0 <= i < 24 ==> (#[trigger] res@[i])@.order[0] == spec_orientation_up(i)
                    && res@[i]@.order[4] == spec_orientation_front(i),
            forall|i: int, j: int| 0 <= i < j < 24 ==> res@[i]@.order != res@[j]@.order,
            forall|i: int| 0 <= i < 24 ==> oriented_solved(#[trigger] res@[i]@, size as int),
            forall|i: int, j: int| 0 <= i < j < 24 ==> res@[i]@.mats != res@[j]@.mats,
            forall|i: int, j: int|
                0 <= i < j < 24 ==> spec_hamming(res@[i]@, res@[j]@) >= 1,
    {
        let mut res: Vec<Cube> = Vec::new();
        let mut cube = Cube::new(size);
        let ghost c0 = cube;
        proof {
            assert(cube@.order[0] == FaceDir::Up && cube@.order[1] == FaceDir::Down
                && cube@.order[2] == FaceDir::Left && cube@.order[3] == FaceDir::Right
                && cube@.order[4] == FaceDir::Front && cube@.order[5] == FaceDir::Back);
            assert forall|j: int| 0 <= j < 6 implies cube@.mats[dir_index(
                #[trigger] cube@.order[j],
            )] == spec_const_mat(size as int, spec_init_color(dir_of_index(j))) by {
                if j == 0 {
                } else if j == 1 {
                } else if j == 2 {
                } else if j == 3 {
                } else if j == 4 {
                } else {
                }
            }
            assert(oriented_solved(cube@, size as int));
        }
        let mut a: usize = 0;
        while a < 4
            invariant
                a <= 4,
                cube.wf(),
                cube@.size == size,
                spec_is_solved(cube@),
                oriented_solved(cube@, size as int),
                c0.wf(),
                c0@.size == size,
                res@.len() == 4 * a,
                cube@.order[0] == spec_orientation_up(
                    if a < 4 {
                        4 * a
                    } else {
                        0
                    },
                ),
                cube@.order[4] == spec_orientation_front(
                    if a < 4 {
                        4 * a
                    } else {
                        0
                    },
                ),
                res@.len() == 0 ==> cube@ == c0@,
                res@.len() > 0 ==> res@[0]@ == c0@,
                forall|i: int|
                    0 <= i < res@.len() ==> (#[trigger] res@[i]).wf() && res@[i]@.size == size
                        && spec_is_solved(res@[i]@) && res@[i]@.order[0] == spec_orientation_up(i)
                        && res@[i]@.order[4] == spec_orientation_front(i)
                        && oriented_solved(res@[i]@, size as int),
            decreases 4 - a,
        {
            let mut b: usize = 0;
            while b < 4
                invariant
                    a < 4,
                    b <= 4,
                    cube.wf(),
                    cube@.size == size,
                    spec_is_solved(cube@),
                    oriented_solved(cube@, size as int),
                    c0.wf(),
                    c0@.size == size,
                    res@.len() == 4 * a + b,
                    cube@.order[0] == spec_orientation_up(
                        if b < 4 {
                            4 * a + b
                        } else {
                            4 * a
                        },
                    ),
                    cube@.order[4] == spec_orientation_front(
                        if b < 4 {
                            4 * a + b
                        } else {
                            4 * a
                        },
                    ),
                    res@.len() == 0 ==> cube@ == c0@,
                    res@.len() > 0 ==> res@[0]@ == c0@,
                    forall|i: int|
                        0 <= i < res@.len() ==> (#[trigger] res@[i]).wf() && res@[i]@.size == size
                            && spec_is_solved(res@[i]@) && res@[i]@.order[0]
                            == spec_orientation_up(i) && res@[i]@.order[4]
                            == spec_orientation_front(i) && oriented_solved(
                                res@[i]@,
                                size as int,
                            ),
                decreases 4 - b,
            {
                res.push(cube.duplicate());
                let ghost pre = cube@;
                cube.rotate_whole_cube(CubeAxis::Z, TurnDir::Clockwise);
                proof {
                    lemma_orientation_z_step(4 * a + b);
                    lemma_rotation_preserves_oriented(
                        pre,
                        cube@,
                        CubeAxis::Z,
                        TurnDir::Clockwise,
                        size as int,
                    );
                }
                b += 1;
            }
            let ghost pre_y = cube@;
            cube.rotate_whole_cube(CubeAxis::Y, TurnDir::Clockwise);
            proof {
                lemma_orientation_y_step(a as int);
                lemma_rotation_preserves_oriented(
                    pre_y,
                    cube@,
                    CubeAxis::Y,
                    TurnDir::Clockwise,
                    size as int,
                );
            }
            a += 1;
        }
        let ghost pre_x1 = cube@;
        cube.rotate_whole_cube(CubeAxis::X, TurnDir::Clockwise);
        proof {
            lemma_rotation_preserves_oriented(
                pre_x1,
                cube@,
                CubeAxis::X,
                TurnDir::Clockwise,
                size as int,
            );
        }
        let mut b: usize = 0;
        while b < 4
            invariant
                b <= 4,
                cube.wf(),
                cube@.size == size,
                spec_is_solved(cube@),
                oriented_solved(cube@, size as int),
                c0.wf(),
                c0@.size == size,
                res@.len() == 16 + b,
                cube@.order[0] == spec_orientation_up(
                    if b < 4 {
                        16 + b
                    } else {
                        16
                    },
                ),
                cube@.order[4] == spec_orientation_front(
                    if b < 4 {
                        16 + b
                    } else {
                        16
                    },
                ),
                res@[0]@ == c0@,
                forall|i: int|
                    0 <= i < res@.len() ==> (#[trigger] res@[i]).wf() && res@[i]@.size == size
                        && spec_is_solved(res@[i]@) && res@[i]@.order[0] == spec_orientation_up(i)
                        && res@[i]@.order[4] == spec_orientation_front(i)
                        && oriented_solved(res@[i]@, size as int),
            decreases 4 - b,
        {
            res.push(cube.duplicate());
            let ghost pre = cube@;
            cube.rotate_whole_cube(CubeAxis::Z, TurnDir::Clockwise);
            proof {
                lemma_orientation_z_step(16 + b);
                lemma_rotation_preserves_oriented(
                    pre,
                    cube@,
                    CubeAxis::Z,
                    TurnDir::Clockwise,
                    size as int,
                );
            }
            b += 1;
        }
        let ghost pre_x2 = cube@;
        cube.rotate_whole_cube(CubeAxis::X, TurnDir::Clockwise);
        proof {
            lemma_rotation_preserves_oriented(
                pre_x2,
                cube@,
                CubeAxis::X,
                TurnDir::Clockwise,
                size as int,
            );
        }
        let ghost pre_x3 = cube@;
        cube.rotate_whole_cube(CubeAxis::X, TurnDir::Clockwise);
        proof {
            lemma_rotation_preserves_oriented(
                pre_x3,
                cube@,
                CubeAxis::X,
                TurnDir::Clockwise,
                size as int,
            );
        }
        let mut b2: usize = 0;
        while b2 < 4
            invariant
                b2 <= 4,
                cube.wf(),
                cube@.size == size,
                spec_is_solved(cube@),
                oriented_solved(cube@, size as int),
                c0.wf(),
                c0@.size == size,
                res@.len() == 20 + b2,
                cube@.order[0] == spec_orientation_up(
                    if b2 < 4 {
                        20 + b2
                    } else {
                        20
                    },
                ),
                cube@.order[4] == spec_orientation_front(
                    if b2 < 4 {
                        20 + b2
                    } else {
                        20
                    },
                ),
                res@[0]@ == c0@,
                forall|i: int|
                    0 <= i < res@.len() ==> (#[trigger] res@[i]).wf() && res@[i]@.size == size
                        && spec_is_solved(res@[i]@) && res@[i]@.order[0] == spec_orientation_up(i)
                        && res@[i]@.order[4] == spec_orientation_front(i)
                        && oriented_solved(res@[i]@, size as int),
            decreases 4 - b2,
        {
            res.push(cube.duplicate());
            let ghost pre = cube@;
            cube.rotate_whole_cube(CubeAxis::Z, TurnDir::Clockwise);
            proof {
                lemma_orientation_z_step(20 + b2);
                lemma_rotation_preserves_oriented(
                    pre,
                    cube@,
                    CubeAxis::Z,
                    TurnDir::Clockwise,
                    size as int,
                );
            }
            b2 += 1;
        }
        proof {
            assert forall|i: int, j: int| 0 <= i < j < 24 implies res@[i]@.order
                != res@[j]@.order && res@[i]@.mats != res@[j]@.mats by {
                lemma_orientation_index_round_trip(i);
                lemma_orientation_index_round_trip(j);
                if res@[i]@.order == res@[j]@.order {
                    assert(spec_orientation_up(i) == spec_orientation_up(j));
                    assert(spec_orientation_front(i) == spec_orientation_front(j));
                }
                lemma_distinct_orientation_mats(res@[i]@, res@[j]@, size as int);
            }
            assert forall|i: int, j: int| 0 <= i < j < 24 implies spec_hamming(
                res@[i]@,
                res@[j]@,
            ) >= 1 by {
                res@[i].lemma_wf_view();
                res@[j].lemma_wf_view();
                lemma_hamming_positive(res@[i]@, res@[j]@);
            }
        }
        res
    }
}

/// The direction the yellow (initially up) face points at in the `m`th
/// enumerated orientation: the spin cycles it through Up, Right, Down and
/// Left in the first sixteen, then it rests on Back, then on Front.
pub open spec fn spec_orientation_up(m: int) -> FaceDir {
    if m < 16 {
        if m % 4 == 0 {
            FaceDir::Up
        } else if m % 4 == 1 {
            FaceDir::Right
        } else if m % 4 == 2 {
            FaceDir::Down
        } else {
            FaceDir::Left
        }
    } else if m < 20 {
        FaceDir::Back
    } else {
        FaceDir::Front
    }
}

/// The direction the orange (initially front) face points at in the `m`th
/// enumerated orientation.
pub open spec fn spec_orientation_front(m: int) -> FaceDir {
    if m < 4 {
        FaceDir::Front
    } else if m < 8 {
        if m % 4 == 0 {
            FaceDir::Left
        } else if m % 4 == 1 {
            FaceDir::Up
        } else if m % 4 == 2 {
            FaceDir::Right
        } else {
            FaceDir::Down
        }
    } else if m < 12 {
        FaceDir::Back
    } else if m < 16 {
        if m % 4 == 0 {
            FaceDir::Right
        } else if m % 4 == 1 {
            FaceDir::Down
        } else if m % 4 == 2 {
            FaceDir::Left
        } else {
            FaceDir::Up
        }
    } else if m < 20 {
        if m % 4 == 0 {
            FaceDir::Up
        } else if m % 4 == 1 {
            FaceDir::Right
        } else if m % 4 == 2 {
            FaceDir::Down
        } else {
            FaceDir::Left
        }
    } else {
        if m % 4 == 0 {
            FaceDir::Down
        } else if m % 4 == 1 {
            FaceDir::Left
        } else if m % 4 == 2 {
            FaceDir::Up
        } else {
            FaceDir::Right
        }
    }
}

/// The position an orientation holds in the enumeration, read back from
/// where its yellow and orange faces point.
pub open spec fn spec_orientation_index(u: FaceDir, f: FaceDir) -> int {
    match u {
        FaceDir::Up => match f {
            FaceDir::Front => 0,
            FaceDir::Left => 4,
            FaceDir::Back => 8,
            FaceDir::Right => 12,
            _ => 24,
        },
        FaceDir::Right => match f {
            FaceDir::Front => 1,
            FaceDir::Up => 5,
            FaceDir::Back => 9,
            FaceDir::Down => 13,
            _ => 24,
        },
        FaceDir::Down => match f {
            FaceDir::Front => 2,
            FaceDir::Right => 6,
            FaceDir::Back => 10,
            FaceDir::Left => 14,
            _ => 24,
        },
        FaceDir::Left => match f {
            FaceDir::Front => 3,
            FaceDir::Down => 7,
            FaceDir::Back => 11,
            FaceDir::Up => 15,
            _ => 24,
        },
        FaceDir::Back => match f {
            FaceDir::Up => 16,
            FaceDir::Right => 17,
            FaceDir::Down => 18,
            FaceDir::Left => 19,
            _ => 24,
        },
        FaceDir::Front => match f {
            FaceDir::Down => 20,
            FaceDir::Left => 21,
            FaceDir::Up => 22,
            FaceDir::Right => 23,
            _ => 24,
        },
    }
}

/// The yellow/orange pair determines the position: the enumeration never
/// repeats an orientation.
pub proof fn lemma_orientation_index_round_trip(m: int)
    requires
        0 <= m < 24,
    ensures
        spec_orientation_index(spec_orientation_up(m), spec_orientation_front(m)) == m,
{
    if m < 4 {
        if m == 0 {
        } else if m == 1 {
        } else if m == 2 {
        } else {
        }
    } else if m < 8 {
        if m == 4 {
        } else if m == 5 {
        } else if m == 6 {
        } else {
        }
    } else if m < 12 {
        if m == 8 {
        } else if m == 9 {
        } else if m == 10 {
        } else {
        }
    } else if m < 16 {
        if m == 12 {
        } else if m == 13 {
        } else if m == 14 {
        } else {
        }
    } else if m < 20 {
        if m == 16 {
        } else if m == 17 {
        } else if m == 18 {
        } else {
        }
    } else {
        if m == 20 {
        } else if m == 21 {
        } else if m == 22 {
        } else {
        }
    }
}

/// One spin around the Z axis carries orientation `m` to the next one in
/// its block of four, wrapping back at the block's end.
proof fn lemma_orientation_z_step(m: int)
    requires
        0 <= m < 24,
    ensures
        spec_rotated_dir(spec_orientation_up(m), CubeAxis::Z, TurnDir::Clockwise)
            == spec_orientation_up(
            if m % 4 < 3 {
                m + 1
            } else {
                m - 3
            },
        ),
        spec_rotated_dir(spec_orientation_front(m), CubeAxis::Z, TurnDir::Clockwise)
            == spec_orientation_front(
            if m % 4 < 3 {
                m + 1
            } else {
                m - 3
            },
        ),
{
    if m < 4 {
        if m == 0 {
        } else if m == 1 {
        } else if m == 2 {
        } else {
        }
    } else if m < 8 {
        if m == 4 {
        } else if m == 5 {
        } else if m == 6 {
        } else {
        }
    } else if m < 12 {
        if m == 8 {
        } else if m == 9 {
        } else if m == 10 {
        } else {
        }
    } else if m < 16 {
        if m == 12 {
        } else if m == 13 {
        } else if m == 14 {
        } else {
        }
    } else if m < 20 {
        if m == 16 {
        } else if m == 17 {
        } else if m == 18 {
        } else {
        }
    } else {
        if m == 20 {
        } else if m == 21 {
        } else if m == 22 {
        } else {
        }
    }
}

/// One spin around the Y axis carries a block's starting orientation to
/// the next block's start, wrapping back to the first after the fourth.
proof fn lemma_orientation_y_step(a: int)
    requires
        0 <= a < 4,
    ensures
        spec_rotated_dir(spec_orientation_up(4 * a), CubeAxis::Y, TurnDir::Clockwise)
            == spec_orientation_up(
            if a < 3 {
                4 * a + 4
            } else {
                0
            },
        ),
        spec_rotated_dir(spec_orientation_front(4 * a), CubeAxis::Y, TurnDir::Clockwise)
            == spec_orientation_front(
            if a < 3 {
                4 * a + 4
            } else {
                0
            },
        ),
{
    if a == 0 {
    } else if a == 1 {
    } else if a == 2 {
    } else {
    }
}

/// A solved cube carrying the standard coloring in some orientation: the
/// face that fills each slot still shows its one starting color, as a
/// constant grid at whatever direction the orientation assigns the slot.
pub open spec fn oriented_solved(cv: CubeView, size: int) -> bool {
    &&& cv.size == size
    &&& cv.order.len() == 6
    &&& forall|j: int|
        0 <= j < 6 ==> cv.mats[dir_index(#[trigger] cv.order[j])] == spec_const_mat(
            size,
            spec_init_color(dir_of_index(j)),
        )
}

/// Reorienting the whole cube keeps each slot's constant grid, at the
/// rotated direction.
proof fn lemma_rotation_preserves_oriented(
    before: CubeView,
    after: CubeView,
    axis: CubeAxis,
    dir: TurnDir,
    size: int,
)
    requires
        oriented_solved(before, size),
        after.size == before.size,
        after.order == Seq::new(6, |i: int| spec_rotated_dir(before.order[i], axis, dir)),
        forall|d: FaceDir|
            after.mats[dir_index(#[trigger] spec_rotated_dir(d, axis, dir))] == before.mats[
                dir_index(d)],
    ensures
        oriented_solved(after, size),
{
    assert forall|j: int| 0 <= j < 6 implies after.mats[dir_index(#[trigger] after.order[j])]
        == spec_const_mat(size, spec_init_color(dir_of_index(j))) by {
        let d = before.order[j];
        assert(after.order[j] == spec_rotated_dir(d, axis, dir));
        assert(after.mats[dir_index(spec_rotated_dir(d, axis, dir))] == before.mats[dir_index(
            d,
        )]);
    }
}

/// Two differently-oriented solved cubes differ in their grids: the six
/// starting colors are pairwise distinct, so some direction shows
/// different colors.
pub proof fn lemma_distinct_orientation_mats(a: CubeView, b: CubeView, size: int)
    requires
        size >= 1,
        oriented_solved(a, size),
        oriented_solved(b, size),
        order_wf(a.order),
        order_wf(b.order),
        a.order != b.order,
    ensures
        a.mats != b.mats,
{
    if forall|k: int| 0 <= k < 6 ==> a.order[k] == b.order[k] {
        assert(a.order =~= b.order);
    }
    let k = choose|k: int| 0 <= k < 6 && a.order[k] != b.order[k];
    if a.mats == b.mats {
        let d = a.order[k];
        lemma_pos_of_in_range(b.order, d);
        let k2 = pos_of(b.order, d);
        assert(a.mats[dir_index(d)] == spec_const_mat(size, spec_init_color(dir_of_index(k))));
        assert(b.mats[dir_index(d)] == spec_const_mat(size, spec_init_color(dir_of_index(k2))));
        assert(spec_const_mat(size, spec_init_color(dir_of_index(k)))[0][0] == spec_init_color(
            dir_of_index(k),
        ));
        assert(spec_const_mat(size, spec_init_color(dir_of_index(k2)))[0][0] == spec_init_color(
            dir_of_index(k2),
        ));
        assert(spec_init_color(dir_of_index(k)) == spec_init_color(dir_of_index(k2)));
        assert(dir_of_index(k) == dir_of_index(k2)) by {
            match dir_of_index(k) {
                FaceDir::Up => {},
                FaceDir::Down => {},
                FaceDir::Left => {},
                FaceDir::Right => {},
                FaceDir::Front => {},
                FaceDir::Back => {},
            }
        }
        assert(k == k2);
        assert(b.order[k] == d);
        assert(false);
    }
}

/// Relies on rand::random_range: a uniform draw from `0..n`, which always
/// lies inside that range; the range is nonempty, so the call returns.
#[verifier::external_body]
fn random_below(n: usize) -> (r: usize)
    requires
        n >= 1,
    ensures
        r < n,
{
    rand::random_range(0..n)
}

/// The turn at position `i` when the twelve quarter turns are listed face
/// by face, clockwise first.
pub open spec fn spec_turn_of_index(i: int) -> Turn {
    Turn {
        face_dir: dir_of_index(i / 2),
        turn_dir: if i % 2 == 0 {
            TurnDir::Clockwise
        } else {
            TurnDir::CounterClockwise
        },
    }
}

/// Distinct positions list distinct turns.
pub proof fn lemma_turn_of_index_injective(i: int, j: int)
    requires
        0 <= i < 12,
        0 <= j < 12,
        i != j,
    ensures
        spec_turn_of_index(i) != spec_turn_of_index(j),
{
    if i / 2 == j / 2 {
        assert(i % 2 != j % 2);
    } else {
        assert(dir_of_index(i / 2) != dir_of_index(j / 2));
    }
}

/// The face direction at position `i` of the standard order.
fn face_dir_of_index(i: usize) -> (d: FaceDir)
    requires
        i < 6,
    ensures
        d == dir_of_index(i as int),
{
    if i == 0 {
        FaceDir::Up
    } else if i == 1 {
        FaceDir::Down
    } else if i == 2 {
        FaceDir::Left
    } else if i == 3 {
        FaceDir::Right
    } else if i == 4 {
        FaceDir::Front
    } else {
        FaceDir::Back
    }
}

/// The turn at position `i` of the twelve quarter turns.
fn turn_of_index(i: usize) -> (t: Turn)
    requires
        i < 12,
    ensures
        t == spec_turn_of_index(i as int),
{
    let face_dir = face_dir_of_index(i / 2);
    let turn_dir = if i % 2 == 0 {
        TurnDir::Clockwise
    } else {
        TurnDir::CounterClockwise
    };
    Turn { face_dir, turn_dir }
}

/// The position of `t` among the twelve quarter turns.
fn index_of_turn(t: &Turn) -> (i: usize)
    ensures
        i < 12,
        spec_turn_of_index(i as int) == *t,
{
    let fi: usize = match t.face_dir {
        FaceDir::Up => 0,
        FaceDir::Down => 1,
        FaceDir::Left => 2,
        FaceDir::Right => 3,
        FaceDir::Front => 4,
        FaceDir::Back => 5,
    };
    let b: usize = match t.turn_dir {
        TurnDir::Clockwise => 0,
        TurnDir::CounterClockwise => 1,
    };
    2 * fi + b
}

impl Turn {
    /// A uniformly random quarter turn.
    fn random_turn() -> (t: Turn) {
        let r = random_below(12);
        turn_of_index(r)
    }

    /// A uniformly random quarter turn among those that do not reverse
    /// `prev`: the reverse is skipped over in the listing, so every valid
    /// turn keeps equal probability.
    fn random_turn_avoiding(prev: &Turn) -> (t: Turn)
        ensures
            !t.spec_is_reversed(*prev),
    {
        let rev = Turn::new(prev.face_dir, prev.turn_dir.get_reversed());
        let ri = index_of_turn(&rev);
        let r = random_below(11);
        let ci = if r < ri {
            r
        } else {
            r + 1
        };
        let t = turn_of_index(ci);
        proof {
            lemma_turn_of_index_injective(ci as int, ri as int);
            assert(t != rev);
        }
        t
    }
}

impl Cube {
    /// Scramble with `k` random quarter turns, none of which undoes the
    /// turn just before it, and return the sequence applied.
    ///
    /// Scrambling is supported on the smallest nontrivial cube only.
    pub fn scramble(&mut self, k: usize) -> (algo: Vec<Turn>)
        requires
            old(self).wf(),
            old(self)@.size <= 2,
        ensures
            final(self).wf(),
            final(self)@.order == old(self)@.order,
            final(self)@.size == old(self)@.size,
            algo@.len() == k,
            final(self)@.mats == spec_apply_turns(old(self)@.mats, algo@, old(self)@.size),
            forall|i: int|
                0 <= i < k - 1 ==> !(#[trigger] algo@[i + 1]).spec_is_reversed(algo@[i]),
    {
        let ghost m0 = self@.mats;
        let ghost size = self@.size;
        let mut algo: Vec<Turn> = Vec::new();
        let mut step: usize = 0;
        while step < k
            invariant
                self.wf(),
                self@.size == size,
                self@.order == old(self)@.order,
                step <= k,
                algo@.len() == step,
                self@.mats == spec_apply_turns(m0, algo@, size),
                forall|i: int|
                    0 <= i < step - 1 ==> !(#[trigger] algo@[i + 1]).spec_is_reversed(algo@[i]),
            decreases k - step,
        {
            let t: Turn;
            if algo.len() == 0 {
                t = Turn::random_turn();
            } else {
                let prev = algo[algo.len() - 1];
                t = Turn::random_turn_avoiding(&prev);
            }
            let ghost prev_algo = algo@;
            algo.push(t);
            self.turn_layer(&t, 1);
            proof {
                lemma_apply_turns_snoc(m0, prev_algo, t, size);
                assert(algo@ =~= prev_algo.push(t));
            }
            step += 1;
        }
        algo
    }
}

/// The letter naming a face direction in turn notation.
pub open spec fn spec_face_letter(d: FaceDir) -> char {
    match d {
        FaceDir::Up => 'U',
        FaceDir::Down => 'D',
        FaceDir::Left => 'L',
        FaceDir::Right => 'R',
        FaceDir::Front => 'F',
        FaceDir::Back => 'B',
    }
}

/// The notation of one turn: the face letter, with a prime for a
/// counter-clockwise turn.
pub open spec fn spec_turn_text(t: Turn) -> Seq<char> {
    if t.turn_dir == TurnDir::CounterClockwise {
        seq![spec_face_letter(t.face_dir), '\'']
    } else {
        seq![spec_face_letter(t.face_dir)]
    }
}

/// The notation of the first `i` turns, joined by single spaces.
pub open spec fn spec_algo_text_upto(ts: Seq<Turn>, i: int) -> Seq<char>
    decreases i,
{
    if i <= 0 {
        Seq::empty()
    } else if i == 1 {
        spec_turn_text(ts[0])
    } else {
        spec_algo_text_upto(ts, i - 1) + seq![' '] + spec_turn_text(ts[i - 1])
    }
}

/// The notation of a whole turn sequence.
pub open spec fn spec_algo_text(ts: Seq<Turn>) -> Seq<char> {
    spec_algo_text_upto(ts, ts.len() as int)
}

/// Appends the notation of one turn to `s`.
fn push_turn_text(s: &mut String, t: &Turn)
    ensures
        final(s)@ == old(s)@ + spec_turn_text(*t),
{
    match t.face_dir {
        FaceDir::Up => s.append("U"),
        FaceDir::Down => s.append("D"),
        FaceDir::Left => s.append("L"),
        FaceDir::Right => s.append("R"),
        FaceDir::Front => s.append("F"),
        FaceDir::Back => s.append("B"),
    }
    if t.turn_dir == TurnDir::CounterClockwise {
        s.append("'");
    }
    proof {
        reveal_strlit("U");
        reveal_strlit("D");
        reveal_strlit("L");
        reveal_strlit("R");
        reveal_strlit("F");
        reveal_strlit("B");
        reveal_strlit("'");
        assert(s@ =~= old(s)@ + spec_turn_text(*t));
    }
}

impl Turn {
    /// The notation of `algo` as text: face letters, a prime for
    /// counter-clockwise, tokens joined by spaces.
    pub fn algo_string(algo: &Vec<Turn>) -> (s: String)
        ensures
            s@ == spec_algo_text(algo@),
    {
        let mut s = String::new();
        let n = algo.len();
        let mut i: usize = 0;
        while i < n
            invariant
                n == algo@.len(),
                i <= n,
                s@ == spec_algo_text_upto(algo@, i as int),
            decreases n - i,
        {
            if i > 0 {
                s.append(" ");
            }
            push_turn_text(&mut s, &algo[i]);
            proof {
                reveal_strlit(" ");
                if i == 0 {
                    assert(s@ =~= spec_algo_text_upto(algo@, i + 1));
                } else {
                    assert(s@ =~= spec_algo_text_upto(algo@, i as int) + seq![' ']
                        + spec_turn_text(algo@[i as int]));
                    assert(s@ =~= spec_algo_text_upto(algo@, i + 1));
                }
            }
            i += 1;
        }
        s
    }
}

/// A fresh vector holding `v` backwards.
fn reversed_vec(v: &Vec<Color>) -> (r: Vec<Color>)
    ensures
        r@ == spec_reversed_slice(v@),
{
    let n = v.len();
    let mut r: Vec<Color> = Vec::new();
    for k in 0..n
        invariant
            n == v@.len(),
            r@.len() == k,
            forall|a: int| 0 <= a < k ==> r@[a] == v@[n - 1 - a],
    {
        r.push(v[n - 1 - k]);
    }
    proof {
        assert(r@ =~= spec_reversed_slice(v@));
    }
    r
}

/// A fresh vector with the same colors.
fn duplicated_vec(v: &Vec<Color>) -> (r: Vec<Color>)
    ensures
        r@ == v@,
{
    let n = v.len();
    let mut r: Vec<Color> = Vec::new();
    for k in 0..n
        invariant
            n == v@.len(),
            r@.len() == k,
            forall|a: int| 0 <= a < k ==> r@[a] == v@[a],
    {
        r.push(v[k]);
    }
    proof {
        assert(r@ =~= v@);
    }
    r
}

} // verus!
