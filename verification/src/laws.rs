//! The algebra of turning: reading and writing slices, rotating grids, and
//! the laws that turns satisfy — a turn and its reverse cancel, four equal
//! quarter turns cancel, and a turn sequence is undone by its exact reverse.

use vstd::prelude::*;
use crate::cube::{
    band_index, band_is_col, band_reversed, dir_index, dir_of_index, lemma_apply_turns_snoc,
    lemma_cycle_distinct, lemma_dir_index_injective, lemma_mat_diff_bounds,
    lemma_row_diff_bounds, mat_diff_upto, mat_wf, mats6_wf,
    mats_diff_upto, row_diff_upto, spec_apply_turns, spec_band, spec_band_slice, spec_base_cycle,
    spec_cycle, Color,
    spec_effective_dir, spec_hamming, spec_read_slice, spec_rev_if, spec_reversed_slice,
    spec_rotated_mat, spec_turn_mats, spec_write_slice, ColorMat, CubeAxis, CubeView, FaceDir,
    Turn, TurnDir,
};

verus! {

/// Reading back a freshly written slice gives the slice.
pub proof fn lemma_read_of_write(m: ColorMat, n: int, i: int, is_col: bool, s: Seq<Color>)
    requires
        mat_wf(m, n),
        0 <= i < n,
        s.len() == n,
    ensures
        spec_read_slice(spec_write_slice(m, i, is_col, s), i, is_col) == s,
{
    assert(spec_read_slice(spec_write_slice(m, i, is_col, s), i, is_col) =~= s);
}

/// Writing the same slice position twice keeps only the second write.
pub proof fn lemma_write_of_write(
    m: ColorMat,
    n: int,
    i: int,
    is_col: bool,
    s1: Seq<Color>,
    s2: Seq<Color>,
)
    requires
        mat_wf(m, n),
        0 <= i < n,
        s1.len() == n,
        s2.len() == n,
    ensures
        spec_write_slice(spec_write_slice(m, i, is_col, s1), i, is_col, s2) == spec_write_slice(
            m,
            i,
            is_col,
            s2,
        ),
{
    let w1 = spec_write_slice(m, i, is_col, s1);
    let w2 = spec_write_slice(w1, i, is_col, s2);
    let w = spec_write_slice(m, i, is_col, s2);
    if is_col {
        assert forall|r: int| 0 <= r < n implies w2[r] == w[r] by {
            assert(w1[r] == m[r].update(i, s1[r]));
            assert(w2[r] =~= w[r]);
        }
        assert(w2 =~= w);
    } else {
        assert(w2 =~= w);
    }
}

/// Writing a slice position with what it already holds changes nothing.
pub proof fn lemma_write_of_read(m: ColorMat, n: int, i: int, is_col: bool)
    requires
        mat_wf(m, n),
        0 <= i < n,
    ensures
        spec_write_slice(m, i, is_col, spec_read_slice(m, i, is_col)) == m,
{
    let w = spec_write_slice(m, i, is_col, spec_read_slice(m, i, is_col));
    if is_col {
        assert forall|r: int| 0 <= r < n implies w[r] == m[r] by {
            assert(w[r] =~= m[r]);
        }
        assert(w =~= m);
    } else {
        assert(w =~= m);
    }
}

/// Reversing a slice twice gives the slice back.
pub proof fn lemma_reversed_involutive(s: Seq<Color>)
    ensures
        spec_reversed_slice(spec_reversed_slice(s)) == s,
{
    assert(spec_reversed_slice(spec_reversed_slice(s)) =~= s);
}

/// A written matrix is still well formed, and a read slice has full length.
pub proof fn lemma_slice_shapes(m: ColorMat, n: int, i: int, is_col: bool, s: Seq<Color>)
    requires
        mat_wf(m, n),
        0 <= i < n,
        s.len() == n,
    ensures
        mat_wf(spec_write_slice(m, i, is_col, s), n),
        spec_read_slice(m, i, is_col).len() == n,
        spec_reversed_slice(s).len() == n,
        spec_rev_if(true, s).len() == n,
        spec_rev_if(false, s).len() == n,
{
}

/// A rotated matrix is still well formed.
pub proof fn lemma_rotated_mat_wf(m: ColorMat, n: int, dir: TurnDir)
    requires
        mat_wf(m, n),
    ensures
        mat_wf(spec_rotated_mat(m, dir), n),
{
}

/// A quarter rotation is undone by the opposite quarter rotation.
pub proof fn lemma_rotated_mat_inverse(m: ColorMat, n: int, dir: TurnDir)
    requires
        mat_wf(m, n),
    ensures
        spec_rotated_mat(spec_rotated_mat(m, dir), dir.spec_reversed()) == m,
{
    let r1 = spec_rotated_mat(m, dir);
    let r2 = spec_rotated_mat(r1, dir.spec_reversed());
    assert forall|i: int| 0 <= i < n implies r2[i] == m[i] by {
        assert(r2[i] =~= m[i]);
    }
    assert(r2 =~= m);
}

/// Four equal quarter rotations give the matrix back.
pub proof fn lemma_rotated_mat_four(m: ColorMat, n: int, dir: TurnDir)
    requires
        mat_wf(m, n),
    ensures
        spec_rotated_mat(
            spec_rotated_mat(spec_rotated_mat(spec_rotated_mat(m, dir), dir), dir),
            dir,
        ) == m,
{
    let r1 = spec_rotated_mat(m, dir);
    let r2 = spec_rotated_mat(r1, dir);
    let r3 = spec_rotated_mat(r2, dir);
    let r4 = spec_rotated_mat(r3, dir);
    let half = Seq::new(n as nat, |i: int| Seq::new(n as nat, |j: int| m[n - 1 - i][n - 1 - j]));
    assert forall|i: int| 0 <= i < n implies r2[i] == half[i] by {
        assert(r2[i] =~= half[i]);
    }
    assert(r2 =~= half);
    assert forall|i: int| 0 <= i < n implies r4[i] == m[i] by {
        assert(r4[i] =~= m[i]);
    }
    assert(r4 =~= m);
}

/// An even number of conditional reversals cancels out.
pub proof fn lemma_rev_if_even(a: bool, b: bool, c: bool, d: bool, s: Seq<Color>)
    requires
        ((a != b) != (c != d)) == false,
    ensures
        spec_rev_if(a, spec_rev_if(b, spec_rev_if(c, spec_rev_if(d, s)))) == s,
{
    lemma_reversed_involutive(s);
    lemma_reversed_involutive(spec_reversed_slice(s));
}

/// The cycle of the reversed turn is the reversed cycle.
pub proof fn lemma_cycle_of_reversed(axis: CubeAxis, dir: TurnDir)
    ensures
        forall|k: int|
            0 <= k < 4 ==> #[trigger] spec_cycle(axis, dir.spec_reversed())[k] == spec_cycle(
                axis,
                dir,
            )[3 - k],
{
    let base = spec_base_cycle(axis);
    assert(base.reverse() =~= seq![base[3], base[2], base[1], base[0]]);
    match (axis, dir) {
        (CubeAxis::X, TurnDir::Clockwise) => {},
        (CubeAxis::X, TurnDir::CounterClockwise) => {},
        (CubeAxis::Y, TurnDir::Clockwise) => {},
        (CubeAxis::Y, TurnDir::CounterClockwise) => {},
        (CubeAxis::Z, TurnDir::Clockwise) => {},
        (CubeAxis::Z, TurnDir::CounterClockwise) => {},
    }
}

/// Around the cycle, the reversal parity of the reversed turn at a face
/// matches the parity of the forward turn at that face's successor.
pub proof fn lemma_band_edges(axis: CubeAxis, dir: TurnDir)
    ensures
        band_reversed(spec_cycle(axis, dir)[0], axis, dir.spec_reversed()) == band_reversed(
            spec_cycle(axis, dir)[1],
            axis,
            dir,
        ),
        band_reversed(spec_cycle(axis, dir)[1], axis, dir.spec_reversed()) == band_reversed(
            spec_cycle(axis, dir)[2],
            axis,
            dir,
        ),
        band_reversed(spec_cycle(axis, dir)[2], axis, dir.spec_reversed()) == band_reversed(
            spec_cycle(axis, dir)[3],
            axis,
            dir,
        ),
        band_reversed(spec_cycle(axis, dir)[3], axis, dir.spec_reversed()) == band_reversed(
            spec_cycle(axis, dir)[0],
            axis,
            dir,
        ),
{
    let base = spec_base_cycle(axis);
    assert(base.reverse() =~= seq![base[3], base[2], base[1], base[0]]);
    match (axis, dir) {
        (CubeAxis::X, TurnDir::Clockwise) => {},
        (CubeAxis::X, TurnDir::CounterClockwise) => {},
        (CubeAxis::Y, TurnDir::Clockwise) => {},
        (CubeAxis::Y, TurnDir::CounterClockwise) => {},
        (CubeAxis::Z, TurnDir::Clockwise) => {},
        (CubeAxis::Z, TurnDir::CounterClockwise) => {},
    }
}

/// Around the cycle, an even number of faces asks for a reversal.
pub proof fn lemma_band_parity(axis: CubeAxis, dir: TurnDir)
    ensures
        ((band_reversed(spec_cycle(axis, dir)[0], axis, dir) != band_reversed(
            spec_cycle(axis, dir)[1],
            axis,
            dir,
        )) != (band_reversed(spec_cycle(axis, dir)[2], axis, dir) != band_reversed(
            spec_cycle(axis, dir)[3],
            axis,
            dir,
        ))) == false,
{
    let base = spec_base_cycle(axis);
    assert(base.reverse() =~= seq![base[3], base[2], base[1], base[0]]);
    match (axis, dir) {
        (CubeAxis::X, TurnDir::Clockwise) => {},
        (CubeAxis::X, TurnDir::CounterClockwise) => {},
        (CubeAxis::Y, TurnDir::Clockwise) => {},
        (CubeAxis::Y, TurnDir::CounterClockwise) => {},
        (CubeAxis::Z, TurnDir::Clockwise) => {},
        (CubeAxis::Z, TurnDir::CounterClockwise) => {},
    }
}

/// Every direction off the rotation axis lies on the cycle.
pub proof fn lemma_cycle_covers(axis: CubeAxis, dir: TurnDir, d: FaceDir)
    requires
        d.spec_axis() != axis,
    ensures
        d == spec_cycle(axis, dir)[0] || d == spec_cycle(axis, dir)[1] || d == spec_cycle(
            axis,
            dir,
        )[2] || d == spec_cycle(axis, dir)[3],
{
    let base = spec_base_cycle(axis);
    assert(base.reverse() =~= seq![base[3], base[2], base[1], base[0]]);
    match (axis, dir) {
        (CubeAxis::X, TurnDir::Clockwise) => {},
        (CubeAxis::X, TurnDir::CounterClockwise) => {},
        (CubeAxis::Y, TurnDir::Clockwise) => {},
        (CubeAxis::Y, TurnDir::CounterClockwise) => {},
        (CubeAxis::Z, TurnDir::Clockwise) => {},
        (CubeAxis::Z, TurnDir::CounterClockwise) => {},
    }
}

/// What one turn does to each face, stated pointwise: the turned face's own
/// grid rotates (outermost layer only), each cycle face gets its
/// predecessor's band slice with the parity reversal, everything else
/// stands still.
#[verifier::rlimit(100)]
#[verifier::spinoff_prover]
pub proof fn lemma_turn_step(mats: Seq<ColorMat>, t: Turn, layer: int, size: int)
    requires
        mats6_wf(mats, size),
        1 <= layer <= size,
    ensures
        mats6_wf(spec_turn_mats(mats, t, layer, size), size),
        spec_turn_mats(mats, t, layer, size)[dir_index(t.face_dir)] == (if layer == 1 {
            spec_rotated_mat(mats[dir_index(t.face_dir)], t.turn_dir)
        } else {
            mats[dir_index(t.face_dir)]
        }),
        forall|i: int|
            0 <= i < 6 && dir_of_index(i).spec_axis() == t.face_dir.spec_axis() && dir_of_index(i)
                != t.face_dir ==> #[trigger] spec_turn_mats(mats, t, layer, size)[i] == mats[i],
        forall|j: int|
            0 <= j < 4 ==> #[trigger] spec_turn_mats(mats, t, layer, size)[dir_index(
                spec_cycle(
                    t.face_dir.spec_axis(),
                    spec_effective_dir(t.face_dir, t.turn_dir),
                )[j],
            )] == spec_write_slice(
                mats[dir_index(
                    spec_cycle(
                        t.face_dir.spec_axis(),
                        spec_effective_dir(t.face_dir, t.turn_dir),
                    )[j],
                )],
                band_index(
                    spec_cycle(
                        t.face_dir.spec_axis(),
                        spec_effective_dir(t.face_dir, t.turn_dir),
                    )[j],
                    t.face_dir.spec_axis(),
                    t.face_dir.spec_is_positive(),
                    layer,
                    size,
                ),
                band_is_col(
                    spec_cycle(
                        t.face_dir.spec_axis(),
                        spec_effective_dir(t.face_dir, t.turn_dir),
                    )[j],
                    t.face_dir.spec_axis(),
                ),
                spec_rev_if(
                    band_reversed(
                        spec_cycle(
                            t.face_dir.spec_axis(),
                            spec_effective_dir(t.face_dir, t.turn_dir),
                        )[j],
                        t.face_dir.spec_axis(),
                        spec_effective_dir(t.face_dir, t.turn_dir),
                    ),
                    spec_band_slice(
                        mats,
                        spec_cycle(
                            t.face_dir.spec_axis(),
                            spec_effective_dir(t.face_dir, t.turn_dir),
                        )[if j == 0 {
                            3
                        } else {
                            j - 1
                        }],
                        t.face_dir.spec_axis(),
                        t.face_dir.spec_is_positive(),
                        layer,
                        size,
                    ),
                ),
            ),
{
    let axis = t.face_dir.spec_axis();
    let dir = spec_effective_dir(t.face_dir, t.turn_dir);
    let pos = t.face_dir.spec_is_positive();
    let ds = spec_cycle(axis, dir);
    let fd = t.face_dir;
    lemma_cycle_distinct(axis, dir);
    let m1 = if layer == 1 {
        mats.update(dir_index(fd), spec_rotated_mat(mats[dir_index(fd)], t.turn_dir))
    } else {
        mats
    };
    assert(mats6_wf(m1, size)) by {
        lemma_rotated_mat_wf(mats[dir_index(fd)], size, t.turn_dir);
        assert(0 <= dir_index(fd) < 6);
        assert forall|i: int| 0 <= i < 6 implies mat_wf(#[trigger] m1[i], size) by {}
    }
    let b = spec_turn_mats(mats, t, layer, size);
    assert(b == spec_band(m1, fd, t.turn_dir, layer, size));
    // the four cycle faces are off the axis and mutually distinct, so their
    // view indices are all different from each other and from the turned face
    assert forall|j: int, k: int| 0 <= j < 4 && 0 <= k < 4 && j != k implies dir_index(ds[j])
        != dir_index(ds[k]) && dir_index(ds[j]) != dir_index(fd) by {
        lemma_dir_index_injective(ds[j], ds[k]);
        assert(ds[j].spec_axis() != axis);
        lemma_dir_index_injective(ds[j], fd);
    }
    // each cycle face's matrix in m1 is its matrix in mats
    assert forall|j: int| 0 <= j < 4 implies m1[dir_index(#[trigger] ds[j])] == mats[dir_index(
        ds[j],
    )] by {
        lemma_dir_index_injective(ds[j], fd);
    }
    // slices read by the band over m1 equal those over mats
    assert forall|j: int| 0 <= j < 4 implies spec_band_slice(m1, #[trigger] ds[j], axis, pos, layer, size)
        == spec_band_slice(mats, ds[j], axis, pos, layer, size) by {}
    // shapes
    assert forall|j: int| 0 <= j < 4 implies spec_band_slice(
        mats,
        #[trigger] ds[j],
        axis,
        pos,
        layer,
        size,
    ).len() == size && spec_rev_if(
        band_reversed(ds[j], axis, dir),
        spec_band_slice(
            mats,
            ds[if j == 0 {
                3
            } else {
                j - 1
            }],
            axis,
            pos,
            layer,
            size,
        ),
    ).len() == size by {
        let jp = if j == 0 { 3 } else { j - 1 };
        lemma_slice_shapes(
            mats[dir_index(ds[j])],
            size,
            band_index(ds[j], axis, pos, layer, size),
            band_is_col(ds[j], axis),
            spec_band_slice(mats, ds[jp], axis, pos, layer, size),
        );
    }
    assert(mats6_wf(b, size)) by {
        assert forall|i: int| 0 <= i < 6 implies mat_wf(#[trigger] b[i], size) by {
            if i == dir_index(ds[0]) || i == dir_index(ds[1]) || i == dir_index(ds[2]) || i
                == dir_index(ds[3]) {
                assert forall|j: int| 0 <= j < 4 implies mat_wf(
                    spec_write_slice(
                        mats[dir_index(#[trigger] ds[j])],
                        band_index(ds[j], axis, pos, layer, size),
                        band_is_col(ds[j], axis),
                        spec_rev_if(
                            band_reversed(ds[j], axis, dir),
                            spec_band_slice(
                                mats,
                                ds[if j == 0 {
                                    3
                                } else {
                                    j - 1
                                }],
                                axis,
                                pos,
                                layer,
                                size,
                            ),
                        ),
                    ),
                    size,
                ) by {
                    let jp = if j == 0 { 3 } else { j - 1 };
                    lemma_slice_shapes(
                        mats[dir_index(ds[j])],
                        size,
                        band_index(ds[j], axis, pos, layer, size),
                        band_is_col(ds[j], axis),
                        spec_rev_if(
                            band_reversed(ds[j], axis, dir),
                            spec_band_slice(mats, ds[jp], axis, pos, layer, size),
                        ),
                    );
                }
            }
        }
    }
}

/// Applying a turn and then its reverse gives the state back, face for
/// face: the turned grid unrotates, and each band slice returns reversed
/// the same number of times it left.
#[verifier::rlimit(100)]
#[verifier::spinoff_prover]
pub proof fn lemma_turn_then_reverse_restores(mats: Seq<ColorMat>, t: Turn, layer: int, size: int)
    requires
        mats6_wf(mats, size),
        1 <= layer <= size,
    ensures
        spec_turn_mats(
            spec_turn_mats(mats, t, layer, size),
            t.spec_reversed(),
            layer,
            size,
        ) == mats,
{
    let fd = t.face_dir;
    let axis = fd.spec_axis();
    let dir = spec_effective_dir(fd, t.turn_dir);
    let pos = fd.spec_is_positive();
    let t2 = t.spec_reversed();
    let dir2 = spec_effective_dir(fd, t2.turn_dir);
    assert(dir2 == dir.spec_reversed());
    let ds = spec_cycle(axis, dir);
    let ds2 = spec_cycle(axis, dir2);
    lemma_cycle_of_reversed(axis, dir);
    lemma_cycle_distinct(axis, dir);
    lemma_cycle_distinct(axis, dir2);
    lemma_band_edges(axis, dir);
    let b1 = spec_turn_mats(mats, t, layer, size);
    let b2 = spec_turn_mats(b1, t2, layer, size);
    lemma_turn_step(mats, t, layer, size);
    lemma_turn_step(b1, t2, layer, size);
    // the turned face's own grid unrotates
    assert(b2[dir_index(fd)] == mats[dir_index(fd)]) by {
        if layer == 1 {
            assert(b1[dir_index(fd)] == spec_rotated_mat(mats[dir_index(fd)], t.turn_dir));
            lemma_rotated_mat_inverse(mats[dir_index(fd)], size, t.turn_dir);
        }
    }
    // each cycle face gets its slice back
    assert forall|j: int| 0 <= j < 4 implies b2[dir_index(#[trigger] ds[j])] == mats[dir_index(
        ds[j],
    )] by {
        let f = ds[j];
        let jn = if j == 3 { 0 } else { j + 1 };
        let jp = if j == 0 { 3 } else { j - 1 };
        let k = 3 - j;
        let kp = if k == 0 { 3 } else { k - 1 };
        assert(ds2[k] == ds[j]);
        assert(ds2[kp] == ds[jn]);
        let idx_f = band_index(f, axis, pos, layer, size);
        let col_f = band_is_col(f, axis);
        let idx_n = band_index(ds[jn], axis, pos, layer, size);
        let col_n = band_is_col(ds[jn], axis);
        let s_f = spec_band_slice(mats, f, axis, pos, layer, size);
        let s_p = spec_band_slice(mats, ds[jp], axis, pos, layer, size);
        let s_n = spec_band_slice(mats, ds[jn], axis, pos, layer, size);
        assert(s_f.len() == size && s_p.len() == size && s_n.len() == size) by {
            lemma_slice_shapes(mats[dir_index(f)], size, idx_f, col_f, s_f);
            lemma_slice_shapes(mats[dir_index(ds[jp])], size, band_index(ds[jp], axis, pos, layer, size), band_is_col(ds[jp], axis), s_p);
            lemma_slice_shapes(mats[dir_index(ds[jn])], size, idx_n, col_n, s_n);
        }
        // what the first turn wrote into f and into f's successor
        let w_f = spec_rev_if(band_reversed(f, axis, dir), s_p);
        let w_n = spec_rev_if(band_reversed(ds[jn], axis, dir), s_f);
        assert(b1[dir_index(f)] == spec_write_slice(mats[dir_index(f)], idx_f, col_f, w_f));
        assert(b1[dir_index(ds[jn])] == spec_write_slice(
            mats[dir_index(ds[jn])],
            idx_n,
            col_n,
            w_n,
        ));
        // the reverse turn reads the successor's fresh slice back out
        assert(spec_band_slice(b1, ds[jn], axis, pos, layer, size) == w_n) by {
            assert(w_n.len() == size);
            lemma_read_of_write(mats[dir_index(ds[jn])], size, idx_n, col_n, w_n);
        }
        // and writes it into f, unreversed by the matching parity
        assert(b2[dir_index(f)] == spec_write_slice(
            b1[dir_index(f)],
            idx_f,
            col_f,
            spec_rev_if(band_reversed(f, axis, dir2), w_n),
        ));
        assert(band_reversed(f, axis, dir2) == band_reversed(ds[jn], axis, dir));
        assert(spec_rev_if(band_reversed(f, axis, dir2), w_n) == s_f) by {
            if band_reversed(ds[jn], axis, dir) {
                lemma_reversed_involutive(s_f);
            }
        }
        assert(b2[dir_index(f)] == spec_write_slice(
            spec_write_slice(mats[dir_index(f)], idx_f, col_f, w_f),
            idx_f,
            col_f,
            s_f,
        ));
        assert(w_f.len() == size);
        lemma_write_of_write(mats[dir_index(f)], size, idx_f, col_f, w_f, s_f);
        lemma_write_of_read(mats[dir_index(f)], size, idx_f, col_f);
    }
    // everything else never moved
    assert forall|i: int| 0 <= i < 6 implies b2[i] == mats[i] by {
        let d = dir_of_index(i);
        assert(dir_index(d) == i);
        if d.spec_axis() == axis {
            if d != fd {
                assert(b1[i] == mats[i]);
                assert(b2[i] == b1[i]);
            }
        } else {
            lemma_cycle_covers(axis, dir, d);
        }
    }
    assert(b2 =~= mats);
}

/// After one turn, the band slice at a cycle face is the predecessor's
/// old slice, reversed where the parity table says so.
pub proof fn lemma_turn_slice(mats: Seq<ColorMat>, t: Turn, layer: int, size: int, j: int)
    requires
        mats6_wf(mats, size),
        1 <= layer <= size,
        0 <= j < 4,
    ensures
        spec_band_slice(
            spec_turn_mats(mats, t, layer, size),
            spec_cycle(t.face_dir.spec_axis(), spec_effective_dir(t.face_dir, t.turn_dir))[j],
            t.face_dir.spec_axis(),
            t.face_dir.spec_is_positive(),
            layer,
            size,
        ) == spec_rev_if(
            band_reversed(
                spec_cycle(t.face_dir.spec_axis(), spec_effective_dir(t.face_dir, t.turn_dir))[j],
                t.face_dir.spec_axis(),
                spec_effective_dir(t.face_dir, t.turn_dir),
            ),
            spec_band_slice(
                mats,
                spec_cycle(
                    t.face_dir.spec_axis(),
                    spec_effective_dir(t.face_dir, t.turn_dir),
                )[if j == 0 {
                    3
                } else {
                    j - 1
                }],
                t.face_dir.spec_axis(),
                t.face_dir.spec_is_positive(),
                layer,
                size,
            ),
        ),
{
    let axis = t.face_dir.spec_axis();
    let dir = spec_effective_dir(t.face_dir, t.turn_dir);
    let pos = t.face_dir.spec_is_positive();
    let ds = spec_cycle(axis, dir);
    let jp = if j == 0 { 3 } else { j - 1 };
    lemma_turn_step(mats, t, layer, size);
    let b = spec_turn_mats(mats, t, layer, size);
    let idx = band_index(ds[j], axis, pos, layer, size);
    let col = band_is_col(ds[j], axis);
    let s_p = spec_band_slice(mats, ds[jp], axis, pos, layer, size);
    let w = spec_rev_if(band_reversed(ds[j], axis, dir), s_p);
    assert(s_p.len() == size) by {
        lemma_slice_shapes(
            mats[dir_index(ds[jp])],
            size,
            band_index(ds[jp], axis, pos, layer, size),
            band_is_col(ds[jp], axis),
            s_p,
        );
        lemma_cycle_distinct(axis, dir);
    }
    assert(w.len() == size);
    assert(b[dir_index(ds[j])] == spec_write_slice(mats[dir_index(ds[j])], idx, col, w));
    lemma_cycle_distinct(axis, dir);
    lemma_read_of_write(mats[dir_index(ds[j])], size, idx, col, w);
}

/// Applying the same turn four times over gives the state back: each face
/// grid makes a full revolution, and each band slice travels once around
/// the cycle, reversed an even number of times.
#[verifier::rlimit(100)]
#[verifier::spinoff_prover]
pub proof fn lemma_turn_four_times_restores(mats: Seq<ColorMat>, t: Turn, layer: int, size: int)
    requires
        mats6_wf(mats, size),
        1 <= layer <= size,
    ensures
        spec_turn_mats(
            spec_turn_mats(
                spec_turn_mats(spec_turn_mats(mats, t, layer, size), t, layer, size),
                t,
                layer,
                size,
            ),
            t,
            layer,
            size,
        ) == mats,
{
    let fd = t.face_dir;
    let axis = fd.spec_axis();
    let dir = spec_effective_dir(fd, t.turn_dir);
    let pos = fd.spec_is_positive();
    let ds = spec_cycle(axis, dir);
    lemma_cycle_distinct(axis, dir);
    lemma_band_parity(axis, dir);
    let b1 = spec_turn_mats(mats, t, layer, size);
    let b2 = spec_turn_mats(b1, t, layer, size);
    let b3 = spec_turn_mats(b2, t, layer, size);
    let b4 = spec_turn_mats(b3, t, layer, size);
    lemma_turn_step(mats, t, layer, size);
    lemma_turn_step(b1, t, layer, size);
    lemma_turn_step(b2, t, layer, size);
    lemma_turn_step(b3, t, layer, size);
    // the turned face's own grid makes a full revolution
    assert(b4[dir_index(fd)] == mats[dir_index(fd)]) by {
        if layer == 1 {
            lemma_rotated_mat_four(mats[dir_index(fd)], size, t.turn_dir);
        }
    }
    // each cycle face's slice comes home
    assert forall|j: int| 0 <= j < 4 implies b4[dir_index(#[trigger] ds[j])] == mats[dir_index(
        ds[j],
    )] by {
        let f = ds[j];
        let j1 = if j == 0 { 3 } else { j - 1 };
        let j2 = if j1 == 0 { 3 } else { j1 - 1 };
        let j3 = if j2 == 0 { 3 } else { j2 - 1 };
        let idx = band_index(f, axis, pos, layer, size);
        let col = band_is_col(f, axis);
        let s_own = spec_band_slice(mats, f, axis, pos, layer, size);
        // the slice each state writes into f
        let v1 = spec_rev_if(
            band_reversed(f, axis, dir),
            spec_band_slice(mats, ds[j1], axis, pos, layer, size),
        );
        let v2 = spec_rev_if(
            band_reversed(f, axis, dir),
            spec_band_slice(b1, ds[j1], axis, pos, layer, size),
        );
        let v3 = spec_rev_if(
            band_reversed(f, axis, dir),
            spec_band_slice(b2, ds[j1], axis, pos, layer, size),
        );
        let v4 = spec_rev_if(
            band_reversed(f, axis, dir),
            spec_band_slice(b3, ds[j1], axis, pos, layer, size),
        );
        // transport the slice back three steps
        lemma_turn_slice(b2, t, layer, size, j1);
        lemma_turn_slice(b1, t, layer, size, j2);
        lemma_turn_slice(mats, t, layer, size, j3);
        assert(spec_band_slice(b3, ds[j1], axis, pos, layer, size) == spec_rev_if(
            band_reversed(ds[j1], axis, dir),
            spec_band_slice(b2, ds[j2], axis, pos, layer, size),
        ));
        assert(spec_band_slice(b2, ds[j2], axis, pos, layer, size) == spec_rev_if(
            band_reversed(ds[j2], axis, dir),
            spec_band_slice(b1, ds[j3], axis, pos, layer, size),
        ));
        assert(spec_band_slice(b1, ds[j3], axis, pos, layer, size) == spec_rev_if(
            band_reversed(ds[j3], axis, dir),
            spec_band_slice(mats, ds[j], axis, pos, layer, size),
        ));
        assert(v4 == spec_rev_if(
            band_reversed(f, axis, dir),
            spec_rev_if(
                band_reversed(ds[j1], axis, dir),
                spec_rev_if(
                    band_reversed(ds[j2], axis, dir),
                    spec_rev_if(band_reversed(ds[j3], axis, dir), s_own),
                ),
            ),
        ));
        assert(v4 == s_own) by {
            lemma_rev_if_even(
                band_reversed(f, axis, dir),
                band_reversed(ds[j1], axis, dir),
                band_reversed(ds[j2], axis, dir),
                band_reversed(ds[j3], axis, dir),
                s_own,
            );
        }
        // lengths, for collapsing the stacked writes
        assert(s_own.len() == size && v1.len() == size && v2.len() == size && v3.len() == size) by {
            lemma_slice_shapes(mats[dir_index(f)], size, idx, col, s_own);
            lemma_slice_shapes(
                mats[dir_index(ds[j1])],
                size,
                band_index(ds[j1], axis, pos, layer, size),
                band_is_col(ds[j1], axis),
                spec_band_slice(mats, ds[j1], axis, pos, layer, size),
            );
            lemma_slice_shapes(
                b1[dir_index(ds[j1])],
                size,
                band_index(ds[j1], axis, pos, layer, size),
                band_is_col(ds[j1], axis),
                spec_band_slice(b1, ds[j1], axis, pos, layer, size),
            );
            lemma_slice_shapes(
                b2[dir_index(ds[j1])],
                size,
                band_index(ds[j1], axis, pos, layer, size),
                band_is_col(ds[j1], axis),
                spec_band_slice(b2, ds[j1], axis, pos, layer, size),
            );
        }
        // four writes at the same position keep only the last, which is the
        // slice the face started with
        assert(b1[dir_index(f)] == spec_write_slice(mats[dir_index(f)], idx, col, v1));
        assert(b2[dir_index(f)] == spec_write_slice(b1[dir_index(f)], idx, col, v2));
        assert(b3[dir_index(f)] == spec_write_slice(b2[dir_index(f)], idx, col, v3));
        assert(b4[dir_index(f)] == spec_write_slice(b3[dir_index(f)], idx, col, v4));
        lemma_write_of_write(mats[dir_index(f)], size, idx, col, v1, v2);
        lemma_write_of_write(mats[dir_index(f)], size, idx, col, v2, v3);
        lemma_write_of_write(mats[dir_index(f)], size, idx, col, v3, v4);
        assert(b4[dir_index(f)] == spec_write_slice(mats[dir_index(f)], idx, col, s_own));
        lemma_write_of_read(mats[dir_index(f)], size, idx, col);
    }
    // everything else never moved
    assert forall|i: int| 0 <= i < 6 implies b4[i] == mats[i] by {
        let d = dir_of_index(i);
        assert(dir_index(d) == i);
        if d.spec_axis() == axis {
            if d != fd {
                assert(b1[i] == mats[i] && b2[i] == b1[i] && b3[i] == b2[i] && b4[i] == b3[i]);
            }
        } else {
            lemma_cycle_covers(axis, dir, d);
        }
    }
    assert(b4 =~= mats);
}

/// Turning preserves the well-formedness of the six matrices.
pub proof fn lemma_apply_turns_wf(mats: Seq<ColorMat>, ts: Seq<Turn>, size: int)
    requires
        mats6_wf(mats, size),
        size >= 1,
    ensures
        mats6_wf(spec_apply_turns(mats, ts, size), size),
    decreases ts.len(),
{
    if ts.len() > 0 {
        lemma_turn_step(mats, ts[0], 1, size);
        lemma_apply_turns_wf(spec_turn_mats(mats, ts[0], 1, size), ts.drop_first(), size);
    }
}

/// The exact reverse of a turn sequence: the turns backwards, each
/// reversed.
pub open spec fn spec_reverse_algo(ts: Seq<Turn>) -> Seq<Turn> {
    Seq::new(ts.len(), |i: int| ts[ts.len() - 1 - i].spec_reversed())
}

/// A turn sequence is undone by applying its exact reverse.
pub proof fn lemma_apply_then_reverse_restores(mats: Seq<ColorMat>, ts: Seq<Turn>, size: int)
    requires
        mats6_wf(mats, size),
        size >= 1,
    ensures
        spec_apply_turns(spec_apply_turns(mats, ts, size), spec_reverse_algo(ts), size) == mats,
    decreases ts.len(),
{
    if ts.len() == 0 {
        assert(spec_reverse_algo(ts) =~= Seq::<Turn>::empty());
    } else {
        let t0 = ts[0];
        let rest = ts.drop_first();
        let m1 = spec_turn_mats(mats, t0, 1, size);
        lemma_turn_step(mats, t0, 1, size);
        assert(spec_apply_turns(mats, ts, size) == spec_apply_turns(m1, rest, size));
        assert(spec_reverse_algo(ts) =~= spec_reverse_algo(rest).push(t0.spec_reversed()));
        lemma_apply_turns_snoc(
            spec_apply_turns(m1, rest, size),
            spec_reverse_algo(rest),
            t0.spec_reversed(),
            size,
        );
        lemma_apply_then_reverse_restores(m1, rest, size);
        lemma_turn_then_reverse_restores(mats, t0, 1, size);
    }
}

/// Applying a concatenation is applying the two parts one after the other.
pub proof fn lemma_apply_turns_concat(mats: Seq<ColorMat>, x: Seq<Turn>, y: Seq<Turn>, size: int)
    ensures
        spec_apply_turns(mats, x + y, size) == spec_apply_turns(
            spec_apply_turns(mats, x, size),
            y,
            size,
        ),
    decreases x.len(),
{
    if x.len() == 0 {
        assert(x + y =~= y);
    } else {
        assert((x + y)[0] == x[0]);
        assert((x + y).drop_first() =~= x.drop_first() + y);
        lemma_apply_turns_concat(spec_turn_mats(mats, x[0], 1, size), x.drop_first(), y, size);
    }
}

/// A row compared with itself has no mismatches.
proof fn lemma_row_diff_refl(r: Seq<Color>, j: int)
    ensures
        row_diff_upto(r, r, j) == 0,
    decreases j,
{
    if j > 0 {
        lemma_row_diff_refl(r, j - 1);
    }
}

proof fn lemma_mat_diff_refl(m: ColorMat, n: int, y: int)
    ensures
        mat_diff_upto(m, m, n, y) == 0,
    decreases y,
{
    if y > 0 {
        lemma_mat_diff_refl(m, n, y - 1);
        lemma_row_diff_refl(m[y - 1], n);
    }
}

proof fn lemma_mats_diff_refl(ms: Seq<ColorMat>, n: int, k: int)
    ensures
        mats_diff_upto(ms, ms, n, k) == 0,
    decreases k,
{
    if k > 0 {
        lemma_mats_diff_refl(ms, n, k - 1);
        lemma_mat_diff_refl(ms[k - 1], n, n);
    }
}

proof fn lemma_row_diff_sym(r1: Seq<Color>, r2: Seq<Color>, j: int)
    ensures
        row_diff_upto(r1, r2, j) == row_diff_upto(r2, r1, j),
    decreases j,
{
    if j > 0 {
        lemma_row_diff_sym(r1, r2, j - 1);
    }
}

proof fn lemma_mat_diff_sym(m1: ColorMat, m2: ColorMat, n: int, y: int)
    ensures
        mat_diff_upto(m1, m2, n, y) == mat_diff_upto(m2, m1, n, y),
    decreases y,
{
    if y > 0 {
        lemma_mat_diff_sym(m1, m2, n, y - 1);
        lemma_row_diff_sym(m1[y - 1], m2[y - 1], n);
    }
}

proof fn lemma_mats_diff_sym(ms1: Seq<ColorMat>, ms2: Seq<ColorMat>, n: int, k: int)
    ensures
        mats_diff_upto(ms1, ms2, n, k) == mats_diff_upto(ms2, ms1, n, k),
    decreases k,
{
    if k > 0 {
        lemma_mats_diff_sym(ms1, ms2, n, k - 1);
        lemma_mat_diff_sym(ms1[k - 1], ms2[k - 1], n, n);
    }
}

/// The sticker-mismatch counts obey the triangle inequality.
proof fn lemma_row_diff_triangle(r1: Seq<Color>, r2: Seq<Color>, r3: Seq<Color>, j: int)
    ensures
        row_diff_upto(r1, r3, j) <= row_diff_upto(r1, r2, j) + row_diff_upto(r2, r3, j),
    decreases j,
{
    if j > 0 {
        lemma_row_diff_triangle(r1, r2, r3, j - 1);
    }
}

proof fn lemma_mat_diff_triangle(m1: ColorMat, m2: ColorMat, m3: ColorMat, n: int, y: int)
    ensures
        mat_diff_upto(m1, m3, n, y) <= mat_diff_upto(m1, m2, n, y) + mat_diff_upto(m2, m3, n, y),
    decreases y,
{
    if y > 0 {
        lemma_mat_diff_triangle(m1, m2, m3, n, y - 1);
        lemma_row_diff_triangle(m1[y - 1], m2[y - 1], m3[y - 1], n);
    }
}

/// Hamming distance between sticker assignments obeys the triangle
/// inequality.
pub proof fn lemma_mats_diff_triangle(
    s1: Seq<ColorMat>,
    s2: Seq<ColorMat>,
    s3: Seq<ColorMat>,
    n: int,
    k: int,
)
    ensures
        mats_diff_upto(s1, s3, n, k) <= mats_diff_upto(s1, s2, n, k) + mats_diff_upto(
            s2,
            s3,
            n,
            k,
        ),
    decreases k,
{
    if k > 0 {
        lemma_mats_diff_triangle(s1, s2, s3, n, k - 1);
        lemma_mat_diff_triangle(s1[k - 1], s2[k - 1], s3[k - 1], n, n);
    }
}

/// Replacing one entry of a row changes at most one sticker.
proof fn lemma_row_diff_update(r: Seq<Color>, i: int, c: Color, j: int)
    requires
        0 <= i < r.len(),
        j <= r.len(),
    ensures
        row_diff_upto(r, r.update(i, c), j) <= if 0 <= i < j {
            1int
        } else {
            0int
        },
    decreases j,
{
    if j > 0 {
        lemma_row_diff_update(r, i, c, j - 1);
    }
}

/// Replacing one whole row changes at most a row's worth of stickers.
proof fn lemma_mat_diff_update_row(m: ColorMat, i: int, r: Seq<Color>, n: int, y: int)
    requires
        0 <= i < m.len(),
        y <= m.len(),
        n >= 0,
    ensures
        mat_diff_upto(m, m.update(i, r), n, y) <= if i < y {
            n
        } else {
            0int
        },
    decreases y,
{
    if y > 0 {
        lemma_mat_diff_update_row(m, i, r, n, y - 1);
        if y - 1 == i {
            lemma_row_diff_bounds(m[i], r, n);
        } else {
            lemma_row_diff_refl(m[y - 1], n);
        }
    }
}

/// Writing one column changes at most one sticker per row.
proof fn lemma_mat_diff_write_col(m: ColorMat, n: int, i: int, s: Seq<Color>, y: int)
    requires
        mat_wf(m, n),
        0 <= i < n,
        0 <= y <= n,
    ensures
        mat_diff_upto(m, spec_write_slice(m, i, true, s), n, y) <= y,
    decreases y,
{
    if y > 0 {
        lemma_mat_diff_write_col(m, n, i, s, y - 1);
        assert(spec_write_slice(m, i, true, s)[y - 1] == m[y - 1].update(i, s[y - 1]));
        lemma_row_diff_update(m[y - 1], i, s[y - 1], n);
    }
}

/// Writing one band slice changes at most a slice's worth of stickers.
proof fn lemma_mat_diff_write(m: ColorMat, n: int, i: int, is_col: bool, s: Seq<Color>)
    requires
        mat_wf(m, n),
        0 <= i < n,
    ensures
        mat_diff_upto(m, spec_write_slice(m, i, is_col, s), n, n) <= n,
    decreases n,
{
    if is_col {
        lemma_mat_diff_write_col(m, n, i, s, n);
    } else {
        lemma_mat_diff_update_row(m, i, s, n, n);
    }
}

/// One outermost-layer turn moves at most the turned face plus one slice
/// on each of the four surrounding faces: `size * size + 4 * size`
/// stickers (twelve on the smallest cube).
pub proof fn lemma_turn_diff_bound(mats: Seq<ColorMat>, t: Turn, size: int)
    requires
        mats6_wf(mats, size),
        size >= 1,
    ensures
        mats_diff_upto(mats, spec_turn_mats(mats, t, 1, size), size, 6) <= size * size + 4
            * size,
{
    lemma_turn_step(mats, t, 1, size);
    let b = spec_turn_mats(mats, t, 1, size);
    let fd = t.face_dir;
    let axis = fd.spec_axis();
    let dir = spec_effective_dir(fd, t.turn_dir);
    let pos = fd.spec_is_positive();
    let ds = spec_cycle(axis, dir);
    lemma_cycle_distinct(axis, dir);
    assert forall|i: int| 0 <= i < 6 implies mat_diff_upto(mats[i], b[i], size, size) <= (if i
        == dir_index(fd) {
        size * size
    } else if dir_of_index(i).spec_axis() == axis {
        0int
    } else {
        size
    }) by {
        let d = dir_of_index(i);
        assert(dir_index(d) == i);
        if d == fd {
            lemma_mat_diff_bounds(mats[i], b[i], size, size);
        } else if d.spec_axis() == axis {
            assert(b[i] == mats[i]);
            lemma_mat_diff_refl(mats[i], size, size);
        } else {
            lemma_dir_index_injective(d, fd);
            lemma_cycle_covers(axis, dir, d);
            assert forall|j: int| 0 <= j < 4 && d == ds[j] implies mat_diff_upto(
                mats[i],
                b[i],
                size,
                size,
            ) <= size by {
                let jp = if j == 0 {
                    3
                } else {
                    j - 1
                };
                let v = spec_rev_if(
                    band_reversed(ds[j], axis, dir),
                    spec_band_slice(mats, ds[jp], axis, pos, 1, size),
                );
                assert(b[i] == spec_write_slice(
                    mats[i],
                    band_index(ds[j], axis, pos, 1, size),
                    band_is_col(ds[j], axis),
                    v,
                ));
                lemma_mat_diff_write(
                    mats[i],
                    size,
                    band_index(ds[j], axis, pos, 1, size),
                    band_is_col(ds[j], axis),
                    v,
                );
            }
            assert(d == ds[0] || d == ds[1] || d == ds[2] || d == ds[3]);
        }
    }
    assert(mats_diff_upto(mats, b, size, 6) == mats_diff_upto(mats, b, size, 5) + mat_diff_upto(
        mats[5],
        b[5],
        size,
        size,
    ));
    assert(mats_diff_upto(mats, b, size, 5) == mats_diff_upto(mats, b, size, 4) + mat_diff_upto(
        mats[4],
        b[4],
        size,
        size,
    ));
    assert(mats_diff_upto(mats, b, size, 4) == mats_diff_upto(mats, b, size, 3) + mat_diff_upto(
        mats[3],
        b[3],
        size,
        size,
    ));
    assert(mats_diff_upto(mats, b, size, 3) == mats_diff_upto(mats, b, size, 2) + mat_diff_upto(
        mats[2],
        b[2],
        size,
        size,
    ));
    assert(mats_diff_upto(mats, b, size, 2) == mats_diff_upto(mats, b, size, 1) + mat_diff_upto(
        mats[1],
        b[1],
        size,
        size,
    ));
    assert(mats_diff_upto(mats, b, size, 1) == mats_diff_upto(mats, b, size, 0) + mat_diff_upto(
        mats[0],
        b[0],
        size,
        size,
    ));
    // exactly one of the six indices holds the turned face, and one its
    // opposite on the same axis
    match fd {
        FaceDir::Up => {},
        FaceDir::Down => {},
        FaceDir::Left => {},
        FaceDir::Right => {},
        FaceDir::Front => {},
        FaceDir::Back => {},
    }
}

/// A cube is at Hamming distance zero from itself.
pub proof fn lemma_hamming_self(a: CubeView)
    ensures
        spec_hamming(a, a) == 0,
{
    lemma_mats_diff_refl(a.mats, a.size, 6);
}

/// Hamming distance between same-sized cubes is symmetric.
pub proof fn lemma_hamming_symmetric(a: CubeView, b: CubeView)
    requires
        a.size == b.size,
    ensures
        spec_hamming(a, b) == spec_hamming(b, a),
{
    lemma_mats_diff_sym(a.mats, b.mats, a.size, 6);
}

} // verus!
