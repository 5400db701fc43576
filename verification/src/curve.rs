//! Hilbert-curve coordinate codec.
//!
//! `strip_2d_to_1d` folds a 2D coordinate on a 65536 x 65536 grid into a 1D
//! curve index; `reconstruct_1d_to_2d` unfolds it again. The two functions are
//! exact inverses over the whole grid: the curve visits every cell exactly
//! once, so the mapping is a bijection between the grid and `[0, 2^32)`.
//!
//! The mathematical model is a pair of recursive spec functions,
//! `curve_index` and `curve_point`, defined level by level: at each level the
//! grid is split into four quadrants, the quadrant the point lies in
//! contributes two bits of the index, and the remaining coordinate is rotated
//! or reflected so that the sub-curve lines up with its neighbours.

use vstd::prelude::*;

verus! {

use vstd::arithmetic::div_mod::lemma_fundamental_div_mod;
use vstd::arithmetic::div_mod::lemma_fundamental_div_mod_converse;
use vstd::arithmetic::div_mod::lemma_mod_pos_bound;

/// Number of subdivision levels: the grid side is 2^GRID_BITS.
pub const GRID_BITS: u32 = 16;

/// Side length of the coordinate grid, 2^16.
pub const GRID_SIDE: u32 = 65536;

/// One past the largest curve index, 2^32: the grid has GRID_SIDE * GRID_SIDE cells.
pub const INDEX_LIMIT: u64 = 0x1_0000_0000;

/// 2^k, defined recursively so that proofs can peel one grid level at a time.
pub open spec fn pow2k(k: nat) -> nat
    decreases k,
{
    if k == 0 {
        1
    } else {
        2 * pow2k((k - 1) as nat)
    }
}

/// Index contribution of the quadrant (rx, ry) at a level whose quadrants
/// hold m cells each: along the curve, quadrant (0,0) is walked first,
/// then (0,1), then (1,1), and (1,0) last, so their ranks are 0, 1, 2, 3.
pub open spec fn quadrant_offset(m: nat, rx: nat, ry: nat) -> nat {
    if rx == 0 {
        if ry == 0 {
            0
        } else {
            m
        }
    } else {
        if ry == 0 {
            3 * m
        } else {
            2 * m
        }
    }
}

/// The rotation/reflection that aligns a sub-quadrant's curve with its
/// parent: in the two lower quadrants (ry == 0) the axes are swapped, and in
/// the lower-right quadrant (rx == 1) both axes are first mirrored within the
/// quadrant. The transform is its own inverse on `[0, s) x [0, s)`.
pub open spec fn orient(s: nat, rx: nat, ry: nat, x: nat, y: nat) -> (nat, nat) {
    if ry == 0 {
        if rx == 1 {
            ((s - 1 - y) as nat, (s - 1 - x) as nat)
        } else {
            (y, x)
        }
    } else {
        (x, y)
    }
}

/// Curve index of coordinate (x, y) on a grid of side 2^k, built from the
/// coarsest level down: each level adds the offset of the quadrant the point
/// lies in and recurses on the reoriented remainder of the coordinate.
pub open spec fn curve_index(k: nat, x: nat, y: nat) -> nat
    decreases k,
{
    if k == 0 {
        0
    } else {
        let s = pow2k((k - 1) as nat);
        let rx: nat = if x >= s {
            1
        } else {
            0
        };
        let ry: nat = if y >= s {
            1
        } else {
            0
        };
        let x0: nat = if x >= s {
            (x - s) as nat
        } else {
            x
        };
        let y0: nat = if y >= s {
            (y - s) as nat
        } else {
            y
        };
        let p = orient(s, rx, ry, x0, y0);
        quadrant_offset(s * s, rx, ry) + curve_index((k - 1) as nat, p.0, p.1)
    }
}

/// Coordinate of curve index d on a grid of side 2^k: the topmost two bits of
/// d select the quadrant, the rest locates the point within it, and the
/// sub-coordinate is reoriented with the same self-inverse transform.
pub open spec fn curve_point(k: nat, d: nat) -> (nat, nat)
    decreases k,
{
    if k == 0 {
        (0, 0)
    } else {
        let s = pow2k((k - 1) as nat);
        let r = d / (s * s);
        let rx: nat = if r == 2 || r == 3 {
            1
        } else {
            0
        };
        let ry: nat = if r == 1 || r == 2 {
            1
        } else {
            0
        };
        let q = curve_point((k - 1) as nat, d % (s * s));
        let p = orient(s, rx, ry, q.0, q.1);
        (
            if rx == 1 {
                p.0 + s
            } else {
                p.0
            },
            if ry == 1 {
                p.1 + s
            } else {
                p.1
            },
        )
    }
}

proof fn lemma_pow2k_positive(k: nat)
    ensures
        pow2k(k) >= 1,
    decreases k,
{
    if k > 0 {
        lemma_pow2k_positive((k - 1) as nat);
    }
}

/// The index of any in-range coordinate is below the cell count of the grid.
pub proof fn lemma_curve_index_bound(k: nat, x: nat, y: nat)
    requires
        x < pow2k(k),
        y < pow2k(k),
    ensures
        curve_index(k, x, y) < pow2k(k) * pow2k(k),
    decreases k,
{
    if k == 0 {
        assert(curve_index(0, x, y) == 0);
    } else {
        let s = pow2k((k - 1) as nat);
        lemma_pow2k_positive((k - 1) as nat);
        assert(pow2k(k) == 2 * s);
        let rx: nat = if x >= s {
            1
        } else {
            0
        };
        let ry: nat = if y >= s {
            1
        } else {
            0
        };
        let x0: nat = if x >= s {
            (x - s) as nat
        } else {
            x
        };
        let y0: nat = if y >= s {
            (y - s) as nat
        } else {
            y
        };
        assert(x0 < s && y0 < s);
        let p = orient(s, rx, ry, x0, y0);
        assert(p.0 < s && p.1 < s);
        lemma_curve_index_bound((k - 1) as nat, p.0, p.1);
        let m = s * s;
        assert(curve_index(k, x, y) == quadrant_offset(m, rx, ry) + curve_index(
            (k - 1) as nat,
            p.0,
            p.1,
        ));
        assert(quadrant_offset(m, rx, ry) <= 3 * m);
        assert((2 * s) * (2 * s) == 4 * (s * s)) by (nonlinear_arith);
    }
}

/// Both components of the point of any curve index are below the grid side.
pub proof fn lemma_curve_point_bound(k: nat, d: nat)
    ensures
        curve_point(k, d).0 < pow2k(k),
        curve_point(k, d).1 < pow2k(k),
    decreases k,
{
    if k == 0 {
    } else {
        let s = pow2k((k - 1) as nat);
        lemma_pow2k_positive((k - 1) as nat);
        assert(pow2k(k) == 2 * s);
        let m = s * s;
        assert(s * s >= 1) by (nonlinear_arith)
            requires
                s >= 1,
        ;
        lemma_curve_point_bound((k - 1) as nat, d % m);
        let q = curve_point((k - 1) as nat, d % m);
        let r = d / m;
        let rx: nat = if r == 2 || r == 3 {
            1
        } else {
            0
        };
        let ry: nat = if r == 1 || r == 2 {
            1
        } else {
            0
        };
        let p = orient(s, rx, ry, q.0, q.1);
        assert(p.0 < s && p.1 < s);
    }
}

/// Unfolding the index of a coordinate returns that coordinate: the two
/// recursive maps are inverse, level by level.
pub proof fn lemma_curve_roundtrip(k: nat, x: nat, y: nat)
    requires
        x < pow2k(k),
        y < pow2k(k),
    ensures
        curve_point(k, curve_index(k, x, y)) == (x, y),
    decreases k,
{
    if k == 0 {
        assert(x == 0 && y == 0);
    } else {
        let s = pow2k((k - 1) as nat);
        lemma_pow2k_positive((k - 1) as nat);
        assert(pow2k(k) == 2 * s);
        let rx: nat = if x >= s {
            1
        } else {
            0
        };
        let ry: nat = if y >= s {
            1
        } else {
            0
        };
        let x0: nat = if x >= s {
            (x - s) as nat
        } else {
            x
        };
        let y0: nat = if y >= s {
            (y - s) as nat
        } else {
            y
        };
        let p = orient(s, rx, ry, x0, y0);
        assert(p.0 < s && p.1 < s);
        lemma_curve_index_bound((k - 1) as nat, p.0, p.1);
        let m = s * s;
        let rest = curve_index((k - 1) as nat, p.0, p.1);
        let d = curve_index(k, x, y);
        assert(d == quadrant_offset(m, rx, ry) + rest);
        if rx == 0 && ry == 0 {
            lemma_fundamental_div_mod_converse(d as int, m as int, 0, rest as int);
        } else if rx == 0 && ry == 1 {
            lemma_fundamental_div_mod_converse(d as int, m as int, 1, rest as int);
        } else if rx == 1 && ry == 1 {
            lemma_fundamental_div_mod_converse(d as int, m as int, 2, rest as int);
        } else {
            lemma_fundamental_div_mod_converse(d as int, m as int, 3, rest as int);
        }
        assert(d % m == rest);
        lemma_curve_roundtrip((k - 1) as nat, p.0, p.1);
        assert(curve_point((k - 1) as nat, d % m) == (p.0, p.1));
        assert(orient(s, rx, ry, p.0, p.1) == (x0, y0));
        assert(curve_point(k, d) == (x, y));
    }
}

/// Folding the coordinate of an index returns that index: together with the
/// round trip this makes the mapping a bijection between grid and index range.
pub proof fn lemma_curve_index_of_point(k: nat, d: nat)
    requires
        d < pow2k(k) * pow2k(k),
    ensures
        curve_index(k, curve_point(k, d).0, curve_point(k, d).1) == d,
    decreases k,
{
    if k == 0 {
        let s0 = pow2k(0);
        assert(s0 == 1);
        assert(s0 * s0 == 1) by (nonlinear_arith)
            requires
                s0 == 1,
        ;
        assert(d == 0);
    } else {
        let s = pow2k((k - 1) as nat);
        lemma_pow2k_positive((k - 1) as nat);
        assert(pow2k(k) == 2 * s);
        let m = s * s;
        assert(s * s >= 1 && (2 * s) * (2 * s) == 4 * (s * s)) by (nonlinear_arith)
            requires
                s >= 1,
        ;
        lemma_fundamental_div_mod(d as int, m as int);
        lemma_mod_pos_bound(d as int, m as int);
        let r = d / m;
        assert(r <= 3) by {
            if r >= 4 {
                assert(m * r >= m * 4) by (nonlinear_arith)
                    requires
                        m >= 1,
                        r >= 4,
                ;
                assert(d == m * r + d % m);
                assert(false);
            }
        };
        lemma_curve_point_bound((k - 1) as nat, d % m);
        let q = curve_point((k - 1) as nat, d % m);
        assert(q.0 < s && q.1 < s);
        let rx: nat = if r == 2 || r == 3 {
            1
        } else {
            0
        };
        let ry: nat = if r == 1 || r == 2 {
            1
        } else {
            0
        };
        let p = orient(s, rx, ry, q.0, q.1);
        assert(p.0 < s && p.1 < s);
        let xx: nat = if rx == 1 {
            p.0 + s
        } else {
            p.0
        };
        let yy: nat = if ry == 1 {
            p.1 + s
        } else {
            p.1
        };
        assert(curve_point(k, d) == (xx, yy));
        assert(orient(s, rx, ry, p.0, p.1) == (q.0, q.1));
        lemma_curve_index_of_point((k - 1) as nat, d % m);
        assert(curve_index(k, xx, yy) == quadrant_offset(m, rx, ry) + d % m);
        if r == 0 {
            assert(m * r == 0) by (nonlinear_arith)
                requires
                    r == 0,
            ;
        } else if r == 1 {
            assert(m * r == m) by (nonlinear_arith)
                requires
                    r == 1,
            ;
        } else if r == 2 {
            assert(m * r == 2 * m) by (nonlinear_arith)
                requires
                    r == 2,
            ;
        } else {
            assert(m * r == 3 * m) by (nonlinear_arith)
                requires
                    r == 3,
            ;
        }
        assert(curve_index(k, xx, yy) == d);
    }
}

/// The named grid constants agree with the recursive power model.
proof fn lemma_grid_constants()
    ensures
        pow2k(GRID_BITS as nat) == GRID_SIDE,
        pow2k(GRID_BITS as nat) * pow2k(GRID_BITS as nat) == INDEX_LIMIT,
{
    assert(pow2k(16) == 65536) by {
        reveal_with_fuel(pow2k, 17);
    };
    assert(65536 * 65536 == 0x1_0000_0000) by (nonlinear_arith);
}

/// Law: folding any grid coordinate and unfolding the result returns the
/// original coordinate, for every cell of the 65536 x 65536 grid.
pub proof fn lemma_round_trip(x: nat, y: nat)
    requires
        x < GRID_SIDE,
        y < GRID_SIDE,
    ensures
        curve_point(GRID_BITS as nat, curve_index(GRID_BITS as nat, x, y)) == (x, y),
{
    lemma_grid_constants();
    lemma_curve_roundtrip(GRID_BITS as nat, x, y);
}

/// Law: the curve never assigns the same index to two different grid
/// coordinates.
pub proof fn lemma_no_collision(x1: nat, y1: nat, x2: nat, y2: nat)
    requires
        x1 < GRID_SIDE,
        y1 < GRID_SIDE,
        x2 < GRID_SIDE,
        y2 < GRID_SIDE,
        curve_index(GRID_BITS as nat, x1, y1) == curve_index(GRID_BITS as nat, x2, y2),
    ensures
        x1 == x2,
        y1 == y2,
{
    lemma_round_trip(x1, y1);
    lemma_round_trip(x2, y2);
}

/// Law: every index below INDEX_LIMIT is the index of the coordinate it
/// unfolds to, so the curve visits every cell and misses no index.
pub proof fn lemma_index_recovered(d: nat)
    requires
        d < INDEX_LIMIT,
    ensures
        curve_index(
            GRID_BITS as nat,
            curve_point(GRID_BITS as nat, d).0,
            curve_point(GRID_BITS as nat, d).1,
        ) == d,
{
    lemma_grid_constants();
    lemma_curve_index_of_point(GRID_BITS as nat, d);
}

/// Error returned by the checked entry points when an input lies outside the
/// supported domain.
#[derive(Clone, Copy, Debug, PartialEq, Eq, Structural)]
pub enum CurveError {
    OutOfDomain,
}

/// Fold a grid coordinate into its curve index, walking the sixteen levels
/// from the coarsest quadrant down to single cells. The result is the unique
/// position of the cell along the space-filling curve, and unfolding it with
/// `reconstruct_1d_to_2d` returns exactly the input coordinate.
pub fn strip_2d_to_1d(x: u32, y: u32) -> (d: u64)
    requires
        x < GRID_SIDE,
        y < GRID_SIDE,
    ensures
        d == curve_index(GRID_BITS as nat, x as nat, y as nat),
        d < INDEX_LIMIT,
        curve_point(GRID_BITS as nat, d as nat) == (x as nat, y as nat),
{
    proof {
        lemma_grid_constants();
        lemma_curve_index_bound(GRID_BITS as nat, x as nat, y as nat);
        lemma_curve_roundtrip(GRID_BITS as nat, x as nat, y as nat);
        assert(pow2k(15) == 32768) by {
            reveal_with_fuel(pow2k, 16);
        };
    }
    let mut cx = x;
    let mut cy = y;
    let mut d: u32 = 0;
    let mut s: u32 = 32768;
    let ghost mut k: nat = 16;
    while s > 0
        invariant
            k <= 16,
            k >= 1 ==> s == pow2k((k - 1) as nat),
            k == 0 ==> s == 0,
            s <= 32768,
            cx < pow2k(k),
            cy < pow2k(k),
            d + curve_index(k, cx as nat, cy as nat) == curve_index(16, x as nat, y as nat),
            curve_index(16, x as nat, y as nat) < 0x1_0000_0000,
        decreases s,
    {
        let ghost kk = k;
        proof {
            assert(kk >= 1);
            assert(pow2k(kk) == 2 * s);
        }
        assert(s * s <= 1073741824) by (nonlinear_arith)
            requires
                s <= 32768,
        ;
        let s2: u32 = s * s;
        let rx_set = cx >= s;
        let ry_set = cy >= s;
        let inc: u32 = if rx_set {
            if ry_set {
                2
            } else {
                3
            }
        } else {
            if ry_set {
                1
            } else {
                0
            }
        };
        assert(s2 * inc <= 3221225472) by (nonlinear_arith)
            requires
                s2 <= 1073741824,
                inc <= 3,
        ;
        let add: u32 = s2 * inc;
        let ghost m: nat = (s as nat) * (s as nat);
        let ghost rxn: nat = if rx_set {
            1
        } else {
            0
        };
        let ghost ryn: nat = if ry_set {
            1
        } else {
            0
        };
        let ghost x0: nat = if rx_set {
            (cx - s) as nat
        } else {
            cx as nat
        };
        let ghost y0: nat = if ry_set {
            (cy - s) as nat
        } else {
            cy as nat
        };
        let ghost p = orient(s as nat, rxn, ryn, x0, y0);
        proof {
            if inc == 0 {
                assert(s2 * inc == 0) by (nonlinear_arith)
                    requires
                        inc == 0,
                ;
            }
            if inc == 1 {
                assert(s2 * inc == s2) by (nonlinear_arith)
                    requires
                        inc == 1,
                ;
            }
            if inc == 2 {
                assert(s2 * inc == 2 * s2) by (nonlinear_arith)
                    requires
                        inc == 2,
                ;
            }
            if inc == 3 {
                assert(s2 * inc == 3 * s2) by (nonlinear_arith)
                    requires
                        inc == 3,
                ;
            }
            assert(add == quadrant_offset(m, rxn, ryn));
            assert(curve_index(kk, cx as nat, cy as nat) == quadrant_offset(m, rxn, ryn)
                + curve_index((kk - 1) as nat, p.0, p.1));
        }
        d = d + add;
        if rx_set {
            cx = cx - s;
        }
        if ry_set {
            cy = cy - s;
        }
        if !ry_set {
            if rx_set {
                cx = s - 1 - cx;
                cy = s - 1 - cy;
            }
            let tmp = cx;
            cx = cy;
            cy = tmp;
        }
        proof {
            assert((cx as nat, cy as nat) == p);
            k = (kk - 1) as nat;
            if k >= 1 {
                assert(pow2k((k - 1) as nat + 1) == 2 * pow2k((k - 1) as nat));
            }
        }
        s = s / 2;
    }
    proof {
        if k >= 1 {
            lemma_pow2k_positive((k - 1) as nat);
        }
        assert(k == 0);
        assert(curve_index(0, cx as nat, cy as nat) == 0);
    }
    d as u64
}

/// Unfold a curve index back into its grid coordinate, walking the sixteen
/// levels from single cells up to the coarsest quadrant. It is the exact
/// inverse of `strip_2d_to_1d` over the whole index range.
pub fn reconstruct_1d_to_2d(z: u64) -> (p: (u32, u32))
    requires
        z < INDEX_LIMIT,
    ensures
        p.0 as nat == curve_point(GRID_BITS as nat, z as nat).0,
        p.1 as nat == curve_point(GRID_BITS as nat, z as nat).1,
        p.0 < GRID_SIDE,
        p.1 < GRID_SIDE,
        curve_index(GRID_BITS as nat, p.0 as nat, p.1 as nat) == z,
{
    proof {
        lemma_grid_constants();
        lemma_curve_index_of_point(GRID_BITS as nat, z as nat);
        lemma_curve_point_bound(GRID_BITS as nat, z as nat);
        let c0 = pow2k(0);
        assert(c0 == 1);
        assert(c0 * c0 == 1) by (nonlinear_arith)
            requires
                c0 == 1,
        ;
    }
    let mut x: u32 = 0;
    let mut y: u32 = 0;
    let mut s: u32 = 1;
    let mut t: u32 = z as u32;
    let ghost mut j: nat = 0;
    while s < 65536
        invariant
            j <= 16,
            s == pow2k(j),
            x < s,
            y < s,
            (x as nat, y as nat) == curve_point(j, (z as nat) % (pow2k(j) * pow2k(j))),
            t as nat == (z as nat) / (pow2k(j) * pow2k(j)),
            z < 0x1_0000_0000,
            pow2k(16) == 65536,
        decreases 65536 - s,
    {
        let ghost jj = j;
        let ghost m: nat = pow2k(jj) * pow2k(jj);
        proof {
            if jj == 16 {
                assert(s == 65536);
                assert(false);
            }
            lemma_pow2k_monotone(jj, 15);
            assert(pow2k(15) == 32768) by {
                reveal_with_fuel(pow2k, 16);
            };
            assert(s <= 32768);
            lemma_pow2k_positive(jj);
            assert(pow2k(jj + 1) == 2 * pow2k(jj));
            assert(pow2k(jj + 1) * pow2k(jj + 1) == 4 * (pow2k(jj) * pow2k(jj)))
                by (nonlinear_arith)
                requires
                    pow2k(jj + 1) == 2 * pow2k(jj),
            ;
            assert(m >= 1) by (nonlinear_arith)
                requires
                    pow2k(jj) >= 1,
                    m == pow2k(jj) * pow2k(jj),
            ;
            vstd::arithmetic::div_mod::lemma_breakdown(z as int, m as int, 4);
            lemma_mod_pos_bound(z as int, m as int);
        }
        let rt: u32 = t % 4;
        let rx: u32 = rt / 2;
        let ry: u32 = if rt == 1 || rt == 2 {
            1
        } else {
            0
        };
        let ghost dd: nat = (z as nat) % (4 * m);
        proof {
            assert(dd == m * (rt as nat) + (z as nat) % m);
            assert(m * (rt as nat) == (rt as nat) * m) by (nonlinear_arith);
            lemma_fundamental_div_mod_converse(
                dd as int,
                m as int,
                rt as int,
                ((z as nat) % m) as int,
            );
            assert(dd / m == rt as nat);
            assert(dd % m == (z as nat) % m);
        }
        if ry == 0 {
            if rx == 1 {
                x = s - 1 - x;
                y = s - 1 - y;
            }
            let tmp = x;
            x = y;
            y = tmp;
        }
        if rx == 1 {
            x = x + s;
        }
        if ry == 1 {
            y = y + s;
        }
        proof {
            assert((x as nat, y as nat) == curve_point(jj + 1, dd));
            assert(pow2k(jj + 1) * pow2k(jj + 1) == 4 * m);
            assert((z as nat) % (pow2k(jj + 1) * pow2k(jj + 1)) == dd);
            vstd::arithmetic::div_mod::lemma_div_denominator(z as int, m as int, 4);
            j = jj + 1;
        }
        t = t / 4;
        s = s * 2;
    }
    proof {
        if j < 16 {
            lemma_pow2k_monotone(j, 15);
            assert(pow2k(15) == 32768) by {
                reveal_with_fuel(pow2k, 16);
            };
            assert(false);
        }
        assert(j == 16);
        vstd::arithmetic::div_mod::lemma_small_mod(
            z as nat,
            (pow2k(16) * pow2k(16)) as nat,
        );
    }
    (x, y)
}

proof fn lemma_pow2k_monotone(a: nat, b: nat)
    requires
        a <= b,
    ensures
        pow2k(a) <= pow2k(b),
    decreases b,
{
    if a < b {
        lemma_pow2k_monotone(a, (b - 1) as nat);
        lemma_pow2k_positive((b - 1) as nat);
    }
}

/// Checked fold: returns the curve index of an in-range coordinate, and
/// rejects an out-of-range one instead of aliasing it to a smaller value.
pub fn try_strip_2d_to_1d(x: u32, y: u32) -> (r: Result<u64, CurveError>)
    ensures
        (x < GRID_SIDE && y < GRID_SIDE) <==> r is Ok,
        r matches Ok(d) ==> d == curve_index(GRID_BITS as nat, x as nat, y as nat) && d
            < INDEX_LIMIT,
        r matches Err(e) ==> e == CurveError::OutOfDomain,
{
    if x < GRID_SIDE && y < GRID_SIDE {
        Ok(strip_2d_to_1d(x, y))
    } else {
        Err(CurveError::OutOfDomain)
    }
}

/// Checked unfold: returns the grid coordinate of an in-range curve index,
/// and rejects an index at or above INDEX_LIMIT instead of truncating it.
pub fn try_reconstruct_1d_to_2d(z: u64) -> (r: Result<(u32, u32), CurveError>)
    ensures
        (z < INDEX_LIMIT) <==> r is Ok,
        r matches Ok(p) ==> p.0 as nat == curve_point(GRID_BITS as nat, z as nat).0 && p.1 as nat
            == curve_point(GRID_BITS as nat, z as nat).1 && p.0 < GRID_SIDE && p.1 < GRID_SIDE,
        r matches Err(e) ==> e == CurveError::OutOfDomain,
{
    if z < INDEX_LIMIT {
        Ok(reconstruct_1d_to_2d(z))
    } else {
        Err(CurveError::OutOfDomain)
    }
}

} // verus!
