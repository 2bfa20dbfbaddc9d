//! The mosaic layout engine: a pure tiling of `n` items into a square
//! region, recursing on concentric square rings.
//!
//! The rule set, including its numeric overrides, is the contract: it
//! decides which visual slot each item lands in.
//!
//! Tile coordinates are exact rationals. A layout for `n` items carries one
//! common denominator `denom(n)`; every tile's `x`, `y`, `w`, `h` are
//! integers in units of `1/denom(n)` of a pixel, so no precision is lost at
//! any recursion depth. `ceil_units` converts a coordinate back to whole
//! pixels, rounding up as the renderer does.

use vstd::prelude::*;

verus! {

/// Helper for `ceil_sqrt`: the least `r >= s` with `r * r >= n`.
pub open spec fn csqrt_from(n: nat, s: nat) -> nat
    decreases (if s * s >= n {
        0int
    } else {
        n - s * s
    })
        via csqrt_from_decreases
{
    if s * s >= n {
        s
    } else {
        csqrt_from(n, s + 1)
    }
}

#[via_fn]
proof fn csqrt_from_decreases(n: nat, s: nat) {
    assert((s + 1) * (s + 1) > s * s) by (nonlinear_arith)
        requires
            s >= 0,
    ;
}

/// The ceiling of the square root of `n`.
pub open spec fn ceil_sqrt(n: nat) -> nat {
    csqrt_from(n, 0)
}

proof fn lemma_csqrt_from(n: nat, s: nat)
    ensures
        csqrt_from(n, s) >= s,
        csqrt_from(n, s) * csqrt_from(n, s) >= n,
        csqrt_from(n, s) > s ==> (csqrt_from(n, s) - 1) * (csqrt_from(n, s) - 1) < n,
    decreases (if s * s >= n {
        0int
    } else {
        n - s * s
    }),
{
    if s * s < n {
        assert((s + 1) * (s + 1) > s * s) by (nonlinear_arith)
            requires
                s >= 0,
        ;
        lemma_csqrt_from(n, s + 1);
    }
}

/// `ceil_sqrt(n)` squared reaches `n`, and it is the least such value.
pub proof fn lemma_ceil_sqrt(n: nat)
    ensures
        ceil_sqrt(n) * ceil_sqrt(n) >= n,
        ceil_sqrt(n) > 0 ==> (ceil_sqrt(n) - 1) * (ceil_sqrt(n) - 1) < n,
        n > 0 ==> ceil_sqrt(n) > 0,
{
    lemma_csqrt_from(n, 0);
}

/// Whether `n` falls in the critical range, in which the ring fills only
/// the top edge and the left column, and the inner square shrinks by one
/// block instead of two.
pub open spec fn is_critical(n: nat) -> bool {
    5 <= n <= 8
}

/// The ring's side length for `n >= 4` items: the ceiling square root,
/// overridden to 3 for `n` in `[10, 12]` and to 2 for `n == 5`.
pub open spec fn side_len(n: nat) -> nat {
    if 10 <= n <= 12 {
        3
    } else if n == 5 {
        2
    } else {
        ceil_sqrt(n)
    }
}

/// How many items the outer ring consumes.
pub open spec fn ring_count(n: nat) -> int {
    if is_critical(n) {
        2 * side_len(n) - 1
    } else {
        4 * side_len(n) - 4
    }
}

/// How many items remain for the inner square.
pub open spec fn rem_count(n: nat) -> nat {
    if 1 <= ring_count(n) <= n {
        (n - ring_count(n)) as nat
    } else {
        0
    }
}

/// For `n >= 4` the ring consumes at least 3 and at most `n` items, and the
/// side length is at least 2.
pub proof fn lemma_ring_bounds(n: nat)
    requires
        n >= 4,
    ensures
        side_len(n) >= 2,
        3 <= ring_count(n) <= n,
        rem_count(n) == n - ring_count(n),
        rem_count(n) < n,
        rem_count(n) == 0 ==> side_len(n) == 2 && !is_critical(n) && n == 4,
{
    if 10 <= n <= 12 || n == 5 {
        // forced side lengths: 3 gives a ring of 8 within [10, 12]; 2 gives
        // a critical ring of 3 within 5
    } else {
        let r = ceil_sqrt(n);
        lemma_ceil_sqrt(n);
        assert(r >= 2) by (nonlinear_arith)
            requires
                r * r >= n,
                n >= 4,
                r >= 0,
        ;
        if n <= 4 {
            assert(r <= 2) by (nonlinear_arith)
                requires
                    (r - 1) * (r - 1) < n,
                    n <= 4,
                    r >= 2,
            ;
        } else if n <= 8 {
            // critical and not 5: 6 <= n <= 8, so r == 3 and the ring is 5
            assert(r <= 3) by (nonlinear_arith)
                requires
                    (r - 1) * (r - 1) < n,
                    n <= 8,
                    r >= 2,
            ;
            assert(r >= 3) by (nonlinear_arith)
                requires
                    r * r >= n,
                    n >= 6,
                    r >= 2,
            ;
        } else if n == 9 {
            assert(r == 3) by (nonlinear_arith)
                requires
                    r * r >= n,
                    (r - 1) * (r - 1) < n,
                    n == 9,
                    r >= 2,
            ;
        } else if n <= 16 {
            // 13 <= n <= 16 here, so r == 4 and the ring is 12
            assert(r == 4) by (nonlinear_arith)
                requires
                    r * r >= n,
                    (r - 1) * (r - 1) < n,
                    13 <= n <= 16,
                    r >= 2,
            ;
        } else {
            // n >= 17: r >= 5, and (r-1)^2 < n gives n >= r^2 - 2r + 2,
            // which dominates the ring 4r - 4
            assert(r >= 5) by (nonlinear_arith)
                requires
                    r * r >= n,
                    n >= 17,
                    r >= 2,
            ;
            assert(n >= r * r - 2 * r + 2) by (nonlinear_arith)
                requires
                    (r - 1) * (r - 1) < n,
            ;
            assert(r * r - 2 * r + 2 >= 4 * r - 3) by (nonlinear_arith)
                requires
                    r >= 5,
            ;
        }
    }
}

/// Multiplication by a nonnegative factor respects order, stepwise.
proof fn lemma_mul_step(b: int, u: int, v: int)
    requires
        b >= 0,
        u < v,
    ensures
        b * u + b <= b * v,
        b * u <= b * v,
{
    assert(b * u + b <= b * v && b * u <= b * v) by (nonlinear_arith)
        requires
            b >= 0,
            u < v,
    ;
}

/// Common block-size facts for a ring of side `sl` over a span `s`.
proof fn lemma_block_facts(s: int, sl: int)
    requires
        s >= 0,
        sl >= 2,
    ensures
        s / sl >= 0,
        (s / sl) * sl <= s,
        2 * (s / sl) <= s,
        (s / sl) * (sl - 1) == (s / sl) * sl - s / sl,
{
    let b = s / sl;
    vstd::arithmetic::div_mod::lemma_fundamental_div_mod(s, sl);
    assert(b >= 0 && b * sl <= s && 2 * b <= s && b * (sl - 1) == b * sl - b) by (nonlinear_arith)
        requires
            s == sl * b + s % sl,
            0 <= s % sl < sl,
            s >= 0,
            sl >= 2,
    ;
}

/// The common denominator of the exact tile coordinates for `n` items: the
/// product of the side lengths along the recursion, with a factor of 2 for
/// the two- and three-item bases.
pub open spec fn denom(n: nat) -> nat
    decreases n,
{
    if n <= 1 {
        1
    } else if n <= 3 {
        2
    } else {
        side_len(n) * denom(rem_count(n))
    }
}

pub proof fn lemma_denom_pos(n: nat)
    ensures
        denom(n) >= 1,
    decreases n,
{
    if n >= 4 {
        lemma_ring_bounds(n);
        lemma_denom_pos(rem_count(n));
        assert(side_len(n) * denom(rem_count(n)) >= 1) by (nonlinear_arith)
            requires
                side_len(n) >= 2,
                denom(rem_count(n)) >= 1,
        ;
    }
}

/// Computes `ceil_sqrt(n)`.
fn ceil_sqrt_exec(n: usize) -> (r: usize)
    ensures
        r == ceil_sqrt(n as nat),
        r <= n,
{
    let mut s: usize = 0;
    loop
        invariant_except_break
            s <= n,
            csqrt_from(n as nat, 0) == csqrt_from(n as nat, s as nat),
        ensures
            s * s >= n,
            csqrt_from(n as nat, 0) == csqrt_from(n as nat, s as nat),
            s <= n,
        decreases n - s,
    {
        let sl: u128 = s as u128;
        proof {
            assert(sl * sl < u128::MAX) by (nonlinear_arith)
                requires
                    0 <= sl <= u64::MAX,
            ;
        }
        if !(sl * sl < n as u128) {
            break ;
        }
        proof {
            assert(s * s < n);
            assert(csqrt_from(n as nat, s as nat) == csqrt_from(n as nat, (s + 1) as nat));
            assert(s + 1 <= n) by (nonlinear_arith)
                requires
                    s * s < n,
                    s >= 0,
            ;
        }
        s += 1;
    }
    proof {
        assert(csqrt_from(n as nat, s as nat) == s);
    }
    s
}

/// Computes `side_len(n)` for `n >= 4`.
fn side_len_exec(n: usize) -> (r: usize)
    requires
        n >= 4,
    ensures
        r == side_len(n as nat),
        2 <= r <= n,
{
    proof {
        lemma_ring_bounds(n as nat);
    }
    if 10 <= n && n <= 12 {
        3
    } else if n == 5 {
        2
    } else {
        ceil_sqrt_exec(n)
    }
}

/// Computes `ring_count(n)` and `rem_count(n)` for `n >= 4`.
fn ring_rem_exec(n: usize) -> (r: (usize, usize))
    requires
        n >= 4,
    ensures
        r.0 == ring_count(n as nat),
        r.1 == rem_count(n as nat),
        3 <= r.0 <= n,
        r.1 < n,
{
    proof {
        lemma_ring_bounds(n as nat);
    }
    let s = side_len_exec(n);
    let ring: usize = if 5 <= n && n <= 8 {
        2 * (s - 1) + 1
    } else {
        4 * (s - 1)
    };
    (ring, n - ring)
}

/// Computes `denom(n)`, or `None` when it does not fit in `u64`.
pub fn denom_check(n: usize) -> (r: Option<u64>)
    ensures
        match r {
            Some(d) => d == denom(n as nat) && d >= 1,
            None => denom(n as nat) > u64::MAX,
        },
{
    let mut acc: u64 = 1;
    let mut m: usize = n;
    while m > 3
        invariant
            denom(n as nat) == acc * denom(m as nat),
            acc >= 1,
        decreases m,
    {
        let s = side_len_exec(m);
        let (_ring, rest) = ring_rem_exec(m);
        proof {
            lemma_ring_bounds(m as nat);
            lemma_denom_pos(rest as nat);
            assert(denom(m as nat) == side_len(m as nat) * denom(rem_count(m as nat)));
        }
        if acc > u64::MAX / (s as u64) {
            proof {
                let a = acc as int;
                let si = side_len(m as nat) as int;
                let dm = denom(rest as nat) as int;
                let mx = u64::MAX as int;
                vstd::arithmetic::div_mod::lemma_fundamental_div_mod(mx, si);
                assert(a * si > mx) by (nonlinear_arith)
                    requires
                        a > mx / si,
                        si >= 2,
                        a >= 1,
                        mx == si * (mx / si) + mx % si,
                        0 <= mx % si < si,
                ;
                assert(a * (si * dm) >= a * si) by (nonlinear_arith)
                    requires
                        a >= 1,
                        si >= 2,
                        dm >= 1,
                ;
            }
            return None;
        }
        proof {
            let a = acc as int;
            let si = side_len(m as nat) as int;
            let mx = u64::MAX as int;
            vstd::arithmetic::div_mod::lemma_fundamental_div_mod(mx, si);
            assert(a * si <= mx) by (nonlinear_arith)
                requires
                    a <= mx / si,
                    si >= 2,
                    a >= 1,
                    mx == si * (mx / si) + mx % si,
                    0 <= mx % si < si,
            ;
            assert(a * si >= 1) by (nonlinear_arith)
                requires
                    a >= 1,
                    si >= 2,
            ;
            assert(acc * denom(m as nat) == (a * si) * denom(rest as nat)) by (nonlinear_arith)
                requires
                    denom(m as nat) == side_len(m as nat) * denom(rem_count(m as nat)),
                    rest == rem_count(m as nat),
                    a == acc,
                    si == side_len(m as nat),
            ;
        }
        acc = acc * (s as u64);
        m = rest;
    }
    if m >= 2 {
        proof {
            assert(denom(m as nat) == 2);
        }
        if acc > u64::MAX / 2 {
            return None;
        }
        acc = acc * 2;
        proof {
            assert(acc == denom(n as nat));
        }
    } else {
        proof {
            assert(denom(m as nat) == 1);
            assert(acc * denom(m as nat) == acc) by (nonlinear_arith)
                requires
                    denom(m as nat) == 1,
            ;
        }
    }
    Some(acc)
}

/// One placement: a tile at `(x, y)` of size `w` by `h`, in units of
/// `1/den` of a pixel for the layout's common denominator `den`. The tile at
/// position `j` of a layout of `n` items shows item `n - 1 - j`: the item
/// sequence is consumed from the end.
#[derive(Clone, Copy, PartialEq, Eq, Structural, Debug)]
pub struct Tile {
    pub x: u64,
    pub y: u64,
    pub w: u64,
    pub h: u64,
}

/// Mathematical value of a `Tile`.
pub ghost struct TileV {
    pub x: int,
    pub y: int,
    pub w: int,
    pub h: int,
}

impl DeepView for Tile {
    type V = TileV;

    open spec fn deep_view(&self) -> TileV {
        TileV { x: self.x as int, y: self.y as int, w: self.w as int, h: self.h as int }
    }
}

pub open spec fn tile(x: int, y: int, w: int, h: int) -> TileV {
    TileV { x, y, w, h }
}

/// How many tiles the left/right columns of a non-critical ring hold.
pub open spec fn side_pairs(sl: int) -> nat {
    if sl >= 2 {
        (2 * (sl - 2)) as nat
    } else {
        0
    }
}

/// The outer ring for `n >= 4` items in the square at `(x, y)` of side `s`:
/// blocks of side `b = s / side_len(n)`, filled along the top edge (and,
/// outside the critical range, the bottom edge, interleaved top/bottom),
/// then down the left column (and, outside the critical range, the right
/// column, interleaved left/right).
pub open spec fn ring_tiles(n: nat, x: int, y: int, s: int) -> Seq<TileV> {
    let sl = side_len(n) as int;
    let b = s / sl;
    if is_critical(n) {
        Seq::new(sl as nat, |i: int| tile(x + b * i, y, b, b)) + Seq::new(
            (sl - 1) as nat,
            |i: int| tile(x, y + b * (i + 1), b, b),
        )
    } else {
        Seq::new(
            (2 * sl) as nat,
            |j: int|
                if j % 2 == 0 {
                    tile(x + b * (j / 2), y, b, b)
                } else {
                    tile(x + b * (j / 2), y + s - b, b, b)
                },
        ) + Seq::new(
            side_pairs(sl),
            |j: int|
                if j % 2 == 0 {
                    tile(x, y + b * (j / 2 + 1), b, b)
                } else {
                    tile(x + s - b, y + b * (j / 2 + 1), b, b)
                },
        )
    }
}

/// The exact rule set of the mosaic layout, in units of `1/denom(n)` of a
/// pixel when called on a region scaled by `denom(n)`: nothing for no
/// items; the full region for one; a top and a bottom half for two; two
/// quarter tiles over a bottom half for three; for more, the outer ring and
/// then the inner square, shrunk by one block per side outside the critical
/// range and by one block in all for the critical range, with the remaining
/// items.
pub open spec fn spec_layout(n: nat, x: int, y: int, s: int) -> Seq<TileV>
    decreases n,
{
    if n == 0 {
        Seq::empty()
    } else if n == 1 {
        seq![tile(x, y, s, s)]
    } else if n == 2 {
        seq![tile(x, y, s, s / 2), tile(x, y + s / 2, s, s / 2)]
    } else if n == 3 {
        seq![
            tile(x, y, s / 2, s / 2),
            tile(x + s / 2, y, s / 2, s / 2),
            tile(x, y + s / 2, s, s / 2),
        ]
    } else {
        let sl = side_len(n) as int;
        let b = s / sl;
        let shrink: int = if is_critical(n) {
            1
        } else {
            2
        };
        ring_tiles(n, x, y, s) + spec_layout(rem_count(n), x + b, y + b, s - shrink * b)
    }
}

/// Law: a layout of `n` items has exactly `n` placements.
pub proof fn lemma_layout_len(n: nat, x: int, y: int, s: int)
    ensures
        spec_layout(n, x, y, s).len() == n,
    decreases n,
{
    if n >= 4 {
        lemma_ring_bounds(n);
        let sl = side_len(n) as int;
        let b = s / sl;
        let shrink: int = if is_critical(n) {
            1
        } else {
            2
        };
        assert(ring_tiles(n, x, y, s).len() == ring_count(n));
        lemma_layout_len(rem_count(n), x + b, y + b, s - shrink * b);
    }
}

/// The fitting condition of the scaled arithmetic: the region's far corner,
/// scaled by the layout's common denominator, stays within `u64`.
pub open spec fn layout_fits(n: nat, x: nat, y: nat, size: nat) -> bool {
    &&& denom(n) <= u64::MAX
    &&& (x + size) * denom(n) <= u64::MAX
    &&& (y + size) * denom(n) <= u64::MAX
}

#[verifier::loop_isolation(false)]
#[verifier::rlimit(100)]
fn layout_rec(n: usize, x: u64, y: u64, s: u64, acc: &mut Vec<Tile>)
    requires
        x + s <= u64::MAX,
        y + s <= u64::MAX,
    ensures
        final(acc).deep_view() == old(acc).deep_view() + spec_layout(
            n as nat,
            x as int,
            y as int,
            s as int,
        ),
    decreases n,
{
    let ghost whole = spec_layout(n as nat, x as int, y as int, s as int);
    let ghost pre = acc.deep_view();
    if n == 0 {
        proof {
            assert(acc.deep_view() =~= pre + whole);
        }
        return ;
    }
    if n == 1 {
        acc.push(Tile { x, y, w: s, h: s });
        proof {
            assert(acc.deep_view() =~= pre + whole);
        }
        return ;
    }
    if n == 2 {
        let h = s / 2;
        acc.push(Tile { x, y, w: s, h });
        acc.push(Tile { x, y: y + h, w: s, h });
        proof {
            assert(acc.deep_view() =~= pre + whole);
        }
        return ;
    }
    if n == 3 {
        let h = s / 2;
        acc.push(Tile { x, y, w: h, h });
        acc.push(Tile { x: x + h, y, w: h, h });
        acc.push(Tile { x, y: y + h, w: s, h });
        proof {
            assert(acc.deep_view() =~= pre + whole);
        }
        return ;
    }
    proof {
        lemma_ring_bounds(n as nat);
    }
    let sl = side_len_exec(n);
    let slu: u64 = sl as u64;
    let b = s / slu;
    proof {
        vstd::arithmetic::div_mod::lemma_fundamental_div_mod(s as int, slu as int);
        assert(b * slu <= s) by (nonlinear_arith)
            requires
                s as int == slu as int * (b as int) + s as int % (slu as int),
                0 <= s as int % (slu as int),
                b == s / slu,
        ;
        assert(2 * b <= s) by (nonlinear_arith)
            requires
                b * slu <= s,
                slu >= 2,
                b >= 0,
        ;
    }
    let critical = 5 <= n && n <= 8;
    let ghost ring = ring_tiles(n as nat, x as int, y as int, s as int);
    let ghost pre_len = pre.len() as int;
    let ghost top_len: int = if critical {
        sl as int
    } else {
        2 * sl as int
    };
    // the top (and bottom) edge
    let mut i: usize = 0;
    while i < sl
        invariant
            i <= sl,
            b * slu <= s,
            acc@.len() == pre_len + (if critical {
                i as int
            } else {
                2 * i as int
            }),
            forall|idx: int| 0 <= idx < pre_len ==> acc.deep_view()[idx] == pre[idx],
            forall|j: int|
                0 <= j < (if critical {
                    i as int
                } else {
                    2 * i as int
                }) ==> acc.deep_view()[pre_len + j] == ring[j],
        decreases sl - i,
    {
        proof {
            assert(b * (i as int) + b <= b * (slu as int)) by (nonlinear_arith)
                requires
                    0 <= b,
                    i < slu,
            ;
        }
        let tx = x + b * (i as u64);
        proof {
            assert(tx as int == x as int + b as int * (i as int));
        }
        if critical {
            acc.push(Tile { x: tx, y, w: b, h: b });
            proof {
                assert(ring[i as int] == tile(
                    x as int + b as int * (i as int),
                    y as int,
                    b as int,
                    b as int,
                ));
                assert(acc.deep_view()[pre_len + i as int] == ring[i as int]);
            }
        } else {
            acc.push(Tile { x: tx, y, w: b, h: b });
            proof {
                assert(ring[2 * i as int] == tile(
                    x as int + b as int * (i as int),
                    y as int,
                    b as int,
                    b as int,
                ));
                assert(acc.deep_view()[pre_len + 2 * i as int] == ring[2 * i as int]);
            }
            acc.push(Tile { x: tx, y: y + (s - b), w: b, h: b });
            proof {
                assert(ring[2 * i as int + 1] == tile(
                    x as int + b as int * (i as int),
                    y as int + s as int - b as int,
                    b as int,
                    b as int,
                ));
                assert(acc.deep_view()[pre_len + 2 * i as int + 1] == ring[2 * i as int + 1]);
            }
        }
        i += 1;
    }
    // the left (and right) column
    let side_limit: usize = if critical {
        sl
    } else {
        sl - 1
    };
    let mut p: usize = 1;
    while p < side_limit
        invariant
            1 <= p <= side_limit,
            b * slu <= s,
            acc@.len() == pre_len + top_len + (if critical {
                p - 1
            } else {
                2 * (p - 1)
            }),
            forall|idx: int| 0 <= idx < pre_len ==> acc.deep_view()[idx] == pre[idx],
            forall|j: int|
                0 <= j < top_len + (if critical {
                    p - 1
                } else {
                    2 * (p - 1)
                }) ==> acc.deep_view()[pre_len + j] == ring[j],
        decreases side_limit - p,
    {
        proof {
            assert(b * (p as int) + b <= b * (slu as int)) by (nonlinear_arith)
                requires
                    0 <= b,
                    p < slu,
            ;
        }
        let ty = y + b * (p as u64);
        proof {
            assert(ty as int == y as int + b as int * (p as int));
        }
        if critical {
            acc.push(Tile { x, y: ty, w: b, h: b });
            proof {
                assert(ring[top_len + (p - 1)] == tile(
                    x as int,
                    y as int + b as int * (p as int),
                    b as int,
                    b as int,
                ));
                assert(acc.deep_view()[pre_len + top_len + (p - 1)] == ring[top_len + (p - 1)]);
            }
        } else {
            acc.push(Tile { x, y: ty, w: b, h: b });
            proof {
                assert(ring[top_len + 2 * (p - 1)] == tile(
                    x as int,
                    y as int + b as int * (p as int),
                    b as int,
                    b as int,
                ));
                assert(acc.deep_view()[pre_len + top_len + 2 * (p - 1)] == ring[top_len + 2 * (p
                    - 1)]);
            }
            acc.push(Tile { x: x + (s - b), y: ty, w: b, h: b });
            proof {
                assert(ring[top_len + 2 * (p - 1) + 1] == tile(
                    x as int + s as int - b as int,
                    y as int + b as int * (p as int),
                    b as int,
                    b as int,
                ));
                assert(acc.deep_view()[pre_len + top_len + 2 * (p - 1) + 1] == ring[top_len + 2 * (p
                    - 1) + 1]);
            }
        }
        p += 1;
    }
    proof {
        assert(acc.deep_view() =~= pre + ring);
    }
    let ghost mid = acc.deep_view();
    let (_ring_used, rest) = ring_rem_exec(n);
    let shrink: u64 = if critical {
        1
    } else {
        2
    };
    layout_rec(rest, x + b, y + b, s - shrink * b, acc);
    proof {
        assert(acc.deep_view() == mid + spec_layout(
            rem_count(n as nat),
            x as int + (s as int) / (slu as int),
            y as int + (s as int) / (slu as int),
            s as int - (if is_critical(n as nat) {
                1int
            } else {
                2int
            }) * ((s as int) / (slu as int)),
        ));
        assert(acc.deep_view() =~= pre + whole);
    }
}

/// Lays out `n` items in the square region at `(x, y)` of side `size`
/// (whole pixels). Returns the placements, in consumption order, and the
/// common denominator of their coordinates: tile `j` shows item `n - 1 - j`
/// and covers the rational rectangle `(tile.x / den, tile.y / den)` to
/// `((tile.x + tile.w) / den, (tile.y + tile.h) / den)` in pixel units.
pub fn layout(n: usize, x: u32, y: u32, size: u32) -> (r: (Vec<Tile>, u64))
    requires
        layout_fits(n as nat, x as nat, y as nat, size as nat),
    ensures
        r.1 == denom(n as nat),
        r.0.deep_view() == spec_layout(
            n as nat,
            x as int * denom(n as nat),
            y as int * denom(n as nat),
            size as int * denom(n as nat),
        ),
        r.0@.len() == n,
{
    let den = match denom_check(n) {
        Some(d) => d,
        None => {
            proof {
                assert(false);
            }
            1
        },
    };
    proof {
        let d = den as int;
        assert(x as int * d <= (x as int + size as int) * d && y as int * d <= (y as int
            + size as int) * d && size as int * d >= 0 && (x as int + size as int) * d == x as int
            * d + size as int * d && (y as int + size as int) * d == y as int * d + size as int
            * d) by (nonlinear_arith)
            requires
                d >= 1,
        ;
    }
    let xs = (x as u64) * den;
    let ys = (y as u64) * den;
    let ss = (size as u64) * den;
    let mut tiles: Vec<Tile> = Vec::new();
    proof {
        assert(tiles.deep_view() =~= Seq::<TileV>::empty());
    }
    layout_rec(n, xs, ys, ss, &mut tiles);
    proof {
        assert(tiles.deep_view() =~= spec_layout(
            n as nat,
            xs as int,
            ys as int,
            ss as int,
        ));
        lemma_layout_len(n as nat, xs as int, ys as int, ss as int);
    }
    (tiles, den)
}

/// Integer ceiling division: converts a scaled coordinate back to whole
/// pixels, rounding up as the renderer does.
pub fn ceil_units(a: u64, den: u64) -> (q: u64)
    requires
        den > 0,
    ensures
        q * den >= a,
        a > 0 ==> (q - 1) * den < a,
        q == (a + den - 1) / (den as int),
{
    let q = if a == 0 {
        0
    } else {
        (a - 1) / den + 1
    };
    proof {
        let bi = den as int;
        let ai = a as int;
        if a == 0 {
            vstd::arithmetic::div_mod::lemma_basic_div(bi - 1, bi);
        }
        if a > 0 {
            vstd::arithmetic::div_mod::lemma_fundamental_div_mod(ai - 1, bi);
            assert(q == (ai + bi - 1) / bi && q * bi >= ai && (q - 1) * bi < ai)
                by (nonlinear_arith)
                requires
                    bi > 0,
                    ai >= 1,
                    ai - 1 == bi * ((ai - 1) / bi) + (ai - 1) % bi,
                    0 <= (ai - 1) % bi < bi,
                    q == (ai - 1) / bi + 1,
            ;
        }
    }
    q
}

/// Law: every placement lies fully inside its region.
pub proof fn lemma_layout_inside(n: nat, x: int, y: int, s: int)
    requires
        x >= 0,
        y >= 0,
        s >= 0,
    ensures
        forall|j: int|
            0 <= j < spec_layout(n, x, y, s).len() ==> {
                let t = #[trigger] spec_layout(n, x, y, s)[j];
                &&& t.w >= 0
                &&& t.h >= 0
                &&& t.x >= x
                &&& t.y >= y
                &&& t.x + t.w <= x + s
                &&& t.y + t.h <= y + s
            },
    decreases n,
{
    let whole = spec_layout(n, x, y, s);
    if n == 0 {
    } else if n <= 3 {
        assert(0 <= s / 2 && s / 2 + s / 2 <= s) by {
            vstd::arithmetic::div_mod::lemma_fundamental_div_mod(s, 2);
        }
    } else {
        lemma_ring_bounds(n);
        let sl = side_len(n) as int;
        let b = s / sl;
        let shrink: int = if is_critical(n) {
            1int
        } else {
            2int
        };
        assert(b >= 0 && b * sl <= s && shrink * b <= s && b <= s) by {
            vstd::arithmetic::div_mod::lemma_fundamental_div_mod(s, sl);
            assert(b >= 0) by (nonlinear_arith)
                requires
                    s == sl * b + s % sl,
                    0 <= s % sl < sl,
                    s >= 0,
                    sl >= 2,
            ;
            assert(b * sl <= s) by (nonlinear_arith)
                requires
                    s == sl * b + s % sl,
                    0 <= s % sl,
            ;
            assert(2 * b <= s && b <= s) by (nonlinear_arith)
                requires
                    b * sl <= s,
                    sl >= 2,
                    b >= 0,
            ;
        }
        let ring = ring_tiles(n, x, y, s);
        assert forall|j: int| 0 <= j < ring.len() implies {
            let t = #[trigger] ring[j];
            &&& t.w >= 0
            &&& t.h >= 0
            &&& t.x >= x
            &&& t.y >= y
            &&& t.x + t.w <= x + s
            &&& t.y + t.h <= y + s
        } by {
            if is_critical(n) {
                if j < sl {
                    assert(b * j + b <= b * sl) by (nonlinear_arith)
                        requires
                            0 <= j < sl,
                            b >= 0,
                    ;
                } else {
                    let i = j - sl + 1;
                    assert(ring[j] == tile(x, y + b * i, b, b));
                    assert(b * i + b <= b * sl) by (nonlinear_arith)
                        requires
                            1 <= i < sl,
                            b >= 0,
                    ;
                    assert(b * i >= 0) by (nonlinear_arith)
                        requires
                            i >= 1,
                            b >= 0,
                    ;
                }
            } else {
                if j < 2 * sl {
                    let i = j / 2;
                    assert(0 <= i < sl);
                    assert(b * i + b <= b * sl) by (nonlinear_arith)
                        requires
                            0 <= i < sl,
                            b >= 0,
                    ;
                    assert(b * i >= 0) by (nonlinear_arith)
                        requires
                            i >= 0,
                            b >= 0,
                    ;
                } else {
                    let i = (j - 2 * sl) / 2 + 1;
                    assert(1 <= i < sl - 1);
                    assert(b * i + b <= b * sl) by (nonlinear_arith)
                        requires
                            1 <= i < sl,
                            b >= 0,
                    ;
                    assert(b * i >= 0) by (nonlinear_arith)
                        requires
                            i >= 1,
                            b >= 0,
                    ;
                }
            }
        }
        lemma_layout_inside(rem_count(n), x + b, y + b, s - shrink * b);
        let inner = spec_layout(rem_count(n), x + b, y + b, s - shrink * b);
        assert forall|j: int| 0 <= j < whole.len() implies {
            let t = #[trigger] whole[j];
            &&& t.w >= 0
            &&& t.h >= 0
            &&& t.x >= x
            &&& t.y >= y
            &&& t.x + t.w <= x + s
            &&& t.y + t.h <= y + s
        } by {
            if j < ring.len() {
                assert(whole[j] == ring[j]);
            } else {
                assert(whole[j] == inner[j - ring.len()]);
                assert((x + b) + (s - shrink * b) <= x + s) by (nonlinear_arith)
                    requires
                        shrink >= 1,
                        b >= 0,
                ;
            }
        }
    }
}

/// Two tiles do not overlap: one lies fully to the left of, to the right
/// of, above, or below the other.
pub open spec fn tiles_disjoint(t1: TileV, t2: TileV) -> bool {
    ||| t1.x + t1.w <= t2.x
    ||| t2.x + t2.w <= t1.x
    ||| t1.y + t1.h <= t2.y
    ||| t2.y + t2.h <= t1.y
}

/// A tile keeps clear of the square at `(rx, ry)` of side `rs`.
pub open spec fn tile_clear(t: TileV, rx: int, ry: int, rs: int) -> bool {
    ||| t.x + t.w <= rx
    ||| rx + rs <= t.x
    ||| t.y + t.h <= ry
    ||| ry + rs <= t.y
}

/// The ring's tiles are pairwise disjoint, and all of them keep clear of
/// the inner square left for the recursion.
proof fn lemma_ring_disjoint(n: nat, x: int, y: int, s: int)
    requires
        n >= 4,
        x >= 0,
        y >= 0,
        s >= 0,
    ensures
        ({
            let ring = ring_tiles(n, x, y, s);
            let sl = side_len(n) as int;
            let b = s / sl;
            let shrink: int = if is_critical(n) {
                1int
            } else {
                2int
            };
            &&& forall|i: int, j: int|
                0 <= i < j < ring.len() ==> tiles_disjoint(#[trigger] ring[i], #[trigger] ring[j])
            &&& forall|i: int|
                0 <= i < ring.len() ==> tile_clear(#[trigger] ring[i], x + b, y + b, s - shrink * b)
        }),
{
    lemma_ring_bounds(n);
    let ring = ring_tiles(n, x, y, s);
    let sl = side_len(n) as int;
    let b = s / sl;
    let shrink: int = if is_critical(n) {
        1int
    } else {
        2int
    };
    lemma_block_facts(s, sl);
    let rx = x + b;
    let ry = y + b;
    let rs = s - shrink * b;
    if is_critical(n) {
        assert forall|i: int| 0 <= i < ring.len() implies tile_clear(
            #[trigger] ring[i],
            rx,
            ry,
            rs,
        ) by {
            if i < sl {
                assert(ring[i].y + ring[i].h == y + b);
            } else {
                assert(ring[i] == tile(x, y + b * (i - sl + 1), b, b));
                assert(ring[i].x + ring[i].w == x + b);
            }
        }
        assert forall|i: int, j: int|
            0 <= i < j < ring.len() implies tiles_disjoint(
            #[trigger] ring[i],
            #[trigger] ring[j],
        ) by {
            if j < sl {
                // two top tiles
                lemma_mul_step(b, i, j);
                assert(x + b * i + b <= x + b * j);
            } else if i < sl {
                // a top tile and a left tile
                assert(ring[j] == tile(x, y + b * (j - sl + 1), b, b));
                assert(b * 1 == b) by (nonlinear_arith);
                if 1 < j - sl + 1 {
                    lemma_mul_step(b, 1, j - sl + 1);
                }
                assert(y + b <= y + b * (j - sl + 1));
            } else {
                // two left tiles
                assert(ring[i] == tile(x, y + b * (i - sl + 1), b, b));
                assert(ring[j] == tile(x, y + b * (j - sl + 1), b, b));
                lemma_mul_step(b, i - sl + 1, j - sl + 1);
                assert(y + b * (i - sl + 1) + b <= y + b * (j - sl + 1));
            }
        }
    } else {
        assert forall|i: int| 0 <= i < ring.len() implies tile_clear(
            #[trigger] ring[i],
            rx,
            ry,
            rs,
        ) by {
            if i < 2 * sl {
                if i % 2 == 0 {
                    assert(ring[i].y + ring[i].h == y + b);
                } else {
                    assert(ring[i] == tile(x + b * (i / 2), y + s - b, b, b));
                    assert(ry + rs == y + s - b);
                }
            } else {
                let p = (i - 2 * sl) / 2 + 1;
                if (i - 2 * sl) % 2 == 0 {
                    assert(ring[i] == tile(x, y + b * p, b, b));
                    assert(ring[i].x + ring[i].w == x + b);
                } else {
                    assert(ring[i] == tile(x + s - b, y + b * p, b, b));
                    assert(rx + rs == x + s - b);
                }
            }
        }
        assert forall|i: int, j: int|
            0 <= i < j < ring.len() implies tiles_disjoint(
            #[trigger] ring[i],
            #[trigger] ring[j],
        ) by {
            lemma_ring_pair_disjoint(n, x, y, s, i, j);
        }
    }
}

/// Pairwise disjointness of two ring tiles outside the critical range.
proof fn lemma_ring_pair_disjoint(n: nat, x: int, y: int, s: int, i: int, j: int)
    requires
        n >= 4,
        !is_critical(n),
        x >= 0,
        y >= 0,
        s >= 0,
        0 <= i < j < ring_tiles(n, x, y, s).len(),
    ensures
        tiles_disjoint(ring_tiles(n, x, y, s)[i], ring_tiles(n, x, y, s)[j]),
{
    lemma_ring_bounds(n);
    let ring = ring_tiles(n, x, y, s);
    let sl = side_len(n) as int;
    let b = s / sl;
    lemma_block_facts(s, sl);
    // column positions run from 1 to sl - 2, so a column tile ends above
    // the bottom row: b * (p + 1) <= b * (sl - 1) <= s - b
    if j < 2 * sl {
        // both on the top or bottom edge
        if i % 2 == j % 2 {
            assert(i / 2 < j / 2);
            lemma_mul_step(b, i / 2, j / 2);
            assert(x + b * (i / 2) + b <= x + b * (j / 2));
        } else if i % 2 == 0 {
            // top vs bottom
            assert(ring[i].y + ring[i].h == y + b);
            assert(ring[j] == tile(x + b * (j / 2), y + s - b, b, b));
            if i / 2 < j / 2 {
                lemma_mul_step(b, i / 2, j / 2);
                assert(x + b * (i / 2) + b <= x + b * (j / 2));
            }
        } else {
            // bottom vs top
            assert(ring[i] == tile(x + b * (i / 2), y + s - b, b, b));
            assert(ring[j].y + ring[j].h == y + b);
            assert(i / 2 < j / 2);
            lemma_mul_step(b, i / 2, j / 2);
            assert(x + b * (i / 2) + b <= x + b * (j / 2));
        }
    } else if i < 2 * sl {
        // an edge tile against a column tile
        let p = (j - 2 * sl) / 2 + 1;
        assert(1 <= p <= sl - 2);
        assert(b * 1 == b) by (nonlinear_arith);
        if 1 < p {
            lemma_mul_step(b, 1, p);
        }
        assert(b <= b * p);
        if p < sl - 1 {
            lemma_mul_step(b, p, sl - 1);
        }
        assert(b * p + b <= b * (sl - 1));
        if i % 2 == 0 {
            // top tile ends at y + b, column starts at y + b * p >= y + b
            assert(ring[i].y + ring[i].h == y + b);
            assert(y + b <= y + b * p);
        } else {
            // bottom tile starts at y + s - b, column ends by y + b * (sl - 1)
            assert(ring[i] == tile(x + b * (i / 2), y + s - b, b, b));
            assert(y + b * p + b <= y + b * (sl - 1));
            assert((s / sl) * (sl - 1) == (s / sl) * sl - s / sl);
            assert(b * (sl - 1) <= s - b);
        }
    } else {
        // two column tiles
        let pi = (i - 2 * sl) / 2 + 1;
        let pj = (j - 2 * sl) / 2 + 1;
        assert(1 <= pi <= sl - 2 && 1 <= pj <= sl - 2);
        if (i - 2 * sl) % 2 == (j - 2 * sl) % 2 {
            assert(pi < pj);
            lemma_mul_step(b, pi, pj);
            assert(y + b * pi + b <= y + b * pj);
        } else {
            // a left and a right tile: left ends at x + b, right starts at
            // x + s - b
            assert(b + b <= s);
            if pi < pj {
                lemma_mul_step(b, pi, pj);
                assert(y + b * pi + b <= y + b * pj);
            } else if pj < pi {
                lemma_mul_step(b, pj, pi);
                assert(y + b * pj + b <= y + b * pi);
            }
        }
    }
}

/// Law: no two placements of a layout overlap.
pub proof fn lemma_layout_disjoint(n: nat, x: int, y: int, s: int)
    requires
        x >= 0,
        y >= 0,
        s >= 0,
    ensures
        forall|i: int, j: int|
            0 <= i < j < spec_layout(n, x, y, s).len() ==> tiles_disjoint(
                #[trigger] spec_layout(n, x, y, s)[i],
                #[trigger] spec_layout(n, x, y, s)[j],
            ),
    decreases n,
{
    let whole = spec_layout(n, x, y, s);
    if n == 0 || n == 1 {
    } else if n == 2 {
        vstd::arithmetic::div_mod::lemma_fundamental_div_mod(s, 2);
    } else if n == 3 {
        vstd::arithmetic::div_mod::lemma_fundamental_div_mod(s, 2);
    } else {
        lemma_ring_bounds(n);
        let sl = side_len(n) as int;
        let b = s / sl;
        let shrink: int = if is_critical(n) {
            1int
        } else {
            2int
        };
        lemma_block_facts(s, sl);
        let ring = ring_tiles(n, x, y, s);
        let rx = x + b;
        let ry = y + b;
        let rs = s - shrink * b;
        assert(shrink * b <= 2 * b) by (nonlinear_arith)
            requires
                1 <= shrink <= 2,
                b >= 0,
        ;
        assert(rs >= 0);
        lemma_ring_disjoint(n, x, y, s);
        lemma_layout_disjoint(rem_count(n), rx, ry, rs);
        lemma_layout_inside(rem_count(n), rx, ry, rs);
        let inner = spec_layout(rem_count(n), rx, ry, rs);
        assert forall|i: int, j: int|
            0 <= i < j < whole.len() implies tiles_disjoint(
            #[trigger] whole[i],
            #[trigger] whole[j],
        ) by {
            if j < ring.len() {
                assert(whole[i] == ring[i] && whole[j] == ring[j]);
            } else if i >= ring.len() {
                assert(whole[i] == inner[i - ring.len()] && whole[j] == inner[j - ring.len()]);
            } else {
                assert(whole[i] == ring[i] && whole[j] == inner[j - ring.len()]);
                assert(tile_clear(ring[i], rx, ry, rs));
                let t = inner[j - ring.len()];
                assert(t.x >= rx && t.y >= ry && t.x + t.w <= rx + rs && t.y + t.h <= ry + rs);
            }
        }
    }
}

/// The summed area of a sequence of tiles.
pub open spec fn area_sum(ts: Seq<TileV>) -> int
    decreases ts.len(),
{
    if ts.len() == 0 {
        0
    } else {
        area_sum(ts.drop_last()) + ts.last().w * ts.last().h
    }
}

proof fn lemma_area_sum_concat(a: Seq<TileV>, b: Seq<TileV>)
    ensures
        area_sum(a + b) == area_sum(a) + area_sum(b),
    decreases b.len(),
{
    if b.len() == 0 {
        assert(a + b =~= a);
    } else {
        lemma_area_sum_concat(a, b.drop_last());
        assert((a + b).drop_last() =~= a + b.drop_last());
        assert((a + b).last() == b.last());
    }
}

proof fn lemma_area_uniform(ts: Seq<TileV>, a: int)
    requires
        forall|i: int| 0 <= i < ts.len() ==> #[trigger] ts[i].w * ts[i].h == a,
    ensures
        area_sum(ts) == ts.len() * a,
    decreases ts.len(),
{
    if ts.len() == 0 {
    } else {
        assert(forall|i: int| 0 <= i < ts.drop_last().len() ==> ts.drop_last()[i] == ts[i]);
        lemma_area_uniform(ts.drop_last(), a);
        assert((ts.len() - 1) * a + a == ts.len() * a) by (nonlinear_arith);
    }
}

/// Law: over a region scaled by the layout's common denominator, the
/// placements' areas sum exactly to the area of the region.
pub proof fn lemma_layout_area(n: nat, x: int, y: int, s: int, scale: int)
    requires
        scale >= 0,
        s == scale * denom(n),
    ensures
        area_sum(spec_layout(n, x, y, s)) == if n == 0 {
            0int
        } else {
            s * s
        },
    decreases n,
{
    reveal_with_fuel(area_sum, 5);
    lemma_denom_pos(n);
    assert(s >= 0) by (nonlinear_arith)
        requires
            scale >= 0,
            denom(n) >= 1,
            s == scale * denom(n),
    ;
    if n == 0 {
    } else if n == 1 {
        let l = spec_layout(n, x, y, s);
        assert(l.drop_last() =~= Seq::<TileV>::empty());
        assert(area_sum(l) == s * s);
    } else if n == 2 || n == 3 {
        let h = s / 2;
        assert(denom(n) == 2);
        assert(s == 2 * scale) by (nonlinear_arith)
            requires
                s == scale * denom(n),
                denom(n) == 2,
        ;
        assert(h == scale && s == 2 * h) by {
            vstd::arithmetic::div_mod::lemma_fundamental_div_mod(s, 2);
        }
        let l = spec_layout(n, x, y, s);
        if n == 2 {
            assert(l.drop_last().drop_last() =~= Seq::<TileV>::empty());
            assert(l.drop_last() =~= seq![tile(x, y, s, h)]);
            assert(area_sum(l) == s * h + s * h);
            assert(s * h + s * h == s * s) by (nonlinear_arith)
                requires
                    s == 2 * h,
            ;
        } else {
            assert(l.drop_last().drop_last().drop_last() =~= Seq::<TileV>::empty());
            assert(l.drop_last().drop_last() =~= seq![tile(x, y, h, h)]);
            assert(l.drop_last() =~= seq![tile(x, y, h, h), tile(x + h, y, h, h)]);
            assert(area_sum(l) == h * h + h * h + s * h);
            assert(h * h + h * h + s * h == s * s) by (nonlinear_arith)
                requires
                    s == 2 * h,
            ;
        }
    } else {
        lemma_ring_bounds(n);
        let sl = side_len(n) as int;
        let dr = denom(rem_count(n)) as int;
        lemma_denom_pos(rem_count(n));
        let b = s / sl;
        assert(s == (scale * dr) * sl) by (nonlinear_arith)
            requires
                s == scale * denom(n),
                denom(n) == side_len(n) * denom(rem_count(n)),
                sl == side_len(n),
                dr == denom(rem_count(n)),
        ;
        assert(b == scale * dr) by {
            vstd::arithmetic::div_mod::lemma_div_multiples_vanish(scale * dr, sl);
        }
        assert(s == sl * b) by (nonlinear_arith)
            requires
                s == (scale * dr) * sl,
                b == scale * dr,
        ;
        let shrink: int = if is_critical(n) {
            1int
        } else {
            2int
        };
        let s2 = s - shrink * b;
        let scale2 = scale * (sl - shrink);
        assert(scale2 >= 0) by (nonlinear_arith)
            requires
                scale >= 0,
                sl >= 2,
                1 <= shrink <= 2,
                scale2 == scale * (sl - shrink),
        ;
        assert(s2 == scale2 * dr) by (nonlinear_arith)
            requires
                s == sl * b,
                b == scale * dr,
                s2 == s - shrink * b,
                scale2 == scale * (sl - shrink),
        ;
        lemma_layout_area(rem_count(n), x + b, y + b, s2, scale2);
        let ring = ring_tiles(n, x, y, s);
        let inner = spec_layout(rem_count(n), x + b, y + b, s2);
        lemma_area_sum_concat(ring, inner);
        assert(forall|i: int| 0 <= i < ring.len() ==> #[trigger] ring[i].w * ring[i].h == b * b);
        lemma_area_uniform(ring, b * b);
        assert(ring.len() == ring_count(n));
        let whole = spec_layout(n, x, y, s);
        assert(area_sum(whole) == ring_count(n) * (b * b) + area_sum(inner));
        if rem_count(n) == 0 {
            // only n == 4 reaches this: the ring is the whole square
            assert(4 * (b * b) == s * s) by (nonlinear_arith)
                requires
                    s == sl * b,
                    sl == 2,
            ;
            assert(area_sum(whole) == s * s);
        } else {
            if is_critical(n) {
                assert((2 * sl - 1) * (b * b) + s2 * s2 == s * s) by (nonlinear_arith)
                    requires
                        s == sl * b,
                        s2 == s - b,
                        shrink == 1,
                        s2 == s - shrink * b,
                ;
            } else {
                assert((4 * sl - 4) * (b * b) + s2 * s2 == s * s) by (nonlinear_arith)
                    requires
                        s == sl * b,
                        s2 == s - 2 * b,
                        shrink == 2,
                ;
            }
            assert(area_sum(whole) == s * s);
        }
    }
}

/// Whether the point `(px, py)` falls inside tile `t`.
pub open spec fn tile_contains(t: TileV, px: int, py: int) -> bool {
    t.x <= px < t.x + t.w && t.y <= py < t.y + t.h
}

/// Whether some tile of `l` contains the point `(px, py)`.
pub open spec fn covers(l: Seq<TileV>, px: int, py: int) -> bool {
    exists|j: int| 0 <= j < l.len() && tile_contains(#[trigger] l[j], px, py)
}

/// Law: for one, two or three items the placements cover the region
/// exactly (the region's span being even for two and three, as it is
/// whenever it carries the layout's denominator).
pub proof fn lemma_layout_cover_small(n: nat, x: int, y: int, s: int)
    requires
        1 <= n <= 3,
        n >= 2 ==> s % 2 == 0,
        s >= 0,
    ensures
        forall|px: int, py: int|
            x <= px < x + s && y <= py < y + s ==> #[trigger] covers(
                spec_layout(n, x, y, s),
                px,
                py,
            ),
{
    let l = spec_layout(n, x, y, s);
    let h = s / 2;
    if n >= 2 {
        assert(s == 2 * h) by {
            vstd::arithmetic::div_mod::lemma_fundamental_div_mod(s, 2);
        }
    }
    assert forall|px: int, py: int|
        x <= px < x + s && y <= py < y + s implies #[trigger] covers(l, px, py) by {
        if n == 1 {
            assert(tile_contains(l[0], px, py));
        } else if n == 2 {
            if py < y + h {
                assert(tile_contains(l[0], px, py));
            } else {
                assert(tile_contains(l[1], px, py));
            }
        } else {
            if py < y + h {
                if px < x + h {
                    assert(tile_contains(l[0], px, py));
                } else {
                    assert(tile_contains(l[1], px, py));
                }
            } else {
                assert(tile_contains(l[2], px, py));
            }
        }
    }
}

} // verus!
