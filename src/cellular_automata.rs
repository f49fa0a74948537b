use crate::types::{is_square, UMap8};
use vstd::prelude::*;

verus! {

/// A grid as nested sequences of cell values.
pub open spec fn rows_of(g: Seq<Vec<u8>>) -> Seq<Seq<u8>> {
    Seq::new(g.len(), |i: int| g[i]@)
}

/// `g` is a `n x n` grid of sequences.
pub open spec fn square_seq<T>(g: Seq<Seq<T>>, n: nat) -> bool {
    g.len() == n && forall|i: int| 0 <= i < n ==> (#[trigger] g[i]).len() == n
}

/// The `k`-th cell of the `(2r + 1) x (2r + 1)` square of offsets, row by row.
pub open spec fn square_offset(r: int, k: int) -> (int, int) {
    (k % (2 * r + 1) - r, k / (2 * r + 1) - r)
}

/// The offsets among the first `k` of the square that lie within distance `r`.
pub open spec fn circle_offsets_upto(r: int, k: int) -> Seq<(i32, i32)>
    decreases k,
{
    if k <= 0 {
        seq![]
    } else {
        let prev = circle_offsets_upto(r, k - 1);
        let (dx, dy) = square_offset(r, k - 1);
        if dx * dx + dy * dy <= r * r { prev.push((dx as i32, dy as i32)) } else { prev }
    }
}

/// The integer offsets within distance `r` of the origin, row by row.
pub open spec fn circle_offsets_of(r: int) -> Seq<(i32, i32)> {
    circle_offsets_upto(r, (2 * r + 1) * (2 * r + 1))
}

/// The largest search radius: its square fits comfortably in an `i32`.
pub const MAX_SEARCH_RADIUS: u32 = 16384;

/// The offsets `(dx, dy)` with `dx * dx + dy * dy <= radius * radius`, row by row.
pub fn precompute_circle_offsets(radius: u32) -> (r: Vec<(i32, i32)>)
    requires
        radius <= MAX_SEARCH_RADIUS,
    ensures
        r@ == circle_offsets_of(radius as int),
{
    let ri = radius as i32;
    let side = 2 * ri + 1;
    assert(0 <= ri * ri <= 16384 * 16384) by (nonlinear_arith)
        requires 0 <= ri <= 16384;
    let rr = ri * ri;
    assert((-ri + ri) * side == 0);
    let mut offsets: Vec<(i32, i32)> = Vec::new();
    let mut dy: i32 = -ri;
    while dy <= ri
        invariant
            ri == radius,
            radius <= MAX_SEARCH_RADIUS,
            side == 2 * ri + 1,
            rr == ri * ri,
            -ri <= dy <= ri + 1,
            offsets@ == circle_offsets_upto(ri as int, (dy + ri) * side),
        decreases ri + 1 - dy,
    {
        let mut dx: i32 = -ri;
        while dx <= ri
            invariant
                ri == radius,
                radius <= MAX_SEARCH_RADIUS,
                side == 2 * ri + 1,
                rr == ri * ri,
                -ri <= dy <= ri,
                -ri <= dx <= ri + 1,
                offsets@ == circle_offsets_upto(ri as int, (dy + ri) * side + (dx + ri)),
            decreases ri + 1 - dx,
        {
            let ghost k = (dy + ri) * side + (dx + ri);
            proof {
                assert(0 <= dx + ri < side);
                assert(k % (side as int) == dx + ri && k / (side as int) == dy + ri) by (nonlinear_arith)
                    requires k == (dy + ri) * side + (dx + ri), 0 <= dx + ri < side, 0 <= dy + ri;
                assert(0 <= dx * dx <= ri * ri && 0 <= dy * dy <= ri * ri) by (nonlinear_arith)
                    requires -ri <= dx <= ri, -ri <= dy <= ri;
                assert(ri * ri <= 16384 * 16384) by (nonlinear_arith)
                    requires 0 <= ri <= 16384;
            }
            let d = dx * dx + dy * dy;
            if d <= rr {
                offsets.push((dx, dy));
            }
            dx += 1;
        }
        proof {
            assert((dy + ri) * side + (ri + 1 + ri) == (dy + 1 + ri) * side) by (nonlinear_arith)
                requires side == 2 * ri + 1;
        }
        dy += 1;
    }
    proof {
        assert((ri + 1 + ri) * side == (2 * ri + 1) * (2 * ri + 1));
    }
    offsets
}

/// The sum of the cells of `g` at `(x + dx, y + dy)` over the offsets that stay on the grid.
pub open spec fn neighbour_sum(g: Seq<Seq<u8>>, x: int, y: int, offs: Seq<(i32, i32)>) -> int
    decreases offs.len(),
{
    if offs.len() == 0 {
        0
    } else {
        let (dx, dy) = offs.last();
        let nx = x + dx;
        let ny = y + dy;
        neighbour_sum(g, x, y, offs.drop_last()) + if 0 <= nx < g.len() && 0 <= ny < g.len() {
            g[nx][ny] as int
        } else {
            0
        }
    }
}

/// The integer rules of the cave automaton.
#[derive(Clone, Copy, Debug)]
pub struct CaRules {
    /// Requested number of generations; rounded up to an even number.
    pub iterations: u32,
    /// Radius of the circular neighbourhood.
    pub search_radius: u32,
    /// Neighbour count above which a cell becomes empty.
    pub threshold: u32,
    /// Factor of the per-cell depth bias added to the threshold.
    pub misc: i32,
    /// Whether the final grid is inverted.
    pub invert: bool,
}

/// The threshold at `(x, y)`: the base threshold plus the cell's depth bias times `misc`.
pub open spec fn biased_threshold(bias: Seq<Vec<i32>>, rules: CaRules, x: int, y: int) -> int {
    rules.threshold + bias[x]@[y] * rules.misc
}

/// The next value of cell `(x, y)`: empty when the solid cells of its
/// neighbourhood outnumber the biased threshold, solid otherwise.
pub open spec fn next_cell(g: Seq<Seq<u8>>, bias: Seq<Vec<i32>>, rules: CaRules, x: int, y: int) -> u8 {
    if neighbour_sum(g, x, y, circle_offsets_of(rules.search_radius as int)) > biased_threshold(bias, rules, x, y) {
        0
    } else {
        1
    }
}

/// One synchronous generation: every cell is computed from the previous grid alone.
pub open spec fn ca_step(g: Seq<Seq<u8>>, bias: Seq<Vec<i32>>, rules: CaRules) -> Seq<Seq<u8>> {
    Seq::new(g.len(), |x: int| Seq::new(g.len(), |y: int| next_cell(g, bias, rules, x, y)))
}

/// `n` generations.
pub open spec fn ca_run(g: Seq<Seq<u8>>, bias: Seq<Vec<i32>>, rules: CaRules, n: nat) -> Seq<Seq<u8>>
    decreases n,
{
    if n == 0 { g } else { ca_step(ca_run(g, bias, rules, (n - 1) as nat), bias, rules) }
}

/// The number of generations actually run: the requested count rounded up to even.
pub open spec fn even_iterations(n: u32) -> nat {
    if n % 2 != 0 { (n + 1) as nat } else { n as nat }
}

/// `g` with 0 and every other value swapped for 1 and 0.
pub open spec fn inverted(g: Seq<Seq<u8>>) -> Seq<Seq<u8>> {
    Seq::new(g.len(), |i: int| Seq::new(g[i].len(), |j: int| if g[i][j] == 0 { 1u8 } else { 0u8 }))
}

/// Every cell of `g` is 0 or 1.
pub open spec fn binary_seq(g: Seq<Seq<u8>>) -> bool {
    forall|x: int, y: int| 0 <= x < g.len() && 0 <= y < g[x].len() ==> #[trigger] g[x][y] == 0 || g[x][y] == 1
}

/// A generation, and an inversion, leave only 0 and 1.
proof fn lemma_outputs_binary(g: Seq<Seq<u8>>, bias: Seq<Vec<i32>>, rules: CaRules, n: nat)
    ensures
        n > 0 ==> binary_seq(ca_run(g, bias, rules, n)),
        binary_seq(inverted(g)),
{
    if n > 0 {
        let h = ca_run(g, bias, rules, (n - 1) as nat);
        assert(ca_run(g, bias, rules, n) == ca_step(h, bias, rules));
    }
}

/// The solid cells within the circular neighbourhood of `(x, y)`, clipped to the grid.
pub fn get_neighboring_wall_tile_count_within_radius_circle(
    x: usize,
    y: usize,
    img: &UMap8,
    circle_offsets: &Vec<(i32, i32)>,
) -> (r: u64)
    requires
        is_square(img@, img@.len() as nat),
        img@.len() < u32::MAX,
        circle_offsets@.len() < u32::MAX,
        x < img@.len(),
        y < img@.len(),
    ensures
        r == neighbour_sum(rows_of(img@), x as int, y as int, circle_offsets@),
{
    let n = img.len() as i64;
    let mut count: u64 = 0;
    let mut k: usize = 0;
    while k < circle_offsets.len()
        invariant
            is_square(img@, img@.len() as nat),
            n == img@.len(),
            n < u32::MAX,
            x < n,
            y < n,
            circle_offsets@.len() < u32::MAX,
            k <= circle_offsets@.len(),
            count == neighbour_sum(rows_of(img@), x as int, y as int, circle_offsets@.subrange(0, k as int)),
            count <= k * 255,
        decreases circle_offsets.len() - k,
    {
        let (dx, dy) = circle_offsets[k];
        let nx = x as i64 + dx as i64;
        let ny = y as i64 + dy as i64;
        let ghost nxt = circle_offsets@.subrange(0, k + 1);
        assert(nxt.drop_last() =~= circle_offsets@.subrange(0, k as int));
        assert(nxt.last() == (dx, dy));
        assert(rows_of(img@).len() == n);
        if nx >= 0 && nx < n && ny >= 0 && ny < n {
            assert(rows_of(img@)[nx as int] == img@[nx as int]@);
            count = count + img[nx as usize][ny as usize] as u64;
        }
        k += 1;
    }
    assert(circle_offsets@.subrange(0, circle_offsets@.len() as int) =~= circle_offsets@);
    count
}

/// The offsets of the `(2r + 1) x (2r + 1)` square among its first `k`
/// cells, the origin left out, row by row.
pub open spec fn square_offsets_upto(r: int, k: int) -> Seq<(i32, i32)>
    decreases k,
{
    if k <= 0 {
        seq![]
    } else {
        let prev = square_offsets_upto(r, k - 1);
        let (dx, dy) = square_offset(r, k - 1);
        if dx == 0 && dy == 0 { prev } else { prev.push((dx as i32, dy as i32)) }
    }
}

/// The offsets of the square of radius `r` around the origin, the origin left out.
pub open spec fn square_offsets_of(r: int) -> Seq<(i32, i32)> {
    square_offsets_upto(r, (2 * r + 1) * (2 * r + 1))
}

/// The offsets `(dx, dy)` with `|dx|, |dy| <= radius`, origin excluded, row by row.
fn precompute_square_offsets(radius: u32) -> (r: Vec<(i32, i32)>)
    requires
        radius <= MAX_SEARCH_RADIUS,
    ensures
        r@ == square_offsets_of(radius as int),
        r@.len() < u32::MAX,
{
    let ri = radius as i32;
    let side = 2 * ri + 1;
    let mut offsets: Vec<(i32, i32)> = Vec::new();
    let mut dy: i32 = -ri;
    assert((dy + ri) * side == 0) by (nonlinear_arith)
        requires dy == -ri;
    while dy <= ri
        invariant
            ri == radius,
            radius <= MAX_SEARCH_RADIUS,
            side == 2 * ri + 1,
            -ri <= dy <= ri + 1,
            offsets@ == square_offsets_upto(ri as int, (dy + ri) * side),
        decreases ri + 1 - dy,
    {
        let mut dx: i32 = -ri;
        while dx <= ri
            invariant
                ri == radius,
                radius <= MAX_SEARCH_RADIUS,
                side == 2 * ri + 1,
                -ri <= dy <= ri,
                -ri <= dx <= ri + 1,
                offsets@ == square_offsets_upto(ri as int, (dy + ri) * side + (dx + ri)),
            decreases ri + 1 - dx,
        {
            let ghost k = (dy + ri) * side + (dx + ri);
            proof {
                assert(k % (side as int) == dx + ri && k / (side as int) == dy + ri) by (nonlinear_arith)
                    requires k == (dy + ri) * side + (dx + ri), 0 <= dx + ri < side, 0 <= dy + ri;
            }
            if !(dx == 0 && dy == 0) {
                offsets.push((dx, dy));
            }
            dx += 1;
        }
        proof {
            assert((dy + ri) * side + (ri + 1 + ri) == (dy + 1 + ri) * side) by (nonlinear_arith)
                requires side == 2 * ri + 1;
        }
        dy += 1;
    }
    proof {
        assert((ri + 1 + ri) * side == (2 * ri + 1) * (2 * ri + 1));
        lemma_square_offsets_upto_len(ri as int, (2 * ri + 1) * (2 * ri + 1));
        assert((2 * ri + 1) * (2 * ri + 1) <= 32769 * 32769) by (nonlinear_arith)
            requires 0 <= ri <= 16384;
    }
    offsets
}

proof fn lemma_square_offsets_upto_len(r: int, k: int)
    ensures
        square_offsets_upto(r, k).len() <= if k < 0 { 0 } else { k },
    decreases k,
{
    if k > 0 {
        lemma_square_offsets_upto_len(r, k - 1);
    }
}

/// The solid cells of the square of side `2 * radius + 1` around `(x, y)`,
/// the cell itself left out, clipped to the grid.
pub fn get_neighboring_wall_tile_count_within_radius_square(x: usize, y: usize, img: &UMap8, radius: u32) -> (r: u64)
    requires
        is_square(img@, img@.len() as nat),
        img@.len() < u32::MAX,
        x < img@.len(),
        y < img@.len(),
        radius <= MAX_SEARCH_RADIUS,
    ensures
        r == neighbour_sum(rows_of(img@), x as int, y as int, square_offsets_of(radius as int)),
{
    let offsets = precompute_square_offsets(radius);
    get_neighboring_wall_tile_count_within_radius_circle(x, y, img, &offsets)
}

/// The solid cells among the four orthogonal neighbours of `(x, y)`.
pub fn get_neighboring_wall_tile_count_horizontal_and_vertical(x: usize, y: usize, img: &UMap8) -> (r: u64)
    requires
        is_square(img@, img@.len() as nat),
        img@.len() < u32::MAX,
        x < img@.len(),
        y < img@.len(),
    ensures
        r == neighbour_sum(rows_of(img@), x as int, y as int, seq![(-1i32, 0i32), (1i32, 0i32), (0i32, -1i32), (0i32, 1i32)]),
{
    let offsets: Vec<(i32, i32)> = vec![(-1, 0), (1, 0), (0, -1), (0, 1)];
    assert(offsets@ =~= seq![(-1i32, 0i32), (1i32, 0i32), (0i32, -1i32), (0i32, 1i32)]);
    get_neighboring_wall_tile_count_within_radius_circle(x, y, img, &offsets)
}

/// The solid cells among the eight surrounding cells of `(x, y)`.
pub fn get_neighboring_wall_tile_count_diagonal(x: usize, y: usize, img: &UMap8) -> (r: u64)
    requires
        is_square(img@, img@.len() as nat),
        img@.len() < u32::MAX,
        x < img@.len(),
        y < img@.len(),
    ensures
        r == neighbour_sum(rows_of(img@), x as int, y as int, square_offsets_of(1)),
{
    get_neighboring_wall_tile_count_within_radius_square(x, y, img, 1)
}

/// Whether cell `(x, y)` becomes empty in the next generation.
pub fn decision(
    x: usize,
    y: usize,
    img: &UMap8,
    bias: &Vec<Vec<i32>>,
    rules: &CaRules,
    circle_offsets: &Vec<(i32, i32)>,
) -> (r: bool)
    requires
        is_square(img@, img@.len() as nat),
        is_square(bias@, img@.len() as nat),
        img@.len() < u32::MAX,
        circle_offsets@.len() < u32::MAX,
        x < img@.len(),
        y < img@.len(),
    ensures
        r == (neighbour_sum(rows_of(img@), x as int, y as int, circle_offsets@) > biased_threshold(
            bias@,
            *rules,
            x as int,
            y as int,
        )),
{
    let count = get_neighboring_wall_tile_count_within_radius_circle(x, y, img, circle_offsets);
    let b = bias[x][y] as i64;
    assert(-0x8000_0000 * 0x8000_0000 <= b * rules.misc <= 0x8000_0000 * 0x8000_0000) by (nonlinear_arith)
        requires -0x8000_0000 <= b <= 0x7fff_ffff, -0x8000_0000 <= rules.misc <= 0x7fff_ffff;
    let thresh: i64 = rules.threshold as i64 + b * rules.misc as i64;
    count as i128 > thresh as i128
}

/// One synchronous generation into a fresh grid.
fn step(img: &UMap8, bias: &Vec<Vec<i32>>, rules: &CaRules, circle_offsets: &Vec<(i32, i32)>) -> (r: UMap8)
    requires
        is_square(img@, img@.len() as nat),
        is_square(bias@, img@.len() as nat),
        img@.len() < u32::MAX,
        circle_offsets@ == circle_offsets_of(rules.search_radius as int),
        circle_offsets@.len() < u32::MAX,
    ensures
        is_square(r@, img@.len() as nat),
        rows_of(r@) == ca_step(rows_of(img@), bias@, *rules),
{
    let n = img.len();
    let mut out: UMap8 = Vec::new();
    let mut x: usize = 0;
    while x < n
        invariant
            n == img@.len(),
            is_square(img@, n as nat),
            is_square(bias@, n as nat),
            n < u32::MAX,
            circle_offsets@ == circle_offsets_of(rules.search_radius as int),
            circle_offsets@.len() < u32::MAX,
            x <= n,
            out@.len() == x,
            forall|i: int| 0 <= i < x ==> (#[trigger] out@[i])@ == ca_step(rows_of(img@), bias@, *rules)[i],
        decreases n - x,
    {
        let mut row: Vec<u8> = Vec::new();
        let mut y: usize = 0;
        while y < n
            invariant
                n == img@.len(),
                is_square(img@, n as nat),
                is_square(bias@, n as nat),
                n < u32::MAX,
                circle_offsets@ == circle_offsets_of(rules.search_radius as int),
                circle_offsets@.len() < u32::MAX,
                x < n,
                y <= n,
                row@.len() == y,
                forall|j: int| 0 <= j < y ==> #[trigger] row@[j] == next_cell(rows_of(img@), bias@, *rules, x as int, j),
            decreases n - y,
        {
            let d = decision(x, y, img, bias, rules, circle_offsets);
            row.push(if d { 0 } else { 1 });
            y += 1;
        }
        assert(row@ =~= ca_step(rows_of(img@), bias@, *rules)[x as int]);
        out.push(row);
        x += 1;
    }
    assert(rows_of(out@) =~= ca_step(rows_of(img@), bias@, *rules));
    out
}

/// Replaces every 0 by 1 and every other value by 0.
fn invert_grid(img: &mut UMap8)
    requires
        is_square(old(img)@, old(img)@.len() as nat),
    ensures
        is_square(final(img)@, old(img)@.len() as nat),
        rows_of(final(img)@) == inverted(rows_of(old(img)@)),
{
    let n = img.len();
    let ghost g0 = rows_of(img@);
    let mut x: usize = 0;
    while x < n
        invariant
            n == img@.len(),
            is_square(img@, n as nat),
            g0 == rows_of(old(img)@),
            g0.len() == n,
            forall|i: int| 0 <= i < n ==> (#[trigger] g0[i]).len() == n,
            x <= n,
            forall|i: int| 0 <= i < x ==> (#[trigger] img@[i])@ == inverted(g0)[i],
            forall|i: int| x <= i < n ==> (#[trigger] img@[i])@ == g0[i],
        decreases n - x,
    {
        let mut y: usize = 0;
        while y < n
            invariant
                n == img@.len(),
                is_square(img@, n as nat),
                g0 == rows_of(old(img)@),
                g0.len() == n,
                forall|i: int| 0 <= i < n ==> (#[trigger] g0[i]).len() == n,
                x < n,
                y <= n,
                forall|i: int| 0 <= i < x ==> (#[trigger] img@[i])@ == inverted(g0)[i],
                forall|i: int| x < i < n ==> (#[trigger] img@[i])@ == g0[i],
                forall|j: int| 0 <= j < y ==> #[trigger] img@[x as int]@[j] == inverted(g0)[x as int][j],
                forall|j: int| y <= j < n ==> #[trigger] img@[x as int]@[j] == g0[x as int][j],
            decreases n - y,
        {
            let v = img[x][y];
            img[x].set(y, if v == 0 { 1 } else { 0 });
            y += 1;
        }
        assert(img@[x as int]@ =~= inverted(g0)[x as int]);
        x += 1;
    }
    assert(rows_of(img@) =~= inverted(g0));
}

/// Runs the cave automaton on `init`: the requested number of generations
/// rounded up to even, each computed from the previous grid alone, then the
/// optional inversion.
pub fn simulate(init: UMap8, bias: &Vec<Vec<i32>>, rules: &CaRules) -> (r: UMap8)
    requires
        is_square(init@, init@.len() as nat),
        is_square(bias@, init@.len() as nat),
        init@.len() < u32::MAX,
        rules.search_radius <= MAX_SEARCH_RADIUS,
    ensures
        is_square(r@, init@.len() as nat),
        !rules.invert ==> rows_of(r@) == ca_run(rows_of(init@), bias@, *rules, even_iterations(rules.iterations)),
        rules.invert ==> rows_of(r@) == inverted(ca_run(rows_of(init@), bias@, *rules, even_iterations(rules.iterations))),
        even_iterations(rules.iterations) > 0 || rules.invert || binary_seq(rows_of(init@)) ==> binary_seq(rows_of(r@)),
{
    let iters: u64 = if rules.iterations % 2 != 0 { rules.iterations as u64 + 1 } else { rules.iterations as u64 };
    let offsets = precompute_circle_offsets(rules.search_radius);
    proof {
        lemma_circle_offsets_len(rules.search_radius as int);
    }
    let mut map = init;
    let mut i: u64 = 0;
    while i < iters
        invariant
            is_square(map@, init@.len() as nat),
            is_square(bias@, init@.len() as nat),
            init@.len() < u32::MAX,
            offsets@ == circle_offsets_of(rules.search_radius as int),
            offsets@.len() < u32::MAX,
            i <= iters,
            iters == even_iterations(rules.iterations),
            rows_of(map@) == ca_run(rows_of(init@), bias@, *rules, i as nat),
        decreases iters - i,
    {
        map = step(&map, bias, rules, &offsets);
        i += 1;
    }
    proof {
        lemma_outputs_binary(rows_of(init@), bias@, *rules, iters as nat);
        lemma_outputs_binary(rows_of(map@), bias@, *rules, 0);
    }
    if rules.invert {
        invert_grid(&mut map);
    }
    map
}

/// The automaton is deterministic: two grids that both meet `simulate`'s
/// contract for the same start grid, bias and rules are equal cell for cell.
pub proof fn lemma_simulate_deterministic(
    init: Seq<Vec<u8>>,
    bias: Seq<Vec<i32>>,
    rules: CaRules,
    r1: Seq<Vec<u8>>,
    r2: Seq<Vec<u8>>,
)
    requires
        !rules.invert ==> rows_of(r1) == ca_run(rows_of(init), bias, rules, even_iterations(rules.iterations)),
        rules.invert ==> rows_of(r1) == inverted(ca_run(rows_of(init), bias, rules, even_iterations(rules.iterations))),
        !rules.invert ==> rows_of(r2) == ca_run(rows_of(init), bias, rules, even_iterations(rules.iterations)),
        rules.invert ==> rows_of(r2) == inverted(ca_run(rows_of(init), bias, rules, even_iterations(rules.iterations))),
    ensures
        r1.len() == r2.len(),
        forall|x: int| 0 <= x < r1.len() ==> (#[trigger] r1[x])@ == r2[x]@,
{
    assert(rows_of(r1).len() == rows_of(r2).len());
    assert forall|x: int| 0 <= x < r1.len() implies (#[trigger] r1[x])@ == r2[x]@ by {
        assert(rows_of(r1)[x] == rows_of(r2)[x]);
    }
}

proof fn lemma_circle_offsets_upto_len(r: int, k: int)
    ensures
        circle_offsets_upto(r, k).len() <= if k < 0 { 0 } else { k },
    decreases k,
{
    if k > 0 {
        lemma_circle_offsets_upto_len(r, k - 1);
    }
}

proof fn lemma_circle_offsets_len(r: int)
    requires
        0 <= r <= 16384,
    ensures
        circle_offsets_of(r).len() < u32::MAX,
{
    lemma_circle_offsets_upto_len(r, (2 * r + 1) * (2 * r + 1));
    assert((2 * r + 1) * (2 * r + 1) <= 32769 * 32769) by (nonlinear_arith)
        requires 0 <= r <= 16384;
}

} // verus!
