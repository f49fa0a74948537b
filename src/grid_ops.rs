use crate::types::{cell, is_square, Coord, UMap8};
use vstd::prelude::*;

verus! {

/// Every cell of `g` is 0 or 1.
pub open spec fn is_binary(g: Seq<Vec<u8>>) -> bool {
    forall|x: int, y: int|
        0 <= x < g.len() && 0 <= y < g[x]@.len() ==> #[trigger] cell(g, x, y) == 0 || cell(g, x, y) == 1
}

/// The final mask value of a cell: deep cells keep the landmass value; the
/// others lose it where the cave grid is solid.
pub open spec fn thresh_sub_cell(cave: u8, land: u8, deep: bool) -> u8 {
    if deep {
        land
    } else if cave == 1 {
        0
    } else {
        land
    }
}

/// Subtracts the cave grid from the landmass grid, except in the cells that
/// `deep` marks (those whose depth lies above the crust threshold).
pub fn thresh_sub(this: &UMap8, from: &UMap8, deep: &Vec<Vec<bool>>) -> (r: UMap8)
    requires
        is_square(from@, from@.len() as nat),
        is_square(this@, from@.len() as nat),
        is_square(deep@, from@.len() as nat),
    ensures
        is_square(r@, from@.len() as nat),
        forall|x: int, y: int|
            0 <= x < from@.len() && 0 <= y < from@.len() ==> #[trigger] cell(r@, x, y) == thresh_sub_cell(
                cell(this@, x, y),
                cell(from@, x, y),
                cell(deep@, x, y),
            ),
{
    let n = from.len();
    let mut out: UMap8 = Vec::new();
    let mut x: usize = 0;
    while x < n
        invariant
            n == from@.len(),
            is_square(from@, n as nat),
            is_square(this@, n as nat),
            is_square(deep@, n as nat),
            x <= n,
            out@.len() == x,
            forall|i: int| 0 <= i < x ==> (#[trigger] out@[i])@.len() == n,
            forall|i: int, j: int|
                0 <= i < x && 0 <= j < n ==> #[trigger] cell(out@, i, j) == thresh_sub_cell(
                    cell(this@, i, j),
                    cell(from@, i, j),
                    cell(deep@, i, j),
                ),
        decreases n - x,
    {
        let mut row: Vec<u8> = Vec::new();
        let mut y: usize = 0;
        while y < n
            invariant
                n == from@.len(),
                is_square(from@, n as nat),
                is_square(this@, n as nat),
                is_square(deep@, n as nat),
                x < n,
                y <= n,
                row@.len() == y,
                forall|j: int|
                    0 <= j < y ==> #[trigger] row@[j] == thresh_sub_cell(
                        cell(this@, x as int, j),
                        cell(from@, x as int, j),
                        cell(deep@, x as int, j),
                    ),
            decreases n - y,
        {
            let val = from[x][y];
            let v = if deep[x][y] {
                val
            } else if this[x][y] == 1 {
                0
            } else {
                val
            };
            row.push(v);
            y += 1;
        }
        let ghost prev = out@;
        let ghost rv = row@;
        out.push(row);
        assert forall|i: int, j: int| 0 <= i <= x && 0 <= j < n implies #[trigger] cell(out@, i, j)
            == thresh_sub_cell(cell(this@, i, j), cell(from@, i, j), cell(deep@, i, j)) by {
            if i < x {
                assert(out@[i] == prev[i]);
                assert(cell(prev, i, j) == cell(out@, i, j));
            } else {
                assert(rv[j] == cell(out@, i, j));
            }
        }
        x += 1;
    }
    out
}

/// The cell-wise product of two grids of the same side.
pub fn mult(this: &UMap8, from: &UMap8) -> (r: UMap8)
    requires
        is_square(from@, from@.len() as nat),
        is_square(this@, from@.len() as nat),
        is_binary(this@),
    ensures
        is_square(r@, from@.len() as nat),
        forall|x: int, y: int|
            0 <= x < from@.len() && 0 <= y < from@.len() ==> #[trigger] cell(r@, x, y) == cell(from@, x, y)
                * cell(this@, x, y),
{
    let n = from.len();
    let mut out: UMap8 = Vec::new();
    let mut x: usize = 0;
    while x < n
        invariant
            n == from@.len(),
            is_square(from@, n as nat),
            is_square(this@, n as nat),
            is_binary(this@),
            x <= n,
            out@.len() == x,
            forall|i: int| 0 <= i < x ==> (#[trigger] out@[i])@.len() == n,
            forall|i: int, j: int|
                0 <= i < x && 0 <= j < n ==> #[trigger] cell(out@, i, j) == cell(from@, i, j) * cell(this@, i, j),
        decreases n - x,
    {
        let mut row: Vec<u8> = Vec::new();
        let mut y: usize = 0;
        while y < n
            invariant
                n == from@.len(),
                is_square(from@, n as nat),
                is_square(this@, n as nat),
                is_binary(this@),
                x < n,
                y <= n,
                row@.len() == y,
                forall|j: int| 0 <= j < y ==> #[trigger] row@[j] == cell(from@, x as int, j) * cell(this@, x as int, j),
            decreases n - y,
        {
            let a = from[x][y];
            let b = this[x][y];
            assert(cell(this@, x as int, y as int) == 0 || cell(this@, x as int, y as int) == 1);
            row.push(a * b);
            y += 1;
        }
        let ghost prev = out@;
        let ghost rv = row@;
        out.push(row);
        assert forall|i: int, j: int| 0 <= i <= x && 0 <= j < n implies #[trigger] cell(out@, i, j)
            == cell(from@, i, j) * cell(this@, i, j) by {
            if i < x {
                assert(out@[i] == prev[i]);
                assert(cell(prev, i, j) == cell(out@, i, j));
            } else {
                assert(rv[j] == cell(out@, i, j));
            }
        }
        x += 1;
    }
    out
}

/// `v + d` clamped to `[0, n - 1]`.
pub open spec fn clamp_index(v: int, d: int, n: int) -> int {
    if v + d < 0 {
        0
    } else if v + d > n - 1 {
        n - 1
    } else {
        v + d
    }
}

/// Moves every cell by its own offset: the result at `(x, y)` is the source
/// cell at `(x + dx, y + dy)`, each coordinate clamped to the grid.
pub fn displace(map: &UMap8, offsets: &Vec<Vec<(i32, i32)>>) -> (r: UMap8)
    requires
        is_square(map@, map@.len() as nat),
        is_square(offsets@, map@.len() as nat),
        map@.len() < u32::MAX,
    ensures
        is_square(r@, map@.len() as nat),
        forall|x: int, y: int|
            0 <= x < map@.len() && 0 <= y < map@.len() ==> #[trigger] cell(r@, x, y) == cell(
                map@,
                clamp_index(x, cell(offsets@, x, y).0 as int, map@.len() as int),
                clamp_index(y, cell(offsets@, x, y).1 as int, map@.len() as int),
            ),
{
    let n = map.len();
    let mut out: UMap8 = Vec::new();
    let mut x: usize = 0;
    while x < n
        invariant
            n == map@.len(),
            n < u32::MAX,
            is_square(map@, n as nat),
            is_square(offsets@, n as nat),
            x <= n,
            out@.len() == x,
            forall|i: int| 0 <= i < x ==> (#[trigger] out@[i])@.len() == n,
            forall|i: int, j: int|
                0 <= i < x && 0 <= j < n ==> #[trigger] cell(out@, i, j) == cell(
                    map@,
                    clamp_index(i, cell(offsets@, i, j).0 as int, n as int),
                    clamp_index(j, cell(offsets@, i, j).1 as int, n as int),
                ),
        decreases n - x,
    {
        let mut row: Vec<u8> = Vec::new();
        let mut y: usize = 0;
        while y < n
            invariant
                n == map@.len(),
                n < u32::MAX,
                is_square(map@, n as nat),
                is_square(offsets@, n as nat),
                x < n,
                y <= n,
                row@.len() == y,
                forall|j: int|
                    0 <= j < y ==> #[trigger] row@[j] == cell(
                        map@,
                        clamp_index(x as int, cell(offsets@, x as int, j).0 as int, n as int),
                        clamp_index(j, cell(offsets@, x as int, j).1 as int, n as int),
                    ),
            decreases n - y,
        {
            let (dx, dy) = offsets[x][y];
            let top = n as i64 - 1;
            let mut nx = x as i64 + dx as i64;
            if nx < 0 {
                nx = 0;
            } else if nx > top {
                nx = top;
            }
            let mut ny = y as i64 + dy as i64;
            if ny < 0 {
                ny = 0;
            } else if ny > top {
                ny = top;
            }
            row.push(map[nx as usize][ny as usize]);
            y += 1;
        }
        let ghost prev = out@;
        let ghost rv = row@;
        out.push(row);
        assert forall|i: int, j: int| 0 <= i <= x && 0 <= j < n implies #[trigger] cell(out@, i, j) == cell(
            map@,
            clamp_index(i, cell(offsets@, i, j).0 as int, n as int),
            clamp_index(j, cell(offsets@, i, j).1 as int, n as int),
        ) by {
            if i < x {
                assert(out@[i] == prev[i]);
                assert(cell(prev, i, j) == cell(out@, i, j));
            } else {
                assert(rv[j] == cell(out@, i, j));
            }
        }
        x += 1;
    }
    out
}

/// A solid cell with an in-bounds 4-neighbour that is void.
pub open spec fn is_surface(g: Seq<Vec<u8>>, x: int, y: int) -> bool {
    let n = g.len() as int;
    &&& cell(g, x, y) != 0
    &&& (x > 0 && cell(g, x - 1, y) == 0) || (x < n - 1 && cell(g, x + 1, y) == 0) || (y > 0 && cell(
        g,
        x,
        y - 1,
    ) == 0) || (y < n - 1 && cell(g, x, y + 1) == 0)
}

/// Whether `(x, y)` is a surface cell of the grid.
pub fn check_neighbors_horizonatl_or_vertical(x: usize, y: usize, map: &UMap8) -> (r: bool)
    requires
        is_square(map@, map@.len() as nat),
        x < map@.len(),
        y < map@.len(),
    ensures
        r == is_surface(map@, x as int, y as int),
{
    if map[x][y] == 0 {
        return false;
    }
    if x > 0 && map[x - 1][y] == 0 {
        return true;
    }
    if x < map.len() - 1 && map[x + 1][y] == 0 {
        return true;
    }
    if y > 0 && map[x][y - 1] == 0 {
        return true;
    }
    if y < map.len() - 1 && map[x][y + 1] == 0 {
        return true;
    }
    false
}

/// The position of `c` in column-major scan order of a `n x n` grid.
pub open spec fn scan_key(c: Coord, n: int) -> int {
    c.x * n + c.y
}

/// The surface cells of a grid, in scan order (by x, then by y).
pub fn get_surface(map: &UMap8) -> (r: Vec<Coord>)
    requires
        is_square(map@, map@.len() as nat),
    ensures
        forall|c: Coord|
            #[trigger] r@.contains(c) <==> (c.x < map@.len() && c.y < map@.len() && is_surface(
                map@,
                c.x as int,
                c.y as int,
            )),
        forall|i: int, j: int|
            0 <= i < j < r@.len() ==> scan_key(#[trigger] r@[i], map@.len() as int) < scan_key(
                #[trigger] r@[j],
                map@.len() as int,
            ),
{
    let n = map.len();
    let mut out: Vec<Coord> = Vec::new();
    let mut x: usize = 0;
    while x < n
        invariant
            n == map@.len(),
            is_square(map@, n as nat),
            x <= n,
            forall|c: Coord|
                #[trigger] out@.contains(c) <==> (c.x < x && c.y < n && is_surface(map@, c.x as int, c.y as int)),
            forall|i: int, j: int|
                0 <= i < j < out@.len() ==> scan_key(#[trigger] out@[i], n as int) < scan_key(#[trigger] out@[j], n as int),
            forall|i: int| 0 <= i < out@.len() ==> scan_key(#[trigger] out@[i], n as int) < x * n,
        decreases n - x,
    {
        let mut y: usize = 0;
        while y < n
            invariant
                n == map@.len(),
                is_square(map@, n as nat),
                x < n,
                y <= n,
                forall|c: Coord|
                    #[trigger] out@.contains(c) <==> ((c.x < x && c.y < n) || (c.x == x && c.y < y)) && is_surface(
                        map@,
                        c.x as int,
                        c.y as int,
                    ),
                forall|i: int, j: int|
                    0 <= i < j < out@.len() ==> scan_key(#[trigger] out@[i], n as int) < scan_key(#[trigger] out@[j], n as int),
                forall|i: int| 0 <= i < out@.len() ==> scan_key(#[trigger] out@[i], n as int) < x * n + y,
            decreases n - y,
        {
            if check_neighbors_horizonatl_or_vertical(x, y, map) {
                let c = Coord { x, y };
                let ghost prev = out@;
                out.push(c);
                assert forall|d: Coord| #[trigger] out@.contains(d) <==> ((d.x < x && d.y < n) || (d.x == x && d.y < y + 1))
                    && is_surface(map@, d.x as int, d.y as int) by {
                    if d == c {
                        assert(out@[prev.len() as int] == d);
                    } else if out@.contains(d) {
                        let k = choose|k: int| 0 <= k < out@.len() && out@[k] == d;
                        assert(prev[k] == d);
                        assert(prev.contains(d));
                    } else if prev.contains(d) {
                        let k = choose|k: int| 0 <= k < prev.len() && prev[k] == d;
                        assert(out@[k] == d);
                    }
                }
                assert forall|i: int| 0 <= i < out@.len() implies scan_key(#[trigger] out@[i], n as int) < x * n + y + 1 by {
                    if i < prev.len() {
                        assert(out@[i] == prev[i]);
                    }
                }
            }
            y += 1;
        }
        assert((x + 1) * n == x * n + n) by (nonlinear_arith);
        x += 1;
    }
    out
}

/// The consecutive pairs of a list (as clones); `None` for fewer than two items.
pub fn doubler<T: Clone>(input: Vec<T>) -> (r: Option<Vec<(T, T)>>)
    ensures
        input@.len() < 2 ==> r.is_none(),
        input@.len() >= 2 ==> r.is_some() && r.unwrap()@.len() == input@.len() - 1,
        input@.len() >= 2 ==> forall|k: int|
            0 <= k < input@.len() - 1 ==> cloned(input@[k], (#[trigger] r.unwrap()@[k]).0) && cloned(
                input@[k + 1],
                r.unwrap()@[k].1,
            ),
{
    if input.len() < 2 {
        return None;
    }
    let mut out: Vec<(T, T)> = Vec::new();
    let mut k: usize = 0;
    while k + 1 < input.len()
        invariant
            input@.len() >= 2,
            k + 1 <= input@.len(),
            out@.len() == k,
            forall|i: int|
                0 <= i < k ==> cloned(input@[i], (#[trigger] out@[i]).0) && cloned(input@[i + 1], out@[i].1),
        decreases input.len() - k,
    {
        let a = input[k].clone();
        let b = input[k + 1].clone();
        out.push((a, b));
        k += 1;
    }
    Some(out)
}

/// The sum of the colour channels of a pixel.
pub open spec fn brightness(p: [u8; 4]) -> int {
    p[0] + p[1] + p[2]
}

/// The first pixel of largest brightness; transparent black when no pixel
/// is brighter than black.
pub fn find_brightest_pixel(pixels: &Vec<[u8; 4]>) -> (r: [u8; 4])
    ensures
        (forall|k: int| 0 <= k < pixels@.len() ==> brightness(#[trigger] pixels@[k]) == 0) ==> r == [0u8, 0u8, 0u8, 0u8],
        (exists|k: int| 0 <= k < pixels@.len() && brightness(#[trigger] pixels@[k]) > 0) ==> exists|k: int|
            0 <= k < pixels@.len() && r == pixels@[k] && (forall|j: int|
                0 <= j < pixels@.len() ==> brightness(#[trigger] pixels@[j]) <= brightness(pixels@[k])) && (forall|j: int|
                0 <= j < k ==> brightness(#[trigger] pixels@[j]) < brightness(pixels@[k])),
{
    let mut best: [u8; 4] = [0, 0, 0, 0];
    let mut best_k: usize = 0;
    let mut max_brightness: u32 = 0;
    let mut i: usize = 0;
    while i < pixels.len()
        invariant
            i <= pixels@.len(),
            max_brightness == 0 ==> best == [0u8, 0u8, 0u8, 0u8],
            max_brightness == 0 ==> forall|j: int| 0 <= j < i ==> brightness(#[trigger] pixels@[j]) == 0,
            max_brightness > 0 ==> best_k < i && best == pixels@[best_k as int] && max_brightness == brightness(best),
            forall|j: int| 0 <= j < i ==> brightness(#[trigger] pixels@[j]) <= max_brightness,
            max_brightness > 0 ==> forall|j: int| 0 <= j < best_k ==> brightness(#[trigger] pixels@[j]) < max_brightness,
        decreases pixels.len() - i,
    {
        let p = pixels[i];
        let b = p[0] as u32 + p[1] as u32 + p[2] as u32;
        if b > max_brightness {
            max_brightness = b;
            best = p;
            best_k = i;
        }
        i += 1;
    }
    proof {
        if exists|k: int| 0 <= k < pixels@.len() && brightness(#[trigger] pixels@[k]) > 0 {
            assert(max_brightness > 0);
            assert(best == pixels@[best_k as int]);
        }
    }
    best
}

} // verus!
