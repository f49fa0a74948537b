use crate::types::{cell, is_square, UMap16};
use vstd::prelude::*;

verus! {

/// The iso level at which contours are traced, between 0 and full brightness.
pub const CONTOUR_THRESHOLD: i16 = 125;

/// The smallest side a generated grid may have.
pub const MIN_RESOLUTION: u32 = 8;

/// The grid side actually used: the requested one, raised to at least 8.
pub fn effective_resolution(requested: u32) -> (r: u32)
    ensures
        r == if requested < MIN_RESOLUTION { MIN_RESOLUTION } else { requested },
{
    if requested < MIN_RESOLUTION {
        MIN_RESOLUTION
    } else {
        requested
    }
}

/// Why a grid cannot be traced.
#[derive(Clone, Copy, Debug, PartialEq, Eq, Structural)]
pub enum ContourError {
    /// The grid has no cells.
    Empty,
}

/// The brightness of a pixel: the mean of its colour channels, rounded down.
pub fn gray_level(red: u8, green: u8, blue: u8) -> (r: i16)
    ensures
        r == (red + green + blue) / 3,
{
    ((red as u16 + green as u16 + blue as u16) / 3) as i16
}

/// The field that contours are traced over: each cell of an occupancy grid
/// scaled to full brightness (0 or 255 for a binary grid). An empty grid is
/// refused.
pub fn contour_field(map: &UMap16) -> (r: Result<Vec<Vec<i16>>, ContourError>)
    requires
        is_square(map@, map@.len() as nat),
        forall|x: int, y: int|
            0 <= x < map@.len() && 0 <= y < map@.len() ==> #[trigger] cell(map@, x, y) <= 128,
    ensures
        map@.len() == 0 <==> r == Err::<Vec<Vec<i16>>, ContourError>(ContourError::Empty),
        r.is_ok() ==> is_square(r.unwrap()@, map@.len() as nat),
        r.is_ok() ==> forall|x: int, y: int|
            0 <= x < map@.len() && 0 <= y < map@.len() ==> #[trigger] cell(r.unwrap()@, x, y) == cell(map@, x, y) * 255,
{
    let n = map.len();
    if n == 0 {
        return Err(ContourError::Empty);
    }
    let mut out: Vec<Vec<i16>> = Vec::new();
    let mut x: usize = 0;
    while x < n
        invariant
            n == map@.len(),
            is_square(map@, n as nat),
            forall|a: int, b: int| 0 <= a < n && 0 <= b < n ==> #[trigger] cell(map@, a, b) <= 128,
            x <= n,
            out@.len() == x,
            forall|i: int| 0 <= i < x ==> (#[trigger] out@[i])@.len() == n,
            forall|i: int, j: int| 0 <= i < x && 0 <= j < n ==> #[trigger] cell(out@, i, j) == cell(map@, i, j) * 255,
        decreases n - x,
    {
        let mut row: Vec<i16> = Vec::new();
        let mut y: usize = 0;
        while y < n
            invariant
                n == map@.len(),
                is_square(map@, n as nat),
                forall|a: int, b: int| 0 <= a < n && 0 <= b < n ==> #[trigger] cell(map@, a, b) <= 128,
                x < n,
                y <= n,
                row@.len() == y,
                forall|j: int| 0 <= j < y ==> #[trigger] row@[j] == cell(map@, x as int, j) * 255,
            decreases n - y,
        {
            let v = map[x][y];
            assert(cell(map@, x as int, y as int) <= 128);
            row.push(v as i16 * 255);
            y += 1;
        }
        let ghost prev = out@;
        let ghost rv = row@;
        out.push(row);
        assert forall|i: int, j: int| 0 <= i <= x && 0 <= j < n implies #[trigger] cell(out@, i, j) == cell(map@, i, j) * 255 by {
            if i < x {
                assert(out@[i] == prev[i]);
                assert(cell(prev, i, j) == cell(out@, i, j));
            } else {
                assert(rv[j] == cell(out@, i, j));
            }
        }
        x += 1;
    }
    Ok(out)
}

} // verus!
