use vstd::prelude::*;

verus! {

/// A square grid of occupancy values (0 = void, 1 = solid).
pub type UMap8 = Vec<Vec<u8>>;

/// A square grid of 16-bit values.
pub type UMap16 = Vec<Vec<u16>>;

/// `g` is a `r x r` grid.
pub open spec fn is_square<T>(g: Seq<Vec<T>>, r: nat) -> bool {
    &&& g.len() == r
    &&& forall|i: int| 0 <= i < r ==> (#[trigger] g[i]).len() == r
}

/// The value of a grid at `(x, y)`.
pub open spec fn cell<T>(g: Seq<Vec<T>>, x: int, y: int) -> T {
    g[x]@[y]
}

/// A grid cell position.
#[derive(Clone, Copy, Debug, PartialEq, Eq, Hash, Structural)]
pub struct Coord {
    pub x: usize,
    pub y: usize,
}

/// `v` moved by `d` and clamped at zero.
pub open spec fn clamped_add(v: usize, d: int) -> int {
    if v + d < 0 { 0 } else { v + d }
}

impl Coord {
    /// The coordinate moved by a signed offset, each component clamped at zero.
    pub open spec fn offset_spec(self, dx: int, dy: int) -> Coord {
        Coord { x: clamped_add(self.x, dx) as usize, y: clamped_add(self.y, dy) as usize }
    }

    pub fn default() -> (r: Coord)
        ensures
            r == (Coord { x: 0, y: 0 }),
    {
        Coord { x: 0, y: 0 }
    }

    /// The upper sentinel of a bounding-box reduction.
    pub fn max() -> (r: Coord)
        ensures
            r == (Coord { x: usize::MAX, y: usize::MAX }),
    {
        Coord { x: usize::MAX, y: usize::MAX }
    }

    /// The lower sentinel of a bounding-box reduction.
    pub fn min() -> (r: Coord)
        ensures
            r == (Coord { x: 0, y: 0 }),
    {
        Coord { x: 0, y: 0 }
    }

    /// Adds a signed offset, clamping each component at zero.
    pub fn offset(self, dx: i32, dy: i32) -> (r: Coord)
        requires
            self.x + dx <= usize::MAX,
            self.y + dy <= usize::MAX,
        ensures
            r == self.offset_spec(dx as int, dy as int),
    {
        let x = if dx < 0 {
            let d = (0i64 - dx as i64) as usize;
            if self.x < d { 0 } else { self.x - d }
        } else {
            self.x + dx as usize
        };
        let y = if dy < 0 {
            let d = (0i64 - dy as i64) as usize;
            if self.y < d { 0 } else { self.y - d }
        } else {
            self.y + dy as usize
        };
        Coord { x, y }
    }

    /// Adds an unsigned offset.
    pub fn shift(self, dx: usize, dy: usize) -> (r: Coord)
        requires
            self.x + dx <= usize::MAX,
            self.y + dy <= usize::MAX,
        ensures
            r == (Coord { x: (self.x + dx) as usize, y: (self.y + dy) as usize }),
    {
        Coord { x: self.x + dx, y: self.y + dy }
    }
}

/// `v + d` clamped to `[0, usize::MAX]`.
pub open spec fn saturating_offset(v: usize, d: int) -> usize {
    if v + d < 0 {
        0
    } else if v + d > usize::MAX {
        usize::MAX
    } else {
        (v + d) as usize
    }
}

/// Moves `v` by `d`, clamping at zero and at `usize::MAX`.
pub fn offset_component(v: usize, d: i32) -> (r: usize)
    ensures
        r == saturating_offset(v, d as int),
{
    if d < 0 {
        let m = (0i64 - d as i64) as usize;
        if v < m { 0 } else { v - m }
    } else {
        let m = d as usize;
        if v > usize::MAX - m { usize::MAX } else { v + m }
    }
}

impl core::ops::Add<(i32, i32)> for Coord {
    type Output = Coord;

    /// Adds a signed offset, each component clamped at zero (and at `usize::MAX`).
    fn add(self, other: (i32, i32)) -> Coord {
        Coord { x: offset_component(self.x, other.0), y: offset_component(self.y, other.1) }
    }
}

impl vstd::std_specs::ops::AddSpecImpl<(i32, i32)> for Coord {
    open spec fn obeys_add_spec() -> bool {
        true
    }

    open spec fn add_req(self, rhs: (i32, i32)) -> bool {
        true
    }

    open spec fn add_spec(self, rhs: (i32, i32)) -> Coord {
        Coord {
            x: saturating_offset(self.x, rhs.0 as int),
            y: saturating_offset(self.y, rhs.1 as int),
        }
    }
}

/// Grids that can be created filled with their zero value.
pub trait Blank: Sized {
    /// `self` is a `resolution x resolution` grid of zeros.
    spec fn is_blank(&self, resolution: nat) -> bool;

    fn blank(resolution: usize) -> (r: Self)
        ensures
            r.is_blank(resolution as nat),
    ;
}

/// A row of `n` copies of `v`.
pub fn filled_row<T: Copy>(n: usize, v: T) -> (r: Vec<T>)
    ensures
        r@ == Seq::new(n as nat, |i: int| v),
{
    let mut row: Vec<T> = Vec::new();
    let mut i: usize = 0;
    while i < n
        invariant
            i <= n,
            row@ == Seq::new(i as nat, |k: int| v),
        decreases n - i,
    {
        row.push(v);
        i += 1;
        assert(row@ =~= Seq::new(i as nat, |k: int| v));
    }
    row
}

/// A `n x n` grid filled with `v`.
pub fn filled_grid<T: Copy>(n: usize, v: T) -> (g: Vec<Vec<T>>)
    ensures
        is_square(g@, n as nat),
        forall|x: int, y: int| 0 <= x < n && 0 <= y < n ==> #[trigger] cell(g@, x, y) == v,
{
    let mut g: Vec<Vec<T>> = Vec::new();
    let mut i: usize = 0;
    while i < n
        invariant
            i <= n,
            g.len() == i,
            forall|k: int| 0 <= k < i ==> (#[trigger] g@[k])@ == Seq::new(n as nat, |j: int| v),
        decreases n - i,
    {
        let row = filled_row(n, v);
        g.push(row);
        i += 1;
    }
    g
}

impl Blank for Vec<Vec<u8>> {
    open spec fn is_blank(&self, resolution: nat) -> bool {
        &&& is_square(self@, resolution)
        &&& forall|x: int, y: int|
            0 <= x < resolution && 0 <= y < resolution ==> #[trigger] cell(self@, x, y) == 0u8
    }

    fn blank(resolution: usize) -> (r: Self) {
        filled_grid(resolution, 0u8)
    }
}

impl Blank for Vec<Vec<u16>> {
    open spec fn is_blank(&self, resolution: nat) -> bool {
        &&& is_square(self@, resolution)
        &&& forall|x: int, y: int|
            0 <= x < resolution && 0 <= y < resolution ==> #[trigger] cell(self@, x, y) == 0u16
    }

    fn blank(resolution: usize) -> (r: Self) {
        filled_grid(resolution, 0u16)
    }
}

} // verus!
