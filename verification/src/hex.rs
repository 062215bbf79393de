use vstd::prelude::*;

verus! {

/// The largest coordinate magnitude for which distances are computed without
/// overflowing an `i32`.
pub const MAX_COORD: i32 = 268435455;

/// The largest map radius: the neighbours of every tile on the map still have
/// coordinates whose distances can be computed.
pub const MAX_MAP_RADIUS: i32 = 268435454;

/// A tile of a hexagonal map, in axial coordinates.
#[derive(Clone, Copy, Debug, PartialEq, Eq, Structural)]
pub struct PosHex {
    pub q: i32,
    pub r: i32,
}

/// A number of steps between tiles.
#[derive(Clone, Copy, Debug, PartialEq, Eq, Structural)]
pub struct Distance(pub i32);

pub open spec fn abs(x: int) -> int {
    if x < 0 { -x } else { x }
}

/// Number of steps between two tiles of a hexagonal grid.
pub open spec fn hex_distance(a: PosHex, b: PosHex) -> int {
    (abs(a.q - b.q) + abs(a.r - b.r) + abs((a.q + a.r) - (b.q + b.r))) / 2
}

/// Both coordinates are small enough for distances to be computed.
pub open spec fn coords_in_range(p: PosHex) -> bool {
    -MAX_COORD <= p.q <= MAX_COORD && -MAX_COORD <= p.r <= MAX_COORD
}

pub open spec fn origin() -> PosHex {
    PosHex { q: 0, r: 0 }
}

/// `pos` lies on a map of the given radius centred on the origin.
pub open spec fn on_board(radius: int, pos: PosHex) -> bool {
    hex_distance(origin(), pos) <= radius
}

fn abs_i32(x: i32) -> (r: i32)
    requires
        x > i32::MIN,
    ensures
        r == abs(x as int),
{
    if x < 0 { -x } else { x }
}

/// Number of steps between two tiles.
pub fn distance_hex(a: PosHex, b: PosHex) -> (d: Distance)
    requires
        coords_in_range(a),
        coords_in_range(b),
    ensures
        d.0 == hex_distance(a, b),
{
    let dq = abs_i32(a.q - b.q);
    let dr = abs_i32(a.r - b.r);
    let ds = abs_i32((a.q + a.r) - (b.q + b.r));
    Distance((dq + dr + ds) / 2)
}

/// The six directions from a tile to its neighbours.
#[derive(Clone, Copy, Debug, PartialEq, Eq, Structural)]
pub enum Dir {
    SouthEast,
    East,
    NorthEast,
    NorthWest,
    West,
    SouthWest,
}

/// The step that moves one tile in direction `dir`.
pub open spec fn dir_step(dir: Dir) -> (int, int) {
    match dir {
        Dir::SouthEast => (1, 0),
        Dir::East => (1, -1),
        Dir::NorthEast => (0, -1),
        Dir::NorthWest => (-1, 0),
        Dir::West => (-1, 1),
        Dir::SouthWest => (0, 1),
    }
}

/// The tile next to `pos` in direction `dir`.
pub open spec fn neighbor(pos: PosHex, dir: Dir) -> PosHex {
    PosHex { q: (pos.q + dir_step(dir).0) as i32, r: (pos.r + dir_step(dir).1) as i32 }
}

/// All six directions, in their fixed order.
pub open spec fn all_dirs() -> Seq<Dir> {
    seq![Dir::SouthEast, Dir::East, Dir::NorthEast, Dir::NorthWest, Dir::West, Dir::SouthWest]
}

/// All six directions, in their fixed order.
pub fn dirs() -> (v: Vec<Dir>)
    ensures
        v@ == all_dirs(),
{
    let v = vec![Dir::SouthEast, Dir::East, Dir::NorthEast, Dir::NorthWest, Dir::West, Dir::SouthWest];
    proof {
        assert(v@ =~= all_dirs());
    }
    v
}

impl Dir {
    /// The tile next to `pos` in direction `dir`.
    pub fn get_neighbor_pos(pos: PosHex, dir: Dir) -> (n: PosHex)
        requires
            coords_in_range(pos),
        ensures
            n == neighbor(pos, dir),
    {
        match dir {
            Dir::SouthEast => PosHex { q: pos.q + 1, r: pos.r },
            Dir::East => PosHex { q: pos.q + 1, r: pos.r - 1 },
            Dir::NorthEast => PosHex { q: pos.q, r: pos.r - 1 },
            Dir::NorthWest => PosHex { q: pos.q - 1, r: pos.r },
            Dir::West => PosHex { q: pos.q - 1, r: pos.r + 1 },
            Dir::SouthWest => PosHex { q: pos.q, r: pos.r + 1 },
        }
    }
}

/// Every neighbour is one step away.
pub proof fn lemma_neighbor_distance(pos: PosHex, dir: Dir)
    requires
        coords_in_range(pos),
    ensures
        hex_distance(pos, neighbor(pos, dir)) == 1,
{
}


/// Number of tiles along one axis of the square that holds a map.
pub open spec fn side(radius: int) -> int {
    2 * radius + 1
}

/// The tile in column `qi` and row `ri` of the square that holds a map.
pub open spec fn grid_pos(radius: int, qi: int, ri: int) -> PosHex {
    PosHex { q: (qi - radius) as i32, r: (ri - radius) as i32 }
}

/// The on-board tiles among the first `n` of column `qi`.
pub open spec fn column_tiles(radius: int, qi: int, n: int) -> Seq<PosHex> {
    Seq::new(n as nat, |ri: int| grid_pos(radius, qi, ri)).filter(|p: PosHex| on_board(radius, p))
}

/// The on-board tiles of the first `n` columns, column by column.
pub open spec fn board_columns(radius: int, n: nat) -> Seq<PosHex>
    decreases n,
{
    if n == 0 {
        Seq::empty()
    } else {
        board_columns(radius, (n - 1) as nat) + column_tiles(radius, n - 1, side(radius))
    }
}

/// All tiles of a map of the given radius, in the order in which a map walks them.
pub open spec fn board(radius: int) -> Seq<PosHex> {
    board_columns(radius, side(radius) as nat)
}

proof fn lemma_column_members(radius: int, qi: int, p: PosHex)
    requires
        0 <= radius <= MAX_MAP_RADIUS,
        0 <= qi < side(radius),
    ensures
        column_tiles(radius, qi, side(radius)).contains(p) <==> (on_board(radius, p) && p.q == qi - radius),
{
    let f = |p: PosHex| on_board(radius, p);
    let s = Seq::new(side(radius) as nat, |ri: int| grid_pos(radius, qi, ri));
    if on_board(radius, p) && p.q == qi - radius {
        lemma_on_board_in_square(radius, p);
        let j = p.r + radius;
        assert(s[j] == p);
        s.lemma_filter_contains(f, j);
    }
    if s.filter(f).contains(p) {
        s.lemma_filter_contains_rev(f, p);
        let i = choose|i: int| 0 <= i < s.filter(f).len() && s.filter(f)[i] == p;
        s.lemma_filter_pred(f, i);
        let j = choose|j: int| 0 <= j < s.len() && s[j] == p;
        assert(s[j] == grid_pos(radius, qi, j));
    }
}

proof fn lemma_board_columns_members(radius: int, n: nat, p: PosHex)
    requires
        0 <= radius <= MAX_MAP_RADIUS,
        n <= side(radius),
    ensures
        board_columns(radius, n).contains(p) <==> (on_board(radius, p) && p.q + radius < n),
    decreases n,
{
    if n > 0 {
        lemma_board_columns_members(radius, (n - 1) as nat, p);
        lemma_column_members(radius, n - 1, p);
        let a = board_columns(radius, (n - 1) as nat);
        let b = column_tiles(radius, n - 1, side(radius));
        assert((a + b).contains(p) <==> (a.contains(p) || b.contains(p))) by {
            if (a + b).contains(p) {
                let i = choose|i: int| 0 <= i < (a + b).len() && (a + b)[i] == p;
                if i >= a.len() {
                    assert(b[i - a.len()] == p);
                }
            }
            if a.contains(p) {
                let i = choose|i: int| 0 <= i < a.len() && a[i] == p;
                assert((a + b)[i] == p);
            }
            if b.contains(p) {
                let i = choose|i: int| 0 <= i < b.len() && b[i] == p;
                assert((a + b)[a.len() + i] == p);
            }
        }
        if on_board(radius, p) {
            lemma_on_board_in_square(radius, p);
        }
    }
}

/// The tiles a map walks are exactly the tiles on the map.
pub proof fn lemma_board_members(radius: int, p: PosHex)
    requires
        0 <= radius <= MAX_MAP_RADIUS,
    ensures
        board(radius).contains(p) <==> on_board(radius, p),
{
    lemma_board_columns_members(radius, side(radius) as nat, p);
    if on_board(radius, p) {
        lemma_on_board_in_square(radius, p);
    }
}

/// A value for every tile of a hexagonal map of some radius.
#[derive(Clone, Debug)]
pub struct HexMap<T> {
    radius: Distance,
    columns: Vec<Vec<T>>,
}

impl<T> HexMap<T> {
    /// The radius is within bounds and every column holds a value per row.
    pub closed spec fn wf(&self) -> bool {
        &&& 0 <= self.radius.0 <= MAX_MAP_RADIUS
        &&& self.columns@.len() == side(self.radius.0 as int)
        &&& forall|qi: int| 0 <= qi < self.columns@.len()
            ==> #[trigger] self.columns@[qi]@.len() == side(self.radius.0 as int)
    }

    pub closed spec fn spec_radius(&self) -> int {
        self.radius.0 as int
    }

    /// The value of every tile on the map.
    pub closed spec fn view(&self) -> Map<PosHex, T> {
        let radius = self.radius.0 as int;
        Map::new(
            |p: PosHex| on_board(radius, p),
            |p: PosHex| self.columns@[p.q + radius]@[p.r + radius],
        )
    }
}

/// A tile on a map of radius `radius` has both coordinates within the radius.
pub proof fn lemma_on_board_in_square(radius: int, p: PosHex)
    requires
        on_board(radius, p),
    ensures
        -radius <= p.q <= radius,
        -radius <= p.r <= radius,
{
}

/// The tiles of a map are exactly those within its radius.
pub proof fn lemma_hex_map_domain<T>(m: &HexMap<T>)
    ensures
        forall|p: PosHex| #[trigger] m@.contains_key(p) <==> on_board(m.spec_radius(), p),
{
}

impl<T: Copy> HexMap<T> {
    /// A map of radius `radius` with `value` on every tile.
    pub fn new(radius: Distance, value: T) -> (m: Self)
        requires
            0 <= radius.0 <= MAX_MAP_RADIUS,
        ensures
            m.wf(),
            m.spec_radius() == radius.0,
            forall|p: PosHex| on_board(radius.0 as int, p) ==> m@.contains_key(p) && #[trigger] m@[p] == value,
            m@.dom() == Set::new(|p: PosHex| on_board(radius.0 as int, p)),
    {
        let n: usize = (2 * radius.0 + 1) as usize;
        let mut columns: Vec<Vec<T>> = Vec::new();
        let mut qi: usize = 0;
        while qi < n
            invariant
                n == side(radius.0 as int),
                qi <= n,
                columns@.len() == qi,
                forall|i: int| 0 <= i < qi ==> #[trigger] columns@[i]@.len() == n,
                forall|i: int, j: int| 0 <= i < qi && 0 <= j < n ==> #[trigger] columns@[i]@[j] == value,
            decreases n - qi,
        {
            let mut column: Vec<T> = Vec::new();
            let mut ri: usize = 0;
            while ri < n
                invariant
                    ri <= n,
                    column@.len() == ri,
                    forall|j: int| 0 <= j < ri ==> column@[j] == value,
                decreases n - ri,
            {
                column.push(value);
                ri += 1;
            }
            columns.push(column);
            qi += 1;
        }
        let m = HexMap { radius, columns };
        proof {
            assert forall|p: PosHex| on_board(radius.0 as int, p) implies m@.contains_key(p) && #[trigger] m@[p] == value by {
                lemma_on_board_in_square(radius.0 as int, p);
                let i = p.q + radius.0;
                assert(m.columns@[i]@.len() == n && m.columns@[i]@[p.r + radius.0] == value);
            }
            assert(m@.dom() =~= Set::new(|p: PosHex| on_board(radius.0 as int, p)));
        }
        m
    }

    pub fn radius(&self) -> (r: Distance)
        ensures
            r.0 == self.spec_radius(),
    {
        self.radius
    }

    /// Whether `pos` lies on the map.
    pub fn is_inboard(&self, pos: PosHex) -> (b: bool)
        requires
            self.wf(),
        ensures
            b == on_board(self.spec_radius(), pos),
            b == self@.contains_key(pos),
    {
        let radius = self.radius.0;
        if pos.q < -radius || pos.q > radius || pos.r < -radius || pos.r > radius {
            return false;
        }
        distance_hex(PosHex { q: 0, r: 0 }, pos).0 <= radius
    }

    /// The value of tile `pos`, which lies on the map.
    pub fn tile(&self, pos: PosHex) -> (v: T)
        requires
            self.wf(),
            self@.contains_key(pos),
        ensures
            v == self@[pos],
    {
        proof { lemma_on_board_in_square(self.spec_radius(), pos); }
        let qi = (pos.q + self.radius.0) as usize;
        let ri = (pos.r + self.radius.0) as usize;
        self.columns[qi][ri]
    }

    /// Every tile of the map, once each, column by column.
    pub fn iter(&self) -> (tiles: Vec<PosHex>)
        requires
            self.wf(),
        ensures
            tiles@ == board(self.spec_radius()),
    {
        let radius = self.radius.0;
        let n: usize = (2 * radius + 1) as usize;
        let mut tiles: Vec<PosHex> = Vec::new();
        let mut qi: usize = 0;
        while qi < n
            invariant
                0 <= radius <= MAX_MAP_RADIUS,
                n == side(radius as int),
                qi <= n,
                tiles@ == board_columns(radius as int, qi as nat),
            decreases n - qi,
        {
            let mut ri: usize = 0;
            while ri < n
                invariant
                    0 <= radius <= MAX_MAP_RADIUS,
                    n == side(radius as int),
                    qi < n,
                    ri <= n,
                    tiles@ == board_columns(radius as int, qi as nat) + column_tiles(radius as int, qi as int, ri as int),
                decreases n - ri,
            {
                let pos = PosHex { q: qi as i32 - radius, r: ri as i32 - radius };
                let inboard = distance_hex(PosHex { q: 0, r: 0 }, pos).0 <= radius;
                proof {
                    let f = |p: PosHex| on_board(radius as int, p);
                    let prefix = Seq::new(ri as nat, |j: int| grid_pos(radius as int, qi as int, j));
                    let longer = Seq::new((ri + 1) as nat, |j: int| grid_pos(radius as int, qi as int, j));
                    assert(longer =~= prefix.push(pos));
                    prefix.lemma_filter_push(pos, f);
                }
                if inboard {
                    tiles.push(pos);
                }
                proof {
                    assert(tiles@ =~= board_columns(radius as int, qi as nat) + column_tiles(radius as int, qi as int, ri + 1));
                }
                ri += 1;
            }
            qi += 1;
        }
        tiles
    }

    /// Puts `value` on tile `pos`, which lies on the map.
    pub fn set_tile(&mut self, pos: PosHex, value: T)
        requires
            old(self).wf(),
            old(self)@.contains_key(pos),
        ensures
            final(self).wf(),
            final(self).spec_radius() == old(self).spec_radius(),
            final(self)@ == old(self)@.insert(pos, value),
    {
        proof { lemma_on_board_in_square(self.spec_radius(), pos); }
        let qi = (pos.q + self.radius.0) as usize;
        let ri = (pos.r + self.radius.0) as usize;
        let mut column: Vec<T> = Vec::new();
        std::mem::swap(&mut column, &mut self.columns[qi]);
        column.set(ri, value);
        self.columns.set(qi, column);
        proof {
            assert(final(self)@ =~= old(self)@.insert(pos, value));
        }
    }
}

} // verus!
