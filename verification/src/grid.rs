use bimap::BiHashMap;
use vstd::prelude::*;

verus! {

/// An integer position in the voxel grid.
#[derive(Clone, Copy, Debug, PartialEq, Eq, Structural, Hash)]
pub struct Coord {
    pub x: i32,
    pub y: i32,
    pub z: i32,
}

/// The distance between two integers.
pub open spec fn gap(a: int, b: int) -> int {
    if a >= b {
        a - b
    } else {
        b - a
    }
}

impl Coord {
    /// The position with the given components.
    pub open spec fn spec_new(x: i32, y: i32, z: i32) -> Coord {
        Coord { x, y, z }
    }

    /// The position with the given components.
    #[verifier::when_used_as_spec(spec_new)]
    pub fn new(x: i32, y: i32, z: i32) -> (c: Coord)
        ensures
            c == Coord::spec_new(x, y, z),
    {
        Coord { x, y, z }
    }

    /// The origin.
    pub open spec fn spec_zero() -> Coord {
        Coord { x: 0, y: 0, z: 0 }
    }

    /// The origin.
    #[verifier::when_used_as_spec(spec_zero)]
    pub fn zero() -> (c: Coord)
        ensures
            c == Coord::spec_zero(),
    {
        Coord { x: 0, y: 0, z: 0 }
    }

    /// One step up.
    pub open spec fn spec_unit_y() -> Coord {
        Coord { x: 0, y: 1, z: 0 }
    }

    /// One step up.
    #[verifier::when_used_as_spec(spec_unit_y)]
    pub fn unit_y() -> (c: Coord)
        ensures
            c == Coord::spec_unit_y(),
    {
        Coord { x: 0, y: 1, z: 0 }
    }

    /// The Manhattan distance between two positions.
    pub open spec fn distance(self, other: Coord) -> int {
        gap(self.x as int, other.x as int) + gap(self.y as int, other.y as int) + gap(
            self.z as int,
            other.z as int,
        )
    }

    /// Two positions are adjacent when their Manhattan distance is one.
    pub open spec fn adjacent(self, other: Coord) -> bool {
        self.distance(other) == 1
    }

    /// Whether the two positions are adjacent.
    pub fn is_adjacent(&self, other: &Coord) -> (b: bool)
        ensures
            b == self.adjacent(*other),
    {
        let dx: i64 = if self.x >= other.x {
            self.x as i64 - other.x as i64
        } else {
            other.x as i64 - self.x as i64
        };
        let dy: i64 = if self.y >= other.y {
            self.y as i64 - other.y as i64
        } else {
            other.y as i64 - self.y as i64
        };
        let dz: i64 = if self.z >= other.z {
            self.z as i64 - other.z as i64
        } else {
            other.z as i64 - self.z as i64
        };
        dx + dy + dz == 1
    }

    /// Every component lies strictly between the least and the greatest `i32`,
    /// so that a step of one along any axis stays representable.
    pub open spec fn interior(self) -> bool {
        &&& i32::MIN < self.x < i32::MAX
        &&& i32::MIN < self.y < i32::MAX
        &&& i32::MIN < self.z < i32::MAX
    }

    /// Whether a step of one along any axis stays representable.
    pub fn is_interior(&self) -> (b: bool)
        ensures
            b == self.interior(),
    {
        i32::MIN < self.x && self.x < i32::MAX && i32::MIN < self.y && self.y < i32::MAX && i32::MIN
            < self.z && self.z < i32::MAX
    }

    /// Whether the component-wise sum with `other` is representable.
    pub open spec fn reaches(self, other: Coord) -> bool {
        &&& i32::MIN <= self.x + other.x <= i32::MAX
        &&& i32::MIN <= self.y + other.y <= i32::MAX
        &&& i32::MIN <= self.z + other.z <= i32::MAX
    }

    /// The component-wise sum, where it is representable.
    pub open spec fn plus(self, other: Coord) -> Coord {
        Coord {
            x: (self.x + other.x) as i32,
            y: (self.y + other.y) as i32,
            z: (self.z + other.z) as i32,
        }
    }

    /// The component-wise sum, or `None` where a component would leave the range of `i32`.
    pub fn checked_plus(&self, other: &Coord) -> (sum: Option<Coord>)
        ensures
            match sum {
                Some(c) => c.x == self.x + other.x && c.y == self.y + other.y && c.z == self.z
                    + other.z && c == self.plus(*other),
                None => {
                    ||| !(i32::MIN <= self.x + other.x <= i32::MAX)
                    ||| !(i32::MIN <= self.y + other.y <= i32::MAX)
                    ||| !(i32::MIN <= self.z + other.z <= i32::MAX)
                },
            },
    {
        match (
            self.x.checked_add(other.x),
            self.y.checked_add(other.y),
            self.z.checked_add(other.z),
        ) {
            (Some(x), Some(y), Some(z)) => Some(Coord { x, y, z }),
            _ => None,
        }
    }
}

pub type InstanceID = u32;

pub type NodeID = u32;

/// What a grid cell holds: the block that owns the voxel, the voxel's name
/// within that block, and the circuit node of a terminal voxel.
pub type Cell = (InstanceID, String, Option<NodeID>);

/// The mathematical value of a [`Cell`].
pub type CellView = (InstanceID, Seq<char>, Option<NodeID>);

/// The mathematical value of a cell.
pub open spec fn cell_view(cell: Cell) -> CellView {
    (cell.0, cell.1@, cell.2)
}

/// `bimap::BiHashMap`, taken as an opaque type: what it holds is told by
/// `bimap_pairs` and the functions below.
#[verifier::external_type_specification]
#[verifier::external_body]
#[verifier::reject_recursive_types(L)]
#[verifier::reject_recursive_types(R)]
#[verifier::reject_recursive_types(LS)]
#[verifier::reject_recursive_types(RS)]
pub struct ExBiHashMap<L, R, LS, RS>(BiHashMap<L, R, LS, RS>);

/// The left-right pairs that a bimap of cells holds, each left value as a
/// position and each right value by its view.
pub uninterp spec fn bimap_pairs(m: BiHashMap<(i32, i32, i32), Cell>) -> Map<Coord, CellView>;

/// Whether some position holds the cell value `value`.
pub open spec fn held(pairs: Map<Coord, CellView>, value: CellView) -> bool {
    exists|c: Coord| #[trigger] pairs.contains_key(c) && pairs[c] == value
}

/// The map without any cell.
pub open spec fn empty_cells() -> Map<Coord, CellView> {
    Map::empty()
}

/// The map is finite and holds `n` pairs.
pub open spec fn counts(pairs: Map<Coord, CellView>, n: usize) -> bool {
    pairs.dom().finite() && pairs.len() == n
}

/// `BiHashMap::default`: the bimap it returns holds no pair.
#[verifier::external_body]
fn bimap_empty() -> (fresh: BiHashMap<(i32, i32, i32), Cell>)
    ensures
        bimap_pairs(fresh) == empty_cells(),
{
    BiHashMap::default()
}

/// `BiHashMap::len`: the number of pairs, which is finite.
#[verifier::external_body]
fn bimap_len(m: &BiHashMap<(i32, i32, i32), Cell>) -> (n: usize)
    ensures
        counts(bimap_pairs(*m), n),
{
    m.len()
}

/// `BiHashMap::contains_left`: whether a pair has the given left value.
#[verifier::external_body]
fn bimap_contains_left(m: &BiHashMap<(i32, i32, i32), Cell>, at: Coord) -> (b: bool)
    ensures
        b == bimap_pairs(*m).contains_key(at),
{
    m.contains_left(&(at.x, at.y, at.z))
}

/// `BiHashMap::contains_right`: whether a pair has the given right value.
#[verifier::external_body]
fn bimap_contains_right(m: &BiHashMap<(i32, i32, i32), Cell>, value: &Cell) -> (b: bool)
    ensures
        b == held(bimap_pairs(*m), cell_view(*value)),
{
    m.contains_right(value)
}

/// `BiHashMap::get_by_left`: a copy of the right value paired with the given
/// left value, if there is such a pair.
#[verifier::external_body]
fn bimap_get_by_left(m: &BiHashMap<(i32, i32, i32), Cell>, at: Coord) -> (cell: Option<Cell>)
    ensures
        cell is Some == bimap_pairs(*m).contains_key(at),
        cell is Some ==> cell_view(cell->0) == bimap_pairs(*m)[at],
{
    m.get_by_left(&(at.x, at.y, at.z)).cloned()
}

/// `BiHashMap::remove_by_left`: removes the pair with the given left value and
/// returns its right value; leaves every other pair as it was.
#[verifier::external_body]
fn bimap_remove_by_left(m: &mut BiHashMap<(i32, i32, i32), Cell>, at: Coord) -> (cell: Option<Cell>)
    ensures
        bimap_pairs(*final(m)) == bimap_pairs(*old(m)).remove(at),
        cell is Some == bimap_pairs(*old(m)).contains_key(at),
        cell is Some ==> cell_view(cell->0) == bimap_pairs(*old(m))[at],
{
    m.remove_by_left(&(at.x, at.y, at.z)).map(|pair| pair.1)
}

/// `BiHashMap::insert`: first drops the pair with the same left value and the
/// pair with the same right value, then adds the new pair.
#[verifier::external_body]
fn bimap_insert(m: &mut BiHashMap<(i32, i32, i32), Cell>, at: Coord, value: Cell)
    ensures
        forall|c: Coord| #[trigger]
            bimap_pairs(*final(m)).contains_key(c) <==> c == at || (bimap_pairs(
                *old(m),
            ).contains_key(c) && bimap_pairs(*old(m))[c] != cell_view(value)),
        bimap_pairs(*final(m))[at] == cell_view(value),
        forall|c: Coord|
            c != at && #[trigger] bimap_pairs(*final(m)).contains_key(c) ==> bimap_pairs(
                *final(m),
            )[c] == bimap_pairs(*old(m))[c],
{
    let _ = m.insert((at.x, at.y, at.z), value);
}

/// No cell value stands at two positions.
pub open spec fn values_unique(cells: Map<Coord, CellView>) -> bool {
    forall|a: Coord, b: Coord|
        #[trigger] cells.contains_key(a) && #[trigger] cells.contains_key(b) && cells[a] == cells[b]
            ==> a == b
}

/// A voxel grid: at most one cell per position, and no cell value at two positions.
pub struct Grid {
    voxels: BiHashMap<(i32, i32, i32), Cell>,
}

impl View for Grid {
    type V = Map<Coord, CellView>;

    closed spec fn view(&self) -> Map<Coord, CellView> {
        bimap_pairs(self.voxels)
    }
}

/// The entries of `cells` at the positions adjacent to `location`.
pub open spec fn adjacent_entries(cells: Map<Coord, CellView>, location: Coord) -> Set<
    (Coord, CellView),
> {
    Set::new(
        |e: (Coord, CellView)| cells.contains_key(e.0) && cells[e.0] == e.1 && e.0.adjacent(location),
    )
}

/// The six unit steps along the axes.
pub open spec fn step(j: int) -> Coord {
    if j == 0 {
        Coord { x: -1i32, y: 0, z: 0 }
    } else if j == 1 {
        Coord { x: 1, y: 0, z: 0 }
    } else if j == 2 {
        Coord { x: 0, y: -1i32, z: 0 }
    } else if j == 3 {
        Coord { x: 0, y: 1, z: 0 }
    } else if j == 4 {
        Coord { x: 0, y: 0, z: -1i32 }
    } else {
        Coord { x: 0, y: 0, z: 1 }
    }
}

/// `c` is one step of kind `j` away from `location`.
pub open spec fn lands(location: Coord, j: int, c: Coord) -> bool {
    &&& c.x == location.x + step(j).x
    &&& c.y == location.y + step(j).y
    &&& c.z == location.z + step(j).z
}

/// The entry `e` is in `cells`, one of the first `k` steps away from `location`.
pub open spec fn within(
    cells: Map<Coord, CellView>,
    location: Coord,
    k: int,
    e: (Coord, CellView),
) -> bool {
    &&& cells.contains_key(e.0)
    &&& cells[e.0] == e.1
    &&& exists|j: int| 0 <= j < k && lands(location, j, e.0)
}

/// The positions and cell views of a list of grid entries.
pub open spec fn entries_view(entries: Seq<(Coord, Cell)>) -> Seq<(Coord, CellView)> {
    Seq::new(entries.len(), |i: int| (entries[i].0, cell_view(entries[i].1)))
}

impl Grid {
    /// A grid without cells.
    pub fn new() -> (grid: Grid)
        ensures
            grid@ == empty_cells(),
            values_unique(grid@),
    {
        Grid { voxels: bimap_empty() }
    }

    /// The number of occupied positions.
    pub fn len(&self) -> (n: usize)
        ensures
            self@.dom().finite(),
            n == self@.len(),
    {
        bimap_len(&self.voxels)
    }

    /// Whether the position is occupied.
    pub fn contains(&self, location: Coord) -> (b: bool)
        ensures
            b == self@.contains_key(location),
    {
        bimap_contains_left(&self.voxels, location)
    }

    /// Get the voxel value at the given location
    pub fn get(&self, location: Coord) -> (cell: Option<Cell>)
        ensures
            cell is Some == self@.contains_key(location),
            cell is Some ==> cell_view(cell->0) == self@[location],
    {
        bimap_get_by_left(&self.voxels, location)
    }

    /// Remove the voxel value at the given location
    pub fn remove(&mut self, location: Coord) -> (cell: Option<Cell>)
        ensures
            final(self)@ == old(self)@.remove(location),
            cell is Some == old(self)@.contains_key(location),
            cell is Some ==> cell_view(cell->0) == old(self)@[location],
            values_unique(old(self)@) ==> values_unique(final(self)@),
    {
        bimap_remove_by_left(&mut self.voxels, location)
    }

    /// Set the voxel value at the given location
    ///
    /// Returns true if successful, false if the value is a duplicate
    pub fn set(&mut self, location: Coord, value: Cell) -> (stored: bool)
        ensures
            stored == !held(old(self)@, cell_view(value)),
            stored ==> final(self)@ == old(self)@.insert(location, cell_view(value)),
            !stored ==> final(self)@ == old(self)@,
            values_unique(old(self)@) ==> values_unique(final(self)@),
    {
        if bimap_contains_right(&self.voxels, &value) {
            false
        } else {
            let ghost before = self@;
            let ghost v = cell_view(value);
            bimap_insert(&mut self.voxels, location, value);
            proof {
                assert forall|c: Coord| before.contains_key(c) implies before[c] != v by {
                    if before[c] == v {
                        assert(held(before, v));
                    }
                }
                assert(self@ =~= before.insert(location, v));
                if values_unique(before) {
                    assert forall|a: Coord, b: Coord|
                        #[trigger] self@.contains_key(a) && #[trigger] self@.contains_key(b)
                            && self@[a] == self@[b] implies a == b by {
                        if a != b {
                            if a == location {
                                assert(before.contains_key(b));
                            } else if b == location {
                                assert(before.contains_key(a));
                            } else {
                                assert(before.contains_key(a) && before.contains_key(b));
                            }
                        }
                    }
                }
            }
            true
        }
    }

    /// Get all adjacent voxels (if they exist)
    pub fn get_adjacent(&self, location: Coord) -> (found: Vec<(Coord, Cell)>)
        ensures
            entries_view(found@).to_set() == adjacent_entries(self@, location),
            entries_view(found@).no_duplicates(),
            found@.len() <= 6,
    {
        let offsets: [Coord; 6] = [
            Coord { x: -1, y: 0, z: 0 },
            Coord { x: 1, y: 0, z: 0 },
            Coord { x: 0, y: -1, z: 0 },
            Coord { x: 0, y: 1, z: 0 },
            Coord { x: 0, y: 0, z: -1 },
            Coord { x: 0, y: 0, z: 1 },
        ];
        let mut found: Vec<(Coord, Cell)> = Vec::new();
        let mut k: usize = 0;
        while k < 6
            invariant
                k <= 6,
                forall|j: int| 0 <= j < 6 ==> offsets[j] == #[trigger] step(j),
                found@.len() <= k,
                forall|i: int|
                    0 <= i < found@.len() ==> within(
                        self@,
                        location,
                        k as int,
                        #[trigger] entries_view(found@)[i],
                    ),
                forall|j: int, c: Coord|
                    0 <= j < k && #[trigger] lands(location, j, c) && self@.contains_key(c)
                        ==> entries_view(found@).contains((c, self@[c])),
                entries_view(found@).no_duplicates(),
            decreases 6 - k,
        {
            let ghost before = entries_view(found@);
            assert(offsets[k as int] == step(k as int));
            let target = location.checked_plus(&offsets[k]);
            let cell = match target {
                Some(c) => self.get(c),
                None => None,
            };
            proof {
                assert forall|i: int| 0 <= i < before.len() implies within(
                    self@,
                    location,
                    k + 1,
                    #[trigger] before[i],
                ) by {
                    let e = before[i];
                    assert(within(self@, location, k as int, e));
                    let j = choose|j: int| 0 <= j < k && lands(location, j, e.0);
                    assert(0 <= j < k + 1 && lands(location, j, e.0));
                }
            }
            if let Some(cell) = cell {
                let c = target.unwrap();
                found.push((c, cell));
                proof {
                    let after = entries_view(found@);
                    assert(lands(location, k as int, c));
                    assert(after =~= before.push((c, self@[c])));
                    assert forall|i: int| 0 <= i < before.len() implies before[i].0 != c by {
                        let e = before[i];
                        assert(within(self@, location, k as int, e));
                        let j = choose|j: int| 0 <= j < k && lands(location, j, e.0);
                    }
                    assert forall|j: int, d: Coord|
                        0 <= j < k + 1 && #[trigger] lands(location, j, d) && self@.contains_key(
                            d,
                        ) implies after.contains((d, self@[d])) by {
                        if j < k {
                            let i = choose|i: int|
                                0 <= i < before.len() && before[i] == (d, self@[d]);
                            assert(after[i] == (d, self@[d]));
                        } else {
                            assert(d == c);
                            assert(after[before.len() as int] == (d, self@[d]));
                        }
                    }
                    assert forall|i: int| 0 <= i < after.len() implies within(
                        self@,
                        location,
                        k + 1,
                        #[trigger] after[i],
                    ) by {
                        if i < before.len() {
                            assert(after[i] == before[i]);
                        } else {
                            assert(after[i] == (c, self@[c]));
                            assert(0 <= k < k + 1 && lands(location, k as int, c));
                        }
                    }
                }
            } else {
                proof {
                    assert forall|j: int, d: Coord|
                        0 <= j < k + 1 && #[trigger] lands(location, j, d) && self@.contains_key(
                            d,
                        ) implies before.contains((d, self@[d])) by {
                        if j == k {
                            assert(target is Some);
                            assert(d == target->0);
                        }
                    }
                }
            }
            k = k + 1;
        }
        proof {
            let got = entries_view(found@);
            let want = adjacent_entries(self@, location);
            assert forall|e: (Coord, CellView)| got.to_set().contains(e) <==> want.contains(
                e,
            ) by {
                if got.to_set().contains(e) {
                    let i = choose|i: int| 0 <= i < got.len() && got[i] == e;
                    assert(within(self@, location, 6, got[i]));
                    let j = choose|j: int| 0 <= j < 6 && lands(location, j, e.0);
                }
                if want.contains(e) {
                    let c = e.0;
                    let j: int = if c.x == location.x - 1 {
                        0
                    } else if c.x == location.x + 1 {
                        1
                    } else if c.y == location.y - 1 {
                        2
                    } else if c.y == location.y + 1 {
                        3
                    } else if c.z == location.z - 1 {
                        4
                    } else {
                        5
                    };
                    assert(0 <= j < 6 && lands(location, j, c));
                    assert(got.contains((c, self@[c])));
                }
            }
            assert(got.to_set() =~= want);
        }
        found
    }
}

impl Default for Grid {
    fn default() -> (grid: Grid)
        ensures
            grid@ == empty_cells(),
    {
        Grid::new()
    }
}

} // verus!
