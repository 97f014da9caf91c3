//! Cells of a flat hexagonal grid in axial coordinates.

use crate::graph::NodeKey;
use vstd::prelude::*;

verus! {

/// The eight steps that lead from a cell to an adjacent one: six within the
/// layer, one up and one down.
#[allow(clippy::upper_case_acronyms)]
#[derive(Debug, Clone, Copy, PartialEq, Eq, Hash, Structural)]
pub enum Direction {
    N,
    NE,
    SE,
    S,
    SW,
    NW,
    UP,
    DOWN,
}

/// A cell on a hexagonal grid.
///
///  * `a`, `b`: axial coordinates, `(0, 0)` being the centre of the grid
///  * `radius`: the size of each hexagon
///  * `layer`: the level of the cell in a multi-layer grid
#[derive(Debug, Clone, Copy, PartialEq, Eq, Hash, Structural)]
pub struct HexCell {
    pub a: i16,
    pub b: i16,
    pub radius: i16,
    pub layer: i16,
}

/// The two bytes of `x` in exchanged order.
pub open spec fn swap_bytes(x: u16) -> u16 {
    (x << 8) | (x >> 8)
}

/// The 64-bit word whose four 16-bit fields, from the most significant down,
/// are `a`, `b`, `r` and `l`, each with its two bytes exchanged.
pub open spec fn pack_fields(a: u16, b: u16, r: u16, l: u16) -> u64 {
    ((swap_bytes(a) as u64) << 48) | ((swap_bytes(b) as u64) << 32) | ((swap_bytes(r) as u64)
        << 16) | (swap_bytes(l) as u64)
}

/// The change of `(a, b, layer)` that one step in `direction` makes.
pub open spec fn direction_offset(direction: Direction) -> (int, int, int) {
    match direction {
        Direction::N => (0, 1, 0),
        Direction::NE => (1, 0, 0),
        Direction::SE => (1, -1, 0),
        Direction::S => (0, -1, 0),
        Direction::SW => (-1, 0, 0),
        Direction::NW => (-1, 1, 0),
        Direction::UP => (0, 0, 1),
        Direction::DOWN => (0, 0, -1),
    }
}

/// The eight directions in their fixed order.
pub open spec fn all_directions() -> Seq<Direction> {
    seq![
        Direction::N,
        Direction::NE,
        Direction::SE,
        Direction::S,
        Direction::SW,
        Direction::NW,
        Direction::UP,
        Direction::DOWN,
    ]
}

fn swap_bytes_exec(x: u16) -> (r: u16)
    ensures
        r == swap_bytes(x),
{
    (x << 8) | (x >> 8)
}

pub(crate) fn direction_at(i: usize) -> (d: Direction)
    requires
        i < 8,
    ensures
        d == all_directions()[i as int],
{
    if i == 0 {
        Direction::N
    } else if i == 1 {
        Direction::NE
    } else if i == 2 {
        Direction::SE
    } else if i == 3 {
        Direction::S
    } else if i == 4 {
        Direction::SW
    } else if i == 5 {
        Direction::NW
    } else if i == 6 {
        Direction::UP
    } else {
        Direction::DOWN
    }
}

impl HexCell {
    /// The identifier of the cell: its four fields packed into one word.
    pub open spec fn spec_id(self) -> u64 {
        pack_fields(self.a as u16, self.b as u16, self.radius as u16, self.layer as u16)
    }

    /// The cell with its layer replaced.
    pub open spec fn spec_with_layer(self, layer: i16) -> HexCell {
        HexCell { a: self.a, b: self.b, radius: self.radius, layer }
    }

    /// The cell that `id` identifies.
    pub open spec fn spec_from_id(id: u64) -> HexCell {
        HexCell {
            a: swap_bytes((id >> 48) as u16) as i16,
            b: swap_bytes((id >> 32) as u16) as i16,
            radius: swap_bytes((id >> 16) as u16) as i16,
            layer: swap_bytes(id as u16) as i16,
        }
    }

    /// The cell of radius 1 at the given coordinates, each cut to its low 16
    /// bits.
    pub open spec fn spec_from_local_ij(i: i32, j: i32, layer: i16) -> HexCell {
        HexCell { a: i as i16, b: j as i16, radius: 1, layer }
    }

    /// Whether the step in `direction` stays within the coordinate range.
    pub open spec fn has_neighbor(self, direction: Direction) -> bool {
        let (da, db, dl) = direction_offset(direction);
        &&& i16::MIN <= self.a + da <= i16::MAX
        &&& i16::MIN <= self.b + db <= i16::MAX
        &&& i16::MIN <= self.layer + dl <= i16::MAX
    }

    /// The cell one step away in `direction`.
    pub open spec fn spec_neighbor(self, direction: Direction) -> HexCell
        recommends
            self.has_neighbor(direction),
    {
        let (da, db, dl) = direction_offset(direction);
        HexCell {
            a: (self.a + da) as i16,
            b: (self.b + db) as i16,
            radius: self.radius,
            layer: (self.layer + dl) as i16,
        }
    }

    /// Whether `other` is one step away from this cell in some direction.
    pub open spec fn spec_is_neighbor(self, other: HexCell) -> bool {
        exists|d: Direction| #[trigger] self.has_neighbor(d) && self.spec_neighbor(d) == other
    }

    /// The identifier of the cell. Its bytes, from the most significant down,
    /// are the little-endian bytes of `a`, `b`, `radius` and `layer`.
    pub fn id(&self) -> (r: u64)
        ensures
            r == self.spec_id(),
    {
        let a: u16 = #[verifier::truncate] (self.a as u16);
        let b: u16 = #[verifier::truncate] (self.b as u16);
        let r: u16 = #[verifier::truncate] (self.radius as u16);
        let l: u16 = #[verifier::truncate] (self.layer as u16);
        ((swap_bytes_exec(a) as u64) << 48) | ((swap_bytes_exec(b) as u64) << 32) | ((
        swap_bytes_exec(r) as u64) << 16) | (swap_bytes_exec(l) as u64)
    }

    /// The identifier of the cell with its layer set to 0.
    pub fn id_without_layer(&self) -> (r: u64)
        ensures
            r == self.spec_with_layer(0).spec_id(),
    {
        self.with_layer(0).id()
    }

    /// The same cell on another layer.
    pub fn with_layer(self, layer: i16) -> (r: HexCell)
        ensures
            r == self.spec_with_layer(layer),
    {
        HexCell { a: self.a, b: self.b, radius: self.radius, layer }
    }

    /// The cell that an identifier stands for: the inverse of [`HexCell::id`].
    pub fn from_id(id: u64) -> (r: HexCell)
        ensures
            r == HexCell::spec_from_id(id),
    {
        let a: u16 = #[verifier::truncate] ((id >> 48) as u16);
        let b: u16 = #[verifier::truncate] ((id >> 32) as u16);
        let r: u16 = #[verifier::truncate] ((id >> 16) as u16);
        let l: u16 = #[verifier::truncate] (id as u16);
        HexCell {
            a: #[verifier::truncate] (swap_bytes_exec(a) as i16),
            b: #[verifier::truncate] (swap_bytes_exec(b) as i16),
            radius: #[verifier::truncate] (swap_bytes_exec(r) as i16),
            layer: #[verifier::truncate] (swap_bytes_exec(l) as i16),
        }
    }

    /// The cell of radius 1 at the given coordinates, each cut to its low 16
    /// bits.
    pub fn from_local_ij(i: i32, j: i32, layer: i16) -> (r: HexCell)
        ensures
            r == HexCell::spec_from_local_ij(i, j, layer),
    {
        HexCell {
            a: #[verifier::truncate] (i as i16),
            b: #[verifier::truncate] (j as i16),
            radius: 1,
            layer,
        }
    }

    /// The neighbour in `direction`, or `None` where the step would leave the
    /// coordinate range.
    pub fn try_neighbor(&self, direction: Direction) -> (r: Option<HexCell>)
        ensures
            r == if self.has_neighbor(direction) {
                Some(self.spec_neighbor(direction))
            } else {
                None::<HexCell>
            },
    {
        let (a, b, layer): (Option<i16>, Option<i16>, Option<i16>) = match direction {
            Direction::N => (Some(self.a), self.b.checked_add(1), Some(self.layer)),
            Direction::NE => (self.a.checked_add(1), Some(self.b), Some(self.layer)),
            Direction::SE => (self.a.checked_add(1), self.b.checked_sub(1), Some(self.layer)),
            Direction::S => (Some(self.a), self.b.checked_sub(1), Some(self.layer)),
            Direction::SW => (self.a.checked_sub(1), Some(self.b), Some(self.layer)),
            Direction::NW => (self.a.checked_sub(1), self.b.checked_add(1), Some(self.layer)),
            Direction::UP => (Some(self.a), Some(self.b), self.layer.checked_add(1)),
            Direction::DOWN => (Some(self.a), Some(self.b), self.layer.checked_sub(1)),
        };
        match (a, b, layer) {
            (Some(a), Some(b), Some(layer)) => Some(HexCell { a, b, radius: self.radius, layer }),
            _ => None,
        }
    }

    /// The neighbour in `direction`.
    pub fn get_neighbor(&self, direction: Direction) -> (r: HexCell)
        requires
            self.has_neighbor(direction),
        ensures
            r == self.spec_neighbor(direction),
    {
        match direction {
            Direction::N => HexCell {
                a: self.a,
                b: self.b + 1,
                radius: self.radius,
                layer: self.layer,
            },
            Direction::NE => HexCell {
                a: self.a + 1,
                b: self.b,
                radius: self.radius,
                layer: self.layer,
            },
            Direction::SE => HexCell {
                a: self.a + 1,
                b: self.b - 1,
                radius: self.radius,
                layer: self.layer,
            },
            Direction::S => HexCell {
                a: self.a,
                b: self.b - 1,
                radius: self.radius,
                layer: self.layer,
            },
            Direction::SW => HexCell {
                a: self.a - 1,
                b: self.b,
                radius: self.radius,
                layer: self.layer,
            },
            Direction::NW => HexCell {
                a: self.a - 1,
                b: self.b + 1,
                radius: self.radius,
                layer: self.layer,
            },
            Direction::UP => HexCell {
                a: self.a,
                b: self.b,
                radius: self.radius,
                layer: self.layer + 1,
            },
            Direction::DOWN => HexCell {
                a: self.a,
                b: self.b,
                radius: self.radius,
                layer: self.layer - 1,
            },
        }
    }

    /// Whether `other` lies one step from this cell: in one of the six
    /// directions of its layer, or directly above or below it.
    pub fn is_neighbor(&self, other: &HexCell) -> (r: bool)
        ensures
            r == self.spec_is_neighbor(*other),
    {
        if self.radius != other.radius {
            assert(forall|d: Direction| self.spec_neighbor(d).radius == self.radius);
            return false;
        }
        let mut i: usize = 0;
        while i < 8
            invariant
                i <= 8,
                forall|k: int|
                    0 <= k < i ==> !(self.has_neighbor(#[trigger] all_directions()[k])
                        && self.spec_neighbor(all_directions()[k]) == *other),
            decreases 8 - i,
        {
            let d = direction_at(i);
            match self.try_neighbor(d) {
                Some(n) => {
                    if n == *other {
                        return true;
                    }
                },
                None => {},
            }
            i += 1;
        }
        proof {
            assert forall|d: Direction|
                !(#[trigger] self.has_neighbor(d) && self.spec_neighbor(d) == *other) by {
                lemma_direction_listed(d);
            }
        }
        false
    }

    /// The eight neighbours, in the order N, NE, SE, S, SW, NW, UP, DOWN.
    pub fn get_all_neighbors(&self) -> (r: Vec<HexCell>)
        requires
            forall|d: Direction| self.has_neighbor(d),
        ensures
            r@ == all_directions().map_values(|d: Direction| self.spec_neighbor(d)),
    {
        let mut out: Vec<HexCell> = Vec::new();
        let mut i: usize = 0;
        while i < 8
            invariant
                i <= 8,
                out@.len() == i,
                forall|d: Direction| self.has_neighbor(d),
                forall|k: int|
                    0 <= k < i ==> out@[k] == self.spec_neighbor(#[trigger] all_directions()[k]),
            decreases 8 - i,
        {
            out.push(self.get_neighbor(direction_at(i)));
            i += 1;
        }
        assert(out@ =~= all_directions().map_values(|d: Direction| self.spec_neighbor(d)));
        out
    }
}

impl NodeKey for HexCell {
    /// The identifier of the cell on layer 0, and the layer.
    open spec fn key_spec(&self) -> (u64, i16) {
        (self.spec_with_layer(0).spec_id(), self.layer)
    }

    fn key(&self) -> (k: (u64, i16)) {
        (self.id_without_layer(), self.layer)
    }

    proof fn lemma_key_injective(a: Self, b: Self) {
        lemma_id_round_trip(a.spec_with_layer(0));
        lemma_id_round_trip(b.spec_with_layer(0));
    }
}

/// Every direction stands in the list of all directions.
pub proof fn lemma_direction_listed(d: Direction)
    ensures
        exists|k: int| 0 <= k < 8 && #[trigger] all_directions()[k] == d,
{
    match d {
        Direction::N => assert(all_directions()[0] == d),
        Direction::NE => assert(all_directions()[1] == d),
        Direction::SE => assert(all_directions()[2] == d),
        Direction::S => assert(all_directions()[3] == d),
        Direction::SW => assert(all_directions()[4] == d),
        Direction::NW => assert(all_directions()[5] == d),
        Direction::UP => assert(all_directions()[6] == d),
        Direction::DOWN => assert(all_directions()[7] == d),
    }
}

/// An identifier and the cell it stands for determine each other: packing a
/// cell and unpacking the word gives the cell back.
pub proof fn lemma_id_round_trip(cell: HexCell)
    ensures
        HexCell::spec_from_id(cell.spec_id()) == cell,
{
    let a = cell.a as u16;
    let b = cell.b as u16;
    let r = cell.radius as u16;
    let l = cell.layer as u16;
    let id = pack_fields(a, b, r, l);
    assert(swap_bytes((id >> 48) as u16) == a && swap_bytes((id >> 32) as u16) == b && swap_bytes(
        (id >> 16) as u16,
    ) == r && swap_bytes(id as u16) == l) by (bit_vector)
        requires
            id == ((((a << 8) | (a >> 8)) as u64) << 48) | ((((b << 8) | (b >> 8)) as u64) << 32)
                | ((((r << 8) | (r >> 8)) as u64) << 16) | (((l << 8) | (l >> 8)) as u64),
    ;
    lemma_signed_round_trip(cell.a);
    lemma_signed_round_trip(cell.b);
    lemma_signed_round_trip(cell.radius);
    lemma_signed_round_trip(cell.layer);
}

/// Reading a signed 16-bit value as unsigned and back changes nothing.
proof fn lemma_signed_round_trip(x: i16)
    ensures
        (x as u16) as i16 == x,
{
    assert((x as u16) as i16 == x) by (bit_vector);
}

/// Unpacking a word and packing the cell gives the word back.
pub proof fn lemma_from_id_round_trip(id: u64)
    ensures
        HexCell::spec_from_id(id).spec_id() == id,
{
    let c = HexCell::spec_from_id(id);
    let a = swap_bytes((id >> 48) as u16);
    let b = swap_bytes((id >> 32) as u16);
    let r = swap_bytes((id >> 16) as u16);
    let l = swap_bytes(id as u16);
    assert((a as i16) as u16 == a) by (bit_vector);
    assert((b as i16) as u16 == b) by (bit_vector);
    assert((r as i16) as u16 == r) by (bit_vector);
    assert((l as i16) as u16 == l) by (bit_vector);
    assert(pack_fields(a, b, r, l) == id) by (bit_vector)
        requires
            a == ((((id >> 48) as u16) << 8) | (((id >> 48) as u16) >> 8)),
            b == ((((id >> 32) as u16) << 8) | (((id >> 32) as u16) >> 8)),
            r == ((((id >> 16) as u16) << 8) | (((id >> 16) as u16) >> 8)),
            l == (((id as u16) << 8) | ((id as u16) >> 8)),
    ;
}

} // verus!
