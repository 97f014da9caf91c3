//! Cells of the H3 grid on a layer, and the questions that the h3o crate
//! answers about H3 cells.

use super::cell::HexCell;
use crate::bytes::{low_bytes, low_bytes_of};
use crate::graph::{GraphError, NodeKey};
use h3o::CellIndex;
use std::collections::hash_map::DefaultHasher;
use std::hash::Hasher;
use vstd::prelude::*;
use vstd::std_specs::hash::DefaultHasherAdditionalSpecFns;

verus! {

/// A cell of the H3 grid on a layer. `cell` is the 64-bit index of the cell.
#[derive(Debug, Clone, Copy, PartialEq, Eq, Hash, Structural)]
pub struct H3Cell {
    pub cell: u64,
    pub layer: i16,
}

impl NodeKey for H3Cell {
    open spec fn key_spec(&self) -> (u64, i16) {
        (self.cell, self.layer)
    }

    fn key(&self) -> (k: (u64, i16)) {
        (self.cell, self.layer)
    }

    proof fn lemma_key_injective(a: Self, b: Self) {
    }
}

/// The widest ring that is asked of the grid.
pub const MAX_RING: u32 = 255;

/// Whether a number is the index of an H3 cell.
pub uninterp spec fn h3_is_cell(index: u64) -> bool;

/// The line of cells that H3 draws from one cell to another, both ends
/// included; each place holds a cell, or nothing where H3 found none. It is
/// empty where one of the numbers is no cell or H3 cannot draw the line.
pub uninterp spec fn h3_grid_path(from: u64, to: u64) -> Seq<Option<u64>>;

/// The cells at exactly `k` steps from a cell, in the order in which H3 lists
/// them; none where the number is no cell.
pub uninterp spec fn h3_grid_ring(cell: u64, k: u32) -> Seq<u64>;

/// The number of steps from one cell to another, where H3 can tell.
pub uninterp spec fn h3_grid_distance(from: u64, to: u64) -> Option<i32>;

/// The coordinates of a cell in the plane that H3 lays around `origin`,
/// where it can.
pub uninterp spec fn h3_local_ij(cell: u64, origin: u64) -> Option<(i32, i32)>;

/// The index of the directed edge from one cell to a neighbour of it.
pub uninterp spec fn h3_edge(from: u64, to: u64) -> Option<u64>;

/// `CellIndex::try_from`: whether h3o accepts the number as a cell index.
#[verifier::external_body]
pub(crate) fn is_cell(index: u64) -> (b: bool)
    ensures
        b == h3_is_cell(index),
{
    CellIndex::try_from(index).is_ok()
}

/// `CellIndex::grid_path_cells`: the line of cells between two cells, as
/// h3o hands them out one by one.
#[verifier::external_body]
pub(crate) fn grid_path(from: u64, to: u64) -> (cells: Vec<Option<u64>>)
    ensures
        cells@ == h3_grid_path(from, to),
{
    match (CellIndex::try_from(from), CellIndex::try_from(to)) {
        (Ok(a), Ok(b)) => match a.grid_path_cells(b) {
            Ok(path) => path.map(|cell| cell.ok().map(u64::from)).collect(),
            Err(_) => Vec::new(),
        },
        _ => Vec::new(),
    }
}

/// `CellIndex::grid_ring`: the cells at exactly `k` steps from a cell. The
/// memory that h3o sets aside grows with the square of `k`, so `k` is kept
/// small.
#[verifier::external_body]
pub(crate) fn grid_ring(cell: u64, k: u32) -> (cells: Vec<u64>)
    requires
        k <= MAX_RING,
    ensures
        cells@ == h3_grid_ring(cell, k),
{
    match CellIndex::try_from(cell) {
        Ok(c) => c.grid_ring::<Vec<CellIndex>>(k).into_iter().map(u64::from).collect(),
        Err(_) => Vec::new(),
    }
}

/// `CellIndex::grid_distance`: the number of steps between two cells.
#[verifier::external_body]
pub(crate) fn grid_distance(from: u64, to: u64) -> (d: Option<i32>)
    ensures
        d == h3_grid_distance(from, to),
{
    match (CellIndex::try_from(from), CellIndex::try_from(to)) {
        (Ok(a), Ok(b)) => a.grid_distance(b).ok(),
        _ => None,
    }
}

/// `CellIndex::to_local_ij`: the coordinates of a cell around an origin.
#[verifier::external_body]
pub(crate) fn local_ij(cell: u64, origin: u64) -> (ij: Option<(i32, i32)>)
    ensures
        ij == h3_local_ij(cell, origin),
{
    match (CellIndex::try_from(cell), CellIndex::try_from(origin)) {
        (Ok(c), Ok(o)) => c.to_local_ij(o).ok().map(|l| (l.coord.i, l.coord.j)),
        _ => None,
    }
}

/// `CellIndex::edge`: the directed edge between two neighbouring cells.
#[verifier::external_body]
pub(crate) fn edge_between(from: u64, to: u64) -> (e: Option<u64>)
    ensures
        e == h3_edge(from, to),
{
    match (CellIndex::try_from(from), CellIndex::try_from(to)) {
        (Ok(a), Ok(b)) => a.edge(b).map(u64::from),
        _ => None,
    }
}

impl H3Cell {
    /// What is fed to the hasher for a cell: the eight bytes of the index,
    /// four zero bytes, and the two bytes of the layer.
    pub open spec fn hash_input(self) -> Seq<Seq<u8>> {
        seq![low_bytes(self.cell, 8), low_bytes(0, 4), low_bytes(self.layer as u16 as u64, 2)]
    }

    /// A hash of cell and layer together.
    pub fn cell_hash(&self) -> (h: u64)
        ensures
            h == DefaultHasher::spec_finish(self.hash_input()),
    {
        let mut hasher = DefaultHasher::new();
        let cell = low_bytes_of(self.cell, 8);
        let gap = low_bytes_of(0, 4);
        let layer: u16 = #[verifier::truncate] (self.layer as u16);
        let tail = low_bytes_of(layer as u64, 2);
        hasher.write(cell.as_slice());
        hasher.write(gap.as_slice());
        hasher.write(tail.as_slice());
        assert(hasher@ =~= self.hash_input());
        hasher.finish()
    }

    /// The flat hexagon cell at the coordinates that H3 gives this cell
    /// around `origin`, on the layer of this cell. Coordinates beyond 16
    /// bits are cut to their low 16 bits.
    pub fn to_cell(&self, origin: u64) -> (r: Result<HexCell, GraphError>)
        ensures
            r == match h3_local_ij(self.cell, origin) {
                Some(ij) => Ok(HexCell::spec_from_local_ij(ij.0, ij.1, self.layer)),
                None => Err(GraphError::NoLocalCoordinates),
            },
    {
        match local_ij(self.cell, origin) {
            Some(ij) => Ok(HexCell::from_local_ij(ij.0, ij.1, self.layer)),
            None => Err(GraphError::NoLocalCoordinates),
        }
    }
}

} // verus!
