use vstd::prelude::*;
use vstd::std_specs::hash::*;
use std::collections::HashSet;

verus! {

broadcast use vstd::std_specs::hash::group_hash_axioms;

/// A grid cell.
pub type Cell = (i32, i32, i32);

/// Offset that maps an `i32` onto `0..2^32`.
pub open spec fn shifted(v: i32) -> int {
    v as int + 0x8000_0000
}

/// The single number that stands for a cell: its three shifted coordinates
/// as digits in base 2^32.
pub open spec fn cell_code(c: Cell) -> int {
    shifted(c.0) * 0x1_0000_0000_0000_0000 + shifted(c.1) * 0x1_0000_0000 + shifted(c.2)
}

proof fn lemma_cell_code_injective(a: Cell, b: Cell)
    requires
        cell_code(a) == cell_code(b),
    ensures
        a == b,
{
    let (a0, a1, a2) = (shifted(a.0), shifted(a.1), shifted(a.2));
    let (b0, b1, b2) = (shifted(b.0), shifted(b.1), shifted(b.2));
    assert(a0 == b0 && a1 == b1 && a2 == b2) by (nonlinear_arith)
        requires
            0 <= a0 < 0x1_0000_0000,
            0 <= a1 < 0x1_0000_0000,
            0 <= a2 < 0x1_0000_0000,
            0 <= b0 < 0x1_0000_0000,
            0 <= b1 < 0x1_0000_0000,
            0 <= b2 < 0x1_0000_0000,
            a0 * 0x1_0000_0000_0000_0000 + a1 * 0x1_0000_0000 + a2 == b0 * 0x1_0000_0000_0000_0000
                + b1 * 0x1_0000_0000 + b2,
    ;
}

fn encode(x: i32, y: i32, z: i32) -> (r: u128)
    ensures
        r as int == cell_code((x, y, z)),
{
    let a = (x as i64 + 0x8000_0000) as u128;
    let b = (y as i64 + 0x8000_0000) as u128;
    let c = (z as i64 + 0x8000_0000) as u128;
    proof {
        assert(a * 0x1_0000_0000_0000_0000 + b * 0x1_0000_0000 + c < 0x1_0000_0000_0000_0000_0000_0000)
            by (nonlinear_arith)
            requires
                a < 0x1_0000_0000,
                b < 0x1_0000_0000,
                c < 0x1_0000_0000,
        ;
    }
    a * 0x1_0000_0000_0000_0000u128 + b * 0x1_0000_0000u128 + c
}

/// The set of occupied cells of a voxel scene.
pub struct OccupiedPositions {
    cells: HashSet<u128>,
}

impl OccupiedPositions {
    /// The occupied cells.
    pub closed spec fn view(&self) -> Set<Cell> {
        Set::new(|c: Cell| self.cells@.contains(cell_code(c) as u128))
    }

    proof fn lemma_view_insert(old_cells: Set<u128>, new_cells: Set<u128>, c: Cell)
        requires
            new_cells == old_cells.insert(cell_code(c) as u128),
        ensures
            Set::new(|d: Cell| new_cells.contains(cell_code(d) as u128)) == Set::new(
                |d: Cell| old_cells.contains(cell_code(d) as u128),
            ).insert(c),
    {
        assert forall|d: Cell| #[trigger] new_cells.contains(cell_code(d) as u128) implies old_cells.contains(
            cell_code(d) as u128,
        ) || d == c by {
            if !old_cells.contains(cell_code(d) as u128) {
                assert(cell_code(d) as u128 == cell_code(c) as u128);
                assert(0 <= cell_code(d) < 0x1_0000_0000_0000_0000_0000_0000);
                assert(0 <= cell_code(c) < 0x1_0000_0000_0000_0000_0000_0000);
                lemma_cell_code_injective(d, c);
            }
        }
        assert(Set::new(|d: Cell| new_cells.contains(cell_code(d) as u128)) =~= Set::new(
            |d: Cell| old_cells.contains(cell_code(d) as u128),
        ).insert(c));
    }

    proof fn lemma_view_remove(old_cells: Set<u128>, new_cells: Set<u128>, c: Cell)
        requires
            new_cells == old_cells.remove(cell_code(c) as u128),
        ensures
            Set::new(|d: Cell| new_cells.contains(cell_code(d) as u128)) == Set::new(
                |d: Cell| old_cells.contains(cell_code(d) as u128),
            ).remove(c),
    {
        assert forall|d: Cell| #[trigger] old_cells.contains(cell_code(d) as u128) && d != c implies new_cells.contains(
            cell_code(d) as u128,
        ) by {
            if cell_code(d) as u128 == cell_code(c) as u128 {
                assert(0 <= cell_code(d) < 0x1_0000_0000_0000_0000_0000_0000);
                assert(0 <= cell_code(c) < 0x1_0000_0000_0000_0000_0000_0000);
                lemma_cell_code_injective(d, c);
            }
        }
        assert(Set::new(|d: Cell| new_cells.contains(cell_code(d) as u128)) =~= Set::new(
            |d: Cell| old_cells.contains(cell_code(d) as u128),
        ).remove(c));
    }

    /// No cell occupied.
    pub fn new() -> (r: OccupiedPositions)
        ensures
            r.view() == Set::<Cell>::empty(),
    {
        let r = OccupiedPositions { cells: HashSet::new() };
        proof {
            assert(r.view() =~= Set::<Cell>::empty());
        }
        r
    }

    pub fn is_position_occupied(&self, x: i32, y: i32, z: i32) -> (r: bool)
        ensures
            r == self.view().contains((x, y, z)),
    {
        let k = encode(x, y, z);
        self.cells.contains(&k)
    }

    /// Marks a cell occupied; says whether it was free before.
    pub fn mark_position(&mut self, x: i32, y: i32, z: i32) -> (r: bool)
        ensures
            final(self).view() == old(self).view().insert((x, y, z)),
            r == !old(self).view().contains((x, y, z)),
    {
        let k = encode(x, y, z);
        let ghost before = self.cells@;
        let r = self.cells.insert(k);
        proof {
            Self::lemma_view_insert(before, self.cells@, (x, y, z));
        }
        r
    }

    /// Frees a cell.
    pub fn remove_block(&mut self, x: i32, y: i32, z: i32)
        ensures
            final(self).view() == old(self).view().remove((x, y, z)),
    {
        let k = encode(x, y, z);
        let ghost before = self.cells@;
        self.cells.remove(&k);
        proof {
            Self::lemma_view_remove(before, self.cells@, (x, y, z));
        }
    }
}

} // verus!
