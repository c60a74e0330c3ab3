//! Which peers to look at when something moves: a grid of cells over the areas that peers
//! asked to see.

use vstd::prelude::*;
use crate::order::{sorted, sorted_texts};
use crate::strmap::{Dup, texts, StrMap, StrSet};

verus! {

broadcast use crate::strmap::group_map;

/// An area that takes up more cells than this is not put on the grid.
pub const MAX_GRID_CELLS: i64 = 256;

/// A cell of the grid.
#[derive(Clone, Copy, Debug, PartialEq, Eq, Structural)]
pub struct GridCell {
    pub x: i64,
    pub y: i64,
}

impl View for GridCell {
    type V = GridCell;

    open spec fn view(&self) -> GridCell {
        *self
    }
}

/// The corners of an area in cells.
#[derive(Clone, Copy, Debug, PartialEq, Eq, Structural)]
pub struct CellBox {
    pub x0: i64,
    pub x1: i64,
    pub y0: i64,
    pub y1: i64,
}

impl CellBox {
    /// Whether the area holds a cell.
    pub open spec fn holds(self, c: GridCell) -> bool {
        self.x0 <= c.x <= self.x1 && self.y0 <= c.y <= self.y1
    }

    /// Whether the area is small enough for the grid.
    pub open spec fn fits(self) -> bool {
        (self.x1 - self.x0 + 1) * (self.y1 - self.y0 + 1) <= MAX_GRID_CELLS
    }

    /// Whether the area has no cell.
    pub open spec fn is_void(self) -> bool {
        self.x1 < self.x0 || self.y1 < self.y0
    }
}

/// Some cells.
pub struct Cells(pub Vec<GridCell>);

impl View for Cells {
    type V = Seq<GridCell>;

    open spec fn view(&self) -> Seq<GridCell> {
        self.0@
    }
}

/// The cells of an area, each once; none where it is too large for the grid.
pub fn interest_cells_for(b: CellBox) -> (r: Vec<GridCell>)
    ensures
        forall|c: GridCell| #[trigger] r@.contains(c) <==> b.fits() && b.holds(c),
        r.len() == 0 <==> !b.fits() || b.is_void(),
        r@.no_duplicates(),
{
    let mut out: Vec<GridCell> = Vec::new();
    if b.x1 < b.x0 || b.y1 < b.y0 {
        return out;
    }
    let w: i128 = b.x1 as i128 - b.x0 as i128 + 1;
    let h: i128 = b.y1 as i128 - b.y0 as i128 + 1;
    let max: i128 = MAX_GRID_CELLS as i128;
    let narrow: bool = w <= max && h <= max;
    proof {
        if narrow {
            assert(0 < w * h <= MAX_GRID_CELLS * MAX_GRID_CELLS) by (nonlinear_arith)
                requires
                    1 <= w <= MAX_GRID_CELLS,
                    1 <= h <= MAX_GRID_CELLS,
            ;
        }
    }
    if !narrow || w * h > max {
        proof {
            assert(w * h > MAX_GRID_CELLS) by (nonlinear_arith)
                requires
                    w >= 1,
                    h >= 1,
                    w > MAX_GRID_CELLS || h > MAX_GRID_CELLS || w * h > MAX_GRID_CELLS,
            ;
            assert((b.x1 - b.x0 + 1) * (b.y1 - b.y0 + 1) == w * h);
        }
        return out;
    }
    proof {
        assert((b.x1 - b.x0 + 1) * (b.y1 - b.y0 + 1) == w * h);
    }
    let mut dx: i64 = 0;
    while dx < w as i64
        invariant
            0 <= dx <= w <= MAX_GRID_CELLS,
            1 <= h <= MAX_GRID_CELLS,
            w == b.x1 - b.x0 + 1,
            h == b.y1 - b.y0 + 1,
            forall|c: GridCell| #[trigger] out@.contains(c) <==> b.holds(c) && c.x < b.x0 + dx,
            out@.no_duplicates(),
        decreases w - dx,
    {
        let ghost before = out@;
        let x: i64 = b.x0 + dx;
        let mut dy: i64 = 0;
        while dy < h as i64
            invariant
                0 <= dx < w <= MAX_GRID_CELLS,
                0 <= dy <= h <= MAX_GRID_CELLS,
                w == b.x1 - b.x0 + 1,
                h == b.y1 - b.y0 + 1,
                x == b.x0 + dx,
                forall|c: GridCell| #[trigger] before.contains(c) <==> b.holds(c) && c.x < x,
                forall|c: GridCell| #[trigger]
                    out@.contains(c) <==> before.contains(c) || (c.x == x && b.y0 <= c.y < b.y0 + dy),
                out@.no_duplicates(),
            decreases h - dy,
        {
            let ghost seen = out@;
            let cell = GridCell { x, y: b.y0 + dy };
            proof {
                assert(!seen.contains(cell));
            }
            out.push(cell);
            dy = dy + 1;
            proof {
                assert(out@ =~= seen.push(cell));
                assert forall|c: GridCell| #[trigger]
                    out@.contains(c) <==> before.contains(c) || (c.x == x && b.y0 <= c.y < b.y0
                        + dy) by {
                    crate::json::lemma_push_contains(seen, cell, c);
                }
            }
        }
        dx = dx + 1;
    }
    proof {
        assert(out@.contains(GridCell { x: b.x0, y: b.y0 }));
    }
    out
}

/// Where peers look: the cells of each peer's area, the peers that look everywhere, and
/// the cell that each entity was last told of from.
pub struct InterestGrid {
    pub cells: StrMap<Cells>,
    pub global_workers: StrSet,
    pub last_broadcast_cell: StrMap<GridCell>,
}

/// An `InterestGrid` by its views.
#[verifier::ext_equal]
pub ghost struct Lookouts {
    pub cells: Map<Seq<char>, Seq<GridCell>>,
    pub global: Set<Seq<char>>,
    pub last: Map<Seq<char>, GridCell>,
}

impl View for InterestGrid {
    type V = Lookouts;

    open spec fn view(&self) -> Lookouts {
        Lookouts {
            cells: self.cells@,
            global: self.global_workers@,
            last: self.last_broadcast_cell@,
        }
    }
}

impl Lookouts {
    /// Whether a peer's area has a cell.
    pub open spec fn covers(self, wid: Seq<char>, c: GridCell) -> bool {
        self.cells.contains_key(wid) && self.cells[wid].contains(c)
    }

    /// The peers to look at when something moved from one cell to another.
    pub open spec fn candidates(self, from: Option<GridCell>, to: GridCell) -> Set<Seq<char>> {
        Set::new(
            |w: Seq<char>|
                self.global.contains(w) || self.covers(w, to) || (from is Some && self.covers(
                    w,
                    from->0,
                )),
        )
    }

    /// The grid without a peer.
    pub open spec fn without(self, wid: Seq<char>) -> Lookouts {
        Lookouts { cells: self.cells.remove(wid), global: self.global.remove(wid), ..self }
    }

    /// The cell that an entity was last told of from.
    pub open spec fn last_cell(self, eid: Seq<char>) -> Option<GridCell> {
        if self.last.contains_key(eid) {
            Some(self.last[eid])
        } else {
            None
        }
    }

    /// The grid with an entity in a cell.
    pub open spec fn settled(self, eid: Seq<char>, c: GridCell) -> Lookouts {
        Lookouts { last: self.last.insert(eid, c), ..self }
    }

    /// The grid without an entity.
    pub open spec fn forgotten(self, eid: Seq<char>) -> Lookouts {
        Lookouts { last: self.last.remove(eid), ..self }
    }

    /// The grid with a peer's area: one that is too large for the grid looks everywhere,
    /// and without an area it does so where its part gives it that.
    pub open spec fn with_area(
        self,
        wid: Seq<char>,
        area: Option<Seq<GridCell>>,
        global: bool,
    ) -> Lookouts {
        let g = self.without(wid);
        match area {
            Some(cells) => if cells.len() == 0 {
                Lookouts { global: g.global.insert(wid), ..g }
            } else {
                Lookouts { cells: g.cells.insert(wid, cells), ..g }
            },
            None => if global {
                Lookouts { global: g.global.insert(wid), ..g }
            } else {
                g
            },
        }
    }
}

impl InterestGrid {
    /// A grid without peers.
    pub fn new() -> (r: InterestGrid)
        ensures
            r@ == (Lookouts { cells: Map::empty(), global: Set::empty(), last: Map::empty() }),
    {
        InterestGrid {
            cells: StrMap::new(),
            global_workers: StrSet::new(),
            last_broadcast_cell: StrMap::new(),
        }
    }

    /// Puts an entity into a cell without telling anyone.
    pub fn settle(&mut self, eid: &str, c: GridCell)
        ensures
            final(self)@ == old(self)@.settled(eid@, c),
    {
        self.last_broadcast_cell.insert(eid, c);
    }

    /// Forgets an entity.
    pub fn forget(&mut self, eid: &str)
        ensures
            final(self)@ == old(self)@.forgotten(eid@),
    {
        self.last_broadcast_cell.remove(eid);
    }

    /// The peers to look at when an entity is told of from a cell, which is then the last
    /// that it was told of from.
    pub fn moved(&mut self, eid: &str, to: GridCell) -> (r: Vec<String>)
        ensures
            texts(r@) == sorted(old(self)@.candidates(old(self)@.last_cell(eid@), to)),
            texts(r@).to_set() == old(self)@.candidates(old(self)@.last_cell(eid@), to),
            final(self)@ == old(self)@.settled(eid@, to),
    {
        let from = match self.last_broadcast_cell.get(eid) {
            Some(c) => Some(*c),
            None => None,
        };
        let r = self.candidates(from, to);
        self.settle(eid, to);
        r
    }

    /// Takes a peer off the grid.
    pub fn remove(&mut self, wid: &str)
        ensures
            final(self)@ == old(self)@.without(wid@),
    {
        self.cells.remove(wid);
        self.global_workers.remove(wid);
    }

    /// Puts a peer's area on the grid.
    pub fn update(&mut self, wid: &str, area: Option<Vec<GridCell>>, global: bool)
        ensures
            final(self)@ == old(self)@.with_area(
                wid@,
                match area {
                    Some(v) => Some(v@),
                    None => None,
                },
                global,
            ),
    {
        self.remove(wid);
        match area {
            Some(v) => {
                if v.len() == 0 {
                    self.global_workers.insert(wid);
                } else {
                    self.cells.insert(wid, Cells(v));
                }
            },
            None => {
                if global {
                    self.global_workers.insert(wid);
                }
            },
        }
    }

    /// The peers to look at when something moved from one cell to another, in order.
    pub fn candidates(&self, from: Option<GridCell>, to: GridCell) -> (r: Vec<String>)
        ensures
            texts(r@) == sorted(self@.candidates(from, to)),
            texts(r@).to_set() == self@.candidates(from, to),
    {
        let mut out = self.global_workers.dup();
        let n: usize = self.cells.len();
        let ghost order = self.cells.order();
        let ghost g = self@;
        let mut i: usize = 0;
        while i < n
            invariant
                i <= n == order.len(),
                order == self.cells.order(),
                g == self@,
                forall|w: Seq<char>| #[trigger]
                    out@.contains(w) <==> g.global.contains(w) || (order.take(i as int).contains(w)
                        && (g.covers(w, to) || (from is Some && g.covers(w, from->0)))),
            decreases n - i,
        {
            let ghost seen = order.take(i as int);
            let v = self.cells.value_at(i);
            let here: bool = has_cell(&v.0, to) || match from {
                Some(c) => has_cell(&v.0, c),
                None => false,
            };
            if here {
                out.insert(self.cells.key_at(i));
            }
            i = i + 1;
            proof {
                assert(order.take(i as int) =~= seen.push(order[i - 1]));
                assert forall|w: Seq<char>| #[trigger]
                    out@.contains(w) <==> g.global.contains(w) || (order.take(i as int).contains(w)
                        && (g.covers(w, to) || (from is Some && g.covers(w, from->0)))) by {
                    crate::json::lemma_push_contains(seen, order[i - 1], w);
                }
            }
        }
        proof {
            assert(order.take(n as int) =~= order);
            assert forall|k: Seq<char>| order.contains(k) == g.cells.contains_key(k) by {
                assert(order.to_set().contains(k) == order.contains(k));
            }
            assert(out@ =~= g.candidates(from, to));
        }
        sorted_texts(&out)
    }
}

fn has_cell(v: &Vec<GridCell>, c: GridCell) -> (r: bool)
    ensures
        r == v@.contains(c),
{
    let mut i: usize = 0;
    while i < v.len()
        invariant
            i <= v.len(),
            forall|j: int| 0 <= j < i ==> v@[j] != c,
        decreases v.len() - i,
    {
        if v[i].x == c.x && v[i].y == c.y {
            assert(v@[i as int] == c);
            return true;
        }
        i = i + 1;
    }
    false
}

/// Nobody is overlooked: a peer whose area has the cell that an entity enters, or the one
/// that it was last told of from, is looked at, and so is a peer whose area is too large
/// for the grid.
pub proof fn law_nobody_is_overlooked(
    g: Lookouts,
    wid: Seq<char>,
    cells: Seq<GridCell>,
    eid: Seq<char>,
    from: GridCell,
    to: GridCell,
)
    requires
        cells.len() == 0 || cells.contains(from) || cells.contains(to),
    ensures
        ({
            let after = g.settled(eid, from).with_area(wid, Some(cells), false);
            after.candidates(after.last_cell(eid), to).contains(wid)
        }),
{
}

/// A peer that is gone is not looked at.
pub proof fn law_gone_peers_are_not_looked_at(
    g: Lookouts,
    wid: Seq<char>,
    from: Option<GridCell>,
    to: GridCell,
)
    ensures
        !g.without(wid).candidates(from, to).contains(wid),
{
}

}
