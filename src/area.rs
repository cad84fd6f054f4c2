use vstd::prelude::*;
use crate::canvas::{FixedSizeCanvas, HorizontalLineCanvas};

verus! {

/// Draws anti-aliased filled circles: boundary cells are blended by how much of each cell
/// the circle covers, and the fully covered run between them is filled in one span.
///
/// The coverage of a cell is computed by the caller; this type decides which cells are
/// asked for and what is written.
pub struct AreaIntersectionRasterizer;

/// Which end of a row the boundary walk is working on.
#[derive(Clone, Copy, PartialEq, Eq, Debug)]
pub enum WalkPhase {
    FromLeft,
    FromRight,
    Finished,
}

/// The boundary walk of one row: cells `left ..= right` of row `row` are still open.
#[derive(Clone, Copy, PartialEq, Eq, Debug)]
pub struct BoundaryWalk {
    pub row: u32,
    pub left: u32,
    pub right: u32,
    pub phase: WalkPhase,
}

/// A sweep over the cells `min_x .. max_x` of the rows `y .. max_y`, row by row; the next
/// cell is (x, y).
#[derive(Clone, Copy, PartialEq, Eq, Debug)]
pub struct CellSweep {
    pub x: u32,
    pub y: u32,
    pub min_x: u32,
    pub max_x: u32,
    pub max_y: u32,
}

/// What one recorded coverage writes to a cell.
pub enum CellWrite {
    Kept,
    Blended,
    Solid,
}

impl CellSweep {
    /// The sweep's cells lie on a `w` x `h` canvas.
    pub open spec fn on_canvas(self, w: nat, h: nat) -> bool {
        self.min_x <= self.x < self.max_x <= w && self.y <= self.max_y <= h
    }

    /// Every cell has been visited.
    pub open spec fn done(self) -> bool {
        self.y >= self.max_y
    }

    /// The sweep after its next cell is visited.
    pub open spec fn advanced(self) -> CellSweep {
        if self.x + 1 < self.max_x {
            CellSweep { x: (self.x + 1) as u32, ..self }
        } else {
            CellSweep { x: self.min_x, y: (self.y + 1) as u32, ..self }
        }
    }
}

impl BoundaryWalk {
    /// The open cells of an unfinished walk lie on a `w` x `h` canvas.
    pub open spec fn on_canvas(self, w: nat, h: nat) -> bool {
        self.phase != WalkPhase::Finished ==> self.row < h && self.left <= self.right < w
    }

    /// The walk after the coverage of its next cell is recorded; `full` says the cell is
    /// wholly covered.
    pub open spec fn after(self, full: bool) -> BoundaryWalk {
        match self.phase {
            WalkPhase::FromLeft => if full {
                BoundaryWalk { phase: WalkPhase::FromRight, ..self }
            } else if self.left + 1 > self.right {
                BoundaryWalk { left: (self.left + 1) as u32, phase: WalkPhase::Finished, ..self }
            } else {
                BoundaryWalk { left: (self.left + 1) as u32, ..self }
            },
            WalkPhase::FromRight => if full || self.right <= self.left + 1 {
                BoundaryWalk { phase: WalkPhase::Finished, ..self }
            } else {
                BoundaryWalk { right: (self.right - 1) as u32, ..self }
            },
            WalkPhase::Finished => self,
        }
    }

    /// What recording the coverage of the next cell writes to cell (i, j).
    pub open spec fn write_at(self, full: bool, i: int, j: int) -> CellWrite {
        if j != self.row {
            CellWrite::Kept
        } else {
            match self.phase {
                WalkPhase::FromLeft => if !full && i == self.left {
                    CellWrite::Blended
                } else {
                    CellWrite::Kept
                },
                WalkPhase::FromRight => if full {
                    if self.left <= i <= self.right {
                        CellWrite::Solid
                    } else {
                        CellWrite::Kept
                    }
                } else if i == self.right {
                    CellWrite::Blended
                } else if i == self.left && self.right == self.left + 1 {
                    CellWrite::Solid
                } else {
                    CellWrite::Kept
                },
                WalkPhase::Finished => CellWrite::Kept,
            }
        }
    }
}

/// On a `w` x `h` canvas, recording a coverage writes only to open cells of the walk's own
/// row, and the open run only shrinks: nothing outside the run that `start_row` was given
/// is ever touched.
pub proof fn lemma_walk_writes_inside_run(
    walk: BoundaryWalk,
    w: u32,
    h: u32,
    full: bool,
    i: int,
    j: int,
)
    requires
        walk.on_canvas(w as nat, h as nat),
    ensures
        !(walk.write_at(full, i, j) is Kept) ==> j == walk.row && walk.left <= i <= walk.right,
        walk.after(full).row == walk.row,
        walk.left <= walk.after(full).left,
        walk.after(full).right <= walk.right,
{
}

impl AreaIntersectionRasterizer {
    /// Starts a sweep over the cells `min_x .. max_x` of the rows `min_y .. max_y`, both ends
    /// clipped to the canvas. Returns `None` when no cell of the box is on the canvas.
    pub fn start_box(width: u32, height: u32, min_x: u32, min_y: u32, max_x: u32, max_y: u32) -> (r:
        Option<CellSweep>)
        ensures
            r is Some <==> (min_x < max_x && min_x < width && min_y < max_y && min_y < height),
            r matches Some(s) ==> {
                &&& s == CellSweep {
                    x: min_x,
                    y: min_y,
                    min_x,
                    max_x: if max_x < width {
                        max_x
                    } else {
                        width
                    },
                    max_y: if max_y < height {
                        max_y
                    } else {
                        height
                    },
                }
                &&& s.on_canvas(width as nat, height as nat)
                &&& !s.done()
            },
    {
        if min_x >= max_x || min_x >= width || min_y >= max_y || min_y >= height {
            return None;
        }
        let end_x = if max_x < width {
            max_x
        } else {
            width
        };
        let end_y = if max_y < height {
            max_y
        } else {
            height
        };
        Some(CellSweep { x: min_x, y: min_y, min_x, max_x: end_x, max_y: end_y })
    }

    /// The cell the sweep visits next, or `None` once every cell has been visited.
    pub fn next_cell(sweep: &CellSweep) -> (r: Option<(u32, u32)>)
        ensures
            r == if sweep.done() {
                None
            } else {
                Some((sweep.x, sweep.y))
            },
    {
        if sweep.y >= sweep.max_y {
            None
        } else {
            Some((sweep.x, sweep.y))
        }
    }

    /// Writes `blended`, the paint scaled by the covered fraction, to the cell that
    /// `next_cell` named, and moves to the following cell.
    pub fn record_cell<P: View + Copy, C: HorizontalLineCanvas<P>>(
        sweep: &mut CellSweep,
        canvas: &mut C,
        blended: P,
    )
        requires
            old(canvas).well_formed(),
            old(sweep).on_canvas(old(canvas).width_spec(), old(canvas).height_spec()),
            !old(sweep).done(),
        ensures
            final(canvas).well_formed(),
            final(canvas).width_spec() == old(canvas).width_spec(),
            final(canvas).height_spec() == old(canvas).height_spec(),
            *final(sweep) == old(sweep).advanced(),
            final(sweep).on_canvas(final(canvas).width_spec(), final(canvas).height_spec()),
            forall|i: int, j: int|
                0 <= i < final(canvas).width_spec() && 0 <= j < final(canvas).height_spec()
                    ==> #[trigger] final(canvas).pixel(i, j) == if i == old(sweep).x && j == old(
                    sweep,
                ).y {
                    blended@
                } else {
                    old(canvas).pixel(i, j)
                },
    {
        canvas.draw_pixel(sweep.x, sweep.y, blended);
        if sweep.x + 1 < sweep.max_x {
            sweep.x = sweep.x + 1;
        } else {
            sweep.x = sweep.min_x;
            sweep.y = sweep.y + 1;
        }
    }

    /// Starts the walk of row `row` over the cells `lo ..= hi`, the last one clipped to the
    /// canvas's last column. Returns `None` when the row is off the canvas, `lo` is past its
    /// last column, or `lo > hi`.
    pub fn start_row(width: u32, height: u32, row: u32, lo: u32, hi: u32) -> (r: Option<
        BoundaryWalk,
    >)
        ensures
            r is Some <==> (row < height && lo < width && lo <= hi),
            r matches Some(walk) ==> {
                &&& walk.row == row
                &&& walk.left == lo
                &&& walk.right == if hi < width {
                    hi as int
                } else {
                    width - 1
                }
                &&& walk.phase == WalkPhase::FromLeft
                &&& walk.on_canvas(width as nat, height as nat)
            },
    {
        if row >= height || lo >= width || lo > hi {
            return None;
        }
        let right = if hi < width {
            hi
        } else {
            width - 1
        };
        Some(BoundaryWalk { row, left: lo, right, phase: WalkPhase::FromLeft })
    }

    /// The cell whose coverage the walk needs next, or `None` once the row is done.
    pub fn next_column(walk: &BoundaryWalk) -> (r: Option<u32>)
        ensures
            r == match walk.phase {
                WalkPhase::FromLeft => Some(walk.left),
                WalkPhase::FromRight => Some(walk.right),
                WalkPhase::Finished => None::<u32>,
            },
    {
        match walk.phase {
            WalkPhase::FromLeft => Some(walk.left),
            WalkPhase::FromRight => Some(walk.right),
            WalkPhase::Finished => None,
        }
    }

    /// Records the coverage of the cell that `next_column` named: `full` when the circle
    /// covers all of it, and `blended`, the paint scaled by the covered fraction. A partly
    /// covered cell gets `blended`; once both ends reach a fully covered cell the cells
    /// between them get `paint` in one span.
    pub fn record<P: View + Copy, C: HorizontalLineCanvas<P>>(
        walk: &mut BoundaryWalk,
        canvas: &mut C,
        full: bool,
        blended: P,
        paint: P,
    )
        requires
            old(canvas).well_formed(),
            old(walk).on_canvas(old(canvas).width_spec(), old(canvas).height_spec()),
        ensures
            final(canvas).well_formed(),
            final(canvas).width_spec() == old(canvas).width_spec(),
            final(canvas).height_spec() == old(canvas).height_spec(),
            *final(walk) == old(walk).after(full),
            final(walk).on_canvas(final(canvas).width_spec(), final(canvas).height_spec()),
            forall|i: int, j: int|
                0 <= i < final(canvas).width_spec() && 0 <= j < final(canvas).height_spec()
                    ==> #[trigger] final(canvas).pixel(i, j) == match old(walk).write_at(
                    full,
                    i,
                    j,
                ) {
                    CellWrite::Kept => old(canvas).pixel(i, j),
                    CellWrite::Blended => blended@,
                    CellWrite::Solid => paint@,
                },
    {
        // the canvas width bounds the open cells, so moving either end cannot overflow
        let _ = canvas.width();
        match walk.phase {
            WalkPhase::FromLeft => {
                if full {
                    walk.phase = WalkPhase::FromRight;
                } else {
                    canvas.draw_pixel(walk.left, walk.row, blended);
                    walk.left = walk.left + 1;
                    if walk.left > walk.right {
                        walk.phase = WalkPhase::Finished;
                    }
                }
            },
            WalkPhase::FromRight => {
                if full {
                    canvas.draw_horizontal_line(walk.left, walk.right + 1, walk.row, paint);
                    walk.phase = WalkPhase::Finished;
                } else {
                    canvas.draw_pixel(walk.right, walk.row, blended);
                    if walk.right <= walk.left + 1 {
                        if walk.right > walk.left {
                            canvas.draw_pixel(walk.left, walk.row, paint);
                        }
                        walk.phase = WalkPhase::Finished;
                    } else {
                        walk.right = walk.right - 1;
                    }
                }
            },
            WalkPhase::Finished => {},
        }
    }
}

} // verus!
