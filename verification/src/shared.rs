//! Board configuration and the mapping between pixel and cell coordinates.

use vstd::prelude::*;

verus! {

/// Side length of one board cell in pixels; the grid adds a one-pixel line
/// before each cell, so a cell occupies `CELL_SIZE + 1` pixels of pitch.
pub const CELL_SIZE: usize = 32;

/// Pixel pitch of one cell: the cell itself plus one grid-line pixel.
pub const CELL_PITCH: usize = CELL_SIZE + 1;

/// Display language for the bilingual user interface.
#[derive(Copy, Clone, Debug, PartialEq, Eq, Structural)]
pub enum Lang {
    En,
    Jp,
}

impl Lang {
    /// Picks the English or the Japanese variant of a value.
    pub fn en_jp<T>(self, t_en: T, t_jp: T) -> (r: T)
        ensures
            self == Lang::En ==> r == t_en,
            self == Lang::Jp ==> r == t_jp,
    {
        match self {
            Lang::En => t_en,
            Lang::Jp => t_jp,
        }
    }
}

/// Game configuration: board dimensions in cells, the number of mines, the
/// language, and the pixel size of the render buffer (set by the window code).
pub struct Config {
    pub lang: Lang,
    pub cell_cols: usize,
    pub cell_rows: usize,
    pub mine_count: usize,
    pub buffer_width: usize,
    pub buffer_height: usize,
}

impl Default for Config {
    fn default() -> (c: Config)
        ensures
            c.lang == Lang::En,
            c.cell_cols == 10,
            c.cell_rows == 10,
            c.mine_count == 10,
            c.buffer_width == 0,
            c.buffer_height == 0,
    {
        Config {
            lang: Lang::En,
            cell_cols: 10,
            cell_rows: 10,
            mine_count: 10,
            buffer_width: 0,
            buffer_height: 0,
        }
    }
}

impl Config {
    /// Picks the English or the Japanese variant of a value, by the
    /// configured language.
    pub fn en_jp<T>(&self, t_en: T, t_jp: T) -> (r: T)
        ensures
            self.lang == Lang::En ==> r == t_en,
            self.lang == Lang::Jp ==> r == t_jp,
    {
        self.lang.en_jp(t_en, t_jp)
    }

    /// Width of the board area in pixels.
    pub fn board_width(&self) -> (w: usize)
        requires
            CELL_PITCH * self.cell_cols <= usize::MAX,
        ensures
            w == CELL_PITCH * self.cell_cols,
    {
        CELL_PITCH * self.cell_cols
    }

    /// Height of the board area in pixels.
    pub fn board_height(&self) -> (h: usize)
        requires
            CELL_PITCH * self.cell_rows <= usize::MAX,
        ensures
            h == CELL_PITCH * self.cell_rows,
    {
        CELL_PITCH * self.cell_rows
    }

    /// Maps 2D cell coordinates to the flat index `y * cols + x`.
    #[inline]
    pub fn cell_coords_to_idx(&self, x: usize, y: usize) -> (i: usize)
        requires
            x < self.cell_cols,
            y < self.cell_rows,
            self.cell_rows * self.cell_cols <= usize::MAX,
        ensures
            i == y * self.cell_cols + x,
            i < self.cell_rows * self.cell_cols,
    {
        proof {
            assert(y * self.cell_cols + x < self.cell_rows * self.cell_cols) by (nonlinear_arith)
                requires
                    x < self.cell_cols,
                    y < self.cell_rows,
            ;
        }
        y * self.cell_cols + x
    }

    /// Converts pixel coordinates to cell coordinates. Returns `None` for
    /// pixels outside the board or on a grid line.
    pub fn pos_to_cell(&self, pos: (usize, usize)) -> (r: Option<(usize, usize)>)
        requires
            CELL_PITCH * self.cell_cols <= usize::MAX,
            CELL_PITCH * self.cell_rows <= usize::MAX,
        ensures
            ({
                let (x, y) = pos;
                if x < CELL_PITCH * self.cell_cols && x % CELL_PITCH != 0
                    && y < CELL_PITCH * self.cell_rows && y % CELL_PITCH != 0 {
                    r == Some((x / CELL_PITCH, y / CELL_PITCH))
                } else {
                    r is None
                }
            }),
            r matches Some(p) ==> p.0 < self.cell_cols && p.1 < self.cell_rows,
    {
        let (x, y) = pos;
        if x < self.board_width() && x % CELL_PITCH != 0 && y < self.board_height()
            && y % CELL_PITCH != 0 {
            proof {
                assert(x / CELL_PITCH < self.cell_cols && y / CELL_PITCH
                    < self.cell_rows) by (nonlinear_arith)
                    requires
                        x < CELL_PITCH * self.cell_cols,
                        y < CELL_PITCH * self.cell_rows,
                ;
            }
            Some((x / CELL_PITCH, y / CELL_PITCH))
        } else {
            None
        }
    }
}

} // verus!
