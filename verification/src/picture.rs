//! Maps as pictures, in the portable greymap format.

use vstd::prelude::*;
use crate::grid::OccupancyGrid;
use crate::text::{chars_of, push_decimal};
use crate::text::decimal;

verus! {

/// How log-odds become shades of grey.
#[derive(Debug, Clone, Copy, PartialEq, Eq, Structural)]
pub struct Palette {
    /// Above this a cell is a wall.
    pub wall_above: i16,
    /// Below this it is free.
    pub free_below: i16,
    pub wall: u8,
    pub free: u8,
    pub unknown: u8,
    /// The shade of marked cells, whatever they hold.
    pub marked: u8,
}

/// The shade of a cell.
pub open spec fn shade(p: Palette, log: i16, marked: bool) -> u8 {
    if marked {
        p.marked
    } else if log > p.wall_above {
        p.wall
    } else if log < p.free_below {
        p.free
    } else {
        p.unknown
    }
}

/// Dark walls only where they are certain.
pub open spec fn certain_palette() -> Palette {
    Palette { wall_above: 150, free_below: -50i16, wall: 0, free: 230, unknown: 160, marked: 70 }
}

/// Dark walls wherever the map leans that way.
pub open spec fn likely_palette() -> Palette {
    Palette { wall_above: 50, free_below: -50i16, wall: 0, free: 230, unknown: 128, marked: 70 }
}

/// Dark walls only where they are certain.
pub fn certain_walls() -> (p: Palette)
    ensures
        p == certain_palette(),
{
    Palette { wall_above: 150, free_below: -50, wall: 0, free: 230, unknown: 160, marked: 70 }
}

/// Dark walls wherever the map leans that way.
pub fn likely_walls() -> (p: Palette)
    ensures
        p == likely_palette(),
{
    Palette { wall_above: 50, free_below: -50, wall: 0, free: 230, unknown: 128, marked: 70 }
}

/// The header's text: the format, the size and the brightest shade.
pub open spec fn header_text(w: nat, h: nat) -> Seq<char> {
    "P5 "@ + decimal(w) + " "@ + decimal(h) + " 255\n"@
}

/// The header's bytes.
pub open spec fn header(w: nat, h: nat) -> Seq<u8> {
    header_text(w, h).map_values(|c: char| c as u8)
}

/// The cell is marked.
pub open spec fn is_marked(marks: Option<Seq<bool>>, k: int) -> bool {
    match marks {
        Some(m) => m[k],
        None => false,
    }
}

/// The `k`-th pixel: the picture's first row is the grid's last.
pub open spec fn pixel(grid: OccupancyGrid, p: Palette, marks: Option<Seq<bool>>, k: int) -> u8 {
    let i = grid.h() - 1 - k / grid.w();
    let j = k % grid.w();
    shade(p, grid.at(i, j), is_marked(marks, i * grid.w() + j))
}

fn push_header(out: &mut Vec<u8>, w: usize, h: usize)
    requires
        old(out)@.len() == 0,
    ensures
        final(out)@ == header(w as nat, h as nat),
{
    let mut text = String::new();
    text.append("P5 ");
    push_decimal(&mut text, w as u64);
    text.append(" ");
    push_decimal(&mut text, h as u64);
    text.append(" 255\n");
    assert(text@ =~= header_text(w as nat, h as nat));
    let chars = chars_of(text.as_str());
    let mut i: usize = 0;
    while i < chars.len()
        invariant
            i <= chars@.len(),
            out@ =~= chars@.take(i as int).map_values(|c: char| c as u8),
        decreases chars.len() - i,
    {
        out.push(chars[i] as u8);
        i += 1;
    }
    assert(chars@.take(i as int) =~= chars@);
}

/// The map as a picture: the last row of the grid on top, so that y points up. Where
/// there are marks, one for each cell, marked cells show as such.
pub fn pgm(grid: &OccupancyGrid, palette: Palette, marks: Option<&[bool]>) -> (out: Vec<u8>)
    requires
        grid.well_formed(),
        marks matches Some(m) ==> m@.len() == grid.cells().len(),
    ensures
        out@.len() == header(grid.w() as nat, grid.h() as nat).len() + grid.cells().len(),
        out@.take(header(grid.w() as nat, grid.h() as nat).len() as int) == header(
            grid.w() as nat,
            grid.h() as nat,
        ),
        forall|k: int|
            0 <= k < grid.cells().len() ==> #[trigger] out@.skip(
                header(grid.w() as nat, grid.h() as nat).len() as int,
            )[k] == pixel(
                *grid,
                palette,
                match marks {
                    Some(m) => Some(m@),
                    None => None,
                },
                k,
            ),
{
    let w: usize = grid.width();
    let h: usize = grid.height();
    let ghost head = header(w as nat, h as nat);
    let ghost given = match marks {
        Some(m) => Some(m@),
        None => None,
    };
    let mut out: Vec<u8> = Vec::new();
    push_header(&mut out, w, h);
    let mut left: usize = h;
    while left > 0
        invariant
            left <= h,
            w == grid.w(),
            h == grid.h(),
            grid.well_formed(),
            marks matches Some(m) ==> m@.len() == grid.cells().len(),
            given == (match marks {
                Some(m) => Some(m@),
                None => None,
            }),
            out@.len() == head.len() + (h - left) * w,
            out@.take(head.len() as int) =~= head,
            forall|k: int|
                0 <= k < (h - left) * w ==> #[trigger] out@.skip(head.len() as int)[k] == pixel(
                    *grid,
                    palette,
                    given,
                    k,
                ),
        decreases left,
    {
        let i: usize = left - 1;
        let mut j: usize = 0;
        while j < w
            invariant
                i == left - 1,
                left <= h,
                j <= w,
                w == grid.w(),
                h == grid.h(),
                grid.well_formed(),
                marks matches Some(m) ==> m@.len() == grid.cells().len(),
                given == (match marks {
                    Some(m) => Some(m@),
                    None => None,
                }),
                out@.len() == head.len() + (h - left) * w + j,
                out@.take(head.len() as int) =~= head,
                forall|k: int|
                    0 <= k < (h - left) * w + j ==> #[trigger] out@.skip(head.len() as int)[k]
                        == pixel(*grid, palette, given, k),
            decreases w - j,
        {
            let at: usize = grid.position(i, j);
            let marked = match marks {
                Some(m) => m[at],
                None => false,
            };
            let log: i16 = grid.log_at(i, j);
            let ghost before = out@;
            let px: u8 = if marked {
                palette.marked
            } else if log > palette.wall_above {
                palette.wall
            } else if log < palette.free_below {
                palette.free
            } else {
                palette.unknown
            };
            out.push(px);
            proof {
                let n = (h - left) * w + j;
                vstd::arithmetic::div_mod::lemma_fundamental_div_mod_converse(
                    n,
                    w as int,
                    (h - left) as int,
                    j as int,
                );
                assert(px == pixel(*grid, palette, given, n));
                assert(out@.take(head.len() as int) =~= before.take(head.len() as int));
                assert forall|k: int| 0 <= k < n + 1 implies #[trigger] out@.skip(
                    head.len() as int,
                )[k] == pixel(*grid, palette, given, k) by {
                    if k < n {
                        assert(out@.skip(head.len() as int)[k] == before.skip(
                            head.len() as int,
                        )[k]);
                    }
                }
            }
            j += 1;
        }
        left -= 1;
        assert((h - left) * w == (h - left - 1) * w + w) by (nonlinear_arith);
    }
    proof {
        grid.lemma_size();
    }
    out
}

/// The shade of a cell is that of its kind: marked cells show as such whatever they
/// hold, and else what is above the one bound is a wall, what is below the other is
/// free, and what is between, both bounds with it, is unknown.
pub proof fn law_shades(p: Palette, log: i16, marked: bool)
    requires
        p.free_below <= p.wall_above,
    ensures
        marked ==> shade(p, log, marked) == p.marked,
        !marked && p.wall_above < log ==> shade(p, log, marked) == p.wall,
        !marked && log < p.free_below ==> shade(p, log, marked) == p.free,
        !marked && p.free_below <= log <= p.wall_above ==> shade(p, log, marked) == p.unknown,
{
}

/// In the picture y points up: the grid's row `i` stands `i` rows above the picture's
/// last, and its columns run from left to right.
pub proof fn law_the_picture_is_upright(
    grid: OccupancyGrid,
    p: Palette,
    marks: Option<Seq<bool>>,
    i: int,
    j: int,
)
    requires
        grid.well_formed(),
        0 <= i < grid.h(),
        0 <= j < grid.w(),
    ensures
        pixel(grid, p, marks, (grid.h() - 1 - i) * grid.w() + j) == shade(
            p,
            grid.cells()[i * grid.w() + j],
            marks matches Some(m) && m[i * grid.w() + j],
        ),
{
    let row = grid.h() - 1 - i;
    vstd::arithmetic::div_mod::lemma_fundamental_div_mod_converse(
        row * grid.w() + j,
        grid.w(),
        row,
        j,
    );
}

/// What shows as a wall where only certain ones do also shows as one where likely ones
/// do; free cells are the same in both, and an untouched cell is neither.
pub proof fn law_certain_walls_are_likely_walls(log: i16, marked: bool)
    ensures
        !marked && log > 150 ==> shade(certain_palette(), log, marked) == 0,
        !marked && log > 50 ==> shade(likely_palette(), log, marked) == 0,
        !marked && log <= 150 ==> shade(certain_palette(), log, marked) >= 160,
        !marked && log <= 50 ==> shade(likely_palette(), log, marked) >= 128,
        shade(certain_palette(), log, marked) == 0 ==> shade(likely_palette(), log, marked) == 0,
        shade(certain_palette(), log, marked) == 230 <==> !marked && log < -50,
        shade(likely_palette(), log, marked) == 230 <==> !marked && log < -50,
        shade(certain_palette(), log, marked) == 70 <==> marked,
        shade(likely_palette(), log, marked) == 70 <==> marked,
{
}

/// A cell that is neither a wall nor free shows as unknown, whatever it leans to.
pub proof fn law_unsettled_cells_are_grey(log: i16)
    ensures
        -50 <= log <= 150 ==> shade(certain_palette(), log, false) == 160,
        -50 <= log <= 50 ==> shade(likely_palette(), log, false) == 128,
{
}

} // verus!
