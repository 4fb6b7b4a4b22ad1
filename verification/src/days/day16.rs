//! Beams of light in a contraption of mirrors and splitters: where a beam
//! goes from a tile, and how many tiles a beam lights up in all.

use crate::compass::{moving_index, moving_offset, moving_rank};
use crate::surface::{lemma_flat_index_in_range, lemma_flat_index_injective, Surface};
pub use crate::compass::Moving;
use vstd::prelude::*;

verus! {

/// A beam of light: the tile it is on and the heading it moves along.
#[derive(Copy, Clone, Eq, PartialEq, Debug)]
pub struct Beam {
    pub position: (isize, isize),
    pub moving: Moving,
}

/// Whether `tile` is one of the five tiles of a contraption.
pub open spec fn is_tile(tile: char) -> bool {
    tile == '.' || tile == '/' || tile == '\\' || tile == '-' || tile == '|'
}

/// The headings along which a beam leaves `tile` that came along `moving`:
/// straight on over empty space and the pointy end of a splitter, turned by
/// a mirror, and both ways off the flat side of a splitter.
pub open spec fn headings_after(tile: char, moving: Moving) -> Seq<Moving> {
    if tile == '/' {
        match moving {
            Moving::Right => seq![Moving::Up],
            Moving::Left => seq![Moving::Down],
            Moving::Up => seq![Moving::Right],
            Moving::Down => seq![Moving::Left],
        }
    } else if tile == '\\' {
        match moving {
            Moving::Right => seq![Moving::Down],
            Moving::Left => seq![Moving::Up],
            Moving::Up => seq![Moving::Left],
            Moving::Down => seq![Moving::Right],
        }
    } else if tile == '-' && (moving == Moving::Up || moving == Moving::Down) {
        seq![Moving::Left, Moving::Right]
    } else if tile == '|' && (moving == Moving::Right || moving == Moving::Left) {
        seq![Moving::Up, Moving::Down]
    } else {
        seq![moving]
    }
}

/// The beam one tile from `beam` along `heading`.
pub open spec fn beam_ahead(beam: Beam, heading: Moving) -> Beam {
    Beam {
        position: (
            (beam.position.0 + moving_offset(heading).0) as isize,
            (beam.position.1 + moving_offset(heading).1) as isize,
        ),
        moving: heading,
    }
}

/// The beams that leave `tile` when `beam` is on it.
pub open spec fn stepped(beam: Beam, tile: char) -> Seq<Beam> {
    headings_after(tile, beam.moving).map_values(|heading: Moving| beam_ahead(beam, heading))
}

impl Beam {
    /// A beam on `position` that moves along `moving`.
    pub fn new(position: (isize, isize), moving: Moving) -> (out: Beam)
        ensures
            out == (Beam { position, moving }),
    {
        Beam { position, moving }
    }

    /// The beam one tile ahead along `heading`.
    fn ahead(self, heading: Moving) -> (out: Beam)
        requires
            isize::MIN < self.position.0 < isize::MAX,
            isize::MIN < self.position.1 < isize::MAX,
        ensures
            out == beam_ahead(self, heading),
    {
        let (y, x) = self.position;
        match heading {
            Moving::Right => Beam::new((y, x + 1), heading),
            Moving::Left => Beam::new((y, x - 1), heading),
            Moving::Up => Beam::new((y - 1, x), heading),
            Moving::Down => Beam::new((y + 1, x), heading),
        }
    }

    /// The beams that leave the tile `grid` when this beam is on it.
    pub fn step(self, grid: char) -> (out: Vec<Beam>)
        requires
            is_tile(grid),
            isize::MIN < self.position.0 < isize::MAX,
            isize::MIN < self.position.1 < isize::MAX,
        ensures
            out@ == stepped(self, grid),
    {
        let mut out: Vec<Beam> = Vec::new();
        if grid == '/' {
            match self.moving {
                Moving::Right => out.push(self.ahead(Moving::Up)),
                Moving::Left => out.push(self.ahead(Moving::Down)),
                Moving::Up => out.push(self.ahead(Moving::Right)),
                Moving::Down => out.push(self.ahead(Moving::Left)),
            }
        } else if grid == '\\' {
            match self.moving {
                Moving::Right => out.push(self.ahead(Moving::Down)),
                Moving::Left => out.push(self.ahead(Moving::Up)),
                Moving::Up => out.push(self.ahead(Moving::Left)),
                Moving::Down => out.push(self.ahead(Moving::Right)),
            }
        } else if grid == '-' {
            match self.moving {
                Moving::Right => out.push(self.ahead(Moving::Right)),
                Moving::Left => out.push(self.ahead(Moving::Left)),
                Moving::Up | Moving::Down => {
                    out.push(self.ahead(Moving::Left));
                    out.push(self.ahead(Moving::Right));
                },
            }
        } else if grid == '|' {
            match self.moving {
                Moving::Right | Moving::Left => {
                    out.push(self.ahead(Moving::Up));
                    out.push(self.ahead(Moving::Down));
                },
                Moving::Up => out.push(self.ahead(Moving::Up)),
                Moving::Down => out.push(self.ahead(Moving::Down)),
            }
        } else {
            out.push(self.ahead(self.moving));
        }
        assert(out@ =~= stepped(self, grid));
        out
    }
}

/// Whether every tile of the contraption is one of the five tiles.
pub open spec fn all_tiles(contraption: &Surface<char>) -> bool {
    forall|k: int| 0 <= k < contraption.flat().len() ==> is_tile(#[trigger] contraption.flat()[k])
}

/// Whether every tile of the contraption is one of the five tiles.
pub fn check_tiles(contraption: &Surface<char>) -> (ok: bool)
    ensures
        ok == all_tiles(contraption),
{
    let cells = contraption.cells();
    let mut k: usize = 0;
    while k < cells.len()
        invariant
            k <= cells@.len(),
            cells@ == contraption.flat(),
            forall|j: int| 0 <= j < k ==> is_tile(#[trigger] cells@[j]),
        decreases cells@.len() - k,
    {
        let c = cells[k];
        if !(c == '.' || c == '/' || c == '\\' || c == '-' || c == '|') {
            assert(!is_tile(contraption.flat()[k as int]));
            return false;
        }
        k += 1;
    }
    true
}

/// Whether `path` is the way of a beam through the contraption: it begins
/// with `start`, stays on the contraption, and each beam leaves the tile of
/// the beam before it.
pub open spec fn is_beam_path(contraption: &Surface<char>, start: Beam, path: Seq<Beam>) -> bool {
    &&& path.len() > 0
    &&& path[0] == start
    &&& forall|i: int| 0 <= i < path.len() ==> contraption.contains((#[trigger] path[i]).position)
    &&& forall|i: int|
        0 <= i < path.len() - 1 ==> stepped(
            #[trigger] path[i],
            contraption.at(path[i].position),
        ).contains(path[i + 1])
}

/// Whether the light that enters as `start` comes by as `beam`.
pub open spec fn lit(contraption: &Surface<char>, start: Beam, beam: Beam) -> bool {
    exists|path: Seq<Beam>| #[trigger]
        is_beam_path(contraption, start, path) && path.last() == beam
}

/// Whether the tile at row `r` and column `c` is lit along some heading.
pub open spec fn tile_lit(contraption: &Surface<char>, start: Beam, r: int, c: int) -> bool {
    exists|moving: Moving| #[trigger]
        lit(contraption, start, Beam { position: (r as isize, c as isize), moving })
}

/// The number of lit tiles among the first `n` tiles of row `r`.
pub open spec fn lit_in_row(contraption: &Surface<char>, start: Beam, r: int, n: int) -> nat
    decreases n,
{
    if n <= 0 {
        0
    } else {
        lit_in_row(contraption, start, r, n - 1) + if tile_lit(contraption, start, r, n - 1) {
            1nat
        } else {
            0nat
        }
    }
}

/// The number of lit tiles in the first `n` rows.
pub open spec fn lit_in_rows(contraption: &Surface<char>, start: Beam, n: int) -> nat
    decreases n,
{
    if n <= 0 {
        0
    } else {
        lit_in_rows(contraption, start, n - 1) + lit_in_row(
            contraption,
            start,
            n - 1,
            contraption.cols() as int,
        )
    }
}

/// The slot of a beam in a table with four slots for every tile.
pub open spec fn beam_slot(contraption: &Surface<char>, beam: Beam) -> int {
    (beam.position.0 * contraption.cols() + beam.position.1) * 4 + moving_rank(beam.moving)
}

/// The slots of beams on the contraption lie in the table, and no two
/// beams share one.
proof fn lemma_beam_slots(contraption: &Surface<char>, a: Beam, b: Beam)
    requires
        contraption.wf(),
        contraption.contains(a.position),
        contraption.contains(b.position),
    ensures
        0 <= beam_slot(contraption, a) < contraption.rows() * contraption.cols() * 4,
        beam_slot(contraption, a) == beam_slot(contraption, b) ==> a == b,
{
    contraption.lemma_area_fits();
    let rows = contraption.rows() as int;
    let cols = contraption.cols() as int;
    let cell_a = a.position.0 * cols + a.position.1;
    let cell_b = b.position.0 * cols + b.position.1;
    lemma_flat_index_in_range(a.position.0 as int, a.position.1 as int, rows, cols);
    lemma_flat_index_in_range(b.position.0 as int, b.position.1 as int, rows, cols);
    lemma_flat_index_in_range(cell_a, moving_rank(a.moving), rows * cols, 4);
    if beam_slot(contraption, a) == beam_slot(contraption, b) {
        lemma_flat_index_injective(cell_a, moving_rank(a.moving), cell_b, moving_rank(b.moving), 4);
        lemma_flat_index_injective(
            a.position.0 as int,
            a.position.1 as int,
            b.position.0 as int,
            b.position.1 as int,
            cols,
        );
    }
}

/// The number of slots that are not marked.
pub open spec fn unmarked(seen: Seq<bool>) -> nat
    decreases seen.len(),
{
    if seen.len() == 0 {
        0
    } else {
        unmarked(seen.drop_last()) + if seen.last() {
            0nat
        } else {
            1nat
        }
    }
}

/// Marking a slot that was not marked leaves one unmarked slot less.
proof fn lemma_mark(seen: Seq<bool>, k: int)
    requires
        0 <= k < seen.len(),
        !seen[k],
    ensures
        unmarked(seen.update(k, true)) + 1 == unmarked(seen),
    decreases seen.len(),
{
    let marked = seen.update(k, true);
    if k == seen.len() - 1 {
        assert(marked.drop_last() =~= seen.drop_last());
    } else {
        lemma_mark(seen.drop_last(), k);
        assert(marked.drop_last() =~= seen.drop_last().update(k, true));
    }
}

/// Every marked beam is lit.
spec fn marks_sound(contraption: &Surface<char>, start: Beam, seen: Seq<bool>) -> bool {
    forall|b: Beam|
        contraption.contains(b.position) && seen[#[trigger] beam_slot(contraption, b)] ==> lit(
            contraption,
            start,
            b,
        )
}

/// Every waiting beam that is on the contraption is lit.
spec fn waiting_sound(contraption: &Surface<char>, start: Beam, waiting: Seq<Beam>) -> bool {
    forall|i: int|
        0 <= i < waiting.len() && contraption.contains((#[trigger] waiting[i]).position) ==> lit(
            contraption,
            start,
            waiting[i],
        )
}

/// Every beam that leaves the tile of a marked beam and stays on the
/// contraption is marked or waiting.
spec fn marks_closed(contraption: &Surface<char>, seen: Seq<bool>, waiting: Seq<Beam>) -> bool {
    forall|b: Beam, j: int|
        contraption.contains(b.position) && seen[beam_slot(contraption, b)] && 0 <= j < stepped(
            b,
            contraption.at(b.position),
        ).len() && contraption.contains(
            (#[trigger] stepped(b, contraption.at(b.position))[j]).position,
        ) ==> seen[beam_slot(contraption, stepped(b, contraption.at(b.position))[j])]
            || waiting.contains(stepped(b, contraption.at(b.position))[j])
}

/// What holds between two beams taken from the pile.
spec fn beams_inv(
    contraption: &Surface<char>,
    start: Beam,
    seen: Seq<bool>,
    waiting: Seq<Beam>,
) -> bool {
    &&& contraption.wf()
    &&& all_tiles(contraption)
    &&& seen.len() == contraption.rows() * contraption.cols() * 4
    &&& marks_sound(contraption, start, seen)
    &&& waiting_sound(contraption, start, waiting)
    &&& marks_closed(contraption, seen, waiting)
    &&& contraption.contains(start.position) ==> seen[beam_slot(contraption, start)]
        || waiting.contains(start)
}

/// A lit beam stays on the contraption, and what leaves its tile and stays
/// on the contraption is lit.
proof fn lemma_lit_extends(contraption: &Surface<char>, start: Beam, b: Beam, j: int)
    requires
        lit(contraption, start, b),
        0 <= j < stepped(b, contraption.at(b.position)).len(),
        contraption.contains(stepped(b, contraption.at(b.position))[j].position),
    ensures
        contraption.contains(b.position),
        lit(contraption, start, stepped(b, contraption.at(b.position))[j]),
{
    let path = choose|path: Seq<Beam>| #[trigger]
        is_beam_path(contraption, start, path) && path.last() == b;
    let next = stepped(b, contraption.at(b.position))[j];
    let longer = path.push(next);
    assert(contraption.contains(path[path.len() - 1].position));
    assert forall|i: int| 0 <= i < longer.len() implies contraption.contains(
        (#[trigger] longer[i]).position,
    ) by {
        if i < path.len() {
            assert(contraption.contains(path[i].position));
        }
    }
    assert forall|i: int| 0 <= i < longer.len() - 1 implies stepped(
        #[trigger] longer[i],
        contraption.at(longer[i].position),
    ).contains(longer[i + 1]) by {
        if i < path.len() - 1 {
            assert(stepped(path[i], contraption.at(path[i].position)).contains(path[i + 1]));
        }
    }
    assert(is_beam_path(contraption, start, longer));
    assert(longer.last() == next);
}

/// When no beam is waiting, every lit beam is marked.
proof fn lemma_all_lit_marked(
    contraption: &Surface<char>,
    start: Beam,
    seen: Seq<bool>,
    path: Seq<Beam>,
)
    requires
        beams_inv(contraption, start, seen, Seq::empty()),
        is_beam_path(contraption, start, path),
    ensures
        contraption.contains(path.last().position),
        seen[beam_slot(contraption, path.last())],
    decreases path.len(),
{
    assert(contraption.contains(path[path.len() - 1].position));
    if path.len() == 1 {
        assert(contraption.contains(path[0].position));
    } else {
        let shorter = path.drop_last();
        assert forall|i: int| 0 <= i < shorter.len() implies contraption.contains(
            (#[trigger] shorter[i]).position,
        ) by {
            assert(contraption.contains(path[i].position));
        }
        assert forall|i: int| 0 <= i < shorter.len() - 1 implies stepped(
            #[trigger] shorter[i],
            contraption.at(shorter[i].position),
        ).contains(shorter[i + 1]) by {
            assert(stepped(path[i], contraption.at(path[i].position)).contains(path[i + 1]));
        }
        lemma_all_lit_marked(contraption, start, seen, shorter);
        let b = path[path.len() - 2];
        assert(shorter.last() == b);
        let after = stepped(b, contraption.at(b.position));
        assert(after.contains(path[path.len() - 2 + 1]));
        let j = choose|j: int| 0 <= j < after.len() && after[j] == path.last();
        assert(contraption.contains(after[j].position));
    }
}

/// The number of tiles that the light that enters as `start` lights up.
pub fn move_beam(start: Beam, contraption: &Surface<char>) -> (out: usize)
    requires
        contraption.wf(),
        all_tiles(contraption),
    ensures
        out == lit_in_rows(contraption, start, contraption.rows() as int),
{
    proof {
        contraption.lemma_area_fits();
    }
    let height = contraption.height();
    let width = contraption.width();
    let tiles = contraption.cells();
    let cells = tiles.len();
    let mut seen: Vec<bool> = Vec::new();
    let mut n: usize = 0;
    while n < cells
        invariant
            n <= cells,
            seen@.len() == 4 * n,
            forall|k: int| 0 <= k < seen@.len() ==> !seen@[k],
        decreases cells - n,
    {
        seen.push(false);
        seen.push(false);
        seen.push(false);
        seen.push(false);
        n += 1;
    }
    let mut beams: Vec<Beam> = Vec::new();
    beams.push(start);
    proof {
        assert(beams@[0] == start);
        assert(beams@.contains(start));
        assert(waiting_sound(contraption, start, beams@)) by {
            if contraption.contains(start.position) {
                let path = seq![start];
                assert(is_beam_path(contraption, start, path));
                assert(path.last() == start);
            }
        }
        assert(seen@.len() == contraption.rows() * contraption.cols() * 4) by (nonlinear_arith)
            requires
                seen@.len() == 4 * cells,
                cells == contraption.rows() * contraption.cols(),
        ;
        assert(seen.len() == seen@.len());
        assert forall|b: Beam| contraption.contains(b.position) implies !seen@[#[trigger] beam_slot(
            contraption,
            b,
        )] by {
            lemma_beam_slots(contraption, b, b);
        }
        assert(marks_sound(contraption, start, seen@));
        assert(marks_closed(contraption, seen@, beams@));
    }
    while beams.len() > 0
        invariant
            beams_inv(contraption, start, seen@, beams@),
            height == contraption.rows(),
            width == contraption.cols(),
            height <= isize::MAX,
            width <= isize::MAX,
            tiles@ == contraption.flat(),
            cells == tiles@.len(),
            cells == height * width,
            seen@.len() == 4 * cells,
            4 * cells <= usize::MAX,
        decreases unmarked(seen@), beams@.len(),
    {
        let ghost waiting = beams@;
        let ghost marks = seen@;
        let beam = beams.pop().unwrap();
        proof {
            assert(waiting[waiting.len() - 1] == beam);
            assert(beams@ =~= waiting.drop_last());
            assert forall|x: Beam| waiting.contains(x) && x != beam implies beams@.contains(
                x,
            ) by {
                let i = choose|i: int| 0 <= i < waiting.len() && waiting[i] == x;
                assert(beams@[i] == x);
            }
        }
        if !contraption.in_bounds(beam.position) {
            proof {
                assert(waiting_sound(contraption, start, beams@)) by {
                    assert forall|i: int|
                        0 <= i < beams@.len() && contraption.contains(
                            (#[trigger] beams@[i]).position,
                        ) implies lit(contraption, start, beams@[i]) by {
                        assert(waiting[i] == beams@[i]);
                    }
                }
            }
            continue ;
        }
        proof {
            lemma_beam_slots(contraption, beam, beam);
            lemma_flat_index_in_range(
                beam.position.0 as int,
                beam.position.1 as int,
                height as int,
                width as int,
            );
        }
        let cell = beam.position.0 as usize * width + beam.position.1 as usize;
        let slot = cell * 4 + moving_index(beam.moving);
        if seen[slot] {
            proof {
                assert(waiting_sound(contraption, start, beams@)) by {
                    assert forall|i: int|
                        0 <= i < beams@.len() && contraption.contains(
                            (#[trigger] beams@[i]).position,
                        ) implies lit(contraption, start, beams@[i]) by {
                        assert(waiting[i] == beams@[i]);
                    }
                }
            }
            continue ;
        }
        seen.set(slot, true);
        proof {
            lemma_mark(marks, slot as int);
            assert(lit(contraption, start, beam)) by {
                assert(waiting[waiting.len() - 1] == beam);
            }
            assert(is_tile(contraption.flat()[cell as int]));
        }
        let mut next = beam.step(tiles[cell]);
        let ghost after = next@;
        let ghost rest = beams@;
        beams.append(&mut next);
        proof {
            assert(beams@ =~= rest + after);
            // How the marks of the two tables relate.
            assert forall|b: Beam| contraption.contains(b.position) implies (if b == beam {
                seen@[beam_slot(contraption, b)]
            } else {
                seen@[#[trigger] beam_slot(contraption, b)] == marks[beam_slot(contraption, b)]
            }) by {
                lemma_beam_slots(contraption, b, beam);
            }
            assert forall|x: Beam| rest.contains(x) implies beams@.contains(x) by {
                let i = choose|i: int| 0 <= i < rest.len() && rest[i] == x;
                assert(beams@[i] == x);
            }
            assert forall|j: int| 0 <= j < after.len() implies beams@.contains(
                #[trigger] after[j],
            ) by {
                assert(beams@[rest.len() + j] == after[j]);
            }
            assert(marks_sound(contraption, start, seen@)) by {
                assert forall|b: Beam|
                    contraption.contains(b.position) && seen@[#[trigger] beam_slot(
                        contraption,
                        b,
                    )] implies lit(contraption, start, b) by {
                    if b != beam {
                        assert(marks[beam_slot(contraption, b)]);
                    }
                }
            }
            assert(waiting_sound(contraption, start, beams@)) by {
                assert forall|i: int|
                    0 <= i < beams@.len() && contraption.contains(
                        (#[trigger] beams@[i]).position,
                    ) implies lit(contraption, start, beams@[i]) by {
                    if i < rest.len() {
                        assert(waiting[i] == beams@[i]);
                    } else {
                        lemma_lit_extends(contraption, start, beam, i - rest.len());
                    }
                }
            }
            assert(marks_closed(contraption, seen@, beams@)) by {
                assert forall|b: Beam, j: int|
                    contraption.contains(b.position) && seen@[beam_slot(contraption, b)] && 0
                        <= j < stepped(b, contraption.at(b.position)).len()
                        && contraption.contains(
                        (#[trigger] stepped(b, contraption.at(b.position))[j]).position,
                    ) implies seen@[beam_slot(
                    contraption,
                    stepped(b, contraption.at(b.position))[j],
                )] || beams@.contains(stepped(b, contraption.at(b.position))[j]) by {
                    let t = stepped(b, contraption.at(b.position))[j];
                    if b == beam {
                        assert(after[j] == t);
                    } else {
                        assert(marks[beam_slot(contraption, b)]);
                        if t != beam && !marks[beam_slot(contraption, t)] {
                            assert(waiting.contains(t));
                            assert(rest.contains(t));
                        }
                    }
                }
            }
            if contraption.contains(start.position) && start != beam {
                if !marks[beam_slot(contraption, start)] {
                    assert(waiting.contains(start));
                    assert(rest.contains(start));
                }
            }
        }
    }
    proof {
        assert(beams@ =~= Seq::<Beam>::empty());
    }
    let mut count: usize = 0;
    let mut r: usize = 0;
    while r < height
        invariant
            r <= height,
            beams_inv(contraption, start, seen@, Seq::empty()),
            height == contraption.rows(),
            width == contraption.cols(),
            height <= isize::MAX,
            width <= isize::MAX,
            cells == height * width,
            seen@.len() == 4 * cells,
            4 * cells <= usize::MAX,
            count == lit_in_rows(contraption, start, r as int),
            count <= r * width,
        decreases height - r,
    {
        let mut c: usize = 0;
        let ghost before = count;
        while c < width
            invariant
                c <= width,
                r < height,
                beams_inv(contraption, start, seen@, Seq::empty()),
                height == contraption.rows(),
                width == contraption.cols(),
                height <= isize::MAX,
                width <= isize::MAX,
                cells == height * width,
                seen@.len() == 4 * cells,
                4 * cells <= usize::MAX,
                count == before + lit_in_row(contraption, start, r as int, c as int),
                before <= r * width,
                count <= r * width + c,
            decreases width - c,
        {
            proof {
                lemma_flat_index_in_range(r as int, c as int, height as int, width as int);
            }
            let cell = r * width + c;
            let marked = seen[cell * 4] || seen[cell * 4 + 1] || seen[cell * 4 + 2] || seen[cell
                * 4 + 3];
            proof {
                let pos = (r as isize, c as isize);
                assert(contraption.contains(pos));
                let right = Beam { position: pos, moving: Moving::Right };
                let left = Beam { position: pos, moving: Moving::Left };
                let up = Beam { position: pos, moving: Moving::Up };
                let down = Beam { position: pos, moving: Moving::Down };
                assert(beam_slot(contraption, right) == cell * 4);
                assert(beam_slot(contraption, left) == cell * 4 + 1);
                assert(beam_slot(contraption, up) == cell * 4 + 2);
                assert(beam_slot(contraption, down) == cell * 4 + 3);
                if marked {
                    if seen@[cell * 4] {
                        assert(lit(contraption, start, right));
                    } else if seen@[cell * 4 + 1] {
                        assert(lit(contraption, start, left));
                    } else if seen@[cell * 4 + 2] {
                        assert(lit(contraption, start, up));
                    } else {
                        assert(lit(contraption, start, down));
                    }
                    assert(tile_lit(contraption, start, r as int, c as int));
                } else if tile_lit(contraption, start, r as int, c as int) {
                    let m = choose|m: Moving| #[trigger]
                        lit(contraption, start, Beam { position: pos, moving: m });
                    let b = Beam { position: pos, moving: m };
                    let path = choose|path: Seq<Beam>| #[trigger]
                        is_beam_path(contraption, start, path) && path.last() == b;
                    lemma_all_lit_marked(contraption, start, seen@, path);
                    assert(b == right || b == left || b == up || b == down);
                }
            }
            if marked {
                count += 1;
            }
            c += 1;
        }
        proof {
            assert((r + 1) * width == r * width + width) by (nonlinear_arith);
            assert((r + 1) * width <= height * width) by (nonlinear_arith)
                requires
                    r + 1 <= height,
            ;
        }
        r += 1;
    }
    count
}

/// The beams that enter the contraption from its edges: from every row
/// heading right and heading left, then from every column heading down and
/// heading up.
pub open spec fn edge_starts(contraption: &Surface<char>) -> Seq<Beam> {
    let rows = contraption.rows() as int;
    let cols = contraption.cols() as int;
    Seq::new(rows as nat, |y: int| Beam { position: (y as isize, 0), moving: Moving::Right })
        + Seq::new(
        rows as nat,
        |y: int| Beam { position: (y as isize, (cols - 1) as isize), moving: Moving::Left },
    ) + Seq::new(cols as nat, |x: int| Beam { position: (0, x as isize), moving: Moving::Down })
        + Seq::new(
        cols as nat,
        |x: int| Beam { position: ((rows - 1) as isize, x as isize), moving: Moving::Up },
    )
}

/// The beams that enter the contraption from its edges.
pub fn starts_on_edges(contraption: &Surface<char>) -> (out: Vec<Beam>)
    requires
        contraption.wf(),
    ensures
        out@ == edge_starts(contraption),
{
    proof {
        contraption.lemma_area_fits();
    }
    let height = contraption.height();
    let width = contraption.width();
    let ghost rows = height as int;
    let ghost cols = width as int;
    let ghost first = Seq::new(
        rows as nat,
        |y: int| Beam { position: (y as isize, 0), moving: Moving::Right },
    );
    let ghost second = Seq::new(
        rows as nat,
        |y: int| Beam { position: (y as isize, (cols - 1) as isize), moving: Moving::Left },
    );
    let ghost third = Seq::new(
        cols as nat,
        |x: int| Beam { position: (0, x as isize), moving: Moving::Down },
    );
    let ghost fourth = Seq::new(
        cols as nat,
        |x: int| Beam { position: ((rows - 1) as isize, x as isize), moving: Moving::Up },
    );
    let mut out: Vec<Beam> = Vec::new();
    let mut y: usize = 0;
    while y < height
        invariant
            y <= height,
            rows == height,
            cols == width,
            height <= isize::MAX,
            first == Seq::new(
                rows as nat,
                |y: int| Beam { position: (y as isize, 0), moving: Moving::Right },
            ),
            out@ == first.take(y as int),
        decreases height - y,
    {
        out.push(Beam::new((y as isize, 0), Moving::Right));
        assert(first.take(y + 1) =~= first.take(y as int).push(first[y as int]));
        y += 1;
    }
    assert(first.take(y as int) =~= first);
    y = 0;
    while y < height
        invariant
            y <= height,
            rows == height,
            cols == width,
            height <= isize::MAX,
            0 < width <= isize::MAX,
            second == Seq::new(
                rows as nat,
                |y: int| Beam { position: (y as isize, (cols - 1) as isize), moving: Moving::Left },
            ),
            out@ == first + second.take(y as int),
        decreases height - y,
    {
        out.push(Beam::new((y as isize, (width - 1) as isize), Moving::Left));
        assert(second.take(y + 1) =~= second.take(y as int).push(second[y as int]));
        assert(out@ =~= first + second.take(y + 1));
        y += 1;
    }
    assert(second.take(y as int) =~= second);
    let mut x: usize = 0;
    while x < width
        invariant
            x <= width,
            rows == height,
            cols == width,
            width <= isize::MAX,
            third == Seq::new(
                cols as nat,
                |x: int| Beam { position: (0, x as isize), moving: Moving::Down },
            ),
            out@ == first + second + third.take(x as int),
        decreases width - x,
    {
        out.push(Beam::new((0, x as isize), Moving::Down));
        assert(third.take(x + 1) =~= third.take(x as int).push(third[x as int]));
        assert(out@ =~= first + second + third.take(x + 1));
        x += 1;
    }
    assert(third.take(x as int) =~= third);
    x = 0;
    while x < width
        invariant
            x <= width,
            rows == height,
            cols == width,
            width <= isize::MAX,
            0 < height <= isize::MAX,
            fourth == Seq::new(
                cols as nat,
                |x: int| Beam { position: ((rows - 1) as isize, x as isize), moving: Moving::Up },
            ),
            out@ == first + second + third + fourth.take(x as int),
        decreases width - x,
    {
        out.push(Beam::new(((height - 1) as isize, x as isize), Moving::Up));
        assert(fourth.take(x + 1) =~= fourth.take(x as int).push(fourth[x as int]));
        assert(out@ =~= first + second + third + fourth.take(x + 1));
        x += 1;
    }
    assert(fourth.take(x as int) =~= fourth);
    out
}

/// Whether `most` is the greatest number of tiles that any of `starts`
/// lights up.
pub open spec fn is_most_lit(contraption: &Surface<char>, starts: Seq<Beam>, most: int) -> bool {
    &&& exists|i: int|
        0 <= i < starts.len() && lit_in_rows(
            contraption,
            #[trigger] starts[i],
            contraption.rows() as int,
        ) == most
    &&& forall|i: int|
        0 <= i < starts.len() ==> lit_in_rows(
            contraption,
            #[trigger] starts[i],
            contraption.rows() as int,
        ) <= most
}

/// The greatest number of tiles that any of `starts` lights up, or `None`
/// without a start.
pub fn most_energized(contraption: &Surface<char>, starts: &Vec<Beam>) -> (out: Option<usize>)
    requires
        contraption.wf(),
        all_tiles(contraption),
    ensures
        out is None <==> starts@.len() == 0,
        out matches Some(most) ==> is_most_lit(contraption, starts@, most as int),
{
    let mut best: Option<usize> = None;
    let mut k: usize = 0;
    while k < starts.len()
        invariant
            k <= starts@.len(),
            contraption.wf(),
            all_tiles(contraption),
            best is None <==> k == 0,
            best matches Some(most) ==> is_most_lit(
                contraption,
                starts@.take(k as int),
                most as int,
            ),
        decreases starts@.len() - k,
    {
        let lit = move_beam(starts[k], contraption);
        let ghost before = starts@.take(k as int);
        let ghost after = starts@.take(k + 1);
        proof {
            assert(after[k as int] == starts@[k as int]);
            assert forall|i: int| 0 <= i < k implies before[i] == after[i] by {}
        }
        let better = match best {
            Some(most) => lit > most,
            None => true,
        };
        if better {
            proof {
                assert(lit_in_rows(contraption, after[k as int], contraption.rows() as int) == lit);
                assert forall|i: int| 0 <= i < after.len() implies lit_in_rows(
                    contraption,
                    #[trigger] after[i],
                    contraption.rows() as int,
                ) <= lit by {
                    if i < k {
                        assert(before[i] == after[i]);
                    }
                }
            }
            best = Some(lit);
        } else {
            proof {
                let most = best->0;
                let i0 = choose|i: int|
                    0 <= i < before.len() && lit_in_rows(
                        contraption,
                        #[trigger] before[i],
                        contraption.rows() as int,
                    ) == most;
                assert(lit_in_rows(contraption, after[i0], contraption.rows() as int) == most);
                assert forall|i: int| 0 <= i < after.len() implies lit_in_rows(
                    contraption,
                    #[trigger] after[i],
                    contraption.rows() as int,
                ) <= most by {
                    if i < k {
                        assert(before[i] == after[i]);
                    }
                }
            }
        }
        k += 1;
    }
    proof {
        assert(starts@.take(k as int) =~= starts@);
    }
    best
}

} // verus!
