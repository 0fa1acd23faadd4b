//! What the canvas decides: how a cell is drawn, the order cells are drawn in, the
//! label of the cell under the pointer, and what the brush does to a cell.
use vstd::prelude::*;

use crate::editor::{MapEditor, EMPTY_TILE};
use crate::grid::idx;
use crate::text::{dec_int, lemma_parse_dec, parse_i32, push_signed_decimal};

verus! {

/// How a cell is drawn.
#[derive(PartialEq, Eq, Structural)]
pub enum CellLook {
    /// With the image of the palette entry at this position.
    Texture(usize),
    /// As an empty cell.
    Empty,
    /// As a cell whose tile is not in the palette.
    Missing,
}

/// How a cell holding `tile_id` is drawn with a palette of `palette_len` tiles.
pub open spec fn look_of(tile_id: i32, palette_len: nat) -> CellLook {
    if tile_id >= 0 && tile_id < palette_len {
        CellLook::Texture(tile_id as usize)
    } else if tile_id == EMPTY_TILE {
        CellLook::Empty
    } else {
        CellLook::Missing
    }
}

/// The text shown next to the cell under the pointer: its tile id, nothing for an empty cell.
pub open spec fn hover_label_text(tile_id: i32) -> Option<Seq<char>> {
    if tile_id == EMPTY_TILE {
        None
    } else {
        Some("ID: "@ + dec_int(tile_id as int))
    }
}

/// A cell holding a tile id that is a position of the palette is drawn with that
/// palette entry's image; the empty tile is drawn empty; every other id is missing.
pub proof fn lemma_look_by_palette(tile_id: i32, palette_len: nat)
    ensures
        0 <= tile_id < palette_len ==> look_of(tile_id, palette_len) == CellLook::Texture(
            tile_id as usize,
        ),
        tile_id == EMPTY_TILE ==> look_of(tile_id, palette_len) == CellLook::Empty,
        (tile_id < EMPTY_TILE || tile_id >= palette_len) ==> look_of(tile_id, palette_len)
            == CellLook::Missing,
{
}

/// The label of every tile id but the empty one is `ID: ` followed by text that reads
/// back as that id; the empty tile has no label.
pub proof fn lemma_hover_label_shows_id(tile_id: i32)
    ensures
        tile_id == EMPTY_TILE ==> hover_label_text(tile_id) is None,
        tile_id != EMPTY_TILE ==> (hover_label_text(tile_id) matches Some(label) && label.take(
            "ID: "@.len() as int,
        ) == "ID: "@ && parse_i32(label.skip("ID: "@.len() as int)) == Some(tile_id)),
{
    if tile_id != EMPTY_TILE {
        lemma_parse_dec(tile_id);
        let label = "ID: "@ + dec_int(tile_id as int);
        assert(label.take("ID: "@.len() as int) =~= "ID: "@);
        assert(label.skip("ID: "@.len() as int) =~= dec_int(tile_id as int));
    }
}

/// The text shown next to the cell under the pointer.
pub fn hover_label(tile_id: i32) -> (res: Option<String>)
    ensures
        match hover_label_text(tile_id) {
            None => res is None,
            Some(t) => res matches Some(s) && s@ == t,
        },
{
    if tile_id == EMPTY_TILE {
        None
    } else {
        let mut s = String::new();
        s.append("ID: ");
        push_signed_decimal(&mut s, tile_id as i64);
        Some(s)
    }
}

impl MapEditor {
    /// How a cell holding `tile_id` is drawn: with the image of the palette entry at that
    /// position when there is one, as empty for the empty tile, else as missing.
    pub fn cell_look(&self, tile_id: i32) -> (look: CellLook)
        ensures
            look == look_of(tile_id, self.loaded_tiles@.len()),
    {
        if tile_id >= 0 && (tile_id as usize) < self.loaded_tiles.len() {
            CellLook::Texture(tile_id as usize)
        } else if tile_id == EMPTY_TILE {
            CellLook::Empty
        } else {
            CellLook::Missing
        }
    }

    /// The brush on the cell (`grid_x`, `grid_y`): the left button paints it with the
    /// selected tile, the right button erases it (and wins when both are down). A cell
    /// outside the map is left alone.
    pub fn paint_cell(&mut self, grid_x: usize, grid_y: usize, left_down: bool, right_down: bool)
        requires
            grid_x < old(self).map_width && grid_y < old(self).map_height ==> idx(
                old(self).map_width as int,
                grid_x as int,
                grid_y as int,
            ) < old(self).tiles.len(),
        ensures
            final(self).map_width == old(self).map_width,
            final(self).map_height == old(self).map_height,
            final(self).selected_tile == old(self).selected_tile,
            final(self).loaded_tiles == old(self).loaded_tiles,
            final(self).status_message == old(self).status_message,
            final(self).tiles.len() == old(self).tiles.len(),
            ({
                let i = idx(old(self).map_width as int, grid_x as int, grid_y as int);
                let inside = grid_x < old(self).map_width && grid_y < old(self).map_height;
                &&& forall|j: int|
                    0 <= j < old(self).tiles.len() && !(inside && j == i && (left_down
                        || right_down)) ==> #[trigger] final(self).tiles@[j] == old(self).tiles@[j]
                &&& inside && right_down ==> final(self).tiles@[i] == EMPTY_TILE
                &&& inside && left_down && !right_down ==> final(self).tiles@[i] == old(
                    self,
                ).selected_tile
            }),
    {
        if grid_x < self.map_width && grid_y < self.map_height {
            let i = grid_y * self.map_width + grid_x;
            if left_down {
                if self.tiles[i] != self.selected_tile {
                    let value = self.selected_tile;
                    self.tiles.set(i, value);
                }
            }
            if right_down {
                self.tiles.set(i, EMPTY_TILE);
            }
        }
    }
}

// ---------------------------------------------------------------------------
// Drawing order
// ---------------------------------------------------------------------------

/// Cell `p` is drawn before cell `q`: a smaller tile id first, cells of one tile id in
/// the order of their positions.
pub open spec fn drawn_before(ids: Seq<i32>, p: int, q: int) -> bool {
    ids[p] < ids[q] || (ids[p] == ids[q] && p < q)
}

/// `order` lists positions in drawing order, each strictly before the next.
pub open spec fn in_drawing_order(ids: Seq<i32>, order: Seq<usize>) -> bool {
    forall|a: int, b: int|
        0 <= a < b < order.len() ==> drawn_before(ids, #[trigger] order[a] as int, #[trigger] order[b] as int)
}

/// `order` lists position `x`.
pub open spec fn has_position(order: Seq<usize>, x: int) -> bool {
    exists|k: int| 0 <= k < order.len() && order[k] == x
}

/// `order` holds exactly the positions `lo` to `hi - 1`.
pub open spec fn holds_range(order: Seq<usize>, lo: int, hi: int) -> bool {
    &&& order.len() == hi - lo
    &&& forall|x: int| #[trigger] has_position(order, x) <==> lo <= x < hi
}

proof fn lemma_has_position_push(s: Seq<usize>, y: usize)
    ensures
        forall|x: int| #[trigger] has_position(s.push(y), x) <==> has_position(s, x) || x == y,
{
    assert forall|x: int| #[trigger] has_position(s.push(y), x) <==> has_position(s, x) || x == y by {
        if has_position(s, x) {
            let k = choose|k: int| 0 <= k < s.len() && s[k] == x;
            assert(s.push(y)[k] == x);
        }
        if x == y {
            assert(s.push(y)[s.len() as int] == x);
        }
        if has_position(s.push(y), x) {
            let k = choose|k: int| 0 <= k < s.len() + 1 && s.push(y)[k] == x;
            if k < s.len() {
                assert(s[k] == x);
            }
        }
    }
}

proof fn lemma_has_position_empty(s: Seq<usize>)
    requires
        s.len() == 0,
    ensures
        forall|x: int| !#[trigger] has_position(s, x),
{
}

/// Merges two lists in drawing order into one.
fn merge(ids: &Vec<i32>, a: Vec<usize>, b: Vec<usize>) -> (res: Vec<usize>)
    requires
        in_drawing_order(ids@, a@),
        in_drawing_order(ids@, b@),
        forall|k: int| 0 <= k < a.len() ==> #[trigger] a@[k] < ids.len(),
        forall|k: int| 0 <= k < b.len() ==> #[trigger] b@[k] < ids.len(),
        forall|x: int| #[trigger] has_position(a@, x) ==> !has_position(b@, x),
    ensures
        in_drawing_order(ids@, res@),
        res.len() == a.len() + b.len(),
        forall|x: int| #[trigger] has_position(res@, x) <==> has_position(a@, x) || has_position(b@, x),
{
    let mut res: Vec<usize> = Vec::new();
    let mut i: usize = 0;
    let mut j: usize = 0;
    proof {
        assert(a@.take(0) =~= Seq::<usize>::empty());
        assert(b@.take(0) =~= Seq::<usize>::empty());
        lemma_has_position_empty(res@);
        lemma_has_position_empty(a@.take(0));
        lemma_has_position_empty(b@.take(0));
    }
    while i < a.len() || j < b.len()
        invariant
            i <= a.len(),
            j <= b.len(),
            res.len() == i + j,
            in_drawing_order(ids@, a@),
            in_drawing_order(ids@, b@),
            forall|k: int| 0 <= k < a.len() ==> #[trigger] a@[k] < ids.len(),
            forall|k: int| 0 <= k < b.len() ==> #[trigger] b@[k] < ids.len(),
            forall|x: int| #[trigger] has_position(a@, x) ==> !has_position(b@, x),
            in_drawing_order(ids@, res@),
            forall|k: int|
                0 <= k < res.len() ==> (i < a.len() ==> drawn_before(
                    ids@,
                    #[trigger] res@[k] as int,
                    a@[i as int] as int,
                )) && (j < b.len() ==> drawn_before(ids@, res@[k] as int, b@[j as int] as int)),
            forall|x: int|
                #[trigger] has_position(res@, x) <==> has_position(a@.take(i as int), x)
                    || has_position(b@.take(j as int), x),
        decreases a.len() + b.len() - i - j,
    {
        let ghost before = res@;
        let take_a = if i < a.len() && j < b.len() {
            let p = a[i];
            let q = b[j];
            ids[p] < ids[q] || (ids[p] == ids[q] && p < q)
        } else {
            i < a.len()
        };
        if take_a {
            let v = a[i];
            res.push(v);
            proof {
                lemma_has_position_push(before, v);
                assert(a@.take(i + 1) =~= a@.take(i as int).push(v));
                lemma_has_position_push(a@.take(i as int), v);
                if i + 1 < a.len() {
                    assert(drawn_before(ids@, a@[i as int] as int, a@[i + 1] as int));
                }
                assert forall|k: int| 0 <= k < res.len() implies (i + 1 < a.len() ==> drawn_before(
                    ids@,
                    #[trigger] res@[k] as int,
                    a@[i + 1] as int,
                )) && (j < b.len() ==> drawn_before(ids@, res@[k] as int, b@[j as int] as int)) by {
                    if k < before.len() {
                        assert(res@[k] == before[k]);
                    }
                }
            }
            i = i + 1;
        } else {
            let v = b[j];
            res.push(v);
            proof {
                lemma_has_position_push(before, v);
                assert(b@.take(j + 1) =~= b@.take(j as int).push(v));
                lemma_has_position_push(b@.take(j as int), v);
                if j + 1 < b.len() {
                    assert(drawn_before(ids@, b@[j as int] as int, b@[j + 1] as int));
                }
                if i < a.len() {
                    let p = a@[i as int] as int;
                    let q = v as int;
                    assert(has_position(a@, p));
                    assert(has_position(b@, q)) by {
                        assert(b@[j as int] == v);
                    }
                    assert(p != q);
                }
                assert forall|k: int| 0 <= k < res.len() implies (i < a.len() ==> drawn_before(
                    ids@,
                    #[trigger] res@[k] as int,
                    a@[i as int] as int,
                )) && (j + 1 < b.len() ==> drawn_before(ids@, res@[k] as int, b@[j + 1] as int)) by {
                    if k < before.len() {
                        assert(res@[k] == before[k]);
                    }
                }
            }
            j = j + 1;
        }
    }
    proof {
        assert(a@.take(a.len() as int) =~= a@);
        assert(b@.take(b.len() as int) =~= b@);
    }
    res
}

/// The positions `lo` to `hi - 1` in drawing order.
fn draw_order_range(ids: &Vec<i32>, lo: usize, hi: usize) -> (res: Vec<usize>)
    requires
        lo < hi <= ids.len(),
    ensures
        in_drawing_order(ids@, res@),
        holds_range(res@, lo as int, hi as int),
    decreases hi - lo,
{
    if hi - lo == 1 {
        let mut res = Vec::new();
        res.push(lo);
        proof {
            lemma_has_position_empty(Seq::<usize>::empty());
            lemma_has_position_push(Seq::<usize>::empty(), lo);
            assert(res@ =~= Seq::<usize>::empty().push(lo));
        }
        return res;
    }
    let mid = lo + (hi - lo) / 2;
    let left = draw_order_range(ids, lo, mid);
    let right = draw_order_range(ids, mid, hi);
    proof {
        assert forall|k: int| 0 <= k < left@.len() implies #[trigger] left@[k] < ids.len() by {
            assert(has_position(left@, left@[k] as int));
        }
        assert forall|k: int| 0 <= k < right@.len() implies #[trigger] right@[k] < ids.len() by {
            assert(has_position(right@, right@[k] as int));
        }
    }
    merge(ids, left, right)
}

/// The order in which to draw cells holding the tile ids `ids`: every position exactly
/// once, by tile id, cells of one tile id in the order of their positions (so that each image
/// is drawn in one run).
pub fn draw_order(ids: &Vec<i32>) -> (order: Vec<usize>)
    ensures
        in_drawing_order(ids@, order@),
        holds_range(order@, 0, ids.len() as int),
{
    if ids.len() == 0 {
        return Vec::new();
    }
    draw_order_range(ids, 0, ids.len())
}

} // verus!
