//! The editor's state: the map, the palette of loaded tiles, the selected tile and the
//! status line, with the operations that change them.
use vstd::prelude::*;

use crate::flood::{filled_cell, fill_stays_stored, flood_fill_cells, stored, tile_at};
use crate::grid::{idx, in_grid, lemma_idx_bounds, repeated};
use crate::map_file::{map_file_text, map_text, parse_map, parse_map_text};
use crate::palette::{tileset_file_text, tileset_text};
use crate::text::{
    all_digits, dec_int, dec_nat, digits_value, lemma_dec_nat_digits, lemma_parse_dec, parse_i32,
    push_decimal, push_signed_decimal,
};

verus! {

/// Width of the map a new editor starts with.
pub const DEFAULT_MAP_WIDTH: usize = 20;

/// Height of the map a new editor starts with.
pub const DEFAULT_MAP_HEIGHT: usize = 15;

/// The tile id of an empty cell (and of the eraser).
pub const EMPTY_TILE: i32 = -1;

/// A tile of the palette: its id, the name it was loaded under and whether it blocks movement.
pub struct TileInfo {
    pub id: usize,
    pub name: String,
    pub collision: bool,
}

/// The editor: a `map_width` x `map_height` map whose tile ids are stored row by row in
/// `tiles`, the palette `loaded_tiles`, the tile the brush paints with, and a status line.
pub struct MapEditor {
    pub map_width: usize,
    pub map_height: usize,
    pub tiles: Vec<i32>,
    pub selected_tile: i32,
    pub loaded_tiles: Vec<TileInfo>,
    pub status_message: String,
}

// ---------------------------------------------------------------------------
// Status lines
// ---------------------------------------------------------------------------

/// The status line of a new editor.
pub open spec fn welcome_status() -> Seq<char> {
    "Загрузите папку с тайлами (.png) для начала работы."@
}

/// The status line after the map was resized.
pub open spec fn resized_status(width: nat, height: nat) -> Seq<char> {
    "Карта изменена: "@ + dec_nat(width) + "x"@ + dec_nat(height)
}

/// The status line after tiles were loaded from a folder.
pub open spec fn tiles_loaded_status(count: nat) -> Seq<char> {
    "Загружено тайлов из папки: "@ + dec_nat(count)
}

/// The status line after a folder without tile images was chosen.
pub open spec fn no_tiles_status() -> Seq<char> {
    "В выбранной папке не найдено .png файлов."@
}

/// The status line after the tileset file could not be written.
pub open spec fn save_failed_status(reason: Seq<char>) -> Seq<char> {
    "Ошибка сохранения .tileset: "@ + reason
}

/// The status line after the map and the tileset were saved.
pub open spec fn saved_status() -> Seq<char> {
    "Карта и .tileset файл успешно сохранены!"@
}

/// The status line after a map file was read.
pub open spec fn map_loaded_status(width: nat, height: nat) -> Seq<char> {
    "Карта загружена из файла ("@ + dec_nat(width) + "x"@ + dec_nat(height) + ")"@
}

/// The status line after a map file held no tile ids.
pub open spec fn map_unreadable_status() -> Seq<char> {
    "Ошибка: не удалось распарсить файл карты."@
}

/// The status line after the whole map was filled.
pub open spec fn map_filled_status(tile: int) -> Seq<char> {
    "Вся карта заполнена тайлом ID: "@ + dec_int(tile)
}

/// The status line after a bucket fill.
pub open spec fn region_filled_status(tile: int) -> Seq<char> {
    "Заливка области выполнена тайлом ID: "@ + dec_int(tile)
}

/// `text` is `prefix` followed by the decimal digits of `n`.
pub open spec fn ends_with_number(text: Seq<char>, prefix: Seq<char>, n: nat) -> bool {
    exists|digits: Seq<char>|
        #![trigger all_digits(digits)]
        digits.len() > 0 && all_digits(digits) && digits_value(digits) == n && text == prefix
            + digits
}

/// The numbers in the status lines are written in decimal and read back as the numbers
/// they report: the new size, the number of loaded tiles, the size of a loaded map and
/// the tile a fill used.
pub proof fn lemma_status_numbers(width: nat, height: nat, count: nat, tile: i32)
    ensures
        ends_with_number(
            resized_status(width, height),
            "Карта изменена: "@ + dec_nat(width) + "x"@,
            height,
        ),
        ends_with_number("Карта изменена: "@ + dec_nat(width), "Карта изменена: "@, width),
        ends_with_number(tiles_loaded_status(count), "Загружено тайлов из папки: "@, count),
        ends_with_number(
            map_loaded_status(width, height).take(map_loaded_status(width, height).len() - 1),
            "Карта загружена из файла ("@ + dec_nat(width) + "x"@,
            height,
        ),
        ends_with_number(
            "Карта загружена из файла ("@ + dec_nat(width),
            "Карта загружена из файла ("@,
            width,
        ),
        parse_i32(map_filled_status(tile as int).skip("Вся карта заполнена тайлом ID: "@.len() as int))
            == Some(tile),
        map_filled_status(tile as int).take("Вся карта заполнена тайлом ID: "@.len() as int)
            == "Вся карта заполнена тайлом ID: "@,
        parse_i32(
            region_filled_status(tile as int).skip(
                "Заливка области выполнена тайлом ID: "@.len() as int,
            ),
        ) == Some(tile),
        region_filled_status(tile as int).take(
            "Заливка области выполнена тайлом ID: "@.len() as int,
        ) == "Заливка области выполнена тайлом ID: "@,
{
    lemma_dec_nat_digits(width);
    lemma_dec_nat_digits(height);
    lemma_dec_nat_digits(count);
    lemma_parse_dec(tile);
    let dw = dec_nat(width);
    let dh = dec_nat(height);
    assert(all_digits(dw) && all_digits(dh));
    let m = map_loaded_status(width, height);
    assert(m.take(m.len() - 1) =~= "Карта загружена из файла ("@ + dw + "x"@ + dh) by {
        assert(m == "Карта загружена из файла ("@ + dw + "x"@ + dh + ")"@);
        reveal_strlit(")");
    }
    let p1 = "Вся карта заполнена тайлом ID: "@;
    assert((p1 + dec_int(tile as int)).skip(p1.len() as int) =~= dec_int(tile as int));
    assert((p1 + dec_int(tile as int)).take(p1.len() as int) =~= p1);
    let p2 = "Заливка области выполнена тайлом ID: "@;
    assert((p2 + dec_int(tile as int)).skip(p2.len() as int) =~= dec_int(tile as int));
    assert((p2 + dec_int(tile as int)).take(p2.len() as int) =~= p2);
    assert(all_digits(dec_nat(count)));
}

/// A string with the given text.
fn text_of(s: &str) -> (res: String)
    ensures
        res@ == s@,
{
    let mut res = String::new();
    res.append(s);
    res
}

/// `new_tiles` is the `new_width` x `new_height` map made from the `old_width` x
/// `old_height` map `old_tiles`: the cells they share keep their tiles, the others are empty.
pub open spec fn is_resized(
    new_tiles: Seq<i32>,
    old_tiles: Seq<i32>,
    old_width: int,
    old_height: int,
    new_width: int,
    new_height: int,
) -> bool {
    &&& new_tiles.len() == new_width * new_height
    &&& forall|x: int, y: int|
        in_grid(new_width, new_height, x, y) ==> #[trigger] tile_at(new_tiles, new_width, (x, y))
            == if x < old_width && y < old_height {
            tile_at(old_tiles, old_width, (x, y))
        } else {
            EMPTY_TILE
        }
}

/// Growing a map and then shrinking it back to its size gives the map back: the cells
/// the larger map added are dropped again.
pub proof fn lemma_resize_round_trip(
    map: Seq<i32>,
    grown: Seq<i32>,
    restored: Seq<i32>,
    width: int,
    height: int,
    big_width: int,
    big_height: int,
)
    requires
        0 <= width <= big_width,
        0 <= height <= big_height,
        map.len() == width * height,
        is_resized(grown, map, width, height, big_width, big_height),
        is_resized(restored, grown, big_width, big_height, width, height),
    ensures
        restored == map,
{
    assert forall|i: int| 0 <= i < map.len() implies restored[i] == map[i] by {
        crate::grid::lemma_idx_onto(width, height, i);
        let x = i % width;
        let y = i / width;
        assert(tile_at(restored, width, (x, y)) == tile_at(grown, big_width, (x, y)));
        assert(tile_at(grown, big_width, (x, y)) == tile_at(map, width, (x, y)));
    }
    assert(restored =~= map);
}

impl MapEditor {
    /// The map's cells all have a stored tile.
    pub open spec fn covers_grid(&self) -> bool {
        self.map_width * self.map_height <= self.tiles.len()
    }

    /// The tile id stored for the cell (`x`, `y`).
    pub open spec fn cell(&self, x: int, y: int) -> i32 {
        tile_at(self.tiles@, self.map_width as int, (x, y))
    }

    /// A 20 x 15 map of empty cells, no tiles loaded, the eraser selected.
    pub fn new() -> (editor: Self)
        ensures
            editor.map_width == DEFAULT_MAP_WIDTH,
            editor.map_height == DEFAULT_MAP_HEIGHT,
            editor.tiles@ == Seq::new(
                (DEFAULT_MAP_WIDTH * DEFAULT_MAP_HEIGHT) as nat,
                |i: int| EMPTY_TILE,
            ),
            editor.selected_tile == EMPTY_TILE,
            editor.loaded_tiles@.len() == 0,
            editor.status_message@ == welcome_status(),
    {
        let map_width = DEFAULT_MAP_WIDTH;
        let map_height = DEFAULT_MAP_HEIGHT;
        let tiles = repeated(map_width * map_height, EMPTY_TILE);
        MapEditor {
            map_width,
            map_height,
            tiles,
            selected_tile: EMPTY_TILE,
            loaded_tiles: Vec::new(),
            status_message: text_of("Загрузите папку с тайлами (.png) для начала работы."),
        }
    }

    /// The cells that a resize to `new_width` x `new_height` keeps are stored.
    pub open spec fn can_resize_to(&self, new_width: usize, new_height: usize) -> bool {
        forall|x: int, y: int|
            0 <= x < new_width && x < self.map_width && 0 <= y < new_height && y < self.map_height
                ==> #[trigger] idx(self.map_width as int, x, y) < self.tiles.len()
    }

    /// Gives the map the size `new_width` x `new_height`: the cells the old and the new map
    /// share keep their tiles, the new cells are empty.
    pub fn resize_map(&mut self, new_width: usize, new_height: usize)
        requires
            new_width * new_height <= usize::MAX,
            old(self).can_resize_to(new_width, new_height),
        ensures
            final(self).map_width == new_width,
            final(self).map_height == new_height,
            is_resized(
                final(self).tiles@,
                old(self).tiles@,
                old(self).map_width as int,
                old(self).map_height as int,
                new_width as int,
                new_height as int,
            ),
            final(self).selected_tile == old(self).selected_tile,
            final(self).loaded_tiles == old(self).loaded_tiles,
            final(self).status_message@ == resized_status(new_width as nat, new_height as nat),
    {
        let old_width = self.map_width;
        let old_height = self.map_height;
        let keep_width = if new_width < old_width {
            new_width
        } else {
            old_width
        };
        let keep_height = if new_height < old_height {
            new_height
        } else {
            old_height
        };
        let mut new_tiles = repeated(new_width * new_height, EMPTY_TILE);
        let ghost nw = new_width as int;
        let ghost nh = new_height as int;
        let ghost ow = old_width as int;
        proof {
            assert forall|x: int, yy: int| in_grid(nw, nh, x, yy) implies #[trigger] tile_at(
                new_tiles@,
                nw,
                (x, yy),
            ) == EMPTY_TILE by {
                lemma_idx_bounds(nw, nh, x, yy);
            }
        }
        let mut y: usize = 0;
        while y < keep_height
            invariant
                y <= keep_height,
                keep_height <= new_height,
                keep_height <= old_height,
                keep_width <= new_width,
                keep_width <= old_width,
                old_width == self.map_width,
                old_height == self.map_height,
                nw == new_width,
                nh == new_height,
                ow == old_width,
                new_width * new_height <= usize::MAX,
                self.can_resize_to(new_width, new_height),
                new_tiles.len() == new_width * new_height,
                forall|x: int, yy: int|
                    in_grid(nw, nh, x, yy) ==> #[trigger] tile_at(new_tiles@, nw, (x, yy)) == if x
                        < keep_width && yy < y {
                        tile_at(self.tiles@, ow, (x, yy))
                    } else {
                        EMPTY_TILE
                    },
            decreases keep_height - y,
        {
            let mut x: usize = 0;
            while x < keep_width
                invariant
                    x <= keep_width,
                    y < keep_height,
                    keep_height <= new_height,
                    keep_height <= old_height,
                    keep_width <= new_width,
                    keep_width <= old_width,
                    old_width == self.map_width,
                    old_height == self.map_height,
                    nw == new_width,
                    nh == new_height,
                    ow == old_width,
                    new_width * new_height <= usize::MAX,
                    self.can_resize_to(new_width, new_height),
                    new_tiles.len() == new_width * new_height,
                    forall|xx: int, yy: int|
                        in_grid(nw, nh, xx, yy) ==> #[trigger] tile_at(new_tiles@, nw, (xx, yy))
                            == if (xx < keep_width && yy < y) || (yy == y && xx < x) {
                            tile_at(self.tiles@, ow, (xx, yy))
                        } else {
                            EMPTY_TILE
                        },
                decreases keep_width - x,
            {
                proof {
                    lemma_idx_bounds(nw, nh, x as int, y as int);
                    assert(idx(ow, x as int, y as int) < self.tiles.len());
                }
                let ghost before = new_tiles@;
                let value = self.tiles[y * old_width + x];
                new_tiles.set(y * new_width + x, value);
                proof {
                    assert forall|xx: int, yy: int| in_grid(nw, nh, xx, yy) implies #[trigger] tile_at(
                        new_tiles@,
                        nw,
                        (xx, yy),
                    ) == if (xx < keep_width && yy < y) || (yy == y && xx < x + 1) {
                        tile_at(self.tiles@, ow, (xx, yy))
                    } else {
                        EMPTY_TILE
                    } by {
                        lemma_idx_bounds(nw, nh, xx, yy);
                        if idx(nw, xx, yy) == idx(nw, x as int, y as int) {
                            crate::grid::lemma_idx_injective(nw, xx, yy, x as int, y as int);
                        } else {
                            assert(tile_at(new_tiles@, nw, (xx, yy)) == tile_at(before, nw, (xx, yy)));
                        }
                    }
                }
                x = x + 1;
            }
            y = y + 1;
        }
        proof {
            assert forall|x: int, y: int| in_grid(nw, nh, x, y) implies #[trigger] tile_at(
                new_tiles@,
                nw,
                (x, y),
            ) == if x < old_width && y < old_height {
                tile_at(self.tiles@, ow, (x, y))
            } else {
                EMPTY_TILE
            } by {}
        }
        self.map_width = new_width;
        self.map_height = new_height;
        self.tiles = new_tiles;
        let mut status = text_of("Карта изменена: ");
        push_decimal(&mut status, new_width as u64);
        status.append("x");
        push_decimal(&mut status, new_height as u64);
        self.status_message = status;
    }

    /// When a tile id (or the eraser) is selected, gives every stored cell that tile.
    pub fn fill_entire_map(&mut self)
        ensures
            old(self).selected_tile >= EMPTY_TILE ==> {
                &&& final(self).tiles@ == Seq::new(
                    old(self).tiles.len() as nat,
                    |i: int| old(self).selected_tile,
                )
                &&& final(self).status_message@ == map_filled_status(
                    old(self).selected_tile as int,
                )
                &&& final(self).map_width == old(self).map_width
                &&& final(self).map_height == old(self).map_height
                &&& final(self).selected_tile == old(self).selected_tile
                &&& final(self).loaded_tiles == old(self).loaded_tiles
            },
            old(self).selected_tile < EMPTY_TILE ==> *final(self) == *old(self),
    {
        if self.selected_tile >= EMPTY_TILE {
            let n = self.tiles.len();
            let value = self.selected_tile;
            let mut i: usize = 0;
            while i < n
                invariant
                    n == self.tiles.len(),
                    i <= n,
                    self.map_width == old(self).map_width,
                    self.map_height == old(self).map_height,
                    self.selected_tile == old(self).selected_tile,
                    self.loaded_tiles == old(self).loaded_tiles,
                    forall|j: int| 0 <= j < i ==> #[trigger] self.tiles@[j] == value,
                decreases n - i,
            {
                self.tiles.set(i, value);
                i = i + 1;
            }
            assert(self.tiles@ =~= Seq::new(n as nat, |j: int| value));
            let mut status = text_of("Вся карта заполнена тайлом ID: ");
            push_signed_decimal(&mut status, value as i64);
            self.status_message = status;
        }
    }

    /// Bucket fill from the cell (`start_x`, `start_y`) with the selected tile: the cells
    /// reachable from it through edge-adjacent cells of its tile take the selected tile.
    /// When the cell already holds the selected tile nothing changes. Every cell the fill
    /// looks at must be stored (always so when the map covers its grid).
    pub fn flood_fill(&mut self, start_x: usize, start_y: usize)
        requires
            start_x < old(self).map_width,
            start_y < old(self).map_height,
            fill_stays_stored(
                old(self).tiles@,
                old(self).map_width as int,
                old(self).map_height as int,
                (start_x as int, start_y as int),
            ),
        ensures
            old(self).cell(start_x as int, start_y as int) == old(self).selected_tile
                ==> *final(self) == *old(self),
            old(self).cell(start_x as int, start_y as int) != old(self).selected_tile ==> {
                &&& final(self).tiles.len() == old(self).tiles.len()
                &&& forall|x: int, y: int|
                    in_grid(old(self).map_width as int, old(self).map_height as int, x, y)
                        && stored(old(self).tiles@, old(self).map_width as int, (x, y))
                        ==> #[trigger] final(self).cell(x, y) == filled_cell(
                        old(self).tiles@,
                        old(self).map_width as int,
                        old(self).map_height as int,
                        (start_x as int, start_y as int),
                        old(self).selected_tile,
                        (x, y),
                    )
                &&& forall|i: int|
                    old(self).map_width * old(self).map_height <= i < old(self).tiles.len()
                        ==> #[trigger] final(self).tiles@[i] == old(self).tiles@[i]
                &&& final(self).status_message@ == region_filled_status(
                    old(self).selected_tile as int,
                )
                &&& final(self).map_width == old(self).map_width
                &&& final(self).map_height == old(self).map_height
                &&& final(self).selected_tile == old(self).selected_tile
                &&& final(self).loaded_tiles == old(self).loaded_tiles
            },
    {
        assert(start_y * self.map_width + start_x < self.tiles.len());
        let target = self.tiles[start_y * self.map_width + start_x];
        let replacement = self.selected_tile;
        if target == replacement {
            return ;
        }
        flood_fill_cells(
            &mut self.tiles,
            self.map_width,
            self.map_height,
            start_x,
            start_y,
            replacement,
        );
        let mut status = text_of("Заливка области выполнена тайлом ID: ");
        push_signed_decimal(&mut status, replacement as i64);
        self.status_message = status;
    }

    /// Takes the map from the text of a map file. When no line holds a tile id the map
    /// stays and the status line says so.
    pub fn load_map_from_file(&mut self, content: &str)
        ensures
            match parse_map(content@) {
                Some((w, h, t)) => {
                    &&& final(self).map_width == w
                    &&& final(self).map_height == h
                    &&& final(self).tiles@ == t
                    &&& final(self).status_message@ == map_loaded_status(w as nat, h as nat)
                },
                None => {
                    &&& final(self).map_width == old(self).map_width
                    &&& final(self).map_height == old(self).map_height
                    &&& final(self).tiles == old(self).tiles
                    &&& final(self).status_message@ == map_unreadable_status()
                },
            },
            final(self).selected_tile == old(self).selected_tile,
            final(self).loaded_tiles == old(self).loaded_tiles,
    {
        match parse_map_text(content) {
            Some((cols, rows, tiles)) => {
                self.map_width = cols;
                self.map_height = rows;
                self.tiles = tiles;
                let mut status = text_of("Карта загружена из файла (");
                push_decimal(&mut status, cols as u64);
                status.append("x");
                push_decimal(&mut status, rows as u64);
                status.append(")");
                self.status_message = status;
            },
            None => {
                self.status_message = text_of("Ошибка: не удалось распарсить файл карты.");
            },
        }
    }

    /// The text of the map file for the current map.
    pub fn map_file_text(&self) -> (text: String)
        requires
            self.covers_grid(),
        ensures
            text@ == map_text(self.tiles@, self.map_width as int, self.map_height as int),
    {
        map_file_text(&self.tiles, self.map_width, self.map_height)
    }

    /// The text of the tileset file for the current palette.
    pub fn tileset_file_text(&self) -> (text: String)
        ensures
            text@ == tileset_text(self.loaded_tiles@),
    {
        tileset_file_text(&self.loaded_tiles)
    }

    /// Records how saving went. `tileset_saved` is `None` when no tileset file was chosen
    /// (nothing changes), else whether writing it succeeded, with the reason when it failed.
    pub fn save_project(&mut self, tileset_saved: Option<Result<(), String>>)
        ensures
            final(self).map_width == old(self).map_width,
            final(self).map_height == old(self).map_height,
            final(self).tiles == old(self).tiles,
            final(self).selected_tile == old(self).selected_tile,
            final(self).loaded_tiles == old(self).loaded_tiles,
            match tileset_saved {
                None => final(self).status_message == old(self).status_message,
                Some(Ok(())) => final(self).status_message@ == saved_status(),
                Some(Err(reason)) => final(self).status_message@ == save_failed_status(reason@),
            },
    {
        match tileset_saved {
            None => {},
            Some(Ok(())) => {
                self.status_message = text_of("Карта и .tileset файл успешно сохранены!");
            },
            Some(Err(reason)) => {
                let mut status = text_of("Ошибка сохранения .tileset: ");
                status.append(reason.as_str());
                self.status_message = status;
            },
        }
    }

    /// Takes the palette loaded from a folder, which replaces the old one. With at least one
    /// tile the first is selected and the status line gives the count; without, the
    /// status line says that the folder held no tile images.
    pub fn load_tiles_from_folder(&mut self, tiles: Vec<TileInfo>)
        ensures
            final(self).loaded_tiles@ == tiles@,
            tiles@.len() > 0 ==> final(self).selected_tile == 0 && final(self).status_message@
                == tiles_loaded_status(tiles@.len()),
            tiles@.len() == 0 ==> final(self).selected_tile == old(self).selected_tile
                && final(self).status_message@ == no_tiles_status(),
            final(self).map_width == old(self).map_width,
            final(self).map_height == old(self).map_height,
            final(self).tiles == old(self).tiles,
    {
        let count = tiles.len();
        self.loaded_tiles = tiles;
        if count > 0 {
            self.selected_tile = 0;
            let mut status = text_of("Загружено тайлов из папки: ");
            push_decimal(&mut status, count as u64);
            self.status_message = status;
        } else {
            self.status_message = text_of("В выбранной папке не найдено .png файлов.");
        }
    }
}

} // verus!
