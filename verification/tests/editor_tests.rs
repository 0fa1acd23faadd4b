use map_editor::editor::{MapEditor, TileInfo, DEFAULT_MAP_HEIGHT, DEFAULT_MAP_WIDTH, EMPTY_TILE};

fn editor_with(width: usize, height: usize, tiles: Vec<i32>) -> MapEditor {
    let mut editor = MapEditor::new();
    editor.map_width = width;
    editor.map_height = height;
    editor.tiles = tiles;
    editor
}

fn tile(id: usize, name: &str, collision: bool) -> TileInfo {
    TileInfo { id, name: name.to_string(), collision }
}

#[test]
fn new_editor_is_empty_default_map() {
    let editor = MapEditor::new();
    assert_eq!(editor.map_width, 20);
    assert_eq!(editor.map_height, 15);
    assert_eq!(DEFAULT_MAP_WIDTH * DEFAULT_MAP_HEIGHT, 300);
    assert_eq!(editor.tiles.len(), 300);
    assert!(editor.tiles.iter().all(|&t| t == -1));
    assert_eq!(editor.selected_tile, EMPTY_TILE);
    assert!(editor.loaded_tiles.is_empty());
    assert_eq!(
        editor.status_message,
        "Загрузите папку с тайлами (.png) для начала работы."
    );
}

#[test]
fn resize_grows_with_empty_cells() {
    let mut editor = editor_with(2, 2, vec![1, 2, 3, 4]);
    editor.resize_map(3, 3);
    assert_eq!(editor.map_width, 3);
    assert_eq!(editor.map_height, 3);
    assert_eq!(editor.tiles, vec![1, 2, -1, 3, 4, -1, -1, -1, -1]);
    assert_eq!(editor.status_message, "Карта изменена: 3x3");
}

#[test]
fn resize_shrinks_keeping_the_corner() {
    let mut editor = editor_with(3, 2, vec![1, 2, 3, 4, 5, 6]);
    editor.resize_map(2, 1);
    assert_eq!(editor.tiles, vec![1, 2]);
    assert_eq!(editor.status_message, "Карта изменена: 2x1");
}

#[test]
fn resize_grow_then_shrink_restores_the_map() {
    let saved = vec![7, 8, 9, 10, 11, 12];
    let mut editor = editor_with(3, 2, saved.clone());
    editor.resize_map(5, 4);
    editor.resize_map(3, 2);
    assert_eq!(editor.tiles, saved);
}

#[test]
fn resize_to_zero_width() {
    let mut editor = editor_with(2, 2, vec![1, 2, 3, 4]);
    editor.resize_map(0, 3);
    assert!(editor.tiles.is_empty());
    assert_eq!(editor.map_height, 3);
    assert_eq!(editor.status_message, "Карта изменена: 0x3");
}

#[test]
fn fill_entire_map_with_selected_tile() {
    let mut editor = editor_with(2, 2, vec![1, 2, 3, 4]);
    editor.selected_tile = 5;
    editor.fill_entire_map();
    assert_eq!(editor.tiles, vec![5, 5, 5, 5]);
    assert_eq!(editor.status_message, "Вся карта заполнена тайлом ID: 5");
}

#[test]
fn fill_entire_map_with_eraser() {
    let mut editor = editor_with(2, 1, vec![1, 2]);
    editor.selected_tile = -1;
    editor.fill_entire_map();
    assert_eq!(editor.tiles, vec![-1, -1]);
    assert_eq!(editor.status_message, "Вся карта заполнена тайлом ID: -1");
}

#[test]
fn fill_entire_map_ignores_invalid_selection() {
    let mut editor = editor_with(2, 1, vec![1, 2]);
    editor.selected_tile = -7;
    editor.status_message = "before".to_string();
    editor.fill_entire_map();
    assert_eq!(editor.tiles, vec![1, 2]);
    assert_eq!(editor.status_message, "before");
}

#[test]
fn flood_fill_replaces_connected_region_only() {
    // 4 x 3 map:
    // 0 0 1 0
    // 1 0 1 0
    // 0 0 1 1
    let mut editor = editor_with(4, 3, vec![0, 0, 1, 0, 1, 0, 1, 0, 0, 0, 1, 1]);
    editor.selected_tile = 9;
    editor.flood_fill(0, 0);
    assert_eq!(editor.tiles, vec![9, 9, 1, 0, 1, 9, 1, 0, 9, 9, 1, 1]);
    assert_eq!(editor.status_message, "Заливка области выполнена тайлом ID: 9");
}

#[test]
fn flood_fill_does_not_cross_diagonals() {
    // 0 1
    // 1 0
    let mut editor = editor_with(2, 2, vec![0, 1, 1, 0]);
    editor.selected_tile = 5;
    editor.flood_fill(0, 0);
    assert_eq!(editor.tiles, vec![5, 1, 1, 0]);
}

#[test]
fn flood_fill_same_tile_changes_nothing() {
    let mut editor = editor_with(2, 2, vec![3, 3, 3, 4]);
    editor.selected_tile = 3;
    editor.status_message = "before".to_string();
    editor.flood_fill(1, 0);
    assert_eq!(editor.tiles, vec![3, 3, 3, 4]);
    assert_eq!(editor.status_message, "before");
}

#[test]
fn flood_fill_twice_is_the_same_as_once() {
    let mut editor = editor_with(3, 2, vec![2, 2, 0, 0, 2, 2]);
    editor.selected_tile = 8;
    editor.flood_fill(0, 0);
    let once = editor.tiles.clone();
    editor.flood_fill(0, 0);
    assert_eq!(editor.tiles, once);
    assert_eq!(once, vec![8, 8, 0, 0, 8, 8]);
}

#[test]
fn flood_fill_whole_uniform_map() {
    let mut editor = MapEditor::new();
    editor.selected_tile = 1;
    editor.flood_fill(19, 14);
    assert!(editor.tiles.iter().all(|&t| t == 1));
}

#[test]
fn flood_fill_leaves_extra_tiles_past_the_grid() {
    let mut editor = editor_with(2, 1, vec![0, 0, 0]);
    editor.selected_tile = 4;
    editor.flood_fill(1, 0);
    assert_eq!(editor.tiles, vec![4, 4, 0]);
}

#[test]
fn load_map_reads_rows() {
    let mut editor = MapEditor::new();
    editor.load_map_from_file("1 2 3\n4 5 6\n");
    assert_eq!(editor.map_width, 3);
    assert_eq!(editor.map_height, 2);
    assert_eq!(editor.tiles, vec![1, 2, 3, 4, 5, 6]);
    assert_eq!(editor.status_message, "Карта загружена из файла (3x2)");
}

#[test]
fn load_map_skips_blank_lines_and_bad_words() {
    let mut editor = MapEditor::new();
    editor.load_map_from_file("\r\n  -1\t+7 x 99999999999 2147483647\r\n\n   \nabc\n-2147483648");
    assert_eq!(editor.map_height, 2);
    assert_eq!(editor.map_width, 1);
    assert_eq!(editor.tiles, vec![-1, 7, 2147483647, -2147483648]);
    assert_eq!(editor.status_message, "Карта загружена из файла (1x2)");
}

#[test]
fn load_map_width_comes_from_last_row() {
    let mut editor = MapEditor::new();
    editor.load_map_from_file("1 2\n3\n");
    assert_eq!(editor.map_width, 1);
    assert_eq!(editor.map_height, 2);
    assert_eq!(editor.tiles, vec![1, 2, 3]);
}

#[test]
fn load_map_unicode_whitespace_separates() {
    let mut editor = MapEditor::new();
    editor.load_map_from_file("5\u{3000}6\u{a0}7");
    assert_eq!(editor.tiles, vec![5, 6, 7]);
    assert_eq!(editor.map_width, 3);
}

#[test]
fn load_map_without_numbers_keeps_map() {
    let mut editor = editor_with(1, 1, vec![4]);
    editor.load_map_from_file("hello\n\n- +\n");
    assert_eq!(editor.map_width, 1);
    assert_eq!(editor.tiles, vec![4]);
    assert_eq!(editor.status_message, "Ошибка: не удалось распарсить файл карты.");
}

#[test]
fn map_file_text_writes_rows() {
    let editor = editor_with(3, 2, vec![0, -1, 12, 3, 4, -2147483648]);
    assert_eq!(editor.map_file_text(), "0 -1 12\n3 4 -2147483648\n");
}

#[test]
fn map_file_round_trip() {
    let saved = editor_with(4, 3, vec![1, -1, 20, 300, 4, 5, 6, 7, 8, 9, 10, i32::MAX]);
    let text = saved.map_file_text();
    let mut loaded = MapEditor::new();
    loaded.load_map_from_file(&text);
    assert_eq!(loaded.map_width, 4);
    assert_eq!(loaded.map_height, 3);
    assert_eq!(loaded.tiles, saved.tiles);
}

#[test]
fn tileset_text_lists_tiles() {
    let mut editor = MapEditor::new();
    editor.loaded_tiles = vec![tile(0, "grass", false), tile(2, "wall", true)];
    assert_eq!(editor.tileset_file_text(), "0 grass false\n2 wall true\n");
}

#[test]
fn save_project_reports_outcome() {
    let mut editor = MapEditor::new();
    editor.save_project(None);
    assert_eq!(editor.status_message, "Загрузите папку с тайлами (.png) для начала работы.");
    editor.save_project(Some(Ok(())));
    assert_eq!(editor.status_message, "Карта и .tileset файл успешно сохранены!");
    editor.save_project(Some(Err("disk full".to_string())));
    assert_eq!(editor.status_message, "Ошибка сохранения .tileset: disk full");
}

#[test]
fn load_tiles_selects_first_tile() {
    let mut editor = MapEditor::new();
    editor.load_tiles_from_folder(vec![tile(0, "a", false), tile(1, "b", false)]);
    assert_eq!(editor.loaded_tiles.len(), 2);
    assert_eq!(editor.selected_tile, 0);
    assert_eq!(editor.status_message, "Загружено тайлов из папки: 2");
}

#[test]
fn load_tiles_from_empty_folder_clears_palette() {
    let mut editor = MapEditor::new();
    editor.loaded_tiles = vec![tile(0, "a", false)];
    editor.selected_tile = 3;
    editor.load_tiles_from_folder(Vec::new());
    assert!(editor.loaded_tiles.is_empty());
    assert_eq!(editor.selected_tile, 3);
    assert_eq!(editor.status_message, "В выбранной папке не найдено .png файлов.");
}

#[test]
fn flood_fill_on_a_partly_stored_map() {
    // a 2 x 2 map of which only three cells are stored
    let mut editor = editor_with(2, 2, vec![0, 1, 1]);
    editor.selected_tile = 5;
    editor.flood_fill(0, 0);
    assert_eq!(editor.tiles, vec![5, 1, 1]);
}
