use map_editor::canvas::{draw_order, hover_label, CellLook};
use map_editor::editor::{MapEditor, TileInfo};
use map_editor::text::parse_i32_word;

fn editor_2x2() -> MapEditor {
    let mut editor = MapEditor::new();
    editor.map_width = 2;
    editor.map_height = 2;
    editor.tiles = vec![0, 0, 0, 0];
    editor
}

#[test]
fn cell_look_by_palette() {
    let mut editor = MapEditor::new();
    editor.loaded_tiles = vec![
        TileInfo { id: 0, name: "a".to_string(), collision: false },
        TileInfo { id: 1, name: "b".to_string(), collision: false },
    ];
    assert!(editor.cell_look(1) == CellLook::Texture(1));
    assert!(editor.cell_look(0) == CellLook::Texture(0));
    assert!(editor.cell_look(-1) == CellLook::Empty);
    assert!(editor.cell_look(2) == CellLook::Missing);
    assert!(editor.cell_look(-5) == CellLook::Missing);
}

#[test]
fn hover_label_shows_id() {
    assert_eq!(hover_label(-1), None);
    assert_eq!(hover_label(42), Some("ID: 42".to_string()));
    assert_eq!(hover_label(-3), Some("ID: -3".to_string()));
}

#[test]
fn brush_paints_and_erases() {
    let mut editor = editor_2x2();
    editor.selected_tile = 7;
    editor.paint_cell(1, 0, true, false);
    assert_eq!(editor.tiles, vec![0, 7, 0, 0]);
    editor.paint_cell(1, 0, false, true);
    assert_eq!(editor.tiles, vec![0, -1, 0, 0]);
    editor.paint_cell(0, 1, true, true);
    assert_eq!(editor.tiles, vec![0, -1, -1, 0]);
    editor.paint_cell(2, 0, true, false);
    editor.paint_cell(0, 1, false, false);
    assert_eq!(editor.tiles, vec![0, -1, -1, 0]);
}

#[test]
fn draw_order_groups_by_tile_stably() {
    let order = draw_order(&vec![3, -1, 3, 0, -1, 2]);
    assert_eq!(order, vec![1, 4, 3, 5, 0, 2]);
    assert!(draw_order(&Vec::new()).is_empty());
}

#[test]
fn draw_order_large() {
    let ids: Vec<i32> = (0..1000).map(|i| (i * 7919 % 13) as i32 - 6).collect();
    let order = draw_order(&ids);
    let mut expected: Vec<usize> = (0..1000).collect();
    expected.sort_by_key(|&i| ids[i]);
    assert_eq!(order, expected);
}

#[test]
fn parse_word_like_std() {
    for word in ["0", "-0", "+5", "-", "+", "", "12a", "2147483647", "2147483648", "-2147483648",
        "-2147483649", "00000000000000000000042", "++1", "-+1", "٣"] {
        let chars: Vec<char> = word.chars().collect();
        assert_eq!(parse_i32_word(&chars), word.parse::<i32>().ok(), "{}", word);
    }
}

#[test]
fn white_space_matches_std() {
    for code in 0u32..0x3100 {
        if let Some(c) = char::from_u32(code) {
            assert_eq!(map_editor::text::is_white_char(c), c.is_whitespace(), "{:?}", c);
        }
    }
}
