use map_editor::palette::{is_png_file, png_tile_files, tiles_from_files};

fn names(list: &[&[u8]]) -> Vec<Vec<u8>> {
    list.iter().map(|n| n.to_vec()).collect()
}

#[test]
fn png_extension_any_case() {
    assert!(is_png_file(&b"a.png".to_vec()));
    assert!(is_png_file(&b"b.PnG".to_vec()));
    assert!(is_png_file(&b"..png".to_vec()));
    assert!(!is_png_file(&b".png".to_vec()));
    assert!(!is_png_file(&b"png".to_vec()));
    assert!(!is_png_file(&b"a.jpg".to_vec()));
    assert!(!is_png_file(&b"a.png.bak".to_vec()));
    assert!(!is_png_file(&b"a.pngx".to_vec()));
}

#[test]
fn tile_files_are_filtered_and_sorted() {
    let input = names(&[b"water.png", b"notes.txt", b"Grass.PNG", b"a.png", b".png", b"ab.png"]);
    let files = png_tile_files(input);
    assert_eq!(files, names(&[b"Grass.PNG", b"a.png", b"ab.png", b"water.png"]));
}

#[test]
fn tile_files_sort_by_bytes() {
    let input = names(&[b"b10.png", b"b2.png", b"b1.png", b"b.png"]);
    let files = png_tile_files(input);
    assert_eq!(files, names(&[b"b.png", b"b1.png", b"b10.png", b"b2.png"]));
}

#[test]
fn tiles_get_position_ids_and_stem_names() {
    let files = names(&[b"dirt.png", b"lava.png", b"\xff\xfe.png", b"\xd0\xb2\xd0\xbe\xd0\xb4\xd0\xb0.PNG"]);
    let tiles = tiles_from_files(&files, &vec![true, false, true, true]);
    assert_eq!(tiles.len(), 3);
    assert_eq!((tiles[0].id, tiles[0].name.as_str(), tiles[0].collision), (0, "dirt", false));
    assert_eq!((tiles[1].id, tiles[1].name.as_str()), (2, "tile"));
    assert_eq!((tiles[2].id, tiles[2].name.as_str()), (3, "вода"));
}
