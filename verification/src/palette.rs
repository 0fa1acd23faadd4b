//! The palette: which files of a folder become tiles, in which order, under which
//! names, and the tileset file that lists them.
use vstd::prelude::*;
use vstd::utf8::{decode_utf8, decode_utf8_encode_utf8, encode_utf8, valid_utf8};

use crate::editor::TileInfo;
use crate::text::{
    all_digits, dec_nat, digits_value, lemma_dec_nat_digits, push_char, push_decimal,
};

verus! {

// ---------------------------------------------------------------------------
// Which files are tile images
// ---------------------------------------------------------------------------

/// An ASCII letter in lower case; other bytes unchanged.
pub open spec fn ascii_lower(b: u8) -> u8 {
    if 65 <= b <= 90 {
        (b + 32) as u8
    } else {
        b
    }
}

/// A file name whose extension (the part after the last `.`, when something precedes
/// that dot) is `png` in any mix of upper and lower case.
pub open spec fn is_png_file_name(name: Seq<u8>) -> bool {
    let n = name.len() as int;
    &&& n >= 5
    &&& name[n - 4] == 46u8
    &&& ascii_lower(name[n - 3]) == 112u8
    &&& ascii_lower(name[n - 2]) == 110u8
    &&& ascii_lower(name[n - 1]) == 103u8
}

fn lower_byte(b: u8) -> (res: u8)
    ensures
        res == ascii_lower(b),
{
    if 65 <= b && b <= 90 {
        b + 32
    } else {
        b
    }
}

/// Whether a file name has the extension `png`, in any case.
pub fn is_png_file(name: &Vec<u8>) -> (res: bool)
    ensures
        res == is_png_file_name(name@),
{
    let n = name.len();
    n >= 5 && name[n - 4] == 46 && lower_byte(name[n - 3]) == 112 && lower_byte(name[n - 2]) == 110
        && lower_byte(name[n - 1]) == 103
}

// ---------------------------------------------------------------------------
// Byte-wise order of file names
// ---------------------------------------------------------------------------

/// `a` comes before `b` or equals it, byte by byte, a prefix first.
pub open spec fn bytes_le(a: Seq<u8>, b: Seq<u8>) -> bool
    decreases a.len(),
{
    if a.len() == 0 {
        true
    } else if b.len() == 0 {
        false
    } else if a[0] != b[0] {
        a[0] < b[0]
    } else {
        bytes_le(a.skip(1), b.skip(1))
    }
}

/// Any two names are ordered one way or the other.
pub proof fn lemma_bytes_le_total(a: Seq<u8>, b: Seq<u8>)
    ensures
        bytes_le(a, b) || bytes_le(b, a),
    decreases a.len(),
{
    if a.len() > 0 && b.len() > 0 && a[0] == b[0] {
        lemma_bytes_le_total(a.skip(1), b.skip(1));
    }
}

/// The order is transitive.
pub proof fn lemma_bytes_le_transitive(a: Seq<u8>, b: Seq<u8>, c: Seq<u8>)
    requires
        bytes_le(a, b),
        bytes_le(b, c),
    ensures
        bytes_le(a, c),
    decreases a.len(),
{
    if a.len() > 0 && b.len() > 0 && c.len() > 0 && a[0] == b[0] && b[0] == c[0] {
        lemma_bytes_le_transitive(a.skip(1), b.skip(1), c.skip(1));
    }
}

/// Names are ordered by their first differing byte, read as an unsigned value: when `a`
/// and `b` agree on their first `k` bytes and differ at byte `k`, `a` comes first exactly
/// when its byte there is smaller.
pub proof fn lemma_bytes_le_first_difference(a: Seq<u8>, b: Seq<u8>, k: int)
    requires
        0 <= k < a.len(),
        k < b.len(),
        a.take(k) == b.take(k),
        a[k] != b[k],
    ensures
        bytes_le(a, b) <==> (a[k] as int) < (b[k] as int),
    decreases k,
{
    if k > 0 {
        assert(a[0] == a.take(k)[0]);
        assert(b[0] == b.take(k)[0]);
        assert(a.skip(1).take(k - 1) =~= b.skip(1).take(k - 1)) by {
            assert forall|i: int| 0 <= i < k - 1 implies a.skip(1)[i] == b.skip(1)[i] by {
                assert(a.take(k)[i + 1] == b.take(k)[i + 1]);
                assert(a.take(k)[i + 1] == a[i + 1]);
                assert(b.take(k)[i + 1] == b[i + 1]);
                assert(a.skip(1)[i] == a[i + 1]);
                assert(b.skip(1)[i] == b[i + 1]);
            }
        }
        lemma_bytes_le_first_difference(a.skip(1), b.skip(1), k - 1);
    }
}

/// A name comes before every longer name it begins.
pub proof fn lemma_bytes_le_prefix(a: Seq<u8>, b: Seq<u8>)
    requires
        a.len() <= b.len(),
        b.take(a.len() as int) == a,
    ensures
        bytes_le(a, b),
    decreases a.len(),
{
    if a.len() > 0 {
        assert(a[0] == b.take(a.len() as int)[0]);
        assert(b.skip(1).take(a.skip(1).len() as int) =~= a.skip(1)) by {
            assert forall|i: int| 0 <= i < a.len() - 1 implies b.skip(1)[i] == a.skip(1)[i] by {
                assert(b.take(a.len() as int)[i + 1] == a[i + 1]);
                assert(b.take(a.len() as int)[i + 1] == b[i + 1]);
                assert(b.skip(1)[i] == b[i + 1]);
                assert(a.skip(1)[i] == a[i + 1]);
            }
        }
        lemma_bytes_le_prefix(a.skip(1), b.skip(1));
    }
}

/// Names in order, each before or equal to every later one.
pub open spec fn names_sorted(s: Seq<Seq<u8>>) -> bool {
    forall|i: int, j: int| 0 <= i < j < s.len() ==> bytes_le(#[trigger] s[i], #[trigger] s[j])
}

/// The contents of a list of file names.
pub open spec fn file_names(v: Seq<Vec<u8>>) -> Seq<Seq<u8>> {
    v.map_values(|n: Vec<u8>| n@)
}

/// The names among `names` that are tile images.
pub open spec fn png_names(names: Seq<Seq<u8>>) -> Seq<Seq<u8>> {
    names.filter(|n: Seq<u8>| is_png_file_name(n))
}

fn bytes_le_exec(a: &Vec<u8>, b: &Vec<u8>) -> (res: bool)
    ensures
        res == bytes_le(a@, b@),
{
    let mut i: usize = 0;
    proof {
        assert(a@.skip(0) =~= a@);
        assert(b@.skip(0) =~= b@);
    }
    while i < a.len() && i < b.len()
        invariant
            i <= a.len(),
            i <= b.len(),
            bytes_le(a@, b@) == bytes_le(a@.skip(i as int), b@.skip(i as int)),
        decreases a.len() - i,
    {
        if a[i] != b[i] {
            return a[i] < b[i];
        }
        proof {
            assert(a@.skip(i as int).skip(1) =~= a@.skip(i + 1));
            assert(b@.skip(i as int).skip(1) =~= b@.skip(i + 1));
        }
        i = i + 1;
    }
    i == a.len()
}

proof fn lemma_insert_multiset(s: Seq<Seq<u8>>, p: int, x: Seq<u8>)
    requires
        0 <= p <= s.len(),
    ensures
        s.insert(p, x).to_multiset() == s.to_multiset().insert(x),
{
    broadcast use vstd::seq_lib::group_to_multiset_ensures;
    broadcast use vstd::multiset::group_multiset_axioms;

    let t = s.insert(p, x);
    assert(t.remove(p) =~= s);
    assert(t[p] == x);
    assert(t.to_multiset().count(x) > 0) by {
        assert(t.contains(x));
    }
    assert(t.to_multiset() =~= s.to_multiset().insert(x));
}

/// Puts `name` into the sorted list `res` after every name that is not larger.
fn insert_sorted(res: &mut Vec<Vec<u8>>, name: Vec<u8>)
    requires
        names_sorted(file_names(old(res)@)),
    ensures
        names_sorted(file_names(final(res)@)),
        file_names(final(res)@).to_multiset() == file_names(old(res)@).to_multiset().insert(name@),
{
    let ghost before = file_names(res@);
    let mut p: usize = 0;
    while p < res.len() && bytes_le_exec(&res[p], &name)
        invariant
            p <= res.len(),
            res@ == old(res)@,
            before == file_names(res@),
            forall|k: int| 0 <= k < p ==> bytes_le(#[trigger] before[k], name@),
        decreases res.len() - p,
    {
        p = p + 1;
    }
    let ghost x = name@;
    res.insert(p, name);
    proof {
        let after = file_names(res@);
        assert(after =~= before.insert(p as int, x));
        lemma_insert_multiset(before, p as int, x);
        assert forall|i: int, j: int| 0 <= i < j < after.len() implies bytes_le(
            #[trigger] after[i],
            #[trigger] after[j],
        ) by {
            if j < p {
                assert(after[i] == before[i] && after[j] == before[j]);
            } else if j == p {
                assert(after[i] == before[i]);
            } else if i > p {
                assert(after[i] == before[i - 1] && after[j] == before[j - 1]);
            } else {
                // before[p] is larger than `name`
                assert(after[j] == before[j - 1]);
                lemma_bytes_le_total(before[p as int], x);
                if i < p {
                    assert(after[i] == before[i]);
                    lemma_bytes_le_transitive(before[i], x, before[p as int]);
                }
                if j - 1 > p {
                    lemma_bytes_le_transitive(x, before[p as int], before[j - 1]);
                }
            }
        }
    }
}

/// The tile images among the file names of a folder, in byte-wise order of their names.
pub fn png_tile_files(names: Vec<Vec<u8>>) -> (res: Vec<Vec<u8>>)
    ensures
        names_sorted(file_names(res@)),
        file_names(res@).to_multiset() == png_names(file_names(names@)).to_multiset(),
{
    broadcast use vstd::seq_lib::group_to_multiset_ensures;
    broadcast use vstd::multiset::group_multiset_axioms;

    let ghost all = file_names(names@);
    let mut rest = names;
    let mut res: Vec<Vec<u8>> = Vec::new();
    proof {
        assert(file_names(res@) =~= Seq::<Seq<u8>>::empty());
        assert(Seq::<Seq<u8>>::empty().to_multiset() =~= vstd::multiset::Multiset::empty());
    }
    while rest.len() > 0
        invariant
            names_sorted(file_names(res@)),
            file_names(res@).to_multiset().add(png_names(file_names(rest@)).to_multiset())
                == png_names(all).to_multiset(),
        decreases rest.len(),
    {
        let ghost before_rest = file_names(rest@);
        let ghost before_res = file_names(res@);
        let name = rest.pop().unwrap();
        let ghost x = name@;
        proof {
            assert(before_rest =~= file_names(rest@).push(x));
            let pred = |n: Seq<u8>| is_png_file_name(n);
            file_names(rest@).lemma_filter_push(x, pred);
        }
        if is_png_file(&name) {
            insert_sorted(&mut res, name);
            proof {
                let r = file_names(rest@);
                assert(png_names(before_rest) == png_names(r).push(x));
                png_names(r).to_multiset_ensures();
                assert(png_names(before_rest).to_multiset() =~= png_names(r).to_multiset().insert(
                    x,
                ));
                assert(file_names(res@).to_multiset().add(png_names(r).to_multiset())
                    =~= before_res.to_multiset().add(png_names(before_rest).to_multiset()));
            }
        } else {
            proof {
                assert(png_names(before_rest) == png_names(file_names(rest@)));
            }
        }
    }
    proof {
        assert(file_names(rest@) =~= Seq::<Seq<u8>>::empty());
        assert(png_names(Seq::<Seq<u8>>::empty()) =~= Seq::<Seq<u8>>::empty());
        assert(file_names(res@).to_multiset().add(vstd::multiset::Multiset::empty())
            =~= file_names(res@).to_multiset());
    }
    res
}

// ---------------------------------------------------------------------------
// Tiles from files
// ---------------------------------------------------------------------------

/// std's `String::from_utf8`: the string of the bytes when they are valid UTF-8, and an
/// error otherwise; the string holds the characters that the bytes encode.
#[verifier::external_body]
fn string_from_utf8(bytes: Vec<u8>) -> (res: Option<String>)
    ensures
        res is Some <==> valid_utf8(bytes@),
        res matches Some(s) ==> s@ == decode_utf8(bytes@),
{
    String::from_utf8(bytes).ok()
}

/// The name a tile image is loaded under: its file name without the extension, when that
/// is valid UTF-8, else `tile`.
pub open spec fn tile_name(file: Seq<u8>) -> Seq<char> {
    let stem = file.take(file.len() - 4);
    if valid_utf8(stem) {
        decode_utf8(stem)
    } else {
        "tile"@
    }
}

/// The name of the tile loaded from an image file is its file name without the last four
/// bytes (the extension and its dot), unchanged: its UTF-8 encoding is exactly those
/// bytes. When they are not valid UTF-8 the name is `tile`.
pub proof fn lemma_tile_name_is_stem(file: Seq<u8>)
    requires
        is_png_file_name(file),
    ensures
        valid_utf8(file.take(file.len() - 4)) ==> encode_utf8(tile_name(file)) == file.take(
            file.len() - 4,
        ),
        valid_utf8(file.take(file.len() - 4)) ==> tile_name(file) == decode_utf8(
            file.take(file.len() - 4),
        ),
        !valid_utf8(file.take(file.len() - 4)) ==> tile_name(file) == "tile"@,
{
    let stem = file.take(file.len() - 4);
    if valid_utf8(stem) {
        decode_utf8_encode_utf8(stem);
    }
}

/// The positions of the files that could be read, in order.
pub open spec fn readable_positions(readable: Seq<bool>) -> Seq<nat>
    decreases readable.len(),
{
    if readable.len() == 0 {
        Seq::empty()
    } else if readable.last() {
        readable_positions(readable.drop_last()).push((readable.len() - 1) as nat)
    } else {
        readable_positions(readable.drop_last())
    }
}

/// The positions of the readable files are exactly the readable ones, each once, in
/// increasing order: tile ids follow the files' order and skip the unreadable files.
pub proof fn lemma_readable_positions(readable: Seq<bool>)
    ensures
        forall|k: int|
            0 <= k < readable_positions(readable).len() ==> #[trigger] readable_positions(
                readable,
            )[k] < readable.len() && readable[readable_positions(readable)[k] as int],
        forall|a: int, b: int|
            0 <= a < b < readable_positions(readable).len() ==> #[trigger] readable_positions(
                readable,
            )[a] < #[trigger] readable_positions(readable)[b],
        forall|i: int|
            0 <= i < readable.len() && #[trigger] readable[i] ==> exists|k: int|
                0 <= k < readable_positions(readable).len() && readable_positions(readable)[k]
                    == i,
    decreases readable.len(),
{
    if readable.len() > 0 {
        let init = readable.drop_last();
        lemma_readable_positions(init);
        let prev = readable_positions(init);
        let cur = readable_positions(readable);
        assert forall|i: int| 0 <= i < readable.len() && #[trigger] readable[i] implies exists|k: int|
            0 <= k < cur.len() && cur[k] == i by {
            if i < readable.len() - 1 {
                assert(init[i] == readable[i]);
                let k = choose|k: int| 0 <= k < prev.len() && prev[k] == i;
                assert(cur[k] == prev[k]);
            } else {
                assert(cur[cur.len() - 1] == i);
            }
        }
        assert forall|k: int| 0 <= k < cur.len() implies #[trigger] cur[k] < readable.len()
            && readable[cur[k] as int] by {
            if k < prev.len() {
                assert(cur[k] == prev[k]);
                assert(init[prev[k] as int] == readable[prev[k] as int]);
            }
        }
        assert forall|a: int, b: int| 0 <= a < b < cur.len() implies #[trigger] cur[a] < #[trigger] cur[b] by {
            if b < prev.len() {
                assert(cur[a] == prev[a] && cur[b] == prev[b]);
            } else {
                assert(cur[a] == prev[a]);
            }
        }
    }
}

/// `tile` is the tile loaded from `file` at position `position`: that id, the file's
/// name without extension, not blocking.
pub open spec fn is_tile_of_file(tile: TileInfo, position: nat, file: Seq<u8>) -> bool {
    &&& tile.id == position
    &&& tile.name@ == tile_name(file)
    &&& !tile.collision
}

/// The palette built from the tile images `files` of a folder, in order: one tile for
/// each file that could be read (`readable`), with the file's position as its id and
/// its name without extension as its name, not blocking.
pub fn tiles_from_files(files: &Vec<Vec<u8>>, readable: &Vec<bool>) -> (res: Vec<TileInfo>)
    requires
        files.len() == readable.len(),
        forall|i: int| 0 <= i < files.len() ==> is_png_file_name(#[trigger] files@[i]@),
    ensures
        res.len() == readable_positions(readable@).len(),
        forall|k: int|
            0 <= k < res.len() ==> is_tile_of_file(
                #[trigger] res@[k],
                readable_positions(readable@)[k],
                files@[readable_positions(readable@)[k] as int]@,
            ),
{
    let mut res: Vec<TileInfo> = Vec::new();
    let mut i: usize = 0;
    while i < files.len()
        invariant
            i <= files.len(),
            files.len() == readable.len(),
            forall|j: int| 0 <= j < files.len() ==> is_png_file_name(#[trigger] files@[j]@),
            res.len() == readable_positions(readable@.take(i as int)).len(),
            forall|k: int|
                0 <= k < res.len() ==> is_tile_of_file(
                    #[trigger] res@[k],
                    readable_positions(readable@.take(i as int))[k],
                    files@[readable_positions(readable@.take(i as int))[k] as int]@,
                ),
        decreases files.len() - i,
    {
        let ghost prev = readable@.take(i as int);
        let ghost next = readable@.take(i + 1);
        assert(next.drop_last() =~= prev);
        if readable[i] {
            let file = &files[i];
            assert(is_png_file_name(files@[i as int]@));
            let stem_len = file.len() - 4;
            let mut stem: Vec<u8> = Vec::new();
            let mut j: usize = 0;
            while j < stem_len
                invariant
                    j <= stem_len,
                    stem_len == file.len() - 4,
                    stem@ == file@.take(j as int),
                decreases stem_len - j,
            {
                stem.push(file[j]);
                j = j + 1;
                assert(stem@ =~= file@.take(j as int));
            }
            let name = match string_from_utf8(stem) {
                Some(s) => s,
                None => {
                    let mut s = String::new();
                    s.append("tile");
                    assert(s@ =~= "tile"@);
                    s
                },
            };
            assert(name@ == tile_name(files@[i as int]@));
            let ghost before = res@;
            res.push(TileInfo { id: i, name, collision: false });
            proof {
                assert(next.last() == readable@[i as int]);
                assert(readable_positions(next) == readable_positions(prev).push(i as nat));
                assert forall|k: int| 0 <= k < res.len() implies is_tile_of_file(
                    #[trigger] res@[k],
                    readable_positions(next)[k],
                    files@[readable_positions(next)[k] as int]@,
                ) by {
                    if k < before.len() {
                        assert(res@[k] == before[k]);
                    }
                }
            }
        } else {
            proof {
                assert(next.last() == readable@[i as int]);
                assert(readable_positions(next) == readable_positions(prev));
            }
        }
        i = i + 1;
    }
    let ghost positions = readable_positions(readable@);
    assert(readable@.take(files.len() as int) =~= readable@);
    assert(readable_positions(readable@.take(i as int)) == positions);
    res
}

// ---------------------------------------------------------------------------
// The tileset file
// ---------------------------------------------------------------------------

/// The text `true` or `false`.
pub open spec fn bool_text(b: bool) -> Seq<char> {
    if b {
        "true"@
    } else {
        "false"@
    }
}

/// The tileset file: one line per tile, its id, name and whether it blocks, separated by spaces.
pub open spec fn tileset_text(tiles: Seq<TileInfo>) -> Seq<char>
    decreases tiles.len(),
{
    if tiles.len() == 0 {
        Seq::empty()
    } else {
        let t = tiles.last();
        tileset_text(tiles.drop_last()) + dec_nat(t.id as nat) + seq![' '] + t.name@ + seq![' ']
            + bool_text(t.collision) + seq!['\n']
    }
}

/// The tileset file of a palette.
pub fn tileset_file_text(tiles: &Vec<TileInfo>) -> (text: String)
    ensures
        text@ == tileset_text(tiles@),
{
    let mut text = String::new();
    let mut i: usize = 0;
    while i < tiles.len()
        invariant
            i <= tiles.len(),
            text@ == tileset_text(tiles@.take(i as int)),
        decreases tiles.len() - i,
    {
        let tile = &tiles[i];
        push_decimal(&mut text, tile.id as u64);
        push_char(&mut text, ' ');
        text.append(tile.name.as_str());
        push_char(&mut text, ' ');
        if tile.collision {
            text.append("true");
        } else {
            text.append("false");
        }
        push_char(&mut text, '\n');
        proof {
            assert(tiles@.take(i + 1).drop_last() =~= tiles@.take(i as int));
            assert(text@ =~= tileset_text(tiles@.take(i + 1)));
        }
        i = i + 1;
    }
    assert(tiles@.take(tiles.len() as int) =~= tiles@);
    text
}

/// The line of one tile in the tileset file: the digits of its id, a space, its name, a
/// space, and `true` or `false` for whether it blocks.
pub open spec fn tileset_line_ok(line: Seq<char>, tile: TileInfo) -> bool {
    exists|digits: Seq<char>|
        #![trigger all_digits(digits)]
        {
            &&& digits.len() > 0
            &&& all_digits(digits)
            &&& digits_value(digits) == tile.id
            &&& line == digits + seq![' '] + tile.name@ + seq![' '] + bool_text(tile.collision) + seq![
                '\n',
            ]
        }
}

/// The tileset file is one line per tile, in palette order: the text for the first `k + 1`
/// tiles is the text for the first `k` followed by the line of tile `k`, which starts
/// with the decimal digits of the tile's full id (reading back as that id), then its
/// name and its blocking flag. The text for all tiles is the text of the whole palette.
pub proof fn lemma_tileset_lines(tiles: Seq<TileInfo>, k: int)
    requires
        0 <= k < tiles.len(),
    ensures
        tileset_text(tiles.take(k + 1)).len() > tileset_text(tiles.take(k)).len(),
        tileset_text(tiles.take(k + 1)).take(tileset_text(tiles.take(k)).len() as int)
            == tileset_text(tiles.take(k)),
        tileset_line_ok(
            tileset_text(tiles.take(k + 1)).skip(tileset_text(tiles.take(k)).len() as int),
            tiles[k],
        ),
        tileset_text(tiles.take(tiles.len() as int)) == tileset_text(tiles),
{
    let t = tiles[k];
    let prev = tileset_text(tiles.take(k));
    let next = tileset_text(tiles.take(k + 1));
    assert(tiles.take(k + 1).drop_last() =~= tiles.take(k));
    assert(tiles.take(k + 1).last() == t);
    let digits = dec_nat(t.id as nat);
    lemma_dec_nat_digits(t.id as nat);
    let line = digits + seq![' '] + t.name@ + seq![' '] + bool_text(t.collision) + seq!['\n'];
    assert(next == prev + line);
    assert(next.take(prev.len() as int) =~= prev);
    assert(next.skip(prev.len() as int) =~= line);
    assert(tileset_line_ok(line, t));
    assert(tiles.take(tiles.len() as int) =~= tiles);
}

} // verus!
