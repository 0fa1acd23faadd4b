//! The map file: one line of text per row of the grid, the tile ids of the row in
//! decimal, separated by single spaces.
use vstd::prelude::*;

use crate::grid::{idx, lemma_idx_bounds};
use crate::text::{
    dec_int, is_digit, is_white, is_white_char, lemma_parse_dec, parse_i32, parse_i32_word,
    push_char, push_signed_decimal,
};

verus! {

// ---------------------------------------------------------------------------
// Writing
// ---------------------------------------------------------------------------

/// The first `k` tiles of row `y`, in decimal, separated by single spaces.
pub open spec fn row_text(tiles: Seq<i32>, w: int, y: int, k: int) -> Seq<char>
    decreases k,
{
    if k <= 0 {
        Seq::empty()
    } else if k == 1 {
        dec_int(tiles[idx(w, 0, y) as int] as int)
    } else {
        row_text(tiles, w, y, k - 1) + seq![' '] + dec_int(tiles[idx(w, k - 1, y)] as int)
    }
}

/// The text of the first `h` rows of a grid `w` tiles wide: each row followed by a line break.
pub open spec fn map_text(tiles: Seq<i32>, w: int, h: int) -> Seq<char>
    decreases h,
{
    if h <= 0 {
        Seq::empty()
    } else {
        map_text(tiles, w, h - 1) + row_text(tiles, w, h - 1, w) + seq!['\n']
    }
}

/// The map file of a `width` x `height` grid stored row by row in `tiles`.
pub fn map_file_text(tiles: &Vec<i32>, width: usize, height: usize) -> (text: String)
    requires
        width * height <= tiles.len(),
    ensures
        text@ == map_text(tiles@, width as int, height as int),
{
    let mut text = String::new();
    let mut y: usize = 0;
    while y < height
        invariant
            y <= height,
            width * height <= tiles.len(),
            text@ == map_text(tiles@, width as int, y as int),
        decreases height - y,
    {
        let ghost before_row = text@;
        let mut x: usize = 0;
        while x < width
            invariant
                x <= width,
                y < height,
                width * height <= tiles.len(),
                text@ == before_row + row_text(tiles@, width as int, y as int, x as int),
            decreases width - x,
        {
            proof {
                lemma_idx_bounds(width as int, height as int, x as int, y as int);
            }
            if x > 0 {
                push_char(&mut text, ' ');
            }
            push_signed_decimal(&mut text, tiles[y * width + x] as i64);
            proof {
                let t = tiles@;
                let w = width as int;
                if x == 0 {
                    assert(row_text(t, w, y as int, 0) =~= Seq::<char>::empty());
                    assert(text@ =~= before_row + row_text(t, w, y as int, 1));
                } else {
                    assert(text@ =~= before_row + row_text(t, w, y as int, x + 1));
                }
            }
            x = x + 1;
        }
        push_char(&mut text, '\n');
        assert(text@ =~= map_text(tiles@, width as int, y + 1));
        y = y + 1;
    }
    text
}

// ---------------------------------------------------------------------------
// Reading
// ---------------------------------------------------------------------------

/// A line break.
pub open spec fn is_line_break(c: char) -> bool {
    c == '\n'
}

/// `s` cut at every separator: the pieces between separators, empty ones included
/// (always at least one piece).
pub open spec fn split_by(s: Seq<char>, is_sep: spec_fn(char) -> bool) -> Seq<Seq<char>>
    decreases s.len(),
{
    if s.len() == 0 {
        seq![Seq::empty()]
    } else {
        let init = split_by(s.drop_last(), is_sep);
        if is_sep(s.last()) {
            init.push(Seq::empty())
        } else {
            init.update(init.len() - 1, init.last().push(s.last()))
        }
    }
}

/// The lines of a text.
pub open spec fn lines_of(s: Seq<char>) -> Seq<Seq<char>> {
    split_by(s, |c: char| is_line_break(c))
}

/// The pieces of a line between white space.
pub open spec fn words_of(s: Seq<char>) -> Seq<Seq<char>> {
    split_by(s, |c: char| is_white(c))
}

/// The integers among `words`, in order; a word that is no `i32` is passed over.
pub open spec fn parsed_values(words: Seq<Seq<char>>) -> Seq<i32>
    decreases words.len(),
{
    if words.len() == 0 {
        Seq::empty()
    } else {
        let init = parsed_values(words.drop_last());
        match parse_i32(words.last()) {
            Some(v) => init.push(v),
            None => init,
        }
    }
}

/// The tile ids written on a line.
pub open spec fn line_values(line: Seq<char>) -> Seq<i32> {
    parsed_values(words_of(line))
}

/// The rows of a map file: the tile ids of each line that has any, in order.
pub open spec fn map_rows(lines: Seq<Seq<char>>) -> Seq<Seq<i32>>
    decreases lines.len(),
{
    if lines.len() == 0 {
        Seq::empty()
    } else {
        let init = map_rows(lines.drop_last());
        let v = line_values(lines.last());
        if v.len() > 0 {
            init.push(v)
        } else {
            init
        }
    }
}

/// The rows one after another.
pub open spec fn flatten(rows: Seq<Seq<i32>>) -> Seq<i32>
    decreases rows.len(),
{
    if rows.len() == 0 {
        Seq::empty()
    } else {
        flatten(rows.drop_last()) + rows.last()
    }
}

/// What a map file holds: `None` when no line holds a tile id; else the width (the
/// number of ids on the last line that has any), the height (the number of lines that
/// have any) and all ids, line after line.
pub open spec fn parse_map(text: Seq<char>) -> Option<(int, int, Seq<i32>)> {
    let rows = map_rows(lines_of(text));
    if rows.len() > 0 {
        Some((rows.last().len() as int, rows.len() as int, flatten(rows)))
    } else {
        None
    }
}

proof fn lemma_split_push(s: Seq<char>, c: char, is_sep: spec_fn(char) -> bool)
    ensures
        split_by(s.push(c), is_sep) == (if is_sep(c) {
            split_by(s, is_sep).push(Seq::empty())
        } else {
            split_by(s, is_sep).update(
                split_by(s, is_sep).len() - 1,
                split_by(s, is_sep).last().push(c),
            )
        }),
{
    assert(s.push(c).drop_last() =~= s);
}

proof fn lemma_split_nonempty(s: Seq<char>, is_sep: spec_fn(char) -> bool)
    ensures
        split_by(s, is_sep).len() >= 1,
    decreases s.len(),
{
    if s.len() > 0 {
        lemma_split_nonempty(s.drop_last(), is_sep);
    }
}

/// The reading state after a prefix of the text: the rows of the finished lines, the
/// ids of the finished words of the current line, and the current word.
spec fn scan_state(prefix: Seq<char>) -> (Seq<Seq<i32>>, Seq<i32>, Seq<char>) {
    let lines = lines_of(prefix);
    let words = words_of(lines.last());
    (map_rows(lines.drop_last()), parsed_values(words.drop_last()), words.last())
}

/// Reading a map file. `None` when no line holds a tile id; else the width (the number
/// of ids on the last line that has any), the height (the number of lines that have
/// any), and all ids line after line.
pub fn parse_map_text(text: &str) -> (res: Option<(usize, usize, Vec<i32>)>)
    ensures
        match parse_map(text@) {
            None => res is None,
            Some((w, h, t)) => res matches Some((rw, rh, rt)) && rw == w && rh == h && rt@ == t,
        },
{
    let mut tiles: Vec<i32> = Vec::new();
    let mut rows: usize = 0;
    let mut cols: usize = 0;
    let mut row: Vec<i32> = Vec::new();
    let mut word: Vec<char> = Vec::new();
    proof {
        assert(text@.take(0) =~= Seq::<char>::empty());
        assert(lines_of(Seq::<char>::empty()).drop_last() =~= Seq::<Seq<char>>::empty());
        assert(words_of(Seq::<char>::empty()).drop_last() =~= Seq::<Seq<char>>::empty());
    }
    for c in it: text.chars()
        invariant
            it.seq() == text@,
            scan_state(text@.take(it.index() as int)) == (
                map_rows(lines_of(text@.take(it.index() as int)).drop_last()),
                row@,
                word@,
            ),
            tiles@ == flatten(map_rows(lines_of(text@.take(it.index() as int)).drop_last())),
            rows == map_rows(lines_of(text@.take(it.index() as int)).drop_last()).len(),
            rows > 0 ==> cols == map_rows(lines_of(text@.take(it.index() as int)).drop_last()).last().len(),
            rows <= tiles@.len(),
            rows > 0 ==> cols > 0,
    {
        let ghost i = it.index() as int;
        let ghost prefix = text@.take(i);
        let ghost next = text@.take(i + 1);
        assert(next =~= prefix.push(c));
        let ghost lines = lines_of(prefix);
        let ghost words = words_of(lines.last());
        proof {
            lemma_split_nonempty(prefix, |ch: char| is_line_break(ch));
            lemma_split_nonempty(lines.last(), |ch: char| is_white(ch));
            lemma_split_push(prefix, c, |ch: char| is_line_break(ch));
        }
        if c == '\n' {
            if let Some(v) = parse_i32_word(&word) {
                row.push(v);
            }
            proof {
                assert(words.drop_last().push(words.last()) =~= words);
                assert(row@ == parsed_values(words));
                assert(lines_of(next).drop_last() =~= lines);
                assert(lines.drop_last().push(lines.last()) =~= lines);
            }
            if row.len() > 0 {
                let ghost r_before = map_rows(lines.drop_last());
                let ghost added = row@;
                cols = row.len();
                tiles.append(&mut row);
                let _total = tiles.len();
                rows = rows + 1;
                proof {
                    assert(map_rows(lines) == r_before.push(added));
                    assert(r_before.push(added).drop_last() =~= r_before);
                }
            }
            row = Vec::new();
            word = Vec::new();
            proof {
                let nl = lines_of(next);
                assert(nl.last() =~= Seq::<char>::empty());
                assert(words_of(Seq::<char>::empty()).drop_last() =~= Seq::<Seq<char>>::empty());
            }
        } else if is_white_char(c) {
            if let Some(v) = parse_i32_word(&word) {
                row.push(v);
            }
            word = Vec::new();
            proof {
                let nl = lines_of(next);
                assert(nl.drop_last() =~= lines.drop_last());
                assert(nl.last() =~= lines.last().push(c));
                lemma_split_push(lines.last(), c, |ch: char| is_white(ch));
                let nw = words_of(nl.last());
                assert(nw =~= words.push(Seq::empty()));
                assert(nw.drop_last() =~= words);
                assert(words.drop_last().push(words.last()) =~= words);
            }
        } else {
            word.push(c);
            proof {
                let nl = lines_of(next);
                assert(nl.drop_last() =~= lines.drop_last());
                assert(nl.last() =~= lines.last().push(c));
                lemma_split_push(lines.last(), c, |ch: char| is_white(ch));
                let nw = words_of(nl.last());
                assert(nw.drop_last() =~= words.drop_last());
                assert(nw.last() =~= words.last().push(c));
            }
        }
    }
    // the text ends the last line
    let ghost all_lines = lines_of(text@);
    let ghost words = words_of(all_lines.last());
    proof {
        assert(text@.take(text@.len() as int) =~= text@);
        lemma_split_nonempty(text@, |ch: char| is_line_break(ch));
        lemma_split_nonempty(all_lines.last(), |ch: char| is_white(ch));
    }
    if let Some(v) = parse_i32_word(&word) {
        row.push(v);
    }
    let ghost r_before = map_rows(all_lines.drop_last());
    proof {
        assert(words.drop_last().push(words.last()) =~= words);
        assert(all_lines.drop_last().push(all_lines.last()) =~= all_lines);
        assert(row@ == line_values(all_lines.last()));
    }
    if row.len() > 0 {
        let ghost added = row@;
        cols = row.len();
        tiles.append(&mut row);
        let _total = tiles.len();
        rows = rows + 1;
        proof {
            assert(map_rows(all_lines) == r_before.push(added));
            assert(r_before.push(added).drop_last() =~= r_before);
        }
    } else {
        assert(map_rows(all_lines) == r_before);
    }
    if rows > 0 && cols > 0 {
        Some((cols, rows, tiles))
    } else {
        None
    }
}

// ---------------------------------------------------------------------------
// Writing, then reading
// ---------------------------------------------------------------------------

/// Splitting `s + t`, where `t` holds no separator, extends the last piece of `s` by `t`.
proof fn lemma_split_append_plain(s: Seq<char>, t: Seq<char>, is_sep: spec_fn(char) -> bool)
    requires
        forall|i: int| 0 <= i < t.len() ==> !is_sep(#[trigger] t[i]),
    ensures
        split_by(s + t, is_sep) == split_by(s, is_sep).update(
            split_by(s, is_sep).len() - 1,
            split_by(s, is_sep).last() + t,
        ),
    decreases t.len(),
{
    lemma_split_nonempty(s, is_sep);
    if t.len() == 0 {
        assert(s + t =~= s);
        assert(split_by(s, is_sep).last() + t =~= split_by(s, is_sep).last());
        assert(split_by(s, is_sep).update(split_by(s, is_sep).len() - 1, split_by(s, is_sep).last())
            =~= split_by(s, is_sep));
    } else {
        let t0 = t.drop_last();
        assert forall|i: int| 0 <= i < t0.len() implies !is_sep(#[trigger] t0[i]) by {
            assert(t0[i] == t[i]);
        }
        lemma_split_append_plain(s, t0, is_sep);
        assert(s + t =~= (s + t0).push(t.last()));
        lemma_split_push(s + t0, t.last(), is_sep);
        assert(!is_sep(t.last()));
        assert((split_by(s, is_sep).last() + t0).push(t.last()) =~= split_by(s, is_sep).last() + t);
        assert(split_by(s + t, is_sep) =~= split_by(s, is_sep).update(
            split_by(s, is_sep).len() - 1,
            split_by(s, is_sep).last() + t,
        ));
    }
}

/// The decimal notation of an `i32` reads back as it, and holds no white space or line break.
proof fn lemma_dec_word(v: i32)
    ensures
        parse_i32(dec_int(v as int)) == Some(v),
        forall|i: int|
            0 <= i < dec_int(v as int).len() ==> !is_white(#[trigger] dec_int(v as int)[i])
                && !is_line_break(dec_int(v as int)[i]),
{
    lemma_parse_dec(v);
    assert forall|i: int| 0 <= i < dec_int(v as int).len() implies !is_white(
        #[trigger] dec_int(v as int)[i],
    ) && !is_line_break(dec_int(v as int)[i]) by {
        assert(is_digit(dec_int(v as int)[i]) || dec_int(v as int)[i] == '-');
    }
}

/// The tiles of row `y`.
pub open spec fn grid_row(tiles: Seq<i32>, w: int, y: int) -> Seq<i32> {
    Seq::new(w as nat, |x: int| tiles[idx(w, x, y)])
}

/// The words of a row's text are the decimal notations of its tiles.
proof fn lemma_row_words(tiles: Seq<i32>, w: int, y: int, k: int)
    requires
        1 <= k <= w,
    ensures
        words_of(row_text(tiles, w, y, k)) == Seq::new(
            k as nat,
            |x: int| dec_int(tiles[idx(w, x, y)] as int),
        ),
    decreases k,
{
    let ws = |c: char| is_white(c);
    let target = Seq::new(k as nat, |x: int| dec_int(tiles[idx(w, x, y)] as int));
    let last = dec_int(tiles[idx(w, k - 1, y)] as int);
    lemma_dec_word(tiles[idx(w, k - 1, y)]);
    if k == 1 {
        lemma_split_append_plain(Seq::empty(), last, ws);
        assert(Seq::<char>::empty() + last =~= last);
        assert(words_of(row_text(tiles, w, y, 1)) =~= target);
    } else {
        lemma_row_words(tiles, w, y, k - 1);
        let prev = row_text(tiles, w, y, k - 1);
        lemma_split_push(prev, ' ', ws);
        assert(prev + seq![' '] =~= prev.push(' '));
        lemma_split_append_plain(prev.push(' '), last, ws);
        assert(Seq::<char>::empty() + last =~= last);
        assert(words_of(row_text(tiles, w, y, k)) =~= target);
    }
}

/// Reading the words of a row gives back its tiles.
proof fn lemma_parsed_decimals(tiles: Seq<i32>, w: int, y: int, k: int)
    requires
        0 <= k <= w,
    ensures
        parsed_values(Seq::new(k as nat, |x: int| dec_int(tiles[idx(w, x, y)] as int))) == Seq::new(
            k as nat,
            |x: int| tiles[idx(w, x, y)],
        ),
    decreases k,
{
    let words = Seq::new(k as nat, |x: int| dec_int(tiles[idx(w, x, y)] as int));
    if k == 0 {
        assert(parsed_values(words) =~= Seq::<i32>::empty());
        assert(Seq::new(k as nat, |x: int| tiles[idx(w, x, y)]) =~= Seq::<i32>::empty());
    } else {
        lemma_parsed_decimals(tiles, w, y, k - 1);
        assert(words.drop_last() =~= Seq::new(
            (k - 1) as nat,
            |x: int| dec_int(tiles[idx(w, x, y)] as int),
        ));
        lemma_dec_word(tiles[idx(w, k - 1, y)]);
        assert(parsed_values(words) =~= Seq::new(k as nat, |x: int| tiles[idx(w, x, y)]));
    }
}

/// The texts of the rows below `h`.
spec fn row_texts(tiles: Seq<i32>, w: int, h: int) -> Seq<Seq<char>> {
    Seq::new(h as nat, |y: int| row_text(tiles, w, y, w))
}

proof fn lemma_map_lines(tiles: Seq<i32>, w: int, h: int)
    requires
        w >= 1,
        h >= 0,
    ensures
        lines_of(map_text(tiles, w, h)) == row_texts(tiles, w, h).push(Seq::empty()),
    decreases h,
{
    let nl = |c: char| is_line_break(c);
    if h == 0 {
        assert(lines_of(map_text(tiles, w, 0)) =~= row_texts(tiles, w, 0).push(Seq::empty()));
    } else {
        lemma_map_lines(tiles, w, h - 1);
        let prev = map_text(tiles, w, h - 1);
        let rt = row_text(tiles, w, h - 1, w);
        let before = row_texts(tiles, w, h - 1).push(Seq::empty());
        assert(lines_of(prev) == before);
        assert forall|i: int| 0 <= i < rt.len() implies !nl(#[trigger] rt[i]) by {
            lemma_row_text_plain(tiles, w, h - 1, w, i);
        }
        lemma_split_append_plain(prev, rt, nl);
        assert(Seq::<char>::empty() + rt =~= rt);
        let mid = before.update(before.len() - 1, rt);
        assert(split_by(prev + rt, nl) == mid);
        assert(mid =~= row_texts(tiles, w, h));
        lemma_split_push(prev + rt, '\n', nl);
        assert(prev + rt + seq!['\n'] =~= (prev + rt).push('\n'));
        assert(split_by((prev + rt).push('\n'), nl) == mid.push(Seq::empty()));
    }
}

/// A row's text holds no line break.
proof fn lemma_row_text_plain(tiles: Seq<i32>, w: int, y: int, k: int, i: int)
    requires
        0 <= i < row_text(tiles, w, y, k).len(),
    ensures
        !is_line_break(row_text(tiles, w, y, k)[i]),
    decreases k,
{
    if k == 1 {
        lemma_dec_word(tiles[idx(w, 0, y)]);
    } else if k > 1 {
        let prev = row_text(tiles, w, y, k - 1);
        let last = dec_int(tiles[idx(w, k - 1, y)] as int);
        lemma_dec_word(tiles[idx(w, k - 1, y)]);
        let t = row_text(tiles, w, y, k);
        assert(t == prev + seq![' '] + last);
        if i < prev.len() {
            assert(t[i] == prev[i]);
            lemma_row_text_plain(tiles, w, y, k - 1, i);
        } else if i == prev.len() {
            assert(t[i] == ' ');
        } else {
            assert(t[i] == last[i - prev.len() - 1]);
        }
    }
}

proof fn lemma_rows_of_row_texts(tiles: Seq<i32>, w: int, h: int)
    requires
        w >= 1,
        h >= 0,
    ensures
        map_rows(row_texts(tiles, w, h)) == Seq::new(h as nat, |y: int| grid_row(tiles, w, y)),
    decreases h,
{
    if h == 0 {
        assert(map_rows(row_texts(tiles, w, 0)) =~= Seq::<Seq<i32>>::empty());
        assert(Seq::new(0, |y: int| grid_row(tiles, w, y)) =~= Seq::<Seq<i32>>::empty());
    } else {
        lemma_rows_of_row_texts(tiles, w, h - 1);
        assert(row_texts(tiles, w, h).drop_last() =~= row_texts(tiles, w, h - 1));
        lemma_row_words(tiles, w, h - 1, w);
        lemma_parsed_decimals(tiles, w, h - 1, w);
        assert(Seq::new(w as nat, |x: int| tiles[idx(w, x, h - 1)]) =~= grid_row(tiles, w, h - 1));
        assert(line_values(row_texts(tiles, w, h).last()) == grid_row(tiles, w, h - 1));
        assert(map_rows(row_texts(tiles, w, h)) =~= Seq::new(
            h as nat,
            |y: int| grid_row(tiles, w, y),
        ));
    }
}

proof fn lemma_flatten_rows(tiles: Seq<i32>, w: int, h: int)
    requires
        w >= 1,
        h >= 0,
        w * h <= tiles.len(),
    ensures
        flatten(Seq::new(h as nat, |y: int| grid_row(tiles, w, y))) == tiles.take(w * h),
    decreases h,
{
    let rows = Seq::new(h as nat, |y: int| grid_row(tiles, w, y));
    if h == 0 {
        assert(w * h == 0) by (nonlinear_arith)
            requires
                h == 0,
        ;
        assert(tiles.take(0) =~= Seq::<i32>::empty());
        assert(rows =~= Seq::<Seq<i32>>::empty());
    } else {
        assert(w * (h - 1) + w == w * h) by (nonlinear_arith);
        assert(0 <= w * (h - 1)) by (nonlinear_arith)
            requires
                w >= 1,
                h >= 1,
        ;
        lemma_flatten_rows(tiles, w, h - 1);
        assert(rows.drop_last() =~= Seq::new((h - 1) as nat, |y: int| grid_row(tiles, w, y)));
        let base = w * (h - 1);
        let f0 = flatten(rows.drop_last());
        assert(f0 == tiles.take(base));
        assert(flatten(rows) == f0 + rows.last());
        assert(rows.last() == grid_row(tiles, w, h - 1));
        assert(flatten(rows).len() == w * h);
        assert forall|i: int| 0 <= i < w * h implies #[trigger] flatten(rows)[i] == tiles[i] by {
            if i < base {
                assert(flatten(rows)[i] == f0[i]);
            } else {
                assert(flatten(rows)[i] == rows.last()[i - base]);
                assert(idx(w, i - base, h - 1) == i) by (nonlinear_arith)
                    requires
                        base == w * (h - 1),
                ;
            }
        }
        assert(flatten(rows) =~= tiles.take(w * h));
    }
}

/// Saving a map and reading the file back gives the same width, height and tiles:
/// reading `map_text` of a grid at least one tile wide and one row high yields that grid.
pub proof fn lemma_map_file_round_trip(tiles: Seq<i32>, w: int, h: int)
    requires
        w >= 1,
        h >= 1,
        w * h <= tiles.len(),
    ensures
        parse_map(map_text(tiles, w, h)) == Some((w, h, tiles.take(w * h))),
{
    lemma_map_lines(tiles, w, h);
    let lines = row_texts(tiles, w, h).push(Seq::empty());
    assert(lines.drop_last() =~= row_texts(tiles, w, h));
    assert(words_of(Seq::<char>::empty()) =~= seq![Seq::<char>::empty()]);
    assert(seq![Seq::<char>::empty()].drop_last() =~= Seq::<Seq<char>>::empty());
    assert(parse_i32(Seq::<char>::empty()) is None);
    assert(parsed_values(Seq::<Seq<char>>::empty()) =~= Seq::<i32>::empty());
    assert(line_values(Seq::<char>::empty()) =~= Seq::<i32>::empty());
    lemma_rows_of_row_texts(tiles, w, h);
    lemma_flatten_rows(tiles, w, h);
    let rows = Seq::new(h as nat, |y: int| grid_row(tiles, w, y));
    assert(map_rows(lines) == rows);
    assert(rows.last().len() == w);
}

proof fn lemma_flatten_uniform(rows: Seq<Seq<i32>>, w: int)
    requires
        forall|i: int| 0 <= i < rows.len() ==> (#[trigger] rows[i]).len() == w,
    ensures
        flatten(rows).len() == rows.len() * w,
    decreases rows.len(),
{
    if rows.len() > 0 {
        let init = rows.drop_last();
        assert forall|i: int| 0 <= i < init.len() implies (#[trigger] init[i]).len() == w by {
            assert(init[i] == rows[i]);
        }
        lemma_flatten_uniform(init, w);
        assert(rows.len() * w == init.len() * w + w) by (nonlinear_arith)
            requires
                rows.len() == init.len() + 1,
        ;
    }
}

/// A map file whose lines with tile ids all hold the same number of them reads as a
/// complete grid: exactly width times height tiles.
pub proof fn lemma_uniform_file_fills_grid(text: Seq<char>)
    requires
        parse_map(text) is Some,
        forall|i: int|
            0 <= i < map_rows(lines_of(text)).len() ==> (#[trigger] map_rows(lines_of(text))[i]).len()
                == map_rows(lines_of(text)).last().len(),
    ensures
        match parse_map(text) {
            Some((w, h, t)) => t.len() == w * h,
            None => false,
        },
{
    let rows = map_rows(lines_of(text));
    lemma_flatten_uniform(rows, rows.last().len() as int);
    assert(rows.len() * rows.last().len() == rows.last().len() * rows.len()) by (nonlinear_arith);
}

} // verus!
