//! The pixel artwork of the logo: a sixteen-by-sixteen emblem and a five-by-seven
//! lettered wordmark, as lists of lit pixels on a grid.

use vstd::prelude::*;
use crate::text::chars_of;

verus! {

/// The emblem, one string per row: `C` is a cyan pixel, `M` a magenta one, `.` is empty.
pub open spec fn emblem_spec() -> Seq<Seq<char>> {
    seq![
        "...CCCCCCCC....."@,
        "..CC......CC...."@,
        ".CC........CC..."@,
        ".C...CCCC...C..."@,
        ".C..CC......C..."@,
        ".C..C.......C..."@,
        ".C..C..CCC..C..."@,
        ".C..C....C..C..."@,
        ".C..CC..CC..C..."@,
        ".C...CCCC...C..."@,
        ".CC........CC..."@,
        "..CC......CC.M.."@,
        "...CCCCCCCC.M..."@,
        "...........M..M."@,
        "..........M..M.."@,
        "............M..."@,
    ]
}

/// The rows of the emblem, top to bottom.
pub fn emblem() -> (rows: Vec<&'static str>)
    ensures
        rows@.len() == emblem_spec().len(),
        forall|y: int| 0 <= y < rows@.len() ==> (#[trigger] rows@[y])@ == emblem_spec()[y],
{
    let rows = vec![
        "...CCCCCCCC.....",
        "..CC......CC....",
        ".CC........CC...",
        ".C...CCCC...C...",
        ".C..CC......C...",
        ".C..C.......C...",
        ".C..C..CCC..C...",
        ".C..C....C..C...",
        ".C..CC..CC..C...",
        ".C...CCCC...C...",
        ".CC........CC...",
        "..CC......CC.M..",
        "...CCCCCCCC.M...",
        "...........M..M.",
        "..........M..M..",
        "............M...",
    ];
    rows
}

/// Every row of the emblem has sixteen pixels, each empty, cyan or magenta.
pub proof fn lemma_emblem_shape()
    ensures
        emblem_spec().len() == 16,
        forall|y: int, x: int| 0 <= y < 16 && 0 <= x < emblem_spec()[y].len() ==> {
            let c = #[trigger] emblem_spec()[y][x];
            c == '.' || c == 'C' || c == 'M'
        },
        forall|y: int| 0 <= y < 16 ==> (#[trigger] emblem_spec()[y]).len() == 16,
{
    reveal_strlit("...CCCCCCCC.....");
    reveal_strlit("..CC......CC....");
    reveal_strlit(".CC........CC...");
    reveal_strlit(".C...CCCC...C...");
    reveal_strlit(".C..CC......C...");
    reveal_strlit(".C..C.......C...");
    reveal_strlit(".C..C..CCC..C...");
    reveal_strlit(".C..C....C..C...");
    reveal_strlit(".C..CC..CC..C...");
    reveal_strlit(".C...CCCC...C...");
    reveal_strlit(".CC........CC...");
    reveal_strlit("..CC......CC.M..");
    reveal_strlit("...CCCCCCCC.M...");
    reveal_strlit("...........M..M.");
    reveal_strlit("..........M..M..");
    reveal_strlit("............M...");
}

/// The five-by-seven letterform of a character of the wordmark, one byte per row, the
/// leftmost pixel in the fifth bit from the right.
pub open spec fn glyph_spec(c: char) -> Option<Seq<u8>> {
    if c == 'G' { Some(seq![14u8, 17, 16, 23, 17, 17, 14]) }
    else if c == 'L' { Some(seq![16u8, 16, 16, 16, 16, 16, 31]) }
    else if c == 'Y' { Some(seq![17u8, 17, 10, 4, 4, 4, 4]) }
    else if c == 'P' { Some(seq![30u8, 17, 17, 30, 16, 16, 16]) }
    else if c == 'H' { Some(seq![17u8, 17, 17, 31, 17, 17, 17]) }
    else if c == '/' { Some(seq![1u8, 2, 2, 4, 8, 8, 16]) }
    else if c == 'W' { Some(seq![17u8, 17, 17, 21, 21, 21, 10]) }
    else if c == 'I' { Some(seq![31u8, 4, 4, 4, 4, 4, 31]) }
    else if c == 'R' { Some(seq![30u8, 17, 17, 30, 20, 18, 17]) }
    else if c == 'E' { Some(seq![31u8, 16, 16, 30, 16, 16, 31]) }
    else { None }
}

/// The letterform of `c`, for the letters of the wordmark.
pub fn wordmark_glyph(c: char) -> (rows: Option<[u8; 7]>)
    ensures
        match glyph_spec(c) {
            Some(g) => rows matches Some(r) && r@ == g,
            None => rows is None,
        },
        rows matches Some(r) ==> forall|y: int| 0 <= y < 7 ==> #[trigger] r@[y] < 32,
{
    let rows: Option<[u8; 7]> = if c == 'G' { Some([14, 17, 16, 23, 17, 17, 14]) }
    else if c == 'L' { Some([16, 16, 16, 16, 16, 16, 31]) }
    else if c == 'Y' { Some([17, 17, 10, 4, 4, 4, 4]) }
    else if c == 'P' { Some([30, 17, 17, 30, 16, 16, 16]) }
    else if c == 'H' { Some([17, 17, 17, 31, 17, 17, 17]) }
    else if c == '/' { Some([1, 2, 2, 4, 8, 8, 16]) }
    else if c == 'W' { Some([17, 17, 17, 21, 21, 21, 10]) }
    else if c == 'I' { Some([31, 4, 4, 4, 4, 4, 31]) }
    else if c == 'R' { Some([30, 17, 17, 30, 20, 18, 17]) }
    else if c == 'E' { Some([31, 16, 16, 30, 16, 16, 31]) }
    else { None };
    proof {
        if let Some(r) = rows {
            assert(r@ =~= glyph_spec(c).unwrap());
        }
    }
    rows
}

/// The colour of a lit pixel.
#[derive(Clone, Copy, Debug, PartialEq, Eq, Structural)]
pub enum Ink {
    Cyan,
    Magenta,
    Text,
}

/// A lit pixel at column `x`, row `y` of the artwork's grid.
#[derive(Clone, Copy, Debug, PartialEq, Eq, Structural)]
pub struct Pixel {
    pub x: usize,
    pub y: usize,
    pub ink: Ink,
}

/// The pixel drawn for the emblem character `c` at `(x, y)`, if any.
pub open spec fn cell(c: char, x: nat, y: nat) -> Seq<Pixel> {
    if c == 'C' {
        seq![Pixel { x: x as usize, y: y as usize, ink: Ink::Cyan }]
    } else if c == 'M' {
        seq![Pixel { x: x as usize, y: y as usize, ink: Ink::Magenta }]
    } else {
        Seq::empty()
    }
}

/// The lit pixels of `row` (row `y` of the emblem) from column `x` on, left to right.
pub open spec fn row_pixels_from(row: Seq<char>, y: nat, x: nat) -> Seq<Pixel>
    decreases row.len() - x,
{
    if x >= row.len() {
        Seq::empty()
    } else {
        cell(row[x as int], x, y) + row_pixels_from(row, y, x + 1)
    }
}

/// The lit pixels of `rows` from row `y` on, top to bottom.
pub open spec fn grid_pixels_from(rows: Seq<Seq<char>>, y: nat) -> Seq<Pixel>
    decreases rows.len() - y,
{
    if y >= rows.len() {
        Seq::empty()
    } else {
        row_pixels_from(rows[y as int], y, 0) + grid_pixels_from(rows, y + 1)
    }
}

/// The lit pixels of the emblem, row by row.
pub fn emblem_pixels() -> (pixels: Vec<Pixel>)
    ensures
        pixels@ == grid_pixels_from(emblem_spec(), 0),
{
    let rows = emblem();
    let mut out: Vec<Pixel> = Vec::new();
    let mut y: usize = 0;
    proof { lemma_emblem_shape(); }
    while y < rows.len()
        invariant
            rows@.len() == 16,
            forall|k: int| 0 <= k < rows@.len() ==> (#[trigger] rows@[k])@ == emblem_spec()[k],
            emblem_spec().len() == 16,
            forall|k: int| 0 <= k < 16 ==> (#[trigger] emblem_spec()[k]).len() == 16,
            y <= 16,
            out@ + grid_pixels_from(emblem_spec(), y as nat) == grid_pixels_from(emblem_spec(), 0),
        decreases 16 - y,
    {
        let row = chars_of(rows[y]);
        let ghost row_spec = emblem_spec()[y as int];
        let ghost before = out@;
        let mut x: usize = 0;
        while x < row.len()
            invariant
                row@ == row_spec,
                row_spec.len() == 16,
                y < 16,
                x <= row@.len(),
                out@ + row_pixels_from(row_spec, y as nat, x as nat) == before + row_pixels_from(row_spec, y as nat, 0),
            decreases row@.len() - x,
        {
            let c = row[x];
            let ghost prev = out@;
            if c == 'C' {
                out.push(Pixel { x, y, ink: Ink::Cyan });
            } else if c == 'M' {
                out.push(Pixel { x, y, ink: Ink::Magenta });
            }
            proof {
                assert(out@ =~= prev + cell(c, x as nat, y as nat));
                assert(out@ + row_pixels_from(row_spec, y as nat, (x + 1) as nat)
                    =~= prev + (cell(c, x as nat, y as nat) + row_pixels_from(row_spec, y as nat, (x + 1) as nat)));
            }
            x += 1;
        }
        proof {
            assert(out@ =~= before + row_pixels_from(row_spec, y as nat, 0));
            assert(out@ + grid_pixels_from(emblem_spec(), (y + 1) as nat)
                =~= before + (row_pixels_from(row_spec, y as nat, 0) + grid_pixels_from(emblem_spec(), (y + 1) as nat)));
        }
        y += 1;
    }
    proof {
        assert(out@ =~= out@ + grid_pixels_from(emblem_spec(), 16));
    }
    out
}

/// Whether the letterform row `bits` lights its pixel in column `x` (0 is leftmost).
pub open spec fn lit(bits: u8, x: nat) -> bool {
    (bits >> ((4 - x) as u8)) & 1u8 == 1u8
}

/// A letterform row is read from left to right as a five-digit binary number: the
/// leftmost pixel is the digit worth 16, the rightmost the one worth 1, so the lit pixels
/// of a row spell out the row's value.
pub proof fn lemma_row_pixels_spell_the_row(bits: u8)
    requires
        bits < 32,
    ensures
        (if lit(bits, 0) { 16int } else { 0int }) + (if lit(bits, 1) { 8int } else { 0int })
            + (if lit(bits, 2) { 4int } else { 0int }) + (if lit(bits, 3) { 2int } else { 0int })
            + (if lit(bits, 4) { 1int } else { 0int }) == bits,
{
    assert(lit(bits, 0) == ((bits >> 4u8) & 1u8 == 1u8));
    assert(lit(bits, 1) == ((bits >> 3u8) & 1u8 == 1u8));
    assert(lit(bits, 2) == ((bits >> 2u8) & 1u8 == 1u8));
    assert(lit(bits, 3) == ((bits >> 1u8) & 1u8 == 1u8));
    assert(lit(bits, 4) == ((bits >> 0u8) & 1u8 == 1u8));
    assert(
        (if (bits >> 4u8) & 1u8 == 1u8 { 16u8 } else { 0u8 })
            + (if (bits >> 3u8) & 1u8 == 1u8 { 8u8 } else { 0u8 })
            + (if (bits >> 2u8) & 1u8 == 1u8 { 4u8 } else { 0u8 })
            + (if (bits >> 1u8) & 1u8 == 1u8 { 2u8 } else { 0u8 })
            + (if (bits >> 0u8) & 1u8 == 1u8 { 1u8 } else { 0u8 }) == bits
    ) by (bit_vector)
        requires
            bits < 32u8,
    ;
}

/// The lit pixels of a letterform drawn from grid column `column`, from cell `k` on,
/// where cell `k` is row `k / 5`, column `k % 5`.
pub open spec fn glyph_pixels_from(rows: Seq<u8>, column: nat, ink: Ink, k: nat) -> Seq<Pixel>
    decreases 35 - k,
{
    if k >= 35 {
        Seq::empty()
    } else {
        (if lit(rows[(k / 5) as int], k % 5) {
            seq![Pixel { x: (column + k % 5) as usize, y: (k / 5) as usize, ink }]
        } else {
            Seq::empty()
        }) + glyph_pixels_from(rows, column, ink, k + 1)
    }
}

/// A letterform drawn from grid column `column` lights the pixel in column `column + x`
/// of row `y` exactly when bit `x` from the left of row `y` is set, and lights nothing
/// outside its five-by-seven box.
pub proof fn lemma_glyph_pixels_follow_the_rows(rows: Seq<u8>, column: nat, ink: Ink)
    requires
        rows.len() == 7,
        column <= 1000,
    ensures
        forall|x: nat, y: nat| x < 5 && y < 7 ==> (glyph_pixels_from(rows, column, ink, 0).contains(
            (Pixel { x: (column + x) as usize, y: y as usize, ink }),
        ) <==> #[trigger] lit(rows[y as int], x)),
        forall|p: Pixel| #[trigger] glyph_pixels_from(rows, column, ink, 0).contains(p)
            ==> column <= p.x < column + 5 && p.y < 7 && p.ink == ink,
{
    lemma_glyph_pixels_cells(rows, column, ink, 0);
    assert forall|x: nat, y: nat| x < 5 && y < 7 implies (glyph_pixels_from(rows, column, ink, 0).contains(
        Pixel { x: (column + x) as usize, y: y as usize, ink },
    ) <==> #[trigger] lit(rows[y as int], x)) by {
        let c = (y * 5 + x) as nat;
        assert(c % 5 == x && c / 5 == y) by (nonlinear_arith)
            requires c == y * 5 + x, x < 5;
        if glyph_pixels_from(rows, column, ink, 0).contains(Pixel { x: (column + x) as usize, y: y as usize, ink }) {
            let d = choose|d: nat| d < 35 && #[trigger] lit(rows[(d / 5) as int], d % 5)
                && Pixel { x: (column + x) as usize, y: y as usize, ink }
                    == Pixel { x: (column + d % 5) as usize, y: (d / 5) as usize, ink };
            assert(d % 5 == x && d / 5 == y);
        } else {
            assert(c < 35);
            assert(!lit(rows[(c / 5) as int], c % 5));
        }
    }
}

proof fn lemma_glyph_pixels_cells(rows: Seq<u8>, column: nat, ink: Ink, k: nat)
    requires
        column <= 1000,
    ensures
        forall|p: Pixel| #[trigger] glyph_pixels_from(rows, column, ink, k).contains(p) <==> (exists|d: nat|
            k <= d < 35 && #[trigger] lit(rows[(d / 5) as int], d % 5)
                && p == (Pixel { x: (column + d % 5) as usize, y: (d / 5) as usize, ink })),
        forall|p: Pixel| #[trigger] glyph_pixels_from(rows, column, ink, k).contains(p)
            ==> column <= p.x < column + 5 && p.y < 7 && p.ink == ink,
    decreases 35 - k,
{
    if k < 35 {
        lemma_glyph_pixels_cells(rows, column, ink, k + 1);
        let here = Pixel { x: (column + k % 5) as usize, y: (k / 5) as usize, ink };
        assert forall|p: Pixel| #[trigger] glyph_pixels_from(rows, column, ink, k).contains(p) <==> exists|d: nat|
            k <= d < 35 && #[trigger] lit(rows[(d / 5) as int], d % 5)
                && p == Pixel { x: (column + d % 5) as usize, y: (d / 5) as usize, ink } by {
            let first = if lit(rows[(k / 5) as int], k % 5) { seq![here] } else { Seq::<Pixel>::empty() };
            vstd::seq_lib::lemma_seq_concat_contains_all_elements(first, glyph_pixels_from(rows, column, ink, k + 1), p);
            if p == here && lit(rows[(k / 5) as int], k % 5) {
                assert(seq![here].contains(here)) by { assert(seq![here][0] == here); }
            }
            if glyph_pixels_from(rows, column, ink, k + 1).contains(p) {
                let d = choose|d: nat| k + 1 <= d < 35 && #[trigger] lit(rows[(d / 5) as int], d % 5)
                    && p == Pixel { x: (column + d % 5) as usize, y: (d / 5) as usize, ink };
                assert(k <= d);
            }
        }
        assert forall|p: Pixel| #[trigger] glyph_pixels_from(rows, column, ink, k).contains(p)
            implies column <= p.x < column + 5 && p.y < 7 && p.ink == ink by {
            let first = if lit(rows[(k / 5) as int], k % 5) { seq![here] } else { Seq::<Pixel>::empty() };
            vstd::seq_lib::lemma_seq_concat_contains_all_elements(first, glyph_pixels_from(rows, column, ink, k + 1), p);
            if !glyph_pixels_from(rows, column, ink, k + 1).contains(p) {
                assert(lit(rows[(k / 5) as int], k % 5));
                assert(p == seq![here][0]);
            }
        }
    }
}

/// A letter of the wordmark placed at a grid column.
#[derive(Clone, Copy, Debug, PartialEq, Eq, Structural)]
pub struct PlacedLetter {
    pub letter: char,
    pub ink: Ink,
    pub column: usize,
}

/// The words of the wordmark and their colours.
pub open spec fn words_spec() -> Seq<(Seq<char>, Ink)> {
    seq![("GLYPH"@, Ink::Cyan), ("//"@, Ink::Magenta), ("WIRE"@, Ink::Text)]
}

/// The letters of `word`, the first at `column` and each six columns after the previous one.
pub open spec fn word_letters(word: Seq<char>, ink: Ink, column: nat) -> Seq<PlacedLetter> {
    Seq::new(word.len(), |j: int| PlacedLetter { letter: letter_at(word, j), ink, column: (column + 6 * j) as usize })
}

pub open spec fn letter_at(word: Seq<char>, j: int) -> char {
    word[j]
}

/// The letters of the words from the `i`th on, starting at `column`; a word is followed by
/// two more empty columns.
pub open spec fn placed_from(words: Seq<(Seq<char>, Ink)>, column: nat, i: nat) -> Seq<PlacedLetter>
    decreases words.len() - i,
{
    if i >= words.len() {
        Seq::empty()
    } else {
        word_letters(words[i as int].0, words[i as int].1, column)
            + placed_from(words, column + 6 * words[i as int].0.len() + 2, i + 1)
    }
}

/// The lit pixels of the placed letters from the `i`th on.
pub open spec fn letters_pixels_from(letters: Seq<PlacedLetter>, i: nat) -> Seq<Pixel>
    decreases letters.len() - i,
{
    if i >= letters.len() {
        Seq::empty()
    } else {
        let l = letters[i as int];
        (match glyph_spec(l.letter) {
            Some(rows) => glyph_pixels_from(rows, l.column as nat, l.ink, 0),
            None => Seq::empty(),
        }) + letters_pixels_from(letters, i + 1)
    }
}

/// Places the letters of the wordmark on the grid.
pub fn wordmark_letters() -> (letters: Vec<PlacedLetter>)
    ensures
        letters@ == placed_from(words_spec(), 0, 0),
{
    let words: Vec<(&'static str, Ink)> = vec![("GLYPH", Ink::Cyan), ("//", Ink::Magenta), ("WIRE", Ink::Text)];
    let mut out: Vec<PlacedLetter> = Vec::new();
    let mut column: usize = 0;
    let mut i: usize = 0;
    proof {
        reveal_strlit("GLYPH");
        reveal_strlit("//");
        reveal_strlit("WIRE");
    }
    while i < words.len()
        invariant
            words@.len() == 3,
            forall|k: int| 0 <= k < 3 ==> (#[trigger] words@[k]).0@ == words_spec()[k].0
                && words@[k].1 == words_spec()[k].1,
            forall|k: int| 0 <= k < 3 ==> (#[trigger] words_spec()[k]).0.len() <= 5,
            i <= 3,
            column <= 32 * i,
            out@ + placed_from(words_spec(), column as nat, i as nat) == placed_from(words_spec(), 0, 0),
        decreases 3 - i,
    {
        let (word, ink) = words[i];
        let letters = chars_of(word);
        let ghost before = out@;
        let mut k: usize = 0;
        while k < letters.len()
            invariant
                letters@ == words_spec()[i as int].0,
                letters@.len() <= 5,
                ink == words_spec()[i as int].1,
                i < 3,
                column <= 32 * i,
                k <= letters@.len(),
                out@ == before + word_letters(letters@, ink, column as nat).take(k as int),
            decreases letters@.len() - k,
        {
            out.push(PlacedLetter { letter: letters[k], ink, column: column + 6 * k });
            proof {
                assert(word_letters(letters@, ink, column as nat).take(k + 1)
                    =~= word_letters(letters@, ink, column as nat).take(k as int).push(
                        PlacedLetter { letter: letter_at(letters@, k as int), ink, column: (column + 6 * k) as usize }));
            }
            k += 1;
        }
        proof {
            assert(word_letters(letters@, ink, column as nat).take(k as int) =~= word_letters(letters@, ink, column as nat));
            assert(out@ + placed_from(words_spec(), (column + 6 * letters@.len() + 2) as nat, (i + 1) as nat)
                =~= before + placed_from(words_spec(), column as nat, i as nat));
        }
        column = column + 6 * letters.len() + 2;
        i += 1;
    }
    proof {
        assert(out@ =~= out@ + placed_from(words_spec(), column as nat, 3));
    }
    out
}

/// Appends the lit pixels of `rows` drawn from grid column `column`.
fn push_glyph_pixels(rows: &[u8; 7], column: usize, ink: Ink, out: &mut Vec<Pixel>)
    requires
        column <= 1000,
    ensures
        final(out)@ == old(out)@ + glyph_pixels_from(rows@, column as nat, ink, 0),
{
    let ghost before = old(out)@;
    let mut k: usize = 0;
    while k < 35
        invariant
            column <= 1000,
            k <= 35,
            out@ + glyph_pixels_from(rows@, column as nat, ink, k as nat)
                == before + glyph_pixels_from(rows@, column as nat, ink, 0),
        decreases 35 - k,
    {
        let y = k / 5;
        let x = k % 5;
        let ghost prev = out@;
        let bits = rows[y];
        if (bits >> ((4 - x) as u8)) & 1 == 1 {
            out.push(Pixel { x: column + x, y, ink });
        }
        proof {
            assert(out@ + glyph_pixels_from(rows@, column as nat, ink, (k + 1) as nat)
                =~= prev + glyph_pixels_from(rows@, column as nat, ink, k as nat));
        }
        k += 1;
    }
    proof {
        assert(out@ =~= out@ + glyph_pixels_from(rows@, column as nat, ink, 35));
    }
}

/// The lit pixels of the wordmark, letter by letter.
pub fn wordmark_pixels() -> (pixels: Vec<Pixel>)
    ensures
        pixels@ == letters_pixels_from(placed_from(words_spec(), 0, 0), 0),
{
    let letters = wordmark_letters();
    let ghost placed = letters@;
    let mut out: Vec<Pixel> = Vec::new();
    let mut i: usize = 0;
    proof { lemma_placed_columns(); }
    while i < letters.len()
        invariant
            letters@ == placed,
            placed == placed_from(words_spec(), 0, 0),
            forall|k: int| 0 <= k < placed.len() ==> (#[trigger] placed[k]).column <= 1000,
            i <= letters@.len(),
            out@ + letters_pixels_from(placed, i as nat) == letters_pixels_from(placed, 0),
        decreases letters@.len() - i,
    {
        let l = letters[i];
        let ghost prev = out@;
        match wordmark_glyph(l.letter) {
            Some(rows) => push_glyph_pixels(&rows, l.column, l.ink, &mut out),
            None => {},
        }
        proof {
            assert(out@ + letters_pixels_from(placed, (i + 1) as nat)
                =~= prev + letters_pixels_from(placed, i as nat));
        }
        i += 1;
    }
    proof {
        assert(out@ =~= out@ + letters_pixels_from(placed, letters@.len() as nat));
    }
    out
}

proof fn lemma_word_columns(word: Seq<char>, ink: Ink, column: nat)
    requires
        column + 6 * word.len() <= 1000,
    ensures
        forall|j: int| 0 <= j < word_letters(word, ink, column).len()
            ==> (#[trigger] word_letters(word, ink, column)[j]).column <= 1000,
{
}

proof fn lemma_placed_columns_from(column: nat, i: nat)
    requires
        i <= 3,
        column <= 32 * i,
    ensures
        forall|j: int| 0 <= j < placed_from(words_spec(), column, i).len()
            ==> (#[trigger] placed_from(words_spec(), column, i)[j]).column <= 1000,
    decreases 3 - i,
{
    reveal_strlit("GLYPH");
    reveal_strlit("//");
    reveal_strlit("WIRE");
    if i < 3 {
        let w = words_spec()[i as int];
        assert(w.0.len() <= 5);
        lemma_word_columns(w.0, w.1, column);
        lemma_placed_columns_from(column + 6 * w.0.len() + 2, i + 1);
        let first = word_letters(w.0, w.1, column);
        let rest = placed_from(words_spec(), column + 6 * w.0.len() + 2, i + 1);
        let all = placed_from(words_spec(), column, i);
        assert(all == first + rest);
        assert forall|j: int| 0 <= j < all.len() implies (#[trigger] all[j]).column <= 1000 by {
            if j < first.len() { assert(all[j] == first[j]); } else { assert(all[j] == rest[j - first.len()]); }
        }
    }
}

proof fn lemma_placed_columns()
    ensures
        forall|j: int| 0 <= j < placed_from(words_spec(), 0, 0).len()
            ==> (#[trigger] placed_from(words_spec(), 0, 0)[j]).column <= 1000,
{
    lemma_placed_columns_from(0, 0);
}

} // verus!
