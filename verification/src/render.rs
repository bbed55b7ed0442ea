use vstd::prelude::*;

use crate::text::{find_char, chars_of, string_of, trim, trim_bounds, copy_range};

verus! {

/// Rows of a glyph.
pub const GLYPH_HEIGHT: usize = 7;

/// Columns of a glyph.
pub const GLYPH_WIDTH: usize = 5;

/// Glyphs are drawn 3/2 as large as they are: 7 rows become 10, 5 columns 7.
pub const SCALE_NUMERATOR: usize = 3;

/// See `SCALE_NUMERATOR`.
pub const SCALE_DENOMINATOR: usize = 2;

/// Blank columns between two glyphs.
pub const LETTER_SPACING: usize = 2;

/// The chars that have a glyph of their own (letters in upper case).
pub const GLYPH_KEYS: [char; 45] = [
    'A',
    'B',
    'C',
    'D',
    'E',
    'F',
    'G',
    'H',
    'I',
    'J',
    'K',
    'L',
    'M',
    'N',
    'O',
    'P',
    'Q',
    'R',
    'S',
    'T',
    'U',
    'V',
    'W',
    'X',
    'Y',
    'Z',
    '0',
    '1',
    '2',
    '3',
    '4',
    '5',
    '6',
    '7',
    '8',
    '9',
    '!',
    '?',
    '.',
    ',',
    '-',
    '\'',
    '"',
    '♪',
    ' ',
];

/// The rows of the glyphs of `GLYPH_KEYS`, top to bottom; bit 4 is the
/// leftmost column.
pub const GLYPH_ROWS: [[u8; 7]; 45] = [
    // 'A'
    [0b00100, 0b01010, 0b10001, 0b11111, 0b10001, 0b10001, 0b10001],
    // 'B'
    [0b11110, 0b10001, 0b10001, 0b11110, 0b10001, 0b10001, 0b11110],
    // 'C'
    [0b01111, 0b10000, 0b10000, 0b10000, 0b10000, 0b10000, 0b01111],
    // 'D'
    [0b11110, 0b10001, 0b10001, 0b10001, 0b10001, 0b10001, 0b11110],
    // 'E'
    [0b11111, 0b10000, 0b10000, 0b11110, 0b10000, 0b10000, 0b11111],
    // 'F'
    [0b11111, 0b10000, 0b10000, 0b11110, 0b10000, 0b10000, 0b10000],
    // 'G'
    [0b01111, 0b10000, 0b10000, 0b10111, 0b10001, 0b10001, 0b01111],
    // 'H'
    [0b10001, 0b10001, 0b10001, 0b11111, 0b10001, 0b10001, 0b10001],
    // 'I'
    [0b11111, 0b00100, 0b00100, 0b00100, 0b00100, 0b00100, 0b11111],
    // 'J'
    [0b11111, 0b00001, 0b00001, 0b00001, 0b00001, 0b10001, 0b01110],
    // 'K'
    [0b10001, 0b10010, 0b10100, 0b11100, 0b10100, 0b10010, 0b10001],
    // 'L'
    [0b10000, 0b10000, 0b10000, 0b10000, 0b10000, 0b10000, 0b11111],
    // 'M'
    [0b10001, 0b11011, 0b10101, 0b10101, 0b10001, 0b10001, 0b10001],
    // 'N'
    [0b10001, 0b11001, 0b11001, 0b10101, 0b10011, 0b10011, 0b10001],
    // 'O'
    [0b01110, 0b10001, 0b10001, 0b10001, 0b10001, 0b10001, 0b01110],
    // 'P'
    [0b11110, 0b10001, 0b10001, 0b11110, 0b10000, 0b10000, 0b10000],
    // 'Q'
    [0b01110, 0b10001, 0b10001, 0b10001, 0b10101, 0b10011, 0b01111],
    // 'R'
    [0b11110, 0b10001, 0b10001, 0b11110, 0b10100, 0b10010, 0b10001],
    // 'S'
    [0b01111, 0b10000, 0b10000, 0b01110, 0b00001, 0b00001, 0b11110],
    // 'T'
    [0b11111, 0b00100, 0b00100, 0b00100, 0b00100, 0b00100, 0b00100],
    // 'U'
    [0b10001, 0b10001, 0b10001, 0b10001, 0b10001, 0b10001, 0b01110],
    // 'V'
    [0b10001, 0b10001, 0b10001, 0b10001, 0b10001, 0b01010, 0b00100],
    // 'W'
    [0b10001, 0b10001, 0b10001, 0b10101, 0b10101, 0b11011, 0b10001],
    // 'X'
    [0b10001, 0b10001, 0b01010, 0b00100, 0b01010, 0b10001, 0b10001],
    // 'Y'
    [0b10001, 0b10001, 0b01010, 0b00100, 0b00100, 0b00100, 0b00100],
    // 'Z'
    [0b11111, 0b00001, 0b00010, 0b00100, 0b01000, 0b10000, 0b11111],
    // '0'
    [0b01110, 0b10001, 0b10011, 0b10101, 0b11001, 0b10001, 0b01110],
    // '1'
    [0b00100, 0b01100, 0b10100, 0b00100, 0b00100, 0b00100, 0b11111],
    // '2'
    [0b01110, 0b10001, 0b00001, 0b00010, 0b00100, 0b01000, 0b11111],
    // '3'
    [0b11110, 0b00001, 0b00001, 0b01110, 0b00001, 0b00001, 0b11110],
    // '4'
    [0b00010, 0b00110, 0b01010, 0b10010, 0b11111, 0b00010, 0b00010],
    // '5'
    [0b11111, 0b10000, 0b10000, 0b11110, 0b00001, 0b00001, 0b11110],
    // '6'
    [0b01110, 0b10000, 0b10000, 0b11110, 0b10001, 0b10001, 0b01110],
    // '7'
    [0b11111, 0b00001, 0b00010, 0b00100, 0b01000, 0b01000, 0b01000],
    // '8'
    [0b01110, 0b10001, 0b10001, 0b01110, 0b10001, 0b10001, 0b01110],
    // '9'
    [0b01110, 0b10001, 0b10001, 0b01111, 0b00001, 0b00001, 0b01110],
    // '!'
    [0b00100, 0b00100, 0b00100, 0b00100, 0b00100, 0b00000, 0b00100],
    // '?'
    [0b01110, 0b10001, 0b00001, 0b00010, 0b00100, 0b00000, 0b00100],
    // '.'
    [0b00000, 0b00000, 0b00000, 0b00000, 0b00000, 0b00100, 0b00100],
    // ','
    [0b00000, 0b00000, 0b00000, 0b00000, 0b00000, 0b00100, 0b01000],
    // '-'
    [0b00000, 0b00000, 0b00000, 0b11111, 0b00000, 0b00000, 0b00000],
    // '\''
    [0b00100, 0b00100, 0b00000, 0b00000, 0b00000, 0b00000, 0b00000],
    // '"'
    [0b01010, 0b01010, 0b00000, 0b00000, 0b00000, 0b00000, 0b00000],
    // '♪'
    [0b00001, 0b00001, 0b00001, 0b00001, 0b00111, 0b01010, 0b10010],
    // ' '
    [0b00000, 0b00000, 0b00000, 0b00000, 0b00000, 0b00000, 0b00000],
];

/// The glyph of a char that has none of its own: a short dash.
pub const UNKNOWN_GLYPH: [u8; 7] = [0b00000, 0b00000, 0b00000, 0b01110, 0b00000, 0b00000, 0b00000];

/// `c` with an ASCII lower-case letter made upper case, as
/// `char::to_ascii_uppercase` gives it.
pub open spec fn ascii_upper(c: char) -> char {
    if 'a' <= c && c <= 'z' {
        ((c as int) - 32) as char
    } else {
        c
    }
}

/// The rows of the glyph of `c`, whose case does not matter.
pub open spec fn glyph_rows(c: char) -> Seq<u8> {
    match find_char(GLYPH_KEYS@, ascii_upper(c)) {
        Some(i) => GLYPH_ROWS@[i]@,
        None => UNKNOWN_GLYPH@,
    }
}

/// The five chars of a glyph row: a block for each set bit, leftmost first.
pub open spec fn row_chars(bits: u8) -> Seq<char> {
    Seq::new(
        5,
        |j: int|
            if (bits >> ((4 - j) as u8)) & 1u8 == 1u8 {
                '█'
            } else {
                ' '
            },
    )
}

/// The source row shown on each of the `height * 3 / 2` rows of a glyph
/// scaled by 3/2.
pub open spec fn scaled_rows(height: nat) -> Seq<nat> {
    Seq::new(
        height * 3 / 2,
        |r: int|
            if r * 2 / 3 < height - 1 {
                (r * 2 / 3) as nat
            } else {
                (height - 1) as nat
            },
    )
}

/// A row of chars scaled by 3/2: `len * 3 / 2` columns, column `c` showing
/// column `c * 2 / 3`.
pub open spec fn scaled_row(row: Seq<char>) -> Seq<char> {
    Seq::new(
        row.len() * 3 / 2,
        |c: int|
            if c * 2 / 3 < row.len() {
                row[c * 2 / 3]
            } else {
                ' '
            },
    )
}

/// Row `src` of the glyph of `c`, scaled.
pub open spec fn glyph_cell(c: char, src: nat) -> Seq<char> {
    scaled_row(row_chars(glyph_rows(c)[src as int]))
}

/// One drawn row of `word`: row `src` of the glyph of each char, scaled, two
/// blank columns between glyphs.
pub open spec fn glyph_line(word: Seq<char>, src: nat) -> Seq<char>
    decreases word.len(),
{
    if word.len() == 0 {
        seq![]
    } else if word.len() == 1 {
        glyph_cell(word[0], src)
    } else {
        glyph_line(word.drop_last(), src) + seq![' ', ' '] + glyph_cell(word.last(), src)
    }
}

/// `c` with an ASCII lower-case letter made upper case.
pub fn to_ascii_uppercase(c: char) -> (r: char)
    ensures
        r == ascii_upper(c),
{
    if 'a' <= c && c <= 'z' {
        ((c as u8) - 32u8) as char
    } else {
        c
    }
}

/// The rows of the glyph of `c`, as `glyph_rows` says.
pub fn glyph(c: char) -> (rows: [u8; 7])
    ensures
        rows@ == glyph_rows(c),
{
    let u = to_ascii_uppercase(c);
    let mut i: usize = 0;
    while i < GLYPH_KEYS.len()
        invariant
            i <= GLYPH_KEYS@.len(),
            u == ascii_upper(c),
            forall|j: int| 0 <= j < i ==> GLYPH_KEYS@[j] != u,
        decreases GLYPH_KEYS@.len() - i,
    {
        if GLYPH_KEYS[i] == u {
            proof {
                crate::text::lemma_find_char_at(GLYPH_KEYS@, u, i as int);
            }
            let rows = GLYPH_ROWS[i];
            assert(rows == GLYPH_ROWS@[i as int]);
            return rows;
        }
        i = i + 1;
    }
    proof {
        crate::text::lemma_find_char_none(GLYPH_KEYS@, u);
    }
    UNKNOWN_GLYPH
}

/// The chars of a glyph row, as `row_chars` says.
pub fn glyph_row(bits: u8) -> (r: Vec<char>)
    ensures
        r@ == row_chars(bits),
{
    let mut r: Vec<char> = Vec::new();
    let mut j: u8 = 0;
    while j < 5
        invariant
            j <= 5,
            r@ == row_chars(bits).take(j as int),
        decreases 5 - j,
    {
        let c = if (bits >> (4 - j)) & 1 == 1 {
            '█'
        } else {
            ' '
        };
        r.push(c);
        j = j + 1;
        assert(r@ =~= row_chars(bits).take(j as int));
    }
    assert(row_chars(bits).take(5) =~= row_chars(bits));
    r
}

/// The source rows of a glyph of `height` rows scaled by 3/2, as
/// `scaled_rows` says.
pub fn scale_rows(height: usize) -> (r: Vec<usize>)
    requires
        height <= usize::MAX / 3,
    ensures
        r@.map_values(|x: usize| x as nat) == scaled_rows(height as nat),
{
    let output_height = height * SCALE_NUMERATOR / SCALE_DENOMINATOR;
    let mut r: Vec<usize> = Vec::new();
    let mut row: usize = 0;
    while row < output_height
        invariant
            output_height == height * 3 / 2,
            height <= usize::MAX / 3,
            row <= output_height,
            r@.map_values(|x: usize| x as nat) == scaled_rows(height as nat).take(row as int),
        decreases output_height - row,
    {
        assert(row * 2 <= usize::MAX) by (nonlinear_arith)
            requires
                row < height * 3 / 2,
                height <= usize::MAX / 3,
        ;
        let source_row = row * SCALE_DENOMINATOR / SCALE_NUMERATOR;
        let shown = if source_row < height - 1 {
            source_row
        } else {
            height - 1
        };
        assert(source_row == row * 2 / 3);
        assert(shown as nat == scaled_rows(height as nat)[row as int]);
        let ghost prev = r@;
        r.push(shown);
        assert(r@.map_values(|x: usize| x as nat) =~= prev.map_values(|x: usize| x as nat).push(
            shown as nat,
        ));
        row = row + 1;
        assert(r@.map_values(|x: usize| x as nat) =~= scaled_rows(height as nat).take(row as int));
    }
    assert(scaled_rows(height as nat).take(row as int) =~= scaled_rows(height as nat));
    r
}

/// A row of chars scaled by 3/2, as `scaled_row` says.
pub fn scale_row(row: &Vec<char>) -> (r: Vec<char>)
    requires
        row.len() <= usize::MAX / 3,
    ensures
        r@ == scaled_row(row@),
{
    let output_width = row.len() * SCALE_NUMERATOR / SCALE_DENOMINATOR;
    let mut r: Vec<char> = Vec::new();
    let mut col: usize = 0;
    while col < output_width
        invariant
            output_width == row.len() * 3 / 2,
            row.len() <= usize::MAX / 3,
            col <= output_width,
            r@ == scaled_row(row@).take(col as int),
        decreases output_width - col,
    {
        assert(col * 2 <= usize::MAX) by (nonlinear_arith)
            requires
                col < row.len() * 3 / 2,
                row.len() <= usize::MAX / 3,
        ;
        let source_column = col * SCALE_DENOMINATOR / SCALE_NUMERATOR;
        let c = if source_column < row.len() {
            row[source_column]
        } else {
            ' '
        };
        r.push(c);
        col = col + 1;
        assert(r@ =~= scaled_row(row@).take(col as int));
    }
    assert(scaled_row(row@).take(col as int) =~= scaled_row(row@));
    r
}

/// The number of chars in `text`, which is how many columns it takes.
pub fn display_width(text: &str) -> (w: usize)
    ensures
        w == text@.len(),
{
    let chars = chars_of(text);
    chars.len()
}

/// The rows in which `word` is drawn in large glyphs, as `glyph_line` says.
pub fn render_word(word: &str) -> (lines: Vec<String>)
    ensures
        lines.len() == 10,
        forall|k: int|
            0 <= k < 10 ==> (#[trigger] lines[k])@ == glyph_line(word@, scaled_rows(7)[k]),
{
    let chars = chars_of(word);
    let rows = scale_rows(GLYPH_HEIGHT);
    assert(scaled_rows(7).len() == 10);
    let mut lines: Vec<String> = Vec::new();
    let mut k: usize = 0;
    while k < rows.len()
        invariant
            k <= rows.len() == 10,
            chars@ == word@,
            rows@.map_values(|x: usize| x as nat) == scaled_rows(7),
            lines.len() == k,
            forall|m: int|
                0 <= m < k ==> (#[trigger] lines[m])@ == glyph_line(word@, scaled_rows(7)[m]),
        decreases rows.len() - k,
    {
        let source_row = rows[k];
        assert(rows@.map_values(|x: usize| x as nat)[k as int] == source_row);
        assert(source_row < 7);
        let mut line: Vec<char> = Vec::new();
        let mut i: usize = 0;
        while i < chars.len()
            invariant
                i <= chars.len(),
                source_row < 7,
                line@ == (if i == 0 {
                    Seq::<char>::empty()
                } else if i < chars.len() {
                    glyph_line(chars@.take(i as int), source_row as nat) + seq![' ', ' ']
                } else {
                    glyph_line(chars@.take(i as int), source_row as nat)
                }),
            decreases chars.len() - i,
        {
            let g = glyph(chars[i]);
            let cell_row = glyph_row(g[source_row]);
            let scaled = scale_row(&cell_row);
            let ghost prev = line@;
            let mut j: usize = 0;
            while j < scaled.len()
                invariant
                    j <= scaled.len(),
                    line@ == prev + scaled@.take(j as int),
                decreases scaled.len() - j,
            {
                line.push(scaled[j]);
                j = j + 1;
                assert(line@ =~= prev + scaled@.take(j as int));
            }
            assert(scaled@.take(j as int) =~= scaled@);
            proof {
                let t = chars@.take(i + 1);
                assert(t.drop_last() =~= chars@.take(i as int));
                assert(t.last() == chars@[i as int]);
                assert(scaled@ == glyph_cell(chars@[i as int], source_row as nat));
                if i == 0 {
                    assert(line@ =~= glyph_line(t, source_row as nat));
                }
            }
            if i + 1 < chars.len() {
                line.push(' ');
                line.push(' ');
            }
            i = i + 1;
            proof {
                let t = chars@.take(i as int);
                if i < chars.len() {
                    assert(line@ =~= glyph_line(t, source_row as nat) + seq![' ', ' ']);
                } else {
                    assert(line@ =~= glyph_line(t, source_row as nat));
                }
            }
        }
        assert(chars@.take(i as int) =~= word@);
        lines.push(string_of(line.as_slice()));
        k = k + 1;
    }
    lines
}

/// What is drawn on the terminal: the rows of the glyphs, and the blank
/// columns and rows before them that center them.
pub struct Frame {
    pub lines: Vec<String>,
    pub left_padding: usize,
    pub top_padding: usize,
}

/// The text drawn for `word`: the word trimmed, or a note where there is no
/// word or it is blank.
pub open spec fn shown_text(word: Option<Seq<char>>) -> Seq<char> {
    match word {
        Some(w) => if trim(w).len() > 0 {
            trim(w)
        } else {
            seq!['♪']
        },
        None => seq!['♪'],
    }
}

/// The longest length in `ls`.
pub open spec fn max_len(ls: Seq<Seq<char>>) -> nat
    decreases ls.len(),
{
    if ls.len() == 0 {
        0
    } else if ls.last().len() > max_len(ls.drop_last()) {
        ls.last().len()
    } else {
        max_len(ls.drop_last())
    }
}

/// The padding that centers `content` within `space`: half of what is left,
/// none where nothing is left.
pub open spec fn centering(content: nat, space: nat) -> nat {
    if content < space {
        ((space - content) / 2) as nat
    } else {
        0
    }
}

/// The frame that shows `word` in large glyphs, centered on a terminal of
/// `terminal_width` columns and `terminal_height` rows.
pub fn layout(word: Option<&str>, terminal_width: usize, terminal_height: usize) -> (f: Frame)
    ensures
        ({
            let shown = shown_text(
                match word {
                    Some(w) => Some(w@),
                    None => None,
                },
            );
            &&& f.lines.len() == 10
            &&& forall|k: int|
                0 <= k < 10 ==> (#[trigger] f.lines[k])@ == glyph_line(shown, scaled_rows(7)[k])
            &&& f.left_padding == centering(
                max_len(f.lines@.map_values(|l: String| l@)),
                terminal_width as nat,
            )
            &&& f.top_padding == centering(10, terminal_height as nat)
        }),
{
    let note: Vec<char> = vec!['♪'];
    let shown: Vec<char> = match word {
        Some(w) => {
            let chars = chars_of(w);
            let (a, b) = trim_bounds(&chars, 0, chars.len());
            assert(chars@.subrange(0, chars.len() as int) =~= w@);
            if a < b {
                copy_range(&chars, a, b)
            } else {
                note
            }
        },
        None => note,
    };
    assert(note@ =~= seq!['♪']);
    let text = string_of(shown.as_slice());
    let lines = render_word(text.as_str());
    // The widest line.
    let mut width: usize = 0;
    let mut k: usize = 0;
    while k < lines.len()
        invariant
            k <= lines.len(),
            width == max_len(lines@.map_values(|l: String| l@).take(k as int)),
        decreases lines.len() - k,
    {
        let w = display_width(lines[k].as_str());
        assert(lines@.map_values(|l: String| l@).take(k + 1).drop_last() =~= lines@.map_values(
            |l: String| l@,
        ).take(k as int));
        assert(lines@.map_values(|l: String| l@).take(k + 1).last() == lines[k as int]@);
        if w > width {
            width = w;
        }
        k = k + 1;
    }
    assert(lines@.map_values(|l: String| l@).take(k as int) =~= lines@.map_values(
        |l: String| l@,
    ));
    let left_padding = if width < terminal_width {
        (terminal_width - width) / 2
    } else {
        0
    };
    let height = lines.len();
    let top_padding = if height < terminal_height {
        (terminal_height - height) / 2
    } else {
        0
    };
    Frame { lines, left_padding, top_padding }
}

/// The size of the terminal in columns and rows: the size reported, or 80 by
/// 24 where none is reported or it has no area.
pub fn terminal_dims(reported: Option<(u16, u16)>) -> (r: (usize, usize))
    ensures
        match reported {
            Some((w, h)) => if w > 0 && h > 0 {
                r == (w as usize, h as usize)
            } else {
                r == (80usize, 24usize)
            },
            None => r == (80usize, 24usize),
        },
{
    match reported {
        Some((w, h)) => {
            if w > 0 && h > 0 {
                (w as usize, h as usize)
            } else {
                (80, 24)
            }
        },
        None => (80, 24),
    }
}

/// Whether a key press asks the program to quit: `q` or `Q`.
pub fn is_quit_key(c: char) -> (quit: bool)
    ensures
        quit == (c == 'q' || c == 'Q'),
{
    c == 'q' || c == 'Q'
}

} // verus!
