//! Dense text as an image of small glyphs, where that is cheaper to read than the text.
use crate::content_detect::{content_kind, detect, ContentKind, KindModel};
use crate::text::{
    is_space, is_whitespace, lemma_views_push, option_view, pieces_stand_between, slice_text,
    split_at_char, split_text, to_chars, views,
};
use image::{GrayImage, ImageFormat};
use spleen_font::{PSF2Font, FONT_5X8};
use std::io::Cursor;
use vstd::prelude::*;

verus! {

pub const GLYPH_WIDTH: u32 = 5;

pub const GLYPH_HEIGHT: u32 = 8;

/// The characters of a row.
pub const COLUMNS: u32 = 312;

pub const PAGE_WIDTH: u32 = 1568;

pub const PAGE_HEIGHT: u32 = 728;

pub const ROWS_PER_PAGE: u32 = 91;

/// The white left of the first column: half of what the columns leave of the page.
pub const H_MARGIN: u32 = 4;

/// The measures fit: rows fill a page, and columns and margins fill its width.
pub proof fn measures_fit()
    ensures
        ROWS_PER_PAGE * GLYPH_HEIGHT == PAGE_HEIGHT,
        COLUMNS * GLYPH_WIDTH + 2 * H_MARGIN == PAGE_WIDTH,
{
}

// ---------------------------------------------------------------------------
// Whether an image pays
// ---------------------------------------------------------------------------

/// A letter or a digit of any script.
pub uninterp spec fn alphanumeric(c: char) -> bool;

/// `char::is_alphanumeric`: a property of the character.
pub assume_specification[ char::is_alphanumeric ](c: char) -> (b: bool)
    ensures
        b == alphanumeric(c),
;

/// The tokens of a text: every run of letters and digits, and every other character that is no
/// space.
pub open spec fn token_count(s: Seq<char>) -> nat
    decreases s.len(),
{
    if s.len() == 0 {
        0
    } else {
        let c = s.last();
        let starts = if alphanumeric(c) {
            s.len() == 1 || !alphanumeric(s[s.len() - 2])
        } else {
            !is_space(c)
        };
        token_count(s.drop_last()) + (if starts {
            1nat
        } else {
            0
        })
    }
}

/// At most two and a half characters to the token.
pub open spec fn profitable(text: Seq<char>) -> bool {
    let tokens = if token_count(text) == 0 {
        1
    } else {
        token_count(text)
    };
    text.len() > 0 && 2 * text.len() <= 5 * tokens
}

fn count_tokens(v: &Vec<char>) -> (n: usize)
    ensures
        n == token_count(v@),
{
    let mut n: usize = 0;
    let mut in_word = false;
    let mut i: usize = 0;
    assert(v@.take(0) =~= seq![]);
    while i < v.len()
        invariant
            i <= v@.len(),
            n <= i,
            n == token_count(v@.take(i as int)),
            in_word == (i > 0 && alphanumeric(v@[i - 1])),
        decreases v.len() - i,
    {
        let ghost upto = v@.take(i + 1);
        assert(upto.drop_last() =~= v@.take(i as int));
        assert(upto.last() == v@[i as int]);
        assert(i > 0 ==> upto[i - 1] == v@[i - 1]);
        let c = v[i];
        if c.is_alphanumeric() {
            if !in_word {
                n = n + 1;
            }
            in_word = true;
        } else {
            if !is_whitespace(c) {
                n = n + 1;
            }
            in_word = false;
        }
        i = i + 1;
    }
    assert(v@.take(v@.len() as int) =~= v@);
    n
}

pub fn is_profitable(text: &str) -> (b: bool)
    ensures
        b == profitable(text@),
{
    let v = to_chars(text);
    if v.len() == 0 {
        return false;
    }
    let counted = count_tokens(&v);
    let tokens: usize = if counted == 0 {
        1
    } else {
        counted
    };
    2 * (v.len() as u128) <= 5 * (tokens as u128)
}

/// Code and diffs have to be read exactly and are never rendered.
pub open spec fn eligible(kind: KindModel) -> bool {
    kind == KindModel::Json || kind == KindModel::Log || kind == KindModel::PlainText
}

pub fn eligible_kind(kind: &ContentKind) -> (b: bool)
    ensures
        b == eligible(kind@),
{
    match kind {
        ContentKind::Json => true,
        ContentKind::Log => true,
        ContentKind::PlainText => true,
        _ => false,
    }
}

// ---------------------------------------------------------------------------
// The rows
// ---------------------------------------------------------------------------

/// The line in pieces of a row's length; an empty line is an empty row.
pub open spec fn line_rows(line: Seq<char>) -> Seq<Seq<char>>
    decreases line.len(),
{
    if line.len() <= COLUMNS {
        seq![line]
    } else {
        seq![line.take(COLUMNS as int)] + line_rows(line.skip(COLUMNS as int))
    }
}

pub open spec fn rows_of_lines(lines: Seq<Seq<char>>) -> Seq<Seq<char>>
    decreases lines.len(),
{
    if lines.len() == 0 {
        seq![]
    } else {
        rows_of_lines(lines.drop_last()) + line_rows(lines.last())
    }
}

/// The rows of a text. A line feed ends a row.
pub open spec fn text_rows(text: Seq<char>) -> Seq<Seq<char>> {
    rows_of_lines(split_at_char(text, '\n'))
}

fn add_rows(line: &str, rows: &mut Vec<String>)
    ensures
        views(final(rows)@) == views(old(rows)@) + line_rows(line@),
{
    broadcast use lemma_views_push;

    let v = to_chars(line);
    let total: usize = v.len();
    let ghost before = views(rows@);
    let mut at: usize = 0;
    assert(v@.skip(0) =~= v@);
    while total - at > COLUMNS as usize
        invariant
            at <= total == v@.len(),
            v@ == line@,
            before + line_rows(line@) == views(rows@) + line_rows(v@.skip(at as int)),
        decreases total - at,
    {
        let ghost rest = v@.skip(at as int);
        let ghost have = views(rows@);
        let next = at + COLUMNS as usize;
        let row = slice_text(&v, at, next);
        assert(row@ =~= rest.take(COLUMNS as int));
        assert(rest.skip(COLUMNS as int) =~= v@.skip(next as int));
        assert(have + (seq![row@] + line_rows(v@.skip(next as int))) =~= have.push(row@)
            + line_rows(v@.skip(next as int)));
        rows.push(row);
        at = next;
    }
    let row = slice_text(&v, at, total);
    assert(row@ =~= v@.skip(at as int));
    assert(views(rows@) + seq![row@] =~= views(rows@).push(row@));
    rows.push(row);
}

pub fn wrap_into_rows(text: &str) -> (rows: Vec<String>)
    ensures
        views(rows@) == text_rows(text@),
{
    let ls = split_text(text, '\n');
    let ghost all = views(ls@);
    let mut rows: Vec<String> = Vec::new();
    let mut i: usize = 0;
    assert(all.take(0) =~= seq![]);
    assert(views(rows@) =~= seq![]);
    while i < ls.len()
        invariant
            i <= ls@.len(),
            all == views(ls@),
            views(rows@) == rows_of_lines(all.take(i as int)),
        decreases ls.len() - i,
    {
        assert(all.take(i + 1).drop_last() =~= all.take(i as int));
        assert(all.take(i + 1).last() == ls@[i as int]@);
        add_rows(ls[i].as_str(), &mut rows);
        i = i + 1;
    }
    assert(all.take(all.len() as int) =~= all);
    rows
}

// ---------------------------------------------------------------------------
// The image
// ---------------------------------------------------------------------------

pub open spec fn grid(v: Seq<Vec<bool>>) -> Seq<Seq<bool>> {
    v.map_values(|row: Vec<bool>| row@)
}

pub open spec fn grid_option(g: Option<Vec<Vec<bool>>>) -> Option<Seq<Seq<bool>>> {
    match g {
        Some(v) => Some(grid(v@)),
        None => None,
    }
}

/// A glyph of the font's size.
pub open spec fn glyph_sized(g: Seq<Seq<bool>>) -> bool {
    g.len() == GLYPH_HEIGHT && forall|y: int|
        0 <= y < g.len() ==> (#[trigger] g[y]).len() == GLYPH_WIDTH
}

/// The dots of a character in the font, where the font has it.
pub uninterp spec fn font_glyph(c: char) -> Option<Seq<Seq<bool>>>;

/// `PSF2Font::glyph_for_utf8` of the font `FONT_5X8`: a function of the character, whose glyphs are
/// eight rows of five dots each. The font keeps a cache, which holds only what a look-up would find.
#[verifier::external_body]
fn glyph_dots(c: char) -> (r: Option<Vec<Vec<bool>>>)
    ensures
        grid_option(r) == font_glyph(c),
        r matches Some(v) ==> glyph_sized(grid(v@)),
{
    let mut font = PSF2Font::new(FONT_5X8).unwrap();
    let mut buffer = [0u8; 4];
    let glyph = font.glyph_for_utf8(c.encode_utf8(&mut buffer).as_bytes())?;
    Some(glyph.map(|row| row.collect()).collect())
}

/// The dot at column `x` and row `y` of the page is black: a glyph stands there and sets it.
pub open spec fn is_black(rows: Seq<Seq<char>>, x: int, y: int) -> bool {
    let row = y / GLYPH_HEIGHT as int;
    let col = (x - H_MARGIN) / GLYPH_WIDTH as int;
    &&& x >= H_MARGIN
    &&& row < rows.len()
    &&& col < rows[row].len()
    &&& col < COLUMNS
    &&& font_glyph(rows[row][col]) matches Some(g) && g[y % GLYPH_HEIGHT as int][(x - H_MARGIN)
        % GLYPH_WIDTH as int]
}

/// The pages that the rows fill; an empty page where there are none.
pub open spec fn page_count(rows: nat) -> nat {
    let pages = (rows + ROWS_PER_PAGE - 1) as nat / ROWS_PER_PAGE as nat;
    if pages == 0 {
        1
    } else {
        pages
    }
}

pub open spec fn image_height(rows: nat) -> nat {
    page_count(rows) * PAGE_HEIGHT as nat
}

/// The dots of the image from left to right and from top to bottom: black is zero.
pub open spec fn image_dots(rows: Seq<Seq<char>>) -> Seq<u8> {
    Seq::new(
        image_height(rows.len()) * PAGE_WIDTH as nat,
        |k: int|
            if is_black(rows, k % PAGE_WIDTH as int, k / PAGE_WIDTH as int) {
                0u8
            } else {
                255u8
            },
    )
}

/// The image of the text can be addressed.
pub open spec fn renderable(text: Seq<char>) -> bool {
    image_height(text_rows(text).len()) <= u32::MAX && image_height(text_rows(text).len())
        * PAGE_WIDTH <= usize::MAX
}

/// The PNG form of a gray image.
pub uninterp spec fn png_form(width: int, height: int, dots: Seq<u8>) -> Seq<u8>;

/// `GrayImage::from_raw` and `GrayImage::write_to` with `ImageFormat::Png`: the bytes are a function
/// of the size and the dots.
#[verifier::external_body]
fn encode_png(width: u32, height: u32, dots: Vec<u8>) -> (png: Vec<u8>)
    requires
        width > 0,
        height > 0,
        dots@.len() == width * height,
    ensures
        png@ == png_form(width as int, height as int, dots@),
{
    let mut bytes = Vec::new();
    let image = GrayImage::from_raw(width, height, dots).unwrap();
    image.write_to(&mut Cursor::new(&mut bytes), ImageFormat::Png).unwrap();
    bytes
}

/// The glyphs of the characters of a row.
spec fn glyphs_known(glyphs: Seq<Option<Vec<Vec<bool>>>>, row: Seq<char>) -> bool {
    glyphs.len() == row.len() && forall|i: int|
        0 <= i < row.len() ==> grid_option(#[trigger] glyphs[i]) == font_glyph(row[i]) && (
        glyphs[i] matches Some(v) ==> glyph_sized(grid(v@)))
}

fn find_glyphs(row: &str) -> (out: Vec<Option<Vec<Vec<bool>>>>)
    ensures
        glyphs_known(out@, row@),
{
    let v = to_chars(row);
    let mut out: Vec<Option<Vec<Vec<bool>>>> = Vec::new();
    let mut i: usize = 0;
    while i < v.len()
        invariant
            i <= v@.len(),
            out@.len() == i,
            forall|j: int|
                0 <= j < i ==> grid_option(#[trigger] out@[j]) == font_glyph(v@[j]) && (
                out@[j] matches Some(g) ==> glyph_sized(grid(g@))),
        decreases v.len() - i,
    {
        out.push(glyph_dots(v[i]));
        i = i + 1;
    }
    out
}

/// The dot of a row of glyphs at column `x` of the page and line `line` of the glyphs.
fn dot_at(glyphs: &Vec<Option<Vec<Vec<bool>>>>, x: usize, line: usize, Ghost(row): Ghost<Seq<char>>) -> (b: bool)
    requires
        glyphs_known(glyphs@, row),
        line < GLYPH_HEIGHT,
        x < PAGE_WIDTH,
    ensures
        b == is_black(seq![row], x as int, line as int),
{
    let margin = H_MARGIN as usize;
    let width = GLYPH_WIDTH as usize;
    if x < margin {
        return false;
    }
    let col = (x - margin) / width;
    assert(seq![row][0] == row);
    if col >= glyphs.len() || col >= COLUMNS as usize {
        return false;
    }
    let dot = (x - margin) % width;
    assert(grid_option(glyphs@[col as int]) == font_glyph(row[col as int]));
    match &glyphs[col] {
        Some(g) => {
            assert(grid(g@)[line as int] == g@[line as int]@);
            g[line][dot]
        },
        None => false,
    }
}

fn add_line(
    dots: &mut Vec<u8>,
    glyphs: &Vec<Option<Vec<Vec<bool>>>>,
    line: usize,
    Ghost(row): Ghost<Seq<char>>,
)
    requires
        glyphs_known(glyphs@, row),
        line < GLYPH_HEIGHT,
    ensures
        final(dots)@.len() == old(dots)@.len() + PAGE_WIDTH,
        forall|k: int| 0 <= k < old(dots)@.len() ==> #[trigger] final(dots)@[k] == old(dots)@[k],
        forall|x: int|
            0 <= x < PAGE_WIDTH ==> #[trigger] final(dots)@[old(dots)@.len() + x] == (if is_black(
                seq![row],
                x,
                line as int,
            ) {
                0u8
            } else {
                255u8
            }),
{
    let ghost before = dots@;
    let width = PAGE_WIDTH as usize;
    let mut x: usize = 0;
    while x < width
        invariant
            x <= width == PAGE_WIDTH,
            glyphs_known(glyphs@, row),
            line < GLYPH_HEIGHT,
            dots@.len() == before.len() + x,
            forall|k: int| 0 <= k < before.len() ==> #[trigger] dots@[k] == before[k],
            forall|j: int|
                0 <= j < x ==> #[trigger] dots@[before.len() + j] == (if is_black(
                    seq![row],
                    j,
                    line as int,
                ) {
                    0u8
                } else {
                    255u8
                }),
        decreases width - x,
    {
        if dot_at(glyphs, x, line, Ghost(row)) {
            dots.push(0);
        } else {
            dots.push(255);
        }
        x = x + 1;
    }
}

/// The dots before row `n` of the text are those of the image.
spec fn drawn(dots: Seq<u8>, rows: Seq<Seq<char>>, lines: int) -> bool {
    &&& dots.len() == lines * PAGE_WIDTH
    &&& forall|k: int|
        0 <= k < dots.len() ==> #[trigger] dots[k] == (if is_black(
            rows,
            k % PAGE_WIDTH as int,
            k / PAGE_WIDTH as int,
        ) {
            0u8
        } else {
            255u8
        })
}

spec fn row_at(rows: Seq<Seq<char>>, n: int) -> Seq<char> {
    if n < rows.len() {
        rows[n]
    } else {
        seq![]
    }
}

proof fn lemma_row_is_black(rows: Seq<Seq<char>>, n: int, x: int, line: int)
    requires
        0 <= n,
        0 <= x < PAGE_WIDTH,
        0 <= line < GLYPH_HEIGHT,
    ensures
        is_black(seq![row_at(rows, n)], x, line) == is_black(rows, x, n * GLYPH_HEIGHT + line),
{
    let y = n * GLYPH_HEIGHT + line;
    assert(y / GLYPH_HEIGHT as int == n);
    assert(y % GLYPH_HEIGHT as int == line);
    assert(line / GLYPH_HEIGHT as int == 0);
    assert(seq![row_at(rows, n)][0] == row_at(rows, n));
}

fn add_row(
    dots: &mut Vec<u8>,
    glyphs: &Vec<Option<Vec<Vec<bool>>>>,
    Ghost(rows): Ghost<Seq<Seq<char>>>,
    Ghost(n): Ghost<int>,
)
    requires
        0 <= n,
        glyphs_known(glyphs@, row_at(rows, n)),
        drawn(old(dots)@, rows, n * GLYPH_HEIGHT),
    ensures
        drawn(final(dots)@, rows, (n + 1) * GLYPH_HEIGHT),
{
    let height = GLYPH_HEIGHT as usize;
    let ghost row = row_at(rows, n);
    let mut line: usize = 0;
    while line < height
        invariant
            0 <= n,
            line <= height == GLYPH_HEIGHT,
            row == row_at(rows, n),
            glyphs_known(glyphs@, row),
            drawn(dots@, rows, n * GLYPH_HEIGHT + line),
        decreases height - line,
    {
        let ghost before = dots@;
        let ghost y = n * GLYPH_HEIGHT + line;
        add_line(dots, glyphs, line, Ghost(row));
        assert forall|k: int| 0 <= k < dots@.len() implies #[trigger] dots@[k] == (if is_black(
            rows,
            k % PAGE_WIDTH as int,
            k / PAGE_WIDTH as int,
        ) {
            0u8
        } else {
            255u8
        }) by {
            if k < before.len() {
                assert(dots@[k] == before[k]);
            } else {
                let x = k - before.len();
                assert(k == y * PAGE_WIDTH + x);
                assert(k / PAGE_WIDTH as int == y);
                assert(k % PAGE_WIDTH as int == x);
                assert(dots@[before.len() + x] == dots@[k]);
                lemma_row_is_black(rows, n, x, line as int);
            }
        }
        line = line + 1;
    }
}

/// The text as a PNG image, page below page.
pub fn render_to_png(text: &str) -> (png: Vec<u8>)
    requires
        renderable(text@),
    ensures
        png@ == png_form(
            PAGE_WIDTH as int,
            image_height(text_rows(text@).len()) as int,
            image_dots(text_rows(text@)),
        ),
{
    let rows = wrap_into_rows(text);
    let ghost all = views(rows@);
    let count = rows.len();
    assert(all.len() == count);
    let per_page = ROWS_PER_PAGE as usize;
    let pages: usize = if count == 0 {
        1
    } else {
        (count - 1) / per_page + 1
    };
    assert(pages == page_count(all.len()));
    let lines = pages * per_page;
    let mut dots: Vec<u8> = Vec::new();
    let mut n: usize = 0;
    while n < lines
        invariant
            n <= lines,
            count == rows@.len(),
            all == views(rows@),
            drawn(dots@, all, n * GLYPH_HEIGHT),
        decreases lines - n,
    {
        let glyphs = if n < count {
            assert(all[n as int] == rows@[n as int]@);
            find_glyphs(rows[n].as_str())
        } else {
            Vec::new()
        };
        assert(glyphs_known(glyphs@, row_at(all, n as int)));
        add_row(&mut dots, &glyphs, Ghost(all), Ghost(n as int));
        n = n + 1;
    }
    assert(dots@ =~= image_dots(all));
    encode_png(PAGE_WIDTH, pages as u32 * PAGE_HEIGHT, dots)
}

/// The text as an image, where its kind allows it and it pays.
pub fn render_if_profitable(text: &str, label: Option<String>) -> (r: Option<Vec<u8>>)
    requires
        renderable(text@),
    ensures
        r is Some <==> eligible(content_kind(text@, option_view(label))) && profitable(text@),
        r matches Some(png) ==> png@ == png_form(
            PAGE_WIDTH as int,
            image_height(text_rows(text@).len()) as int,
            image_dots(text_rows(text@)),
        ),
{
    let kind = detect(text, label);
    if !eligible_kind(&kind) || !is_profitable(text) {
        return None;
    }
    Some(render_to_png(text))
}

/// No row is longer than a page is wide.
pub proof fn rows_fit(text: Seq<char>, i: int)
    requires
        0 <= i < text_rows(text).len(),
    ensures
        text_rows(text)[i].len() <= COLUMNS,
{
    lemma_rows_fit(split_at_char(text, '\n'));
}

proof fn lemma_line_rows_fit(line: Seq<char>)
    ensures
        forall|i: int| 0 <= i < line_rows(line).len() ==> (#[trigger] line_rows(line)[i]).len()
            <= COLUMNS,
    decreases line.len(),
{
    if line.len() > COLUMNS {
        lemma_line_rows_fit(line.skip(COLUMNS as int));
        let rest = line_rows(line.skip(COLUMNS as int));
        assert forall|i: int| 0 <= i < line_rows(line).len() implies (#[trigger] line_rows(
            line,
        )[i]).len() <= COLUMNS by {
            if i > 0 {
                assert(line_rows(line)[i] == rest[i - 1]);
            }
        }
    }
}

proof fn lemma_rows_fit(lines: Seq<Seq<char>>)
    ensures
        forall|i: int|
            0 <= i < rows_of_lines(lines).len() ==> (#[trigger] rows_of_lines(lines)[i]).len()
                <= COLUMNS,
    decreases lines.len(),
{
    if lines.len() > 0 {
        lemma_rows_fit(lines.drop_last());
        lemma_line_rows_fit(lines.last());
        let head = rows_of_lines(lines.drop_last());
        assert forall|i: int| 0 <= i < rows_of_lines(lines).len() implies (
        #[trigger] rows_of_lines(lines)[i]).len() <= COLUMNS by {
            if i >= head.len() {
                assert(rows_of_lines(lines)[i] == line_rows(lines.last())[i - head.len()]);
            }
        }
    }
}

/// Beyond the last row everything is white.
pub proof fn the_rest_is_white(rows: Seq<Seq<char>>, x: int, y: int)
    requires
        rows.len() * GLYPH_HEIGHT <= y,
    ensures
        !is_black(rows, x, y),
{
}

/// Tokens are counted piece by piece where no word goes over from one piece into the next. Spaces are
/// none, a run of letters and digits is one, and so is any other character.
pub proof fn tokens_add_up(a: Seq<char>, b: Seq<char>)
    requires
        a.len() > 0 && b.len() > 0 ==> !(alphanumeric(a.last()) && alphanumeric(b[0])),
    ensures
        token_count(a + b) == token_count(a) + token_count(b),
    decreases b.len(),
{
    let all = a + b;
    if b.len() == 0 {
        assert(all =~= a);
    } else {
        tokens_add_up(a, b.drop_last());
        assert(all.drop_last() =~= a + b.drop_last());
        if b.len() == 1 {
            if a.len() > 0 {
                assert(all[all.len() - 2] == a.last());
            }
        } else {
            assert(all[all.len() - 2] == b[b.len() - 2]);
        }
    }
}

/// A run of letters and digits is one token, a space none, and any other character one.
pub proof fn runs_are_tokens(word: Seq<char>, c: char)
    requires
        word.len() > 0,
        forall|i: int| 0 <= i < word.len() ==> alphanumeric(#[trigger] word[i]),
    ensures
        token_count(word) == 1,
        !alphanumeric(c) && is_space(c) ==> token_count(seq![c]) == 0,
        !alphanumeric(c) && !is_space(c) ==> token_count(seq![c]) == 1,
    decreases word.len(),
{
    assert(seq![c].drop_last() =~= Seq::<char>::empty());
    assert(token_count(seq![c].drop_last()) == 0);
    let rest = word.drop_last();
    if word.len() > 1 {
        assert forall|i: int| 0 <= i < rest.len() implies alphanumeric(#[trigger] rest[i]) by {
            assert(rest[i] == word[i]);
        }
        runs_are_tokens(rest, c);
        assert(alphanumeric(word[word.len() - 1]) && alphanumeric(word[word.len() - 2]));
    } else {
        assert(alphanumeric(word[0]));
        assert(token_count(rest) == 0);
    }
}

/// An image pays for a text that is not empty and has at most five characters to two tokens. One of a
/// diff, of search results or of anything that is read exactly is never made.
pub proof fn dense_texts_pay(text: Seq<char>, label: Seq<char>)
    ensures
        token_count(text) > 0 ==> (profitable(text) <==> 2 * text.len() <= 5 * token_count(text)),
        token_count(text) == 0 ==> (profitable(text) <==> 1 <= text.len() <= 2),
        eligible(KindModel::Json) && eligible(KindModel::Log) && eligible(KindModel::PlainText),
        !eligible(KindModel::Diff) && !eligible(KindModel::SearchResults) && !eligible(
            KindModel::Other(label),
        ),
{
    if token_count(text) > 0 && text.len() == 0 {
        assert(token_count(text) == 0);
    }
}

/// A line of up to 312 characters is a row, and a longer one has 312 in its first row. Each line starts a
/// row.
pub proof fn rows_are_filled(line: Seq<char>, lines: Seq<Seq<char>>)
    ensures
        line.len() <= 312 ==> line_rows(line) == seq![line],
        line.len() > 312 ==> line_rows(line) == seq![line.take(312)] + line_rows(line.skip(312)),
        rows_of_lines(lines.push(line)) == rows_of_lines(lines) + line_rows(line),
        rows_of_lines(seq![]) == Seq::<Seq<char>>::empty(),
{
    assert(lines.push(line).drop_last() =~= lines);
}

/// The characters of all rows, one row after the other.
pub open spec fn characters_of(rows: Seq<Seq<char>>) -> Seq<char>
    decreases rows.len(),
{
    if rows.len() == 0 {
        seq![]
    } else {
        rows[0] + characters_of(rows.drop_first())
    }
}

/// The rows of a line hold its characters, all and in their sequence.
pub proof fn rows_keep_all_characters(line: Seq<char>)
    ensures
        characters_of(line_rows(line)) == line,
    decreases line.len(),
{
    if line.len() <= COLUMNS {
        assert(seq![line].drop_first() =~= Seq::<Seq<char>>::empty());
        assert(characters_of(seq![line].drop_first()) =~= Seq::<char>::empty());
        assert(characters_of(line_rows(line)) =~= line);
    } else {
        let rest = line.skip(COLUMNS as int);
        rows_keep_all_characters(rest);
        let out = line_rows(line);
        assert(out.drop_first() =~= line_rows(rest));
        assert(characters_of(out) =~= line);
    }
}

/// The dot at `(dx, dy)` of the glyph in a column and row of text stands four dots from the left, and
/// five dots further for each column and eight lower for each row. It is black just where the glyph sets
/// it; characters without a glyph are white.
pub proof fn glyphs_are_drawn(rows: Seq<Seq<char>>, row: int, col: int, dx: int, dy: int)
    requires
        0 <= row < rows.len(),
        0 <= col < 312,
        0 <= dx < 5,
        0 <= dy < 8,
    ensures
        ({
            let x = 4 + 5 * col + dx;
            let y = 8 * row + dy;
            &&& col < rows[row].len() ==> (is_black(rows, x, y) <==> font_glyph(rows[row][col]) is Some
                && (font_glyph(rows[row][col])->0)[dy][dx])
            &&& col >= rows[row].len() ==> !is_black(rows, x, y)
        }),
{
    let x = 4 + 5 * col + dx;
    let y = 8 * row + dy;
    assert(y / 8 == row && y % 8 == dy);
    assert((x - 4) / 5 == col && (x - 4) % 5 == dx);
}

/// The margins are white.
pub proof fn margins_are_white(rows: Seq<Seq<char>>, x: int, y: int)
    requires
        x < 4 || x >= 1564,
    ensures
        !is_black(rows, x, y),
{
}

/// An image is 1568 dots wide and 728 high for each page of 91 rows, with one page at least. Its dots
/// are told line by line, black as 0 and white as 255.
pub proof fn dots_are_told_by_line(rows: Seq<Seq<char>>, x: int, y: int)
    requires
        0 <= x < 1568,
        0 <= y < image_height(rows.len()),
    ensures
        image_height(rows.len()) == 728 * page_count(rows.len()),
        rows.len() > 0 ==> 91 * (page_count(rows.len()) - 1) < rows.len() <= 91 * page_count(rows.len()),
        rows.len() == 0 ==> page_count(rows.len()) == 1,
        image_dots(rows).len() == 1568 * image_height(rows.len()),
        1568 * y + x < image_dots(rows).len(),
        image_dots(rows)[1568 * y + x] == (if is_black(rows, x, y) {
            0u8
        } else {
            255u8
        }),
{
    let k = 1568 * y + x;
    assert(k % 1568 == x && k / 1568 == y);
}

proof fn lemma_first_line(line: Seq<char>, lines: Seq<Seq<char>>)
    ensures
        rows_of_lines(seq![line] + lines) == line_rows(line) + rows_of_lines(lines),
    decreases lines.len(),
{
    let all = seq![line] + lines;
    if lines.len() == 0 {
        let none = Seq::<Seq<char>>::empty();
        assert(all.drop_last() =~= none);
        assert(lines =~= none);
        assert(all.last() == line);
        assert(rows_of_lines(none) =~= none);
        assert(rows_of_lines(all) == none + line_rows(line));
        assert(none + line_rows(line) =~= line_rows(line) + none);
    } else {
        lemma_first_line(line, lines.drop_last());
        assert(all.drop_last() =~= seq![line] + lines.drop_last());
        assert(rows_of_lines(all) =~= line_rows(line) + rows_of_lines(lines));
    }
}

/// The rows of a text are those of its first line, then those of the rest. A text without a break is one
/// line.
pub proof fn rows_follow_the_lines(line: Seq<char>, rest: Seq<char>)
    requires
        !line.contains('\n'),
    ensures
        text_rows(line) == line_rows(line),
        text_rows(line + seq!['\n'] + rest) == line_rows(line) + text_rows(rest),
{
    pieces_stand_between(line, rest, '\n');
    lemma_first_line(line, seq![]);
    assert(seq![line] + Seq::<Seq<char>>::empty() =~= seq![line]);
    assert(line_rows(line) + rows_of_lines(Seq::<Seq<char>>::empty()) =~= line_rows(line));
    lemma_first_line(line, split_at_char(rest, '\n'));
}

} // verus!
