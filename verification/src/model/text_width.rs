//! Pure terminal-width helpers: the char-index <-> display-column
//! conversions shared by the file-view renderer, the hardware-cursor
//! positioning, and click-to-char mapping.

use vstd::prelude::*;
use unicode_width::UnicodeWidthChar;
use crate::text::chars_of;

verus! {

/// The displayed width per `unicode-width` of a char that is neither
/// printable ASCII nor a C0/C1 control character.
pub uninterp spec fn unicode_table_width(c: char) -> Option<usize>;

/// The displayed width of `c` in columns per `unicode-width`: one column
/// for printable ASCII, `None` for a C0 or C1 control character, the
/// table's width otherwise.
pub open spec fn unicode_char_width(c: char) -> Option<usize> {
    if 0x20 <= (c as u32) < 0x7f {
        Some(1usize)
    } else if (c as u32) < 0x20 || (0x7f <= (c as u32) < 0xa0) {
        None
    } else {
        unicode_table_width(c)
    }
}

/// `UnicodeWidthChar::width` of `unicode-width`.
#[verifier::external_body]
fn char_width_lookup(c: char) -> (w: Option<usize>)
    ensures
        w == unicode_char_width(c),
        (c as u32) >= 0xa0 ==> w == unicode_table_width(c),
        w matches Some(n) ==> n <= 3,
{
    c.width()
}

/// The terminal-cell width of one char: the table width, with an
/// unknown width (a control character) counted as 1.
pub open spec fn cell_width(c: char) -> nat {
    match unicode_char_width(c) {
        Some(n) => n as nat,
        None => 1,
    }
}

/// The cells a char sequence occupies when rendered from column 0.
pub open spec fn width_of(cs: Seq<char>) -> nat
    decreases cs.len(),
{
    if cs.len() == 0 {
        0
    } else {
        width_of(cs.drop_last()) + cell_width(cs.last())
    }
}

/// The char index that display column `col` falls in, scanning from char
/// `i` at column `acc`: the first char whose cells extend past `col`, or
/// the char count (EOL).
pub open spec fn col_index_from(cs: Seq<char>, i: int, acc: nat, col: nat) -> nat
    decreases cs.len() - i,
{
    if i < 0 || i >= cs.len() {
        cs.len()
    } else if acc + cell_width(cs[i]) > col {
        i as nat
    } else {
        col_index_from(cs, i + 1, acc + cell_width(cs[i]), col)
    }
}

/// The char index that display column `col` refers to in `cs`.
pub open spec fn col_to_index(cs: Seq<char>, col: nat) -> nat {
    col_index_from(cs, 0, 0, col)
}

/// The terminal-cell width of one char: wide (CJK) chars are 2, combining
/// marks 0; an unknown width is treated as 1.
pub fn char_display_width(c: char) -> (w: usize)
    ensures
        w == cell_width(c),
        w <= 3,
{
    match char_width_lookup(c) {
        Some(n) => n,
        None => 1,
    }
}

/// The width of the first `n` chars.
fn prefix_width(cs: &Vec<char>, n: usize) -> (w: usize)
    requires
        n <= cs@.len(),
        3 * cs@.len() <= usize::MAX,
    ensures
        w == width_of(cs@.take(n as int)),
{
    let mut w: usize = 0;
    let mut i: usize = 0;
    while i < n
        invariant
            n <= cs@.len(),
            3 * cs@.len() <= usize::MAX,
            i <= n,
            w == width_of(cs@.take(i as int)),
            w <= 3 * i,
        decreases n - i,
    {
        assert(cs@.take(i + 1).drop_last() =~= cs@.take(i as int));
        let cw = char_display_width(cs[i]);
        w = w + cw;
        i = i + 1;
    }
    w
}

/// The number of terminal cells `s` occupies when rendered at display
/// column 0.
pub fn display_width(s: &str) -> (w: usize)
    requires
        3 * s@.len() <= usize::MAX,
    ensures
        w == width_of(s@),
{
    let cs = chars_of(s);
    let n = cs.len();
    let w = prefix_width(&cs, n);
    assert(cs@.take(n as int) =~= s@);
    w
}

/// The display (cell) column of char index `idx` in `line` — the display
/// width of the prefix `[0, idx)`; `idx` beyond EOL clamps to EOL.
/// Combining marks (width 0) share their base char's column.
pub fn char_index_to_display_col(line: &str, idx: usize) -> (col: usize)
    requires
        3 * line@.len() <= usize::MAX,
    ensures
        col == width_of(line@.take(if idx < line@.len() { idx as int } else { line@.len() as int })),
{
    let cs = chars_of(line);
    let n = if idx < cs.len() {
        idx
    } else {
        cs.len()
    };
    prefix_width(&cs, n)
}

/// The char index a clicked display column `col` refers to in `line`: a
/// column inside a wide char maps to that char, a column exactly at a
/// char boundary maps to the following char, and a column at or past the
/// line's total width maps to EOL (the char count).
pub fn display_col_to_char_index(line: &str, col: usize) -> (i: usize)
    requires
        3 * line@.len() <= usize::MAX,
    ensures
        i == col_to_index(line@, col as nat),
{
    let cs = chars_of(line);
    let mut acc: usize = 0;
    let mut i: usize = 0;
    while i < cs.len()
        invariant
            cs@ == line@,
            3 * cs@.len() <= usize::MAX,
            i <= cs@.len(),
            acc <= 3 * i,
            col_to_index(cs@, col as nat) == col_index_from(cs@, i as int, acc as nat, col as nat),
        decreases cs@.len() - i,
    {
        let w = char_display_width(cs[i]);
        if acc + w > col {
            return i;
        }
        acc = acc + w;
        i = i + 1;
    }
    cs.len()
}

proof fn lemma_width_step(cs: Seq<char>, j: int)
    requires
        0 <= j < cs.len(),
    ensures
        width_of(cs.take(j + 1)) == width_of(cs.take(j)) + cell_width(cs[j]),
{
    assert(cs.take(j + 1).drop_last() =~= cs.take(j));
}

proof fn lemma_width_mono(cs: Seq<char>, j: int, k: int)
    requires
        0 <= j <= k <= cs.len(),
    ensures
        width_of(cs.take(j)) <= width_of(cs.take(k)),
    decreases k - j,
{
    if j < k {
        lemma_width_mono(cs, j, k - 1);
        lemma_width_step(cs, k - 1);
    }
}

proof fn lemma_scan_skips(cs: Seq<char>, j: int, k: int, col: nat)
    requires
        0 <= j <= k <= cs.len(),
        width_of(cs.take(k)) <= col,
    ensures
        col_index_from(cs, j, width_of(cs.take(j)), col) == col_index_from(
            cs,
            k,
            width_of(cs.take(k)),
            col,
        ),
    decreases k - j,
{
    if j < k {
        lemma_width_step(cs, j);
        lemma_width_mono(cs, j + 1, k);
        lemma_scan_skips(cs, j + 1, k, col);
    }
}

/// A display column inside the cells of char `i` (from its start column
/// up to, not including, the next char's) maps back to char `i`; in
/// particular the start column of a char with a non-zero width maps to
/// that char.
pub proof fn lemma_col_inside_char(cs: Seq<char>, i: int, col: nat)
    requires
        0 <= i < cs.len(),
        width_of(cs.take(i)) <= col < width_of(cs.take(i + 1)),
    ensures
        col_to_index(cs, col) == i,
{
    lemma_scan_skips(cs, 0, i, col);
    assert(cs.take(0) =~= Seq::<char>::empty());
    lemma_width_step(cs, i);
}

/// A display column at or past the line's total width maps to the end of
/// the line (the char count).
pub proof fn lemma_col_past_end(cs: Seq<char>, col: nat)
    requires
        width_of(cs) <= col,
    ensures
        col_to_index(cs, col) == cs.len(),
{
    assert(cs.take(cs.len() as int) =~= cs);
    lemma_scan_skips(cs, 0, cs.len() as int, col);
    assert(cs.take(0) =~= Seq::<char>::empty());
}

/// The column of the end of the line is the line's display width, and
/// columns never decrease along the line.
pub proof fn lemma_eol_column(cs: Seq<char>, i: int, k: int)
    requires
        0 <= i <= k <= cs.len(),
    ensures
        width_of(cs.take(cs.len() as int)) == width_of(cs),
        width_of(cs.take(i)) <= width_of(cs.take(k)),
{
    assert(cs.take(cs.len() as int) =~= cs);
    lemma_width_mono(cs, i, k);
}

proof fn lemma_col_found(cs: Seq<char>, k: int, col: nat)
    requires
        0 <= k <= cs.len(),
        width_of(cs.take(k)) <= col < width_of(cs),
    ensures
        col_to_index(cs, col) < cs.len(),
    decreases cs.len() - k,
{
    if k == cs.len() {
        assert(cs.take(k) =~= cs);
    } else if col < width_of(cs.take(k + 1)) {
        lemma_col_inside_char(cs, k, col);
    } else {
        lemma_col_found(cs, k + 1, col);
    }
}

/// A display column maps to the end of the line (the char count) exactly
/// when it is at or past the line's display width.
pub proof fn lemma_col_at_end(cs: Seq<char>, col: nat)
    ensures
        (col_to_index(cs, col) == cs.len()) <==> width_of(cs) <= col,
{
    if width_of(cs) <= col {
        lemma_col_past_end(cs, col);
    } else {
        assert(cs.take(0) =~= Seq::<char>::empty());
        lemma_col_found(cs, 0, col);
    }
}

/// The column of a char with a non-zero width maps back to that char.
pub proof fn lemma_col_round_trip(cs: Seq<char>, i: int)
    requires
        0 <= i < cs.len(),
        cell_width(cs[i]) > 0,
    ensures
        col_to_index(cs, width_of(cs.take(i))) == i,
{
    lemma_width_step(cs, i);
    lemma_col_inside_char(cs, i, width_of(cs.take(i)));
}

} // verus!
