use vstd::prelude::*;

use crate::grid::{field_ok, grid_ok, Field, Sudoku};

verus! {

/// ASCII whitespace: tab, line feed, vertical tab, form feed, carriage return, space.
pub open spec fn is_space(b: u8) -> bool {
    b == 9 || b == 10 || b == 11 || b == 12 || b == 13 || b == 32
}

/// The UTF-8 form of a three-byte Unicode whitespace character: U+1680,
/// U+2000 to U+200A, U+2028, U+2029, U+202F, U+205F and U+3000.
pub open spec fn is_wide_space(a: u8, b: u8, c: u8) -> bool {
    ||| a == 0xE1 && b == 0x9A && c == 0x80
    ||| a == 0xE2 && b == 0x80 && (0x80 <= c <= 0x8A || c == 0xA8 || c == 0xA9 || c == 0xAF)
    ||| a == 0xE2 && b == 0x81 && c == 0x9F
    ||| a == 0xE3 && b == 0x80 && c == 0x80
}

/// The length in bytes of the whitespace character that starts at byte `i`
/// of `s`, or 0 where none does. Whitespace is Unicode's White_Space in
/// UTF-8: the ASCII whitespace bytes, U+0085 and U+00A0 in two bytes, and
/// the three-byte characters of `is_wide_space`.
pub open spec fn space_len(s: Seq<u8>, i: int) -> int {
    if 0 <= i < s.len() {
        if is_space(s[i]) {
            1
        } else if s[i] == 0xC2 && i + 1 < s.len() && (s[i + 1] == 0x85 || s[i + 1] == 0xA0) {
            2
        } else if i + 2 < s.len() && is_wide_space(s[i], s[i + 1], s[i + 2]) {
            3
        } else {
            0
        }
    } else {
        0
    }
}

/// The cell that a one-byte token stands for: `*` is blank, `1`..`9` a digit.
pub open spec fn field_of_byte(b: u8) -> Option<Field> {
    if b == 42 {
        Some(Field::Empty)
    } else if 49 <= b <= 57 {
        Some(Field::Filled((b - 48) as u8))
    } else {
        None
    }
}

/// The byte that stands for a cell.
pub open spec fn field_byte(f: Field) -> u8 {
    match f {
        Field::Empty => 42,
        Field::Filled(d) => (d + 48) as u8,
    }
}

/// Reads the tokens of `s` from byte `i` on, appending their cells to `acc`;
/// tokens are separated by whitespace (see `space_len`). Fails on a token
/// longer than one byte or one that stands for no cell.
pub open spec fn scan(s: Seq<u8>, i: int, acc: Seq<Field>) -> Option<Seq<Field>>
    decreases s.len() - i,
{
    if i < 0 || i >= s.len() {
        Some(acc)
    } else if space_len(s, i) > 0 {
        scan(s, i + space_len(s, i), acc)
    } else if i + 1 < s.len() && space_len(s, i + 1) == 0 {
        None
    } else {
        match field_of_byte(s[i]) {
            Some(f) => scan(s, i + 1, acc.push(f)),
            None => None,
        }
    }
}

/// The grid that text `s` describes: exactly 81 tokens, each `*` or a digit
/// from 1 to 9, separated by whitespace.
pub open spec fn parse(s: Seq<u8>) -> Option<Seq<Field>> {
    match scan(s, 0, Seq::empty()) {
        Some(cells) => if cells.len() == 81 {
            Some(cells)
        } else {
            None
        },
        None => None,
    }
}

/// The text form of a grid: its cells row by row, separated by spaces, each
/// row ending in a line feed.
pub open spec fn render(g: Seq<Field>) -> Seq<u8> {
    Seq::new(
        2 * g.len(),
        |j: int|
            if j % 2 == 0 {
                field_byte(g[j / 2])
            } else if (j / 2) % 9 == 8 {
                10u8
            } else {
                32u8
            },
    )
}

fn is_space_byte(b: u8) -> (r: bool)
    ensures
        r == is_space(b),
{
    b == 9 || b == 10 || b == 11 || b == 12 || b == 13 || b == 32
}

fn space_len_at(s: &[u8], i: usize) -> (r: usize)
    requires
        i < s@.len(),
    ensures
        r == space_len(s@, i as int),
        r <= 3,
{
    let n = s.len();
    let b = s[i];
    if is_space_byte(b) {
        1
    } else if b == 0xC2 && i + 1 < n && (s[i + 1] == 0x85 || s[i + 1] == 0xA0) {
        2
    } else if n - i > 2 {
        let c1 = s[i + 1];
        let c2 = s[i + 2];
        if (b == 0xE1 && c1 == 0x9A && c2 == 0x80) || (b == 0xE2 && c1 == 0x80 && ((0x80 <= c2
            && c2 <= 0x8A) || c2 == 0xA8 || c2 == 0xA9 || c2 == 0xAF)) || (b == 0xE2 && c1 == 0x81
            && c2 == 0x9F) || (b == 0xE3 && c1 == 0x80 && c2 == 0x80) {
            3
        } else {
            0
        }
    } else {
        0
    }
}

impl Sudoku {
    /// Reads a grid from UTF-8 text: one-byte tokens, `*` for a blank and
    /// `1`..`9` for a digit, exactly 81 of them, separated by any Unicode
    /// whitespace (ASCII whitespace, U+0085, U+00A0, U+1680, U+2000 to
    /// U+200A, U+2028, U+2029, U+202F, U+205F, U+3000).
    pub fn read_from(source: &[u8]) -> (r: Option<Sudoku>)
        ensures
            match r {
                Some(p) => p.wf() && parse(source@) == Some(p@),
                None => parse(source@) is None,
            },
    {
        let n = source.len();
        let mut fields: Vec<Field> = Vec::new();
        let mut i: usize = 0;
        while i < n
            invariant
                n == source@.len(),
                i <= n,
                scan(source@, 0, Seq::empty()) == scan(source@, i as int, fields@),
                forall|k: int| 0 <= k < fields@.len() ==> field_ok(#[trigger] fields@[k]),
            decreases n - i,
        {
            let b = source[i];
            let skip = space_len_at(source, i);
            if skip > 0 {
                i += skip;
            } else if i + 1 < n && space_len_at(source, i + 1) == 0 {
                return None;
            } else {
                let f = if b == 42 {
                    Field::Empty
                } else if 49 <= b && b <= 57 {
                    Field::Filled(b - 48)
                } else {
                    return None;
                };
                fields.push(f);
                i += 1;
            }
        }
        if fields.len() != 81 {
            return None;
        }
        Some(Sudoku::from_cells(fields))
    }

    /// The text form: nine lines of nine space-separated tokens.
    pub fn render(&self) -> (r: Vec<u8>)
        requires
            self.wf(),
        ensures
            r@ == render(self@),
    {
        let mut r: Vec<u8> = Vec::new();
        let mut k: usize = 0;
        while k < 81
            invariant
                self.wf(),
                k <= 81,
                r@.len() == 2 * k,
                forall|j: int| 0 <= j < 2 * k ==> r@[j] == render(self@)[j],
            decreases 81 - k,
        {
            let b = match self.cell_at(k) {
                Field::Empty => 42u8,
                Field::Filled(d) => d + 48,
            };
            r.push(b);
            if k % 9 == 8 {
                r.push(10);
            } else {
                r.push(32);
            }
            k += 1;
        }
        assert(r@ =~= render(self@));
        r
    }
}

proof fn lemma_scan_render(g: Seq<Field>, m: int)
    requires
        grid_ok(g),
        0 <= m <= 81,
    ensures
        scan(render(g), 2 * m, g.take(m)) == Some(g),
    decreases 81 - m,
{
    let t = render(g);
    if m == 81 {
        assert(g.take(81) =~= g);
    } else {
        assert(field_ok(g[m]));
        assert(t[2 * m] == field_byte(g[m]));
        assert(field_of_byte(t[2 * m]) == Some(g[m]));
        assert(is_space(t[2 * m + 1]));
        assert(g.take(m).push(g[m]) =~= g.take(m + 1));
        lemma_scan_render(g, m + 1);
        assert(scan(t, 2 * m + 1, g.take(m + 1)) == scan(t, 2 * m + 2, g.take(m + 1)));
    }
}

/// Parsing the text form of a grid gives back the same grid, cell for cell.
pub proof fn parse_inverts_render(g: Seq<Field>)
    requires
        grid_ok(g),
    ensures
        parse(render(g)) == Some(g),
{
    lemma_scan_render(g, 0);
    assert(g.take(0) =~= Seq::<Field>::empty());
}

/// A whitespace character that starts before an ASCII byte ends at or before it.
proof fn lemma_space_stops_at_ascii(s: Seq<u8>, i: int, p: int)
    requires
        0 <= i < p < s.len(),
        s[p] < 0x80,
        space_len(s, i) > 0,
    ensures
        i + space_len(s, i) <= p,
{
}

proof fn lemma_scan_rejects_byte(s: Seq<u8>, i: int, acc: Seq<Field>, p: int)
    requires
        0 <= i <= p < s.len(),
        s[p] < 0x80,
        !is_space(s[p]),
        field_of_byte(s[p]) is None,
    ensures
        scan(s, i, acc) is None,
    decreases p - i,
{
    if i < p {
        if space_len(s, i) > 0 {
            lemma_space_stops_at_ascii(s, i, p);
            lemma_scan_rejects_byte(s, i + space_len(s, i), acc, p);
        } else if !(i + 1 < s.len() && space_len(s, i + 1) == 0) {
            if let Some(f) = field_of_byte(s[i]) {
                lemma_scan_rejects_byte(s, i + 1, acc.push(f), p);
            }
        }
    }
}

proof fn lemma_scan_rejects_long_token(s: Seq<u8>, i: int, acc: Seq<Field>, p: int)
    requires
        0 <= i <= p,
        p + 1 < s.len(),
        s[p] < 0x80,
        !is_space(s[p]),
        space_len(s, p + 1) == 0,
    ensures
        scan(s, i, acc) is None,
    decreases p - i,
{
    if i < p {
        if space_len(s, i) > 0 {
            lemma_space_stops_at_ascii(s, i, p);
            lemma_scan_rejects_long_token(s, i + space_len(s, i), acc, p);
        } else if !(i + 1 < s.len() && space_len(s, i + 1) == 0) {
            if let Some(f) = field_of_byte(s[i]) {
                lemma_scan_rejects_long_token(s, i + 1, acc.push(f), p);
            }
        }
    }
}

/// An ASCII byte that is neither whitespace nor `*` nor a digit from 1 to 9
/// (such as `0`, `L` or `$`), anywhere in the text, makes it unreadable.
pub proof fn stray_byte_is_rejected(s: Seq<u8>, p: int)
    requires
        0 <= p < s.len(),
        s[p] < 0x80,
        !is_space(s[p]),
        field_of_byte(s[p]) is None,
    ensures
        parse(s) is None,
{
    lemma_scan_rejects_byte(s, 0, Seq::empty(), p);
}

/// A token of two or more bytes that starts with an ASCII byte (such as
/// `22`), anywhere in the text, makes it unreadable.
pub proof fn long_token_is_rejected(s: Seq<u8>, p: int)
    requires
        0 <= p,
        p + 1 < s.len(),
        s[p] < 0x80,
        !is_space(s[p]),
        space_len(s, p + 1) == 0,
    ensures
        parse(s) is None,
{
    lemma_scan_rejects_long_token(s, 0, Seq::empty(), p);
}

} // verus!
