use vstd::prelude::*;

verus! {

/// One cell of the grid: blank, or holding a digit.
#[derive(Clone, Copy, Debug, PartialEq, Eq, Structural, Hash)]
pub enum Field {
    Empty,
    Filled(u8),
}

/// The three kinds of nine-cell view: a row, a column, a 3x3 block.
#[derive(Clone, Copy, Debug, PartialEq, Eq, Structural)]
pub enum Unit {
    Row,
    Col,
    Block,
}

/// A cell that the grid may hold: blank, or a digit from 1 to 9.
pub open spec fn field_ok(f: Field) -> bool {
    match f {
        Field::Empty => true,
        Field::Filled(d) => 1 <= d <= 9,
    }
}

/// Exactly 81 cells, each of them blank or a digit from 1 to 9.
pub open spec fn grid_ok(g: Seq<Field>) -> bool {
    &&& g.len() == 81
    &&& forall|k: int| 0 <= k < 81 ==> field_ok(#[trigger] g[k])
}

/// The linear index of the `k`-th cell of view `u` of the given kind.
pub open spec fn unit_cell(kind: Unit, u: int, k: int) -> int {
    match kind {
        Unit::Row => 9 * u + k,
        Unit::Col => u + 9 * k,
        Unit::Block => 27 * (u / 3) + 3 * (u % 3) + 9 * (k / 3) + k % 3,
    }
}

/// The block that holds linear index `i`, blocks numbered row-major.
pub open spec fn block_index(i: int) -> int {
    (i % 9) / 3 + 3 * ((i / 9) / 3)
}

/// The nine cells of view `u` of the given kind, in order.
pub open spec fn unit_view(g: Seq<Field>, kind: Unit, u: int) -> Seq<Field> {
    Seq::new(9, |k: int| g[unit_cell(kind, u, k)])
}

/// Every cell is filled and no two cells hold the same digit.
pub open spec fn distinct_filled(s: Seq<Field>) -> bool {
    &&& forall|k: int| 0 <= k < s.len() ==> #[trigger] s[k] != Field::Empty
    &&& forall|k: int, l: int| 0 <= k < l < s.len() ==> #[trigger] s[k] != #[trigger] s[l]
}

/// Every row, column and block is filled with pairwise distinct digits.
pub open spec fn grid_valid(g: Seq<Field>) -> bool {
    forall|kind: Unit, u: int|
        0 <= u < 9 ==> #[trigger] distinct_filled(unit_view(g, kind, u))
}

/// Digit `d` occurs in none of the row, column and block that hold index `i`.
pub open spec fn is_candidate(g: Seq<Field>, i: int, d: u8) -> bool {
    &&& !unit_view(g, Unit::Row, i / 9).contains(Field::Filled(d))
    &&& !unit_view(g, Unit::Col, i % 9).contains(Field::Filled(d))
    &&& !unit_view(g, Unit::Block, block_index(i)).contains(Field::Filled(d))
}

/// The candidates for index `i` among the digits `d..=9`, ascending.
pub open spec fn candidates_from(g: Seq<Field>, i: int, d: int) -> Seq<u8>
    decreases 10 - d,
{
    if d > 9 || d < 1 {
        Seq::empty()
    } else if is_candidate(g, i, d as u8) {
        seq![d as u8] + candidates_from(g, i, d + 1)
    } else {
        candidates_from(g, i, d + 1)
    }
}

/// Each view index lies in the grid.
pub proof fn lemma_unit_cell_bounds(kind: Unit, u: int, k: int)
    requires
        0 <= u < 9,
        0 <= k < 9,
    ensures
        0 <= unit_cell(kind, u, k) < 81,
{
}

/// A puzzle grid of 81 cells, row-major.
#[derive(Debug)]
pub struct Sudoku {
    fields: Vec<Field>,
}

impl View for Sudoku {
    type V = Seq<Field>;

    closed spec fn view(&self) -> Seq<Field> {
        self.fields@
    }
}

impl Clone for Sudoku {
    fn clone(&self) -> (r: Sudoku)
        ensures
            r@ == self@,
    {
        let n = self.fields.len();
        let mut fields: Vec<Field> = Vec::new();
        let mut k: usize = 0;
        while k < n
            invariant
                n == self@.len(),
                k <= n,
                fields@ == self@.take(k as int),
            decreases n - k,
        {
            fields.push(self.fields[k]);
            k += 1;
            assert(fields@ =~= self@.take(k as int));
        }
        assert(self@.take(n as int) =~= self@);
        Sudoku { fields }
    }
}

impl PartialEq for Sudoku {
    fn eq(&self, other: &Sudoku) -> (r: bool)
        ensures
            r == (self@ == other@),
    {
        if self.fields.len() != other.fields.len() {
            return false;
        }
        let n = self.fields.len();
        let mut k: usize = 0;
        while k < n
            invariant
                n == self@.len(),
                n == other@.len(),
                k <= n,
                forall|j: int| 0 <= j < k ==> self@[j] == other@[j],
            decreases n - k,
        {
            if self.fields[k] != other.fields[k] {
                return false;
            }
            k += 1;
        }
        assert(self@ =~= other@);
        true
    }
}

impl vstd::std_specs::cmp::PartialEqSpecImpl for Sudoku {
    open spec fn obeys_eq_spec() -> bool {
        true
    }

    open spec fn eq_spec(&self, other: &Sudoku) -> bool {
        self@ == other@
    }
}

impl Eq for Sudoku {}

fn cell_index(kind: Unit, u: usize, k: usize) -> (r: usize)
    requires
        u < 9,
        k < 9,
    ensures
        r == unit_cell(kind, u as int, k as int),
        r < 81,
{
    proof {
        lemma_unit_cell_bounds(kind, u as int, k as int);
    }
    match kind {
        Unit::Row => 9 * u + k,
        Unit::Col => u + 9 * k,
        Unit::Block => 27 * (u / 3) + 3 * (u % 3) + 9 * (k / 3) + k % 3,
    }
}

/// Whether `unit` holds the cell `f`.
fn holds(unit: &Vec<Field>, f: Field) -> (r: bool)
    ensures
        r == unit@.contains(f),
{
    let mut k: usize = 0;
    while k < unit.len()
        invariant
            k <= unit@.len(),
            forall|j: int| 0 <= j < k ==> unit@[j] != f,
        decreases unit@.len() - k,
    {
        if unit[k] == f {
            return true;
        }
        k += 1;
    }
    false
}

/// Whether every cell of `unit` is filled, with pairwise distinct digits.
fn all_distinct_filled(unit: &Vec<Field>) -> (r: bool)
    ensures
        r == distinct_filled(unit@),
{
    let n = unit.len();
    let mut k: usize = 0;
    while k < n
        invariant
            n == unit@.len(),
            k <= n,
            forall|a: int| 0 <= a < k ==> #[trigger] unit@[a] != Field::Empty,
            forall|a: int, b: int| 0 <= a < b < k ==> #[trigger] unit@[a] != #[trigger] unit@[b],
        decreases n - k,
    {
        if unit[k] == Field::Empty {
            return false;
        }
        let mut l: usize = 0;
        while l < k
            invariant
                n == unit@.len(),
                l <= k < n,
                forall|a: int| 0 <= a < l ==> #[trigger] unit@[a] != unit@[k as int],
            decreases k - l,
        {
            if unit[l] == unit[k] {
                return false;
            }
            l += 1;
        }
        k += 1;
    }
    true
}

impl Sudoku {
    /// The grid holding the given cells.
    pub(crate) fn from_cells(fields: Vec<Field>) -> (r: Sudoku)
        requires
            grid_ok(fields@),
        ensures
            r@ == fields@,
            r.wf(),
    {
        Sudoku { fields }
    }

    /// The cell at linear index `i`.
    pub fn cell_at(&self, i: usize) -> (r: Field)
        requires
            self.wf(),
            i < 81,
        ensures
            r == self@[i as int],
    {
        self.fields[i]
    }

    /// The grid holds 81 cells, each blank or a digit from 1 to 9.
    pub open spec fn wf(&self) -> bool {
        grid_ok(self@)
    }

    /// The nine cells of view `u` of the given kind.
    pub fn unit(&self, kind: Unit, u: usize) -> (r: Vec<Field>)
        requires
            self.wf(),
            u < 9,
        ensures
            r@ == unit_view(self@, kind, u as int),
    {
        let mut r: Vec<Field> = Vec::new();
        let mut k: usize = 0;
        while k < 9
            invariant
                self.wf(),
                u < 9,
                k <= 9,
                r@.len() == k,
                forall|j: int| 0 <= j < k ==> r@[j] == self@[unit_cell(kind, u as int, j)],
            decreases 9 - k,
        {
            let idx = cell_index(kind, u, k);
            r.push(self.fields[idx]);
            k += 1;
        }
        assert(r@ =~= unit_view(self@, kind, u as int));
        r
    }

    /// The row that holds index `index`.
    pub fn row_of(&self, index: usize) -> (r: Vec<Field>)
        requires
            self.wf(),
            index < 81,
        ensures
            r@ == unit_view(self@, Unit::Row, index as int / 9),
    {
        self.unit(Unit::Row, index / 9)
    }

    /// The column that holds index `index`.
    pub fn col_of(&self, index: usize) -> (r: Vec<Field>)
        requires
            self.wf(),
            index < 81,
        ensures
            r@ == unit_view(self@, Unit::Col, index as int % 9),
    {
        self.unit(Unit::Col, index % 9)
    }

    /// The 3x3 block that holds index `index`.
    pub fn square_of(&self, index: usize) -> (r: Vec<Field>)
        requires
            self.wf(),
            index < 81,
        ensures
            r@ == unit_view(self@, Unit::Block, block_index(index as int)),
    {
        let col_index = (index % 9) / 3;
        let row_index = (index / 9) / 3;
        self.unit(Unit::Block, col_index + 3 * row_index)
    }
    /// Puts digit `value` into the cell at `index`.
    pub(crate) fn set_field(&mut self, index: usize, value: u8)
        requires
            old(self).wf(),
            index < 81,
            1 <= value <= 9,
        ensures
            final(self)@ == old(self)@.update(index as int, Field::Filled(value)),
            final(self).wf(),
    {
        self.fields.set(index, Field::Filled(value));
    }

    /// Blanks the cell at `index`.
    pub(crate) fn clear_field(&mut self, index: usize)
        requires
            old(self).wf(),
            index < 81,
        ensures
            final(self)@ == old(self)@.update(index as int, Field::Empty),
            final(self).wf(),
    {
        self.fields.set(index, Field::Empty);
    }

    /// The 81 cells, row-major.
    pub fn into_iter(self) -> (r: Vec<Field>)
        ensures
            r@ == self@,
    {
        self.fields
    }

    /// The first blank cell at or after `from`, if any.
    pub(crate) fn get_first_empty_index(&self, from: usize) -> (r: Option<usize>)
        requires
            self.wf(),
            from <= 81,
        ensures
            match r {
                Some(i) => {
                    &&& from <= i < 81
                    &&& self@[i as int] == Field::Empty
                    &&& forall|k: int| from <= k < i ==> self@[k] != Field::Empty
                },
                None => forall|k: int| from <= k < 81 ==> self@[k] != Field::Empty,
            },
    {
        let mut i: usize = from;
        while i < 81
            invariant
                self.wf(),
                from <= i <= 81,
                forall|k: int| from <= k < i ==> self@[k] != Field::Empty,
            decreases 81 - i,
        {
            if self.fields[i] == Field::Empty {
                return Some(i);
            }
            i += 1;
        }
        None
    }

    /// The digits that the row, column and block of `index` all lack, ascending.
    pub(crate) fn get_possible_values(&self, index: usize) -> (r: Vec<u8>)
        requires
            self.wf(),
            index < 81,
        ensures
            r@ == candidates_from(self@, index as int, 1),
            forall|k: int| 0 <= k < r@.len() ==> 1 <= #[trigger] r@[k] <= 9,
    {
        let row = self.row_of(index);
        let col = self.col_of(index);
        let square = self.square_of(index);
        let mut r: Vec<u8> = Vec::new();
        let mut value: u8 = 1;
        while value <= 9
            invariant
                1 <= value <= 10,
                row@ == unit_view(self@, Unit::Row, index as int / 9),
                col@ == unit_view(self@, Unit::Col, index as int % 9),
                square@ == unit_view(self@, Unit::Block, block_index(index as int)),
                candidates_from(self@, index as int, 1) == r@ + candidates_from(
                    self@,
                    index as int,
                    value as int,
                ),
                forall|k: int| 0 <= k < r@.len() ==> 1 <= #[trigger] r@[k] <= 9,
            decreases 10 - value,
        {
            let f = Field::Filled(value);
            let not_in_row = !holds(&row, f);
            let not_in_col = !holds(&col, f);
            let not_in_square = !holds(&square, f);
            if not_in_row && not_in_col && not_in_square {
                let ghost before = r@;
                r.push(value);
                assert(seq![value] + candidates_from(self@, index as int, value + 1) == candidates_from(self@, index as int, value as int));
                assert(r@ + candidates_from(self@, index as int, value + 1) =~= before + candidates_from(self@, index as int, value as int));
            }
            value += 1;
        }
        assert(r@ + candidates_from(self@, index as int, 10) =~= r@);
        r
    }

    /// All nine views of the given kind, in order.
    fn units(&self, kind: Unit) -> (r: Vec<Vec<Field>>)
        requires
            self.wf(),
        ensures
            r@.len() == 9,
            forall|u: int| 0 <= u < 9 ==> (#[trigger] r@[u])@ == unit_view(self@, kind, u),
    {
        let mut r: Vec<Vec<Field>> = Vec::new();
        let mut u: usize = 0;
        while u < 9
            invariant
                self.wf(),
                u <= 9,
                r@.len() == u,
                forall|v: int| 0 <= v < u ==> (#[trigger] r@[v])@ == unit_view(self@, kind, v),
            decreases 9 - u,
        {
            r.push(self.unit(kind, u));
            u += 1;
        }
        r
    }

    /// The nine rows, top to bottom.
    pub fn rows(&self) -> (r: Vec<Vec<Field>>)
        requires
            self.wf(),
        ensures
            r@.len() == 9,
            forall|u: int| 0 <= u < 9 ==> (#[trigger] r@[u])@ == unit_view(self@, Unit::Row, u),
    {
        self.units(Unit::Row)
    }

    /// The nine columns, left to right.
    pub fn cols(&self) -> (r: Vec<Vec<Field>>)
        requires
            self.wf(),
        ensures
            r@.len() == 9,
            forall|u: int| 0 <= u < 9 ==> (#[trigger] r@[u])@ == unit_view(self@, Unit::Col, u),
    {
        self.units(Unit::Col)
    }

    /// The nine 3x3 blocks, row-major.
    pub fn squares(&self) -> (r: Vec<Vec<Field>>)
        requires
            self.wf(),
        ensures
            r@.len() == 9,
            forall|u: int| 0 <= u < 9 ==> (#[trigger] r@[u])@ == unit_view(self@, Unit::Block, u),
    {
        self.units(Unit::Block)
    }

    /// Whether every row, column and block is filled with distinct digits.
    pub fn is_valid(&self) -> (r: bool)
        requires
            self.wf(),
        ensures
            r == grid_valid(self@),
    {
        let rows = self.rows();
        let cols = self.cols();
        let squares = self.squares();
        let mut u: usize = 0;
        while u < 9
            invariant
                self.wf(),
                u <= 9,
                rows@.len() == 9,
                cols@.len() == 9,
                squares@.len() == 9,
                forall|v: int| 0 <= v < 9 ==> (#[trigger] rows@[v])@ == unit_view(self@, Unit::Row, v),
                forall|v: int| 0 <= v < 9 ==> (#[trigger] cols@[v])@ == unit_view(self@, Unit::Col, v),
                forall|v: int| 0 <= v < 9 ==> (#[trigger] squares@[v])@ == unit_view(self@, Unit::Block, v),
                forall|kind: Unit, v: int|
                    0 <= v < u ==> #[trigger] distinct_filled(unit_view(self@, kind, v)),
            decreases 9 - u,
        {
            if !all_distinct_filled(&rows[u]) || !all_distinct_filled(&cols[u])
                || !all_distinct_filled(&squares[u]) {
                return false;
            }
            assert forall|kind: Unit, v: int|
                0 <= v < u + 1 implies #[trigger] distinct_filled(unit_view(self@, kind, v)) by {
                if v == u {
                    match kind {
                        Unit::Row => {},
                        Unit::Col => {},
                        Unit::Block => {},
                    }
                }
            }
            u += 1;
        }
        true
    }
}

} // verus!
