use vstd::prelude::*;

use crate::grid::{
    block_index, candidates_from, grid_ok, lemma_unit_cell_bounds, grid_valid, is_candidate, unit_cell, unit_view, Field,
    Sudoku, Unit,
};

verus! {

/// Depth-first search from index `i`: blanks before `i` are never revisited,
/// blanks from `i` on are filled in index order, each with its candidates
/// tried in ascending order; the first completed grid that is valid wins.
pub open spec fn search(g: Seq<Field>, i: int) -> Option<Seq<Field>>
    decreases 82 - i, 0int,
{
    if i >= 81 {
        if grid_valid(g) {
            Some(g)
        } else {
            None
        }
    } else if g[i] != Field::Empty {
        search(g, i + 1)
    } else {
        try_each(g, i, candidates_from(g, i, 1))
    }
}

/// Tries the digits of `cs` in order at the blank index `i`, keeping the
/// first that leads to a solution.
pub open spec fn try_each(g: Seq<Field>, i: int, cs: Seq<u8>) -> Option<Seq<Field>>
    decreases 81 - i, cs.len(),
{
    if cs.len() == 0 {
        None
    } else {
        let r = search(g.update(i, Field::Filled(cs[0])), i + 1);
        if r is Some {
            r
        } else {
            try_each(g, i, cs.drop_first())
        }
    }
}

/// What solving grid `g` yields: the completed grid, or none when it is unsolvable.
pub open spec fn solution(g: Seq<Field>) -> Option<Seq<Field>> {
    search(g, 0)
}

/// `c` fills in `g`: same length, and every filled cell of `g` is kept.
pub open spec fn extends(c: Seq<Field>, g: Seq<Field>) -> bool {
    &&& c.len() == g.len()
    &&& forall|k: int| 0 <= k < g.len() && g[k] != Field::Empty ==> #[trigger] c[k] == g[k]
}

proof fn lemma_fill_keeps_grid_ok(g: Seq<Field>, i: int, d: u8)
    requires
        grid_ok(g),
        0 <= i < 81,
        1 <= d <= 9,
    ensures
        grid_ok(g.update(i, Field::Filled(d))),
{
    let g2 = g.update(i, Field::Filled(d));
    assert forall|k: int| 0 <= k < 81 implies crate::grid::field_ok(#[trigger] g2[k]) by {
        if k != i {
            assert(g2[k] == g[k]);
        }
    }
}

proof fn lemma_skip_filled(g: Seq<Field>, a: int, b: int)
    requires
        0 <= a <= b <= 81,
        forall|k: int| a <= k < b ==> g[k] != Field::Empty,
    ensures
        search(g, a) == search(g, b),
    decreases b - a,
{
    if a < b {
        lemma_skip_filled(g, a + 1, b);
    }
}

proof fn lemma_candidates_in_range(g: Seq<Field>, i: int, d: int)
    ensures
        forall|k: int|
            0 <= k < candidates_from(g, i, d).len() ==> 1 <= #[trigger] candidates_from(
                g,
                i,
                d,
            )[k] <= 9 && d <= candidates_from(g, i, d)[k],
    decreases 10 - d,
{
    if 1 <= d <= 9 {
        lemma_candidates_in_range(g, i, d + 1);
        let rest = candidates_from(g, i, d + 1);
        if is_candidate(g, i, d as u8) {
            assert(candidates_from(g, i, d) == seq![d as u8] + rest);
            assert forall|k: int| 0 <= k < rest.len() + 1 implies 1 <= #[trigger] (seq![d as u8] + rest)[k] <= 9 && d <= (seq![d as u8] + rest)[k] by {
                if k > 0 {
                    assert((seq![d as u8] + rest)[k] == rest[k - 1]);
                }
            }
        }
    }
}

/// The results of the search are valid and keep the cells that were filled.
proof fn lemma_search_sound(g: Seq<Field>, i: int)
    requires
        grid_ok(g),
        0 <= i,
    ensures
        search(g, i) matches Some(s) ==> grid_ok(s) && grid_valid(s) && extends(s, g),
    decreases 82 - i, 0int,
{
    if i < 81 {
        if g[i] != Field::Empty {
            lemma_search_sound(g, i + 1);
        } else {
            lemma_candidates_in_range(g, i, 1);
            lemma_try_each_sound(g, i, candidates_from(g, i, 1));
        }
    }
}

proof fn lemma_try_each_sound(g: Seq<Field>, i: int, cs: Seq<u8>)
    requires
        grid_ok(g),
        0 <= i < 81,
        g[i] == Field::Empty,
        forall|k: int| 0 <= k < cs.len() ==> 1 <= #[trigger] cs[k] <= 9,
    ensures
        try_each(g, i, cs) matches Some(s) ==> grid_ok(s) && grid_valid(s) && extends(s, g),
    decreases 81 - i, cs.len(),
{
    if cs.len() > 0 {
        let g2 = g.update(i, Field::Filled(cs[0]));
        lemma_fill_keeps_grid_ok(g, i, cs[0]);
        lemma_search_sound(g2, i + 1);
        if search(g2, i + 1) is None {
            lemma_try_each_sound(g, i, cs.drop_first());
        }
    }
}

/// Each cell lies in its own row, column and block, at the expected position.
proof fn lemma_index_in_units(i: int)
    requires
        0 <= i < 81,
    ensures
        unit_cell(Unit::Row, i / 9, i % 9) == i,
        unit_cell(Unit::Col, i % 9, i / 9) == i,
        unit_cell(Unit::Block, block_index(i), 3 * ((i / 9) % 3) + (i % 9) % 3) == i,
        0 <= 3 * ((i / 9) % 3) + (i % 9) % 3 < 9,
        0 <= block_index(i) < 9,
{
}

/// Distinct positions of one view are distinct cells of the grid.
proof fn lemma_unit_cell_injective(kind: Unit, u: int, k: int, l: int)
    requires
        0 <= u < 9,
        0 <= k < 9,
        0 <= l < 9,
        k != l,
    ensures
        unit_cell(kind, u, k) != unit_cell(kind, u, l),
{
}

proof fn lemma_candidates_contains(g: Seq<Field>, i: int, d0: int, d: int)
    requires
        1 <= d0 <= d <= 9,
        is_candidate(g, i, d as u8),
    ensures
        candidates_from(g, i, d0).contains(d as u8),
    decreases d - d0,
{
    let rest = candidates_from(g, i, d0 + 1);
    if d0 == d {
        assert((seq![d as u8] + rest)[0] == d as u8);
    } else {
        lemma_candidates_contains(g, i, d0 + 1, d);
        let p = choose|p: int| 0 <= p < rest.len() && rest[p] == d as u8;
        if is_candidate(g, i, d0 as u8) {
            assert((seq![d0 as u8] + rest)[p + 1] == d as u8);
        }
    }
}

proof fn lemma_try_each_finds(g: Seq<Field>, i: int, cs: Seq<u8>, d: u8)
    requires
        cs.contains(d),
        search(g.update(i, Field::Filled(d)), i + 1) is Some,
    ensures
        try_each(g, i, cs) is Some,
    decreases cs.len(),
{
    if cs[0] != d {
        let p = choose|p: int| 0 <= p < cs.len() && cs[p] == d;
        assert(cs.drop_first()[p - 1] == d);
        lemma_try_each_finds(g, i, cs.drop_first(), d);
    }
}

/// The digit that a valid completion puts in a blank cell is a candidate there.
proof fn lemma_completion_digit_is_candidate(g: Seq<Field>, c: Seq<Field>, i: int)
    requires
        grid_ok(g),
        extends(c, g),
        grid_valid(c),
        0 <= i < 81,
        g[i] == Field::Empty,
    ensures
        c[i] matches Field::Filled(d) && is_candidate(g, i, d),
{
    lemma_index_in_units(i);
    assert(distinct_filled_at(c, Unit::Row, i / 9));
    assert(unit_view(c, Unit::Row, i / 9)[i % 9] == c[i]);
    let d = c[i]->Filled_0;
    assert forall|kind: Unit, u: int, p: int|
        0 <= u < 9 && 0 <= p < 9 && #[trigger] unit_cell(kind, u, p) == i implies !unit_view(
        g,
        kind,
        u,
    ).contains(Field::Filled(d)) by {
        assert(distinct_filled_at(c, kind, u));
        if unit_view(g, kind, u).contains(Field::Filled(d)) {
            let k = choose|k: int| 0 <= k < 9 && unit_view(g, kind, u)[k] == Field::Filled(d);
            if k != p {
                lemma_unit_cell_injective(kind, u, k, p);
                lemma_unit_cell_bounds(kind, u, k);
                let j = unit_cell(kind, u, k);
                assert(c[j] == g[j]);
                assert(unit_view(c, kind, u)[k] == unit_view(c, kind, u)[p]);
            }
        }
    }
    assert(!unit_view(g, Unit::Row, i / 9).contains(Field::Filled(d)));
    assert(!unit_view(g, Unit::Col, i % 9).contains(Field::Filled(d)));
    assert(!unit_view(g, Unit::Block, block_index(i)).contains(Field::Filled(d)));
}

spec fn distinct_filled_at(c: Seq<Field>, kind: Unit, u: int) -> bool {
    crate::grid::distinct_filled(unit_view(c, kind, u))
}

proof fn lemma_search_complete(g: Seq<Field>, i: int, c: Seq<Field>)
    requires
        grid_ok(g),
        grid_ok(c),
        extends(c, g),
        grid_valid(c),
        0 <= i <= 81,
        forall|k: int| 0 <= k < i ==> g[k] != Field::Empty,
    ensures
        search(g, i) is Some,
    decreases 82 - i,
{
    if i >= 81 {
        assert(c =~= g);
    } else if g[i] != Field::Empty {
        lemma_search_complete(g, i + 1, c);
    } else {
        lemma_completion_digit_is_candidate(g, c, i);
        let d = c[i]->Filled_0;
        let g2 = g.update(i, Field::Filled(d));
        lemma_fill_keeps_grid_ok(g, i, d);
        lemma_search_complete(g2, i + 1, c);
        lemma_candidates_contains(g, i, 1, d as int);
        lemma_try_each_finds(g, i, candidates_from(g, i, 1), d);
    }
}

/// A grid that solving returns is valid: every row, column and block holds
/// each digit from 1 to 9 exactly once.
pub proof fn solved_grid_is_valid(g: Seq<Field>)
    requires
        grid_ok(g),
    ensures
        solution(g) matches Some(s) ==> grid_ok(s) && grid_valid(s),
{
    lemma_search_sound(g, 0);
}

/// Solving never overwrites a given: each filled cell of the input holds the
/// same digit in the result.
pub proof fn solved_grid_keeps_givens(g: Seq<Field>)
    requires
        grid_ok(g),
    ensures
        solution(g) matches Some(s) ==> extends(s, g),
{
    lemma_search_sound(g, 0);
}

/// Solving is deterministic: equal inputs give equal outcomes.
pub proof fn solving_is_deterministic(g1: Seq<Field>, g2: Seq<Field>)
    requires
        g1 == g2,
    ensures
        solution(g1) == solution(g2),
{
}

/// Two equal digits among the givens of one row, column or block make the
/// grid unsolvable.
pub proof fn conflicting_givens_are_unsolvable(
    g: Seq<Field>,
    kind: Unit,
    u: int,
    k: int,
    l: int,
)
    requires
        grid_ok(g),
        0 <= u < 9,
        0 <= k < l < 9,
        unit_view(g, kind, u)[k] != Field::Empty,
        unit_view(g, kind, u)[k] == unit_view(g, kind, u)[l],
    ensures
        solution(g) is None,
{
    lemma_search_sound(g, 0);
    if solution(g) is Some {
        let s = solution(g)->Some_0;
        lemma_unit_cell_bounds(kind, u, k);
        lemma_unit_cell_bounds(kind, u, l);
        assert(s[unit_cell(kind, u, k)] == g[unit_cell(kind, u, k)]);
        assert(s[unit_cell(kind, u, l)] == g[unit_cell(kind, u, l)]);
        assert(distinct_filled_at(s, kind, u));
        assert(unit_view(s, kind, u)[k] == unit_view(s, kind, u)[l]);
    }
}

/// Solving fails only where no completion exists: if some valid grid fills
/// in the givens, solving succeeds.
pub proof fn unsolvable_means_no_completion(g: Seq<Field>, c: Seq<Field>)
    requires
        grid_ok(g),
        grid_ok(c),
        extends(c, g),
        grid_valid(c),
    ensures
        solution(g) is Some,
{
    lemma_search_complete(g, 0, c);
}

/// The digit (0-based) of row `r`, column `c` in a fixed valid grid: each row
/// is the one above it shifted by three, and by one more after every block.
spec fn pattern_digit(r: int, c: int) -> int {
    (3 * (r % 3) + r / 3 + c) % 9
}

spec fn pattern_grid() -> Seq<Field> {
    Seq::new(81, |i: int| Field::Filled((pattern_digit(i / 9, i % 9) + 1) as u8))
}

proof fn lemma_shift_distinct(x: int, a: int, b: int)
    requires
        0 <= x,
        0 <= a < 9,
        0 <= b < 9,
        a != b,
    ensures
        (x + a) % 9 != (x + b) % 9,
{
}

proof fn lemma_pattern_unit_value(kind: Unit, u: int, k: int)
    requires
        0 <= u < 9,
        0 <= k < 9,
    ensures
        pattern_grid()[unit_cell(kind, u, k)] == Field::Filled(
            ((match kind {
                Unit::Row => (3 * (u % 3) + u / 3 + k) % 9,
                Unit::Col => (3 * (k % 3) + k / 3 + u) % 9,
                Unit::Block => (u / 3 + 3 * (u % 3) + k) % 9,
            }) + 1) as u8,
        ),
{
    lemma_unit_cell_bounds(kind, u, k);
    let i = unit_cell(kind, u, k);
    match kind {
        Unit::Row => {
            assert(i / 9 == u && i % 9 == k);
        },
        Unit::Col => {
            assert(i / 9 == k && i % 9 == u);
        },
        Unit::Block => {
            let r = 3 * (u / 3) + k / 3;
            let c = 3 * (u % 3) + k % 3;
            assert(i == 9 * r + c);
            assert(0 <= c < 9);
            assert(i / 9 == r && i % 9 == c);
            assert(r % 3 == k / 3 && r / 3 == u / 3);
            assert(3 * (k / 3) + k % 3 == k);
        },
    }
}

proof fn lemma_pattern_unit_distinct(kind: Unit, u: int)
    requires
        0 <= u < 9,
    ensures
        distinct_filled_at(pattern_grid(), kind, u),
{
    let v = unit_view(pattern_grid(), kind, u);
    assert forall|k: int| 0 <= k < 9 implies #[trigger] v[k] != Field::Empty by {
        lemma_pattern_unit_value(kind, u, k);
    }
    assert forall|k: int, l: int| 0 <= k < l < 9 implies #[trigger] v[k] != #[trigger] v[l] by {
        lemma_pattern_unit_value(kind, u, k);
        lemma_pattern_unit_value(kind, u, l);
        match kind {
            Unit::Row => lemma_shift_distinct(3 * (u % 3) + u / 3, k, l),
            Unit::Col => {
                assert(3 * (k % 3) + k / 3 != 3 * (l % 3) + l / 3);
                lemma_shift_distinct(u, 3 * (k % 3) + k / 3, 3 * (l % 3) + l / 3);
            },
            Unit::Block => lemma_shift_distinct(u / 3 + 3 * (u % 3), k, l),
        }
    }
}

proof fn lemma_pattern_grid_valid()
    ensures
        grid_ok(pattern_grid()),
        grid_valid(pattern_grid()),
{
    let g = pattern_grid();
    assert forall|k: int| 0 <= k < 81 implies crate::grid::field_ok(#[trigger] g[k]) by {
        assert(0 <= pattern_digit(k / 9, k % 9) < 9);
    }
    assert forall|kind: Unit, u: int| 0 <= u < 9 implies #[trigger] crate::grid::distinct_filled(
        unit_view(g, kind, u),
    ) by {
        lemma_pattern_unit_distinct(kind, u);
    }
}

/// A grid with no givens is always solvable: solving it yields a valid grid.
pub proof fn blank_grid_is_solvable(g: Seq<Field>)
    requires
        g.len() == 81,
        forall|k: int| 0 <= k < 81 ==> g[k] == Field::Empty,
    ensures
        solution(g) is Some,
        solution(g) matches Some(s) ==> grid_ok(s) && grid_valid(s),
{
    lemma_pattern_grid_valid();
    assert(grid_ok(g));
    assert(extends(pattern_grid(), g));
    unsolvable_means_no_completion(g, pattern_grid());
    solved_grid_is_valid(g);
}

fn solve_impl(puzzle: &mut Sudoku, from: usize) -> (r: bool)
    requires
        old(puzzle).wf(),
        from <= 81,
        forall|k: int| 0 <= k < from ==> old(puzzle)@[k] != Field::Empty,
    ensures
        final(puzzle).wf(),
        r == search(old(puzzle)@, from as int) is Some,
        r ==> search(old(puzzle)@, from as int) == Some(final(puzzle)@),
        !r ==> final(puzzle)@ == old(puzzle)@,
    decreases 81 - from,
{
    let ghost g = puzzle@;
    match puzzle.get_first_empty_index(from) {
        None => {
            proof {
                lemma_skip_filled(g, from as int, 81);
            }
            puzzle.is_valid()
        },
        Some(index) => {
            proof {
                lemma_skip_filled(g, from as int, index as int);
            }
            let values = puzzle.get_possible_values(index);
            let n = values.len();
            assert(values@.subrange(0, n as int) =~= values@);
            assert(search(g, index as int) == try_each(g, index as int, values@));
            let mut j: usize = 0;
            while j < n
                invariant
                    puzzle.wf(),
                    puzzle@ == g,
                    old(puzzle)@ == g,
                    grid_ok(g),
                    from <= index < 81,
                    g[index as int] == Field::Empty,
                    forall|k: int| 0 <= k < index ==> g[k] != Field::Empty,
                    n == values@.len(),
                    j <= n,
                    forall|k: int| 0 <= k < n ==> 1 <= #[trigger] values@[k] <= 9,
                    search(g, from as int) == try_each(g, index as int, values@.subrange(j as int, n as int)),
                decreases n - j,
            {
                let ghost rest = values@.subrange(j as int, n as int);
                assert(rest.drop_first() =~= values@.subrange(j + 1, n as int));
                assert(rest[0] == values@[j as int]);
                puzzle.set_field(index, values[j]);
                let found = solve_impl(puzzle, index + 1);
                if found {
                    assert(try_each(g, index as int, rest) == search(
                        g.update(index as int, Field::Filled(rest[0])),
                        index + 1,
                    ));
                    return true;
                }
                puzzle.clear_field(index);
                assert(puzzle@ =~= g);
                j += 1;
            }
            false
        },
    }
}

impl Sudoku {
    /// Solves the puzzle: the first valid completion that the search reaches,
    /// or `None` when no valid grid fills in the givens.
    pub fn solve(self) -> (r: Option<Sudoku>)
        requires
            self.wf(),
        ensures
            match r {
                Some(s) => {
                    &&& s.wf()
                    &&& solution(self@) == Some(s@)
                    &&& grid_valid(s@)
                    &&& extends(s@, self@)
                },
                None => {
                    &&& solution(self@) is None
                    &&& forall|c: Seq<Field>|
                        grid_ok(c) && #[trigger] extends(c, self@) ==> !grid_valid(c)
                },
            },
    {
        let ghost g = self@;
        let mut puzzle = self;
        proof {
            solved_grid_is_valid(g);
            solved_grid_keeps_givens(g);
        }
        if solve_impl(&mut puzzle, 0) {
            Some(puzzle)
        } else {
            proof {
                assert forall|c: Seq<Field>|
                    grid_ok(c) && #[trigger] extends(c, g) implies !grid_valid(c) by {
                    if grid_valid(c) {
                        unsolvable_means_no_completion(g, c);
                    }
                }
            }
            None
        }
    }
}

} // verus!
