//! The toboggan ride: a rectangular grid of map rows, each cell a tree
//! (`#`) or open ground; a slope steps right and down across the grid,
//! wrapping around each row, and counts the trees it meets.

use vstd::prelude::*;
use vstd::arithmetic::div_mod::lemma_add_mod_noop;

verus! {

/// The one failure of grid loading: a row whose width differs from the
/// first row's; it carries the index of the first such row.
#[derive(Debug, PartialEq, Eq, Structural, Clone, Copy)]
pub enum ForestError {
    AbnormalRowWidth(usize),
}

#[verifier::external_type_specification]
#[verifier::external_body]
#[verifier::reject_recursive_types(T)]
pub struct ExArray2D<T>(array2d::Array2D<T>);

/// What rows a grid holds is left to the outside grid type that stores
/// them; the wrappers below state how its methods read and build them.
pub uninterp spec fn grid_rows(g: array2d::Array2D<char>) -> Seq<Seq<char>>;

/// Relies on `Array2D::from_rows`: rows of equal width (as these are
/// required to be) build a grid holding exactly those rows.
#[verifier::external_body]
fn grid_from_rows(rows: &Vec<Vec<char>>) -> (g: array2d::Array2D<char>)
    requires
        forall|i: int|
            0 <= i < rows@.len() ==> (#[trigger] rows@[i])@.len() == rows@[0]@.len(),
    ensures
        grid_rows(g) == rows@.map_values(|r: Vec<char>| r@),
{
    array2d::Array2D::from_rows(rows.as_slice()).unwrap()
}

/// Relies on `Array2D::num_rows`: the number of rows the grid was built
/// from.
#[verifier::external_body]
pub fn grid_num_rows(g: &array2d::Array2D<char>) -> (n: usize)
    ensures
        n == grid_rows(*g).len(),
{
    g.num_rows()
}

/// Relies on `Array2D::num_columns`: the width the grid was built with,
/// which is the width of each of its rows.
#[verifier::external_body]
pub fn grid_num_columns(g: &array2d::Array2D<char>) -> (n: usize)
    ensures
        grid_rows(*g).len() > 0 ==> n == grid_rows(*g)[0].len(),
{
    g.num_columns()
}

/// Relies on `Array2D::get`: the cell at a row and column of the grid, or
/// `None` outside the grid.
#[verifier::external_body]
pub fn grid_get<'a>(g: &'a array2d::Array2D<char>, row: usize, column: usize) -> (r: Option<
    &'a char,
>)
    ensures
        r matches Some(c) ==> row < grid_rows(*g).len() && column < grid_rows(*g)[row as int].len()
            && *c == grid_rows(*g)[row as int][column as int],
        r is None ==> !(row < grid_rows(*g).len() && column < grid_rows(
            *g,
        )[row as int].len()),
{
    g.get(row, column)
}

/// Every row of the grid has the width of the first, and that width is not
/// zero.
pub open spec fn rectangular(rows: Seq<Seq<char>>) -> bool {
    &&& rows.len() > 0 ==> rows[0].len() > 0
    &&& forall|i: int| 0 <= i < rows.len() ==> (#[trigger] rows[i]).len() == rows[0].len()
}

/// The trees met from row `r` on, at step number `step` of a ride that
/// began at row 0: the ride visits every `down`-th row, moving `right`
/// cells per step and wrapping around the row.
pub open spec fn trees_from(rows: Seq<Seq<char>>, right: nat, down: nat, r: int, step: nat) -> int
    decreases (if r <= rows.len() { rows.len() - r } else { 0int }),
        when down >= 1 && 0 <= r
{
    if r >= rows.len() {
        0
    } else {
        (if rows[r].len() > 0 && rows[r][((right * step) % (rows[r].len() as nat)) as int]
            == '#' {
            1int
        } else {
            0int
        }) + trees_from(rows, right, down, r + down, step + 1)
    }
}

/// The trees met over the whole ride.
pub open spec fn trees_hit(rows: Seq<Seq<char>>, right: nat, down: nat) -> int {
    trees_from(rows, right, down, 0, 0)
}

proof fn lemma_trees_from_bounds(rows: Seq<Seq<char>>, right: nat, down: nat, r: int, step: nat)
    requires
        down >= 1,
        0 <= r,
    ensures
        0 <= trees_from(rows, right, down, r, step),
        r <= rows.len() ==> trees_from(rows, right, down, r, step) <= rows.len() - r,
        r > rows.len() ==> trees_from(rows, right, down, r, step) == 0,
    decreases (if r <= rows.len() { rows.len() - r } else { 0int }),
{
    if r < rows.len() && r + down <= rows.len() {
        lemma_trees_from_bounds(rows, right, down, r + down, step + 1);
    } else if r < rows.len() {
        assert(trees_from(rows, right, down, r + down, step + 1) == 0);
    }
}

/// How many trees the slope `(right_step, down_step)` meets on the grid.
pub fn traverse_slope(
    full_forest: &array2d::Array2D<char>,
    right_step: usize,
    down_step: usize,
) -> (n_trees: u32)
    requires
        down_step >= 1,
        rectangular(grid_rows(*full_forest)),
        grid_rows(*full_forest).len() <= u32::MAX,
    ensures
        n_trees as int == trees_hit(grid_rows(*full_forest), right_step as nat, down_step as nat),
{
    let ghost rows = grid_rows(*full_forest);
    let ghost right = right_step as nat;
    let ghost down = down_step as nat;
    let nrows = grid_num_rows(full_forest);
    if nrows == 0 {
        return 0;
    }
    let width = grid_num_columns(full_forest);
    let mut r: usize = 0;
    let ghost mut step: nat = 0nat;
    let mut col: usize = 0;
    let mut cnt: u32 = 0;
    proof {
        lemma_trees_from_bounds(rows, right, down, 0, 0);
        assert(right * step == 0);
        assert((0nat) % (width as nat) == 0);
    }
    while r < nrows
        invariant
            down_step >= 1,
            rows == grid_rows(*full_forest),
            right == right_step as nat,
            down == down_step as nat,
            rectangular(rows),
            0 < nrows == rows.len() <= u32::MAX,
            width == rows[0].len(),
            width > 0,
            0 <= r,
            col < width,
            col as int == (right * step) % (width as nat),
            cnt as int + trees_from(rows, right, down, r as int, step) == trees_hit(
                rows,
                right,
                down,
            ),
            0 <= trees_from(rows, right, down, r as int, step),
            trees_hit(rows, right, down) <= rows.len(),
        decreases nrows - r,
    {
        proof {
            assert(rows[r as int].len() == width);
        }
        let c = grid_get(full_forest, r, col);
        let is_tree: bool = match c {
            Some(ch) => *ch == '#',
            None => false,
        };
        proof {
            assert(c is Some);
            lemma_trees_from_bounds(rows, right, down, r + down, step + 1);
        }
        if is_tree {
            cnt = cnt + 1;
        }
        // advance the column modulo the row width, and the row by the slope
        let rstep_mod = (right_step as u128) % (width as u128);
        let new_col = (((col as u128) + rstep_mod) % (width as u128)) as usize;
        proof {
            let w = width as int;
            lemma_add_mod_noop((right * step) as int, right as int, w);
            assert(right * (step + 1) == right * step + right) by (nonlinear_arith);
            assert(new_col as int == ((right * (step + 1)) as int) % w);
        }
        col = new_col;
        proof {
            step = step + 1;
        }
        if down_step < nrows - r {
            r = r + down_step;
        } else {
            r = nrows;
        }
    }
    cnt
}

fn chars_of(s: &str) -> (v: Vec<char>)
    ensures
        v@ == s@,
{
    let n = s.unicode_len();
    let mut v: Vec<char> = Vec::new();
    let mut i: usize = 0;
    while i < n
        invariant
            0 <= i <= n == s@.len(),
            v@ == s@.take(i as int),
        decreases n - i,
    {
        v.push(s.get_char(i));
        proof {
            assert(s@.take(i + 1) =~= s@.take(i as int).push(s@[i as int]));
        }
        i = i + 1;
    }
    proof {
        assert(s@.take(n as int) =~= s@);
    }
    v
}

/// The grid built from the map's lines, or the index of the first line
/// whose width differs from the first line's.
pub fn load_forest(lines: &Vec<String>) -> (r: Result<array2d::Array2D<char>, ForestError>)
    ensures
        r matches Ok(g) ==> grid_rows(g) == lines@.map_values(|l: String| l@),
        r is Err <==> exists|i: int|
            0 <= i < lines@.len() && (#[trigger] lines@[i])@.len() != lines@[0]@.len(),
        r matches Err(ForestError::AbnormalRowWidth(i)) ==> 0 <= i < lines@.len()
            && lines@[i as int]@.len() != lines@[0]@.len() && forall|j: int|
            0 <= j < i ==> (#[trigger] lines@[j])@.len() == lines@[0]@.len(),
{
    let n = lines.len();
    let mut rows: Vec<Vec<char>> = Vec::new();
    let mut i: usize = 0;
    let mut width: usize = 0;
    while i < n
        invariant
            0 <= i <= n == lines@.len(),
            rows@.len() == i,
            i > 0 ==> width == lines@[0]@.len(),
            forall|k: int| 0 <= k < i ==> (#[trigger] rows@[k])@ == lines@[k]@,
            forall|k: int| 0 <= k < i ==> (#[trigger] lines@[k])@.len() == lines@[0]@.len(),
        decreases n - i,
    {
        let line = lines[i].as_str();
        let w = line.unicode_len();
        if i == 0 {
            width = w;
        } else if w != width {
            return Err(ForestError::AbnormalRowWidth(i));
        }
        rows.push(chars_of(line));
        i = i + 1;
    }
    let g = grid_from_rows(&rows);
    proof {
        assert(rows@.map_values(|r: Vec<char>| r@) =~= lines@.map_values(|l: String| l@));
    }
    Ok(g)
}

/// The tree counts of all the slopes over the map: the grid is loaded
/// once, and each slope of the list is ridden over it.
pub fn day03_counts(lines: &Vec<String>, slopes: &Vec<(usize, usize)>) -> (r: Result<
    Vec<u32>,
    ForestError,
>)
    requires
        lines@.len() <= u32::MAX,
        lines@.len() > 0 ==> lines@[0]@.len() > 0,
        forall|i: int| 0 <= i < slopes@.len() ==> (#[trigger] slopes@[i]).1 >= 1,
    ensures
        r is Err <==> exists|i: int|
            0 <= i < lines@.len() && (#[trigger] lines@[i])@.len() != lines@[0]@.len(),
        r matches Ok(counts) ==> counts@.len() == slopes@.len() && forall|i: int|
            0 <= i < slopes@.len() ==> #[trigger] counts@[i] as int == trees_hit(
                lines@.map_values(|l: String| l@),
                slopes@[i].0 as nat,
                slopes@[i].1 as nat,
            ),
{
    let ghost rows = lines@.map_values(|l: String| l@);
    let g = match load_forest(lines) {
        Ok(g) => g,
        Err(e) => {
            return Err(e);
        },
    };
    proof {
        assert(rectangular(rows));
    }
    let mut counts: Vec<u32> = Vec::new();
    let mut i: usize = 0;
    while i < slopes.len()
        invariant
            0 <= i <= slopes@.len(),
            counts@.len() == i,
            rows == lines@.map_values(|l: String| l@),
            grid_rows(g) == rows,
            rectangular(rows),
            rows.len() <= u32::MAX,
            forall|k: int| 0 <= k < slopes@.len() ==> (#[trigger] slopes@[k]).1 >= 1,
            forall|k: int|
                0 <= k < i ==> #[trigger] counts@[k] as int == trees_hit(
                    rows,
                    slopes@[k].0 as nat,
                    slopes@[k].1 as nat,
                ),
        decreases slopes@.len() - i,
    {
        let (right, down) = slopes[i];
        counts.push(traverse_slope(&g, right, down));
        i = i + 1;
    }
    Ok(counts)
}

/// The product of the per-slope tree counts.
pub open spec fn prod_u32(s: Seq<u32>) -> int
    decreases s.len(),
{
    if s.len() == 0 {
        1
    } else {
        prod_u32(s.drop_last()) * s.last()
    }
}

proof fn lemma_prod_u32_zero(s: Seq<u32>, z: int)
    requires
        0 <= z < s.len(),
        s[z] == 0,
    ensures
        prod_u32(s) == 0,
    decreases s.len(),
{
    if z == s.len() - 1 {
        assert(prod_u32(s) == prod_u32(s.drop_last()) * 0);
    } else {
        lemma_prod_u32_zero(s.drop_last(), z);
        assert(prod_u32(s) == 0 * s.last());
    }
}

proof fn lemma_prod_u32_pos(s: Seq<u32>)
    requires
        forall|j: int| 0 <= j < s.len() ==> s[j] != 0,
    ensures
        prod_u32(s) >= 1,
    decreases s.len(),
{
    if s.len() > 0 {
        lemma_prod_u32_pos(s.drop_last());
        let p = prod_u32(s.drop_last());
        let x = s.last() as int;
        assert(p * x >= 1) by (nonlinear_arith)
            requires
                p >= 1 && x >= 1,
        ;
    }
}

proof fn lemma_prod_u32_monotone(s: Seq<u32>, i: int)
    requires
        0 <= i <= s.len(),
        forall|j: int| 0 <= j < s.len() ==> s[j] != 0,
    ensures
        prod_u32(s) >= prod_u32(s.take(i)) >= 1,
    decreases s.len() - i,
{
    assert(forall|j: int| 0 <= j < s.take(i).len() ==> s.take(i)[j] != 0);
    lemma_prod_u32_pos(s.take(i));
    if i == s.len() {
        assert(s.take(i) =~= s);
    } else {
        lemma_prod_u32_monotone(s, i + 1);
        assert(s.take(i + 1).drop_last() =~= s.take(i));
        assert(s.take(i + 1).last() == s[i]);
        let p = prod_u32(s.take(i));
        let x = s[i] as int;
        assert(p * x >= p * 1) by (nonlinear_arith)
            requires
                p >= 1 && x >= 1,
        ;
    }
}

/// The product of all the counts, or `None` when it does not fit `u32`.
pub fn product_of_counts(counts: &Vec<u32>) -> (r: Option<u32>)
    ensures
        r matches Some(v) ==> v as int == prod_u32(counts@),
        r is Some <==> prod_u32(counts@) <= u32::MAX,
{
    let n = counts.len();
    let mut i: usize = 0;
    while i < n
        invariant
            0 <= i <= n == counts@.len(),
            forall|j: int| 0 <= j < i ==> counts@[j] != 0,
        decreases n - i,
    {
        if counts[i] == 0 {
            proof {
                lemma_prod_u32_zero(counts@, i as int);
            }
            return Some(0);
        }
        i = i + 1;
    }
    proof {
        lemma_prod_u32_monotone(counts@, 0);
    }
    let mut acc: u64 = 1;
    let mut k: usize = 0;
    while k < n
        invariant
            0 <= k <= n == counts@.len(),
            forall|j: int| 0 <= j < n ==> counts@[j] != 0,
            acc as int == prod_u32(counts@.take(k as int)),
            1 <= acc <= u32::MAX,
        decreases n - k,
    {
        proof {
            assert(counts@.take(k + 1).drop_last() =~= counts@.take(k as int));
            assert(counts@.take(k + 1).last() == counts@[k as int]);
            let a = acc as int;
            let x = counts@[k as int] as int;
            assert(a * x <= 0xffff_ffff * 0xffff_ffff) by (nonlinear_arith)
                requires
                    1 <= a <= 0xffff_ffff && 1 <= x <= 0xffff_ffff,
            ;
            assert(a * x >= 1) by (nonlinear_arith)
                requires
                    a >= 1 && x >= 1,
            ;
        }
        acc = acc * (counts[k] as u64);
        if acc > (u32::MAX as u64) {
            proof {
                lemma_prod_u32_monotone(counts@, k + 1);
                assert(counts@.take(n as int) =~= counts@);
            }
            return None;
        }
        k = k + 1;
    }
    proof {
        assert(counts@.take(n as int) =~= counts@);
    }
    Some(acc as u32)
}

} // verus!
