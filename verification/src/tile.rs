//! The pixels of a rectangular tile, one after another.

use itertools::Itertools;
use itertools::Product;
use std::ops::Range;
use vstd::arithmetic::div_mod::lemma_fundamental_div_mod;
use vstd::arithmetic::div_mod::lemma_fundamental_div_mod_converse;
use vstd::arithmetic::div_mod::lemma_mod_bound;
use vstd::arithmetic::mul::lemma_mul_inequality;
use vstd::arithmetic::mul::lemma_mul_is_commutative;
use vstd::arithmetic::mul::lemma_mul_is_distributive_sub_other_way;
use vstd::prelude::*;

verus! {

/// A rectangle of pixels: its corner with the lowest coordinates, its width
/// and its height. A width or height below one leaves it empty.
#[derive(Clone, Copy, PartialEq, Eq, Structural, Debug)]
pub struct Rect {
    pub x: i32,
    pub y: i32,
    pub w: i32,
    pub h: i32,
}

/// The pairs `(x, y)` with `x_start <= x < x_end` and `y_start <= y < y_end`,
/// column by column: `y` runs through its range for the first `x`, then for
/// the next.
pub open spec fn grid(x_start: int, x_end: int, y_start: int, y_end: int) -> Seq<(int, int)> {
    let columns = if x_end > x_start { x_end - x_start } else { 0 };
    let rows = if y_end > y_start { y_end - y_start } else { 0 };
    Seq::new((columns * rows) as nat, |k: int| (x_start + k / rows, y_start + k % rows))
}

/// The place of the pair `(x, y)` in a grid that starts at `x_start` and runs
/// from `y_start` to `y_end` in each column.
pub open spec fn place_in_grid(x_start: int, y_start: int, y_end: int, x: int, y: int) -> int {
    (x - x_start) * (y_end - y_start) + (y - y_start)
}

impl Rect {
    /// The pixels of the rectangle in the order in which a tile visits them.
    pub open spec fn pixels(self) -> Seq<(int, int)> {
        grid(self.x as int, self.x + self.w, self.y as int, self.y + self.h)
    }

    /// Whether both far edges are still pixel coordinates.
    pub open spec fn fits(self) -> bool {
        &&& i32::MIN <= self.x + self.w <= i32::MAX
        &&& i32::MIN <= self.y + self.h <= i32::MAX
    }
}

/// `itertools::Product`, the iterator over the pairs of two iterators. It is
/// carried as an opaque value; what is known of it is said by the two
/// functions below that make one and step it.
#[verifier::external_type_specification]
#[verifier::external_body]
#[verifier::reject_recursive_types(I)]
#[verifier::reject_recursive_types(J)]
pub struct ExProduct<I: Iterator, J>(Product<I, J>);

/// The pairs that a product of two integer ranges has yet to yield, next one
/// first.
pub uninterp spec fn product_remaining(cursor: Product<Range<i32>, Range<i32>>) -> Seq<(int, int)>;

/// `Itertools::cartesian_product` of two integer ranges. Taken on trust from
/// its source: the new iterator has every pair of the two ranges before it,
/// the first range's item changing slowest, and none if either range is empty.
#[verifier::external_body]
fn range_product(xs: Range<i32>, ys: Range<i32>) -> (cursor: Product<Range<i32>, Range<i32>>)
    ensures
        product_remaining(cursor) == grid(
            xs.start as int,
            xs.end as int,
            ys.start as int,
            ys.end as int,
        ),
{
    xs.cartesian_product(ys)
}

/// `Iterator::next` of `itertools::Product` over two integer ranges. Taken on
/// trust from its source: it yields the first pair that is left and moves
/// past it, and yields nothing, now and ever after, once none is left.
#[verifier::external_body]
fn range_product_next(cursor: &mut Product<Range<i32>, Range<i32>>) -> (pair: Option<(i32, i32)>)
    ensures
        match pair {
            Some(p) => product_remaining(*old(cursor)).len() > 0 && (p.0 as int, p.1 as int)
                == product_remaining(*old(cursor))[0] && product_remaining(*final(cursor))
                == product_remaining(*old(cursor)).skip(1),
            None => product_remaining(*old(cursor)).len() == 0 && product_remaining(
                *final(cursor),
            ).len() == 0,
        },
{
    cursor.next()
}

/// A cursor over the pixels of a rectangle. It yields coordinates only; what
/// is sampled at each of them is up to the caller.
pub struct Tile {
    bounds: Rect,
    cursor: Product<Range<i32>, Range<i32>>,
}

impl Tile {
    /// The rectangle that the tile was made for.
    pub closed spec fn bounds_spec(&self) -> Rect {
        self.bounds
    }

    /// The pixels that are still to come, next one first.
    pub closed spec fn remaining(self) -> Seq<(int, int)> {
        product_remaining(self.cursor)
    }

    /// A tile over `bounds`, with all of its pixels still to come.
    pub fn new(bounds: Rect) -> (tile: Tile)
        requires
            bounds.fits(),
        ensures
            tile.bounds() == bounds,
            tile.remaining() == bounds.pixels(),
    {
        let xs: Range<i32> = bounds.x..(bounds.x + bounds.w);
        let ys: Range<i32> = bounds.y..(bounds.y + bounds.h);
        Tile { bounds, cursor: range_product(xs, ys) }
    }

    /// The next pixel of the tile, or `None` once all have been visited.
    pub fn next(&mut self) -> (pixel: Option<(i32, i32)>)
        ensures
            final(self).bounds() == old(self).bounds(),
            match pixel {
                Some(p) => old(self).remaining().len() > 0 && (p.0 as int, p.1 as int) == old(
                    self,
                ).remaining()[0] && final(self).remaining() == old(self).remaining().skip(1),
                None => old(self).remaining().len() == 0 && final(self).remaining().len() == 0,
            },
    {
        range_product_next(&mut self.cursor)
    }

    /// The rectangle that the tile was made for.
    #[verifier::when_used_as_spec(bounds_spec)]
    pub fn bounds(&self) -> (bounds: Rect)
        ensures
            bounds == self.bounds_spec(),
    {
        self.bounds
    }
}

/// An index into a grid with `rows` rows names one column and one row.
proof fn lemma_index_is_a_pixel(columns: int, rows: int, k: int)
    requires
        0 < columns,
        0 < rows,
        0 <= k < columns * rows,
    ensures
        0 <= k / rows < columns,
        0 <= k % rows < rows,
        k == (k / rows) * rows + k % rows,
{
    lemma_fundamental_div_mod(k, rows);
    lemma_mod_bound(k, rows);
    lemma_mul_is_commutative(rows, k / rows);
    if k / rows >= columns {
        lemma_mul_inequality(columns, k / rows, rows);
    }
    if k / rows < 0 {
        lemma_mul_inequality(k / rows, -1, rows);
    }
}

/// A column and a row of a grid with `rows` rows name one index.
proof fn lemma_pixel_is_an_index(columns: int, rows: int, column: int, row: int)
    requires
        0 <= column < columns,
        0 <= row < rows,
    ensures
        0 <= column * rows + row < columns * rows,
        (column * rows + row) / rows == column,
        (column * rows + row) % rows == row,
{
    lemma_mul_inequality(0, column, rows);
    lemma_mul_inequality(column, columns - 1, rows);
    lemma_mul_is_distributive_sub_other_way(rows, columns, 1);
    lemma_fundamental_div_mod_converse(column * rows + row, rows, column, row);
}

/// A tile visits every pixel of its rectangle once and nothing else: each
/// pair of the grid lies in both ranges, each pair of the two ranges stands
/// in the grid, behind the pairs of the columns before it and the rows below
/// it in its own column, and no pair stands in it twice.
pub proof fn lemma_grid_visits_each_pixel_once(x_start: int, x_end: int, y_start: int, y_end: int)
    ensures
        forall|k: int|
            0 <= k < grid(x_start, x_end, y_start, y_end).len() ==> {
                let pixel = #[trigger] grid(x_start, x_end, y_start, y_end)[k];
                x_start <= pixel.0 && pixel.0 < x_end && y_start <= pixel.1 && pixel.1 < y_end
            },
        forall|x: int, y: int|
            x_start <= x < x_end && y_start <= y < y_end ==> {
                let k = #[trigger] place_in_grid(x_start, y_start, y_end, x, y);
                0 <= k && k < grid(x_start, x_end, y_start, y_end).len() && grid(
                    x_start,
                    x_end,
                    y_start,
                    y_end,
                )[k] == (x, y)
            },
        grid(x_start, x_end, y_start, y_end).no_duplicates(),
{
    let pixels = grid(x_start, x_end, y_start, y_end);
    let columns = x_end - x_start;
    let rows = y_end - y_start;
    if columns > 0 && rows > 0 {
        assert forall|k: int| 0 <= k < pixels.len() implies {
            let pixel = #[trigger] pixels[k];
            x_start <= pixel.0 && pixel.0 < x_end && y_start <= pixel.1 && pixel.1 < y_end
        } by {
            lemma_index_is_a_pixel(columns, rows, k);
        }
        assert forall|x: int, y: int| x_start <= x < x_end && y_start <= y < y_end implies {
            let k = #[trigger] place_in_grid(x_start, y_start, y_end, x, y);
            0 <= k && k < pixels.len() && pixels[k] == (x, y)
        } by {
            lemma_pixel_is_an_index(columns, rows, x - x_start, y - y_start);
        }
        assert forall|j: int, k: int|
            0 <= j < pixels.len() && 0 <= k < pixels.len() && j != k implies pixels[j]
            != pixels[k] by {
            lemma_index_is_a_pixel(columns, rows, j);
            lemma_index_is_a_pixel(columns, rows, k);
        }
    } else {
        assert(columns <= 0 || rows <= 0);
        assert(pixels.len() == 0) by (nonlinear_arith)
            requires
                pixels.len() == (if columns > 0 {
                    columns
                } else {
                    0
                }) * (if rows > 0 {
                    rows
                } else {
                    0
                }),
                columns <= 0 || rows <= 0,
        ;
    }
}

} // verus!
