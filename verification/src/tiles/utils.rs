//! Coordinate and counting helpers shared by the tile catalog and the renderer.

use vstd::arithmetic::div_mod::lemma_fundamental_div_mod;
use vstd::arithmetic::div_mod::lemma_fundamental_div_mod_converse;
use std::collections::HashMap;
use vstd::prelude::*;

verus! {

broadcast use vstd::std_specs::hash::group_hash_axioms;

/// Whether `r` is the square root of `n`, rounded down.
pub open spec fn is_sqrt(r: int, n: int) -> bool {
    0 <= r && r * r <= n < (r + 1) * (r + 1)
}

/// The square root of `n`, rounded down.
pub open spec fn int_sqrt(n: nat) -> nat
    decreases n,
{
    if n == 0 {
        0
    } else {
        let r = int_sqrt((n - 1) as nat);
        if (r + 1) * (r + 1) <= n {
            r + 1
        } else {
            r
        }
    }
}

/// `int_sqrt` is the rounded-down square root.
pub proof fn lemma_int_sqrt(n: nat)
    ensures
        is_sqrt(int_sqrt(n) as int, n as int),
    decreases n,
{
    if n > 0 {
        lemma_int_sqrt((n - 1) as nat);
        let r = int_sqrt((n - 1) as nat) as int;
        if (r + 1) * (r + 1) <= n {
            assert((r + 2) * (r + 2) > (r + 1) * (r + 1)) by (nonlinear_arith)
                requires
                    r >= 0,
            ;
        }
    }
}

/// A number has one rounded-down square root.
pub proof fn lemma_sqrt_unique(r1: int, r2: int, n: int)
    requires
        is_sqrt(r1, n),
        is_sqrt(r2, n),
    ensures
        r1 == r2,
{
    if r1 < r2 {
        assert((r1 + 1) * (r1 + 1) <= r2 * r2) by (nonlinear_arith)
            requires
                0 <= r1,
                r1 + 1 <= r2,
        ;
    } else if r2 < r1 {
        assert((r2 + 1) * (r2 + 1) <= r1 * r1) by (nonlinear_arith)
            requires
                0 <= r2,
                r2 + 1 <= r1,
        ;
    }
}

/// The square root of a square is its side.
pub proof fn lemma_sqrt_of_square(side: nat)
    ensures
        int_sqrt(side * side) == side,
{
    lemma_int_sqrt(side * side);
    assert((side + 1) * (side + 1) > side * side) by (nonlinear_arith);
    lemma_sqrt_unique(int_sqrt(side * side) as int, side as int, (side * side) as int);
}

/// `num_integer::sqrt` on `usize`: the result `r` is the truncated square
/// root, `r * r <= n < (r + 1) * (r + 1)`.
#[verifier::external_body]
fn integer_sqrt(n: usize) -> (r: usize)
    ensures
        is_sqrt(r as int, n as int),
{
    num_integer::sqrt(n)
}

/// The side of the largest square grid with at most `n` cells.
pub fn grid_side(n: usize) -> (side: usize)
    ensures
        side == int_sqrt(n as nat),
        side * side <= n,
{
    let side = integer_sqrt(n);
    proof {
        lemma_int_sqrt(n as nat);
        lemma_sqrt_unique(side as int, int_sqrt(n as nat) as int, n as int);
    }
    side
}

/// Where the coordinate at position `p` goes when a grid of `side` by `side`
/// cells of three coordinates each, laid out row after row, is mirrored left
/// to right. Positions past the grid stay.
pub open spec fn mirror_position(p: int, side: int) -> int {
    if side > 0 && 0 <= p < 3 * (side * side) {
        let cell = p / 3;
        3 * (cell + side - 1 - 2 * (cell % side)) + p % 3
    } else {
        p
    }
}

/// `s` mirrored left to right as a grid of `side` by `side` cells.
pub open spec fn mirrored<A>(s: Seq<A>, side: int) -> Seq<A> {
    Seq::new(s.len(), |p: int| s[mirror_position(p, side)])
}

/// The coordinate `part` of the cell in column `col` of row `row`.
pub open spec fn position_of(row: int, col: int, part: int, side: int) -> int {
    3 * (row * side + col) + part
}

/// A position splits in one way into a row, a column and a part.
pub proof fn lemma_position_parts(p: int, row: int, col: int, part: int, side: int)
    requires
        0 <= row,
        0 <= col < side,
        0 <= part < 3,
        p == position_of(row, col, part, side),
    ensures
        p / 3 == row * side + col,
        p % 3 == part,
        (p / 3) / side == row,
        (p / 3) % side == col,
        row < side ==> 0 <= p < 3 * (side * side),
{
    let cell = row * side + col;
    assert(row * side >= 0) by (nonlinear_arith)
        requires
            row >= 0,
            side > 0,
    ;
    lemma_fundamental_div_mod_converse(p, 3, cell, part);
    lemma_fundamental_div_mod_converse(cell, side, row, col);
    if row < side {
        assert(row * side + side <= side * side) by (nonlinear_arith)
            requires
                row + 1 <= side,
                side > 0,
        ;
    }
}

/// Every position inside the grid is that of its row, column and part.
pub proof fn lemma_position_split(p: int, side: int)
    requires
        side > 0,
        0 <= p < 3 * (side * side),
    ensures
        p == position_of((p / 3) / side, (p / 3) % side, p % 3, side),
        0 <= (p / 3) / side < side,
        0 <= (p / 3) % side < side,
        0 <= p % 3 < 3,
        mirror_position(p, side) == position_of(
            (p / 3) / side,
            side - 1 - (p / 3) % side,
            p % 3,
            side,
        ),
{
    let cell = p / 3;
    lemma_fundamental_div_mod(p, 3);
    lemma_fundamental_div_mod(cell, side);
    assert(0 <= cell < side * side);
    let row = cell / side;
    assert(side * row == row * side) by (nonlinear_arith);
    assert(0 <= row < side) by (nonlinear_arith)
        requires
            0 <= cell < side * side,
            cell == side * row + cell % side,
            0 <= cell % side < side,
            side > 0,
    ;
}

/// Mirroring keeps a position in its row and part, moves it to the opposite
/// column, and undoes itself.
pub proof fn lemma_mirror_position(p: int, side: int)
    requires
        side > 0,
        0 <= p < 3 * (side * side),
    ensures
        0 <= mirror_position(p, side) < 3 * (side * side),
        mirror_position(mirror_position(p, side), side) == p,
{
    lemma_position_split(p, side);
    let row = (p / 3) / side;
    let col = (p / 3) % side;
    let q = mirror_position(p, side);
    lemma_position_parts(q, row, side - 1 - col, p % 3, side);
    lemma_position_split(q, side);
}

/// Mirroring a sequence twice gives the sequence back.
pub proof fn lemma_mirrored_twice<A>(s: Seq<A>, side: int)
    requires
        side <= 0 || 3 * (side * side) <= s.len(),
    ensures
        mirrored(mirrored(s, side), side) == s,
{
    let once = mirrored(s, side);
    let twice = mirrored(once, side);
    assert forall|p: int| 0 <= p < s.len() implies twice[p] == s[p] by {
        if side > 0 && p < 3 * (side * side) {
            lemma_mirror_position(p, side);
        }
    }
    assert(twice =~= s);
}

/// `<[A]>::swap`: the items at `i` and `j` change places and the others stay.
#[verifier::external_body]
fn swap_items<A>(items: &mut [A], i: usize, j: usize)
    requires
        i < old(items)@.len(),
        j < old(items)@.len(),
    ensures
        final(items)@ == old(items)@.update(i as int, old(items)@[j as int]).update(
            j as int,
            old(items)@[i as int],
        ),
{
    items.swap(i, j)
}

/// Whether the pass over the grid that has reached row `i`, column pair `j`
/// and part `h` has already moved the coordinate at `p`.
pub open spec fn moved(p: int, side: int, i: int, j: int, h: int) -> bool {
    let row = (p / 3) / side;
    let col = (p / 3) % side;
    let near = if col <= side - 1 - col {
        col
    } else {
        side - 1 - col
    };
    0 <= p < 3 * (side * side) && (row < i || (row == i && (near < j || (near == j && p % 3
        < h))))
}

/// The state of the coordinates while a pass is at row `i`, column pair `j`
/// and part `h`.
pub open spec fn pass_state<A>(now: Seq<A>, start: Seq<A>, side: int, i: int, j: int, h: int) -> bool {
    &&& now.len() == start.len()
    &&& forall|p: int|
        0 <= p < now.len() ==> #[trigger] now[p] == (if moved(p, side, i, j, h) {
            start[mirror_position(p, side)]
        } else {
            start[p]
        })
}

/// Flips a grid of coordinates left to right in place. The slice is read as
/// rows of cells, three coordinates to a cell, on the largest square grid
/// that fits in it; in each row the cells change places with those opposite
/// them, and what lies past the grid stays.
pub fn flipped_coords<A>(coords: &mut [A])
    ensures
        final(coords)@ == mirrored(old(coords)@, int_sqrt(old(coords)@.len() / 3) as int),
{
    let ghost start = coords@;
    let n = coords.len();
    let rows = grid_side(n / 3);
    let cols = rows;
    let ghost side = rows as int;
    assert(3 * (side * side) <= n);
    if rows == 0 {
        assert(coords@ =~= mirrored(start, side));
        return ;
    }
    assert(side * 3 <= 3 * (side * side)) by (nonlinear_arith)
        requires
            side >= 1,
    ;
    let coords_in_row = cols * 3;
    let mut i: usize = 0;
    while i < rows
        invariant
            i <= rows,
            side == rows,
            cols == rows,
            side > 0,
            coords_in_row == 3 * side,
            3 * (side * side) <= n,
            n == start.len(),
            pass_state(coords@, start, side, i as int, 0, 0),
        decreases rows - i,
    {
        let mut j: usize = 0;
        while j < cols / 2
            invariant
                i < rows,
                j <= cols / 2,
                side == rows,
                cols == rows,
                side > 0,
                coords_in_row == 3 * side,
                3 * (side * side) <= n,
                n == start.len(),
                pass_state(coords@, start, side, i as int, j as int, 0),
            decreases cols / 2 - j,
        {
            proof {
                lemma_position_parts(
                    position_of(i as int, j as int, 0, side),
                    i as int,
                    j as int,
                    0,
                    side,
                );
                lemma_position_parts(
                    position_of(i as int, side - 1 - j, 0, side),
                    i as int,
                    side - 1 - j,
                    0,
                    side,
                );
                assert(i * (3 * side) == 3 * (i * side)) by (nonlinear_arith);
                assert((i + 1) * (3 * side) == 3 * (i * side) + 3 * side) by (nonlinear_arith);
                assert((i + 1) * (3 * side) <= 3 * (side * side)) by (nonlinear_arith)
                    requires
                        0 <= i + 1 <= side,
                ;
            }
            let first = i * coords_in_row + j * 3;
            let first_flipped = (i + 1) * coords_in_row - (j + 1) * 3;
            assert(first == position_of(i as int, j as int, 0, side));
            assert(first_flipped == position_of(i as int, side - 1 - j, 0, side));
            let mut h: usize = 0;
            while h < 3
                invariant
                    i < rows,
                    j < cols / 2,
                    h <= 3,
                    side == rows,
                    cols == rows,
                    side > 0,
                    3 * (side * side) <= n,
                    n == start.len(),
                    first == position_of(i as int, j as int, 0, side),
                    first_flipped == position_of(i as int, side - 1 - j, 0, side),
                    pass_state(coords@, start, side, i as int, j as int, h as int),
                decreases 3 - h,
            {
                let ghost before = coords@;
                let ghost a = first + h;
                let ghost b = first_flipped + h;
                proof {
                    lemma_position_parts(a, i as int, j as int, h as int, side);
                    lemma_position_parts(b, i as int, side - 1 - j, h as int, side);
                    lemma_position_split(a, side);
                    lemma_position_split(b, side);
                }
                swap_items(coords, first + h, first_flipped + h);
                proof {
                    assert forall|p: int| 0 <= p < coords@.len() implies #[trigger] coords@[p] == (
                    if moved(p, side, i as int, j as int, h + 1) {
                        start[mirror_position(p, side)]
                    } else {
                        start[p]
                    }) by {
                        assert(before[p] == (if moved(p, side, i as int, j as int, h as int) {
                            start[mirror_position(p, side)]
                        } else {
                            start[p]
                        }));
                        assert(before[a] == start[a]);
                        assert(before[b] == start[b]);
                        if p != a && p != b {
                            if p < 3 * (side * side) {
                                lemma_position_split(p, side);
                            }
                        }
                    }
                }
                h += 1;
            }
            proof {
                assert forall|p: int| 0 <= p < coords@.len() implies moved(
                    p,
                    side,
                    i as int,
                    j as int,
                    3,
                ) == moved(p, side, i as int, j + 1, 0) by {
                    if p < 3 * (side * side) {
                        lemma_position_split(p, side);
                    }
                }
            }
            j += 1;
        }
        proof {
            assert forall|p: int| 0 <= p < coords@.len() implies #[trigger] coords@[p] == (if moved(
                p,
                side,
                i + 1,
                0,
                0,
            ) {
                start[mirror_position(p, side)]
            } else {
                start[p]
            }) by {
                if p < 3 * (side * side) {
                    lemma_position_split(p, side);
                }
            }
        }
        i += 1;
    }
    proof {
        assert forall|p: int| 0 <= p < coords@.len() implies coords@[p] == mirrored(start, side)[p] by {
            if p < 3 * (side * side) {
                lemma_position_split(p, side);
            }
        }
        assert(coords@ =~= mirrored(start, side));
    }
}

/// How often `value` occurs among `values`.
pub open spec fn occurrences(values: Seq<u32>, value: u32) -> nat
    decreases values.len(),
{
    if values.len() == 0 {
        0
    } else {
        occurrences(values.drop_last(), value) + (if values.last() == value {
            1nat
        } else {
            0nat
        })
    }
}

/// A value occurs at most as often as there are values, and not at all if it
/// is not among them.
pub proof fn lemma_occurrences(values: Seq<u32>, value: u32)
    ensures
        occurrences(values, value) <= values.len(),
        occurrences(values, value) > 0 <==> values.contains(value),
    decreases values.len(),
{
    if values.len() > 0 {
        lemma_occurrences(values.drop_last(), value);
        if values.drop_last().contains(value) {
            let i = choose|i: int| 0 <= i < values.drop_last().len() && values.drop_last()[i] == value;
            assert(values[i] == value);
        }
        if values.contains(value) && values.last() != value {
            let i = choose|i: int| 0 <= i < values.len() && values[i] == value;
            assert(values.drop_last()[i] == value);
        }
    }
}

/// A value that occurs most often among `values`, and 0 where there are no
/// values. Where several values occur most often, it is one of them.
pub fn most_common_value(values: &[u32]) -> (most: u32)
    ensures
        values@.len() == 0 ==> most == 0,
        values@.len() > 0 ==> values@.contains(most),
        forall|value: u32| occurrences(values@, value) <= occurrences(values@, most),
{
    let mut counts: HashMap<u32, usize> = HashMap::new();
    let mut most: u32 = 0;
    let mut most_count: usize = 0;
    let mut i: usize = 0;
    while i < values.len()
        invariant
            i <= values@.len(),
            forall|value: u32|
                counts@.contains_key(value) ==> #[trigger] counts@[value] == occurrences(
                    values@.subrange(0, i as int),
                    value,
                ),
            forall|value: u32|
                !counts@.contains_key(value) ==> #[trigger] occurrences(
                    values@.subrange(0, i as int),
                    value,
                ) == 0,
            most_count == occurrences(values@.subrange(0, i as int), most),
            forall|value: u32| #[trigger]
                occurrences(values@.subrange(0, i as int), value) <= occurrences(
                    values@.subrange(0, i as int),
                    most,
                ),
            i == 0 ==> most == 0,
            i > 0 ==> values@.subrange(0, i as int).contains(most),
        decreases values@.len() - i,
    {
        let value = values[i];
        let ghost seen = values@.subrange(0, i as int);
        let ghost next = values@.subrange(0, i + 1);
        let ghost old_most = most;
        proof {
            assert(next.drop_last() == seen);
            assert(next.last() == value);
            lemma_occurrences(seen, value);
        }
        let count: usize = match counts.get(&value) {
            Some(count) => *count + 1,
            None => 1,
        };
        counts.insert(value, count);
        if count > most_count {
            most = value;
            most_count = count;
        }
        proof {
            assert(next[i as int] == value);
            if most != value {
                let k = choose|k: int| 0 <= k < seen.len() && seen[k] == most;
                assert(next[k] == most);
            }
            assert forall|other: u32| #[trigger] occurrences(next, other) == occurrences(seen, other)
                + (if other == value {
                1nat
            } else {
                0nat
            }) by {}
            assert forall|other: u32| !counts@.contains_key(other) implies #[trigger] occurrences(
                next,
                other,
            ) == 0 by {
                assert(occurrences(seen, other) == 0);
            }
            assert forall|other: u32| #[trigger] occurrences(next, other) <= occurrences(next, most) by {
                assert(occurrences(seen, other) <= occurrences(seen, old_most));
            }
        }
        i += 1;
    }
    proof {
        assert(values@.subrange(0, i as int) == values@);
    }
    most
}

/// `text` without the zero bytes at its end.
pub open spec fn without_trailing_nuls(text: Seq<u8>) -> Seq<u8>
    decreases text.len(),
{
    if text.len() > 0 && text.last() == 0 {
        without_trailing_nuls(text.drop_last())
    } else {
        text
    }
}

/// `text` up to its first space, or all of it where it has none.
pub open spec fn up_to_space(text: Seq<u8>) -> Seq<u8>
    decreases text.len(),
{
    if text.len() == 0 || text.first() == 0x20 {
        Seq::empty()
    } else {
        seq![text.first()].add(up_to_space(text.drop_first()))
    }
}

/// What stands before the first space is what a text shows as far as there
/// is no space.
pub proof fn lemma_up_to_space(text: Seq<u8>, end: int)
    requires
        0 <= end <= text.len(),
        forall|i: int| 0 <= i < end ==> text[i] != 0x20,
        end == text.len() || text[end] == 0x20,
    ensures
        up_to_space(text) == text.subrange(0, end),
    decreases text.len(),
{
    if end == 0 {
        assert(text.subrange(0, 0) =~= Seq::<u8>::empty());
    } else {
        let rest = text.drop_first();
        assert forall|i: int| 0 <= i < end - 1 implies rest[i] != 0x20 by {
            assert(rest[i] == text[i + 1]);
        }
        lemma_up_to_space(rest, end - 1);
        assert(text.subrange(0, end) =~= seq![text.first()].add(rest.subrange(0, end - 1)));
    }
}

/// The date of a date and time as a photograph's metadata tells them: the
/// text without the zero bytes at its end, up to its first space.
pub fn date_part(value: &[u8]) -> (date: Vec<u8>)
    ensures
        date@ == up_to_space(without_trailing_nuls(value@)),
{
    let mut end: usize = value.len();
    assert(value@.subrange(0, end as int) == value@);
    while end > 0 && value[end - 1] == 0
        invariant
            end <= value@.len(),
            without_trailing_nuls(value@) == without_trailing_nuls(value@.subrange(0, end as int)),
        decreases end,
    {
        proof {
            let kept = value@.subrange(0, end as int);
            assert(kept.drop_last() == value@.subrange(0, end - 1));
        }
        end -= 1;
    }
    let ghost trimmed = value@.subrange(0, end as int);
    assert(without_trailing_nuls(value@) == trimmed);
    let mut date: Vec<u8> = Vec::new();
    let mut i: usize = 0;
    while i < end && value[i] != 0x20
        invariant
            i <= end <= value@.len(),
            trimmed == value@.subrange(0, end as int),
            date@ == trimmed.subrange(0, i as int),
            forall|k: int| 0 <= k < i ==> trimmed[k] != 0x20,
        decreases end - i,
    {
        date.push(value[i]);
        proof {
            assert(date@ =~= trimmed.subrange(0, i + 1));
        }
        i += 1;
    }
    proof {
        lemma_up_to_space(trimmed, i as int);
    }
    date
}

} // verus!
