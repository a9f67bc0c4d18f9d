use vstd::prelude::*;

use crate::grid::{BoardSpace, GAME_BOARD_SIZE};

verus! {

/// A row of the grid
pub type Row = [BoardSpace; GAME_BOARD_SIZE];

/// The values of the tiles in `row`, left to right.
pub open spec fn tiles_of(row: Seq<BoardSpace>) -> Seq<usize>
    decreases row.len(),
{
    if row.len() == 0 {
        seq![]
    } else {
        let rest = tiles_of(row.subrange(1, row.len() as int));
        match row[0] {
            BoardSpace::Vacant => rest,
            BoardSpace::Tile(t) => seq![t] + rest,
        }
    }
}

/// The tiles that remain after one slide towards the front of `s`: scanning
/// from the front, each tile that meets an equal tile becomes one tile of twice
/// its value, and a tile merges at most once.
pub open spec fn merge_tiles(s: Seq<usize>) -> Seq<int>
    decreases s.len(),
{
    if s.len() == 0 {
        seq![]
    } else if s.len() == 1 {
        seq![s[0] as int]
    } else if s[0] == s[1] {
        seq![2 * s[0]] + merge_tiles(s.subrange(2, s.len() as int))
    } else {
        seq![s[0] as int] + merge_tiles(s.subrange(1, s.len() as int))
    }
}

/// The sum of the tiles created by merges in `merge_tiles(s)`.
pub open spec fn merge_gain(s: Seq<usize>) -> int
    decreases s.len(),
{
    if s.len() < 2 {
        0
    } else if s[0] == s[1] {
        2 * s[0] + merge_gain(s.subrange(2, s.len() as int))
    } else {
        merge_gain(s.subrange(1, s.len() as int))
    }
}

/// Every tile created by merging `s` fits in a `usize`.
pub open spec fn merge_fits(s: Seq<usize>) -> bool {
    forall|i: int| 0 <= i < merge_tiles(s).len() ==> #[trigger] merge_tiles(s)[i] <= usize::MAX
}

/// `row` after sliding all its tiles to the front and merging equal neighbours:
/// the merged tiles in order, then vacant spaces.
pub open spec fn slid_row(row: Seq<BoardSpace>) -> Seq<BoardSpace> {
    let m = merge_tiles(tiles_of(row));
    Seq::new(
        row.len(),
        |i: int|
            if i < m.len() {
                BoardSpace::Tile(m[i] as usize)
            } else {
                BoardSpace::Vacant
            },
    )
}

/// What sliding `row` adds to the score.
pub open spec fn row_gain(row: Seq<BoardSpace>) -> int {
    merge_gain(tiles_of(row))
}

/// Sliding `row` creates no tile too large for a `usize`.
pub open spec fn row_fits(row: Seq<BoardSpace>) -> bool {
    merge_fits(tiles_of(row))
}

pub proof fn lemma_tiles_len(row: Seq<BoardSpace>)
    ensures
        tiles_of(row).len() <= row.len(),
    decreases row.len(),
{
    if row.len() > 0 {
        lemma_tiles_len(row.subrange(1, row.len() as int));
    }
}

pub proof fn lemma_merge_len(s: Seq<usize>)
    ensures
        merge_tiles(s).len() <= s.len(),
    decreases s.len(),
{
    if s.len() >= 2 {
        if s[0] == s[1] {
            lemma_merge_len(s.subrange(2, s.len() as int));
        } else {
            lemma_merge_len(s.subrange(1, s.len() as int));
        }
    }
}

pub proof fn lemma_gain_nonneg(s: Seq<usize>)
    ensures
        merge_gain(s) >= 0,
    decreases s.len(),
{
    if s.len() >= 2 {
        if s[0] == s[1] {
            lemma_gain_nonneg(s.subrange(2, s.len() as int));
        } else {
            lemma_gain_nonneg(s.subrange(1, s.len() as int));
        }
    }
}

/// A row of `k` tiles followed by vacant spaces has `k` tiles.
proof fn lemma_packed_tiles_len(row: Seq<BoardSpace>, k: int)
    requires
        0 <= k <= row.len(),
        forall|i: int| 0 <= i < k ==> #[trigger] row[i] != BoardSpace::Vacant,
        forall|i: int| k <= i < row.len() ==> #[trigger] row[i] == BoardSpace::Vacant,
    ensures
        tiles_of(row).len() == k,
    decreases row.len(),
{
    if row.len() > 0 {
        let rest = row.subrange(1, row.len() as int);
        if k > 0 {
            assert forall|i: int| 0 <= i < k - 1 implies #[trigger] rest[i] != BoardSpace::Vacant by {
                assert(rest[i] == row[i + 1]);
            }
            assert forall|i: int| k - 1 <= i < rest.len() implies #[trigger] rest[i] == BoardSpace::Vacant by {
                assert(rest[i] == row[i + 1]);
            }
            lemma_packed_tiles_len(rest, k - 1);
        } else {
            assert forall|i: int| 0 <= i < rest.len() implies #[trigger] rest[i] == BoardSpace::Vacant by {
                assert(rest[i] == row[i + 1]);
            }
            lemma_packed_tiles_len(rest, 0);
        }
    }
}

/// A merge that keeps every tile creates nothing.
proof fn lemma_no_merge_no_gain(s: Seq<usize>)
    requires
        merge_tiles(s).len() == s.len(),
    ensures
        merge_gain(s) == 0,
    decreases s.len(),
{
    if s.len() >= 2 {
        if s[0] == s[1] {
            lemma_merge_len(s.subrange(2, s.len() as int));
        } else {
            lemma_no_merge_no_gain(s.subrange(1, s.len() as int));
        }
    }
}

/// A row that sliding leaves unchanged adds nothing to the score.
pub proof fn lemma_unchanged_no_gain(row: Seq<BoardSpace>)
    requires
        slid_row(row) == row,
    ensures
        row_gain(row) == 0,
{
    let t = tiles_of(row);
    let m = merge_tiles(t);
    lemma_tiles_len(row);
    lemma_merge_len(t);
    lemma_packed_tiles_len(slid_row(row), m.len() as int);
    lemma_no_merge_no_gain(t);
}

proof fn lemma_tiles_bounded(row: Seq<BoardSpace>, b: int)
    requires
        forall|c: int| 0 <= c < row.len() ==> match #[trigger] row[c] {
            BoardSpace::Tile(v) => v <= b,
            BoardSpace::Vacant => true,
        },
    ensures
        forall|i: int| 0 <= i < tiles_of(row).len() ==> #[trigger] tiles_of(row)[i] <= b,
    decreases row.len(),
{
    if row.len() > 0 {
        let rest = row.subrange(1, row.len() as int);
        assert forall|c: int| 0 <= c < rest.len() implies match #[trigger] rest[c] {
            BoardSpace::Tile(v) => v <= b,
            BoardSpace::Vacant => true,
        } by {
            assert(rest[c] == row[c + 1]);
        }
        lemma_tiles_bounded(rest, b);
        assert(match row[0] {
            BoardSpace::Tile(v) => v <= b,
            BoardSpace::Vacant => true,
        });
        let tr = tiles_of(rest);
        if let BoardSpace::Tile(t) = row[0] {
            assert(tiles_of(row) == seq![t] + tr);
            assert forall|i: int| 0 <= i < tiles_of(row).len() implies #[trigger] tiles_of(row)[i] <= b by {
                if i > 0 {
                    assert(tiles_of(row)[i] == tr[i - 1]);
                }
            }
        } else {
            assert(tiles_of(row) == tr);
        }
    }
}

proof fn lemma_merge_bounded(s: Seq<usize>, b: int)
    requires
        0 <= b,
        forall|i: int| 0 <= i < s.len() ==> #[trigger] s[i] <= b,
    ensures
        forall|i: int| 0 <= i < merge_tiles(s).len() ==> #[trigger] merge_tiles(s)[i] <= 2 * b,
        merge_gain(s) <= s.len() * b,
    decreases s.len(),
{
    if s.len() >= 2 {
        if s[0] == s[1] {
            let rest = s.subrange(2, s.len() as int);
            lemma_merge_bounded(rest, b);
            assert(merge_tiles(s) == seq![2 * s[0]] + merge_tiles(rest));
            assert forall|i: int| 0 <= i < merge_tiles(s).len() implies #[trigger] merge_tiles(s)[i] <= 2 * b by {
                if i > 0 {
                    assert(merge_tiles(s)[i] == merge_tiles(rest)[i - 1]);
                }
            }
            assert(2 * b + (s.len() - 2) * b == s.len() * b) by (nonlinear_arith);
        } else {
            let rest = s.subrange(1, s.len() as int);
            lemma_merge_bounded(rest, b);
            assert(merge_tiles(s) == seq![s[0] as int] + merge_tiles(rest));
            assert forall|i: int| 0 <= i < merge_tiles(s).len() implies #[trigger] merge_tiles(s)[i] <= 2 * b by {
                if i > 0 {
                    assert(merge_tiles(s)[i] == merge_tiles(rest)[i - 1]);
                }
            }
            assert((s.len() - 1) * b <= s.len() * b) by (nonlinear_arith)
                requires
                    0 <= b,
            ;
        }
    } else {
        assert(0 <= s.len() * b) by (nonlinear_arith)
            requires
                0 <= b,
        ;
    }
}

/// A row whose tiles are at most `b` gains at most `b` per tile, and creates
/// no tile above `2 * b`.
pub proof fn lemma_row_bounded(row: Seq<BoardSpace>, b: int)
    requires
        0 <= b,
        2 * b <= usize::MAX,
        forall|c: int| 0 <= c < row.len() ==> match #[trigger] row[c] {
            BoardSpace::Tile(v) => v <= b,
            BoardSpace::Vacant => true,
        },
    ensures
        row_fits(row),
        row_gain(row) <= tiles_of(row).len() * b,
{
    lemma_tiles_bounded(row, b);
    lemma_merge_bounded(tiles_of(row), b);
}

/// The value of an occupied cell.
pub open spec fn value_of(cell: BoardSpace) -> usize {
    match cell {
        BoardSpace::Tile(v) => v,
        BoardSpace::Vacant => 0,
    }
}

/// A row with no vacant cell lists the value of every cell, in order.
proof fn lemma_full_row_tiles(row: Seq<BoardSpace>)
    requires
        forall|i: int| 0 <= i < row.len() ==> #[trigger] row[i] != BoardSpace::Vacant,
    ensures
        tiles_of(row).len() == row.len(),
        forall|i: int| 0 <= i < row.len() ==> #[trigger] tiles_of(row)[i] == value_of(row[i]),
    decreases row.len(),
{
    if row.len() > 0 {
        let rest = row.subrange(1, row.len() as int);
        assert forall|i: int| 0 <= i < rest.len() implies #[trigger] rest[i] != BoardSpace::Vacant by {
            assert(rest[i] == row[i + 1]);
        }
        lemma_full_row_tiles(rest);
        assert(row[0] != BoardSpace::Vacant);
        let t = value_of(row[0]);
        assert(row[0] == BoardSpace::Tile(t));
        assert(tiles_of(row) == seq![t] + tiles_of(rest));
        assert forall|i: int| 0 <= i < row.len() implies #[trigger] tiles_of(row)[i] == value_of(row[i]) by {
            if i > 0 {
                assert(tiles_of(row)[i] == tiles_of(rest)[i - 1]);
                assert(rest[i - 1] == row[i]);
            }
        }
    }
}

/// With no two equal neighbours, merging keeps every tile as it is.
proof fn lemma_merge_distinct(s: Seq<usize>)
    requires
        forall|i: int| 0 <= i < s.len() - 1 ==> #[trigger] s[i] != s[i + 1],
    ensures
        merge_tiles(s) == s.map_values(|v: usize| v as int),
    decreases s.len(),
{
    if s.len() >= 2 {
        let rest = s.subrange(1, s.len() as int);
        assert forall|i: int| 0 <= i < rest.len() - 1 implies #[trigger] rest[i] != rest[i + 1] by {
            assert(rest[i] == s[i + 1] && rest[i + 1] == s[i + 2]);
        }
        lemma_merge_distinct(rest);
        assert(s[0] != s[1]);
        assert(merge_tiles(s) =~= s.map_values(|v: usize| v as int));
    } else if s.len() == 1 {
        assert(merge_tiles(s) =~= s.map_values(|v: usize| v as int));
    } else {
        assert(merge_tiles(s) =~= s.map_values(|v: usize| v as int));
    }
}

/// A merge that keeps every tile had no two equal neighbours.
proof fn lemma_merge_keeps_all(s: Seq<usize>)
    requires
        merge_tiles(s).len() == s.len(),
    ensures
        forall|i: int| 0 <= i < s.len() - 1 ==> #[trigger] s[i] != s[i + 1],
    decreases s.len(),
{
    if s.len() >= 2 {
        if s[0] == s[1] {
            lemma_merge_len(s.subrange(2, s.len() as int));
        } else {
            let rest = s.subrange(1, s.len() as int);
            lemma_merge_keeps_all(rest);
            assert forall|i: int| 0 <= i < s.len() - 1 implies #[trigger] s[i] != s[i + 1] by {
                if i > 0 {
                    assert(rest[i - 1] == s[i] && rest[i] == s[i + 1]);
                }
            }
        }
    }
}

/// A full row with no two equal neighbours does not change when slid.
pub proof fn lemma_settled_row(row: Seq<BoardSpace>)
    requires
        forall|i: int| 0 <= i < row.len() ==> #[trigger] row[i] != BoardSpace::Vacant,
        forall|i: int| 0 <= i < row.len() - 1 ==> #[trigger] row[i] != row[i + 1],
    ensures
        slid_row(row) == row,
{
    lemma_full_row_tiles(row);
    let t = tiles_of(row);
    assert forall|i: int| 0 <= i < t.len() - 1 implies #[trigger] t[i] != t[i + 1] by {
        assert(row[i] != row[i + 1]);
        assert(row[i] == BoardSpace::Tile(value_of(row[i])));
        assert(row[i + 1] == BoardSpace::Tile(value_of(row[i + 1])));
    }
    lemma_merge_distinct(t);
    assert forall|i: int| 0 <= i < row.len() implies slid_row(row)[i] == row[i] by {
        assert(row[i] == BoardSpace::Tile(value_of(row[i])));
    }
    assert(slid_row(row) =~= row);
}

/// A full row with two equal neighbours changes when slid.
pub proof fn lemma_pair_row_changes(row: Seq<BoardSpace>, c: int)
    requires
        forall|i: int| 0 <= i < row.len() ==> #[trigger] row[i] != BoardSpace::Vacant,
        0 <= c < row.len() - 1,
        row[c] == row[c + 1],
    ensures
        slid_row(row) != row,
{
    lemma_full_row_tiles(row);
    let t = tiles_of(row);
    lemma_merge_len(t);
    if slid_row(row) == row {
        let m = merge_tiles(t);
        if m.len() < row.len() {
            assert(slid_row(row)[row.len() - 1] == BoardSpace::Vacant);
            assert(row[row.len() - 1] != BoardSpace::Vacant);
        }
        lemma_merge_keeps_all(t);
        assert(t[c] != t[c + 1]);
        assert(row[c] == BoardSpace::Tile(value_of(row[c])));
        assert(row[c + 1] == BoardSpace::Tile(value_of(row[c + 1])));
    }
}

/// A row with a vacant cell in front of a tile changes when slid.
pub proof fn lemma_gap_row_changes(row: Seq<BoardSpace>, i: int, j: int)
    requires
        0 <= i < j < row.len(),
        row[i] == BoardSpace::Vacant,
        row[j] != BoardSpace::Vacant,
    ensures
        slid_row(row) != row,
{
    if slid_row(row) == row {
        assert(slid_row(row)[i] == row[i]);
        assert(slid_row(row)[j] == row[j]);
    }
}

/// Two equal tiles at the front of a row become one tile of twice the value,
/// the score gains exactly that value, and the rest of the row merges on its
/// own: a tile merges at most once.
pub proof fn lemma_pair_doubles(t: usize, rest: Seq<usize>)
    ensures
        merge_tiles(seq![t, t] + rest) == seq![2 * t] + merge_tiles(rest),
        merge_gain(seq![t, t] + rest) == 2 * t + merge_gain(rest),
{
    let s = seq![t, t] + rest;
    assert(s.subrange(2, s.len() as int) =~= rest);
}

/// The values of `s` as integers.
pub open spec fn ints(s: Seq<usize>) -> Seq<int> {
    s.map_values(|v: usize| v as int)
}

/// `row` holds a vacant cell in front of a tile.
pub open spec fn has_gap(row: Seq<BoardSpace>) -> bool {
    exists|i: int, j: int|
        0 <= i < j < row.len() && #[trigger] row[i] == BoardSpace::Vacant && #[trigger] row[j]
            != BoardSpace::Vacant
}

proof fn lemma_tiles_concat(a: Seq<BoardSpace>, b: Seq<BoardSpace>)
    ensures
        tiles_of(a + b) == tiles_of(a) + tiles_of(b),
    decreases a.len(),
{
    if a.len() == 0 {
        assert(a + b =~= b);
    } else {
        let ab = a + b;
        let a1 = a.subrange(1, a.len() as int);
        assert(ab.subrange(1, ab.len() as int) =~= a1 + b);
        lemma_tiles_concat(a1, b);
        assert(ab[0] == a[0]);
        if let BoardSpace::Tile(t) = a[0] {
            assert(seq![t] + (tiles_of(a1) + tiles_of(b)) =~= (seq![t] + tiles_of(a1)) + tiles_of(b));
        }
    }
}

proof fn lemma_tiles_vacant(a: Seq<BoardSpace>)
    requires
        forall|i: int| 0 <= i < a.len() ==> #[trigger] a[i] == BoardSpace::Vacant,
    ensures
        tiles_of(a) == Seq::<usize>::empty(),
    decreases a.len(),
{
    if a.len() > 0 {
        let a1 = a.subrange(1, a.len() as int);
        assert forall|i: int| 0 <= i < a1.len() implies #[trigger] a1[i] == BoardSpace::Vacant by {
            assert(a1[i] == a[i + 1]);
        }
        lemma_tiles_vacant(a1);
        assert(a[0] == BoardSpace::Vacant);
    }
}

/// The tiles of `row` from `x` on, split at `y`.
proof fn lemma_tiles_split(row: Seq<BoardSpace>, x: int, y: int)
    requires
        0 <= x <= y <= row.len(),
    ensures
        tiles_of(row.subrange(x, row.len() as int)) == tiles_of(row.subrange(x, y)) + tiles_of(
            row.subrange(y, row.len() as int),
        ),
{
    assert(row.subrange(x, row.len() as int) =~= row.subrange(x, y) + row.subrange(y, row.len() as int));
    lemma_tiles_concat(row.subrange(x, y), row.subrange(y, row.len() as int));
}

/// Vacant cells from `x` up to `y` add no tile.
proof fn lemma_tiles_skip(row: Seq<BoardSpace>, x: int, y: int)
    requires
        0 <= x <= y <= row.len(),
        forall|k: int| x <= k < y ==> #[trigger] row[k] == BoardSpace::Vacant,
    ensures
        tiles_of(row.subrange(x, row.len() as int)) == tiles_of(row.subrange(y, row.len() as int)),
{
    lemma_tiles_split(row, x, y);
    let mid = row.subrange(x, y);
    assert forall|i: int| 0 <= i < mid.len() implies #[trigger] mid[i] == BoardSpace::Vacant by {
        assert(mid[i] == row[x + i]);
    }
    lemma_tiles_vacant(mid);
    assert(Seq::<usize>::empty() + tiles_of(row.subrange(y, row.len() as int)) =~= tiles_of(
        row.subrange(y, row.len() as int),
    ));
}

/// The tiles of a whole row are those before `x` and those from `x` on.
proof fn lemma_tiles_whole(row: Seq<BoardSpace>, x: int)
    requires
        0 <= x <= row.len(),
    ensures
        tiles_of(row) == tiles_of(row.subrange(0, x)) + tiles_of(row.subrange(x, row.len() as int)),
{
    lemma_tiles_split(row, 0, x);
    assert(row.subrange(0, row.len() as int) =~= row);
}

/// A row of tiles up to `k` and vacant cells after it lists those tiles.
proof fn lemma_packed_values(row: Seq<BoardSpace>, k: int)
    requires
        0 <= k <= row.len(),
        forall|i: int| 0 <= i < k ==> #[trigger] row[i] != BoardSpace::Vacant,
        forall|i: int| k <= i < row.len() ==> #[trigger] row[i] == BoardSpace::Vacant,
    ensures
        tiles_of(row).len() == k,
        forall|i: int| 0 <= i < k ==> #[trigger] tiles_of(row)[i] == value_of(row[i]),
{
    let front = row.subrange(0, k);
    let back = row.subrange(k, row.len() as int);
    assert forall|i: int| 0 <= i < front.len() implies #[trigger] front[i] != BoardSpace::Vacant by {
        assert(front[i] == row[i]);
    }
    assert forall|i: int| 0 <= i < back.len() implies #[trigger] back[i] == BoardSpace::Vacant by {
        assert(back[i] == row[k + i]);
    }
    lemma_full_row_tiles(front);
    lemma_tiles_vacant(back);
    lemma_tiles_whole(row, k);
    assert(tiles_of(row) =~= tiles_of(front));
    assert forall|i: int| 0 <= i < k implies #[trigger] tiles_of(row)[i] == value_of(row[i]) by {
        assert(front[i] == row[i]);
    }
}

proof fn lemma_tiles_step(row: Seq<BoardSpace>, x: int)
    requires
        0 <= x < row.len(),
    ensures
        tiles_of(row.subrange(x, row.len() as int)) == match row[x] {
            BoardSpace::Vacant => tiles_of(row.subrange(x + 1, row.len() as int)),
            BoardSpace::Tile(t) => seq![t] + tiles_of(row.subrange(x + 1, row.len() as int)),
        },
{
    let s = row.subrange(x, row.len() as int);
    assert(s.subrange(1, s.len() as int) =~= row.subrange(x + 1, row.len() as int));
}

/// The index of the first tile at or after `from`, or the row's length.
fn next_tile(row: &Row, from: usize) -> (x2: usize)
    requires
        from <= GAME_BOARD_SIZE,
    ensures
        from <= x2 <= GAME_BOARD_SIZE,
        forall|k: int| from <= k < x2 ==> #[trigger] row[k] == BoardSpace::Vacant,
        x2 < GAME_BOARD_SIZE ==> row[x2 as int] != BoardSpace::Vacant,
{
    let mut x2 = from;
    while x2 < GAME_BOARD_SIZE && row[x2] == BoardSpace::Vacant
        invariant
            from <= x2 <= GAME_BOARD_SIZE,
            forall|k: int| from <= k < x2 ==> #[trigger] row[k] == BoardSpace::Vacant,
        decreases GAME_BOARD_SIZE - x2,
    {
        x2 += 1;
    }
    x2
}

/// Slides the tiles of `row` to the front, merging equal neighbours, and adds
/// the merged tiles to `score`. Returns whether the row changed.
///
/// A first scan merges each tile with the nearest tile behind it when the two
/// are equal; a second scan moves each tile into the first vacant cell in
/// front of it.
pub fn slide_row(row: &mut Row, score: &mut usize) -> (changed: bool)
    requires
        row_fits(old(row)@),
        *old(score) + row_gain(old(row)@) <= usize::MAX,
    ensures
        final(row)@ == slid_row(old(row)@),
        *final(score) == *old(score) + row_gain(old(row)@),
        changed == (final(row)@ != old(row)@),
{
    let ghost src = row@;
    let ghost all = tiles_of(src);
    let n: usize = GAME_BOARD_SIZE;
    let mut merged = false;
    let ghost mut merges: int = 0;
    proof {
        lemma_gain_nonneg(all);
        lemma_tiles_whole(src, 0);
        assert(src.subrange(0, 0) =~= Seq::<BoardSpace>::empty());
        assert(tiles_of(Seq::<BoardSpace>::empty()) == Seq::<usize>::empty());
        assert(src.subrange(0, n as int) =~= src);
        assert(ints(Seq::<usize>::empty()) + merge_tiles(all) =~= merge_tiles(all));
    }
    let mut x: usize = 0;
    while x < n
        invariant
            n == GAME_BOARD_SIZE,
            x <= n,
            all == tiles_of(src),
            merge_fits(all),
            merge_gain(all) + *old(score) <= usize::MAX,
            merge_tiles(all) == ints(tiles_of(row@.subrange(0, x as int))) + merge_tiles(
                tiles_of(row@.subrange(x as int, n as int)),
            ),
            *score - *old(score) + merge_gain(tiles_of(row@.subrange(x as int, n as int)))
                == merge_gain(all),
            tiles_of(row@).len() + merges == all.len(),
            merges >= 0,
            merged == (merges > 0),
            !merged ==> row@ == src,
        decreases n - x,
    {
        let ghost before = row@;
        proof {
            lemma_tiles_step(before, x as int);
            lemma_tiles_whole(before, x as int);
            lemma_tiles_whole(before, x + 1);
            lemma_tiles_split(before.subrange(0, x + 1), x as int, x + 1);
            assert(before.subrange(0, x + 1).subrange(0, x as int) =~= before.subrange(0, x as int));
            assert(before.subrange(0, x + 1).subrange(x as int, x + 1) =~= seq![before[x as int]]);
            assert(before.subrange(0, x + 1) =~= before.subrange(0, x as int) + seq![before[x as int]]);
            lemma_tiles_concat(before.subrange(0, x as int), seq![before[x as int]]);
            assert(seq![before[x as int]].subrange(1, 1) =~= Seq::<BoardSpace>::empty());
        }
        if let BoardSpace::Tile(t) = row[x] {
            let x2 = next_tile(row, x + 1);
            proof {
                lemma_tiles_skip(before, x + 1, x2 as int);
            }
            let ghost rest = tiles_of(before.subrange(x + 1, n as int));
            let ghost prefix = tiles_of(before.subrange(0, x as int));
            if x2 < n && row[x2] == BoardSpace::Tile(t) {
                proof {
                    lemma_tiles_step(before, x2 as int);
                    let after2 = tiles_of(before.subrange(x2 + 1, n as int));
                    assert(rest == seq![t] + after2);
                    assert(seq![t] + rest =~= seq![t, t] + after2);
                    lemma_pair_doubles(t, after2);
                    lemma_gain_nonneg(after2);
                    assert(merge_tiles(all)[prefix.len() as int] == 2 * t);
                }
                let v: usize = 2 * t;
                *score = *score + v;
                row[x] = BoardSpace::Tile(v);
                row[x2] = BoardSpace::Vacant;
                proof {
                    let now = row@;
                    let after2 = tiles_of(before.subrange(x2 + 1, n as int));
                    assert(now.subrange(0, x as int) =~= before.subrange(0, x as int));
                    assert(now.subrange(x2 + 1, n as int) =~= before.subrange(x2 + 1, n as int));
                    lemma_tiles_whole(now, x + 1);
                    lemma_tiles_whole(now, x as int);
                    lemma_tiles_concat(now.subrange(0, x as int), seq![now[x as int]]);
                    assert(now.subrange(0, x + 1) =~= now.subrange(0, x as int) + seq![now[x as int]]);
                    assert(seq![now[x as int]].subrange(1, 1) =~= Seq::<BoardSpace>::empty());
                    assert(now[x2 as int] == BoardSpace::Vacant);
                    assert forall|k: int| x + 1 <= k < x2 + 1 implies #[trigger] now[k] == BoardSpace::Vacant by {
                        if k < x2 {
                            assert(now[k] == before[k]);
                        }
                    }
                    lemma_tiles_skip(now, x + 1, x2 + 1);
                    assert(tiles_of(now.subrange(x + 1, n as int)) == after2);
                    assert(tiles_of(now.subrange(0, x + 1)) == prefix + seq![v]);
                    assert(ints(prefix + seq![v]) =~= ints(prefix) + seq![2 * t]);
                    assert(merge_tiles(all) =~= ints(tiles_of(now.subrange(0, x + 1))) + merge_tiles(
                        tiles_of(now.subrange(x + 1, n as int)),
                    ));
                    lemma_tiles_whole(before, x2 as int);
                    lemma_tiles_split(before, x as int, x2 as int);
                    assert(tiles_of(before).len() == tiles_of(now).len() + 1) by {
                        lemma_tiles_whole(now, x + 1);
                        lemma_tiles_whole(before, x + 1);
                    }
                    merges = merges + 1;
                }
                merged = true;
            } else {
                proof {
                    if x2 < n {
                        lemma_tiles_step(before, x2 as int);
                        let t2 = value_of(before[x2 as int]);
                        assert(before[x2 as int] == BoardSpace::Tile(t2));
                        let u = seq![t] + rest;
                        assert(u.subrange(1, u.len() as int) =~= rest);
                        assert(merge_tiles(u) == seq![t as int] + merge_tiles(rest));
                        assert(merge_gain(u) == merge_gain(rest));
                    } else {
                        assert(before.subrange(n as int, n as int) =~= Seq::<BoardSpace>::empty());
                        assert(rest =~= Seq::<usize>::empty());
                        assert(seq![t] + rest =~= seq![t]);
                    }
                    assert(ints(prefix + seq![t]) =~= ints(prefix) + seq![t as int]);
                }
            }
        } else {
            proof {
                assert(tiles_of(before.subrange(0, x + 1)) =~= tiles_of(before.subrange(0, x as int)));
            }
        }
        x += 1;
    }
    let ghost row1 = row@;
    proof {
        assert(row1.subrange(0, n as int) =~= row1);
        assert(row1.subrange(n as int, n as int) =~= Seq::<BoardSpace>::empty());
        assert(merge_tiles(all) =~= ints(tiles_of(row1)));
    }
    let mut swapped = false;
    let ghost mut filled: int = 0;
    let mut x: usize = 0;
    while x < n
        invariant
            n == GAME_BOARD_SIZE,
            x <= n,
            tiles_of(row@) == tiles_of(row1),
            0 <= filled <= x,
            forall|i: int| 0 <= i < filled ==> #[trigger] row@[i] != BoardSpace::Vacant,
            filled < x ==> forall|j: int| filled <= j < n ==> #[trigger] row@[j] == BoardSpace::Vacant,
            !swapped ==> row@ == row1,
            swapped ==> has_gap(row1),
        decreases n - x,
    {
        if row[x] == BoardSpace::Vacant {
            let x2 = next_tile(row, x);
            if x2 < n {
                let ghost before = row@;
                proof {
                    assert(before[x as int] == BoardSpace::Vacant);
                    assert(before[x2 as int] != BoardSpace::Vacant);
                    if !swapped {
                        assert(row1[x as int] == BoardSpace::Vacant && row1[x2 as int] != BoardSpace::Vacant);
                    }
                    if filled < x {
                        assert(before[x2 as int] == BoardSpace::Vacant);
                    }
                }
                let tile = row[x2];
                row[x2] = BoardSpace::Vacant;
                row[x] = tile;
                proof {
                    let now = row@;
                    lemma_tiles_whole(before, x as int);
                    lemma_tiles_whole(now, x as int);
                    assert(now.subrange(0, x as int) =~= before.subrange(0, x as int));
                    lemma_tiles_skip(before, x as int, x2 as int);
                    lemma_tiles_step(before, x2 as int);
                    lemma_tiles_step(now, x as int);
                    assert forall|k: int| x + 1 <= k < x2 + 1 implies #[trigger] now[k] == BoardSpace::Vacant by {}
                    lemma_tiles_skip(now, x + 1, x2 + 1);
                    assert(now.subrange(x2 + 1, n as int) =~= before.subrange(x2 + 1, n as int));
                    filled = filled + 1;
                }
                swapped = true;
            } else {
                proof {
                    assert forall|j: int| filled <= j < n implies #[trigger] row@[j] == BoardSpace::Vacant by {
                        if j < x {
                            assert(filled < x);
                        }
                    }
                }
            }
        } else {
            proof {
                if filled < x {
                    assert(row@[x as int] == BoardSpace::Vacant);
                }
                filled = filled + 1;
            }
        }
        x += 1;
    }
    proof {
        let fin = row@;
        let m = merge_tiles(all);
        assert forall|j: int| filled <= j < n implies #[trigger] fin[j] == BoardSpace::Vacant by {
            if filled < x {
            }
        }
        lemma_packed_values(fin, filled);
        assert forall|i: int| 0 <= i < n implies slid_row(src)[i] == fin[i] by {
            if i < filled {
                assert(m[i] == tiles_of(fin)[i] as int);
                assert(fin[i] == BoardSpace::Tile(value_of(fin[i])));
            }
        }
        assert(fin =~= slid_row(src));
        if merged {
            lemma_tiles_len(src);
            assert(tiles_of(fin).len() < tiles_of(src).len());
            assert(fin != src);
        } else if swapped {
            let (i, j) = choose|i: int, j: int|
                0 <= i < j < row1.len() && #[trigger] row1[i] == BoardSpace::Vacant && #[trigger] row1[j]
                    != BoardSpace::Vacant;
            lemma_gap_row_changes(src, i, j);
        }
    }
    merged || swapped
}

} // verus!
