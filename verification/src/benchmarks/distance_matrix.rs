//! The matrix of all pairwise distances over an ordered list of pages.

use vstd::prelude::*;

use crate::benchmarks::holds;
use crate::benchmarks::keeps;
use crate::benchmarks::lookup_or_compute;
use crate::benchmarks::pair_key;
use crate::calculate_spec;
use crate::benchmarks::pair_key_is_symmetric;
use crate::benchmarks::Cache;
use crate::benchmarks::Entries;
use crate::compress::CompressionFailure;
use crate::compress::Distance;

verus! {

/// One cell of the matrix: the distance of a pair, or the failure to compute it.
pub type Cell = Result<Distance, CompressionFailure>;

/// The texts of a list of pages.
pub open spec fn texts(pages: Seq<String>) -> Seq<Seq<char>> {
    pages.map_values(|page: String| page@)
}

/// The cells of a matrix.
pub open spec fn cells(matrix: Seq<Vec<Cell>>) -> Seq<Seq<Cell>> {
    matrix.map_values(|row: Vec<Cell>| row@)
}

/// One row: `page` against each of `pages` in turn, each cell by one query of
/// the cache, and what the cache holds after the last.
pub open spec fn row_of(entries: Entries, page: Seq<char>, pages: Seq<Seq<char>>) -> (
    Seq<Cell>,
    Entries,
)
    decreases pages.len(),
{
    if pages.len() == 0 {
        (Seq::empty(), entries)
    } else {
        let (row, before) = row_of(entries, page, pages.drop_last());
        let (cell, after) = lookup_or_compute(before, page, pages.last());
        (row.push(cell), after)
    }
}

/// The first `count` rows, from the top, and what the cache holds after them.
pub open spec fn rows_of(entries: Entries, pages: Seq<Seq<char>>, count: nat) -> (
    Seq<Seq<Cell>>,
    Entries,
)
    decreases count,
{
    if count == 0 {
        (Seq::empty(), entries)
    } else {
        let (rows, before) = rows_of(entries, pages, (count - 1) as nat);
        let (row, after) = row_of(before, pages[count - 1], pages);
        (rows.push(row), after)
    }
}

/// The matrix over `pages`, row by row and cell by cell in the order of the
/// pages, and what the cache holds afterwards.
pub open spec fn matrix_of(entries: Entries, pages: Seq<Seq<char>>) -> (Seq<Seq<Cell>>, Entries) {
    rows_of(entries, pages, pages.len())
}

/// The row of `page` against `pages`.
pub fn distance_row(cache: &mut Cache, page: &str, pages: &Vec<String>) -> (row: Vec<Cell>)
    ensures
        (row@, final(cache)@) == row_of(old(cache)@, page@, texts(pages@)),
        row.len() == pages.len(),
{
    let ghost all = texts(pages@);
    let mut row: Vec<Cell> = Vec::new();
    let mut j: usize = 0;
    assert(all.take(0) =~= Seq::empty());
    while j < pages.len()
        invariant
            j <= pages.len(),
            all == texts(pages@),
            (row@, cache@) == row_of(old(cache)@, page@, all.take(j as int)),
        decreases pages.len() - j,
    {
        assert(all.take(j + 1).drop_last() =~= all.take(j as int));
        assert(all.take(j + 1).last() == pages[j as int]@);
        let cell = cache.calculate(page, pages[j].as_str());
        row.push(cell);
        j += 1;
    }
    assert(all.take(j as int) =~= all);
    proof {
        lemma_row(old(cache)@, page@, all);
    }
    row
}

/// The matrix of the distances between all pairs of `pages`: the cell in row
/// `i` and column `j` is the answer of the cache for page `i` against page `j`.
/// The axes keep the order of the pages. Nothing is computed here but through
/// the cache, and no pair is skipped on account of symmetry.
pub fn heatmap(cache: &mut Cache, pages: &Vec<String>) -> (matrix: Vec<Vec<Cell>>)
    ensures
        (cells(matrix@), final(cache)@) == matrix_of(old(cache)@, texts(pages@)),
        matrix.len() == pages.len(),
        forall|i: int| 0 <= i < matrix.len() ==> (#[trigger] matrix[i]).len() == pages.len(),
{
    let mut matrix: Vec<Vec<Cell>> = Vec::new();
    let mut i: usize = 0;
    while i < pages.len()
        invariant
            i <= pages.len(),
            (cells(matrix@), cache@) == rows_of(old(cache)@, texts(pages@), i as nat),
            matrix.len() == i,
            forall|k: int| 0 <= k < i ==> (#[trigger] matrix[k]).len() == pages.len(),
        decreases pages.len() - i,
    {
        let ghost above = cells(matrix@);
        let row = distance_row(cache, pages[i].as_str(), pages);
        matrix.push(row);
        assert(cells(matrix@) =~= above.push(row@));
        i += 1;
    }
    matrix
}

/// A row has a cell for each page; it keeps what the cache held; and each
/// distance in it is held under the key of its pair afterwards.
proof fn lemma_row(entries: Entries, page: Seq<char>, pages: Seq<Seq<char>>)
    ensures
        row_of(entries, page, pages).0.len() == pages.len(),
        keeps(entries, row_of(entries, page, pages).1),
        forall|j: int|
            0 <= j < pages.len() ==> match #[trigger] row_of(entries, page, pages).0[j] {
                Ok(distance) => holds(
                    row_of(entries, page, pages).1,
                    pair_key(page, pages[j]),
                    distance,
                ),
                Err(_) => true,
            },
    decreases pages.len(),
{
    if pages.len() > 0 {
        lemma_row(entries, page, pages.drop_last());
        let (row, before) = row_of(entries, page, pages.drop_last());
        let (cell, after) = lookup_or_compute(before, page, pages.last());
        assert(keeps(before, after));
        assert forall|j: int| 0 <= j < pages.len() implies match #[trigger] row.push(cell)[j] {
            Ok(distance) => holds(after, pair_key(page, pages[j]), distance),
            Err(_) => true,
        } by {
            if j < pages.len() - 1 {
                assert(row.push(cell)[j] == row[j]);
                assert(pages.drop_last()[j] == pages[j]);
            }
        }
    }
}

/// The rows are as many as were asked for, each as long as the list of pages;
/// they keep what the cache held; and each distance in them is held under the
/// key of its pair afterwards.
proof fn lemma_rows(entries: Entries, pages: Seq<Seq<char>>, count: nat)
    requires
        count <= pages.len(),
    ensures
        rows_of(entries, pages, count).0.len() == count,
        keeps(entries, rows_of(entries, pages, count).1),
        forall|i: int|
            0 <= i < count ==> (#[trigger] rows_of(entries, pages, count).0[i]).len()
                == pages.len(),
        forall|i: int, j: int|
            0 <= i < count && 0 <= j < pages.len() ==> match #[trigger] rows_of(
                entries,
                pages,
                count,
            ).0[i][j] {
                Ok(distance) => holds(
                    rows_of(entries, pages, count).1,
                    pair_key(pages[i], pages[j]),
                    distance,
                ),
                Err(_) => true,
            },
    decreases count,
{
    if count > 0 {
        lemma_rows(entries, pages, (count - 1) as nat);
        let (rows, before) = rows_of(entries, pages, (count - 1) as nat);
        lemma_row(before, pages[count - 1], pages);
        let (row, after) = row_of(before, pages[count - 1], pages);
        assert forall|i: int, j: int| 0 <= i < count && 0 <= j < pages.len() implies match #[trigger] rows.push(
            row,
        )[i][j] {
            Ok(distance) => holds(after, pair_key(pages[i], pages[j]), distance),
            Err(_) => true,
        } by {
            if i < count - 1 {
                assert(rows.push(row)[i] == rows[i]);
            }
        }
    }
}

/// The matrix over a list of pages has as many rows as there are pages, and
/// each row has as many cells.
pub proof fn matrix_is_square(entries: Entries, pages: Seq<Seq<char>>)
    ensures
        matrix_of(entries, pages).0.len() == pages.len(),
        forall|i: int|
            0 <= i < pages.len() ==> (#[trigger] matrix_of(entries, pages).0[i]).len()
                == pages.len(),
{
    lemma_rows(entries, pages, pages.len());
}

/// The matrix is symmetric: the cell of a pair and the cell of the pair in the
/// other order are equal, whatever the cache held before, where both are
/// distances or both are failures.
pub proof fn matrix_is_symmetric(entries: Entries, pages: Seq<Seq<char>>, i: int, j: int)
    requires
        0 <= i < pages.len(),
        0 <= j < pages.len(),
        matrix_of(entries, pages).0[i][j] is Ok <==> matrix_of(entries, pages).0[j][i] is Ok,
    ensures
        matrix_of(entries, pages).0[i][j] == matrix_of(entries, pages).0[j][i],
{
    lemma_rows(entries, pages, pages.len());
    pair_key_is_symmetric(pages[i], pages[j]);
    let matrix = rows_of(entries, pages, pages.len()).0;
    if matrix[i][j] is Err {
        assert(matrix[i][j]->Err_0 == CompressionFailure);
        assert(matrix[j][i]->Err_0 == CompressionFailure);
    }
}

/// Whether the cache holds an entry for every pair of `pages`.
pub open spec fn holds_all_pairs(entries: Entries, pages: Seq<Seq<char>>) -> bool {
    forall|i: int, j: int|
        0 <= i < pages.len() && 0 <= j < pages.len() ==> entries.contains_key(
            #[trigger] pair_key(pages[i], pages[j]),
        )
}

/// A row over pages whose pairs with `page` the cache holds is read off the
/// cache, which stays as it was.
proof fn lemma_warm_row(entries: Entries, page: Seq<char>, pages: Seq<Seq<char>>)
    requires
        forall|j: int|
            0 <= j < pages.len() ==> entries.contains_key(pair_key(page, #[trigger] pages[j])),
    ensures
        row_of(entries, page, pages).1 == entries,
        row_of(entries, page, pages).0.len() == pages.len(),
        forall|j: int|
            0 <= j < pages.len() ==> #[trigger] row_of(entries, page, pages).0[j] == Ok::<
                Distance,
                CompressionFailure,
            >(entries[pair_key(page, pages[j])]),
    decreases pages.len(),
{
    if pages.len() > 0 {
        assert forall|j: int| 0 <= j < pages.drop_last().len() implies entries.contains_key(
            pair_key(page, #[trigger] pages.drop_last()[j]),
        ) by {
            assert(pages.drop_last()[j] == pages[j]);
        }
        lemma_warm_row(entries, page, pages.drop_last());
        let (row, before) = row_of(entries, page, pages.drop_last());
        let (cell, after) = lookup_or_compute(before, page, pages.last());
        assert forall|j: int| 0 <= j < pages.len() implies #[trigger] row.push(cell)[j] == Ok::<
            Distance,
            CompressionFailure,
        >(entries[pair_key(page, pages[j])]) by {
            if j < pages.len() - 1 {
                assert(row.push(cell)[j] == row[j]);
                assert(pages.drop_last()[j] == pages[j]);
            }
        }
    }
}

/// The first rows of a matrix over pages all of whose pairs the cache holds
/// are read off the cache, which stays as it was.
proof fn lemma_warm_rows(entries: Entries, pages: Seq<Seq<char>>, count: nat)
    requires
        count <= pages.len(),
        holds_all_pairs(entries, pages),
    ensures
        rows_of(entries, pages, count).1 == entries,
        rows_of(entries, pages, count).0.len() == count,
        forall|i: int, j: int|
            0 <= i < count && 0 <= j < pages.len() ==> #[trigger] rows_of(
                entries,
                pages,
                count,
            ).0[i][j] == Ok::<Distance, CompressionFailure>(
                entries[pair_key(pages[i], pages[j])],
            ),
    decreases count,
{
    if count > 0 {
        lemma_warm_rows(entries, pages, (count - 1) as nat);
        let (rows, before) = rows_of(entries, pages, (count - 1) as nat);
        assert forall|j: int| 0 <= j < pages.len() implies entries.contains_key(
            pair_key(pages[count - 1], #[trigger] pages[j]),
        ) by {
            assert(entries.contains_key(pair_key(pages[count - 1], pages[j])));
        }
        lemma_warm_row(entries, pages[count - 1], pages);
        let (row, after) = row_of(before, pages[count - 1], pages);
        assert forall|i: int, j: int| 0 <= i < count && 0 <= j < pages.len() implies #[trigger] rows.push(
            row,
        )[i][j] == Ok::<Distance, CompressionFailure>(
            entries[pair_key(pages[i], pages[j])],
        ) by {
            if i < count - 1 {
                assert(rows.push(row)[i] == rows[i]);
            }
        }
    }
}

/// Over a cache that holds every pair of the pages, the matrix is read off the
/// cache: nothing is computed, the cache stays as it was, each cell is the
/// distance held for its pair, and the matrix is symmetric throughout.
pub proof fn warm_matrix_reads_the_cache(entries: Entries, pages: Seq<Seq<char>>, i: int, j: int)
    requires
        holds_all_pairs(entries, pages),
        0 <= i < pages.len(),
        0 <= j < pages.len(),
    ensures
        matrix_of(entries, pages).1 == entries,
        matrix_of(entries, pages).0[i][j] == Ok::<Distance, CompressionFailure>(
            entries[pair_key(pages[i], pages[j])],
        ),
        matrix_of(entries, pages).0[i][j] == matrix_of(entries, pages).0[j][i],
{
    lemma_warm_rows(entries, pages, pages.len());
    pair_key_is_symmetric(pages[i], pages[j]);
}

/// Whether the key stands for a pair of `pages` whose distance can be
/// computed.
pub open spec fn has_source(pages: Seq<Seq<char>>, key: crate::benchmarks::PairKey) -> bool {
    exists|i: int, j: int|
        0 <= i < pages.len() && 0 <= j < pages.len() && #[trigger] pair_key(pages[i], pages[j])
            == key && calculate_spec(pages[i], pages[j]) is Ok
}

/// Whether the keys tell the pairs of `pages` apart as far as the distance
/// goes: two pairs with one key have one distance. It holds wherever no two
/// different pages have the same fingerprint.
pub open spec fn keys_tell_pairs_apart(pages: Seq<Seq<char>>) -> bool {
    forall|a: int, b: int, c: int, d: int|
        #![trigger pair_key(pages[a], pages[b]), pair_key(pages[c], pages[d])]
        0 <= a < pages.len() && 0 <= b < pages.len() && 0 <= c < pages.len() && 0 <= d
            < pages.len() && pair_key(pages[a], pages[b]) == pair_key(pages[c], pages[d])
            ==> calculate_spec(pages[a], pages[b]) == calculate_spec(pages[c], pages[d])
}

/// A failure in a row means that the cache held nothing for the pair and the
/// distance could not be computed; and a key that the row adds to the cache
/// stands for a pair of the row whose distance was computed.
proof fn lemma_row_sources(entries: Entries, all: Seq<Seq<char>>, at: int, pages: Seq<Seq<char>>)
    requires
        0 <= at < all.len(),
        pages.len() <= all.len(),
        pages == all.take(pages.len() as int),
    ensures
        forall|j: int|
            0 <= j < pages.len() && (#[trigger] row_of(entries, all[at], pages).0[j]) is Err
                ==> !entries.contains_key(pair_key(all[at], pages[j])) && calculate_spec(
                all[at],
                pages[j],
            ) is Err,
        forall|key: crate::benchmarks::PairKey| #[trigger]
            row_of(entries, all[at], pages).1.contains_key(key) ==> entries.contains_key(key)
                || has_source(all, key),
    decreases pages.len(),
{
    if pages.len() > 0 {
        let page = all[at];
        let front = pages.drop_last();
        assert(front =~= all.take(front.len() as int));
        lemma_row_sources(entries, all, at, front);
        lemma_row(entries, page, front);
        let (row, before) = row_of(entries, page, front);
        let (cell, after) = lookup_or_compute(before, page, pages.last());
        let last = pages.len() - 1;
        assert(pages.last() == all[last]);
        assert forall|j: int|
            0 <= j < pages.len() && (#[trigger] row.push(cell)[j]) is Err implies !entries.contains_key(
            pair_key(page, pages[j]),
        ) && calculate_spec(page, pages[j]) is Err by {
            if j < last {
                assert(row.push(cell)[j] == row[j]);
                assert(front[j] == pages[j]);
            }
        }
        assert forall|key: crate::benchmarks::PairKey| #[trigger]
            after.contains_key(key) implies entries.contains_key(key) || has_source(all, key) by {
            if !before.contains_key(key) {
                assert(pair_key(all[at], all[last]) == key);
                assert(calculate_spec(all[at], all[last]) is Ok);
            }
        }
    }
}

/// A failure in the first rows means that the cache held nothing for the pair
/// and the distance could not be computed; and a key that the rows add to the
/// cache stands for a pair of pages whose distance was computed.
proof fn lemma_rows_sources(entries: Entries, pages: Seq<Seq<char>>, count: nat)
    requires
        count <= pages.len(),
    ensures
        forall|i: int, j: int|
            0 <= i < count && 0 <= j < pages.len() && (#[trigger] rows_of(
                entries,
                pages,
                count,
            ).0[i][j]) is Err ==> !entries.contains_key(pair_key(pages[i], pages[j]))
                && calculate_spec(pages[i], pages[j]) is Err,
        forall|key: crate::benchmarks::PairKey| #[trigger]
            rows_of(entries, pages, count).1.contains_key(key) ==> entries.contains_key(key)
                || has_source(pages, key),
    decreases count,
{
    if count > 0 {
        lemma_rows_sources(entries, pages, (count - 1) as nat);
        lemma_rows(entries, pages, (count - 1) as nat);
        let (rows, before) = rows_of(entries, pages, (count - 1) as nat);
        assert(pages =~= pages.take(pages.len() as int));
        lemma_row_sources(before, pages, count - 1, pages);
        let (row, after) = row_of(before, pages[count - 1], pages);
        assert forall|i: int, j: int|
            0 <= i < count && 0 <= j < pages.len() && (#[trigger] rows.push(row)[i][j]) is Err implies !entries.contains_key(
            pair_key(pages[i], pages[j]),
        ) && calculate_spec(pages[i], pages[j]) is Err by {
            if i < count - 1 {
                assert(rows.push(row)[i] == rows[i]);
            } else {
                assert(rows.push(row)[i] == row);
                assert(row[j] is Err);
            }
        }
    }
}

/// The matrix is symmetric throughout, whatever the cache held before and
/// whether or not a compression fails, where the keys tell the pairs of the
/// pages apart.
pub proof fn matrix_is_symmetric_where_keys_tell_pairs_apart(
    entries: Entries,
    pages: Seq<Seq<char>>,
    i: int,
    j: int,
)
    requires
        keys_tell_pairs_apart(pages),
        0 <= i < pages.len(),
        0 <= j < pages.len(),
    ensures
        matrix_of(entries, pages).0[i][j] == matrix_of(entries, pages).0[j][i],
{
    let matrix = matrix_of(entries, pages).0;
    let after = matrix_of(entries, pages).1;
    let key = pair_key(pages[i], pages[j]);
    lemma_rows(entries, pages, pages.len());
    lemma_rows_sources(entries, pages, pages.len());
    pair_key_is_symmetric(pages[i], pages[j]);
    crate::calculate_is_symmetric(pages[i], pages[j]);
    if matrix[i][j] is Err && matrix[j][i] is Ok {
        assert(after.contains_key(key));
        assert(has_source(pages, key));
        let (a, b) = choose|a: int, b: int|
            0 <= a < pages.len() && 0 <= b < pages.len() && #[trigger] pair_key(pages[a], pages[b])
                == key && calculate_spec(pages[a], pages[b]) is Ok;
        assert(pair_key(pages[a], pages[b]) == pair_key(pages[i], pages[j]));
        assert(false);
    }
    if matrix[j][i] is Err && matrix[i][j] is Ok {
        assert(after.contains_key(key));
        assert(has_source(pages, key));
        let (a, b) = choose|a: int, b: int|
            0 <= a < pages.len() && 0 <= b < pages.len() && #[trigger] pair_key(pages[a], pages[b])
                == key && calculate_spec(pages[a], pages[b]) is Ok;
        assert(pair_key(pages[a], pages[b]) == pair_key(pages[j], pages[i]));
        assert(false);
    }
    matrix_is_symmetric(entries, pages, i, j);
}

/// Where no two different pages have the same fingerprint, the keys tell the
/// pairs of the pages apart.
pub proof fn fingerprints_tell_pairs_apart(pages: Seq<Seq<char>>)
    requires
        forall|a: int, b: int|
            0 <= a < pages.len() && 0 <= b < pages.len() && crate::benchmarks::fingerprint(
                #[trigger] pages[a],
            ) == crate::benchmarks::fingerprint(#[trigger] pages[b]) ==> pages[a] == pages[b],
    ensures
        keys_tell_pairs_apart(pages),
{
    assert forall|a: int, b: int, c: int, d: int|
        #![trigger pair_key(pages[a], pages[b]), pair_key(pages[c], pages[d])]
        0 <= a < pages.len() && 0 <= b < pages.len() && 0 <= c < pages.len() && 0 <= d
            < pages.len() && pair_key(pages[a], pages[b]) == pair_key(
            pages[c],
            pages[d],
        ) implies calculate_spec(pages[a], pages[b]) == calculate_spec(pages[c], pages[d]) by {
        crate::calculate_is_symmetric(pages[a], pages[b]);
        if pages[a] == pages[c] {
            assert(pages[b] == pages[d]);
        } else {
            assert(pages[a] == pages[d]);
            assert(pages[b] == pages[c]);
        }
    }
}

} // verus!
