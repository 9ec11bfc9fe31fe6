//! The triangle inequality, tested on every triple of an ordered list of pages.

use itertools::Itertools;
use vstd::arithmetic::div_mod::lemma_div_denominator;
use vstd::arithmetic::div_mod::lemma_fundamental_div_mod;
use vstd::arithmetic::div_mod::lemma_fundamental_div_mod_converse;
use vstd::arithmetic::div_mod::lemma_mod_bound;
use vstd::prelude::*;

use crate::benchmarks::distance_matrix::texts;
use crate::benchmarks::distance_matrix::Cell;
use crate::benchmarks::lookup_or_compute;
use crate::benchmarks::Cache;
use crate::benchmarks::Entries;
use crate::compress::Distance;

verus! {

/// Three positions in a list of pages.
pub type Triple = (usize, usize, usize);

/// What the test of one triple can report.
#[derive(Clone, Copy, Debug, PartialEq, Eq)]
pub enum Finding {
    /// The three distances break the triangle inequality.
    Violation { triple: Triple, d_ab: Distance, d_ac: Distance, d_bc: Distance },
    /// One of the three distances could not be computed, so the triple was
    /// not tested.
    Failure { triple: Triple },
}

/// Whether the positions of a triple ascend and lie below `n`.
pub open spec fn ascends_below(triple: Triple, n: nat) -> bool {
    triple.0 < triple.1 && triple.1 < triple.2 && triple.2 < n
}

/// The triple at place `x` where all triples of positions below `n` are laid out
/// in lexicographic order.
pub open spec fn triple_at(x: int, n: int) -> Triple {
    ((x / (n * n)) as usize, (x / n % n) as usize, (x % n) as usize)
}

/// The triples of positions below `n` that ascend, in lexicographic order: all
/// triples of positions below `n` are laid out in that order, and those that
/// ascend are kept.
pub open spec fn triples_of(n: nat) -> Seq<Triple> {
    Seq::new(n * n * n, |x: int| triple_at(x, n as int)).filter(
        |triple: Triple| ascends_below(triple, n),
    )
}

/// Collects what `itertools::Itertools::tuple_combinations` yields over the
/// positions below `n`, taken three at a time.
///
/// The contract states what the adaptor is documented to yield: each choice of
/// three positions once, each in ascending order, the choices in lexicographic
/// order.
#[verifier::external_body]
#[allow(deprecated)]
fn ascending_triples(n: usize) -> (triples: Vec<Triple>)
    ensures
        triples@ == triples_of(n as nat),
{
    (0..n).tuple_combinations().collect()
}

/// The finding on one triple, given the answers for its three pairs: a failure
/// where an answer is missing, a violation where the three distances break the
/// triangle inequality, nothing where they obey it.
pub open spec fn judged(triple: Triple, d_ab: Cell, d_ac: Cell, d_bc: Cell) -> Option<Finding> {
    match (d_ab, d_ac, d_bc) {
        (Ok(ab), Ok(ac), Ok(bc)) => if Distance::triangle_holds(ab, ac, bc) {
            None
        } else {
            Some(Finding::Violation { triple, d_ab: ab, d_ac: ac, d_bc: bc })
        },
        _ => Some(Finding::Failure { triple }),
    }
}

/// The test of one triple: three queries of the cache, for the first and the
/// second page, the first and the third, the second and the third, and the
/// finding on their answers.
pub open spec fn examined(entries: Entries, pages: Seq<Seq<char>>, triple: Triple) -> (
    Option<Finding>,
    Entries,
) {
    let (d_ab, first) = lookup_or_compute(entries, pages[triple.0 as int], pages[triple.1 as int]);
    let (d_ac, second) = lookup_or_compute(first, pages[triple.0 as int], pages[triple.2 as int]);
    let (d_bc, third) = lookup_or_compute(second, pages[triple.1 as int], pages[triple.2 as int]);
    (judged(triple, d_ab, d_ac, d_bc), third)
}

/// The findings on a list of triples, in its order, and what the cache holds
/// after the last.
pub open spec fn findings_of(entries: Entries, pages: Seq<Seq<char>>, triples: Seq<Triple>) -> (
    Seq<Finding>,
    Entries,
)
    decreases triples.len(),
{
    if triples.len() == 0 {
        (Seq::empty(), entries)
    } else {
        let (found, before) = findings_of(entries, pages, triples.drop_last());
        let (finding, after) = examined(before, pages, triples.last());
        (
            match finding {
                Some(finding) => found.push(finding),
                None => found,
            },
            after,
        )
    }
}

/// The finding on one triple, given the answers for its three pairs.
pub fn judge(triple: Triple, d_ab: Cell, d_ac: Cell, d_bc: Cell) -> (finding: Option<Finding>)
    ensures
        finding == judged(triple, d_ab, d_ac, d_bc),
{
    match (d_ab, d_ac, d_bc) {
        (Ok(ab), Ok(ac), Ok(bc)) => {
            if Distance::obeys_triangle(&ab, &ac, &bc) {
                None
            } else {
                Some(Finding::Violation { triple, d_ab: ab, d_ac: ac, d_bc: bc })
            }
        },
        _ => Some(Finding::Failure { triple }),
    }
}

/// Tests the triangle inequality on every triple of `pages`, in lexicographic
/// order of the positions, with the distances the cache answers with. All
/// findings are collected; an empty list means that every triple was tested and
/// none broke the inequality.
pub fn triangle_inequality(cache: &mut Cache, pages: &Vec<String>) -> (findings: Vec<Finding>)
    ensures
        (findings@, final(cache)@) == findings_of(
            old(cache)@,
            texts(pages@),
            triples_of(pages.len() as nat),
        ),
{
    let triples = ascending_triples(pages.len());
    let ghost n = pages.len() as nat;
    let mut findings: Vec<Finding> = Vec::new();
    let mut i: usize = 0;
    assert(triples@.take(0) =~= Seq::empty());
    while i < triples.len()
        invariant
            i <= triples.len(),
            n == pages.len(),
            triples@ == triples_of(n),
            (findings@, cache@) == findings_of(old(cache)@, texts(pages@), triples@.take(i as int)),
        decreases triples.len() - i,
    {
        let (a, b, c) = triples[i];
        proof {
            let ascending = |triple: Triple| ascends_below(triple, n);
            let all = Seq::new(n * n * n, |x: int| triple_at(x, n as int));
            all.lemma_filter_pred(ascending, i as int);
            assert(triples@.take(i + 1).drop_last() =~= triples@.take(i as int));
            assert(triples@.take(i + 1).last() == (a, b, c));
        }
        let d_ab = cache.calculate(pages[a].as_str(), pages[b].as_str());
        let d_ac = cache.calculate(pages[a].as_str(), pages[c].as_str());
        let d_bc = cache.calculate(pages[b].as_str(), pages[c].as_str());
        match judge((a, b, c), d_ab, d_ac, d_bc) {
            Some(finding) => {
                findings.push(finding);
            },
            None => {},
        }
        i += 1;
    }
    assert(triples@.take(i as int) =~= triples@);
    findings
}

/// The place of an ascending triple where all triples are laid out.
proof fn lemma_place_of(n: int, a: int, b: int, c: int)
    requires
        0 <= a < n,
        0 <= b < n,
        0 <= c < n,
    ensures
        0 <= a * (n * n) + b * n + c < n * n * n,
        (a * (n * n) + b * n + c) / (n * n) == a,
        (a * (n * n) + b * n + c) / n % n == b,
        (a * (n * n) + b * n + c) % n == c,
{
    let x = a * (n * n) + b * n + c;
    assert(0 <= b * n + c < n * n) by (nonlinear_arith)
        requires
            0 <= b < n,
            0 <= c < n,
    ;
    assert(0 <= a * (n * n) && a * (n * n) + n * n <= n * n * n) by (nonlinear_arith)
        requires
            0 <= a < n,
    ;
    assert(x == (a * n + b) * n + c) by (nonlinear_arith)
        requires
            x == a * (n * n) + b * n + c,
    ;
    lemma_fundamental_div_mod_converse(x, n * n, a, b * n + c);
    lemma_fundamental_div_mod_converse(x, n, a * n + b, c);
    lemma_fundamental_div_mod_converse(a * n + b, n, a, b);
}

/// The triples that are tested are the choices of three positions below `n`,
/// each in ascending order: every such choice is among them, and nothing else
/// is.
pub proof fn triples_are_the_choices(n: nat, a: usize, b: usize, c: usize)
    requires
        n <= usize::MAX,
    ensures
        triples_of(n).contains((a, b, c)) <==> a < b && b < c && c < n,
{
    let all = Seq::new(n * n * n, |x: int| triple_at(x, n as int));
    let ascending = |triple: Triple| ascends_below(triple, n);
    if a < b && b < c && c < n {
        lemma_place_of(n as int, a as int, b as int, c as int);
        let x = a * (n * n) + b * n + c;
        assert(all[x] == (a, b, c));
        all.lemma_filter_contains(ascending, x);
    }
    if triples_of(n).contains((a, b, c)) {
        let i = choose|i: int| 0 <= i < triples_of(n).len() && triples_of(n)[i] == (a, b, c);
        all.lemma_filter_pred(ascending, i);
    }
}

/// Whether a triple comes before another in lexicographic order.
pub open spec fn comes_before(first: Triple, second: Triple) -> bool {
    first.0 < second.0 || (first.0 == second.0 && (first.1 < second.1 || (first.1 == second.1
        && first.2 < second.2)))
}

/// The three positions of the triple at a place, and the place rebuilt from
/// them.
proof fn lemma_positions_at(n: int, x: int)
    requires
        0 < n,
        0 <= x < n * n * n,
    ensures
        0 <= x / (n * n) < n,
        0 <= x / n % n < n,
        0 <= x % n < n,
        x == x / (n * n) * (n * n) + (x / n % n) * n + x % n,
{
    let q = x / n;
    lemma_fundamental_div_mod(x, n);
    lemma_fundamental_div_mod(q, n);
    lemma_div_denominator(x, n, n);
    lemma_mod_bound(x, n);
    lemma_mod_bound(q, n);
    let a = q / n;
    let b = q % n;
    let c = x % n;
    assert(x == a * (n * n) + b * n + c) by (nonlinear_arith)
        requires
            x == n * q + c,
            q == n * a + b,
    ;
    assert(0 <= q) by (nonlinear_arith)
        requires
            x == n * q + c,
            0 <= x,
            0 <= c < n,
    ;
    assert(0 <= a) by (nonlinear_arith)
        requires
            q == n * a + b,
            0 <= q,
            0 <= b < n,
    ;
    assert(a < n) by (nonlinear_arith)
        requires
            x == a * (n * n) + b * n + c,
            x < n * n * n,
            0 <= b,
            0 <= c,
            0 < n,
    ;
}

/// Where all triples of positions below `n` are laid out, an earlier place
/// holds a triple that comes before that of a later place.
proof fn lemma_layout_in_order(n: int, x: int, y: int)
    requires
        0 < n <= usize::MAX,
        0 <= x < y < n * n * n,
    ensures
        comes_before(triple_at(x, n), triple_at(y, n)),
{
    lemma_positions_at(n, x);
    lemma_positions_at(n, y);
    let (a, b, c) = (x / (n * n), x / n % n, x % n);
    let (d, e, f) = (y / (n * n), y / n % n, y % n);
    assert(a < d || (a == d && (b < e || (b == e && c < f)))) by (nonlinear_arith)
        requires
            x == a * (n * n) + b * n + c,
            y == d * (n * n) + e * n + f,
            x < y,
            0 <= b < n,
            0 <= c < n,
            0 <= e < n,
            0 <= f < n,
            0 <= a,
            0 <= d,
            0 < n,
    ;
}

/// Keeping some triples of a list that is in lexicographic order leaves a list
/// in lexicographic order, made of triples of the first.
proof fn lemma_kept_in_order(all: Seq<Triple>, kept: spec_fn(Triple) -> bool)
    requires
        forall|i: int, j: int| 0 <= i < j < all.len() ==> comes_before(all[i], all[j]),
    ensures
        forall|i: int, j: int|
            0 <= i < j < all.filter(kept).len() ==> comes_before(
                #[trigger] all.filter(kept)[i],
                #[trigger] all.filter(kept)[j],
            ),
        forall|i: int|
            0 <= i < all.filter(kept).len() ==> exists|m: int|
                0 <= m < all.len() && all[m] == #[trigger] all.filter(kept)[i],
    decreases all.len(),
{
    reveal(Seq::filter);
    if all.len() > 0 {
        let front = all.drop_last();
        lemma_kept_in_order(front, kept);
        let before = front.filter(kept);
        let after = all.filter(kept);
        assert forall|i: int| 0 <= i < after.len() implies exists|m: int|
            0 <= m < all.len() && all[m] == #[trigger] after[i] by {
            if i < before.len() {
                let m = choose|m: int| 0 <= m < front.len() && front[m] == before[i];
                assert(all[m] == after[i]);
            } else {
                assert(all[all.len() - 1] == after[i]);
            }
        }
        assert forall|i: int, j: int| 0 <= i < j < after.len() implies comes_before(
            #[trigger] after[i],
            #[trigger] after[j],
        ) by {
            if j >= before.len() {
                let m = choose|m: int| 0 <= m < front.len() && front[m] == before[i];
                assert(comes_before(all[m], all[all.len() - 1]));
            }
        }
    }
}

/// The triples are tested in lexicographic order of their positions; so no
/// triple is tested twice.
pub proof fn triples_are_in_order(n: nat, i: int, j: int)
    requires
        n <= usize::MAX,
        0 <= i < j < triples_of(n).len(),
    ensures
        comes_before(triples_of(n)[i], triples_of(n)[j]),
        triples_of(n)[i] != triples_of(n)[j],
{
    let all = Seq::new(n * n * n, |x: int| triple_at(x, n as int));
    let ascending = |triple: Triple| ascends_below(triple, n);
    assert forall|x: int, y: int| 0 <= x < y < all.len() implies comes_before(all[x], all[y]) by {
        assert(n > 0) by (nonlinear_arith)
            requires
                0 < n * n * n,
        ;
        lemma_layout_in_order(n as int, x, y);
    }
    lemma_kept_in_order(all, ascending);
}

} // verus!
