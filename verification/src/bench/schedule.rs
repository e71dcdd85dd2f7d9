//! The order in which a run visits the pairs of cores.

use vstd::prelude::*;

verus! {

/// Where a run over `n` rows of `n` cells stands.
#[derive(Clone, Copy, PartialEq, Eq, Structural, Debug)]
pub enum Cursor {
    /// Before the given row.
    Row(usize),
    /// At the given cell of the given row, or behind its last cell.
    Cell(usize, usize),
    /// At the given pair of cores, which is to be measured.
    Pair(usize, usize),
}

/// Whether the pair of cores `i` and `j` is measured: once for both orders where
/// the benchmark is symmetric, else in both orders, and never a core with itself.
pub open spec fn is_measured(symmetric: bool, i: int, j: int) -> bool {
    if symmetric {
        j < i
    } else {
        i != j
    }
}

/// The pairs that are measured from cell `j` of row `i` on, row by row.
pub open spec fn pairs_from(n: int, symmetric: bool, i: int, j: int) -> Seq<(int, int)>
    decreases n - i, n - j,
{
    if i >= n {
        Seq::empty()
    } else if j >= n {
        pairs_from(n, symmetric, i + 1, 0)
    } else if is_measured(symmetric, i, j) {
        seq![(i, j)] + pairs_from(n, symmetric, i, j + 1)
    } else {
        pairs_from(n, symmetric, i, j + 1)
    }
}

/// The pairs of `n` cores that are measured, in order.
pub open spec fn schedule(n: int, symmetric: bool) -> Seq<(int, int)> {
    pairs_from(n, symmetric, 0, 0)
}

/// How many pairs of `n` cores there are: both orders of a pair count as one where
/// the benchmark is symmetric.
pub open spec fn pair_count(n: int, symmetric: bool) -> int {
    if symmetric {
        n * (n - 1) / 2
    } else {
        n * (n - 1)
    }
}

impl Cursor {
    /// Whether the cursor stands within `n` rows of `n` cells, or behind them.
    pub open spec fn within(self, n: int) -> bool {
        match self {
            Cursor::Row(i) => i <= n,
            Cursor::Cell(i, j) => i < n && j <= n,
            Cursor::Pair(i, j) => i < n && j < n && i != j,
        }
    }

    /// The pairs that are still to be measured, where the benchmark is symmetric, or
    /// is not, from here on.
    pub open spec fn remaining(self, n: int, symmetric: bool) -> Seq<(int, int)> {
        match self {
            Cursor::Row(i) => pairs_from(n, symmetric, i as int, 0),
            Cursor::Cell(i, j) => pairs_from(n, symmetric, i as int, j as int),
            Cursor::Pair(i, j) => seq![(i as int, j as int)] + pairs_from(
                n,
                symmetric,
                i as int,
                j + 1,
            ),
        }
    }

    /// How many moves the cursor is from the end.
    pub open spec fn distance(self, n: int) -> int {
        match self {
            Cursor::Row(i) => (n - i) * (2 * n + 2),
            Cursor::Cell(i, j) => (n - i) * (2 * n + 2) - 1 - 2 * j,
            Cursor::Pair(i, j) => (n - i) * (2 * n + 2) - 2 - 2 * j,
        }
    }
}

/// From the end of a row it is one move to the next row, and no cursor within the run
/// is beyond its end.
pub proof fn lemma_distance(n: int, i: usize, j: usize)
    requires
        i < n,
        j <= n,
        n <= usize::MAX,
    ensures
        Cursor::Row((i + 1) as usize).distance(n) == Cursor::Cell(i, n as usize).distance(n) - 1,
        Cursor::Cell(i, j).distance(n) > 0,
{
    assert((n - (i + 1)) * (2 * n + 2) == (n - i) * (2 * n + 2) - (2 * n + 2)) by (nonlinear_arith);
    assert((n - i) * (2 * n + 2) >= 2 * n + 2) by (nonlinear_arith)
        requires
            n - i >= 1,
            n >= 0,
    ;
}

/// Exactly the pairs to measure from a place on are scheduled from there, and each
/// of them once.
proof fn lemma_pairs_from(n: int, symmetric: bool, i: int, j: int)
    requires
        0 <= i,
        0 <= j <= n,
    ensures
        forall|a: int, b: int| #[trigger]
            pairs_from(n, symmetric, i, j).contains((a, b)) <==> (i < a || i == a && j <= b) && a
                < n && 0 <= b < n && is_measured(symmetric, a, b),
        pairs_from(n, symmetric, i, j).no_duplicates(),
    decreases n - i, n - j,
{
    let s = pairs_from(n, symmetric, i, j);
    if i >= n {
    } else if j >= n {
        lemma_pairs_from(n, symmetric, i + 1, 0);
    } else {
        lemma_pairs_from(n, symmetric, i, j + 1);
        let rest = pairs_from(n, symmetric, i, j + 1);
        if is_measured(symmetric, i, j) {
            assert forall|a: int, b: int| #[trigger] s.contains((a, b)) <==> (a, b) == (i, j)
                || rest.contains((a, b)) by {
                if (a, b) == (i, j) {
                    assert(s[0] == (a, b));
                }
                if rest.contains((a, b)) {
                    let k = choose|k: int| 0 <= k < rest.len() && rest[k] == (a, b);
                    assert(s[k + 1] == (a, b));
                }
                if s.contains((a, b)) && (a, b) != (i, j) {
                    let k = choose|k: int| 0 <= k < s.len() && s[k] == (a, b);
                    assert(rest[k - 1] == (a, b));
                }
            }
            assert(!rest.contains((i, j)));
            assert forall|p: int, q: int| 0 <= p < q < s.len() implies s[p] != s[q] by {
                assert(s[q] == rest[q - 1]);
                if p == 0 {
                    assert(rest.contains(rest[q - 1]));
                } else {
                    assert(s[p] == rest[p - 1]);
                }
            }
        }
    }
}

/// A run measures exactly the pairs that are to be measured, and each of them
/// once.
pub proof fn lemma_schedule_complete(n: int, symmetric: bool)
    requires
        0 <= n,
    ensures
        forall|i: int, j: int| #[trigger]
            schedule(n, symmetric).contains((i, j)) <==> 0 <= i < n && 0 <= j < n && is_measured(
                symmetric,
                i,
                j,
            ),
        schedule(n, symmetric).no_duplicates(),
{
    lemma_pairs_from(n, symmetric, 0, 0);
}

/// Of two different cores, a run measures the pair in exactly one order where the
/// benchmark is symmetric, and in both orders where it is not.
pub proof fn lemma_schedule_orders(n: int, symmetric: bool, i: int, j: int)
    requires
        0 <= i < n,
        0 <= j < n,
        i != j,
    ensures
        symmetric ==> (schedule(n, symmetric).contains((i, j)) <==> !schedule(
            n,
            symmetric,
        ).contains((j, i))),
        !symmetric ==> schedule(n, symmetric).contains((i, j)) && schedule(n, symmetric).contains(
            (j, i),
        ),
{
    lemma_schedule_complete(n, symmetric);
}

/// How many pairs are scheduled from a place on.
proof fn lemma_pairs_from_len(n: int, symmetric: bool, i: int, j: int)
    requires
        0 <= i <= n,
        0 <= j <= n,
        i == n ==> j == 0,
    ensures
        symmetric ==> 2 * pairs_from(n, symmetric, i, j).len() == n * (n - 1) - i * (i - 1) - 2 * (
        if i == n {
            0
        } else if j < i {
            j
        } else {
            i
        }),
        !symmetric ==> pairs_from(n, symmetric, i, j).len() == (n - i) * (n - 1) - (if i == n {
            0
        } else if j <= i {
            j
        } else {
            j - 1
        }),
    decreases n - i, n - j,
{
    if i >= n {
        assert((n - i) * (n - 1) == 0) by (nonlinear_arith)
            requires
                n == i,
        ;
    } else if j >= n {
        lemma_pairs_from_len(n, symmetric, i + 1, 0);
        assert((i + 1) * i == i * (i - 1) + 2 * i) by (nonlinear_arith);
        assert((n - (i + 1)) * (n - 1) == (n - i) * (n - 1) - (n - 1)) by (nonlinear_arith);
    } else {
        lemma_pairs_from_len(n, symmetric, i, j + 1);
    }
}

/// A run measures as many pairs as there are.
pub proof fn lemma_schedule_len(n: int, symmetric: bool)
    requires
        0 <= n,
    ensures
        schedule(n, symmetric).len() == pair_count(n, symmetric),
{
    lemma_pairs_from_len(n, symmetric, 0, 0);
}

/// Whether `pairs` come row by row, and from left to right in each row.
pub open spec fn are_in_order(pairs: Seq<(int, int)>) -> bool {
    forall|a: int, b: int|
        0 <= a < b < pairs.len() ==> {
            let p = #[trigger] pairs[a];
            let q = #[trigger] pairs[b];
            p.0 < q.0 || p.0 == q.0 && p.1 < q.1
        }
}

/// Whether none of `pairs` comes before the cell `j` of the row `i`.
spec fn none_before(pairs: Seq<(int, int)>, i: int, j: int) -> bool {
    forall|a: int|
        0 <= a < pairs.len() ==> {
            let p = #[trigger] pairs[a];
            i < p.0 || i == p.0 && j <= p.1
        }
}

/// The pairs come row by row, from left to right: all cells of the square but the diagonal,
/// and only those below it where the benchmark is symmetric.
pub proof fn lemma_schedule_order(n: int, symmetric: bool)
    requires
        0 <= n,
    ensures
        forall|i: int, j: int| #[trigger]
            schedule(n, symmetric).contains((i, j)) <==> 0 <= i < n && 0 <= j < n && i != j && (
            symmetric ==> j < i),
        are_in_order(schedule(n, symmetric)),
{
    lemma_pairs_from(n, symmetric, 0, 0);
    lemma_pairs_from_order(n, symmetric, 0, 0);
}

/// The pairs from a place on come in order, none before that place.
proof fn lemma_pairs_from_order(n: int, symmetric: bool, i: int, j: int)
    requires
        0 <= i,
        0 <= j <= n,
    ensures
        are_in_order(pairs_from(n, symmetric, i, j)),
        none_before(pairs_from(n, symmetric, i, j), i, j),
    decreases n - i, n - j,
{
    let s = pairs_from(n, symmetric, i, j);
    if i >= n {
    } else if j >= n {
        lemma_pairs_from_order(n, symmetric, i + 1, 0);
    } else {
        lemma_pairs_from_order(n, symmetric, i, j + 1);
        if is_measured(symmetric, i, j) {
            let rest = pairs_from(n, symmetric, i, j + 1);
            assert(s[0] == (i, j));
            assert forall|a: int| 1 <= a < s.len() implies #[trigger] s[a] == rest[a - 1] by {}
            assert(none_before(rest, i, j + 1));
            assert(are_in_order(rest));
        }
    }
}

} // verus!
