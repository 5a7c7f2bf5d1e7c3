use vstd::prelude::*;

verus! {

/// The longest of the first `n` rows of `m`.
pub open spec fn longest_row(m: Seq<Vec<Option<u64>>>, n: nat) -> nat
    decreases n,
{
    if n == 0 {
        0
    } else {
        let rest = longest_row(m, (n - 1) as nat);
        let here = m[n - 1]@.len();
        if here > rest {
            here
        } else {
            rest
        }
    }
}

/// The number of vertices of an adjacency matrix: its number of rows or its
/// longest row, whichever is larger.
pub open spec fn vertex_count(m: Seq<Vec<Option<u64>>>) -> nat {
    let longest = longest_row(m, m.len());
    if longest > m.len() {
        longest
    } else {
        m.len()
    }
}

/// The weight of the edge from `i` to `j`, where the matrix has one.
pub open spec fn edge(m: Seq<Vec<Option<u64>>>, i: int, j: int) -> Option<u64> {
    if 0 <= i < m.len() && 0 <= j < m[i]@.len() {
        m[i]@[j]
    } else {
        None
    }
}

/// Each step of `path` follows an edge of the matrix.
pub open spec fn is_walk(m: Seq<Vec<Option<u64>>>, path: Seq<int>) -> bool {
    forall|k: int| 0 <= k < path.len() - 1 ==> #[trigger] edge(m, path[k], path[k + 1]) is Some
}

/// The sum of the edge weights along `path`.
pub open spec fn walk_length(m: Seq<Vec<Option<u64>>>, path: Seq<int>) -> int
    decreases path.len(),
{
    if path.len() < 2 {
        0
    } else {
        edge(m, path[0], path[1]).unwrap() + walk_length(m, path.drop_first())
    }
}

/// Some walk of at least one step leads from `i` to `j` with total weight
/// `d`.
pub open spec fn has_walk(m: Seq<Vec<Option<u64>>>, i: int, j: int, d: int) -> bool {
    exists|path: Seq<int>|
        path.len() >= 2 && path[0] == i && path.last() == j && is_walk(m, path)
            && #[trigger] walk_length(m, path) == d
}

/// A distance entry that is the length of a walk, no longer than the direct
/// edge if there is one, and whose recorded vertex is a vertex of the graph.
pub open spec fn entry_ok(
    m: Seq<Vec<Option<u64>>>,
    size: nat,
    i: int,
    j: int,
    entry: Option<(u64, usize)>,
) -> bool {
    &&& (edge(m, i, j) matches Some(w) ==> entry matches Some(found) && found.0 <= w)
    &&& (entry matches Some(found) ==> found.1 < size && has_walk(m, i, j, found.0 as int))
}

/// An edge is a walk of one step.
proof fn lemma_edge_walk(m: Seq<Vec<Option<u64>>>, i: int, j: int)
    requires
        edge(m, i, j) is Some,
    ensures
        has_walk(m, i, j, edge(m, i, j).unwrap() as int),
{
    let path = seq![i, j];
    assert(path.drop_first() =~= seq![j]);
    assert(walk_length(m, path) == edge(m, i, j).unwrap() + walk_length(m, seq![j]));
    assert(is_walk(m, path)) by {
        assert forall|k: int| 0 <= k < path.len() - 1 implies #[trigger] edge(
            m,
            path[k],
            path[k + 1],
        ) is Some by {
            assert(k == 0);
        }
    }
    assert(walk_length(m, path) == edge(m, i, j).unwrap());
}

/// Following one walk by another that starts where it ends is a walk whose
/// length is the sum.
proof fn lemma_concat_walks(m: Seq<Vec<Option<u64>>>, p: Seq<int>, q: Seq<int>)
    requires
        p.len() >= 2,
        q.len() >= 2,
        p.last() == q[0],
        is_walk(m, p),
        is_walk(m, q),
    ensures
        is_walk(m, p + q.drop_first()),
        walk_length(m, p + q.drop_first()) == walk_length(m, p) + walk_length(m, q),
        (p + q.drop_first())[0] == p[0],
        (p + q.drop_first()).last() == q.last(),
        (p + q.drop_first()).len() >= 2,
    decreases p.len(),
{
    let joined = p + q.drop_first();
    assert forall|k: int| 0 <= k < joined.len() - 1 implies #[trigger] edge(
        m,
        joined[k],
        joined[k + 1],
    ) is Some by {
        if k < p.len() - 1 {
            assert(joined[k] == p[k] && joined[k + 1] == p[k + 1]);
        } else {
            let t = k - (p.len() - 1);
            assert(joined[k] == q[t] && joined[k + 1] == q[t + 1]);
            assert(edge(m, q[t], q[t + 1]) is Some);
        }
    }
    assert(joined[0] == p[0] && joined[1] == p[1]);
    if p.len() == 2 {
        assert(joined.drop_first() =~= q);
        assert(walk_length(m, p.drop_first()) == 0);
    } else {
        let rest = p.drop_first();
        assert(is_walk(m, rest)) by {
            assert forall|k: int| 0 <= k < rest.len() - 1 implies #[trigger] edge(
                m,
                rest[k],
                rest[k + 1],
            ) is Some by {
                assert(edge(m, p[k + 1], p[k + 2]) is Some);
            }
        }
        lemma_concat_walks(m, rest, q);
        assert(joined.drop_first() =~= rest + q.drop_first());
    }
}

/// Two walks, one from `i` to `k` and one from `k` to `j`, give a walk from
/// `i` to `j` of the summed length.
proof fn lemma_join_walks(m: Seq<Vec<Option<u64>>>, i: int, k: int, j: int, a: int, b: int)
    requires
        has_walk(m, i, k, a),
        has_walk(m, k, j, b),
    ensures
        has_walk(m, i, j, a + b),
{
    let p = choose|path: Seq<int>|
        path.len() >= 2 && path[0] == i && path.last() == k && is_walk(m, path)
            && #[trigger] walk_length(m, path) == a;
    let q = choose|path: Seq<int>|
        path.len() >= 2 && path[0] == k && path.last() == j && is_walk(m, path)
            && #[trigger] walk_length(m, path) == b;
    lemma_concat_walks(m, p, q);
    assert(walk_length(m, p + q.drop_first()) == a + b);
}

/// Every row is at most as long as the longest one.
proof fn lemma_longest_row(m: Seq<Vec<Option<u64>>>, n: nat, i: int)
    requires
        0 <= i < n <= m.len(),
    ensures
        m[i]@.len() <= longest_row(m, n),
    decreases n,
{
    if i < n - 1 {
        lemma_longest_row(m, (n - 1) as nat, i);
    }
}

/// Index arithmetic of a square matrix stored row by row.
proof fn lemma_flat_index(i: int, j: int, size: int)
    requires
        0 <= i < size,
        0 <= j < size,
    ensures
        0 <= i * size + j < size * size,
{
    assert(0 <= i * size + j < size * size) by (nonlinear_arith)
        requires
            0 <= i < size,
            0 <= j < size,
    ;
}

/// Cell `[i][j]` of a square table of side `size` stored row by row.
pub open spec fn cell(table: Seq<Option<(u64, usize)>>, size: nat, i: int, j: int) -> Option<
    (u64, usize),
> {
    table[i * size + j]
}

/// Every cell of the table is within its direct edge and names a vertex of
/// the graph.
pub open spec fn table_ok(
    m: Seq<Vec<Option<u64>>>,
    size: nat,
    table: Seq<Option<(u64, usize)>>,
) -> bool {
    forall|i: int, j: int|
        0 <= i < size && 0 <= j < size ==> entry_ok(
            m,
            size,
            i,
            j,
            #[trigger] cell(table, size, i, j),
        )
}

/// The cells before `[row][col]` hold the direct edges, the rest are empty.
pub open spec fn filled_up_to(
    m: Seq<Vec<Option<u64>>>,
    size: nat,
    table: Seq<Option<(u64, usize)>>,
    row: int,
    col: int,
) -> bool {
    forall|i: int, j: int|
        0 <= i < size && 0 <= j < size ==> if i < row || (i == row && j < col) {
            entry_ok(m, size, i, j, #[trigger] cell(table, size, i, j))
        } else {
            cell(table, size, i, j) is None
        }
}

/// Setting one cell leaves every other cell as it was.
proof fn lemma_other_cells(
    before: Seq<Option<(u64, usize)>>,
    after: Seq<Option<(u64, usize)>>,
    size: nat,
    a: int,
    b: int,
    i: int,
    j: int,
)
    requires
        0 <= a < size,
        0 <= b < size,
        0 <= i < size,
        0 <= j < size,
        i != a || j != b,
        before.len() == size * size,
        after.len() == before.len(),
        forall|x: int|
            0 <= x < before.len() && x != a * size + b ==> #[trigger] after[x] == before[x],
    ensures
        cell(after, size, i, j) == cell(before, size, i, j),
{
    lemma_flat_index(i, j, size as int);
    lemma_flat_index(a, b, size as int);
    lemma_distinct_cells(i, j, a, b, size as int);
}

/// All-pairs shortest distances by the Floyd-Warshall algorithm. Entry
/// `[i][j]` of the result holds the distance from `i` to `j` and the vertex
/// before `j` on the way, or `None` where nothing was found or `i == j`. A
/// sum of distances too large for `u64` is not taken as a shorter way. Of
/// the distances, what is stated is that each is the length of a walk from
/// `i` to `j` and none exceeds the direct edge.
pub fn floyd_warshall(adjecency_matrix: Vec<Vec<Option<u64>>>) -> (r: Vec<
    Vec<Option<(u64, usize)>>,
>)
    requires
        vertex_count(adjecency_matrix@) * vertex_count(adjecency_matrix@) <= usize::MAX,
    ensures
        r@.len() == vertex_count(adjecency_matrix@),
        forall|i: int| 0 <= i < r@.len() ==> #[trigger] r@[i]@.len() == r@.len(),
        forall|i: int| 0 <= i < r@.len() ==> #[trigger] r@[i]@[i] is None,
        forall|i: int, j: int|
            0 <= i < r@.len() && 0 <= j < r@.len() && i != j ==> entry_ok(
                adjecency_matrix@,
                r@.len(),
                i,
                j,
                #[trigger] r@[i]@[j],
            ),
{
    let ghost m = adjecency_matrix@;
    let rows = adjecency_matrix.len();
    let mut size: usize = rows;
    let mut k: usize = 0;
    while k < rows
        invariant
            rows == m.len(),
            m == adjecency_matrix@,
            k <= rows,
            size == if longest_row(m, k as nat) > rows {
                longest_row(m, k as nat)
            } else {
                rows as nat
            },
        decreases rows - k,
    {
        if adjecency_matrix[k].len() > size {
            size = adjecency_matrix[k].len();
        }
        k = k + 1;
    }
    if size == 0 {
        return Vec::new();
    }
    let ghost n = size as nat;
    let total = size * size;
    let mut dist: Vec<Option<(u64, usize)>> = Vec::new();
    let mut f: usize = 0;
    while f < total
        invariant
            f <= total,
            dist@.len() == f,
            forall|x: int| 0 <= x < f ==> #[trigger] dist@[x] is None,
        decreases total - f,
    {
        dist.push(None);
        f = f + 1;
    }
    proof {
        assert forall|i: int, j: int| 0 <= i < size && 0 <= j < size implies #[trigger] cell(
            dist@,
            n,
            i,
            j,
        ) is None by {
            lemma_flat_index(i, j, n as int);
        }
    }
    let mut start: usize = 0;
    while start < rows
        invariant
            n == size,
            rows == m.len(),
            m == adjecency_matrix@,
            size == vertex_count(m),
            total == size * size,
            dist@.len() == total,
            start <= rows,
            filled_up_to(m, n, dist@, start as int, 0),
        decreases rows - start,
    {
        let row = &adjecency_matrix[start];
        proof {
            lemma_longest_row(m, m.len(), start as int);
        }
        let mut dest: usize = 0;
        while dest < row.len()
            invariant
                n == size,
                rows == m.len(),
                m == adjecency_matrix@,
                row@ == m[start as int]@,
                size == vertex_count(m),
                row@.len() <= size,
                start < rows,
                total == size * size,
                dist@.len() == total,
                dest <= row@.len(),
                filled_up_to(m, n, dist@, start as int, dest as int),
            decreases row@.len() - dest,
        {
            proof {
                lemma_flat_index(start as int, dest as int, n as int);
            }
            let ghost before = dist@;
            match row[dest] {
                None => {},
                Some(weight) => {
                    proof {
                        assert(edge(m, start as int, dest as int) == Some(weight));
                        lemma_edge_walk(m, start as int, dest as int);
                    }
                    dist.set(start * size + dest, Some((weight, start)));
                },
            }
            proof {
                assert forall|i: int, j: int| 0 <= i < size && 0 <= j < size implies if i < start
                    || (i == start && j < dest + 1) {
                    entry_ok(m, n, i, j, #[trigger] cell(dist@, n, i, j))
                } else {
                    cell(dist@, n, i, j) is None
                } by {
                    if i != start || j != dest {
                        lemma_other_cells(before, dist@, n, start as int, dest as int, i, j);
                    } else {
                        assert(edge(m, i, j) == row@[dest as int]);
                    }
                }
            }
            dest = dest + 1;
        }
        proof {
            assert forall|i: int, j: int| 0 <= i < size && 0 <= j < size implies if i < start + 1 {
                entry_ok(m, n, i, j, #[trigger] cell(dist@, n, i, j))
            } else {
                cell(dist@, n, i, j) is None
            } by {
                if i == start && j >= row@.len() {
                    assert(edge(m, i, j) is None);
                }
            }
        }
        start = start + 1;
    }
    proof {
        assert forall|i: int, j: int| 0 <= i < size && 0 <= j < size implies entry_ok(
            m,
            n,
            i,
            j,
            #[trigger] cell(dist@, n, i, j),
        ) by {
            if i >= rows {
                assert(edge(m, i, j) is None);
            }
        }
    }
    let mut middle: usize = 0;
    while middle < size
        invariant
            m == adjecency_matrix@,
            n == size,
            total == size * size,
            dist@.len() == total,
            middle <= size,
            table_ok(m, n, dist@),
        decreases size - middle,
    {
        let mut start: usize = 0;
        while start < size
            invariant
                m == adjecency_matrix@,
                n == size,
                total == size * size,
                dist@.len() == total,
                middle < size,
                start <= size,
                table_ok(m, n, dist@),
            decreases size - start,
        {
            if start != middle {
                let mut dest: usize = 0;
                while dest < size
                    invariant
                        m == adjecency_matrix@,
                        n == size,
                        total == size * size,
                        dist@.len() == total,
                        middle < size,
                        start < size,
                        dest <= size,
                        table_ok(m, n, dist@),
                    decreases size - dest,
                {
                    proof {
                        lemma_flat_index(start as int, middle as int, n as int);
                        lemma_flat_index(middle as int, dest as int, n as int);
                        lemma_flat_index(start as int, dest as int, n as int);
                    }
                    if dest != middle {
                        let first = dist[start * size + middle];
                        let second = dist[middle * size + dest];
                        if let (Some(first), Some(second)) = (first, second) {
                            if let Some(sum) = first.0.checked_add(second.0) {
                                let here = start * size + dest;
                                let ghost before = dist@;
                                proof {
                                    assert(entry_ok(
                                        m,
                                        n,
                                        start as int,
                                        middle as int,
                                        cell(before, n, start as int, middle as int),
                                    ));
                                    assert(entry_ok(
                                        m,
                                        n,
                                        middle as int,
                                        dest as int,
                                        cell(before, n, middle as int, dest as int),
                                    ));
                                    lemma_join_walks(
                                        m,
                                        start as int,
                                        middle as int,
                                        dest as int,
                                        first.0 as int,
                                        second.0 as int,
                                    );
                                    assert(entry_ok(
                                        m,
                                        n,
                                        start as int,
                                        dest as int,
                                        cell(before, n, start as int, dest as int),
                                    ));
                                }
                                match dist[here] {
                                    Some(current) => {
                                        if sum < current.0 {
                                            dist.set(here, Some((sum, middle)));
                                        }
                                    },
                                    None => {
                                        dist.set(here, Some((sum, second.1)));
                                    },
                                }
                                proof {
                                    assert forall|i: int, j: int|
                                        0 <= i < size && 0 <= j < size implies entry_ok(
                                        m,
                                        n,
                                        i,
                                        j,
                                        #[trigger] cell(dist@, n, i, j),
                                    ) by {
                                        if i != start || j != dest {
                                            lemma_other_cells(
                                                before,
                                                dist@,
                                                n,
                                                start as int,
                                                dest as int,
                                                i,
                                                j,
                                            );
                                        }
                                    }
                                }
                            }
                        }
                    }
                    dest = dest + 1;
                }
            }
            start = start + 1;
        }
        middle = middle + 1;
    }
    let mut result: Vec<Vec<Option<(u64, usize)>>> = Vec::new();
    let mut i: usize = 0;
    while i < size
        invariant
            m == adjecency_matrix@,
            size == vertex_count(m),
            n == size,
            total == size * size,
            dist@.len() == total,
            i <= size,
            result@.len() == i,
            table_ok(m, n, dist@),
            forall|a: int| 0 <= a < i ==> #[trigger] result@[a]@.len() == size,
            forall|a: int| 0 <= a < i ==> #[trigger] result@[a]@[a] is None,
            forall|a: int, j: int|
                0 <= a < i && 0 <= j < size && a != j ==> #[trigger] result@[a]@[j] == cell(
                    dist@,
                    n,
                    a,
                    j,
                ),
        decreases size - i,
    {
        let mut row: Vec<Option<(u64, usize)>> = Vec::new();
        let mut j: usize = 0;
        while j < size
            invariant
                n == size,
                total == size * size,
                dist@.len() == total,
                i < size,
                j <= size,
                row@.len() == j,
                forall|b: int| 0 <= b < j && b == i ==> #[trigger] row@[b] is None,
                forall|b: int|
                    0 <= b < j && b != i ==> #[trigger] row@[b] == cell(dist@, n, i as int, b),
            decreases size - j,
        {
            proof {
                lemma_flat_index(i as int, j as int, n as int);
            }
            if i == j {
                row.push(None);
            } else {
                row.push(dist[i * size + j]);
            }
            j = j + 1;
        }
        result.push(row);
        i = i + 1;
    }
    result
}

/// Two cells of a square matrix stored row by row share an index only when
/// they are the same cell.
proof fn lemma_distinct_cells(i: int, j: int, a: int, b: int, size: int)
    requires
        0 <= i < size,
        0 <= j < size,
        0 <= a < size,
        0 <= b < size,
        i != a || j != b,
    ensures
        i * size + j != a * size + b,
{
    if i * size + j == a * size + b {
        if i == a {
            assert(j == b);
        } else if i < a {
            assert(i * size + j < a * size + b) by (nonlinear_arith)
                requires
                    i < a,
                    0 <= j < size,
                    0 <= b,
            ;
        } else {
            assert(a * size + b < i * size + j) by (nonlinear_arith)
                requires
                    a < i,
                    0 <= b < size,
                    0 <= j,
            ;
        }
    }
}

} // verus!
