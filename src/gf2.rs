//! Rank of a bit matrix over GF(2), each row packed into a `u32`, by
//! Gauss-Jordan elimination. A generator is judged by comparing the rank
//! distribution of matrices filled from its output with the expected one.
use vstd::prelude::*;

verus! {

/// Number of bit columns in a row.
pub const ROW_BITS: u32 = 32;

/// Whether column `bit` of row `x` is set.
pub open spec fn has_bit(x: u32, bit: u32) -> bool {
    (x >> bit) & 1 == 1
}

/// Index of the first row at or after `from` that has column `bit` set, or
/// the number of rows when there is none.
pub open spec fn first_pivot(m: Seq<u32>, bit: u32, from: int) -> int
    decreases m.len() - from,
{
    if from < 0 || from >= m.len() {
        m.len() as int
    } else if has_bit(m[from], bit) {
        from
    } else {
        first_pivot(m, bit, from + 1)
    }
}

/// Rows `a` and `b` exchanged.
pub open spec fn swap_rows(m: Seq<u32>, a: int, b: int) -> Seq<u32> {
    m.update(a, m[b]).update(b, m[a])
}

/// Every row other than `r` that has column `bit` set gets row `r` added
/// (xor) to it, so that row `r` is the only one left with that column set.
pub open spec fn clear_column(m: Seq<u32>, r: int, bit: u32) -> Seq<u32> {
    Seq::new(m.len(), |i: int| if i != r && has_bit(m[i], bit) { m[i] ^ m[r] } else { m[i] })
}

/// One column of elimination: the rows before `rank` already hold pivots;
/// if a later row has column `bit` set, the first such row is moved to
/// position `rank`, the column is cleared everywhere else, and the rank grows.
pub open spec fn elimination_step(m: Seq<u32>, rank: nat, bit: u32) -> (Seq<u32>, nat) {
    let p = first_pivot(m, bit, rank as int);
    if p < m.len() {
        (clear_column(swap_rows(m, rank as int, p), rank as int, bit), rank + 1)
    } else {
        (m, rank)
    }
}

/// The matrix and the number of pivots found after eliminating the columns
/// `0 .. bits`, lowest first.
pub open spec fn elimination(m: Seq<u32>, bits: nat) -> (Seq<u32>, nat)
    decreases bits,
{
    if bits == 0 {
        (m, 0)
    } else {
        let prev = elimination(m, (bits - 1) as nat);
        elimination_step(prev.0, prev.1, (bits - 1) as u32)
    }
}

/// Rank of the matrix: the number of pivots after eliminating all columns.
pub open spec fn gf2_rank(m: Seq<u32>) -> nat {
    elimination(m, ROW_BITS as nat).1
}

proof fn lemma_first_pivot_bounds(m: Seq<u32>, bit: u32, from: int)
    requires
        0 <= from <= m.len(),
    ensures
        from <= first_pivot(m, bit, from) <= m.len(),
        first_pivot(m, bit, from) < m.len() ==> has_bit(m[first_pivot(m, bit, from)], bit),
    decreases m.len() - from,
{
    if from < m.len() && !has_bit(m[from], bit) {
        lemma_first_pivot_bounds(m, bit, from + 1);
    }
}

/// Elimination keeps the number of rows, and finds at most one pivot per row
/// and per column.
pub proof fn lemma_elimination_bounds(m: Seq<u32>, bits: nat)
    ensures
        elimination(m, bits).0.len() == m.len(),
        elimination(m, bits).1 <= m.len(),
        elimination(m, bits).1 <= bits,
    decreases bits,
{
    if bits > 0 {
        let prev = elimination(m, (bits - 1) as nat);
        lemma_elimination_bounds(m, (bits - 1) as nat);
        lemma_first_pivot_bounds(prev.0, (bits - 1) as u32, prev.1 as int);
    }
}

/// `x` when `c` holds, else zero.
pub open spec fn masked(c: bool, x: u32) -> u32 {
    if c {
        x
    } else {
        0
    }
}

/// Xor of the rows of `m` whose coefficient in `c` is set.
pub open spec fn xor_combination(m: Seq<u32>, c: Seq<bool>) -> u32
    decreases m.len(),
{
    if m.len() == 0 || c.len() == 0 {
        0
    } else {
        xor_combination(m.drop_last(), c.drop_last()) ^ masked(c.last(), m.last())
    }
}

/// Whether `v` is a sum (xor) of some of the rows of `m`.
pub open spec fn in_row_space(m: Seq<u32>, v: u32) -> bool {
    exists|c: Seq<bool>| c.len() == m.len() && #[trigger] xor_combination(m, c) == v
}

/// Whether `a` and `b` span the same row space over GF(2).
pub open spec fn same_row_space(a: Seq<u32>, b: Seq<u32>) -> bool {
    forall|v: u32| #[trigger] in_row_space(a, v) == in_row_space(b, v)
}

proof fn lemma_has_bit_xor(x: u32, y: u32, b: u32)
    requires
        b < 32,
    ensures
        has_bit(x ^ y, b) == (has_bit(x, b) != has_bit(y, b)),
{
    assert(((x ^ y) >> b) & 1 == 1 <==> (((x >> b) & 1 == 1) != ((y >> b) & 1 == 1))) by (bit_vector)
        requires
            b < 32,
    ;
}

proof fn lemma_combination_update(m: Seq<u32>, c: Seq<bool>, i: int, x: u32, y: bool)
    requires
        c.len() == m.len(),
        0 <= i < m.len(),
    ensures
        xor_combination(m.update(i, x), c.update(i, y))
            == xor_combination(m, c) ^ masked(c[i], m[i]) ^ masked(y, x),
    decreases m.len(),
{
    let m2 = m.update(i, x);
    let c2 = c.update(i, y);
    let last = m.len() - 1;
    let pre = xor_combination(m.drop_last(), c.drop_last());
    let t = masked(c.last(), m.last());
    let old_i = masked(c[i], m[i]);
    let new_i = masked(y, x);
    if i == last {
        assert(m2.drop_last() =~= m.drop_last());
        assert(c2.drop_last() =~= c.drop_last());
        assert(t == old_i);
        assert(pre ^ new_i == ((pre ^ t) ^ old_i) ^ new_i) by (bit_vector)
            requires
                t == old_i,
        ;
    } else {
        assert(m2.drop_last() =~= m.drop_last().update(i, x));
        assert(c2.drop_last() =~= c.drop_last().update(i, y));
        lemma_combination_update(m.drop_last(), c.drop_last(), i, x, y);
        assert(((pre ^ old_i) ^ new_i) ^ t == ((pre ^ t) ^ old_i) ^ new_i) by (bit_vector);
    }
}

proof fn lemma_swap_rows_keeps_span(m: Seq<u32>, a: int, b: int)
    requires
        0 <= a < m.len(),
        0 <= b < m.len(),
    ensures
        forall|v: u32| in_row_space(m, v) ==> #[trigger] in_row_space(swap_rows(m, a, b), v),
{
    assert forall|v: u32| in_row_space(m, v) implies #[trigger] in_row_space(swap_rows(m, a, b), v) by {
        let c = choose|c: Seq<bool>| c.len() == m.len() && #[trigger] xor_combination(m, c) == v;
        if a == b {
            assert(swap_rows(m, a, b) =~= m);
        } else {
            let m1 = m.update(a, m[b]);
            let c1 = c.update(a, c[b]);
            let c2 = c1.update(b, c[a]);
            lemma_combination_update(m, c, a, m[b], c[b]);
            lemma_combination_update(m1, c1, b, m[a], c[a]);
            let x = xor_combination(m, c);
            let ta = masked(c[a], m[a]);
            let tb = masked(c[b], m[b]);
            assert(((x ^ ta) ^ tb) ^ tb ^ ta == x) by (bit_vector);
            assert(xor_combination(swap_rows(m, a, b), c2) == v);
        }
    }
}

proof fn lemma_add_row_keeps_span(m: Seq<u32>, i: int, r: int)
    requires
        0 <= i < m.len(),
        0 <= r < m.len(),
        i != r,
    ensures
        forall|v: u32| in_row_space(m, v) ==> #[trigger] in_row_space(m.update(i, m[i] ^ m[r]), v),
{
    let m2 = m.update(i, m[i] ^ m[r]);
    assert forall|v: u32| in_row_space(m, v) implies #[trigger] in_row_space(m2, v) by {
        let c = choose|c: Seq<bool>| c.len() == m.len() && #[trigger] xor_combination(m, c) == v;
        let c2 = c.update(r, c[r] != c[i]);
        lemma_combination_update(m, c, i, m[i] ^ m[r], c[i]);
        assert(c.update(i, c[i]) =~= c);
        lemma_combination_update(m2, c, r, m[r], c[r] != c[i]);
        assert(m2.update(r, m[r]) =~= m2);
        let x = xor_combination(m, c);
        let mi = m[i];
        let mr = m[r];
        let ci = c[i];
        let cr = c[r];
        assert(((x ^ masked(ci, mi)) ^ masked(ci, mi ^ mr)) ^ masked(cr, mr) ^ masked(cr != ci, mr) == x)
            by (bit_vector);
        assert(xor_combination(m2, c2) == v);
    }
}

spec fn clear_rows_below(m: Seq<u32>, r: int, bit: u32, j: int) -> Seq<u32> {
    Seq::new(m.len(), |i: int| if i < j && i != r && has_bit(m[i], bit) { m[i] ^ m[r] } else { m[i] })
}

proof fn lemma_clear_rows_keeps_span(m: Seq<u32>, r: int, bit: u32, j: int)
    requires
        0 <= r < m.len(),
        0 <= j <= m.len(),
    ensures
        same_row_space(m, clear_rows_below(m, r, bit, j)),
    decreases j,
{
    if j == 0 {
        assert(clear_rows_below(m, r, bit, 0) =~= m);
    } else {
        lemma_clear_rows_keeps_span(m, r, bit, j - 1);
        let a = clear_rows_below(m, r, bit, j - 1);
        let b = clear_rows_below(m, r, bit, j);
        let i = j - 1;
        if i != r && has_bit(m[i], bit) {
            assert(b =~= a.update(i, a[i] ^ a[r]));
            lemma_add_row_keeps_span(a, i, r);
            assert(a =~= b.update(i, b[i] ^ b[r])) by {
                assert forall|k: int| 0 <= k < a.len() implies a[k] == b.update(i, b[i] ^ b[r])[k] by {
                    if k == i {
                        let mi = m[i];
                        let mr = m[r];
                        assert(mi ^ mr ^ mr == mi) by (bit_vector);
                    }
                }
            }
            lemma_add_row_keeps_span(b, i, r);
        } else {
            assert(b =~= a);
        }
    }
}

proof fn lemma_elimination_step_keeps_span(m: Seq<u32>, rank: nat, bit: u32)
    requires
        rank <= m.len(),
    ensures
        same_row_space(m, elimination_step(m, rank, bit).0),
{
    let p = first_pivot(m, bit, rank as int);
    lemma_first_pivot_bounds(m, bit, rank as int);
    if p < m.len() {
        let s = swap_rows(m, rank as int, p);
        lemma_swap_rows_keeps_span(m, rank as int, p);
        lemma_swap_rows_keeps_span(s, rank as int, p);
        assert(swap_rows(s, rank as int, p) =~= m);
        lemma_clear_rows_keeps_span(s, rank as int, bit, m.len() as int);
        let cleared = clear_column(s, rank as int, bit);
        assert(clear_rows_below(s, rank as int, bit, m.len() as int) =~= cleared);
        assert forall|v: u32| #[trigger] in_row_space(m, v) == in_row_space(cleared, v) by {
            assert(in_row_space(s, v) == in_row_space(cleared, v));
            assert(in_row_space(m, v) ==> in_row_space(s, v));
            assert(in_row_space(s, v) ==> in_row_space(swap_rows(s, rank as int, p), v));
        }
    }
}

/// Elimination changes the rows only by exchanging them and adding one row
/// to another, so the space the rows span is the one the input spans.
pub proof fn lemma_elimination_keeps_span(m: Seq<u32>, bits: nat)
    ensures
        same_row_space(m, elimination(m, bits).0),
    decreases bits,
{
    if bits > 0 {
        let prev = elimination(m, (bits - 1) as nat);
        lemma_elimination_keeps_span(m, (bits - 1) as nat);
        lemma_elimination_bounds(m, (bits - 1) as nat);
        lemma_elimination_step_keeps_span(prev.0, prev.1, (bits - 1) as u32);
    }
}

/// `p` lists the pivot columns of the first `rank` rows of `m`: row `k` has
/// column `p[k]` set and no lower column, no other row has column `p[k]`
/// set, and the pivot columns increase from row to row.
pub open spec fn pivot_columns(m: Seq<u32>, rank: nat, p: Seq<u32>) -> bool {
    &&& p.len() == rank
    &&& rank <= m.len()
    &&& forall|k: int| 0 <= k < rank ==> p[k] < ROW_BITS && #[trigger] has_bit(m[k], p[k])
    &&& forall|k: int, j: int| 0 <= k < j < rank ==> #[trigger] p[k] < #[trigger] p[j]
    &&& forall|k: int, i: int|
        0 <= k < rank && 0 <= i < m.len() && i != k ==> !#[trigger] has_bit(m[i], p[k])
    &&& forall|k: int, b: u32| 0 <= k < rank && b < p[k] ==> !#[trigger] has_bit(m[k], b)
}

/// Reduced row echelon form with `rank` nonzero rows: those rows come first
/// and have pivot columns, and every later row is zero. Such rows are
/// independent, so `rank` is the dimension of the space they span.
pub open spec fn is_reduced_echelon(m: Seq<u32>, rank: nat) -> bool {
    &&& rank <= m.len()
    &&& forall|i: int| rank <= i < m.len() ==> m[i] == 0
    &&& exists|p: Seq<u32>| pivot_columns(m, rank, p)
}

proof fn lemma_first_pivot_none(m: Seq<u32>, bit: u32, from: int)
    requires
        0 <= from <= m.len(),
        first_pivot(m, bit, from) == m.len(),
    ensures
        forall|i: int| from <= i < m.len() ==> !#[trigger] has_bit(m[i], bit),
    decreases m.len() - from,
{
    if from < m.len() {
        lemma_first_pivot_none(m, bit, from + 1);
    }
}

/// What holds after the columns below `bit` are eliminated: `p` gives the
/// pivots found, all below `bit`, and rows from `rank` on have no column
/// below `bit` set.
spec fn eliminated_below(m: Seq<u32>, rank: nat, bit: nat, p: Seq<u32>) -> bool {
    &&& pivot_columns(m, rank, p)
    &&& forall|k: int| 0 <= k < rank ==> #[trigger] p[k] < bit
    &&& forall|i: int, b: u32| rank <= i < m.len() && b < bit ==> !#[trigger] has_bit(m[i], b)
}

proof fn lemma_step_pivots(m: Seq<u32>, r: nat, bit: u32, p: Seq<u32>) -> (p2: Seq<u32>)
    requires
        bit < ROW_BITS,
        eliminated_below(m, r, bit as nat, p),
    ensures
        eliminated_below(elimination_step(m, r, bit).0, elimination_step(m, r, bit).1, (bit + 1) as nat, p2),
{
    let n = m.len();
    let q = first_pivot(m, bit, r as int);
    lemma_first_pivot_bounds(m, bit, r as int);
    if q < n {
        let s = swap_rows(m, r as int, q);
        let c = clear_column(s, r as int, bit);
        let p2 = p.push(bit);
        assert(elimination_step(m, r, bit) == (c, r + 1));
        assert forall|k: int| 0 <= k < r + 1 implies p2[k] < ROW_BITS && #[trigger] has_bit(c[k], p2[k]) by {
            if k < r {
                assert(s[k] == m[k]);
                lemma_has_bit_xor(m[k], m[q], p[k]);
            }
        }
        assert forall|k: int, j: int| 0 <= k < j < r + 1 implies #[trigger] p2[k] < #[trigger] p2[j] by {
            if j < r {
                assert(p[k] < p[j]);
            } else {
                assert(p[k] < bit);
            }
        }
        assert forall|k: int, i: int| 0 <= k < r + 1 && 0 <= i < n && i != k implies !#[trigger] has_bit(c[i], p2[k]) by {
            let src = if i == r { q } else if i == q { r as int } else { i };
            assert(s[i] == m[src]);
            assert(s[r as int] == m[q]);
            lemma_has_bit_xor(s[i], s[r as int], p2[k]);
            if k < r {
                assert(src != k);
                assert(!has_bit(m[src], p[k]));
                assert(!has_bit(m[q], p[k]));
            }
        }
        assert forall|k: int, b: u32| 0 <= k < r + 1 && b < p2[k] implies !#[trigger] has_bit(c[k], b) by {
            if k < r {
                assert(s[k] == m[k]);
                lemma_has_bit_xor(m[k], m[q], b);
                assert(p[k] < bit);
                assert(!has_bit(m[q], b));
            } else {
                assert(c[k] == m[q]);
                assert(!has_bit(m[q], b));
            }
        }
        assert forall|k: int| 0 <= k < r + 1 implies #[trigger] p2[k] < bit + 1 by {
            if k < r {
                assert(p[k] < bit);
            }
        }
        assert forall|i: int, b: u32| r + 1 <= i < n && b < bit + 1 implies !#[trigger] has_bit(c[i], b) by {
            let src = if i == q { r as int } else { i };
            assert(s[i] == m[src]);
            assert(s[r as int] == m[q]);
            lemma_has_bit_xor(s[i], s[r as int], b);
            if b < bit {
                assert(!has_bit(m[src], b));
                assert(!has_bit(m[q], b));
            }
        }
        p2
    } else {
        lemma_first_pivot_none(m, bit, r as int);
        assert forall|i: int, b: u32| r <= i < n && b < bit + 1 implies !#[trigger] has_bit(m[i], b) by {
            if b < bit {
                assert(!has_bit(m[i], b));
            }
        }
        p
    }
}

proof fn lemma_elimination_pivots(m: Seq<u32>, bits: nat) -> (p: Seq<u32>)
    requires
        bits <= ROW_BITS,
    ensures
        eliminated_below(elimination(m, bits).0, elimination(m, bits).1, bits, p),
    decreases bits,
{
    if bits == 0 {
        Seq::empty()
    } else {
        let prev = elimination(m, (bits - 1) as nat);
        let p = lemma_elimination_pivots(m, (bits - 1) as nat);
        lemma_step_pivots(prev.0, prev.1, (bits - 1) as u32, p)
    }
}

proof fn lemma_no_bits_is_zero(x: u32)
    requires
        forall|b: u32| b < ROW_BITS ==> !#[trigger] has_bit(x, b),
    ensures
        x == 0,
{
    assert(!has_bit(x, 0));
    assert(!has_bit(x, 1));
    assert(!has_bit(x, 2));
    assert(!has_bit(x, 3));
    assert(!has_bit(x, 4));
    assert(!has_bit(x, 5));
    assert(!has_bit(x, 6));
    assert(!has_bit(x, 7));
    assert(!has_bit(x, 8));
    assert(!has_bit(x, 9));
    assert(!has_bit(x, 10));
    assert(!has_bit(x, 11));
    assert(!has_bit(x, 12));
    assert(!has_bit(x, 13));
    assert(!has_bit(x, 14));
    assert(!has_bit(x, 15));
    assert(!has_bit(x, 16));
    assert(!has_bit(x, 17));
    assert(!has_bit(x, 18));
    assert(!has_bit(x, 19));
    assert(!has_bit(x, 20));
    assert(!has_bit(x, 21));
    assert(!has_bit(x, 22));
    assert(!has_bit(x, 23));
    assert(!has_bit(x, 24));
    assert(!has_bit(x, 25));
    assert(!has_bit(x, 26));
    assert(!has_bit(x, 27));
    assert(!has_bit(x, 28));
    assert(!has_bit(x, 29));
    assert(!has_bit(x, 30));
    assert(!has_bit(x, 31));
    assert(x == 0) by (bit_vector)
        requires
            !has_bit(x, 0),
            !has_bit(x, 1),
            !has_bit(x, 2),
            !has_bit(x, 3),
            !has_bit(x, 4),
            !has_bit(x, 5),
            !has_bit(x, 6),
            !has_bit(x, 7),
            !has_bit(x, 8),
            !has_bit(x, 9),
            !has_bit(x, 10),
            !has_bit(x, 11),
            !has_bit(x, 12),
            !has_bit(x, 13),
            !has_bit(x, 14),
            !has_bit(x, 15),
            !has_bit(x, 16),
            !has_bit(x, 17),
            !has_bit(x, 18),
            !has_bit(x, 19),
            !has_bit(x, 20),
            !has_bit(x, 21),
            !has_bit(x, 22),
            !has_bit(x, 23),
            !has_bit(x, 24),
            !has_bit(x, 25),
            !has_bit(x, 26),
            !has_bit(x, 27),
            !has_bit(x, 28),
            !has_bit(x, 29),
            !has_bit(x, 30),
            !has_bit(x, 31),
    ;
}

/// After all columns are eliminated the matrix is in reduced row echelon
/// form with as many nonzero rows as pivots found, and it spans what the
/// input spans: the pivot count is the rank of the input over GF(2).
pub proof fn lemma_elimination_is_rank(m: Seq<u32>)
    ensures
        is_reduced_echelon(elimination(m, ROW_BITS as nat).0, gf2_rank(m)),
        same_row_space(m, elimination(m, ROW_BITS as nat).0),
{
    let e = elimination(m, ROW_BITS as nat);
    lemma_elimination_bounds(m, ROW_BITS as nat);
    lemma_elimination_keeps_span(m, ROW_BITS as nat);
    let p = lemma_elimination_pivots(m, ROW_BITS as nat);
    assert forall|i: int| e.1 <= i < e.0.len() implies e.0[i] == 0 by {
        lemma_no_bits_is_zero(e.0[i]);
    }
}

/// Rank over GF(2) of a bit matrix whose rows are `u32` words. The rows are
/// reduced in place to reduced row echelon form spanning the same space: on
/// return the first `rank` rows each hold a pivot column that no other row
/// has set, and the remaining rows are zero.
pub fn matrix_rank(matrix: &mut [u32]) -> (rank: usize)
    ensures
        final(matrix)@ == elimination(old(matrix)@, ROW_BITS as nat).0,
        rank == gf2_rank(old(matrix)@),
        rank <= old(matrix)@.len(),
        rank <= ROW_BITS,
        is_reduced_echelon(final(matrix)@, rank as nat),
        same_row_space(old(matrix)@, final(matrix)@),
{
    let n = matrix.len();
    let mut rank: usize = 0;
    let mut bit: u32 = 0;
    while bit < ROW_BITS
        invariant
            bit <= ROW_BITS,
            n == matrix@.len(),
            n == old(matrix)@.len(),
            matrix@ == elimination(old(matrix)@, bit as nat).0,
            rank == elimination(old(matrix)@, bit as nat).1,
            rank <= n,
            rank <= bit,
        decreases ROW_BITS - bit,
    {
        let ghost m0 = matrix@;
        let mut pivot: Option<usize> = None;
        let mut i: usize = rank;
        while i < n
            invariant_except_break
                rank <= i <= n,
                pivot.is_none(),
                first_pivot(m0, bit, rank as int) == first_pivot(m0, bit, i as int),
            invariant
                bit < ROW_BITS,
                n == matrix@.len(),
                matrix@ == m0,
            ensures
                match pivot {
                    Some(p) => p < n && p == first_pivot(m0, bit, rank as int),
                    None => first_pivot(m0, bit, rank as int) == n,
                },
            decreases n - i,
        {
            if (matrix[i] >> bit) & 1 == 1 {
                pivot = Some(i);
                break;
            }
            i += 1;
        }
        proof {
            lemma_first_pivot_bounds(m0, bit, rank as int);
        }
        if let Some(p) = pivot {
            let tmp = matrix[rank];
            matrix[rank] = matrix[p];
            matrix[p] = tmp;
            let ghost s = matrix@;
            assert(s == swap_rows(m0, rank as int, p as int));
            let pivot_row = matrix[rank];
            let mut j: usize = 0;
            while j < n
                invariant
                    bit < ROW_BITS,
                    rank < n,
                    s.len() == n,
                    j <= n,
                    n == matrix@.len(),
                    pivot_row == s[rank as int],
                    forall|k: int| 0 <= k < j ==> matrix@[k] == clear_column(s, rank as int, bit)[k],
                    forall|k: int| j <= k < n ==> matrix@[k] == s[k],
                decreases n - j,
            {
                if j != rank && (matrix[j] >> bit) & 1 == 1 {
                    matrix[j] = matrix[j] ^ pivot_row;
                }
                j += 1;
            }
            assert(matrix@ =~= clear_column(s, rank as int, bit));
            rank += 1;
        }
        bit += 1;
    }
    proof {
        lemma_elimination_is_rank(old(matrix)@);
    }
    rank
}

} // verus!
