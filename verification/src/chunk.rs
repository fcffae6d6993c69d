//! Partition of the record list into contiguous pieces for parallel work.
//!
//! The records are cut into pieces of `ceil(n / parts)` records (the last
//! one may be shorter), the way `slice::chunks_mut` cuts them.

use vstd::prelude::*;

verus! {

/// `n / d` rounded up.
pub open spec fn ceil_div(n: int, d: int) -> int {
    (n + d - 1) / d
}

/// The size of each piece when `n` records are shared among `parts` workers.
pub fn chunk_size(n: usize, parts: usize) -> (sz: usize)
    requires
        parts > 0,
    ensures
        sz == ceil_div(n as int, parts as int),
{
    let q = n / parts;
    let r = n % parts;
    proof {
        assert(n == q * parts + r) by (nonlinear_arith)
            requires
                q == n / parts,
                r == n % parts,
                parts > 0,
        ;
        assert(ceil_div(n as int, parts as int) == if r == 0 { q as int } else { q + 1 }) by (nonlinear_arith)
            requires
                n == q * parts + r,
                0 <= r < parts,
                parts > 0,
        ;
        if r != 0 {
            assert(q < usize::MAX) by (nonlinear_arith)
                requires
                    n == q * parts + r,
                    0 < r < parts,
                    n <= usize::MAX,
            ;
        }
    }
    if r == 0 {
        q
    } else {
        q + 1
    }
}

/// Piece `k` of `n` records cut into pieces of `sz`: `[k * sz, min((k + 1) * sz, n))`.
pub open spec fn piece(n: int, sz: int, k: int) -> (usize, usize) {
    ((k * sz) as usize, (if (k + 1) * sz < n { (k + 1) * sz } else { n }) as usize)
}

/// The pieces of `n` records cut into pieces of `sz` records, as
/// `[start, end)` ranges in order.
pub fn pieces(n: usize, sz: usize) -> (r: Vec<(usize, usize)>)
    requires
        sz > 0,
    ensures
        r@.len() == ceil_div(n as int, sz as int),
        forall|k: int| 0 <= k < r@.len() ==> #[trigger] r@[k] == piece(n as int, sz as int, k),
{
    let mut out: Vec<(usize, usize)> = Vec::new();
    let mut start: usize = 0;
    assert(0 * sz == 0);
    while start < n
        invariant
            sz > 0,
            start <= n,
            start == (if out@.len() * sz < n { out@.len() * sz } else { n as int }),
            forall|k: int| 0 <= k < out@.len() ==> #[trigger] out@[k] == piece(n as int, sz as int, k),
            out@.len() > 0 ==> (out@.len() - 1) * sz < n,
        decreases n - start,
    {
        let k = out.len();
        let end = if n - start > sz {
            start + sz
        } else {
            n
        };
        proof {
            assert((k + 1) * sz == k * sz + sz) by (nonlinear_arith);
        }
        out.push((start, end));
        start = end;
    }
    proof {
        let m = out@.len() as int;
        let s = sz as int;
        let nn = n as int;
        if nn == 0 {
            assert(m == 0);
            assert(ceil_div(0, s) == 0) by (nonlinear_arith)
                requires
                    s > 0,
            ;
        } else {
            assert(m > 0);
            assert(ceil_div(nn, s) == m) by (nonlinear_arith)
                requires
                    (m - 1) * s < nn,
                    nn <= m * s,
                    s > 0,
                    m > 0,
            ;
        }
    }
    out
}

/// Cutting `n` records for `parts` workers never gives more pieces than
/// workers: `ceil(n / ceil(n / parts)) <= parts`.
pub proof fn lemma_pieces_fit_workers(n: int, parts: int)
    requires
        n > 0,
        parts > 0,
    ensures
        ceil_div(n, parts) > 0,
        ceil_div(n, ceil_div(n, parts)) <= parts,
{
    let s = ceil_div(n, parts);
    assert(s > 0 && s * parts >= n) by (nonlinear_arith)
        requires
            s == (n + parts - 1) / parts,
            n > 0,
            parts > 0,
    ;
    assert((n + s - 1) / s <= parts) by (nonlinear_arith)
        requires
            s * parts >= n,
            s > 0,
            parts > 0,
    ;
}

} // verus!

verus! {

/// The pieces for sharing `n` records among `parts` workers: pieces of
/// `ceil(n / parts)` records, in order, never more pieces than workers.
/// With no record the size would be zero, which cannot cut anything.
pub fn work_pieces(n: usize, parts: usize) -> (r: Vec<(usize, usize)>)
    requires
        n > 0,
        parts > 0,
    ensures
        ({
            let sz = ceil_div(n as int, parts as int);
            &&& r@.len() == ceil_div(n as int, sz)
            &&& forall|k: int| 0 <= k < r@.len() ==> #[trigger] r@[k] == piece(n as int, sz, k)
        }),
        r@.len() <= parts,
{
    let sz = chunk_size(n, parts);
    proof {
        lemma_pieces_fit_workers(n as int, parts as int);
    }
    pieces(n, sz)
}

/// The pieces of `n > 0` records cut into pieces of `sz` tile `[0, n)`: the
/// first starts at 0, each ends where the next starts, none is empty, none is
/// longer than `sz`, and the last ends at `n`.
pub proof fn lemma_pieces_tile(n: int, sz: int)
    requires
        n > 0,
        sz > 0,
        n <= usize::MAX,
    ensures
        ceil_div(n, sz) > 0,
        piece(n, sz, 0).0 == 0,
        piece(n, sz, ceil_div(n, sz) - 1).1 == n,
        forall|k: int|
            0 <= k < ceil_div(n, sz) ==> #[trigger] piece(n, sz, k).0 < piece(n, sz, k).1 <= piece(
                n,
                sz,
                k,
            ).0 + sz,
        forall|k: int|
            0 <= k < ceil_div(n, sz) - 1 ==> #[trigger] piece(n, sz, k).1 == piece(n, sz, k + 1).0,
{
    let m = ceil_div(n, sz);
    assert(m > 0 && (m - 1) * sz < n && n <= m * sz) by (nonlinear_arith)
        requires
            m == (n + sz - 1) / sz,
            n > 0,
            sz > 0,
    ;
    assert(0 * sz == 0);
    assert forall|k: int| 0 <= k < m implies #[trigger] piece(n, sz, k).0 < piece(n, sz, k).1
        <= piece(n, sz, k).0 + sz by {
        assert(0 <= k * sz <= (m - 1) * sz && (k + 1) * sz == k * sz + sz) by (nonlinear_arith)
            requires
                0 <= k < m,
                sz > 0,
        ;
    }
    assert forall|k: int| 0 <= k < m - 1 implies #[trigger] piece(n, sz, k).1 == piece(
        n,
        sz,
        k + 1,
    ).0 by {
        assert((k + 1) * sz <= (m - 1) * sz && 0 <= k * sz) by (nonlinear_arith)
            requires
                0 <= k < m - 1,
                sz > 0,
        ;
    }
    assert((m - 1 + 1) * sz == m * sz);
}

} // verus!
