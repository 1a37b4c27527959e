use vstd::prelude::*;

verus! {

broadcast use vstd::seq_lib::lemma_seq_contains_after_push;

/// One admissible substring pair of a training pair: the surface slice
/// `i..p` aligned with the phoneme slice `j..q`.
#[derive(Clone, Copy, PartialEq, Eq, Structural)]
pub struct Chunk {
    pub i: usize,
    pub j: usize,
    pub p: usize,
    pub q: usize,
}

/// A substring pair `(i..p, j..q)` is admissible for a surface of length
/// `n` and a phoneme sequence of length `m` when the surface slice is
/// non-empty, the phoneme slice is well-formed (possibly empty), a chunk
/// that starts at surface position 0 also starts at phoneme position 0,
/// and a chunk that ends at surface position `n` also ends at phoneme
/// position `m`.
pub open spec fn admissible(n: int, m: int, i: int, j: int, p: int, q: int) -> bool {
    &&& 0 <= i < p <= n
    &&& 0 <= j <= q <= m
    &&& !(i == 0 && j != 0)
    &&& !(p == n && q != m)
}

pub open spec fn chunk_admissible(n: int, m: int, c: Chunk) -> bool {
    admissible(n, m, c.i as int, c.j as int, c.p as int, c.q as int)
}

/// Lexicographic order on cursor positions `(i, j, p, q)`; this is the
/// order in which the forward pass visits the admissible chunks, and the
/// reverse of the order used by the backward and best-path passes.
pub open spec fn lex_before(
    ai: int, aj: int, ap: int, aq: int,
    bi: int, bj: int, bp: int, bq: int,
) -> bool {
    ||| ai < bi
    ||| (ai == bi && aj < bj)
    ||| (ai == bi && aj == bj && ap < bp)
    ||| (ai == bi && aj == bj && ap == bp && aq < bq)
}

pub open spec fn chunk_before(a: Chunk, b: Chunk) -> bool {
    lex_before(
        a.i as int, a.j as int, a.p as int, a.q as int,
        b.i as int, b.j as int, b.p as int, b.q as int,
    )
}

/// City-block distance of a chunk: surface length plus phoneme length,
/// where an empty phoneme slice still costs one.
pub open spec fn spec_distance(c: Chunk) -> int {
    (c.p - c.i) + (if c.q - c.j >= 1 { c.q - c.j } else { 1 })
}

/// Distance weight used to scale a chunk's score in every lattice pass.
pub fn chunk_distance(c: &Chunk) -> (d: usize)
    requires
        c.i < c.p,
        c.j <= c.q,
        (c.p - c.i) + (c.q - c.j) < usize::MAX,
    ensures
        d == spec_distance(*c),
{
    let surface_len = c.p - c.i;
    let phoneme_len = c.q - c.j;
    if phoneme_len >= 1 {
        surface_len + phoneme_len
    } else {
        surface_len + 1
    }
}

/// Every admissible chunk of a surface of length `n` and a phoneme
/// sequence of length `m`, exactly once, in ascending lexicographic order
/// of `(i, j, p, q)`. The backward, posterior and best-path passes visit
/// the same list back to front.
pub fn admissible_chunks(n: usize, m: usize) -> (r: Vec<Chunk>)
    requires
        n < usize::MAX,
        m < usize::MAX,
    ensures
        forall|k: int| 0 <= k < r.len() ==> chunk_admissible(n as int, m as int, #[trigger] r[k]),
        forall|k1: int, k2: int| 0 <= k1 < k2 < r.len() ==> chunk_before(r[k1], r[k2]),
        forall|c: Chunk| chunk_admissible(n as int, m as int, c) ==> r@.contains(c),
{
    let mut r: Vec<Chunk> = Vec::new();
    let mut i: usize = 0;
    while i < n
        invariant
            n < usize::MAX,
            m < usize::MAX,
            i <= n,
            forall|k: int| 0 <= k < r.len() ==> chunk_admissible(n as int, m as int, #[trigger] r[k]),
            forall|k1: int, k2: int| 0 <= k1 < k2 < r.len() ==> chunk_before(r[k1], r[k2]),
            forall|k: int| 0 <= k < r.len()
                ==> lex_before((#[trigger] r[k]).i as int, r[k].j as int, r[k].p as int, r[k].q as int,
                    i as int, 0, 0, 0),
            forall|c: Chunk| chunk_admissible(n as int, m as int, c)
                && lex_before(c.i as int, c.j as int, c.p as int, c.q as int, i as int, 0, 0, 0)
                ==> r@.contains(c),
        decreases n - i,
    {
        let mut j: usize = 0;
        while j < m + 1
            invariant
                n < usize::MAX,
                m < usize::MAX,
                i < n,
                j <= m + 1,
                forall|k: int| 0 <= k < r.len() ==> chunk_admissible(n as int, m as int, #[trigger] r[k]),
                forall|k1: int, k2: int| 0 <= k1 < k2 < r.len() ==> chunk_before(r[k1], r[k2]),
                forall|k: int| 0 <= k < r.len()
                    ==> lex_before((#[trigger] r[k]).i as int, r[k].j as int, r[k].p as int, r[k].q as int,
                        i as int, j as int, 0, 0),
                forall|c: Chunk| chunk_admissible(n as int, m as int, c)
                    && lex_before(c.i as int, c.j as int, c.p as int, c.q as int, i as int, j as int, 0, 0)
                    ==> r@.contains(c),
            decreases m + 1 - j,
        {
            if i == 0 && j != 0 {
                j = j + 1;
                continue;
            }
            let mut p: usize = i + 1;
            while p < n + 1
                invariant
                    n < usize::MAX,
                    m < usize::MAX,
                    i < n,
                    j <= m,
                    i == 0 ==> j == 0,
                    i + 1 <= p <= n + 1,
                    forall|k: int| 0 <= k < r.len() ==> chunk_admissible(n as int, m as int, #[trigger] r[k]),
                    forall|k1: int, k2: int| 0 <= k1 < k2 < r.len() ==> chunk_before(r[k1], r[k2]),
                    forall|k: int| 0 <= k < r.len()
                        ==> lex_before((#[trigger] r[k]).i as int, r[k].j as int, r[k].p as int, r[k].q as int,
                            i as int, j as int, p as int, j as int),
                    forall|c: Chunk| chunk_admissible(n as int, m as int, c)
                        && lex_before(c.i as int, c.j as int, c.p as int, c.q as int,
                            i as int, j as int, p as int, j as int)
                        ==> r@.contains(c),
                decreases n + 1 - p,
            {
                let mut q: usize = j;
                while q < m + 1
                    invariant
                        n < usize::MAX,
                        m < usize::MAX,
                        i < n,
                        j <= m,
                        i == 0 ==> j == 0,
                        i + 1 <= p <= n,
                        j <= q <= m + 1,
                        forall|k: int| 0 <= k < r.len() ==> chunk_admissible(n as int, m as int, #[trigger] r[k]),
                        forall|k1: int, k2: int| 0 <= k1 < k2 < r.len() ==> chunk_before(r[k1], r[k2]),
                        forall|k: int| 0 <= k < r.len()
                            ==> lex_before((#[trigger] r[k]).i as int, r[k].j as int, r[k].p as int, r[k].q as int,
                                i as int, j as int, p as int, q as int),
                        forall|c: Chunk| chunk_admissible(n as int, m as int, c)
                            && lex_before(c.i as int, c.j as int, c.p as int, c.q as int,
                                i as int, j as int, p as int, q as int)
                            ==> r@.contains(c),
                    decreases m + 1 - q,
                {
                    if !(p == n && q != m) {
                        r.push(Chunk { i, j, p, q });
                    }
                    q = q + 1;
                }
                p = p + 1;
            }
            j = j + 1;
        }
        i = i + 1;
    }
    proof {
        assert forall|c: Chunk| chunk_admissible(n as int, m as int, c) implies r@.contains(c) by {
            assert(lex_before(c.i as int, c.j as int, c.p as int, c.q as int, n as int, 0, 0, 0));
        }
    }
    r
}

/// Anchor cells are never written by the lattice passes: no admissible
/// chunk ends at the origin, so the forward pass leaves its starting
/// value at `(0, 0)`; and none starts at `(n, m)` or beyond, so the
/// backward pass leaves its starting value at `(n, m)`.
pub proof fn lemma_anchor_cells_untouched(n: int, m: int, c: Chunk)
    requires
        chunk_admissible(n, m, c),
    ensures
        c.p > 0,
        c.i < n,
{
}

} // verus!
