use vstd::prelude::*;
use crate::array_2d::Array2d;

verus! {

/// An alignment of a surface of length `n` with a phoneme sequence of
/// length `m`: the ordered endpoints of its chunks. Surface endpoints
/// grow strictly, phoneme endpoints grow weakly, and the last pair is
/// exactly `(n, m)`.
pub open spec fn alignment_valid(n: int, m: int, a: Seq<(usize, usize)>) -> bool {
    &&& a.len() >= 1
    &&& a[a.len() - 1].0 == n
    &&& a[a.len() - 1].1 == m
    &&& a[0].0 > 0
    &&& forall|k: int| 0 <= k < a.len() ==> (#[trigger] a[k]).0 <= n && a[k].1 <= m
    &&& forall|k: int| 0 <= k < a.len() - 1
        ==> (#[trigger] a[k]).0 < a[k + 1].0 && a[k].1 <= a[k + 1].1
}

/// The chunk endpoints read off a best-path pointer grid, starting at
/// `(i, j)` and following each cell's pointer until `(n, m)`.
///
/// `None` when a pointer fails to advance the surface position, steps
/// backwards in the phoneme position, leaves the grid, or when the walk
/// reaches the border anywhere other than `(n, m)`.
pub open spec fn spec_chain(
    g: Array2d<(usize, usize)>,
    n: int,
    m: int,
    i: int,
    j: int,
) -> Option<Seq<(usize, usize)>>
    decreases n - i,
{
    if i == n && j == m {
        Some(Seq::empty())
    } else {
        let (ni, nj) = g.spec_at(i, j);
        if i < ni <= n && j <= nj <= m {
            match spec_chain(g, n, m, ni as int, nj as int) {
                Some(rest) => Some(seq![(ni, nj)] + rest),
                None => None,
            }
        } else {
            None
        }
    }
}

/// Best-path readout: follow the pointers of `next` from the origin and
/// record each visited pair of endpoints. The walk fails loudly instead
/// of truncating when the grid does not lead it exactly to `(n, m)`.
pub fn decode_path(next: &Array2d<(usize, usize)>, n: usize, m: usize) -> (r: Option<
    Vec<(usize, usize)>,
>)
    requires
        next.wf(),
        next.spec_width() == n + 1,
        next.spec_height() == m + 1,
    ensures
        match r {
            Some(path) => spec_chain(*next, n as int, m as int, 0, 0) == Some(path@),
            None => spec_chain(*next, n as int, m as int, 0, 0) is None,
        },
{
    let mut path: Vec<(usize, usize)> = Vec::new();
    let mut i: usize = 0;
    let mut j: usize = 0;
    while !(i == n && j == m)
        invariant
            next.wf(),
            next.spec_width() == n + 1,
            next.spec_height() == m + 1,
            i <= n,
            j <= m,
            spec_chain(*next, n as int, m as int, 0, 0) == match spec_chain(
                *next,
                n as int,
                m as int,
                i as int,
                j as int,
            ) {
                Some(rest) => Some(path@ + rest),
                None => None::<Seq<(usize, usize)>>,
            },
        decreases n - i,
    {
        let cell = next.get(i, j);
        let (ni, nj) = match cell {
            Some(c) => *c,
            None => { return None; },
        };
        if !(i < ni && ni <= n && j <= nj && nj <= m) {
            return None;
        }
        path.push((ni, nj));
        i = ni;
        j = nj;
        proof {
            if spec_chain(*next, n as int, m as int, i as int, j as int) is Some {
                let rest = spec_chain(*next, n as int, m as int, i as int, j as int).unwrap();
                assert(path@ + rest =~= path@.drop_last() + (seq![(ni, nj)] + rest));
            }
        }
    }
    proof {
        assert(path@ + Seq::<(usize, usize)>::empty() =~= path@);
    }
    Some(path)
}

/// Every successful walk from a position on neither border is a valid
/// alignment suffix: its endpoints stay inside the grid, its surface
/// endpoints grow strictly, its phoneme endpoints grow weakly, and it
/// ends exactly at `(n, m)`.
proof fn lemma_chain_shape(g: Array2d<(usize, usize)>, n: int, m: int, i: int, j: int)
    requires
        0 <= i <= n,
        0 <= j <= m,
        spec_chain(g, n, m, i, j) is Some,
    ensures
        ({
            let a = spec_chain(g, n, m, i, j).unwrap();
            &&& (a.len() == 0 <==> (i == n && j == m))
            &&& a.len() >= 1 ==> a[a.len() - 1].0 == n && a[a.len() - 1].1 == m
            &&& a.len() >= 1 ==> a[0].0 > i && a[0].1 >= j
            &&& forall|k: int| 0 <= k < a.len() ==> (#[trigger] a[k]).0 <= n && a[k].1 <= m
            &&& forall|k: int| 0 <= k < a.len() - 1
                ==> (#[trigger] a[k]).0 < a[k + 1].0 && a[k].1 <= a[k + 1].1
        }),
    decreases n - i,
{
    if i == n && j == m {
    } else {
        let (ni, nj) = g.spec_at(i, j);
        lemma_chain_shape(g, n, m, ni as int, nj as int);
        let rest = spec_chain(g, n, m, ni as int, nj as int).unwrap();
        let a = spec_chain(g, n, m, i, j).unwrap();
        assert(a == seq![(ni, nj)] + rest);
        assert(a[0] == (ni, nj));
        assert(forall|k: int| 1 <= k < a.len() ==> a[k] == rest[k - 1]);
    }
}

/// Decoded alignment endpoints: a successful walk over a non-empty
/// surface is a valid alignment — its first chunk starts at the origin
/// and covers at least one surface character, every later chunk advances
/// the surface strictly and the phonemes weakly, and the last chunk ends
/// exactly at `(n, m)`.
pub proof fn lemma_decoded_alignment_valid(g: Array2d<(usize, usize)>, n: int, m: int)
    requires
        1 <= n,
        0 <= m,
        spec_chain(g, n, m, 0, 0) is Some,
    ensures
        alignment_valid(n, m, spec_chain(g, n, m, 0, 0).unwrap()),
{
    lemma_chain_shape(g, n, m, 0, 0);
}

} // verus!
