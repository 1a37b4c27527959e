use vstd::prelude::*;
use crate::keyed::{HashMap2, HashSet4};
use crate::chars::subvec;
use crate::decode::alignment_valid;

verus! {

/// The start of chunk `k` of an alignment: the end of the chunk before
/// it, or the origin.
pub open spec fn chunk_start(a: Seq<(usize, usize)>, k: int) -> (int, int) {
    if k == 0 {
        (0, 0)
    } else {
        (a[k - 1].0 as int, a[k - 1].1 as int)
    }
}

/// The substring pairs an alignment cuts a training pair into.
pub open spec fn chunks_of(s: Seq<char>, p: Seq<char>, a: Seq<(usize, usize)>) -> Seq<
    (Seq<char>, Seq<char>),
> {
    Seq::new(
        a.len(),
        |k: int|
            (
                s.subrange(chunk_start(a, k).0, a[k].0 as int),
                p.subrange(chunk_start(a, k).1, a[k].1 as int),
            ),
    )
}

/// The view of a phoneme map as a map to alignment sequences.
pub open spec fn map_view(m: HashMap2<Vec<(usize, usize)>>) -> Map<
    (Seq<char>, Seq<char>),
    Seq<(usize, usize)>,
> {
    Map::new(
        |k: (Seq<char>, Seq<char>)| m@.contains_key(k),
        |k: (Seq<char>, Seq<char>)| m@[k]@,
    )
}

/// Chunk `d` immediately follows chunk `c` somewhere in the map.
pub open spec fn adjacent_in(
    m: Map<(Seq<char>, Seq<char>), Seq<(usize, usize)>>,
    c: (Seq<char>, Seq<char>),
    d: (Seq<char>, Seq<char>),
) -> bool {
    exists|key: (Seq<char>, Seq<char>), k: int|
        #![trigger chunks_of(key.0, key.1, m[key])[k]]
        m.contains_key(key) && 0 <= k && k + 1 < m[key].len() && chunks_of(key.0, key.1, m[key])[k]
            == c && chunks_of(key.0, key.1, m[key])[k + 1] == d
}

/// `d` is the only chunk that ever follows `c`.
pub open spec fn next_unique(
    m: Map<(Seq<char>, Seq<char>), Seq<(usize, usize)>>,
    c: (Seq<char>, Seq<char>),
    d: (Seq<char>, Seq<char>),
) -> bool {
    adjacent_in(m, c, d) && forall|d2: (Seq<char>, Seq<char>)| adjacent_in(m, c, d2) ==> d2 == d
}

/// `c` is the only chunk that ever precedes `d`.
pub open spec fn prev_unique(
    m: Map<(Seq<char>, Seq<char>), Seq<(usize, usize)>>,
    c: (Seq<char>, Seq<char>),
    d: (Seq<char>, Seq<char>),
) -> bool {
    adjacent_in(m, c, d) && forall|c2: (Seq<char>, Seq<char>)| adjacent_in(m, c2, d) ==> c2 == c
}

/// An ordered chunk pair whose adjacency is unambiguous in at least one
/// direction may be fused.
pub open spec fn spec_mergeable(
    m: Map<(Seq<char>, Seq<char>), Seq<(usize, usize)>>,
    c: (Seq<char>, Seq<char>),
    d: (Seq<char>, Seq<char>),
) -> bool {
    next_unique(m, c, d) || prev_unique(m, c, d)
}

/// One step of the greedy rewrite walk: the incoming chunk either
/// extends the chunk written last, when the pair of their substring
/// pairs is in the mergeable set, or is appended.
pub open spec fn walk_step(
    s: Seq<char>,
    p: Seq<char>,
    out: Seq<(usize, usize)>,
    e: (usize, usize),
    mg: Set<(Seq<char>, Seq<char>, Seq<char>, Seq<char>)>,
) -> Seq<(usize, usize)> {
    if out.len() == 0 {
        out.push(e)
    } else {
        let last = out.last();
        let st = if out.len() >= 2 {
            out[out.len() - 2]
        } else {
            (0usize, 0usize)
        };
        if mg.contains(
            (
                s.subrange(st.0 as int, last.0 as int),
                p.subrange(st.1 as int, last.1 as int),
                s.subrange(last.0 as int, e.0 as int),
                p.subrange(last.1 as int, e.1 as int),
            ),
        ) {
            out.update(out.len() - 1, e)
        } else {
            out.push(e)
        }
    }
}

/// The greedy left-to-right rewrite of one alignment: one pass, no
/// re-scanning of freshly merged chunks.
pub open spec fn merge_walk(
    s: Seq<char>,
    p: Seq<char>,
    a: Seq<(usize, usize)>,
    mg: Set<(Seq<char>, Seq<char>, Seq<char>, Seq<char>)>,
) -> Seq<(usize, usize)>
    decreases a.len(),
{
    if a.len() == 0 {
        Seq::empty()
    } else {
        walk_step(s, p, merge_walk(s, p, a.drop_last(), mg), a.last(), mg)
    }
}

/// Rewrites every alignment of the map by the greedy walk against the
/// given mergeable set. Keys are untouched.
pub fn apply_merge(map: &mut HashMap2<Vec<(usize, usize)>>, mg: &HashSet4)
    requires
        old(map).wf(),
        forall|t: int| 0 <= t < old(map).spec_len() ==> alignment_valid(
            (#[trigger] old(map).key_at(t)).0.len() as int,
            old(map).key_at(t).1.len() as int,
            old(map).val_at(t)@,
        ),
    ensures
        final(map).wf(),
        final(map).spec_len() == old(map).spec_len(),
        forall|t: int| 0 <= t < old(map).spec_len()
            ==> #[trigger] final(map).key_at(t) == old(map).key_at(t),
        forall|t: int| 0 <= t < old(map).spec_len()
            ==> (#[trigger] final(map).val_at(t))@ == merge_walk(
                old(map).key_at(t).0,
                old(map).key_at(t).1,
                old(map).val_at(t)@,
                mg@,
            ),
{
    let count = map.len();
    let mut t: usize = 0;
    while t < count
        invariant
            t <= count,
            count == map.spec_len(),
            map.wf(),
            map.spec_len() == old(map).spec_len(),
            forall|s: int| 0 <= s < old(map).spec_len()
                ==> #[trigger] map.key_at(s) == old(map).key_at(s),
            forall|s: int| t <= s < old(map).spec_len()
                ==> #[trigger] map.val_at(s) == old(map).val_at(s),
            forall|s: int| 0 <= s < t
                ==> (#[trigger] map.val_at(s))@ == merge_walk(
                    old(map).key_at(s).0,
                    old(map).key_at(s).1,
                    old(map).val_at(s)@,
                    mg@,
                ),
            forall|s: int| 0 <= s < old(map).spec_len() ==> alignment_valid(
                (#[trigger] old(map).key_at(s)).0.len() as int,
                old(map).key_at(s).1.len() as int,
                old(map).val_at(s)@,
            ),
        decreases count - t,
    {
        let surface = subvec(map.key1_at(t), 0, map.key1_at(t).len());
        let phoneme = subvec(map.key2_at(t), 0, map.key2_at(t).len());
        let a = map.value_at(t);
        let chunk_count = a.len();
        let mut out: Vec<(usize, usize)> = Vec::new();
        let mut c: usize = 0;
        while c < chunk_count
            invariant
                c <= chunk_count,
                t < map.spec_len(),
                map.wf(),
                surface@ == map.key_at(t as int).0,
                phoneme@ == map.key_at(t as int).1,
                a@ == map.val_at(t as int)@,
                chunk_count == a@.len(),
                alignment_valid(surface@.len() as int, phoneme@.len() as int, a@),
                out@ == merge_walk(surface@, phoneme@, a@.subrange(0, c as int), mg@),
                c > 0 ==> out@.len() >= 1 && out@.last() == a@[c - 1],
                forall|s: int| 0 <= s < out@.len()
                    ==> (#[trigger] out@[s]).0 <= surface@.len() && out@[s].1 <= phoneme@.len(),
                forall|s: int| 0 <= s < out@.len() - 1
                    ==> (#[trigger] out@[s]).0 <= out@[s + 1].0 && out@[s].1 <= out@[s + 1].1,
            decreases chunk_count - c,
        {
            let e = a[c];
            proof {
                if c > 0 {
                    assert((a@[c - 1]).0 < a@[c as int].0 && a@[c - 1].1 <= a@[c as int].1);
                }
                assert((a@[c as int]).0 <= surface@.len() && a@[c as int].1 <= phoneme@.len());
            }
            if out.len() == 0 {
                out.push(e);
            } else {
                let last = out[out.len() - 1];
                let (ss, ps) = if out.len() >= 2 {
                    out[out.len() - 2]
                } else {
                    (0usize, 0usize)
                };
                let k1 = subvec(&surface, ss, last.0);
                let k2 = subvec(&phoneme, ps, last.1);
                let k3 = subvec(&surface, last.0, e.0);
                let k4 = subvec(&phoneme, last.1, e.1);
                if mg.contains(&k1, &k2, &k3, &k4) {
                    let pos = out.len() - 1;
                    out[pos] = e;
                } else {
                    out.push(e);
                }
            }
            proof {
                assert(a@.subrange(0, c + 1).drop_last() =~= a@.subrange(0, c as int));
                assert(a@.subrange(0, c + 1).last() == a@[c as int]);
            }
            c = c + 1;
        }
        proof {
            assert(a@.subrange(0, chunk_count as int) =~= a@);
        }
        map.set_value_at(t, out);
        t = t + 1;
    }
}

/// Successor (or predecessor) record of one chunk while scanning
/// adjacencies: the single neighbour seen so far, or more than one.
pub enum Adjacency {
    One(Vec<char>, Vec<char>),
    Many,
}

/// The record holds exactly the neighbour `d`.
pub open spec fn one_of(v: Adjacency, d: (Seq<char>, Seq<char>)) -> bool {
    match v {
        Adjacency::One(x, y) => x@ == d.0 && y@ == d.1,
        Adjacency::Many => false,
    }
}

/// A neighbour map is faithful to a set of seen ordered pairs: a chunk
/// is a key exactly when it has a seen neighbour, and a `One` record
/// names its only seen neighbour.
pub open spec fn adj_inv(
    nm: HashMap2<Adjacency>,
    seen: Set<((Seq<char>, Seq<char>), (Seq<char>, Seq<char>))>,
) -> bool {
    &&& forall|c: (Seq<char>, Seq<char>), d: (Seq<char>, Seq<char>)|
        #[trigger] seen.contains((c, d)) ==> nm@.contains_key(c)
    &&& forall|c: (Seq<char>, Seq<char>)|
        #[trigger] nm@.contains_key(c) ==> exists|d: (Seq<char>, Seq<char>)|
            #[trigger] seen.contains((c, d))
    &&& forall|c: (Seq<char>, Seq<char>), d: (Seq<char>, Seq<char>)|
        nm@.contains_key(c) && #[trigger] one_of(nm@[c], d) ==> seen.contains((c, d)) && (forall|
            d2: (Seq<char>, Seq<char>),
        |
            #[trigger] seen.contains((c, d2)) ==> d2 == d)
    &&& forall|c: (Seq<char>, Seq<char>)|
        nm@.contains_key(c) && (#[trigger] nm@[c]) is Many ==> exists|
            d1: (Seq<char>, Seq<char>),
            d2: (Seq<char>, Seq<char>),
        | d1 != d2 && #[trigger] seen.contains((c, d1)) && #[trigger] seen.contains((c, d2))
}

/// Feeds one seen ordered pair `(c, d)` into a neighbour map.
#[verifier::rlimit(50)]
fn record_adjacency(
    nm: &mut HashMap2<Adjacency>,
    c1: &Vec<char>,
    c2: &Vec<char>,
    d1: &Vec<char>,
    d2: &Vec<char>,
    Ghost(seen): Ghost<Set<((Seq<char>, Seq<char>), (Seq<char>, Seq<char>))>>,
)
    requires
        old(nm).wf(),
        adj_inv(*old(nm), seen),
    ensures
        final(nm).wf(),
        adj_inv(*final(nm), seen.insert(((c1@, c2@), (d1@, d2@)))),
{
    let ghost c = (c1@, c2@);
    let ghost d = (d1@, d2@);
    let ghost mut d_old: (Seq<char>, Seq<char>) = (Seq::empty(), Seq::empty());
    let mut insert_one = false;
    let mut insert_many = false;
    match nm.get(c1, c2) {
        None => {
            insert_one = true;
        },
        Some(v) => {
            match v {
                Adjacency::One(x, y) => {
                    proof {
                        d_old = (x@, y@);
                        assert(one_of(old(nm)@[c], d_old));
                    }
                    if !(crate::chars::chars_eq(x, d1) && crate::chars::chars_eq(y, d2)) {
                        insert_many = true;
                        proof {
                            assert(d_old != d);
                        }
                    } else {
                        proof {
                            assert(one_of(old(nm)@[c], d));
                        }
                    }
                },
                Adjacency::Many => {},
            }
        },
    }
    if insert_one || insert_many {
        let k1 = subvec(c1, 0, c1.len());
        let k2 = subvec(c2, 0, c2.len());
        proof {
            assert(k1@ =~= c1@);
            assert(k2@ =~= c2@);
        }
        if insert_one {
            let x = subvec(d1, 0, d1.len());
            let y = subvec(d2, 0, d2.len());
            proof {
                assert(x@ =~= d1@);
                assert(y@ =~= d2@);
            }
            let ghost v = Adjacency::One(x, y);
            nm.insert(k1, k2, Adjacency::One(x, y));
            proof {
                assert(nm@ == old(nm)@.insert(c, v));
                assert(one_of(v, d));
            }
        } else {
            nm.insert(k1, k2, Adjacency::Many);
            proof {
                assert(nm@ == old(nm)@.insert(c, Adjacency::Many));
            }
        }
    }
    proof {
        let seen2 = seen.insert((c, d));
        assert forall|c3: (Seq<char>, Seq<char>), d3: (Seq<char>, Seq<char>)|
            #[trigger] seen2.contains((c3, d3)) implies nm@.contains_key(c3) by {
            if seen.contains((c3, d3)) {
                assert(old(nm)@.contains_key(c3));
            }
        }
        assert forall|c3: (Seq<char>, Seq<char>)| #[trigger] nm@.contains_key(c3) implies exists|
            d3: (Seq<char>, Seq<char>),
        | #[trigger] seen2.contains((c3, d3)) by {
            if c3 == c {
                assert(seen2.contains((c, d)));
            } else {
                assert(old(nm)@.contains_key(c3));
                let d3 = choose|d3: (Seq<char>, Seq<char>)| #[trigger] seen.contains((c3, d3));
                assert(seen2.contains((c3, d3)));
            }
        }
        assert forall|c3: (Seq<char>, Seq<char>), d3: (Seq<char>, Seq<char>)|
            nm@.contains_key(c3) && #[trigger] one_of(nm@[c3], d3) implies seen2.contains((c3, d3))
            && (forall|d4: (Seq<char>, Seq<char>)| #[trigger] seen2.contains((c3, d4)) ==> d4
            == d3) by {
            if c3 == c {
                if insert_one {
                    assert(d3 == d);
                    assert(seen2.contains((c, d)));
                    assert forall|d4: (Seq<char>, Seq<char>)| #[trigger] seen2.contains(
                        (c, d4),
                    ) implies d4 == d by {
                        if seen.contains((c, d4)) {
                            assert(old(nm)@.contains_key(c));
                            assert(false);
                        }
                    }
                } else if insert_many {
                    assert(!one_of(nm@[c3], d3));
                } else {
                    assert(nm@[c3] == old(nm)@[c3]);
                    assert(one_of(old(nm)@[c3], d3));
                    assert(seen.contains((c3, d3)));
                    assert(one_of(old(nm)@[c], d));
                    assert(d3 == d);
                }
            } else {
                assert(nm@[c3] == old(nm)@[c3]);
                assert(old(nm)@.contains_key(c3));
                assert(seen.contains((c3, d3)));
            }
        }
        assert forall|c3: (Seq<char>, Seq<char>)|
            nm@.contains_key(c3) && (#[trigger] nm@[c3]) is Many implies exists|
            d3: (Seq<char>, Seq<char>),
            d4: (Seq<char>, Seq<char>),
        | d3 != d4 && #[trigger] seen2.contains((c3, d3)) && #[trigger] seen2.contains(
            (c3, d4),
        ) by {
            if c3 == c {
                if insert_many {
                    assert(seen2.contains((c, d_old)));
                    assert(seen2.contains((c, d)));
                    assert(d_old != d);
                } else {
                    assert(nm@[c3] == old(nm)@[c3]);
                    let (d3, d4) = choose|d3: (Seq<char>, Seq<char>), d4: (Seq<char>, Seq<char>)|
                        d3 != d4 && #[trigger] seen.contains((c3, d3)) && #[trigger] seen.contains(
                            (c3, d4),
                        );
                    assert(seen2.contains((c3, d3)) && seen2.contains((c3, d4)));
                }
            } else {
                assert(nm@[c3] == old(nm)@[c3]);
                let (d3, d4) = choose|d3: (Seq<char>, Seq<char>), d4: (Seq<char>, Seq<char>)|
                    d3 != d4 && #[trigger] seen.contains((c3, d3)) && #[trigger] seen.contains(
                        (c3, d4),
                    );
                assert(seen2.contains((c3, d3)) && seen2.contains((c3, d4)));
            }
        }
    }
}

/// The substring pairs of the entry at position `t` of the map.
pub open spec fn entry_chunks(m: HashMap2<Vec<(usize, usize)>>, t: int) -> Seq<
    (Seq<char>, Seq<char>),
> {
    chunks_of(m.key_at(t).0, m.key_at(t).1, m.val_at(t)@)
}

/// Chunk `d` follows chunk `c` at an adjacency position the scan has
/// already visited: in an entry before `t`, or in entry `t` before pair
/// position `kk`.
pub open spec fn adj_upto(
    m: HashMap2<Vec<(usize, usize)>>,
    t: int,
    kk: int,
    c: (Seq<char>, Seq<char>),
    d: (Seq<char>, Seq<char>),
) -> bool {
    exists|t2: int, k2: int|
        #![trigger entry_chunks(m, t2)[k2]]
        0 <= t2 < m.spec_len() && (t2 < t || (t2 == t && k2 < kk)) && 0 <= k2 && k2 + 1
            < m.val_at(t2)@.len() && entry_chunks(m, t2)[k2] == c && entry_chunks(m, t2)[k2 + 1]
            == d
}

pub open spec fn upto_set(m: HashMap2<Vec<(usize, usize)>>, t: int, kk: int) -> Set<
    ((Seq<char>, Seq<char>), (Seq<char>, Seq<char>)),
> {
    Set::new(
        |cd: ((Seq<char>, Seq<char>), (Seq<char>, Seq<char>))| adj_upto(m, t, kk, cd.0, cd.1),
    )
}

pub open spec fn rev_upto_set(m: HashMap2<Vec<(usize, usize)>>, t: int, kk: int) -> Set<
    ((Seq<char>, Seq<char>), (Seq<char>, Seq<char>)),
> {
    Set::new(
        |dc: ((Seq<char>, Seq<char>), (Seq<char>, Seq<char>))| adj_upto(m, t, kk, dc.1, dc.0),
    )
}

/// Owned copies of the substring pairs an alignment cuts a pair into.
fn chunk_slices(surface: &Vec<char>, phoneme: &Vec<char>, a: &Vec<(usize, usize)>) -> (r: Vec<
    (Vec<char>, Vec<char>),
>)
    requires
        alignment_valid(surface@.len() as int, phoneme@.len() as int, a@),
    ensures
        r@.len() == a@.len(),
        forall|k: int| 0 <= k < r@.len()
            ==> ((#[trigger] r@[k]).0@, r@[k].1@) == chunks_of(surface@, phoneme@, a@)[k],
{
    let mut r: Vec<(Vec<char>, Vec<char>)> = Vec::new();
    let mut ss: usize = 0;
    let mut ps: usize = 0;
    let count = a.len();
    let mut k: usize = 0;
    while k < count
        invariant
            k <= count,
            count == a@.len(),
            alignment_valid(surface@.len() as int, phoneme@.len() as int, a@),
            r@.len() == k,
            (ss as int, ps as int) == chunk_start(a@, k as int),
            forall|s: int| 0 <= s < k
                ==> ((#[trigger] r@[s]).0@, r@[s].1@) == chunks_of(surface@, phoneme@, a@)[s],
        decreases count - k,
    {
        let (e, qe) = a[k];
        proof {
            if k > 0 {
                assert((a@[k - 1]).0 < a@[k as int].0 && a@[k - 1].1 <= a@[k as int].1);
            }
            assert((a@[k as int]).0 <= surface@.len() && a@[k as int].1 <= phoneme@.len());
        }
        let cs = subvec(surface, ss, e);
        let cp = subvec(phoneme, ps, qe);
        r.push((cs, cp));
        ss = e;
        ps = qe;
        k = k + 1;
    }
    r
}

/// Collects the mergeable adjacencies of the map: exactly the ordered
/// chunk pairs whose co-occurrence is unambiguous in at least one
/// direction. The map itself is untouched.
#[verifier::rlimit(100)]
pub fn mergeable_pairs(map: &HashMap2<Vec<(usize, usize)>>) -> (r: HashSet4)
    requires
        map.wf(),
        forall|t: int| 0 <= t < map.spec_len() ==> alignment_valid(
            (#[trigger] map.key_at(t)).0.len() as int,
            map.key_at(t).1.len() as int,
            map.val_at(t)@,
        ),
    ensures
        forall|q: (Seq<char>, Seq<char>, Seq<char>, Seq<char>)| r@.contains(q)
            ==> spec_mergeable(map_view(*map), (q.0, q.1), (q.2, q.3)),
        forall|c: (Seq<char>, Seq<char>), d: (Seq<char>, Seq<char>)|
            #[trigger] spec_mergeable(map_view(*map), c, d) ==> r@.contains((c.0, c.1, d.0, d.1)),
{
    let mut nm: HashMap2<Adjacency> = HashMap2::new();
    let mut pm: HashMap2<Adjacency> = HashMap2::new();
    let entry_count = map.len();
    let mut t: usize = 0;
    while t < entry_count
        invariant
            t <= entry_count,
            entry_count == map.spec_len(),
            map.wf(),
            forall|s: int| 0 <= s < map.spec_len() ==> alignment_valid(
                (#[trigger] map.key_at(s)).0.len() as int,
                map.key_at(s).1.len() as int,
                map.val_at(s)@,
            ),
            nm.wf(),
            pm.wf(),
            adj_inv(nm, upto_set(*map, t as int, 0)),
            adj_inv(pm, rev_upto_set(*map, t as int, 0)),
        decreases entry_count - t,
    {
        let surface = map.key1_at(t);
        let phoneme = map.key2_at(t);
        let a = map.value_at(t);
        let cs = chunk_slices(surface, phoneme, a);
        let pair_count = cs.len() - 1;
        let mut k: usize = 0;
        proof {
            assert(upto_set(*map, t as int, 0) =~= upto_set(*map, t as int, 0));
        }
        while k < pair_count
            invariant
                k <= pair_count,
                t < map.spec_len(),
                map.wf(),
                nm.wf(),
                pm.wf(),
                pair_count == cs@.len() - 1,
                cs@.len() == map.val_at(t as int)@.len(),
                cs@.len() >= 1,
                forall|s: int| 0 <= s < cs@.len()
                    ==> ((#[trigger] cs@[s]).0@, cs@[s].1@) == entry_chunks(*map, t as int)[s],
                adj_inv(nm, upto_set(*map, t as int, k as int)),
                adj_inv(pm, rev_upto_set(*map, t as int, k as int)),
            decreases pair_count - k,
        {
            let ghost c = entry_chunks(*map, t as int)[k as int];
            let ghost d = entry_chunks(*map, t as int)[k + 1];
            proof {
                assert((cs@[k as int].0@, cs@[k as int].1@) == c);
                assert((cs@[k + 1].0@, cs@[k + 1].1@) == d);
                assert(upto_set(*map, t as int, k as int).insert((c, d)) =~= upto_set(
                    *map,
                    t as int,
                    k + 1,
                )) by {
                    assert forall|cd: ((Seq<char>, Seq<char>), (Seq<char>, Seq<char>))|
                        upto_set(*map, t as int, k + 1).contains(cd) implies upto_set(
                        *map,
                        t as int,
                        k as int,
                    ).insert((c, d)).contains(cd) by {
                        let (t2, k2) = choose|t2: int, k2: int|
                            #![trigger entry_chunks(*map, t2)[k2]]
                            0 <= t2 < map.spec_len() && (t2 < t || (t2 == t && k2 < k + 1)) && 0
                                <= k2 && k2 + 1 < map.val_at(t2)@.len() && entry_chunks(*map, t2)[k2]
                                == cd.0 && entry_chunks(*map, t2)[k2 + 1] == cd.1;
                        if t2 == t && k2 == k {
                            assert(cd == (c, d));
                        } else {
                            assert(adj_upto(*map, t as int, k as int, cd.0, cd.1));
                        }
                    }
                    assert forall|cd: ((Seq<char>, Seq<char>), (Seq<char>, Seq<char>))|
                        upto_set(*map, t as int, k as int).insert((c, d)).contains(cd) implies
                        upto_set(*map, t as int, k + 1).contains(cd) by {
                        if cd == (c, d) {
                            assert(entry_chunks(*map, t as int)[k as int] == c);
                            assert(adj_upto(*map, t as int, k + 1, c, d));
                        } else {
                            let (t2, k2) = choose|t2: int, k2: int|
                                #![trigger entry_chunks(*map, t2)[k2]]
                                0 <= t2 < map.spec_len() && (t2 < t || (t2 == t && k2 < k)) && 0
                                    <= k2 && k2 + 1 < map.val_at(t2)@.len() && entry_chunks(
                                    *map,
                                    t2,
                                )[k2] == cd.0 && entry_chunks(*map, t2)[k2 + 1] == cd.1;
                            assert(adj_upto(*map, t as int, k + 1, cd.0, cd.1));
                        }
                    }
                }
                assert(rev_upto_set(*map, t as int, k as int).insert((d, c)) =~= rev_upto_set(
                    *map,
                    t as int,
                    k + 1,
                )) by {
                    assert forall|dc: ((Seq<char>, Seq<char>), (Seq<char>, Seq<char>))|
                        rev_upto_set(*map, t as int, k + 1).contains(dc) == rev_upto_set(
                        *map,
                        t as int,
                        k as int,
                    ).insert((d, c)).contains(dc) by {
                        assert(upto_set(*map, t as int, k + 1).contains((dc.1, dc.0)) == upto_set(
                            *map,
                            t as int,
                            k as int,
                        ).insert((c, d)).contains((dc.1, dc.0)));
                        if dc == (d, c) {
                        }
                    }
                }
            }
            record_adjacency(
                &mut nm,
                &cs[k].0,
                &cs[k].1,
                &cs[k + 1].0,
                &cs[k + 1].1,
                Ghost(upto_set(*map, t as int, k as int)),
            );
            record_adjacency(
                &mut pm,
                &cs[k + 1].0,
                &cs[k + 1].1,
                &cs[k].0,
                &cs[k].1,
                Ghost(rev_upto_set(*map, t as int, k as int)),
            );
            k = k + 1;
        }
        proof {
            assert(upto_set(*map, t as int, pair_count as int) =~= upto_set(*map, t + 1, 0)) by {
                assert forall|cd: ((Seq<char>, Seq<char>), (Seq<char>, Seq<char>))|
                    upto_set(*map, t as int, pair_count as int).contains(cd) == upto_set(
                    *map,
                    t + 1,
                    0,
                ).contains(cd) by {
                    if adj_upto(*map, t as int, pair_count as int, cd.0, cd.1) {
                        assert(adj_upto(*map, t + 1, 0, cd.0, cd.1));
                    }
                    if adj_upto(*map, t + 1, 0, cd.0, cd.1) {
                        let (t2, k2) = choose|t2: int, k2: int|
                            #![trigger entry_chunks(*map, t2)[k2]]
                            0 <= t2 < map.spec_len() && (t2 < t + 1 || (t2 == t + 1 && k2 < 0)) && 0
                                <= k2 && k2 + 1 < map.val_at(t2)@.len() && entry_chunks(*map, t2)[k2]
                                == cd.0 && entry_chunks(*map, t2)[k2 + 1] == cd.1;
                        if t2 == t {
                            assert(k2 < pair_count as int);
                        }
                        assert(adj_upto(*map, t as int, pair_count as int, cd.0, cd.1));
                    }
                }
            }
            assert(rev_upto_set(*map, t as int, pair_count as int) =~= rev_upto_set(*map, t + 1, 0))
                by {
                assert forall|dc: ((Seq<char>, Seq<char>), (Seq<char>, Seq<char>))|
                    rev_upto_set(*map, t as int, pair_count as int).contains(dc) == rev_upto_set(
                    *map,
                    t + 1,
                    0,
                ).contains(dc) by {
                    assert(upto_set(*map, t as int, pair_count as int).contains((dc.1, dc.0))
                        == upto_set(*map, t + 1, 0).contains((dc.1, dc.0)));
                }
            }
        }
        t = t + 1;
    }
    quads_from_records(map, &nm, &pm)
}

/// Turns the finished neighbour records into the mergeable set: one
/// quadruple for each chunk with a unique successor, and one for each
/// chunk with a unique predecessor.
#[verifier::rlimit(100)]
fn quads_from_records(
    map: &HashMap2<Vec<(usize, usize)>>,
    nm: &HashMap2<Adjacency>,
    pm: &HashMap2<Adjacency>,
) -> (r: HashSet4)
    requires
        map.wf(),
        nm.wf(),
        pm.wf(),
        adj_inv(*nm, upto_set(*map, map.spec_len(), 0)),
        adj_inv(*pm, rev_upto_set(*map, map.spec_len(), 0)),
    ensures
        forall|q: (Seq<char>, Seq<char>, Seq<char>, Seq<char>)| r@.contains(q)
            ==> spec_mergeable(map_view(*map), (q.0, q.1), (q.2, q.3)),
        forall|c: (Seq<char>, Seq<char>), d: (Seq<char>, Seq<char>)|
            #[trigger] spec_mergeable(map_view(*map), c, d) ==> r@.contains((c.0, c.1, d.0, d.1)),
{
    proof {
        assert forall|c: (Seq<char>, Seq<char>), d: (Seq<char>, Seq<char>)|
            #[trigger] adj_upto(*map, map.spec_len() as int, 0, c, d) == adjacent_in(
            map_view(*map),
            c,
            d,
        ) by {
            if adj_upto(*map, map.spec_len() as int, 0, c, d) {
                let (t2, k2) = choose|t2: int, k2: int|
                    #![trigger entry_chunks(*map, t2)[k2]]
                    0 <= t2 < map.spec_len() && (t2 < map.spec_len() || (t2 == map.spec_len() && k2
                        < 0)) && 0 <= k2 && k2 + 1 < map.val_at(t2)@.len() && entry_chunks(
                        *map,
                        t2,
                    )[k2] == c && entry_chunks(*map, t2)[k2 + 1] == d;
                map.lemma_entry_in_view(t2);
                let key = map.key_at(t2);
                assert(map_view(*map).contains_key(key));
                assert(map_view(*map)[key] == map.val_at(t2)@);
                assert(chunks_of(key.0, key.1, map_view(*map)[key])[k2] == c);
                assert(chunks_of(key.0, key.1, map_view(*map)[key])[k2 + 1] == d);
                assert(adjacent_in(map_view(*map), c, d));
            }
            if adjacent_in(map_view(*map), c, d) {
                let (key, k2) = choose|key: (Seq<char>, Seq<char>), k2: int|
                    #![trigger chunks_of(key.0, key.1, map_view(*map)[key])[k2]]
                    map_view(*map).contains_key(key) && 0 <= k2 && k2 + 1 < map_view(*map)[key].len()
                        && chunks_of(key.0, key.1, map_view(*map)[key])[k2] == c && chunks_of(
                        key.0,
                        key.1,
                        map_view(*map)[key],
                    )[k2 + 1] == d;
                map.lemma_view_to_entry(key);
                let t2 = map.index_of(key);
                assert(entry_chunks(*map, t2)[k2] == c);
                assert(entry_chunks(*map, t2)[k2 + 1] == d);
                assert(adj_upto(*map, map.spec_len() as int, 0, c, d));
            }
        }
    }
    let mut r = HashSet4::new();
    let next_count = nm.len();
    let mut t: usize = 0;
    while t < next_count
        invariant
            t <= next_count,
            next_count == nm.spec_len(),
            map.wf(),
            nm.wf(),
            adj_inv(*nm, upto_set(*map, map.spec_len(), 0)),
            forall|c: (Seq<char>, Seq<char>), d: (Seq<char>, Seq<char>)|
                #[trigger] adj_upto(*map, map.spec_len() as int, 0, c, d) == adjacent_in(
                    map_view(*map),
                    c,
                    d,
                ),
            forall|q: (Seq<char>, Seq<char>, Seq<char>, Seq<char>)| r@.contains(q)
                ==> spec_mergeable(map_view(*map), (q.0, q.1), (q.2, q.3)),
            forall|s: int, dd: (Seq<char>, Seq<char>)|
                0 <= s < t && #[trigger] one_of(nm.val_at(s), dd) ==> r@.contains(
                    (nm.key_at(s).0, nm.key_at(s).1, dd.0, dd.1),
                ),
        decreases next_count - t,
    {
        let mut emit = false;
        match nm.value_at(t) {
            Adjacency::One(_, _) => {
                emit = true;
            },
            Adjacency::Many => {},
        }
        if emit {
            let k1 = subvec(nm.key1_at(t), 0, nm.key1_at(t).len());
            let k2 = subvec(nm.key2_at(t), 0, nm.key2_at(t).len());
            match nm.value_at(t) {
                Adjacency::One(x, y) => {
                    let k3 = subvec(x, 0, x.len());
                    let k4 = subvec(y, 0, y.len());
                    proof {
                        nm.lemma_entry_in_view(t as int);
                        let c = nm.key_at(t as int);
                        let d = (x@, y@);
                        assert(one_of(nm@[c], d));
                        assert(upto_set(*map, map.spec_len(), 0).contains((c, d)));
                        assert(adjacent_in(map_view(*map), c, d));
                        assert forall|d3: (Seq<char>, Seq<char>)| adjacent_in(
                            map_view(*map),
                            c,
                            d3,
                        ) implies d3 == d by {
                            assert(adj_upto(*map, map.spec_len() as int, 0, c, d3));
                            assert(upto_set(*map, map.spec_len(), 0).contains((c, d3)));
                        }
                        assert(next_unique(map_view(*map), c, d));
                        assert((k1@, k2@) == c);
                        assert((k3@, k4@) == d);
                    }
                    r.insert(k1, k2, k3, k4);
                },
                Adjacency::Many => {},
            }
        }
        t = t + 1;
    }
    proof {
        assert forall|c: (Seq<char>, Seq<char>), d: (Seq<char>, Seq<char>)|
            #[trigger] next_unique(map_view(*map), c, d) implies r@.contains(
            (c.0, c.1, d.0, d.1),
        ) by {
            assert(adjacent_in(map_view(*map), c, d));
            assert(adj_upto(*map, map.spec_len() as int, 0, c, d));
            assert(upto_set(*map, map.spec_len(), 0).contains((c, d)));
            assert(nm@.contains_key(c));
            nm.lemma_view_to_entry(c);
            let s = nm.index_of(c);
            match nm.val_at(s) {
                Adjacency::One(x, y) => {
                    assert(one_of(nm.val_at(s), (x@, y@)));
                    assert(upto_set(*map, map.spec_len(), 0).contains((c, (x@, y@))));
                    assert(adj_upto(*map, map.spec_len() as int, 0, c, (x@, y@)));
                    assert(adjacent_in(map_view(*map), c, (x@, y@)));
                    assert((x@, y@) == d);
                },
                Adjacency::Many => {
                    let (d3, d4) = choose|d3: (Seq<char>, Seq<char>), d4: (Seq<char>, Seq<char>)|
                        d3 != d4 && #[trigger] upto_set(*map, map.spec_len(), 0).contains(
                            (c, d3),
                        ) && #[trigger] upto_set(*map, map.spec_len(), 0).contains((c, d4));
                    assert(adjacent_in(map_view(*map), c, d3));
                    assert(adjacent_in(map_view(*map), c, d4));
                    assert(d3 == d && d4 == d);
                    assert(false);
                },
            }
        }
    }
    let prev_count = pm.len();
    let mut t2: usize = 0;
    while t2 < prev_count
        invariant
            t2 <= prev_count,
            prev_count == pm.spec_len(),
            map.wf(),
            pm.wf(),
            adj_inv(*pm, rev_upto_set(*map, map.spec_len(), 0)),
            forall|c: (Seq<char>, Seq<char>), d: (Seq<char>, Seq<char>)|
                #[trigger] adj_upto(*map, map.spec_len() as int, 0, c, d) == adjacent_in(
                    map_view(*map),
                    c,
                    d,
                ),
            forall|q: (Seq<char>, Seq<char>, Seq<char>, Seq<char>)| r@.contains(q)
                ==> spec_mergeable(map_view(*map), (q.0, q.1), (q.2, q.3)),
            forall|c: (Seq<char>, Seq<char>), d: (Seq<char>, Seq<char>)|
                #[trigger] next_unique(map_view(*map), c, d) ==> r@.contains(
                    (c.0, c.1, d.0, d.1),
                ),
            forall|s: int, cc: (Seq<char>, Seq<char>)|
                0 <= s < t2 && #[trigger] one_of(pm.val_at(s), cc) ==> r@.contains(
                    (cc.0, cc.1, pm.key_at(s).0, pm.key_at(s).1),
                ),
        decreases prev_count - t2,
    {
        let mut emit = false;
        match pm.value_at(t2) {
            Adjacency::One(_, _) => {
                emit = true;
            },
            Adjacency::Many => {},
        }
        if emit {
            let k3 = subvec(pm.key1_at(t2), 0, pm.key1_at(t2).len());
            let k4 = subvec(pm.key2_at(t2), 0, pm.key2_at(t2).len());
            match pm.value_at(t2) {
                Adjacency::One(x, y) => {
                    let k1 = subvec(x, 0, x.len());
                    let k2 = subvec(y, 0, y.len());
                    proof {
                        pm.lemma_entry_in_view(t2 as int);
                        let d = pm.key_at(t2 as int);
                        let c = (x@, y@);
                        assert(one_of(pm@[d], c));
                        assert(rev_upto_set(*map, map.spec_len(), 0).contains((d, c)));
                        assert(adj_upto(*map, map.spec_len() as int, 0, c, d));
                        assert(adjacent_in(map_view(*map), c, d));
                        assert forall|c3: (Seq<char>, Seq<char>)| adjacent_in(
                            map_view(*map),
                            c3,
                            d,
                        ) implies c3 == c by {
                            assert(adj_upto(*map, map.spec_len() as int, 0, c3, d));
                            assert(rev_upto_set(*map, map.spec_len(), 0).contains((d, c3)));
                        }
                        assert(prev_unique(map_view(*map), c, d));
                        assert((k1@, k2@) == c);
                        assert((k3@, k4@) == d);
                    }
                    r.insert(k1, k2, k3, k4);
                },
                Adjacency::Many => {},
            }
        }
        t2 = t2 + 1;
    }
    proof {
        assert forall|c: (Seq<char>, Seq<char>), d: (Seq<char>, Seq<char>)|
            #[trigger] spec_mergeable(map_view(*map), c, d) implies r@.contains(
            (c.0, c.1, d.0, d.1),
        ) by {
            if !next_unique(map_view(*map), c, d) {
                assert(prev_unique(map_view(*map), c, d));
                assert(adjacent_in(map_view(*map), c, d));
                assert(adj_upto(*map, map.spec_len() as int, 0, c, d));
                assert(rev_upto_set(*map, map.spec_len(), 0).contains((d, c)));
                assert(pm@.contains_key(d));
                pm.lemma_view_to_entry(d);
                let s = pm.index_of(d);
                match pm.val_at(s) {
                    Adjacency::One(x, y) => {
                        assert(one_of(pm.val_at(s), (x@, y@)));
                        assert(rev_upto_set(*map, map.spec_len(), 0).contains((d, (x@, y@))));
                        assert(adj_upto(*map, map.spec_len() as int, 0, (x@, y@), d));
                        assert(adjacent_in(map_view(*map), (x@, y@), d));
                        assert((x@, y@) == c);
                    },
                    Adjacency::Many => {
                        let (c3, c4) = choose|
                            c3: (Seq<char>, Seq<char>),
                            c4: (Seq<char>, Seq<char>),
                        |
                            c3 != c4 && #[trigger] rev_upto_set(*map, map.spec_len(), 0).contains(
                                (d, c3),
                            ) && #[trigger] rev_upto_set(*map, map.spec_len(), 0).contains(
                                (d, c4),
                            );
                        assert(adjacent_in(map_view(*map), c3, d));
                        assert(adjacent_in(map_view(*map), c4, d));
                        assert(c3 == c && c4 == c);
                        assert(false);
                    },
                }
            }
        }
    }
    r
}

/// The merge pass over a finished phoneme map: computes exactly the
/// mergeable adjacencies of the map as it stands, then rewrites every
/// alignment by the greedy one-shot walk against them. Returns the
/// mergeable set it used.
pub fn merge_phonemes(map: &mut HashMap2<Vec<(usize, usize)>>) -> (mg: HashSet4)
    requires
        old(map).wf(),
        forall|t: int| 0 <= t < old(map).spec_len() ==> alignment_valid(
            (#[trigger] old(map).key_at(t)).0.len() as int,
            old(map).key_at(t).1.len() as int,
            old(map).val_at(t)@,
        ),
    ensures
        final(map).wf(),
        final(map).spec_len() == old(map).spec_len(),
        forall|t: int| 0 <= t < old(map).spec_len()
            ==> #[trigger] final(map).key_at(t) == old(map).key_at(t),
        forall|q: (Seq<char>, Seq<char>, Seq<char>, Seq<char>)| mg@.contains(q)
            ==> spec_mergeable(map_view(*old(map)), (q.0, q.1), (q.2, q.3)),
        forall|c: (Seq<char>, Seq<char>), d: (Seq<char>, Seq<char>)|
            #[trigger] spec_mergeable(map_view(*old(map)), c, d) ==> mg@.contains(
                (c.0, c.1, d.0, d.1),
            ),
        forall|t: int| 0 <= t < old(map).spec_len()
            ==> (#[trigger] final(map).val_at(t))@ == merge_walk(
                old(map).key_at(t).0,
                old(map).key_at(t).1,
                old(map).val_at(t)@,
                mg@,
            ),
{
    let mg = mergeable_pairs(map);
    apply_merge(map, &mg);
    mg
}

/// The prefix of chunk pieces up to `k` concatenates to the prefixes of
/// the two sequences up to the end of chunk `k - 1`.
proof fn lemma_partition_prefix(s: Seq<char>, p: Seq<char>, a: Seq<(usize, usize)>, k: int)
    requires
        alignment_valid(s.len() as int, p.len() as int, a),
        0 <= k <= a.len(),
    ensures
        chunks_of(s, p, a).map_values(|cc: (Seq<char>, Seq<char>)| cc.0).subrange(
            0,
            k,
        ).flatten() == s.subrange(0, chunk_start(a, k).0),
        chunks_of(s, p, a).map_values(|cc: (Seq<char>, Seq<char>)| cc.1).subrange(
            0,
            k,
        ).flatten() == p.subrange(0, chunk_start(a, k).1),
    decreases k,
{
    broadcast use vstd::prelude::Seq::lemma_flatten_push;

    let surfaces = chunks_of(s, p, a).map_values(|cc: (Seq<char>, Seq<char>)| cc.0);
    let phonemes = chunks_of(s, p, a).map_values(|cc: (Seq<char>, Seq<char>)| cc.1);
    if k == 0 {
        assert(surfaces.subrange(0, 0) =~= Seq::<Seq<char>>::empty());
        assert(phonemes.subrange(0, 0) =~= Seq::<Seq<char>>::empty());
        assert(s.subrange(0, 0) =~= Seq::<char>::empty());
        assert(p.subrange(0, 0) =~= Seq::<char>::empty());
    } else {
        lemma_partition_prefix(s, p, a, k - 1);
        if k >= 2 {
            assert((a[k - 2]).0 < a[k - 1].0 && a[k - 2].1 <= a[k - 1].1);
        }
        assert((a[k - 1]).0 <= s.len() && a[k - 1].1 <= p.len());
        let (cs, cp) = chunk_start(a, k - 1);
        assert(surfaces.subrange(0, k) =~= surfaces.subrange(0, k - 1).push(surfaces[k - 1]));
        assert(phonemes.subrange(0, k) =~= phonemes.subrange(0, k - 1).push(phonemes[k - 1]));
        assert(surfaces[k - 1] == s.subrange(cs, a[k - 1].0 as int));
        assert(phonemes[k - 1] == p.subrange(cp, a[k - 1].1 as int));
        assert(s.subrange(0, cs) + s.subrange(cs, a[k - 1].0 as int) =~= s.subrange(
            0,
            a[k - 1].0 as int,
        ));
        assert(p.subrange(0, cp) + p.subrange(cp, a[k - 1].1 as int) =~= p.subrange(
            0,
            a[k - 1].1 as int,
        ));
    }
}

/// A valid alignment partitions its training pair: the surface slices of
/// its chunks concatenate back to the surface, and the phoneme slices
/// concatenate back to the phoneme sequence.
pub proof fn lemma_chunks_partition(s: Seq<char>, p: Seq<char>, a: Seq<(usize, usize)>)
    requires
        alignment_valid(s.len() as int, p.len() as int, a),
    ensures
        chunks_of(s, p, a).map_values(|cc: (Seq<char>, Seq<char>)| cc.0).flatten() == s,
        chunks_of(s, p, a).map_values(|cc: (Seq<char>, Seq<char>)| cc.1).flatten() == p,
{
    lemma_partition_prefix(s, p, a, a.len() as int);
    let surfaces = chunks_of(s, p, a).map_values(|cc: (Seq<char>, Seq<char>)| cc.0);
    let phonemes = chunks_of(s, p, a).map_values(|cc: (Seq<char>, Seq<char>)| cc.1);
    assert(surfaces.subrange(0, a.len() as int) =~= surfaces);
    assert(phonemes.subrange(0, a.len() as int) =~= phonemes);
    assert(s.subrange(0, s.len() as int) =~= s);
    assert(p.subrange(0, p.len() as int) =~= p);
}

/// The rewrite walk over a prefix keeps an alignment's shape: the last
/// chunk written is the last chunk read, endpoints stay in bounds, and
/// the endpoints grow strictly on the surface and weakly on the phoneme
/// side.
proof fn lemma_walk_prefix(
    s: Seq<char>,
    p: Seq<char>,
    a: Seq<(usize, usize)>,
    mg: Set<(Seq<char>, Seq<char>, Seq<char>, Seq<char>)>,
    k: int,
)
    requires
        alignment_valid(s.len() as int, p.len() as int, a),
        1 <= k <= a.len(),
    ensures
        ({
            let out = merge_walk(s, p, a.subrange(0, k), mg);
            &&& out.len() >= 1
            &&& out.last() == a[k - 1]
            &&& out[0].0 > 0
            &&& forall|t: int| 0 <= t < out.len() ==> (#[trigger] out[t]).0 <= s.len() && out[t].1
                <= p.len()
            &&& forall|t: int| 0 <= t < out.len() - 1
                ==> (#[trigger] out[t]).0 < out[t + 1].0 && out[t].1 <= out[t + 1].1
        }),
    decreases k,
{
    let pre = a.subrange(0, k);
    assert(pre.drop_last() =~= a.subrange(0, k - 1));
    assert(pre.last() == a[k - 1]);
    if k >= 2 {
        assert((a[k - 2]).0 < a[k - 1].0 && a[k - 2].1 <= a[k - 1].1);
    }
    assert((a[k - 1]).0 <= s.len() && a[k - 1].1 <= p.len());
    assert((a[0]).0 > 0);
    if k == 1 {
        assert(a.subrange(0, 0) =~= Seq::<(usize, usize)>::empty());
        assert(merge_walk(s, p, a.subrange(0, 0), mg) == Seq::<(usize, usize)>::empty());
        assert(merge_walk(s, p, pre, mg) == walk_step(
            s,
            p,
            Seq::<(usize, usize)>::empty(),
            a[0],
            mg,
        ));
        assert(merge_walk(s, p, pre, mg) == Seq::<(usize, usize)>::empty().push(a[0]));
    } else {
        lemma_walk_prefix(s, p, a, mg, k - 1);
        let out1 = merge_walk(s, p, a.subrange(0, k - 1), mg);
        let out = merge_walk(s, p, pre, mg);
        let e = a[k - 1];
        assert(out == walk_step(s, p, out1, e, mg));
        assert(out1.last() == a[k - 2]);
        if out == out1.push(e) {
            assert forall|t: int| 0 <= t < out.len() - 1 implies (#[trigger] out[t]).0 < out[t
                + 1].0 && out[t].1 <= out[t + 1].1 by {
                if t < out1.len() - 1 {
                    assert(out[t] == out1[t] && out[t + 1] == out1[t + 1]);
                } else {
                    assert(out[t] == out1.last() && out[t + 1] == e);
                }
            }
        } else {
            assert(out == out1.update(out1.len() - 1, e));
            assert forall|t: int| 0 <= t < out.len() - 1 implies (#[trigger] out[t]).0 < out[t
                + 1].0 && out[t].1 <= out[t + 1].1 by {
                if t + 1 < out1.len() - 1 {
                    assert(out[t] == out1[t] && out[t + 1] == out1[t + 1]);
                } else {
                    assert(out[t] == out1[t] && out[t + 1] == e);
                    assert(out1[t].0 < out1[t + 1].0);
                    assert(out1[t + 1].0 <= out1.last().0 || t + 1 == out1.len() - 1);
                }
            }
            if out1.len() == 1 {
                assert(out[0] == e);
                assert(e.0 > a[k - 2].0);
            } else {
                assert(out[0] == out1[0]);
            }
        }
    }
}

/// The merge pass keeps every alignment valid: the rewritten alignment
/// still covers the whole training pair, so the merged chunks still
/// partition it.
pub proof fn lemma_merge_walk_valid(
    s: Seq<char>,
    p: Seq<char>,
    a: Seq<(usize, usize)>,
    mg: Set<(Seq<char>, Seq<char>, Seq<char>, Seq<char>)>,
)
    requires
        alignment_valid(s.len() as int, p.len() as int, a),
    ensures
        alignment_valid(s.len() as int, p.len() as int, merge_walk(s, p, a, mg)),
{
    lemma_walk_prefix(s, p, a, mg, a.len() as int);
    assert(a.subrange(0, a.len() as int) =~= a);
}

/// The walk over a prefix never grows beyond the prefix, and where it
/// kept every chunk, it kept them unchanged and had refused every
/// adjacent pair.
proof fn lemma_unmerged_prefix(
    s: Seq<char>,
    p: Seq<char>,
    a: Seq<(usize, usize)>,
    mg: Set<(Seq<char>, Seq<char>, Seq<char>, Seq<char>)>,
    k: int,
)
    requires
        alignment_valid(s.len() as int, p.len() as int, a),
        0 <= k <= a.len(),
    ensures
        merge_walk(s, p, a.subrange(0, k), mg).len() <= k,
        merge_walk(s, p, a.subrange(0, k), mg).len() == k ==> merge_walk(s, p, a.subrange(0, k), mg)
            == a.subrange(0, k) && (forall|j: int| 0 <= j < k - 1 ==> !mg.contains(
            (
                (#[trigger] chunks_of(s, p, a)[j]).0,
                chunks_of(s, p, a)[j].1,
                chunks_of(s, p, a)[j + 1].0,
                chunks_of(s, p, a)[j + 1].1,
            ),
        )),
    decreases k,
{
    if k == 0 {
        assert(a.subrange(0, 0) =~= Seq::<(usize, usize)>::empty());
    } else {
        lemma_unmerged_prefix(s, p, a, mg, k - 1);
        let pre = a.subrange(0, k);
        assert(pre.drop_last() =~= a.subrange(0, k - 1));
        assert(pre.last() == a[k - 1]);
        let out1 = merge_walk(s, p, a.subrange(0, k - 1), mg);
        let out = merge_walk(s, p, pre, mg);
        assert(out == walk_step(s, p, out1, a[k - 1], mg));
        assert(out.len() <= out1.len() + 1);
        if out.len() == k {
            assert(out1.len() == k - 1);
            assert(out1 == a.subrange(0, k - 1));
            if k == 1 {
                assert(out =~= a.subrange(0, 1));
            } else {
                assert(out1.len() >= 1);
                assert(out1.last() == a[k - 2]);
                let st: (usize, usize) = if out1.len() >= 2 {
                    out1[out1.len() - 2]
                } else {
                    (0usize, 0usize)
                };
                assert((st.0 as int, st.1 as int) == chunk_start(a, k - 2));
                assert(!mg.contains(
                    (
                        s.subrange(st.0 as int, a[k - 2].0 as int),
                        p.subrange(st.1 as int, a[k - 2].1 as int),
                        s.subrange(a[k - 2].0 as int, a[k - 1].0 as int),
                        p.subrange(a[k - 2].1 as int, a[k - 1].1 as int),
                    ),
                ));
                assert(chunks_of(s, p, a)[k - 2] == (
                    s.subrange(chunk_start(a, k - 2).0, a[k - 2].0 as int),
                    p.subrange(chunk_start(a, k - 2).1, a[k - 2].1 as int),
                ));
                assert(chunks_of(s, p, a)[k - 1] == (
                    s.subrange(a[k - 2].0 as int, a[k - 1].0 as int),
                    p.subrange(a[k - 2].1 as int, a[k - 1].1 as int),
                ));
                assert(out =~= a.subrange(0, k));
            }
        }
    }
}

/// The provable core of the one-shot merge guarantee: where the merge
/// pass left an alignment whole, no two consecutive chunks of it form a
/// mergeable pair — each adjacent pair was tested against the mergeable
/// set and refused. (Where chunks did fuse, a fused chunk may itself
/// coincide with a mergeable chunk seen elsewhere in the corpus; the
/// one-shot walk does not re-scan such pairs.)
pub proof fn lemma_unmerged_pairs_not_mergeable(
    s: Seq<char>,
    p: Seq<char>,
    a: Seq<(usize, usize)>,
    mg: Set<(Seq<char>, Seq<char>, Seq<char>, Seq<char>)>,
)
    requires
        alignment_valid(s.len() as int, p.len() as int, a),
        merge_walk(s, p, a, mg).len() == a.len(),
    ensures
        forall|j: int| 0 <= j < a.len() - 1 ==> !mg.contains(
            (
                (#[trigger] chunks_of(s, p, a)[j]).0,
                chunks_of(s, p, a)[j].1,
                chunks_of(s, p, a)[j + 1].0,
                chunks_of(s, p, a)[j + 1].1,
            ),
        ),
{
    lemma_unmerged_prefix(s, p, a, mg, a.len() as int);
    assert(a.subrange(0, a.len() as int) =~= a);
}

} // verus!
