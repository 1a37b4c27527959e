use vstd::prelude::*;
use crate::chars::subvec;

verus! {

broadcast use vstd::prelude::Seq::lemma_flatten_push;

/// One token of a sentence: its written surface form, its start offset in
/// code points within the sentence, and its tag channels. A tag channel
/// may be absent for a token.
pub struct Token {
    pub surface: Vec<char>,
    pub start: usize,
    pub tags: Vec<Option<Vec<char>>>,
}

/// A sentence of `n_chars` code points with its tokens, one boundary flag
/// between each pair of neighbouring code points, and one tag slot per
/// code point.
pub struct Sentence {
    pub n_chars: usize,
    pub tokens: Vec<Token>,
    pub boundaries: Vec<bool>,
    pub tags: Vec<Option<Vec<char>>>,
}

pub open spec fn token_wf(t: Token, n_chars: int) -> bool {
    t.start + t.surface@.len() <= n_chars
}

impl Sentence {
    pub open spec fn wf(self) -> bool {
        &&& self.boundaries@.len() == if self.n_chars >= 1 {
            (self.n_chars - 1) as int
        } else {
            0
        }
        &&& self.tags@.len() == self.n_chars
        &&& forall|k: int| 0 <= k < self.tokens@.len()
            ==> token_wf(#[trigger] self.tokens@[k], self.n_chars as int)
    }
}

/// The phoneme sequence of a token at a given tag channel; a missing
/// channel reads as the empty sequence.
pub open spec fn token_phoneme(t: Token, tag_index: int) -> Seq<char> {
    if 0 <= tag_index < t.tags@.len() && t.tags@[tag_index] is Some {
        t.tags@[tag_index].unwrap()@
    } else {
        Seq::empty()
    }
}

/// The training pairs contributed by one sentence, token by token.
pub open spec fn spec_sentence_pairs(s: Sentence, tag_index: int) -> Seq<(Seq<char>, Seq<char>)> {
    Seq::new(
        s.tokens@.len(),
        |k: int| (s.tokens@[k].surface@, token_phoneme(s.tokens@[k], tag_index)),
    )
}

/// The training pairs of a whole corpus, sentence by sentence.
pub open spec fn spec_dataset(ss: Seq<Sentence>, tag_index: int) -> Seq<(Seq<char>, Seq<char>)> {
    ss.map_values(|s: Sentence| spec_sentence_pairs(s, tag_index)).flatten()
}

pub open spec fn dataset_view(d: Seq<(Vec<char>, Vec<char>)>) -> Seq<(Seq<char>, Seq<char>)> {
    d.map_values(|e: (Vec<char>, Vec<char>)| (e.0@, e.1@))
}

/// An owned copy of a token's phoneme sequence at the given tag channel.
pub fn phoneme_of(t: &Token, tag_index: usize) -> (r: Vec<char>)
    ensures
        r@ == token_phoneme(*t, tag_index as int),
{
    if tag_index < t.tags.len() {
        match &t.tags[tag_index] {
            Some(p) => subvec(p, 0, p.len()),
            None => Vec::new(),
        }
    } else {
        Vec::new()
    }
}

/// The `(surface, phoneme)` training pairs of a corpus, in sentence order
/// and, within a sentence, in token order.
pub fn extract_dataset(sentences: &Vec<Sentence>, tag_index: usize) -> (r: Vec<
    (Vec<char>, Vec<char>),
>)
    ensures
        dataset_view(r@) == spec_dataset(sentences@, tag_index as int),
{
    let mut r: Vec<(Vec<char>, Vec<char>)> = Vec::new();
    let ns = sentences.len();
    let mut si: usize = 0;
    proof {
        assert(sentences@.subrange(0, 0).map_values(
            |s: Sentence| spec_sentence_pairs(s, tag_index as int),
        ) =~= Seq::<Seq<(Seq<char>, Seq<char>)>>::empty());
        assert(dataset_view(r@) =~= spec_dataset(sentences@.subrange(0, 0), tag_index as int));
    }
    while si < ns
        invariant
            si <= ns,
            ns == sentences@.len(),
            dataset_view(r@) == spec_dataset(sentences@.subrange(0, si as int), tag_index as int),
        decreases ns - si,
    {
        let s = &sentences[si];
        let nt = s.tokens.len();
        let mut ti: usize = 0;
        while ti < nt
            invariant
                ti <= nt,
                si < ns,
                ns == sentences@.len(),
                s == sentences@[si as int],
                nt == s.tokens@.len(),
                dataset_view(r@) == spec_dataset(sentences@.subrange(0, si as int), tag_index as int)
                    + spec_sentence_pairs(*s, tag_index as int).subrange(0, ti as int),
            decreases nt - ti,
        {
            let tok = &s.tokens[ti];
            let surface = subvec(&tok.surface, 0, tok.surface.len());
            let phoneme = phoneme_of(tok, tag_index);
            proof {
                assert(surface@ == tok.surface@);
            }
            let ghost r_pre = r@;
            let ghost sv = surface@;
            let ghost pv = phoneme@;
            r.push((surface, phoneme));
            proof {
                let pairs = spec_sentence_pairs(*s, tag_index as int);
                let head = spec_dataset(sentences@.subrange(0, si as int), tag_index as int);
                assert(pairs.subrange(0, ti + 1) =~= pairs.subrange(0, ti as int).push(
                    pairs[ti as int]));
                assert((sv, pv) == pairs[ti as int]);
                assert(dataset_view(r@) =~= dataset_view(r_pre).push((sv, pv)));
                Seq::push_distributes_over_add(head, pairs.subrange(0, ti as int), pairs[ti as int]);
                assert(dataset_view(r@) == head + pairs.subrange(0, ti + 1));
            }
            ti = ti + 1;
        }
        proof {
            let mapped = sentences@.subrange(0, si + 1).map_values(
                |x: Sentence| spec_sentence_pairs(x, tag_index as int),
            );
            let mapped_pre = sentences@.subrange(0, si as int).map_values(
                |x: Sentence| spec_sentence_pairs(x, tag_index as int),
            );
            assert(mapped =~= mapped_pre.push(spec_sentence_pairs(*s, tag_index as int)));
            assert(spec_sentence_pairs(*s, tag_index as int).subrange(
                0,
                nt as int,
            ) =~= spec_sentence_pairs(*s, tag_index as int));
        }
        si = si + 1;
    }
    proof {
        assert(sentences@.subrange(0, ns as int) =~= sentences@);
    }
    r
}

/// Total lattice size of a dataset: the sum of `|surface| * |phoneme|`
/// over its pairs.
pub open spec fn spec_weight(d: Seq<(Seq<char>, Seq<char>)>) -> int
    decreases d.len(),
{
    if d.len() == 0 {
        0
    } else {
        spec_weight(d.drop_last()) + d.last().0.len() * d.last().1.len()
    }
}

proof fn lemma_weight_nonneg(d: Seq<(Seq<char>, Seq<char>)>)
    ensures
        spec_weight(d) >= 0,
    decreases d.len(),
{
    if d.len() > 0 {
        lemma_weight_nonneg(d.drop_last());
    }
}

proof fn lemma_weight_prefix_le(d: Seq<(Seq<char>, Seq<char>)>, k: int)
    requires
        0 <= k <= d.len(),
    ensures
        spec_weight(d.subrange(0, k)) <= spec_weight(d),
    decreases d.len() - k,
{
    if k == d.len() {
        assert(d.subrange(0, k) =~= d);
    } else {
        lemma_weight_prefix_le(d, k + 1);
        let pre = d.subrange(0, k + 1);
        assert(pre.drop_last() =~= d.subrange(0, k));
        assert(spec_weight(pre) == spec_weight(d.subrange(0, k)) + pre.last().0.len() * pre.last().1.len());
    }
}

/// The total lattice size of a dataset, or `None` when it does not fit in
/// a machine word.
pub fn dataset_weight(dataset: &Vec<(Vec<char>, Vec<char>)>) -> (r: Option<usize>)
    ensures
        r is Some ==> r.unwrap() == spec_weight(dataset_view(dataset@)),
        r is None ==> spec_weight(dataset_view(dataset@)) > usize::MAX,
{
    let n = dataset.len();
    let mut acc: usize = 0;
    let mut k: usize = 0;
    proof {
        assert(dataset_view(dataset@).subrange(0, 0) =~= Seq::<(Seq<char>, Seq<char>)>::empty());
    }
    while k < n
        invariant
            k <= n,
            n == dataset@.len(),
            acc == spec_weight(dataset_view(dataset@).subrange(0, k as int)),
        decreases n - k,
    {
        let product = match dataset[k].0.len().checked_mul(dataset[k].1.len()) {
            Some(x) => x,
            None => {
                proof {
                    let full = dataset_view(dataset@);
                    let pre = full.subrange(0, k + 1);
                    assert(pre.drop_last() =~= full.subrange(0, k as int));
                    assert(pre.last() == full[k as int]);
                    assert(full[k as int].0 == dataset@[k as int].0@);
                    assert(full[k as int].1 == dataset@[k as int].1@);
                    lemma_weight_nonneg(full.subrange(0, k as int));
                    lemma_weight_prefix_le(full, k + 1);
                    assert(pre.last().0.len() * pre.last().1.len() > usize::MAX);
                    assert(spec_weight(pre) > usize::MAX);
                    assert(spec_weight(full) > usize::MAX);
                }
                return None;
            },
        };
        let new_acc = match acc.checked_add(product) {
            Some(x) => x,
            None => {
                proof {
                    let full = dataset_view(dataset@);
                    let pre = full.subrange(0, k + 1);
                    assert(pre.drop_last() =~= full.subrange(0, k as int));
                    assert(pre.last() == full[k as int]);
                    assert(full[k as int].0 == dataset@[k as int].0@);
                    assert(full[k as int].1 == dataset@[k as int].1@);
                    lemma_weight_prefix_le(full, k + 1);
                    assert(spec_weight(pre) == acc + product);
                    assert(spec_weight(full) > usize::MAX);
                }
                return None;
            },
        };
        proof {
            let full = dataset_view(dataset@);
            let pre = full.subrange(0, k + 1);
            assert(pre.drop_last() =~= full.subrange(0, k as int));
            assert(pre.last() == full[k as int]);
        }
        acc = new_acc;
        k = k + 1;
    }
    proof {
        assert(dataset_view(dataset@).subrange(0, n as int) =~= dataset_view(dataset@));
    }
    Some(acc)
}

} // verus!
