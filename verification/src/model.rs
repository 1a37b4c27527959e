use vstd::prelude::*;
use crate::keyed::HashMap2;
use crate::decode::alignment_valid;
use crate::sentence::{Sentence, Token, token_phoneme, token_wf, phoneme_of};
use crate::chars::subvec;

verus! {

broadcast use vstd::prelude::Seq::lemma_flatten_push;

/// The finalized phoneme map: for each unique training pair, the ordered
/// endpoints of its alignment's chunks.
pub struct Model {
    phoneme_map: HashMap2<Vec<(usize, usize)>>,
}

/// Tag slots as mathematical values.
pub open spec fn tags_view(tags: Seq<Option<Vec<char>>>) -> Seq<Option<Seq<char>>> {
    tags.map_values(
        |o: Option<Vec<char>>|
            match o {
                Some(v) => Some(v@),
                None => None,
            },
    )
}

/// The boundary/tag writes one token contributes: for each chunk ending
/// at surface position `e` with phoneme slice `j..q`, a write of that
/// slice at sentence offset `start + e - 1`.
pub open spec fn token_writes(t: Token, a: Seq<(usize, usize)>, tag_index: int) -> Seq<
    (int, Seq<char>),
> {
    Seq::new(
        a.len(),
        |k: int|
            (
                t.start + a[k].0 - 1,
                token_phoneme(t, tag_index).subrange(
                    if k == 0 {
                        0
                    } else {
                        a[k - 1].1 as int
                    },
                    a[k].1 as int,
                ),
            ),
    )
}

/// One boundary/tag write: the tag is always recorded; the boundary flag
/// is set only strictly inside the sentence, never at its end.
pub open spec fn apply_write(
    b: Seq<bool>,
    tg: Seq<Option<Seq<char>>>,
    pos: int,
    tag: Seq<char>,
) -> (Seq<bool>, Seq<Option<Seq<char>>>) {
    (
        if pos != b.len() {
            b.update(pos, true)
        } else {
            b
        },
        tg.update(pos, Some(tag)),
    )
}

pub open spec fn apply_writes(
    b: Seq<bool>,
    tg: Seq<Option<Seq<char>>>,
    ws: Seq<(int, Seq<char>)>,
) -> (Seq<bool>, Seq<Option<Seq<char>>>)
    decreases ws.len(),
{
    if ws.len() == 0 {
        (b, tg)
    } else {
        let (b1, t1) = apply_writes(b, tg, ws.drop_last());
        apply_write(b1, t1, ws.last().0, ws.last().1)
    }
}

impl Model {
    /// The map from `(surface, phoneme)` pairs to alignments.
    pub closed spec fn view(self) -> Map<(Seq<char>, Seq<char>), Seq<(usize, usize)>> {
        Map::new(
            |k: (Seq<char>, Seq<char>)| self.phoneme_map@.contains_key(k),
            |k: (Seq<char>, Seq<char>)| self.phoneme_map@[k]@,
        )
    }

    /// Every alignment held by the model is valid for its key pair.
    pub closed spec fn wf(self) -> bool {
        &&& self.phoneme_map.wf()
        &&& forall|k: (Seq<char>, Seq<char>)| self@.contains_key(k)
            ==> alignment_valid(k.0.len() as int, k.1.len() as int, #[trigger] self@[k])
    }

    /// Wraps a finished phoneme map, after checking every alignment in
    /// it; a map holding an alignment that is not valid for its pair is
    /// refused.
    pub fn new(phoneme_map: HashMap2<Vec<(usize, usize)>>) -> (r: Option<Model>)
        requires
            phoneme_map.wf(),
        ensures
            match r {
                Some(model) => model.wf() && model@ == Map::new(
                    |k: (Seq<char>, Seq<char>)| phoneme_map@.contains_key(k),
                    |k: (Seq<char>, Seq<char>)| phoneme_map@[k]@,
                ),
                None => exists|k: (Seq<char>, Seq<char>)|
                    phoneme_map@.contains_key(k) && !alignment_valid(
                        k.0.len() as int,
                        k.1.len() as int,
                        (#[trigger] phoneme_map@[k])@,
                    ),
            },
    {
        let count = phoneme_map.len();
        let mut t: usize = 0;
        while t < count
            invariant
                t <= count,
                count == phoneme_map.spec_len(),
                phoneme_map.wf(),
                forall|s: int| 0 <= s < t ==> alignment_valid(
                    (#[trigger] phoneme_map.key_at(s)).0.len() as int,
                    phoneme_map.key_at(s).1.len() as int,
                    phoneme_map.val_at(s)@,
                ),
            decreases count - t,
        {
            let surface = phoneme_map.key1_at(t);
            let phoneme = phoneme_map.key2_at(t);
            let a = phoneme_map.value_at(t);
            if !alignment_valid_exec(surface.len(), phoneme.len(), a) {
                proof {
                    phoneme_map.lemma_entry_in_view(t as int);
                }
                return None;
            }
            t = t + 1;
        }
        let model = Model { phoneme_map };
        proof {
            assert forall|k: (Seq<char>, Seq<char>)| model@.contains_key(k) implies alignment_valid(
                k.0.len() as int,
                k.1.len() as int,
                model@[k],
            ) by {
                let pm = model.phoneme_map;
                assert(pm@.contains_key(k));
                pm.lemma_view_to_entry(k);
                let s = pm.index_of(k);
                assert(alignment_valid(
                    pm.key_at(s).0.len() as int,
                    pm.key_at(s).1.len() as int,
                    pm.val_at(s)@,
                ));
                pm.lemma_entry_in_view(s);
            }
        }
        Some(model)
    }

    /// Alignment lookup.
    pub fn get(&self, surface: &Vec<char>, phoneme: &Vec<char>) -> (r: Option<
        &Vec<(usize, usize)>,
    >)
        requires
            self.wf(),
        ensures
            match r {
                Some(a) => self@.contains_key((surface@, phoneme@)) && a@ == self@[
                    (surface@, phoneme@)
                ],
                None => !self@.contains_key((surface@, phoneme@)),
            },
    {
        self.phoneme_map.get(surface, phoneme)
    }

    /// Membership test, so that a caller can keep the promise
    /// `make_alignment` asks of it.
    pub fn contains(&self, surface: &Vec<char>, phoneme: &Vec<char>) -> (r: bool)
        requires
            self.wf(),
        ensures
            r == self@.contains_key((surface@, phoneme@)),
    {
        self.phoneme_map.contains_key(surface, phoneme)
    }

    /// Applies the model to a sentence: resets the tag channel, then, for
    /// each token and each chunk of its alignment, records the chunk's
    /// phoneme slice at the sentence offset just before the chunk's
    /// surface end, and marks a word boundary there when that offset lies
    /// strictly inside the sentence. Every token's pair must be in the
    /// phoneme map.
    #[verifier::rlimit(100)]
    pub fn make_alignment(&self, sentence: &mut Sentence, tag_index: usize)
        requires
            self.wf(),
            old(sentence).wf(),
            forall|k: int| 0 <= k < old(sentence).tokens@.len()
                ==> self@.contains_key(
                    ((#[trigger] old(sentence).tokens@[k]).surface@,
                    token_phoneme(old(sentence).tokens@[k], tag_index as int)),
                ),
        ensures
            final(sentence).wf(),
            final(sentence).n_chars == old(sentence).n_chars,
            final(sentence).tokens == old(sentence).tokens,
            ({
                let ws = all_writes(*self, old(sentence).tokens@, tag_index as int);
                let reset = Seq::new(old(sentence).n_chars as nat, |k: int| None::<Seq<char>>);
                (final(sentence).boundaries@, tags_view(final(sentence).tags@)) == apply_writes(
                    old(sentence).boundaries@,
                    reset,
                    ws,
                )
            }),
    {
        let mut nb: Vec<(usize, Vec<char>)> = Vec::new();
        let token_count = sentence.tokens.len();
        let mut k: usize = 0;
        proof {
            assert(sentence.tokens@.subrange(0, 0).map_values(
                |t: Token| writes_of(*self, t, tag_index as int),
            ) =~= Seq::<Seq<(int, Seq<char>)>>::empty());
            assert(writes_view(nb@) =~= all_writes(
                *self,
                sentence.tokens@.subrange(0, 0),
                tag_index as int,
            ));
        }
        while k < token_count
            invariant
                k <= token_count,
                self.wf(),
                sentence == old(sentence),
                sentence.wf(),
                token_count == sentence.tokens@.len(),
                forall|s: int| 0 <= s < sentence.tokens@.len()
                    ==> self@.contains_key(
                        ((#[trigger] sentence.tokens@[s]).surface@,
                        token_phoneme(sentence.tokens@[s], tag_index as int)),
                    ),
                writes_view(nb@) == all_writes(
                    *self,
                    sentence.tokens@.subrange(0, k as int),
                    tag_index as int,
                ),
                forall|s: int| 0 <= s < nb@.len()
                    ==> (#[trigger] nb@[s]).0 < sentence.n_chars,
            decreases token_count - k,
        {
            let tok = &sentence.tokens[k];
            let phoneme = phoneme_of(tok, tag_index);
            let a = match self.get(&tok.surface, &phoneme) {
                Some(a) => a,
                None => {
                    proof {
                        assert(self@.contains_key(
                            (sentence.tokens@[k as int].surface@,
                            token_phoneme(sentence.tokens@[k as int], tag_index as int)),
                        ));
                        assert(false);
                    }
                    return ;
                },
            };
            let ghost key = (tok.surface@, token_phoneme(*tok, tag_index as int));
            proof {
                assert(alignment_valid(key.0.len() as int, key.1.len() as int, self@[key]));
            }
            let chunk_count = a.len();
            let mut c: usize = 0;
            while c < chunk_count
                invariant
                    c <= chunk_count,
                    self.wf(),
                    sentence == old(sentence),
                    sentence.wf(),
                    k < sentence.tokens@.len(),
                    tok == &sentence.tokens@[k as int],
                    phoneme@ == token_phoneme(*tok, tag_index as int),
                    key == (tok.surface@, token_phoneme(*tok, tag_index as int)),
                    a@ == self@[key],
                    alignment_valid(tok.surface@.len() as int, phoneme@.len() as int, a@),
                    chunk_count == a@.len(),
                    writes_view(nb@) == all_writes(
                        *self,
                        sentence.tokens@.subrange(0, k as int),
                        tag_index as int,
                    ) + writes_of(*self, *tok, tag_index as int).subrange(0, c as int),
                    forall|s: int| 0 <= s < nb@.len()
                        ==> (#[trigger] nb@[s]).0 < sentence.n_chars,
                decreases chunk_count - c,
            {
                let (e, qe) = a[c];
                let qs = if c == 0 {
                    0
                } else {
                    a[c - 1].1
                };
                proof {
                    if c > 0 {
                        assert((a@[c - 1]).0 < a@[c as int].0 && a@[c - 1].1 <= a@[c as int].1);
                    }
                    assert((a@[c as int]).0 <= tok.surface@.len() && a@[c as int].1
                        <= phoneme@.len());
                    assert(a@[a@.len() - 1].0 == tok.surface@.len());
                    assert(token_wf(*tok, sentence.n_chars as int));
                }
                let tag = subvec(&phoneme, qs, qe);
                let pos = tok.start + e - 1;
                let ghost nb_pre = nb@;
                nb.push((pos, tag));
                proof {
                    let tw = writes_of(*self, *tok, tag_index as int);
                    let head = all_writes(
                        *self,
                        sentence.tokens@.subrange(0, k as int),
                        tag_index as int,
                    );
                    assert(tw.subrange(0, c + 1) =~= tw.subrange(0, c as int).push(
                        tw[c as int]));
                    assert(writes_view(nb@) =~= writes_view(nb_pre).push(
                        (pos as int, tag@)));
                    assert((pos as int, tag@) == tw[c as int]);
                    Seq::push_distributes_over_add(head, tw.subrange(0, c as int), tw[c as int]);
                    assert(writes_view(nb@) == head + tw.subrange(0, c + 1));
                }
                c = c + 1;
            }
            proof {
                let mapped = sentence.tokens@.subrange(0, k + 1).map_values(
                    |t: Token| writes_of(*self, t, tag_index as int),
                );
                let mapped_pre = sentence.tokens@.subrange(0, k as int).map_values(
                    |t: Token| writes_of(*self, t, tag_index as int),
                );
                assert(mapped =~= mapped_pre.push(writes_of(*self, *tok, tag_index as int)));
                assert(writes_of(*self, *tok, tag_index as int).subrange(
                    0,
                    chunk_count as int,
                ) =~= writes_of(*self, *tok, tag_index as int));
            }
            k = k + 1;
        }
        proof {
            assert(sentence.tokens@.subrange(0, token_count as int) =~= sentence.tokens@);
        }
        // Reset the tag channel: one empty slot per code point.
        let n_chars = sentence.n_chars;
        let mut fresh: Vec<Option<Vec<char>>> = Vec::new();
        let mut t: usize = 0;
        while t < n_chars
            invariant
                t <= n_chars,
                fresh@.len() == t,
                forall|s: int| 0 <= s < t ==> fresh@[s] is None,
            decreases n_chars - t,
        {
            fresh.push(None);
            t = t + 1;
        }
        sentence.tags = fresh;
        let ghost b0 = sentence.boundaries@;
        let ghost reset = Seq::new(old(sentence).n_chars as nat, |k: int| None::<Seq<char>>);
        proof {
            assert(tags_view(sentence.tags@) =~= reset);
        }
        // Apply the writes in order.
        let write_count = nb.len();
        let mut w: usize = 0;
        proof {
            assert(apply_writes(b0, reset, writes_view(nb@).subrange(0, 0)) == (b0, reset));
            assert(writes_view(nb@).subrange(0, 0) =~= Seq::<(int, Seq<char>)>::empty());
        }
        while w < write_count
            invariant
                w <= write_count,
                write_count == nb@.len(),
                sentence.n_chars == old(sentence).n_chars,
                sentence.tokens == old(sentence).tokens,
                sentence.boundaries@.len() == b0.len(),
                b0.len() == (if sentence.n_chars >= 1 { (sentence.n_chars - 1) as int } else { 0 }),
                sentence.tags@.len() == sentence.n_chars,
                forall|s: int| 0 <= s < nb@.len() ==> (#[trigger] nb@[s]).0 < sentence.n_chars,
                (sentence.boundaries@, tags_view(sentence.tags@)) == apply_writes(
                    b0,
                    reset,
                    writes_view(nb@).subrange(0, w as int),
                ),
            decreases write_count - w,
        {
            let pos = nb[w].0;
            let tag = subvec(&nb[w].1, 0, nb[w].1.len());
            let ghost bounds_pre = sentence.boundaries@;
            let ghost tags_pre = sentence.tags@;
            if pos != sentence.boundaries.len() {
                sentence.boundaries[pos] = true;
            }
            sentence.tags[pos] = Some(tag);
            proof {
                let wv = writes_view(nb@);
                assert(wv[w as int] == (nb@[w as int].0 as int, nb@[w as int].1@));
                assert(tag@ == nb@[w as int].1@);
                assert(wv.subrange(0, w + 1) =~= wv.subrange(0, w as int).push(wv[w as int]));
                assert((wv.subrange(0, w as int).push(wv[w as int])).drop_last() =~= wv.subrange(
                    0,
                    w as int,
                ));
                assert((wv.subrange(0, w as int).push(wv[w as int])).last() == wv[w as int]);
                assert(apply_writes(b0, reset, wv.subrange(0, w + 1)) == apply_write(
                    bounds_pre,
                    tags_view(tags_pre),
                    wv[w as int].0,
                    wv[w as int].1,
                ));
                assert(tags_view(sentence.tags@) =~= tags_view(tags_pre).update(
                    pos as int,
                    Some(wv[w as int].1),
                ));
            }
            w = w + 1;
        }
        proof {
            assert(writes_view(nb@).subrange(0, write_count as int) =~= writes_view(nb@));
        }
    }
}

/// Validity check of one alignment, as a runtime test.
pub fn alignment_valid_exec(n: usize, m: usize, a: &Vec<(usize, usize)>) -> (r: bool)
    ensures
        r == alignment_valid(n as int, m as int, a@),
{
    if a.len() == 0 {
        return false;
    }
    if !(a[a.len() - 1].0 == n && a[a.len() - 1].1 == m) {
        return false;
    }
    if !(a[0].0 > 0) {
        return false;
    }
    let len = a.len();
    let mut k: usize = 0;
    while k < len
        invariant
            k <= len,
            len == a@.len(),
            forall|s: int| 0 <= s < k ==> (#[trigger] a@[s]).0 <= n && a@[s].1 <= m,
            forall|s: int| 0 <= s < k && s < len - 1
                ==> (#[trigger] a@[s]).0 < a@[s + 1].0 && a@[s].1 <= a@[s + 1].1,
        decreases len - k,
    {
        if !(a[k].0 <= n && a[k].1 <= m) {
            return false;
        }
        if k + 1 < len {
            if !(a[k].0 < a[k + 1].0 && a[k].1 <= a[k + 1].1) {
                return false;
            }
        }
        k = k + 1;
    }
    true
}

/// The writes one token contributes, with its alignment taken from the
/// model.
pub open spec fn writes_of(m: Model, t: Token, tag_index: int) -> Seq<(int, Seq<char>)> {
    token_writes(t, m@[(t.surface@, token_phoneme(t, tag_index))], tag_index)
}

/// The boundary/tag writes of a whole sentence, token by token, chunk by
/// chunk.
pub open spec fn all_writes(m: Model, tokens: Seq<Token>, tag_index: int) -> Seq<
    (int, Seq<char>),
> {
    tokens.map_values(|t: Token| writes_of(m, t, tag_index)).flatten()
}

/// The view of the recorded write list.
pub open spec fn writes_view(ws: Seq<(usize, Vec<char>)>) -> Seq<(int, Seq<char>)> {
    ws.map_values(|e: (usize, Vec<char>)| (e.0 as int, e.1@))
}

} // verus!
