// End-to-end runs of the alignment pipeline on tiny corpora: the
// verified lattice enumeration, grids, containers, best-path readout,
// merge pass and model application, driven by the same log-domain
// arithmetic the trainer uses.

use std::collections::HashMap;

use rualign::array_2d::Array2d;
use rualign::decode::decode_path;
use rualign::keyed::HashMap2;
use rualign::lattice::{admissible_chunks, chunk_distance, Chunk};
use rualign::merge::merge_phonemes;
use rualign::model::Model;
use rualign::sentence::{dataset_weight, extract_dataset, Sentence, Token};

fn cv(s: &str) -> Vec<char> {
    s.chars().collect()
}

fn logsumexp(a: f64, b: f64) -> f64 {
    if a > b {
        a + ((b - a).exp() + 1.0).ln()
    } else {
        b + ((a - b).exp() + 1.0).ln()
    }
}

fn log_square_error(a: f64, b: f64) -> f64 {
    if a > b {
        (a + (1.0 - (b - a).exp()).ln()) * 2.0
    } else {
        (b + (1.0 - (a - b).exp()).ln()) * 2.0
    }
}

fn key(surface: &[char], phoneme: &[char], c: &Chunk) -> (Vec<char>, Vec<char>) {
    (surface[c.i..c.p].to_vec(), phoneme[c.j..c.q].to_vec())
}

struct Trainer {
    dataset: Vec<(Vec<char>, Vec<char>)>,
    scores: HashMap<(Vec<char>, Vec<char>), f64>,
}

fn new_trainer(sentences: &Vec<Sentence>, tag_index: usize) -> Trainer {
    let dataset = extract_dataset(sentences, tag_index);
    let cnt = dataset_weight(&dataset).unwrap();
    assert!(cnt > 0);
    let init = -(cnt as f64).ln();
    let mut scores = HashMap::new();
    for (s, p) in &dataset {
        for c in admissible_chunks(s.len(), p.len()).iter() {
            scores.insert(key(s, p, c), init);
        }
    }
    Trainer { dataset, scores }
}

fn update(tr: &mut Trainer) -> f64 {
    let mut gammas: HashMap<(Vec<char>, Vec<char>), f64> = HashMap::new();
    for (s, p) in &tr.dataset {
        let (n, m) = (s.len(), p.len());
        let chunks = admissible_chunks(n, m);
        let mut alphas: Array2d<f64> = Array2d::new(n + 1, m + 1, f64::NEG_INFINITY);
        *alphas.get_mut(0, 0) = 0.0;
        for c in chunks.iter() {
            let w = tr.scores[&key(s, p, c)] * chunk_distance(c) as f64;
            let v = logsumexp(*alphas.get(c.p, c.q).unwrap(), *alphas.get(c.i, c.j).unwrap() + w);
            *alphas.get_mut(c.p, c.q) = v;
        }
        let mut betas: Array2d<f64> = Array2d::new(n + 1, m + 1, f64::NEG_INFINITY);
        *betas.get_mut(n, m) = 0.0;
        for c in chunks.iter().rev() {
            let w = tr.scores[&key(s, p, c)] * chunk_distance(c) as f64;
            let v = logsumexp(*betas.get(c.i, c.j).unwrap(), *betas.get(c.p, c.q).unwrap() + w);
            *betas.get_mut(c.i, c.j) = v;
        }
        let z = *betas.get(0, 0).unwrap();
        for c in chunks.iter().rev() {
            let k = key(s, p, c);
            let w = tr.scores[&k] * chunk_distance(c) as f64;
            let mass = *alphas.get(c.i, c.j).unwrap() + *betas.get(c.p, c.q).unwrap() + w - z;
            let prev = gammas.get(&k).copied().unwrap_or(f64::NEG_INFINITY);
            gammas.insert(k, logsumexp(prev, mass));
        }
    }
    let mut gamma_sum = f64::NEG_INFINITY;
    for v in gammas.values() {
        gamma_sum = logsumexp(gamma_sum, *v);
    }
    let mut diff_total = f64::NEG_INFINITY;
    for (k, v) in gammas {
        let score = tr.scores.get_mut(&k).unwrap();
        let updated = v - gamma_sum;
        diff_total = logsumexp(diff_total, log_square_error(updated, *score));
        *score = updated;
    }
    diff_total
}

fn finalize(tr: &Trainer) -> Model {
    let mut phoneme_map: HashMap2<Vec<(usize, usize)>> = HashMap2::new();
    for (s, p) in &tr.dataset {
        if phoneme_map.contains_key(s, p) {
            continue;
        }
        let (n, m) = (s.len(), p.len());
        let chunks = admissible_chunks(n, m);
        let mut best: Array2d<(f64, usize, usize)> =
            Array2d::new(n + 1, m + 1, (f64::NEG_INFINITY, 0, 0));
        best.get_mut(n, m).0 = 0.0;
        for c in chunks.iter().rev() {
            let w = tr.scores[&key(s, p, c)] * chunk_distance(c) as f64;
            let reached = best.get(c.p, c.q).unwrap().0 + w;
            let cell = best.get_mut(c.i, c.j);
            if cell.0 < reached {
                *cell = (reached, c.p, c.q);
            }
        }
        let mut pointers: Array2d<(usize, usize)> = Array2d::new(n + 1, m + 1, (0, 0));
        for i in 0..n + 1 {
            for j in 0..m + 1 {
                let cell = *best.get(i, j).unwrap();
                *pointers.get_mut(i, j) = (cell.1, cell.2);
            }
        }
        let path = decode_path(&pointers, n, m).unwrap();
        phoneme_map.insert(s.clone(), p.clone(), path);
    }
    merge_phonemes(&mut phoneme_map);
    Model::new(phoneme_map).unwrap()
}

fn one_token(surface: &str, tag: Option<&str>) -> Sentence {
    let n_chars = surface.chars().count();
    Sentence {
        n_chars,
        tokens: vec![Token {
            surface: cv(surface),
            start: 0,
            tags: vec![tag.map(cv)],
        }],
        boundaries: vec![false; n_chars.saturating_sub(1)],
        tags: vec![None; n_chars],
    }
}

#[test]
fn change_settles_below_threshold() {
    // Once the scores stabilize, the reported aggregate change falls
    // below the stopping threshold within the iteration cap.
    let sentences = vec![one_token("ab", Some("AB")), one_token("bc", Some("BC"))];
    let mut tr = new_trainer(&sentences, 0);
    let mut reached = false;
    for _ in 0..20 {
        let diff = update(&mut tr);
        if diff < -20.0 {
            reached = true;
            break;
        }
    }
    assert!(reached);
}

#[test]
fn identity_mapping_trains() {
    let sentences = vec![one_token("ab", Some("AB"))];
    let mut tr = new_trainer(&sentences, 0);
    for _ in 0..5 {
        update(&mut tr);
    }
    // The whole-pair chunk keeps a finite score.
    assert!(tr.scores[&(cv("ab"), cv("AB"))].is_finite());
    let model = finalize(&tr);
    let alignment = model.get(&cv("ab"), &cv("AB")).unwrap();
    // The decoded alignment covers all of surface and phoneme.
    assert_eq!(alignment.last().copied(), Some((2, 2)));
    assert!(alignment[0].0 > 0);
}

#[test]
fn deletion_chunk_appears() {
    // Surface longer than the phoneme sequence: some chunk must carry an
    // empty phoneme slice or span several characters; its distance weight
    // is at least 2 either way.
    let sentences = vec![one_token("abc", Some("AB"))];
    let mut tr = new_trainer(&sentences, 0);
    for _ in 0..5 {
        update(&mut tr);
    }
    let model = finalize(&tr);
    let alignment = model.get(&cv("abc"), &cv("AB")).unwrap();
    assert_eq!(alignment.last().copied(), Some((3, 2)));
    let mut widest: usize = 0;
    let (mut ss, mut ps) = (0usize, 0usize);
    for &(e, q) in alignment.iter() {
        let c = Chunk { i: ss, j: ps, p: e, q };
        widest = widest.max(chunk_distance(&c));
        ss = e;
        ps = q;
    }
    assert!(widest >= 2);
}

#[test]
fn training_round_trip_partitions_phoneme() {
    let sentences = vec![
        one_token("ab", Some("AB")),
        one_token("ab", Some("AB")),
        one_token("cd", Some("CD")),
    ];
    let mut tr = new_trainer(&sentences, 0);
    for _ in 0..5 {
        update(&mut tr);
    }
    let model = finalize(&tr);
    // Applying the model back to the training sentences yields, for each
    // token, recorded tags that concatenate to the original phoneme.
    for src in &sentences {
        let mut s = Sentence {
            n_chars: src.n_chars,
            tokens: vec![Token {
                surface: src.tokens[0].surface.clone(),
                start: src.tokens[0].start,
                tags: src.tokens[0].tags.clone(),
            }],
            boundaries: src.boundaries.clone(),
            tags: src.tags.clone(),
        };
        model.make_alignment(&mut s, 0);
        let mut rebuilt = Vec::new();
        for slot in s.tags.iter() {
            if let Some(t) = slot {
                rebuilt.extend(t.iter().copied());
            }
        }
        let expected = src.tokens[0].tags[0].clone().unwrap();
        assert_eq!(rebuilt, expected);
    }
}
