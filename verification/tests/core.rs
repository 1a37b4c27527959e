use rualign::array_2d::Array2d;
use rualign::chars::{chars_eq, subvec};
use rualign::decode::decode_path;
use rualign::keyed::{HashMap2, HashSet4};
use rualign::lattice::{admissible_chunks, chunk_distance, Chunk};
use rualign::model::{alignment_valid_exec, Model};
use rualign::sentence::{dataset_weight, extract_dataset, phoneme_of, Sentence, Token};

fn cv(s: &str) -> Vec<char> {
    s.chars().collect()
}

#[test]
fn grid_new_get_set() {
    let mut g: Array2d<u32> = Array2d::new(3, 2, 7);
    assert_eq!(*g.get(0, 0).unwrap(), 7);
    assert_eq!(*g.get(2, 1).unwrap(), 7);
    assert!(g.get(3, 0).is_none());
    assert!(g.get(0, 2).is_none());
    *g.get_mut(1, 1) = 42;
    assert_eq!(*g.get(1, 1).unwrap(), 42);
    assert_eq!(*g.get(1, 0).unwrap(), 7);
    g.fill(9);
    assert_eq!(*g.get(1, 1).unwrap(), 9);
    g.resize(4, 4, 0);
    assert!(g.get(3, 3).is_some());
    g.fill(5);
    assert_eq!(*g.get(3, 3).unwrap(), 5);
}

#[test]
fn chars_eq_and_subvec() {
    assert!(chars_eq(&cv("abc"), &cv("abc")));
    assert!(!chars_eq(&cv("abc"), &cv("abd")));
    assert!(!chars_eq(&cv("abc"), &cv("ab")));
    assert!(chars_eq(&cv(""), &cv("")));
    assert_eq!(subvec(&cv("abcde"), 1, 4), cv("bcd"));
    assert_eq!(subvec(&cv("abcde"), 2, 2), cv(""));
}

#[test]
fn distance_weights() {
    // One surface character aligned to one phoneme.
    let d = chunk_distance(&Chunk { i: 0, j: 0, p: 1, q: 1 });
    assert_eq!(d, 2);
    // A deletion chunk still costs one on the phoneme side.
    let d = chunk_distance(&Chunk { i: 0, j: 0, p: 2, q: 0 });
    assert_eq!(d, 3);
    // Many-to-many.
    let d = chunk_distance(&Chunk { i: 1, j: 1, p: 3, q: 4 });
    assert_eq!(d, 5);
}

#[test]
fn lattice_single_char_empty_phoneme() {
    // Surface of one character, empty phoneme: the admissible set is the
    // single deletion chunk covering everything.
    let chunks = admissible_chunks(1, 0);
    assert_eq!(chunks.len(), 1);
    let c = chunks[0];
    assert_eq!((c.i, c.j, c.p, c.q), (0, 0, 1, 0));
    assert_eq!(chunk_distance(&c), 2);
}

#[test]
fn lattice_two_by_one() {
    // n = 2, m = 1: enumerate by hand.
    // i = 0 forces j = 0; p = 1 allows q in {0, 1}; p = 2 forces q = 1.
    // i = 1 allows j in {0, 1}; p = 2 forces q = 1.
    let chunks = admissible_chunks(2, 1);
    let expect = vec![
        (0, 0, 1, 0),
        (0, 0, 1, 1),
        (0, 0, 2, 1),
        (1, 0, 2, 1),
        (1, 1, 2, 1),
    ];
    let got: Vec<(usize, usize, usize, usize)> =
        chunks.iter().map(|c| (c.i, c.j, c.p, c.q)).collect();
    assert_eq!(got, expect);
}

#[test]
fn lattice_empty_surface() {
    assert!(admissible_chunks(0, 3).is_empty());
}

#[test]
fn keyed_map_basics() {
    let mut m: HashMap2<u64> = HashMap2::new();
    assert_eq!(m.len(), 0);
    assert!(m.get(&cv("ab"), &cv("AB")).is_none());
    m.insert(cv("ab"), cv("AB"), 10);
    m.insert(cv("ab"), cv("CD"), 20);
    assert_eq!(m.len(), 2);
    assert!(m.contains_key(&cv("ab"), &cv("AB")));
    assert!(!m.contains_key(&cv("ab"), &cv("ab")));
    assert_eq!(*m.get(&cv("ab"), &cv("AB")).unwrap(), 10);
    assert_eq!(*m.get(&cv("ab"), &cv("CD")).unwrap(), 20);
    // Insert-or-replace under a present key.
    m.insert(cv("ab"), cv("AB"), 30);
    assert_eq!(m.len(), 2);
    assert_eq!(*m.get(&cv("ab"), &cv("AB")).unwrap(), 30);
    // Indexed access and value replacement.
    let mut seen = Vec::new();
    for t in 0..m.len() {
        seen.push((m.key1_at(t).clone(), m.key2_at(t).clone(), *m.value_at(t)));
    }
    assert!(seen.contains(&(cv("ab"), cv("AB"), 30)));
    assert!(seen.contains(&(cv("ab"), cv("CD"), 20)));
    m.set_value_at(0, 99);
    assert_eq!(*m.value_at(0), 99);
}

#[test]
fn keyed_set_basics() {
    let mut s = HashSet4::new();
    assert!(!s.contains(&cv("a"), &cv("A"), &cv("b"), &cv("B")));
    s.insert(cv("a"), cv("A"), cv("b"), cv("B"));
    assert!(s.contains(&cv("a"), &cv("A"), &cv("b"), &cv("B")));
    assert!(!s.contains(&cv("b"), &cv("B"), &cv("a"), &cv("A")));
    // Re-inserting is harmless.
    s.insert(cv("a"), cv("A"), cv("b"), cv("B"));
    assert!(s.contains(&cv("a"), &cv("A"), &cv("b"), &cv("B")));
}

#[test]
fn decode_follows_pointers() {
    // 2 x 2 lattice, pointers (0,0) -> (1,1) -> (2,2).
    let mut g: Array2d<(usize, usize)> = Array2d::new(3, 3, (0, 0));
    *g.get_mut(0, 0) = (1, 1);
    *g.get_mut(1, 1) = (2, 2);
    let path = decode_path(&g, 2, 2).unwrap();
    assert_eq!(path, vec![(1, 1), (2, 2)]);
}

#[test]
fn decode_empty_phoneme() {
    // Surface "x", phoneme "": the only path is the single deletion chunk.
    let mut g: Array2d<(usize, usize)> = Array2d::new(2, 1, (0, 0));
    *g.get_mut(0, 0) = (1, 0);
    let path = decode_path(&g, 1, 0).unwrap();
    assert_eq!(path, vec![(1, 0)]);
}

#[test]
fn decode_fails_loudly() {
    // A pointer that does not advance the surface position.
    let g: Array2d<(usize, usize)> = Array2d::new(3, 3, (0, 0));
    assert!(decode_path(&g, 2, 2).is_none());
    // A walk that hits the border away from (n, m).
    let mut g: Array2d<(usize, usize)> = Array2d::new(3, 3, (0, 0));
    *g.get_mut(0, 0) = (2, 1);
    assert!(decode_path(&g, 2, 2).is_none());
    // The empty lattice decodes to the empty path.
    let g: Array2d<(usize, usize)> = Array2d::new(1, 1, (0, 0));
    assert_eq!(decode_path(&g, 0, 0).unwrap(), Vec::new());
}

#[test]
fn alignment_validity() {
    assert!(alignment_valid_exec(2, 2, &vec![(1, 1), (2, 2)]));
    assert!(alignment_valid_exec(1, 0, &vec![(1, 0)]));
    // Must reach exactly (n, m).
    assert!(!alignment_valid_exec(2, 2, &vec![(1, 1)]));
    // Must not be empty.
    assert!(!alignment_valid_exec(1, 1, &Vec::new()));
    // Surface endpoints must grow strictly.
    assert!(!alignment_valid_exec(2, 2, &vec![(2, 1), (2, 2)]));
    // Phoneme endpoints must grow weakly.
    assert!(!alignment_valid_exec(2, 2, &vec![(1, 2), (2, 1)]));
    // The first chunk must cover at least one surface character.
    assert!(!alignment_valid_exec(2, 2, &vec![(0, 1), (2, 2)]));
}

fn one_token_sentence(surface: &str, start: usize, n_chars: usize, tag: Option<&str>) -> Sentence {
    let token = Token {
        surface: cv(surface),
        start,
        tags: vec![tag.map(cv)],
    };
    Sentence {
        n_chars,
        tokens: vec![token],
        boundaries: vec![false; n_chars.saturating_sub(1)],
        tags: vec![None; n_chars],
    }
}

#[test]
fn dataset_extraction() {
    let s1 = one_token_sentence("ab", 0, 2, Some("AB"));
    let s2 = one_token_sentence("x", 0, 1, None);
    let sentences = vec![s1, s2];
    let dataset = extract_dataset(&sentences, 0);
    assert_eq!(dataset.len(), 2);
    assert_eq!(dataset[0], (cv("ab"), cv("AB")));
    // A missing tag channel reads as the empty phoneme.
    assert_eq!(dataset[1], (cv("x"), cv("")));
    // A tag index beyond the channels also reads as empty.
    let dataset = extract_dataset(&sentences, 5);
    assert_eq!(dataset[0], (cv("ab"), cv("")));
    // Total lattice size: 2 * 2 + 1 * 0.
    let dataset = extract_dataset(&sentences, 0);
    assert_eq!(dataset_weight(&dataset), Some(4));
    assert_eq!(dataset_weight(&Vec::new()), Some(0));
}

#[test]
fn phoneme_channel_lookup() {
    let token = Token {
        surface: cv("ab"),
        start: 0,
        tags: vec![Some(cv("AB")), None],
    };
    assert_eq!(phoneme_of(&token, 0), cv("AB"));
    assert_eq!(phoneme_of(&token, 1), cv(""));
    assert_eq!(phoneme_of(&token, 2), cv(""));
}
