use rualign::keyed::HashMap2;
use rualign::merge::merge_phonemes;
use rualign::model::Model;
use rualign::sentence::{Sentence, Token};

fn cv(s: &str) -> Vec<char> {
    s.chars().collect()
}

#[test]
fn merge_collapses_unique_adjacency() {
    // One pair split into ("a","A") ("b","B"): the adjacency is unique in
    // both directions, so the two chunks fuse into one.
    let mut map: HashMap2<Vec<(usize, usize)>> = HashMap2::new();
    map.insert(cv("ab"), cv("AB"), vec![(1, 1), (2, 2)]);
    let mg = merge_phonemes(&mut map);
    assert!(mg.contains(&cv("a"), &cv("A"), &cv("b"), &cv("B")));
    assert_eq!(map.get(&cv("ab"), &cv("AB")).unwrap(), &vec![(2, 2)]);
}

#[test]
fn merge_leaves_ambiguous_adjacency() {
    // ("a","A") is followed by both ("b","B") and ("c","C"), and ("b","B")
    // is preceded by both ("a","A") and ("d","D"): neither direction is
    // unambiguous, so nothing fuses in the first entry.
    let mut map: HashMap2<Vec<(usize, usize)>> = HashMap2::new();
    map.insert(cv("ab"), cv("AB"), vec![(1, 1), (2, 2)]);
    map.insert(cv("ac"), cv("AC"), vec![(1, 1), (2, 2)]);
    map.insert(cv("db"), cv("DB"), vec![(1, 1), (2, 2)]);
    let mg = merge_phonemes(&mut map);
    assert!(!mg.contains(&cv("a"), &cv("A"), &cv("b"), &cv("B")));
    assert_eq!(map.get(&cv("ab"), &cv("AB")).unwrap(), &vec![(1, 1), (2, 2)]);
}

#[test]
fn merge_is_one_shot() {
    // A chain ("a","A") ("b","B") ("c","C"), all adjacencies unique: the
    // greedy pass fuses the first two; the fused chunk is then compared
    // as ("ab","AB") against ("c","C"), which is no recorded adjacency,
    // so the pass stops there instead of re-scanning to a fixed point.
    let mut map: HashMap2<Vec<(usize, usize)>> = HashMap2::new();
    map.insert(cv("abc"), cv("ABC"), vec![(1, 1), (2, 2), (3, 3)]);
    merge_phonemes(&mut map);
    assert_eq!(map.get(&cv("abc"), &cv("ABC")).unwrap(), &vec![(2, 2), (3, 3)]);
}

#[test]
fn model_rejects_invalid_alignment() {
    let mut map: HashMap2<Vec<(usize, usize)>> = HashMap2::new();
    // Endpoint does not reach (n, m) for the key pair.
    map.insert(cv("ab"), cv("AB"), vec![(1, 1)]);
    assert!(Model::new(map).is_none());
    let mut map: HashMap2<Vec<(usize, usize)>> = HashMap2::new();
    map.insert(cv("ab"), cv("AB"), vec![(1, 1), (2, 2)]);
    assert!(Model::new(map).is_some());
}

fn sentence_with_token(
    n_chars: usize,
    surface: &str,
    start: usize,
    tag: Option<&str>,
) -> Sentence {
    Sentence {
        n_chars,
        tokens: vec![Token {
            surface: cv(surface),
            start,
            tags: vec![tag.map(cv)],
        }],
        boundaries: vec![false; n_chars.saturating_sub(1)],
        tags: vec![None; n_chars],
    }
}

#[test]
fn alignment_placement() {
    // A token starting at offset 3, surface "abcd", alignment
    // [(2,1),(4,3)]: a boundary at offset 3+2-1 = 4 tagged with the first
    // phoneme, and a write at offset 3+4-1 = 6 tagged with the rest. The
    // sentence has 7 code points, so offset 6 equals its boundary count:
    // only the tag is written there, the flag is left as it stands.
    let mut map: HashMap2<Vec<(usize, usize)>> = HashMap2::new();
    map.insert(cv("abcd"), cv("PQR"), vec![(2, 1), (4, 3)]);
    let model = Model::new(map).unwrap();
    let mut s = sentence_with_token(7, "abcd", 3, Some("PQR"));
    model.make_alignment(&mut s, 0);
    assert_eq!(s.boundaries, vec![false, false, false, false, true, false]);
    assert_eq!(s.tags.len(), 7);
    assert_eq!(s.tags[4], Some(cv("P")));
    assert_eq!(s.tags[6], Some(cv("QR")));
    for pos in [0, 1, 2, 3, 5] {
        assert_eq!(s.tags[pos], None);
    }
}

#[test]
fn alignment_tags_partition_phoneme() {
    // The recorded tags of one token, in order, concatenate back to its
    // phoneme sequence.
    let mut map: HashMap2<Vec<(usize, usize)>> = HashMap2::new();
    map.insert(cv("abc"), cv("XYZ"), vec![(1, 2), (2, 2), (3, 3)]);
    let model = Model::new(map).unwrap();
    let mut s = sentence_with_token(3, "abc", 0, Some("XYZ"));
    model.make_alignment(&mut s, 0);
    let mut rebuilt = Vec::new();
    for slot in s.tags.iter() {
        if let Some(t) = slot {
            rebuilt.extend(t.iter().copied());
        }
    }
    assert_eq!(rebuilt, cv("XYZ"));
    // One write per chunk: three chunks, three recorded tags.
    let written = s.tags.iter().filter(|t| t.is_some()).count();
    assert_eq!(written, 3);
}

#[test]
fn alignment_resets_previous_tags() {
    let mut map: HashMap2<Vec<(usize, usize)>> = HashMap2::new();
    map.insert(cv("ab"), cv("AB"), vec![(2, 2)]);
    let model = Model::new(map).unwrap();
    let mut s = sentence_with_token(4, "ab", 0, Some("AB"));
    s.tags[0] = Some(cv("stale"));
    s.tags[3] = Some(cv("stale"));
    model.make_alignment(&mut s, 0);
    assert_eq!(s.tags[0], None);
    assert_eq!(s.tags[3], None);
    assert_eq!(s.tags[1], Some(cv("AB")));
}

#[test]
fn model_lookup() {
    let mut map: HashMap2<Vec<(usize, usize)>> = HashMap2::new();
    map.insert(cv("ab"), cv("AB"), vec![(2, 2)]);
    let model = Model::new(map).unwrap();
    assert!(model.contains(&cv("ab"), &cv("AB")));
    assert!(!model.contains(&cv("ab"), &cv("XY")));
    assert_eq!(model.get(&cv("ab"), &cv("AB")).unwrap(), &vec![(2, 2)]);
    assert!(model.get(&cv("zz"), &cv("AB")).is_none());
}
