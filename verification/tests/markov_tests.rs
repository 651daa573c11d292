use markov::markov::MarkovError;
use markov::markov::MarkovModel;
use markov::markov::select_index;
use rand::SeedableRng;

fn tok(s: &str) -> Vec<u8> {
    s.as_bytes().to_vec()
}

fn toks(words: &[&str]) -> Vec<Vec<u8>> {
    words.iter().map(|w| tok(w)).collect()
}

#[test]
fn make_markov_model() {
    let actual = MarkovModel::from(toks(&["すもも", "も", "もも", "も", "もも", "の", "うち"]))
        .unwrap();

    let expected = MarkovModel {
        elements: toks(&["うち", "すもも", "の", "も", "もも"]),
        cm_dist: vec![
            vec![0, 0, 0, 0, 0],
            vec![0, 0, 0, 1, 1],
            vec![1, 1, 1, 1, 1],
            vec![0, 0, 0, 0, 2],
            vec![0, 0, 1, 2, 2],
        ],
        pre_index: 5,
    };

    assert_eq!(actual.elements, expected.elements);
    assert_eq!(actual.cm_dist, expected.cm_dist);
    assert_eq!(actual.pre_index, expected.pre_index);
}

#[test]
fn domain_is_sorted_and_distinct() {
    let m = MarkovModel::from(toks(&["b", "a", "c", "a", "b", "a"])).unwrap();
    assert_eq!(m.elements, toks(&["a", "b", "c"]));

    // The same distinct tokens in another order give the same domain.
    let m2 = MarkovModel::from(toks(&["c", "c", "b", "b", "a"])).unwrap();
    assert_eq!(m2.elements, toks(&["a", "b", "c"]));
}

#[test]
fn cumulative_rows_scenario() {
    // From "a" there are three outgoing transitions: twice to "b", once to
    // "c", so the cumulative row of "a" over [a, b, c] is [0, 2, 3] out of 3.
    let m = MarkovModel::from(toks(&["a", "b", "a", "c", "a", "b"])).unwrap();
    assert_eq!(m.elements, toks(&["a", "b", "c"]));
    assert_eq!(m.cm_dist[0], vec![0, 2, 3]);
    assert_eq!(m.cm_dist[1], vec![1, 1, 1]);
    assert_eq!(m.cm_dist[2], vec![1, 1, 1]);

    // A draw of one half of the total mass (1 of 3) lands on "b"; a draw of
    // nine tenths (2 of 3) lands on "c".
    assert_eq!(select_index(&m.cm_dist[0], 1), 1);
    assert_eq!(select_index(&m.cm_dist[0], 2), 2);
    // Column 0 carries no mass out of "a": even the lowest draw skips it.
    assert_eq!(select_index(&m.cm_dist[0], 0), 1);
}

#[test]
fn rows_nondecreasing_and_dead_rows_zero() {
    let m = MarkovModel::from(toks(&["d", "a", "c", "a", "b", "d"])).unwrap();
    let n = m.elements.len();
    for i in 0..n {
        let row = &m.cm_dist[i];
        assert_eq!(row.len(), n);
        for j in 1..n {
            assert!(row[j - 1] <= row[j]);
        }
        if row[n - 1] == 0 {
            for j in 0..n {
                assert_eq!(row[j], 0);
            }
        }
    }
    // The final token "d" closes the sequence: its earlier occurrence leads
    // to "a", so its row is live; "b" leads to "d"; the last "d" adds
    // nothing beyond its row built from the first occurrence.
    assert!(m.cm_dist[3][n - 1] > 0);
}

#[test]
fn empty_training_sequence_is_rejected() {
    let r = MarkovModel::from(Vec::new());
    assert_eq!(r.unwrap_err(), MarkovError::InvalidModel);
}

#[test]
fn single_token_model_terminates() {
    // One token, no transitions: a valid model with one all-zero row.
    let mut m = MarkovModel::from(toks(&["x"])).unwrap();
    assert_eq!(m.elements, toks(&["x"]));
    assert_eq!(m.cm_dist, vec![vec![0u64]]);
    assert_eq!(m.pre_index, 1);
    // Sampling has nowhere to draw from; it reports that instead of looping.
    let mut rng = rand::rngs::StdRng::seed_from_u64(7);
    for _ in 0..5 {
        let r = m.next(&mut rng);
        assert_eq!(r.unwrap_err(), MarkovError::NoValidTransition);
        assert_eq!(m.pre_index, 1);
    }
}

#[test]
fn dead_end_redirects_to_live_rows() {
    // "b" leads to "a"; "a" leads nowhere. Every fresh start must pick the
    // one live row ("b"), so every sample is "a", whatever the seed.
    let mut m = MarkovModel::from(toks(&["b", "a"])).unwrap();
    assert_eq!(m.elements, toks(&["a", "b"]));
    assert_eq!(m.cm_dist[0], vec![0, 0]);
    assert_eq!(m.cm_dist[1], vec![1, 1]);
    let mut rng = rand::rngs::StdRng::seed_from_u64(99);
    for _ in 0..10 {
        let t = m.next(&mut rng).unwrap();
        assert_eq!(t, tok("a"));
        assert_eq!(m.pre_index, 0);
    }
}

#[test]
fn initialize_resets_cursor_to_sentinel() {
    let mut m = MarkovModel::from(toks(&["a", "b", "a", "c", "a", "b"])).unwrap();
    let mut rng = rand::rngs::StdRng::seed_from_u64(3);
    m.next(&mut rng).unwrap();
    assert!(m.pre_index < m.elements.len());
    m.initialize();
    assert_eq!(m.pre_index, m.elements.len());
}

#[test]
fn sampled_tokens_come_from_the_domain() {
    let mut m = MarkovModel::from(toks(&["a", "b", "a", "c", "a", "b"])).unwrap();
    let mut rng = rand::rngs::StdRng::seed_from_u64(11);
    for _ in 0..50 {
        let t = m.next(&mut rng).unwrap();
        assert!(m.elements.contains(&t));
        assert_eq!(m.elements[m.pre_index], t);
    }
}

#[test]
fn seeded_sampling_is_reproducible() {
    let training = ["a", "b", "a", "c", "a", "b", "c", "a"];
    let mut m1 = MarkovModel::from(toks(&training)).unwrap();
    let mut m2 = MarkovModel::from(toks(&training)).unwrap();
    let mut rng1 = rand::rngs::StdRng::seed_from_u64(2024);
    let mut rng2 = rand::rngs::StdRng::seed_from_u64(2024);
    for _ in 0..40 {
        let t1 = m1.next(&mut rng1).unwrap();
        let t2 = m2.next(&mut rng2).unwrap();
        assert_eq!(t1, t2);
        assert_eq!(m1.pre_index, m2.pre_index);
    }
}

#[test]
fn round_trip_preserves_the_model() {
    let mut m = MarkovModel::from(toks(&["a", "b", "a", "c", "a", "b"])).unwrap();
    let mut rng = rand::rngs::StdRng::seed_from_u64(5);
    m.next(&mut rng).unwrap();

    let parts = m.to_parts();
    let encoded = serde_json::to_string(&parts).unwrap();
    let decoded: (Vec<Vec<u8>>, Vec<Vec<u64>>, usize) = serde_json::from_str(&encoded).unwrap();
    let restored = MarkovModel::from_parts(decoded.0, decoded.1, decoded.2).unwrap();

    assert_eq!(restored.elements, m.elements);
    assert_eq!(restored.cm_dist, m.cm_dist);
    assert_eq!(restored.pre_index, m.pre_index);

    // Sampling carries on identically after the round trip.
    let mut m2 = restored;
    let mut rng1 = rand::rngs::StdRng::seed_from_u64(77);
    let mut rng2 = rand::rngs::StdRng::seed_from_u64(77);
    for _ in 0..30 {
        let t1 = m.next(&mut rng1).unwrap();
        let t2 = m2.next(&mut rng2).unwrap();
        assert_eq!(t1, t2);
    }
}

#[test]
fn corrupted_parts_are_rejected() {
    let m = MarkovModel::from(toks(&["a", "b", "a"])).unwrap();

    // Unsorted domain.
    let r = MarkovModel::from_parts(toks(&["b", "a"]), vec![vec![0, 0], vec![0, 0]], 2);
    assert_eq!(r.unwrap_err(), MarkovError::InvalidModel);

    // Duplicate domain entry.
    let r = MarkovModel::from_parts(toks(&["a", "a"]), vec![vec![0, 0], vec![0, 0]], 2);
    assert_eq!(r.unwrap_err(), MarkovError::InvalidModel);

    // Table not square.
    let r = MarkovModel::from_parts(m.elements.clone(), vec![vec![0, 0]], 0);
    assert_eq!(r.unwrap_err(), MarkovError::InvalidModel);
    let r = MarkovModel::from_parts(m.elements.clone(), vec![vec![0], vec![0]], 0);
    assert_eq!(r.unwrap_err(), MarkovError::InvalidModel);

    // A decreasing row.
    let r = MarkovModel::from_parts(
        toks(&["a", "b"]),
        vec![vec![2, 1], vec![0, 0]],
        0,
    );
    assert_eq!(r.unwrap_err(), MarkovError::InvalidModel);

    // Cursor out of range.
    let r = MarkovModel::from_parts(toks(&["a", "b"]), vec![vec![0, 1], vec![0, 0]], 3);
    assert_eq!(r.unwrap_err(), MarkovError::InvalidModel);

    // Empty domain.
    let r = MarkovModel::from_parts(Vec::new(), Vec::new(), 0);
    assert_eq!(r.unwrap_err(), MarkovError::InvalidModel);
}

#[test]
fn select_index_picks_first_exceeding_column() {
    // Tie-break: the draw equal to a cumulative value moves past it, and a
    // draw no value exceeds falls back to the last column.
    let row: Vec<u64> = vec![0, 2, 2, 5];
    assert_eq!(select_index(&row, 0), 1);
    assert_eq!(select_index(&row, 1), 1);
    assert_eq!(select_index(&row, 2), 3);
    assert_eq!(select_index(&row, 4), 3);
    assert_eq!(select_index(&row, 5), 3);
    let zeros: Vec<u64> = vec![0, 0, 0];
    assert_eq!(select_index(&zeros, 0), 2);
}

#[test]
fn anchored_cursor_continues_from_its_row() {
    // After "b" the only observed follower is "a": domain [a, b], row of
    // "b" is [1, 1]. Anchor the cursor on "b" by hand and sample.
    let mut m = MarkovModel::from_parts(
        toks(&["a", "b"]),
        vec![vec![0, 0], vec![1, 1]],
        1,
    )
    .unwrap();
    let mut rng = rand::rngs::StdRng::seed_from_u64(1);
    let t = m.next(&mut rng).unwrap();
    assert_eq!(t, tok("a"));
    assert_eq!(m.pre_index, 0);
}
