use plato_e2e_pipeline::clock::seconds_or_zero;
use plato_e2e_pipeline::{
    make_tile_at, now, rank_by_score, rank_by_value, Binary64, Pipeline, PipelineResult, Polarity, Provenance, Score, Tile,
    TileCascade, TileDedup, TileScorer, TileStore, TileVersion, ValidationGate,
};

fn bits(x: f64) -> Binary64 {
    Binary64 { bits: x.to_bits() }
}

fn number(x: Binary64) -> f64 {
    f64::from_bits(x.bits)
}

/// The score with its temporal signal.
fn value(score: &Score) -> f64 {
    number(score.value(bits(0.5_f64.powf(number(score.half_lives)))))
}

fn make_tile(id: &str, q: &str, a: &str, domain: &str, conf: f64) -> Tile {
    plato_e2e_pipeline::make_tile(id, q, a, domain, bits(conf))
}

#[test]
fn test_full_pipeline_accept_valid_tile() {
    let mut p = Pipeline::new();
    let tile = make_tile("t1", "What is constraint theory?", "Geometric snapping for deterministic computation.", "constraint_theory", 0.9);
    let result = p.process(tile, "constraint theory", now());
    match result {
        PipelineResult::Accepted { score, version, .. } => {
            assert!(value(&score) > 0.0);
            assert_eq!(version, 1);
        }
        PipelineResult::Rejected { .. } => panic!("Valid tile should be accepted"),
    }
}

#[test]
fn test_full_pipeline_reject_low_confidence() {
    let mut p = Pipeline::new();
    let tile = make_tile("t2", "Short", "Short", "test", 0.1);
    let result = p.process(tile, "test", now());
    match result {
        PipelineResult::Rejected { failures } => {
            assert!(failures.contains(&"confidence"));
        }
        PipelineResult::Accepted { .. } => panic!("Low confidence tile should be rejected"),
    }
}

#[test]
fn test_full_pipeline_reject_short_content() {
    let mut p = Pipeline::new();
    let tile = make_tile("t3", "Q?", "A.", "test", 0.9);
    let result = p.process(tile, "test", now());
    match result {
        PipelineResult::Rejected { failures } => {
            assert!(failures.contains(&"content_length"));
        }
        PipelineResult::Accepted { .. } => panic!("Short content should be rejected"),
    }
}

#[test]
fn test_full_pipeline_versioning() {
    let mut p = Pipeline::new();
    let t1 = make_tile("v1", "What is PLATO?", "Training pipeline for agents.", "plato", 0.9);
    p.process(t1, "plato", now());
    assert_eq!(p.history("v1"), 1);

    let t2 = make_tile("v1", "What is PLATO?", "Training pipeline with tiles, rooms, and ensigns.", "plato", 0.95);
    p.process(t2, "plato", now());
    assert_eq!(p.history("v1"), 2);

    let latest = p.get("v1").unwrap();
    assert_eq!(latest.version, 2);
    assert!(latest.tile.answer.contains("ensigns"));
}

#[test]
fn test_full_pipeline_dedup_detection() {
    let mut p = Pipeline::new();
    let t1 = make_tile("d1", "What is deadband?", "P0/P1/P2 priority protocol.", "deadband", 0.9);
    p.process(t1, "deadband", now());

    let t2 = make_tile("d2", "What is deadband?", "P0/P1/P2 priority protocol.", "deadband", 0.9);
    let result = p.process(t2, "deadband", now());
    match result {
        PipelineResult::Accepted { is_duplicate, .. } => {
            assert!(is_duplicate);
        }
        PipelineResult::Rejected { .. } => panic!("Should accept but flag as dup"),
    }
}

#[test]
fn test_full_pipeline_search_ranks_correctly() {
    let mut p = Pipeline::new();
    p.process(make_tile("s1", "What is flux?", "Bytecode runtime.", "flux", 0.8), "flux", now());
    p.process(make_tile("s2", "What is fishing?", "Catching fish.", "fishing", 0.9), "flux", now());
    p.process(make_tile("s3", "What is flux runtime?", "Deterministic bytecode VM.", "flux", 0.9), "flux runtime", now());

    let results = p.search("flux runtime", now());
    assert!(results.len() >= 1);
    // s3 should rank highest (most keyword overlap with "flux runtime")
    assert_eq!(results[0].1.id, "s3");
}

#[test]
fn test_full_pipeline_controversy_boost() {
    let mut p = Pipeline::new();
    let mut tile = make_tile("c1", "What is LoRA?", "Low-rank adaptation for fine-tuning.", "training", 0.9);
    tile.challenge_count = 5;
    p.process(tile, "lora training adaptation", now());

    let results = p.search("lora training adaptation", now());
    assert!(!results.is_empty());
    assert!(value(&results[0].0) > 0.1);
}

#[test]
fn test_full_pipeline_dependency_cascade() {
    let mut p = Pipeline::new();
    let mut t1 = make_tile("dep1", "What is a tile?", "Atomic knowledge unit.", "plato", 0.9);
    t1.dependencies = vec!["dep0".into()]; // depends on dep0
    p.process(t1, "tile", now());

    let mut t2 = make_tile("dep2", "What is a room?", "Tile collection.", "plato", 0.9);
    t2.dependencies = vec!["dep1".into()]; // depends on dep1
    p.process(t2, "room", now());

    let deps = TileCascade::dependents_of("dep1", p.tiles());
    assert_eq!(deps.len(), 1);
    assert_eq!(deps[0].id, "dep2");
}

#[test]
fn test_full_pipeline_ten_tiles() {
    let mut p = Pipeline::new();
    let tiles = vec![
        make_tile("batch1", "What is constraint theory?", "Geometric snapping.", "constraint_theory", 0.9),
        make_tile("batch2", "What is deadband protocol?", "P0 rocks, P1 channels, P2 optimize.", "deadband", 0.85),
        make_tile("batch3", "What is a holodeck?", "MUD environment for agents.", "holodeck", 0.8),
        make_tile("batch4", "What is flux?", "Deterministic bytecode runtime.", "flux", 0.9),
        make_tile("batch5", "What is an ensign?", "Compressed expertise adapter.", "plato", 0.85),
        make_tile("batch6", "What is a tile?", "Atomic Q/A knowledge unit.", "plato", 0.95),
        make_tile("batch7", "What is a room?", "Thematic tile collection.", "plato", 0.9),
        make_tile("batch8", "What is the forge?", "GPU training pipeline.", "training", 0.8),
        make_tile("batch9", "What is lab guard?", "Hypothesis gating.", "training", 0.85),
        make_tile("batch10", "What is ghost tile?", "Decayed inactive knowledge.", "plato", 0.8),
    ];
    let mut accepted = 0;
    for tile in tiles {
        if let PipelineResult::Accepted { .. } = p.process(tile, "plato training", now()) {
            accepted += 1;
        }
    }
    assert_eq!(accepted, 10);

    let results = p.search("plato tile room ensign training knowledge", now());
    assert!(results.len() >= 2); // several tiles match plato/training keywords
}

#[test]
fn test_validation_gate_confidence() {
    let good = make_tile("g", "What is PLATO?", "Training pipeline.", "plato", 0.9);
    let bad = make_tile("b", "What?", "Low conf.", "plato", 0.1);
    assert!(ValidationGate::confidence(&good));
    assert!(!ValidationGate::confidence(&bad));
}

#[test]
fn test_scorer_keyword_gating() {
    let tile = make_tile("kg", "What is quantum computing?", "Qubits and superposition.", "physics", 0.9);
    let score_relevant = TileScorer::score(&tile, "quantum computing qubits", now());
    let score_irrelevant = TileScorer::score(&tile, "fishing boats anchors", now());
    assert!(value(&score_relevant) > 0.1);
    assert!(value(&score_irrelevant) < 0.01); // keyword gating
}

#[test]
fn test_dedup_exact_and_fuzzy() {
    let a = make_tile("da", "What is flux?", "Bytecode runtime for agents.", "flux", 0.9);
    let b = make_tile("db", "What is flux?", "Bytecode runtime for agents.", "flux", 0.9);
    let c = make_tile("dc", "What is flux runtime?", "Bytecode VM for deterministic execution.", "flux", 0.9);
    assert!(TileDedup::is_duplicate(&a, &b)); // exact match
    // c is different enough
    let batch = vec![a, b, c];
    assert_eq!(TileDedup::dedup_batch(&batch).len(), 2); // a + c
}

#[test]
fn test_version_diff() {
    let a = make_tile("va", "Q?", "A1", "d", 0.9);
    let b = make_tile("vb", "Q?", "A2", "d", 0.9);
    let c = make_tile("vc", "Q?", "A2", "d2", 0.9);
    let diff_ab = TileVersion::diff(&a, &b);
    let diff_bc = TileVersion::diff(&b, &c);
    assert!(diff_ab.iter().any(|s| s == "answer_changed"));
    assert!(diff_bc.iter().any(|s| s == "domain_changed"));
}

const DAY: u64 = 24 * 3600;

fn tile_at(id: &str, q: &str, a: &str, conf: f64, at: u64) -> Tile {
    make_tile_at(id, q, a, "domain", bits(conf), at)
}

#[test]
fn each_gate_is_named_when_it_fails() {
    let fresh = tile_at("x", "ten bytes!", "ten bytes!", 0.3, 0);
    assert_eq!(ValidationGate::validate_all(&fresh, 0), (true, vec![]));

    let low = tile_at("x", "ten bytes!", "ten bytes!", 0.29999999999999993, 0);
    assert_eq!(ValidationGate::validate_all(&low, 0), (false, vec!["confidence"]));
    let unknown = tile_at("x", "ten bytes!", "ten bytes!", f64::NAN, 0);
    assert_eq!(ValidationGate::validate_all(&unknown, 0), (false, vec!["confidence"]));
    let boundless = tile_at("x", "ten bytes!", "ten bytes!", f64::INFINITY, 0);
    assert_eq!(ValidationGate::validate_all(&boundless, 0), (true, vec![]));
    let negative = tile_at("x", "ten bytes!", "ten bytes!", -0.9, 0);
    assert_eq!(ValidationGate::validate_all(&negative, 0), (false, vec!["confidence"]));

    let short = tile_at("x", "nine byte", "ten bytes!", 0.9, 0);
    assert_eq!(ValidationGate::validate_all(&short, 0), (false, vec!["content_length"]));

    let nowhere = make_tile_at("x", "ten bytes!", "ten bytes!", "", bits(0.9), 0);
    assert_eq!(ValidationGate::validate_all(&nowhere, 0), (false, vec!["domain_format"]));

    assert!(ValidationGate::freshness(&fresh, 30 * DAY - 1));
    assert_eq!(ValidationGate::validate_all(&fresh, 30 * DAY), (false, vec!["freshness"]));

    let nothing = make_tile_at("x", "", "", "", bits(0.0), 0);
    assert_eq!(
        ValidationGate::validate_all(&nothing, 30 * DAY),
        (false, vec!["confidence", "content_length", "domain_format", "freshness"])
    );
}

#[test]
fn content_length_counts_bytes() {
    // Five characters of two bytes each.
    assert!(ValidationGate::content_length(&tile_at("x", "ééééé", "ééééé", 0.9, 0)));
    assert!(!ValidationGate::content_length(&tile_at("x", "éééé", "ééééé", 0.9, 0)));
}

#[test]
fn a_tile_from_the_future_is_fresh() {
    let tile = tile_at("x", "ten bytes!", "ten bytes!", 0.9, 100 * DAY);
    assert!(ValidationGate::freshness(&tile, 0));
    assert!(ValidationGate::freshness(&tile_at("x", "q", "a", 0.9, 0), 5));
}

#[test]
fn rejection_leaves_the_pipeline_unchanged() {
    let mut p = Pipeline::new();
    p.process(tile_at("x", "What is this?", "Something else.", 0.9, 0), "this", 0);
    match p.process(tile_at("x", "What is this?", "Another thing.", 0.1, 0), "this", 0) {
        PipelineResult::Rejected { failures } => assert_eq!(failures, vec!["confidence"]),
        PipelineResult::Accepted { .. } => panic!("should be rejected"),
    }
    assert_eq!(p.history("x"), 1);
    assert_eq!(p.tiles().len(), 1);
    assert_eq!(p.get("x").unwrap().tile.answer, "Something else.");
    assert!(p.get("y").is_none());
    assert_eq!(p.history("y"), 0);
}

#[test]
fn process_reports_what_it_did() {
    let mut p = Pipeline::new();
    let tile = tile_at("x", "one two three", "four five six", 0.5, 7);
    match p.process(tile, "one six", 7) {
        PipelineResult::Accepted { tile_id, score, version, is_duplicate } => {
            assert_eq!(tile_id, "x");
            assert_eq!(version, 1);
            assert!(!is_duplicate);
            // Two of six words; age zero; no uses; no challenges.
            let expected = 2.0 / 6.0 * 0.30 + 0.5 * 0.25 + 0.8 * 0.20 + 1.0 * 0.15 + 0.0 * 0.10 + 0.0 * 0.10;
            assert_eq!(value(&score), expected);
        }
        PipelineResult::Rejected { .. } => panic!("should be accepted"),
    }
    assert_eq!(p.get("x").unwrap().stored_at, 7);
}

#[test]
fn store_numbers_the_versions_of_each_tile() {
    let mut store = TileStore::new();
    assert_eq!(store.next_version("a"), 1);
    assert_eq!(store.insert(tile_at("a", "q1", "a1", 0.9, 0), 10), 1);
    assert_eq!(store.insert(tile_at("b", "q2", "a2", 0.9, 0), 20), 1);
    assert_eq!(store.insert(tile_at("a", "q3", "a3", 0.9, 0), 30), 2);
    assert_eq!(store.insert(tile_at("a", "q4", "a4", 0.9, 0), 40), 3);
    assert_eq!(store.version_count("a"), 3);
    assert_eq!(store.version_count("b"), 1);
    assert_eq!(store.version_count("c"), 0);
    assert_eq!(store.next_version("a"), 4);

    let first = store.get_version("a", 1).unwrap();
    assert_eq!((first.version, first.parent_version, first.stored_at), (1, None, 10));
    assert_eq!(first.tile.question, "q1");
    let second = store.get_version("a", 2).unwrap();
    assert_eq!((second.version, second.parent_version, second.stored_at), (2, Some(1), 30));
    let latest = store.get_latest("a").unwrap();
    assert_eq!((latest.version, latest.parent_version, latest.stored_at), (3, Some(2), 40));
    assert_eq!(latest.tile.answer, "a4");
    assert!(store.get_version("a", 0).is_none());
    assert!(store.get_version("a", 4).is_none());
    assert!(store.get_version("c", 1).is_none());
    assert!(store.get_latest("c").is_none());

    let all: Vec<(&str, u32)> =
        store.all_latest().iter().map(|s| (s.tile.id.as_str(), s.version)).collect();
    assert_eq!(all, vec![("a", 3), ("b", 1)]);
}

#[test]
fn signals_have_their_formulas() {
    let mut tile = tile_at("x", "alpha beta", "beta gamma delta", 0.75, 1000);
    // Four different words in the tile, three in the query, two in common.
    let keyword = TileScorer::keyword_match(&tile, "alpha  delta\tomega alpha");
    assert_eq!(number(keyword), 0.5);
    assert_eq!(number(TileScorer::keyword_match(&tile, "  \n")), 0.0);
    assert_eq!(number(TileScorer::keyword_match(&tile, "alpha b c d e f g h")), 1.0 / 8.0);
    assert_eq!(number(TileScorer::keyword_match(&tile_at("x", "", " ", 0.9, 0), "a")), 0.0);

    assert_eq!(number(TileScorer::half_lives(&tile, 1000)), 0.0);
    assert_eq!(number(TileScorer::half_lives(&tile, 0)), 0.0);
    assert_eq!(number(TileScorer::half_lives(&tile, 1000 + 7 * DAY)), 1.0);
    assert_eq!(number(TileScorer::half_lives(&tile, 1000 + 12345)), 12345.0 / 3600.0 / 168.0);

    for (uses, expected) in [(0, 0.0), (1, 0.1), (3, 0.3), (10, 1.0), (11, 1.0), (u64::MAX, 1.0)] {
        tile.use_count = uses;
        assert_eq!(number(TileScorer::frequency_signal(&tile)), expected);
    }
    for challenges in [0u64, 1, 2, 3, 5, 6, 7, 1000, u64::MAX] {
        tile.challenge_count = challenges;
        let expected = if challenges == 0 { 0.0 } else { (challenges as f64 * 0.05).min(0.3) };
        assert_eq!(number(TileScorer::controversy_signal(&tile)), expected);
    }
}

#[test]
fn score_is_the_weighted_sum() {
    let mut tile = tile_at("x", "alpha beta", "beta gamma delta", 0.75, 1000);
    tile.use_count = 4;
    tile.challenge_count = 3;
    let later = 1000 + 3 * DAY + 17;
    let score = TileScorer::score(&tile, "alpha delta omega", later);
    let temporal = 0.5_f64.powf(((3 * DAY + 17) as f64 / 3600.0) / 168.0);
    let expected = 0.5 * 0.30 + 0.75 * 0.25 + 0.8 * 0.20 + temporal * 0.15
        + (4.0_f64.min(10.0) / 10.0) * 0.10 + (3.0 * 0.05_f64).min(0.3) * 0.10;
    assert_eq!(value(&score), expected);
    assert!(score.is_relevant());
}

#[test]
fn a_hundredth_of_the_words_is_enough() {
    let words: Vec<String> = (0..100).map(|i| format!("w{}", i)).collect();
    let tile = tile_at("x", &words.join(" "), "", 0.9, 0);
    let at_limit = TileScorer::score(&tile, "w5 other", 0);
    assert_eq!(number(at_limit.keyword), 0.01);
    assert!(at_limit.is_relevant());
    assert!(value(&at_limit) > 0.0);

    let longer = tile_at("x", &words.join(" "), "more", 0.9, 0);
    let below = TileScorer::score(&longer, "w5", 0);
    assert!(!below.is_relevant());
    assert_eq!(value(&below), 0.0);
}

#[test]
fn challenges_raise_the_score() {
    let mut tile = tile_at("x", "alpha beta", "gamma", 0.9, 0);
    let mut last = value(&TileScorer::score(&tile, "alpha", 0));
    for challenges in 1..7 {
        tile.challenge_count = challenges;
        let next = value(&TileScorer::score(&tile, "alpha", 0));
        assert!(next > last);
        last = next;
    }
    tile.challenge_count = 7;
    assert_eq!(value(&TileScorer::score(&tile, "alpha", 0)), last);
}

#[test]
fn overlap_counts_words_once() {
    assert_eq!(number(TileDedup::jaccard("a b c", "b c d")), 0.5);
    assert_eq!(number(TileDedup::jaccard("a a b", "b a")), 1.0);
    assert_eq!(number(TileDedup::jaccard("", "  ")), 1.0);
    assert_eq!(number(TileDedup::jaccard("", "a")), 0.0);
    assert_eq!(number(TileDedup::jaccard("a", "b")), 0.0);
}

#[test]
fn nine_tenths_overlap_is_not_enough() {
    let q10 = "a b c d e f g h i j";
    let q9 = "a b c d e f g h i";
    let q11 = "a b c d e f g h i j k";
    assert_eq!(number(TileDedup::jaccard(q10, q9)), 0.9);
    let t9 = tile_at("x", q9, "one", 0.9, 0);
    let t10 = tile_at("y", q10, "two", 0.9, 0);
    let t11 = tile_at("z", q11, "three", 0.9, 0);
    assert!(!TileDedup::is_duplicate(&t9, &t10));
    assert!(TileDedup::is_duplicate(&t10, &t11)); // 10 of 11
    assert!(TileDedup::is_duplicate(&t11, &t10));
    let shuffled = tile_at("s", "j i h g f e d c b a", "four", 0.9, 0);
    assert!(TileDedup::is_duplicate(&t10, &shuffled));
}

#[test]
fn dedup_keeps_the_first_of_each() {
    let batch = vec![
        tile_at("1", "a b c d e f g h i", "x", 0.9, 0),
        tile_at("2", "something else", "x", 0.9, 0),
        tile_at("3", "i h g f e d c b a", "y", 0.9, 0),
        tile_at("4", "something else", "x", 0.9, 0),
        tile_at("5", "third", "x", 0.9, 0),
    ];
    let kept: Vec<&str> = TileDedup::dedup_batch(&batch).iter().map(|t| t.id.as_str()).collect();
    assert_eq!(kept, vec!["1", "2", "5"]);
    let again: Vec<Tile> = TileDedup::dedup_batch(&batch).into_iter().cloned().collect();
    assert_eq!(TileDedup::dedup_batch(&again).len(), 3);
    assert!(TileDedup::dedup_batch(&[]).is_empty());
}

#[test]
fn duplicates_are_flagged_against_every_accepted_tile() {
    let mut p = Pipeline::new();
    let flagged = |r: PipelineResult| match r {
        PipelineResult::Accepted { is_duplicate, .. } => is_duplicate,
        PipelineResult::Rejected { .. } => panic!("should be accepted"),
    };
    assert!(!flagged(p.process(tile_at("1", "first question", "first answer", 0.9, 0), "", 0)));
    assert!(!flagged(p.process(tile_at("2", "other topic", "other answer", 0.9, 0), "", 0)));
    assert!(flagged(p.process(tile_at("3", "question first", "new answer", 0.9, 0), "", 0)));
    assert_eq!(p.tiles().len(), 3);
}

#[test]
fn search_orders_by_matching_words() {
    let mut p = Pipeline::new();
    p.process(tile_at("one", "alpha bb cc dd", "ee ff gg hh", 0.9, 0), "", 0);
    p.process(tile_at("none", "ii jj kk ll", "mm nn oo pp", 0.9, 0), "", 0);
    p.process(tile_at("three", "alpha beta gamma", "qq rr ss tt", 0.4, 0), "", 0);
    p.process(tile_at("two", "alpha beta uu vv", "ww xx yy zz", 0.9, 0), "", 0);
    p.process(tile_at("also", "ab cd alpha ef", "gh ij kl mn", 0.9, 0), "", 0);
    let found: Vec<&str> =
        p.search("alpha beta gamma", 0).iter().map(|(_, t)| t.id.as_str()).collect();
    assert_eq!(found, vec!["three", "two", "one", "also"]);
    for (score, _) in p.search("alpha beta gamma", 0) {
        assert!(value(&score) > 0.0);
    }
    assert!(p.search("absent", 0).is_empty());
}

#[test]
fn search_sees_the_latest_version_only() {
    let mut p = Pipeline::new();
    p.process(tile_at("x", "about apples", "red or green", 0.9, 0), "", 0);
    p.process(tile_at("x", "about pears!", "green always", 0.9, 0), "", 0);
    assert!(p.search("apples", 0).is_empty());
    let found = p.search("pears!", 0);
    assert_eq!(found.len(), 1);
    assert_eq!(found[0].1.question, "about pears!");
}

#[test]
fn diff_names_every_change() {
    let a = make_tile_at("a", "q", "a", "d", bits(0.5), 0);
    let b = make_tile_at("b", "q2", "a2", "d2", bits(0.6), 0);
    assert_eq!(
        TileVersion::diff(&a, &b),
        vec!["question_changed", "answer_changed", "domain_changed", "confidence_changed"]
    );
    assert_eq!(TileVersion::diff(&b, &a), TileVersion::diff(&a, &b));
    assert!(TileVersion::diff(&a, &a).is_empty());
    for (x, y) in [
        (0.5, 0.51),
        (0.5, 0.49),
        (0.0, 0.01),
        (0.0, 0.010000000000000002),
        (0.02, 0.03),
        (0.9, 0.91),
        (-0.005, 0.005),
        (-0.006, 0.005),
        (f64::NAN, 0.5),
        (f64::INFINITY, f64::INFINITY),
        (f64::INFINITY, f64::NEG_INFINITY),
        (f64::INFINITY, 1.0),
        (1e300, 1e300),
    ] {
        let a = make_tile_at("a", "q", "a", "d", bits(x), 0);
        let b = make_tile_at("b", "q", "a", "d", bits(y), 0);
        let expected: Vec<&str> =
            if (x - y).abs() > 0.01 { vec!["confidence_changed"] } else { vec![] };
        assert_eq!(TileVersion::diff(&a, &b), expected);
    }
}

#[test]
fn dependents_keep_their_order() {
    let mut tiles = vec![
        tile_at("1", "q", "a", 0.9, 0),
        tile_at("2", "q", "a", 0.9, 0),
        tile_at("3", "q", "a", 0.9, 0),
    ];
    tiles[0].dependencies = vec!["x".to_string(), "y".to_string()];
    tiles[2].dependencies = vec!["y".to_string()];
    let ids = |id: &str| -> Vec<String> {
        TileCascade::dependents_of(id, &tiles).iter().map(|t| t.id.clone()).collect()
    };
    assert_eq!(ids("y"), vec!["1", "3"]);
    assert_eq!(ids("x"), vec!["1"]);
    assert!(ids("z").is_empty());
    assert!(ids("").is_empty());
}

#[test]
fn defaults() {
    assert_eq!(Polarity::default(), Polarity::Neutral);
    let p = Provenance::default();
    assert_eq!((p.created_by.as_str(), p.validation_method.as_str(), p.source_room.as_str()), ("unknown", "none", ""));
    let t = make_tile("id", "q", "a", "d", 0.25);
    assert_eq!(t.created_at, t.refreshed_at);
    assert_eq!(number(t.success_rate), 1.0);
    assert_eq!(number(t.confidence), 0.25);
    assert_eq!((t.use_count, t.challenge_count), (0, 0));
    assert!(t.tags.is_empty() && t.dependencies.is_empty());
    assert_eq!(t.polarity, Polarity::Neutral);
    let u = t.clone();
    assert_eq!(format!("{:?}", u), format!("{:?}", t));
}

#[test]
fn the_clock_reads_seconds_since_the_epoch() {
    let before = std::time::SystemTime::now().duration_since(std::time::UNIX_EPOCH).unwrap().as_secs();
    let read = now();
    let after = std::time::SystemTime::now().duration_since(std::time::UNIX_EPOCH).unwrap().as_secs();
    assert!(before <= read && read <= after);
    assert_eq!(seconds_or_zero(Some(17)), 17);
    assert_eq!(seconds_or_zero(None), 0);
}

#[test]
fn scores_grow_with_confidence_and_use() {
    let mut tile = tile_at("x", "alpha beta", "gamma", 0.3, 0);
    let low = value(&TileScorer::score(&tile, "alpha", 0));
    tile.confidence = bits(0.8);
    let high = value(&TileScorer::score(&tile, "alpha", 0));
    assert!(low < high);
    tile.use_count = 2;
    assert!(high < value(&TileScorer::score(&tile, "alpha", 0)));
}

#[test]
fn scores_fade_with_age() {
    let tile = tile_at("x", "alpha beta", "gamma", 0.9, 0);
    let mut last = TileScorer::score(&tile, "alpha", 0);
    for day in 1..30 {
        let next = TileScorer::score(&tile, "alpha", day * DAY);
        assert!(last.half_lives.lt(next.half_lives));
        assert!(value(&next) < value(&last));
        last = next;
    }
}

#[test]
fn later_tiles_do_not_change_what_was_kept() {
    let batch: Vec<Tile> = ["a b", "c d", "b a", "e f", "d c", "g"]
        .iter()
        .enumerate()
        .map(|(i, q)| tile_at(&format!("{}", i), q, "answer", 0.9, 0))
        .collect();
    let all: Vec<&str> = TileDedup::dedup_batch(&batch).iter().map(|t| t.id.as_str()).collect();
    assert_eq!(all, vec!["0", "1", "3", "5"]);
    for n in 0..batch.len() {
        let part: Vec<&str> =
            TileDedup::dedup_batch(&batch[..n]).iter().map(|t| t.id.as_str()).collect();
        assert!(all.starts_with(&part));
    }
}

#[test]
fn earlier_versions_are_kept() {
    let mut store = TileStore::new();
    for i in 0..20u64 {
        store.insert(tile_at("x", &format!("question {}", i), "a", 0.9, i), i);
        store.insert(tile_at(&format!("other {}", i), "q", "a", 0.9, i), i);
        for v in 0..=i {
            let s = store.get_version("x", v as u32 + 1).unwrap();
            assert_eq!(s.tile.question, format!("question {}", v));
            assert_eq!(s.stored_at, v);
        }
    }
    assert_eq!(store.all_latest().len(), 21);
}

#[test]
fn a_stored_tile_clones_whole() {
    let mut store = TileStore::new();
    store.insert(tile_at("x", "q", "a", 0.9, 3), 4);
    let s = store.get_latest("x").unwrap();
    assert_eq!(format!("{:?}", s.clone()), format!("{:?}", s));
}

#[test]
fn keyword_signal_is_one_for_the_same_words() {
    let tile = tile_at("t", "What is flux", "flux is steady", 0.9, 1000);
    let signal = |query: &str| number(TileScorer::score(&tile, query, 1000).keyword);
    assert_eq!(signal("steady What is flux"), 1.0);
    assert_eq!(signal("flux  is is\tsteady What flux"), 1.0);
    assert_eq!(signal("steady What flux"), 0.75);
    assert_eq!(signal("steady What is flux now"), 0.8);
}

#[test]
fn keyword_signal_is_zero_without_a_common_word() {
    let tile = tile_at("t", "What is flux", "flux is steady", 0.9, 1000);
    let signal = |query: &str| number(TileScorer::score(&tile, query, 1000).keyword);
    assert_eq!(signal("lora training"), 0.0);
    assert_eq!(signal(""), 0.0);
    assert!(signal("lora training flux") > 0.0);
}

#[test]
fn keyword_signal_does_not_tell_question_from_answer() {
    let tile = tile_at("t", "What is flux", "a steady state", 0.9, 1000);
    let swapped = tile_at("t", "a steady state", "What is flux", 0.9, 1000);
    let a = TileScorer::score(&tile, "steady flux", 1000).keyword;
    let b = TileScorer::score(&swapped, "flux flux steady", 1000).keyword;
    assert_eq!(number(a), number(b));
}

#[test]
fn overlap_is_symmetric_and_ignores_arrangement() {
    let (a, b) = ("what is the flux", "the flux runtime");
    assert_eq!(number(TileDedup::jaccard(a, b)), 0.4);
    assert_eq!(number(TileDedup::jaccard(b, a)), 0.4);
    assert_eq!(number(TileDedup::jaccard(" flux the\nis what what ", "runtime flux the")), 0.4);
}

#[test]
fn overlap_is_one_for_the_same_words_only() {
    assert_eq!(number(TileDedup::jaccard("b a", "a  b b")), 1.0);
    assert!(number(TileDedup::jaccard("b a", "a b c")) < 1.0);
    assert!(number(TileDedup::jaccard("", "a")) < 1.0);
}

#[test]
fn seven_days_add_one_half_life() {
    let tile = tile_at("t", "What is flux", "a steady state", 0.9, 1000);
    let week: u64 = 604_800;
    for late in [0, 1, 3599, 12_345, week, 52 * week + 17] {
        let first = number(TileScorer::half_lives(&tile, 1000 + late));
        let second = number(TileScorer::half_lives(&tile, 1000 + late + week));
        assert!((second - first - 1.0).abs() < 1e-12);
    }
    assert_eq!(number(TileScorer::half_lives(&tile, 1000 + 3 * week)), 3.0);
}

#[test]
fn values_are_ranked_largest_first() {
    let tiles: Vec<Tile> = ["a", "b", "c", "d", "e"]
        .iter()
        .map(|id| tile_at(id, "What is flux", "a steady state", 0.9, 1000))
        .collect();
    let values = [0.25, 0.75, -0.0, 0.75, 1.5];
    let hits: Vec<(Binary64, &Tile)> =
        values.iter().zip(tiles.iter()).map(|(v, t)| (bits(*v), t)).collect();
    let ranked = rank_by_value(&hits);
    let ids: Vec<&str> = ranked.iter().map(|(_, t)| t.id.as_str()).collect();
    assert_eq!(ids, vec!["e", "b", "d", "a", "c"]);
    let numbers: Vec<f64> = ranked.iter().map(|(v, _)| number(*v)).collect();
    assert_eq!(numbers, vec![1.5, 0.75, 0.75, 0.25, 0.0]);
    assert!(rank_by_value(&Vec::new()).is_empty());
}

#[test]
fn search_results_rank_by_score() {
    let mut p = Pipeline::new();
    p.process(tile_at("low", "What is the flux runtime", "A runtime for flux programs.", 0.5, 1000), "", 1000);
    p.process(tile_at("high", "What is the flux runtime like", "A runtime for flux programs.", 1.0, 1000), "", 1000);
    let hits = p.search("flux runtime", 1000);
    assert_eq!(hits.len(), 2);
    assert_eq!(hits[0].1.id, "low");
    let temporals: Vec<Binary64> =
        hits.iter().map(|(s, _)| bits(0.5_f64.powf(number(s.half_lives)))).collect();
    let ranked = rank_by_score(&hits, &temporals);
    assert_eq!(ranked.len(), 2);
    assert_eq!(ranked[0].1.id, "high");
    assert_eq!(ranked[1].1.id, "low");
    assert_eq!(number(ranked[0].0), value(&hits[1].0));
    assert_eq!(number(ranked[1].0), value(&hits[0].0));
    assert!(number(ranked[0].0) > number(ranked[1].0));
}

#[test]
fn the_temporal_signal_counts_in_the_ranking() {
    let a = tile_at("a", "What is flux", "a steady state", 0.9, 1000);
    let b = tile_at("b", "What is flux", "a steady state", 0.9, 1000);
    let s = TileScorer::score(&a, "flux", 1000);
    let hits = vec![(s, &a), (s, &b)];
    let ids = |temporals: Vec<Binary64>| -> Vec<String> {
        rank_by_score(&hits, &temporals).iter().map(|(_, t)| t.id.clone()).collect()
    };
    assert_eq!(ids(vec![bits(0.25), bits(0.5)]), vec!["b", "a"]);
    assert_eq!(ids(vec![bits(0.5), bits(0.25)]), vec!["a", "b"]);
    assert_eq!(ids(vec![bits(0.5), bits(0.5)]), vec!["a", "b"]);
    assert!(rank_by_score(&Vec::new(), &Vec::new()).is_empty());
}

#[test]
fn a_score_is_close_to_its_weighted_sum() {
    let grid = [0.0, 0.01, 0.1, 1.0 / 3.0, 0.5, 0.9, 1.0];
    for k in [0.01, 0.3, 1.0] {
        for b in grid {
            for t in grid {
                for f in grid {
                    let c = 0.3 * f;
                    let s = Score {
                        keyword: bits(k),
                        belief: bits(b),
                        half_lives: bits(0.0),
                        frequency: bits(f),
                        controversy: bits(c),
                    };
                    let exact = 0.30 * k + 0.25 * b + 0.16 + 0.15 * t + 0.10 * f + 0.10 * c;
                    assert!((number(s.value(bits(t))) - exact).abs() <= 1e-9);
                }
            }
        }
    }
}

#[test]
fn found_tiles_score_above_a_floor() {
    let mut p = Pipeline::new();
    let mut answer = String::from("flux");
    for i in 0..97 {
        answer.push_str(&format!(" w{}", i));
    }
    p.process(tile_at("t", "What about", &answer, 0.3, 1000), "", 1000);
    let found = p.search("flux", 1000);
    assert_eq!(found.len(), 1);
    assert_eq!(number(found[0].0.keyword), 0.01);
    let least = number(found[0].0.value(bits(0.0)));
    assert!(least > 0.235);
    assert!((least - 0.238).abs() <= 1e-9);
}

#[test]
fn better_tiles_do_not_score_less() {
    let score = |conf: f64, uses: u64, challenges: u64, age: u64| {
        let mut t = tile_at("t", "What is flux", "a steady state", conf, 1_000_000);
        t.use_count = uses;
        t.challenge_count = challenges;
        value(&TileScorer::score(&t, "flux", 1_000_000 + age))
    };
    let base = score(0.1, 2, 1, 90_000);
    assert!(score(0.2, 2, 1, 90_000) > base);
    assert!(score(0.1, 3, 1, 90_000) > base);
    assert!(score(0.1, 2, 2, 90_000) > base);
    assert!(score(0.1, 2, 1, 80_000) > base);
    assert_eq!(score(0.1, 10, 6, 0), score(0.1, 50, 60, 0));
    assert!(score(0.0, 2, 1, 90_000) < base);
}
