use bleu_corpus::group::{group_translations, text_less, GroupedTranslation};
use bleu_corpus::ngram::{clipped_count, count_ngrams, n_grams_of};
use bleu_corpus::record::{parse_line, parse_records, ParseError, TranslationRecord};
use bleu_corpus::score::{
    compute_brevity_penalty, compute_lengths, corpus_statistics, evaluate_lines, precision_counts, BrevityPenalty,
    CorpusStatistics,
};
use bleu_corpus::text::split_tokens;

fn strings(v: &[&str]) -> Vec<String> {
    v.iter().map(|s| s.to_string()).collect()
}

fn rec(id: &str, r: &str, m: &str) -> TranslationRecord {
    TranslationRecord {
        source_id: id.to_string(),
        human_reference: r.to_string(),
        machine_translation: m.to_string(),
    }
}

fn group(id: &str, refs: &[&str], m: &str) -> GroupedTranslation {
    GroupedTranslation {
        source_id: id.to_string(),
        human_references: strings(refs),
        machine_translation: m.to_string(),
    }
}

fn as_tuple(g: &GroupedTranslation) -> (String, Vec<String>, String) {
    (g.source_id.clone(), g.human_references.clone(), g.machine_translation.clone())
}

fn score(st: &CorpusStatistics) -> f64 {
    let penalty = match st.brevity_penalty {
        BrevityPenalty::Full => 1.0,
        BrevityPenalty::Reduced { reference_length, translation_length } => {
            (1.0 - reference_length as f64 / translation_length as f64).exp()
        }
    };
    let sum: f64 = st
        .precisions
        .iter()
        .map(|p| (p.matched as f64 / p.total as f64).ln())
        .sum();
    penalty * (sum / 4.0).exp()
}

#[test]
fn tokens_split_on_any_whitespace() {
    let t = split_tokens("  the\tcat \n sat  ");
    let t: Vec<String> = t.iter().map(|w| w.iter().collect()).collect();
    assert_eq!(t, strings(&["the", "cat", "sat"]));
    assert!(split_tokens("   ").is_empty());
    assert!(split_tokens("").is_empty());
}

#[test]
fn bigrams_are_joined_windows() {
    assert_eq!(n_grams_of("the cat  sat", 2), strings(&["the cat", "cat sat"]));
    assert_eq!(n_grams_of("the cat sat", 1), strings(&["the", "cat", "sat"]));
    assert_eq!(n_grams_of("the cat sat", 3), strings(&["the cat sat"]));
}

#[test]
fn ngram_count_is_k_minus_n_plus_one() {
    let s = "a b c d e f";
    for n in 1..=6 {
        assert_eq!(n_grams_of(s, n).len(), 6 - n + 1);
    }
    assert!(n_grams_of(s, 7).is_empty());
    assert!(n_grams_of("", 1).is_empty());
}

#[test]
fn counts_per_distinct_ngram() {
    let c = count_ngrams(strings(&["the", "cat", "the", "the"]));
    assert_eq!(c.get(&"the".to_string()), 3);
    assert_eq!(c.get(&"cat".to_string()), 1);
    assert_eq!(c.get(&"dog".to_string()), 0);
}

#[test]
fn clipping_takes_the_minimum_count() {
    let m = strings(&["the", "the", "the", "cat"]);
    assert_eq!(clipped_count(&m, strings(&["the", "cat", "the", "mat"])), 3);
    assert_eq!(clipped_count(&m, strings(&["a", "dog"])), 0);
    assert_eq!(clipped_count(&m, m.clone()), 4);
}

#[test]
fn parse_takes_id_and_last_two_fields() {
    let r = parse_line("0\ts1\textra\tthe cat sat\ta cat sat").ok().unwrap();
    assert_eq!(r.source_id, "s1");
    assert_eq!(r.human_reference, "the cat sat");
    assert_eq!(r.machine_translation, "a cat sat");
    let r = parse_line("x\ty").ok().unwrap();
    assert_eq!((r.source_id.as_str(), r.human_reference.as_str(), r.machine_translation.as_str()), ("y", "x", "y"));
}

#[test]
fn parse_rejects_a_line_without_tab() {
    match parse_line("no tabs here") {
        Err(ParseError::MalformedRecord { line }) => assert_eq!(line, "no tabs here"),
        Ok(_) => panic!("a line with one field was accepted"),
    }
}

#[test]
fn parse_records_stops_at_first_malformed_line() {
    let ok = parse_records(&strings(&["0\ts1\tr\tm", "1\ts2\tq\tn"])).ok().unwrap();
    assert_eq!(ok.len(), 2);
    assert_eq!(ok[1].source_id, "s2");
    match parse_records(&strings(&["0\ts1\tr\tm", "bad", "worse"])) {
        Err(ParseError::MalformedRecord { line }) => assert_eq!(line, "bad"),
        Ok(_) => panic!("malformed input was accepted"),
    }
}

#[test]
fn text_order_is_lexicographic() {
    assert!(text_less(&"a cat".to_string(), &"the cat".to_string()));
    assert!(!text_less(&"the".to_string(), &"the".to_string()));
    assert!(text_less(&"the".to_string(), &"the cat".to_string()));
    assert!(!text_less(&"b".to_string(), &"a".to_string()));
}

#[test]
fn grouping_is_consecutive_and_sorted() {
    let records = vec![
        rec("s1", "the cat sat", "m1"),
        rec("s1", "a cat sat", "m2"),
        rec("s2", "x", "m3"),
        rec("s1", "z", "m4"),
    ];
    let g: Vec<_> = group_translations(records).iter().map(as_tuple).collect();
    assert_eq!(
        g,
        vec![
            ("s1".to_string(), strings(&["a cat sat", "the cat sat"]), "m1".to_string()),
            ("s2".to_string(), strings(&["x"]), "m3".to_string()),
            ("s1".to_string(), strings(&["z"]), "m4".to_string()),
        ]
    );
}

#[test]
fn grouping_equal_references_keeps_input_order() {
    let records = vec![rec("s", "same", "first"), rec("s", "same", "second")];
    let g = group_translations(records);
    assert_eq!(g[0].machine_translation, "second");
}

#[test]
fn regrouping_flattened_groups_is_identity() {
    let records = vec![
        rec("b", "y", "m"),
        rec("b", "x", "n"),
        rec("a", "q", "k"),
        rec("b", "w", "o"),
    ];
    let once = group_translations(records);
    let mut flat = Vec::new();
    for g in &once {
        for r in &g.human_references {
            flat.push(rec(&g.source_id, r, &g.machine_translation));
        }
    }
    let twice = group_translations(flat);
    let a: Vec<_> = once.iter().map(as_tuple).collect();
    let b: Vec<_> = twice.iter().map(as_tuple).collect();
    assert_eq!(a, b);
}

#[test]
fn lengths_sum_every_reference() {
    let gs = vec![group("s1", &["a b c", "d e"], "x y"), group("s2", &["f"], "g h i")];
    assert_eq!(compute_lengths(&gs), Some((6, 5)));
}

#[test]
fn brevity_penalty_cases() {
    assert!(matches!(compute_brevity_penalty(6, 6), BrevityPenalty::Full));
    assert!(matches!(compute_brevity_penalty(6, 9), BrevityPenalty::Full));
    assert!(matches!(
        compute_brevity_penalty(6, 3),
        BrevityPenalty::Reduced { reference_length: 6, translation_length: 3 }
    ));
}

#[test]
fn brevity_penalty_grows_with_translation_length() {
    let value = |c: usize| match compute_brevity_penalty(10, c) {
        BrevityPenalty::Full => 1.0,
        BrevityPenalty::Reduced { reference_length, translation_length } => {
            (1.0 - reference_length as f64 / translation_length as f64).exp()
        }
    };
    let mut last = 0.0;
    for c in 1..=15 {
        let v = value(c);
        assert!(v >= last);
        last = v;
    }
    assert_eq!(value(10), 1.0);
}

#[test]
fn identical_corpus_scores_one() {
    let gs = vec![
        group("s1", &["the cat sat on the mat"], "the cat sat on the mat"),
        group("s2", &["a dog ran in the park"], "a dog ran in the park"),
    ];
    let st = corpus_statistics(&gs).unwrap();
    for p in &st.precisions {
        assert_eq!(p.matched, p.total);
        assert!(p.total > 0);
    }
    assert!(matches!(st.brevity_penalty, BrevityPenalty::Full));
    assert_eq!(score(&st), 1.0);
}

#[test]
fn disjoint_corpus_scores_zero() {
    let gs = vec![group("s1", &["the cat sat down", "one cat sat here"], "a dog ran")];
    let st = corpus_statistics(&gs).unwrap();
    assert_eq!(st.precisions[0].matched, 0);
    assert_eq!(st.precisions[0].total, 8);
    assert_eq!(score(&st), 0.0);
}

#[test]
fn two_references_accumulate_per_reference() {
    let records = vec![rec("s1", "the cat sat", "the cat sat"), rec("s1", "a cat sat", "the cat sat")];
    let gs = group_translations(records);
    assert_eq!(gs.len(), 1);
    assert_eq!(gs[0].human_references, strings(&["a cat sat", "the cat sat"]));
    let st = corpus_statistics(&gs).unwrap();
    let counts: Vec<(usize, usize)> = st.precisions.iter().map(|p| (p.matched, p.total)).collect();
    assert_eq!(counts, vec![(5, 6), (3, 4), (1, 2), (0, 0)]);
    assert_eq!((st.reference_length, st.translation_length), (6, 3));
    let p1 = precision_counts(&gs, 1).unwrap();
    assert_eq!((p1.matched, p1.total), (5, 6));
}

#[test]
fn disjoint_short_translation_scenario() {
    let gs = vec![group("s1", &["the cat sat on the mat"], "a dog ran")];
    let st = corpus_statistics(&gs).unwrap();
    assert_eq!(st.precisions[0].matched, 0);
    assert_eq!(st.precisions[0].total, 6);
    assert!(matches!(
        st.brevity_penalty,
        BrevityPenalty::Reduced { reference_length: 6, translation_length: 3 }
    ));
    let bp = (1.0 - 6.0 / 3.0f64).exp();
    assert!((bp - 0.368).abs() < 0.001);
    assert_eq!(score(&st), 0.0);
}

#[test]
fn evaluate_lines_runs_the_whole_pipeline() {
    let lines = strings(&[
        "0\ts1\tthe cat sat on the mat\tthe cat sat on the mat",
        "1\ts2\ta dog ran in the park\ta dog ran in the park",
    ]);
    let st = evaluate_lines(&lines).ok().unwrap().unwrap();
    assert_eq!((st.reference_length, st.translation_length), (12, 12));
    assert_eq!(score(&st), 1.0);
    match evaluate_lines(&strings(&["0\ts1\tr\tm", "broken"])) {
        Err(ParseError::MalformedRecord { line }) => assert_eq!(line, "broken"),
        Ok(_) => panic!("malformed input was accepted"),
    }
}
