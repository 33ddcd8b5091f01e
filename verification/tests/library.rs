use rustplexity::model::BigramPerplexityModel;
use rustplexity::table::load_table;
use rustplexity::table::split_line;
use rustplexity::table::split_lines;
use rustplexity::table::NumericParseError;
use rustplexity::table::ProbTable;
use rustplexity::tokenizer::tokenize;

fn parse_probs(nums: &[String]) -> Vec<Option<u64>> {
    nums.iter().map(|n| n.parse::<f64>().ok().map(f64::to_bits)).collect()
}

fn table_from_lines(lines: &[&str]) -> Result<ProbTable, NumericParseError> {
    let lines: Vec<String> = lines.iter().map(|s| s.to_string()).collect();
    let (keys, nums) = split_lines(&lines);
    let probs = parse_probs(&nums);
    load_table(&keys, &probs)
}

/// The perplexity formula over the per-token lookups, as the shell computes
/// it: interpolation 0.8/0.2 with floor 1e-6, base-2 logarithm, and
/// 2^(-mean log-probability); 0.0 for an empty token sequence.
fn compute(model: &BigramPerplexityModel, sentence: &str) -> f64 {
    let terms = model.sentence_terms(sentence);
    if terms.is_empty() {
        return 0.0;
    }
    let n = terms.len() as f64;
    let mut sum = 0.0;
    for (b, u) in &terms {
        sum += (f64::from_bits(*b) * 0.8 + f64::from_bits(*u) * 0.2 + 1e-6).log2();
    }
    (2.0f64).powf(-sum / n)
}

#[test]
fn single_well_formed_line_gives_one_entry() {
    let t = table_from_lines(&["cat 0.5"]).unwrap();
    assert_eq!(t.len(), 1);
    assert_eq!(t.get_or_zero(&"cat".to_string()), 0.5f64.to_bits());
    assert_eq!(t.get_or_zero(&"dog".to_string()), 0u64);
}

#[test]
fn bigram_line_splits_from_the_right() {
    let (key, num) = split_line("w1 w2 0.5");
    assert_eq!(key, "w1 w2");
    assert_eq!(num, "0.5");
    let t = table_from_lines(&["w1 w2 0.5"]).unwrap();
    assert_eq!(t.len(), 1);
    assert_eq!(t.get_or_zero(&"w1 w2".to_string()), 0.5f64.to_bits());
    assert_eq!(t.get_or_zero(&"w1".to_string()), 0u64);
    assert_eq!(t.get_or_zero(&"w2".to_string()), 0u64);
}

#[test]
fn line_without_space_gets_empty_key() {
    let (key, num) = split_line("0.75");
    assert_eq!(key, "");
    assert_eq!(num, "0.75");
    let t = table_from_lines(&["0.75"]).unwrap();
    assert_eq!(t.len(), 1);
    assert_eq!(t.get_or_zero(&String::new()), 0.75f64.to_bits());
}

#[test]
fn later_line_overrides_earlier_key() {
    let t = table_from_lines(&["a 0.1", "a 0.2", "b 0.3"]).unwrap();
    assert_eq!(t.len(), 2);
    assert_eq!(t.get_or_zero(&"a".to_string()), 0.2f64.to_bits());
    assert_eq!(t.get_or_zero(&"b".to_string()), 0.3f64.to_bits());
}

#[test]
fn non_numeric_field_fails_the_load() {
    let err = table_from_lines(&["a b notanumber"]).unwrap_err();
    assert_eq!(err, NumericParseError { line: 0 });
}

#[test]
fn failure_names_the_offending_line() {
    let err = table_from_lines(&["a 0.1", "b x", "c 0.3"]).unwrap_err();
    assert_eq!(err, NumericParseError { line: 1 });
}

#[test]
fn empty_numeric_field_fails_the_load() {
    let (key, num) = split_line("trailing ");
    assert_eq!(key, "trailing");
    assert_eq!(num, "");
    let err = table_from_lines(&["trailing "]).unwrap_err();
    assert_eq!(err, NumericParseError { line: 0 });
}

#[test]
fn tokenize_separates_punctuation() {
    assert_eq!(tokenize("Hello, world!"), vec!["hello", ",", "world", "!"]);
}

#[test]
fn tokenize_lowercases() {
    assert_eq!(tokenize("HeLLo WORLD"), vec!["hello", "world"]);
}

#[test]
fn tokenize_full_punctuation_set() {
    assert_eq!(tokenize("¿Qué? ¡Sí!"), vec!["¿", "qué", "?", "¡", "sí", "!"]);
    assert_eq!(tokenize("a(b)c"), vec!["a", "(", "b", ")", "c"]);
    assert_eq!(
        tokenize("x<y>z=\"w\"'v'`u`"),
        vec!["x", "<", "y", ">", "z", "=", "\"", "w", "\"", "'", "v", "'", "`", "u", "`"]
    );
    assert_eq!(tokenize("a;b:c."), vec!["a", ";", "b", ":", "c", "."]);
}

#[test]
fn tokenize_collapses_whitespace() {
    assert_eq!(tokenize("  a\t\tb \n c \r "), vec!["a", "b", "c"]);
    assert_eq!(tokenize("a\u{c}b"), vec!["a", "b"]);
    assert_eq!(tokenize(""), Vec::<String>::new());
    assert_eq!(tokenize(" \t \n "), Vec::<String>::new());
}

#[test]
fn key_keeps_every_space_but_the_last() {
    let (key, num) = split_line("a  b 0.5");
    assert_eq!(key, "a  b");
    assert_eq!(num, "0.5");
}

#[test]
fn empty_sentence_scores_zero() {
    let model = BigramPerplexityModel::new();
    assert!(model.sentence_terms("").is_empty());
    assert_eq!(compute(&model, ""), 0.0);
}

#[test]
fn scoring_is_case_invariant() {
    let uni = table_from_lines(&["hello 0.4", "world 0.3"]).unwrap();
    let bi = table_from_lines(&["# hello 0.2", "hello world 0.5"]).unwrap();
    let model = BigramPerplexityModel::from_tables(uni, bi);
    assert_eq!(
        model.sentence_terms("Hello World"),
        model.sentence_terms("hello world")
    );
    assert_eq!(compute(&model, "Hello World"), compute(&model, "hello world"));
}

#[test]
fn empty_tables_score_the_floor() {
    let model = BigramPerplexityModel::new();
    let terms = model.sentence_terms("hello world");
    assert_eq!(terms, vec![(0u64, 0u64), (0u64, 0u64)]);
    let got = compute(&model, "hello world");
    assert_eq!(got, (2.0f64).powf(-(1e-6f64).log2()));
    assert!((got - 1e6).abs() < 1e-3);
}

#[test]
fn single_token_follows_the_formula() {
    let uni = table_from_lines(&["cat 0.5"]).unwrap();
    let bi = table_from_lines(&["# cat 0.3"]).unwrap();
    let model = BigramPerplexityModel::from_tables(uni, bi);
    let terms = model.sentence_terms("cat");
    assert_eq!(terms, vec![(0.3f64.to_bits(), 0.5f64.to_bits())]);
    let got = compute(&model, "cat");
    assert_eq!(got, (2.0f64).powf(-((0.3f64 * 0.8 + 0.5f64 * 0.2 + 1e-6).log2())));
}

#[test]
fn bigram_chain_uses_previous_token() {
    let uni = table_from_lines(&["a 0.9", "b 0.8"]).unwrap();
    let bi = table_from_lines(&["# a 0.7", "a b 0.6"]).unwrap();
    let model = BigramPerplexityModel::from_tables(uni, bi);
    let terms = model.sentence_terms("a b");
    assert_eq!(
        terms,
        vec![
            (0.7f64.to_bits(), 0.9f64.to_bits()),
            (0.6f64.to_bits(), 0.8f64.to_bits()),
        ]
    );
}

#[test]
fn missing_entries_count_as_zero() {
    let uni = table_from_lines(&["cat 0.5"]).unwrap();
    let bi = table_from_lines(&[]).unwrap();
    let model = BigramPerplexityModel::from_tables(uni, bi);
    let terms = model.sentence_terms("cat dog");
    assert_eq!(
        terms,
        vec![(0u64, 0.5f64.to_bits()), (0u64, 0u64)]
    );
}

#[test]
fn load_order_does_not_matter() {
    let uni_lines = ["hello 0.4", "world 0.3"];
    let bi_lines = ["# hello 0.2", "hello world 0.5"];
    // One order of completion: the unigram table first.
    let uni_first = {
        let u = table_from_lines(&uni_lines).unwrap();
        let b = table_from_lines(&bi_lines).unwrap();
        BigramPerplexityModel::from_tables(u, b)
    };
    // The other order of completion: the bigram table first.
    let bi_first = {
        let b = table_from_lines(&bi_lines).unwrap();
        let u = table_from_lines(&uni_lines).unwrap();
        BigramPerplexityModel::from_tables(u, b)
    };
    for sentence in ["hello world", "Hello, world!", "", "unseen words"] {
        assert_eq!(uni_first.sentence_terms(sentence), bi_first.sentence_terms(sentence));
        assert_eq!(compute(&uni_first, sentence), compute(&bi_first, sentence));
    }
}
