use calculate_distances::{
    classify, make_aligner, make_stats_table, make_stats_table_aligned, seq_stats, seq_stats_aligned, Aligner,
    AlignmentStats, NucleotideType, Ratio, SymbolType,
};

fn ratio_value(r: Ratio) -> f64 {
    r.numerator as f64 / r.denominator as f64
}

fn stats_of_pairs(target: &str, query: &str) -> AlignmentStats {
    let mut alignment_stats = AlignmentStats::new();
    target
        .bytes()
        .zip(query.bytes())
        .for_each(|pair| alignment_stats.update(pair));
    alignment_stats
}

#[test]
fn test_distance() {
    let target = "gg-ccnccta";
    let query = "ggaccaccaa";
    let alignment_stats = stats_of_pairs(target, query);
    assert_eq!(ratio_value(alignment_stats.pdistance()), 1.0 / 8.0);
    assert_eq!(ratio_value(alignment_stats.pdistance_counting_gaps()), 2.0 / 9.0);
}

#[test]
fn test_distance_table() {
    let targets = ["foo", "fao", "f-o"];
    let queries = ["foo", "bar"];

    let aligner = Aligner::default();
    let table = make_stats_table(&aligner, &targets, &queries);
    let pdistances: Vec<f64> = table.iter().map(|s| ratio_value(s.pdistance())).collect();
    assert_eq!(pdistances, vec![0.0, 1.0, 1.0 / 3.0, 2.0 / 3.0, 0.0, 1.0]);
    let pdistances_gaps: Vec<f64> = table
        .iter()
        .map(|s| ratio_value(s.pdistance_counting_gaps()))
        .collect();
    assert_eq!(pdistances_gaps, vec![0.0, 1.0, 1.0 / 3.0, 2.0 / 3.0, 1.0 / 3.0, 1.0]);
}

#[test]
fn worked_example_counters() {
    let s = stats_of_pairs("gg-ccnccta", "ggaccaccaa");
    assert_eq!(s.total_length(), 9);
    assert_eq!(s.common_length(), 8);
    assert_eq!(s.total_gap_length(), 1);
    assert_eq!(s.transitions(), 0);
    assert_eq!(s.transversions(), 1);
    assert_eq!(s.substitutions(), 1);
}

#[test]
fn classify_symbols() {
    assert_eq!(classify(b'-'), SymbolType::Gap);
    assert_eq!(classify(b'n'), SymbolType::Missing);
    assert_eq!(classify(b'N'), SymbolType::Missing);
    assert_eq!(classify(b'?'), SymbolType::Missing);
    assert_eq!(classify(b'a'), SymbolType::Nucleotide(NucleotideType::Purine));
    assert_eq!(classify(b'G'), SymbolType::Nucleotide(NucleotideType::Purine));
    assert_eq!(classify(b'c'), SymbolType::Nucleotide(NucleotideType::Pyrimidine));
    assert_eq!(classify(b'T'), SymbolType::Nucleotide(NucleotideType::Pyrimidine));
    assert_eq!(classify(b'x'), SymbolType::Nucleotide(NucleotideType::Unknown));
}

#[test]
fn update_policy() {
    let s = stats_of_pairs("AaCaxx-n-", "AGTcxy-a?");
    // A/A match, a/G transition, C/T transition, a/c transversion, x/x match,
    // x/y transversion, -/- ignored, n/a ignored, -/? ignored
    assert_eq!(s.total_length(), 6);
    assert_eq!(s.common_length(), 6);
    assert_eq!(s.total_gap_length(), 0);
    assert_eq!(s.transitions(), 2);
    assert_eq!(s.transversions(), 2);
    let g = stats_of_pairs("a-", "-a");
    assert_eq!(g.total_length(), 2);
    assert_eq!(g.total_gap_length(), 2);
    assert_eq!(g.common_length(), 0);
}

#[test]
fn empty_stats_pdistance_is_undefined() {
    let s = AlignmentStats::new();
    let p = s.pdistance();
    assert_eq!(p, Ratio { numerator: 0, denominator: 0 });
    assert!(ratio_value(p).is_nan());
    let only_gaps = stats_of_pairs("--", "ac");
    assert!(ratio_value(only_gaps.pdistance()).is_nan());
}

#[test]
fn jukes_cantor_saturation() {
    // four transversions out of four: p = 1 > 3/4
    let s = stats_of_pairs("aaaa", "cccc");
    assert!(s.jukes_cantor_saturated());
    // three substitutions out of four: p = 3/4 exactly
    let t = stats_of_pairs("aaaa", "ccca");
    assert!(!t.jukes_cantor_saturated());
    // no common position: 0/0 is no saturation
    assert!(!AlignmentStats::new().jukes_cantor_saturated());
}

#[test]
fn kimura_saturation() {
    // one transition in four: 1 - 2/4 > 0
    let s = stats_of_pairs("aaaa", "gaaa");
    assert!(!s.kimura2p_saturated());
    // two transitions in four: 1 - 2 * 2/4 - 0 = 0
    let t = stats_of_pairs("aaaa", "ggaa");
    assert!(t.kimura2p_saturated());
    // two transversions in four: 1 - 2 * 2/4 = 0
    let u = stats_of_pairs("aaaa", "ccaa");
    assert!(u.kimura2p_saturated());
    assert!(AlignmentStats::new().kimura2p_saturated());
}

#[test]
fn aligned_without_common_span() {
    assert!(seq_stats_aligned("aa--", "--aa").is_none());
    assert!(seq_stats_aligned("a---", "---a").is_none());
    assert!(seq_stats_aligned("----", "acgt").is_none());
    assert!(seq_stats_aligned("nn?-", "acgt").is_none());
    assert!(seq_stats_aligned("", "").is_none());
}

#[test]
fn aligned_common_span_only() {
    let s = seq_stats_aligned("--ac-tc-", "gcctag--").unwrap();
    // common span is positions 2..=5: a/c c/t -/a t/g
    assert_eq!(s.total_length(), 4);
    assert_eq!(s.common_length(), 3);
    assert_eq!(s.total_gap_length(), 1);
    assert_eq!(s.transitions(), 1);
    assert_eq!(s.transversions(), 2);
    let e = seq_stats_aligned("ac", "ac").unwrap();
    assert_eq!(e.common_length(), 2);
    assert_eq!(e.substitutions(), 0);
}

#[test]
fn stats_of_alignment() {
    let aligner = Aligner::default();
    // "ab" against "b" aligns as "ab" over "-b"
    let s = seq_stats(&aligner, "ab", "b");
    assert_eq!(s.total_length(), 2);
    assert_eq!(s.total_gap_length(), 1);
    assert_eq!(s.common_length(), 1);
    assert_eq!(s.substitutions(), 0);
    let custom = make_aligner(1, -1, -2, -1, -100, -10);
    let c = seq_stats(&custom, "acgt", "acct");
    assert_eq!(c.common_length(), 4);
    assert_eq!(c.transitions(), 0);
    assert_eq!(c.transversions(), 1);
}

#[test]
fn stats_table_order() {
    let aligner = Aligner::default();
    let targets = ["aa", "cc"];
    let queries = ["aa", "ag", "cc"];
    let table = make_stats_table(&aligner, &targets, &queries);
    assert_eq!(table.len(), 6);
    let subs: Vec<usize> = table.iter().map(|s| s.substitutions()).collect();
    assert_eq!(subs, vec![0, 1, 2, 2, 2, 0]);
    let empty = make_stats_table(&aligner, &[], &queries);
    assert!(empty.is_empty());
}

#[test]
fn aligned_stats_table_order() {
    let targets = ["ac-", "----"];
    let queries = ["ag-", "-cc"];
    let table = make_stats_table_aligned(&targets, &queries);
    assert_eq!(table.len(), 4);
    // ac- / ag-: span 0..=1, one transversion
    assert_eq!(table[0].as_ref().unwrap().transversions(), 1);
    // ac- / -cc: span 1..=1, one match
    assert_eq!(table[1].as_ref().unwrap().common_length(), 1);
    assert_eq!(table[1].as_ref().unwrap().substitutions(), 0);
    assert!(table[2].is_none());
    assert!(table[3].is_none());
}
