use akaza::corpus::{make_score_map, split_words, ExtractedWikipediaProcessor, PairCounts, WordCounts};
use akaza::cost::calc_cost;
use akaza::model::UnigramBuilder;
use akaza::text::str_chars;

fn chars(s: &str) -> Vec<char> {
    str_chars(s)
}

#[test]
fn test_remove_yomigana() {
    let runner = ExtractedWikipediaProcessor::new();
    let got = runner.remove_yomigana("上級個人情報保護士（じょうきゅうこじんじょうほうほごし）は");
    assert_eq!(got, "上級個人情報保護士は");
}

#[test]
fn remove_yomigana_keeps_other_parens() {
    let runner = ExtractedWikipediaProcessor::new();
    assert_eq!(runner.remove_yomigana("名前（Name）は"), "名前（Name）は");
    assert_eq!(runner.remove_yomigana("空（）括弧"), "空（）括弧");
}

#[test]
fn process_line_filters_noise() {
    let runner = ExtractedWikipediaProcessor::new();
    assert!(runner.process_line("<doc id=\"1\">").is_none());
    assert!(runner.process_line("").is_none());
    assert!(runner.process_line("75||19||colspan=2|-||1||0||76||19").is_none());
    let kept = runner.process_line("東京（とうきょう）は首都").unwrap();
    assert_eq!(kept, "東京は首都");
}

#[test]
fn split_words_matches_spaces() {
    let ws = split_words(&chars("ab c  d"));
    let got: Vec<String> = ws.iter().map(|w| w.iter().collect()).collect();
    assert_eq!(got, vec!["ab", "c", "", "d"]);
}

#[test]
fn word_counts_skip_invalid_tokens() {
    let mut counts = WordCounts::new();
    counts.count_line("格子 探索 格子  /skip");
    counts.count_line("格子 \u{200f}mark");
    let key = chars("格子");
    let mut found = 0u32;
    for (w, c) in counts.entries.iter() {
        if *w == key {
            found = *c;
        }
        let s: String = w.iter().collect();
        assert_ne!(s, "/skip");
        assert_ne!(s, "\u{200f}mark");
        assert_ne!(s, "");
    }
    assert_eq!(found, 3);
    assert_eq!(counts.num_words(), 2);
}

#[test]
fn pair_counts_follow_adjacency() {
    let mut ub = UnigramBuilder::new();
    assert!(ub.add(&chars("私"), &chars("わたし"), 500));
    assert!(ub.add(&chars("から"), &chars("から"), 300));
    let unigram = ub.build();
    let mut counts = PairCounts::new();
    counts.count_line("私/わたし から/から 私/わたし", &unigram);
    counts.count_line("私/わたし から/から", &unigram);
    // ids are dense from 1 in entry order
    let mut pair_1_2 = 0u32;
    let mut pair_2_1 = 0u32;
    for (a, b, c) in counts.entries.iter() {
        if *a == 1 && *b == 2 {
            pair_1_2 = *c;
        }
        if *a == 2 && *b == 1 {
            pair_2_1 = *c;
        }
    }
    assert_eq!(pair_1_2, 2);
    assert_eq!(pair_2_1, 1);
}

#[test]
fn unknown_tokens_break_pairs() {
    let mut ub = UnigramBuilder::new();
    assert!(ub.add(&chars("私"), &chars("わたし"), 500));
    let unigram = ub.build();
    let mut counts = PairCounts::new();
    counts.count_line("私/わたし 謎/なぞ 私/わたし", &unigram);
    assert_eq!(counts.num_pairs(), 0);
}

#[test]
fn score_map_thresholds_and_scores() {
    let mut counts = PairCounts::new();
    counts.add_pair(1, 2, 5);
    counts.add_pair(3, 4, 2);
    counts.add_pair(5, 6, 2);
    // total occurrences c = 9, vocabulary v = 3, threshold 2 keeps (1,2) only
    let scored = make_score_map(2, &counts);
    assert_eq!(scored.len(), 1);
    assert_eq!(scored[0].0, 1);
    assert_eq!(scored[0].1, 2);
    assert_eq!(scored[0].2, calc_cost(5, 9, 3));
    assert_eq!(scored[0].2, 1000 * (9 + 3 + 1) / (5 + 1));
    // the default edge cost is derived from the unseen count
    assert_eq!(calc_cost(0, 9, 3), 13000);
}

#[test]
fn merged_counts_add_up() {
    let mut a = WordCounts::new();
    a.count_line("格子 探索");
    let mut b = WordCounts::new();
    b.count_line("探索 探索");
    a.merge_from(&b);
    let key = chars("探索");
    let mut found = 0u32;
    for (w, c) in a.entries.iter() {
        if *w == key {
            found = *c;
        }
    }
    assert_eq!(found, 3);
}
