use bigram_engine::loader::DataLoader;
use bigram_engine::text::{clean_line, clean_lowered, trim_whitespace};

fn chars(s: &str) -> Vec<char> {
    s.chars().collect()
}

#[test]
fn clean_lowercases_filters_and_trims() {
    assert_eq!(clean_line("  Hello, World!\n"), chars("hello world"));
    assert_eq!(clean_line("Mr. Smith 42"), chars("mr. smith"));
    assert_eq!(clean_line(" \t\n"), chars(""));
    assert_eq!(clean_line("ABC"), chars("abc"));
}

#[test]
fn clean_keeps_unicode_letters() {
    assert_eq!(clean_line("Éa"), chars("éa"));
    // KELVIN SIGN lower-cases to the ASCII letter k.
    assert_eq!(clean_line("\u{212A}"), chars("k"));
}

#[test]
fn feed_line_appends_pairs() {
    let mut loader = DataLoader::new();
    let mut pending = String::new();
    assert!(loader.feed_line(&mut pending, "Hi.\n"));
    assert_eq!(loader.encoded_data, vec![(28, 8), (8, 9), (9, 0), (0, 29)]);
    assert_eq!(pending, "");
}

#[test]
fn feed_line_keeps_empty_text_pending() {
    let mut loader = DataLoader::new();
    let mut pending = String::new();
    assert!(loader.feed_line(&mut pending, "  !!\n"));
    assert!(loader.encoded_data.is_empty());
    assert_eq!(pending, "  !!\n");
    assert!(loader.feed_line(&mut pending, "ab\n"));
    assert_eq!(loader.encoded_data, vec![(28, 1), (1, 2), (2, 29)]);
    assert_eq!(pending, "");
}

#[test]
fn feed_line_refuses_symbols_outside_the_vocabulary() {
    let mut loader = DataLoader::new();
    let mut pending = String::new();
    assert!(loader.feed_line(&mut pending, "a\n"));
    assert!(!loader.feed_line(&mut pending, "Café\n"));
    assert_eq!(loader.encoded_data, vec![(28, 1), (1, 29)]);
}

#[test]
fn feed_line_accepts_kelvin_sign() {
    let mut loader = DataLoader::new();
    let mut pending = String::new();
    assert!(loader.feed_line(&mut pending, "\u{212A}\n"));
    assert_eq!(loader.encoded_data, vec![(28, 11), (11, 29)]);
}

#[test]
fn pairs_chain_and_never_start_with_space() {
    let mut loader = DataLoader::new();
    let mut pending = String::new();
    assert!(loader.feed_line(&mut pending, "  the cat  \n"));
    let d = &loader.encoded_data;
    assert_eq!(d.len(), "the cat".len() + 1);
    assert_eq!(d[0].0, 28);
    assert_ne!(d[0].1, 27);
    assert_eq!(d[d.len() - 1].1, 29);
    for i in 0..d.len() - 1 {
        assert_eq!(d[i].1, d[i + 1].0);
    }
}

#[test]
fn total_steps_counts_whole_batches() {
    let loader = DataLoader { encoded_data: vec![(1, 2); 10] };
    assert_eq!(loader.total_steps::<3>(), 3);
    assert_eq!(loader.total_steps::<10>(), 1);
    assert_eq!(loader.total_steps::<11>(), 0);
}

#[test]
fn batch_tokens_splits_pairs() {
    let loader = DataLoader {
        encoded_data: vec![(0, 1), (2, 3), (4, 5), (6, 7), (8, 9)],
    };
    let (x, y) = loader.batch_tokens::<2>(1);
    assert_eq!(x, vec![4, 6]);
    assert_eq!(y, vec![5, 7]);
    let (x, y) = loader.batch_tokens::<2>(0);
    assert_eq!(x, vec![0, 2]);
    assert_eq!(y, vec![1, 3]);
}

#[test]
fn every_step_below_total_steps_is_a_full_batch() {
    let loader = DataLoader {
        encoded_data: (0..17).map(|i| (i, i + 1)).collect(),
    };
    let steps = loader.total_steps::<4>();
    assert_eq!(steps, 4);
    for s in 0..steps {
        let (x, _) = loader.batch_tokens::<4>(s);
        assert_eq!(x, vec![4 * s, 4 * s + 1, 4 * s + 2, 4 * s + 3]);
    }
}

#[test]
fn clean_lowered_filters_and_trims() {
    assert_eq!(clean_lowered(&chars(" a,b. c\n")), chars("ab. c"));
    assert_eq!(clean_lowered(&chars("\u{3000}x\u{3000}")), chars("x"));
}

#[test]
fn trim_uses_unicode_white_space() {
    assert_eq!(trim_whitespace(&chars("\u{a0}\u{2028} a b\u{85}\t")), chars("a b"));
    assert_eq!(trim_whitespace(&chars("\u{200b}a")), chars("\u{200b}a"));
}

#[test]
fn data_across_lines_chains_with_line_breaks() {
    let mut loader = DataLoader::new();
    let mut pending = String::new();
    for line in ["ab\n", "\n", "  \n", "C d.\n"] {
        assert!(loader.feed_line(&mut pending, line));
    }
    let d = &loader.encoded_data;
    assert_eq!(
        *d,
        vec![(28, 1), (1, 2), (2, 29), (28, 3), (3, 27), (27, 4), (4, 0), (0, 29)]
    );
    assert_eq!(d[0].0, 28);
    assert_eq!(d[d.len() - 1].1, 29);
    for k in 0..d.len() - 1 {
        assert!(d[k].1 == d[k + 1].0 || (d[k].1 == 29 && d[k + 1].0 == 28));
    }
}
