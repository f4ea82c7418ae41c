use tone_clone::analyze::ngrams::{is_stopword, rank_keys};
use tone_clone::analyze::{
    build_profile, post_chars_checked, total_chars_checked, common_ngrams, contraction_rate, is_all_stopwords, lowercase_start_rate,
    punctuation_inventory, question_rate, select_diverse_examples, select_diverse_indices,
    sentence_stats, sentences, type_summaries, word_count_stats,
};
use tone_clone::models::Post;
use tone_clone::text::word_count;

fn median(low: usize, high: usize) -> f64 {
    (low + high) as f64 / 2.0
}

fn post(id: i64, post_type: &str, body: &str, repo: Option<&str>, created_at: &str) -> Post {
    Post {
        id,
        source_id: 1,
        external_id: format!("ext-{id}"),
        post_type: post_type.to_string(),
        body: body.to_string(),
        url: Some(format!("https://example.com/{id}")),
        repo: repo.map(|r| r.to_string()),
        created_at: created_at.to_string(),
        likely_ai: false,
        scraped_at: "2024-01-01".to_string(),
    }
}

#[test]
fn test_word_count_stats_basic() {
    let bodies = ["hello world", "one two three four", "hi"];
    let stats = word_count_stats(&bodies);
    assert_eq!(stats.count, 3);
    assert_eq!(stats.min, 1);
    assert_eq!(stats.max, 4);
    assert!((median(stats.median_low, stats.median_high) - 2.0).abs() < f64::EPSILON);
}

#[test]
fn test_word_count_stats_empty() {
    let bodies: [&str; 0] = [];
    let stats = word_count_stats(&bodies);
    assert_eq!(stats.count, 0);
}

#[test]
fn test_lowercase_start_rate() {
    let bodies = ["hello", "World", "test", "Another"];
    let rate = lowercase_start_rate(&bodies);
    let value = rate.matching as f64 / rate.total as f64;
    assert!((value - 0.5).abs() < f64::EPSILON);
}

#[test]
fn test_contraction_rate() {
    let bodies = ["I don't know", "this is fine", "can't stop"];
    let rate = contraction_rate(&bodies);
    let value = rate.matching as f64 / rate.total as f64;
    assert!((value - 2.0 / 3.0).abs() < 0.01);
}

#[test]
fn test_question_rate() {
    let bodies = ["what?", "ok", "really?", "yep"];
    let rate = question_rate(&bodies);
    let value = rate.matching as f64 / rate.total as f64;
    assert!((value - 0.5).abs() < f64::EPSILON);
}

#[test]
fn test_sentences() {
    let text = "hello world. this is a test. done";
    let sents = sentences(text);
    assert_eq!(sents.len(), 3);
    assert_eq!(sents[0], "hello world.");
    assert_eq!(sents[1], "this is a test.");
    assert_eq!(sents[2], "done");
}

#[test]
fn test_common_ngrams() {
    let bodies = [
        "the quick brown fox",
        "the quick red fox",
        "the slow brown fox",
    ];
    let bigrams = common_ngrams(&bodies, 2, 5);
    assert!(!bigrams.is_empty());
}

#[test]
fn word_count_splits_on_unicode_whitespace() {
    assert_eq!(word_count(""), 0);
    assert_eq!(word_count("   "), 0);
    assert_eq!(word_count(" one\ttwo\nthree\u{00a0}four "), 4);
}

#[test]
fn word_count_stats_even_median_and_total() {
    let bodies = ["a b", "a b c d", "a", "a b c d e f"];
    let stats = word_count_stats(&bodies);
    assert_eq!(stats.count, 4);
    assert_eq!(stats.total_words, 13);
    assert_eq!(stats.median_low, 2);
    assert_eq!(stats.median_high, 4);
    assert_eq!(stats.min, 1);
    assert_eq!(stats.max, 6);
    assert!(stats.min <= stats.median_low && stats.median_high <= stats.max);
}

#[test]
fn sentences_split_only_before_space_newline_or_end() {
    let sents = sentences("Wait... really?! yes.\nv1.2 is out");
    assert_eq!(sents, vec!["Wait...", "really?!", "yes.", "v1.2 is out"]);
    assert!(sentences("   ").is_empty());
    assert_eq!(sentences(". . ."), vec![".", ".", "."]);
}

#[test]
fn sentence_stats_counts_sentences_and_their_words() {
    let bodies = ["one two. three four five!", "six"];
    let stats = sentence_stats(&bodies);
    assert_eq!(stats.posts, 2);
    assert_eq!(stats.total_sentences, 3);
    assert_eq!(stats.total_sentence_words, 6);
}

#[test]
fn rates_of_no_posts_are_zero_over_zero() {
    let bodies: [&str; 0] = [];
    let rate = question_rate(&bodies);
    assert_eq!((rate.matching, rate.total), (0, 0));
}

#[test]
fn lowercase_start_looks_at_first_non_space_character() {
    let bodies = ["  hello", "123 go", "", "Émile", "élan"];
    let rate = lowercase_start_rate(&bodies);
    assert_eq!(rate.total, 5);
    assert_eq!(rate.matching, 1);
}

#[test]
fn contractions_are_found_case_insensitively() {
    let bodies = [
        "I DON'T",
        "it's fine",
        "nothing here",
        "We'll see",
        "I'VE been",
        "i'd say",
        "I'll go",
        "Im not",
    ];
    let rate = contraction_rate(&bodies);
    assert_eq!(rate.matching, 6);
    assert_eq!(rate.total, 8);
}

#[test]
fn contraction_i_am_counts() {
    let bodies = ["I'm here"];
    let rate = contraction_rate(&bodies);
    assert_eq!((rate.matching, rate.total), (1, 1));
}

#[test]
fn punctuation_inventory_counts_uses_and_posts() {
    let bodies = ["a, b, c!", "d; e, f", "plain"];
    let inv = punctuation_inventory(&bodies);
    let comma = inv.iter().find(|e| e.char == ',').unwrap();
    assert_eq!(comma.count, 3);
    assert_eq!(comma.posts_with, 2);
    let semi = inv.iter().find(|e| e.char == ';').unwrap();
    assert_eq!((semi.count, semi.posts_with), (1, 1));
    let bang = inv.iter().find(|e| e.char == '!').unwrap();
    assert_eq!((bang.count, bang.posts_with), (1, 1));
    assert_eq!(inv[0].char, ',');
    for w in inv.windows(2) {
        assert!(w[0].count >= w[1].count);
    }
    for e in &inv {
        assert!(e.posts_with >= 1 && e.posts_with <= e.count);
    }
}

#[test]
fn common_ngrams_counts_phrases_and_skips_stopword_only_ones() {
    let bodies = [
        "The quick brown fox.",
        "the quick red fox",
        "the slow brown fox",
    ];
    let bigrams = common_ngrams(&bodies, 2, 5);
    let find = |w: &str| bigrams.iter().find(|n| n.words == w).map(|n| n.count);
    assert_eq!(find("brown fox"), Some(2));
    assert_eq!(find("the quick"), Some(2));
    assert_eq!(find("red fox"), None);
    assert_eq!(bigrams.len(), 2);
    for w in bigrams.windows(2) {
        assert!(w[0].count >= w[1].count);
    }
    assert!(bigrams.len() <= 5);
    let only_stop = ["of the and to", "of the and to"];
    assert!(common_ngrams(&only_stop, 2, 5).is_empty());
}

#[test]
fn ngrams_never_repeat_a_phrase() {
    let bodies = ["a b a b a b", "b a b a"];
    let grams = common_ngrams(&bodies, 2, 10);
    for (i, a) in grams.iter().enumerate() {
        for b in &grams[i + 1..] {
            assert_ne!(a.words, b.words);
        }
    }
}

#[test]
fn stopword_phrases() {
    assert!(is_all_stopwords(&["of", "the"]));
    assert!(!is_all_stopwords(&["of", "fox"]));
    assert!(is_all_stopwords(&[]));
}

#[test]
fn profile_gathers_every_analysis() {
    let bodies = ["hello there, world.", "What's up? nothing"];
    let profile = build_profile(&bodies);
    assert_eq!(profile.total_posts, 2);
    assert_eq!(profile.word_count.total_words, 6);
    assert_eq!(profile.sentence.total_sentences, 3);
    assert_eq!(profile.sentence.total_sentence_words, profile.word_count.total_words);
    assert_eq!(profile.question_rate.matching, 1);
    assert_eq!(profile.contraction_rate.matching, 1);
    assert_eq!(profile.lowercase_start_rate.matching, 1);
    assert!(profile.bigrams.len() <= 15);
    assert!(profile.trigrams.len() <= 10);
}

#[test]
fn type_summaries_group_by_type_most_first() {
    let posts = vec![
        post(1, "pr_comment", "looks good?", Some("a/b"), "2024-01-01"),
        post(2, "issue_body", "Broken build", Some("a/b"), "2024-01-02"),
        post(3, "pr_comment", "nit: rename this", Some("c/d"), "2024-01-03"),
    ];
    let sums = type_summaries(&posts);
    assert_eq!(sums.len(), 2);
    assert_eq!(sums[0].post_type, "pr_comment");
    assert_eq!(sums[0].count, 2);
    assert_eq!(sums[0].word_count.total_words, 5);
    assert_eq!(sums[0].question_rate.matching, 1);
    assert_eq!(sums[0].lowercase_start_rate.matching, 2);
    assert_eq!(sums[1].post_type, "issue_body");
    assert_eq!(sums[1].count, 1);
}

#[test]
fn diverse_examples_small_sets_keep_first_of_each_id() {
    let posts = vec![
        post(1, "pr_comment", "one", Some("a/b"), "2024-01-02"),
        post(1, "pr_comment", "one again", Some("a/b"), "2024-01-03"),
        post(2, "pr_comment", "two", None, "2024-01-01"),
    ];
    let picked = select_diverse_examples(&posts, 5);
    let ids: Vec<i64> = picked.iter().map(|p| p.id).collect();
    assert_eq!(ids, vec![1, 2]);
    assert_eq!(picked[0].body, "one");
}

#[test]
fn diverse_examples_spread_over_repos_and_sorted_by_date() {
    let mut posts = Vec::new();
    for i in 0..6 {
        posts.push(post(
            i,
            "pr_comment",
            &"word ".repeat(i as usize + 1),
            Some("big/repo"),
            &format!("2024-02-0{}", i + 1),
        ));
    }
    posts.push(post(10, "pr_comment", "small repo post", Some("small/repo"), "2024-01-15"));
    posts.push(post(11, "pr_comment", "no repo post", None, "2024-03-01"));
    let picked = select_diverse_examples(&posts, 4);
    assert_eq!(picked.len(), 4);
    let repos: Vec<Option<String>> = picked.iter().map(|p| p.repo.clone()).collect();
    assert!(repos.contains(&Some("small/repo".to_string())));
    assert!(repos.contains(&None));
    for w in picked.windows(2) {
        assert!(w[0].created_at <= w[1].created_at);
    }
    let mut ids: Vec<i64> = picked.iter().map(|p| p.id).collect();
    ids.sort();
    ids.dedup();
    assert_eq!(ids.len(), 4);
    let idx = select_diverse_indices(&posts, 4);
    assert_eq!(idx.len(), 4);
    assert!(idx.iter().all(|&i| i < posts.len()));
}

#[test]
fn diverse_examples_never_repeat_an_id() {
    let posts = vec![
        post(7, "x", "a", Some("r1"), "2024-01-01"),
        post(7, "x", "a b", Some("r2"), "2024-01-02"),
        post(7, "x", "a b c", Some("r3"), "2024-01-03"),
        post(8, "x", "d", Some("r1"), "2024-01-04"),
    ];
    // The first round takes id 7 and meets it again in the other buckets;
    // the second round finds only id 7 again, so picking stops there.
    let picked = select_diverse_examples(&posts, 3);
    let ids: Vec<i64> = picked.iter().map(|p| p.id).collect();
    assert_eq!(ids, vec![7]);
}

#[test]
fn diverse_examples_alternate_ends_of_a_bucket() {
    let mut posts = Vec::new();
    for i in 0..6 {
        posts.push(post(
            i,
            "x",
            &"word ".repeat(i as usize + 1),
            Some("big/repo"),
            &format!("2024-02-0{}", i + 1),
        ));
    }
    posts.push(post(10, "x", "small", Some("small/repo"), "2024-01-15"));
    posts.push(post(11, "x", "none", None, "2024-03-01"));
    let picked = select_diverse_examples(&posts, 4);
    let ids: Vec<i64> = picked.iter().map(|p| p.id).collect();
    assert_eq!(ids, vec![10, 0, 4, 11]);
}

#[test]
fn sentences_are_trimmed_and_never_empty() {
    let sents = sentences("  first one.   \n\n second!  third  ");
    assert_eq!(sents, vec!["first one.", "second!", "third"]);
    for s in &sents {
        assert!(!s.is_empty());
        assert_eq!(s.trim(), *s);
    }
}

#[test]
fn character_totals() {
    assert_eq!(total_chars_checked(&["ab", "", "çé"]), Some(4));
    assert_eq!(total_chars_checked(&[]), Some(0));
    let posts = vec![post(1, "x", "hello", None, "2024-01-01")];
    assert_eq!(post_chars_checked(&posts), Some(5));
}

#[test]
fn sentences_keep_every_word() {
    let bodies = ["one. two three!four five? six\nseven.", "  ", "a.b. c"];
    let words: usize = bodies.iter().map(|b| word_count(b)).sum();
    let stats = sentence_stats(&bodies);
    assert_eq!(stats.total_sentence_words, words);
    assert_eq!(words, 8);
}

#[test]
fn stopwords_are_matched_on_lowered_text() {
    assert!(is_stopword("the"));
    assert!(is_stopword("might"));
    assert!(!is_stopword("The"));
    assert!(!is_stopword("fox"));
    assert!(!is_stopword(""));
}

#[test]
fn ranking_given_keys() {
    let keys: Vec<String> = ["b c", "a b", "b c", "x", "a b", "b c", "y", "y"]
        .iter()
        .map(|k| k.to_string())
        .collect();
    let top = rank_keys(&keys, 2);
    let got: Vec<(&str, usize)> = top.iter().map(|n| (n.words.as_str(), n.count)).collect();
    assert_eq!(got.len(), 2);
    assert_eq!(got[0], ("b c", 3));
    assert_eq!(got[1].1, 2);
    let all = rank_keys(&keys, 10);
    assert_eq!(all.len(), 3);
    assert!(all.iter().all(|n| n.words != "x"));
    assert!(rank_keys(&keys, 0).is_empty());
}

#[test]
fn punctuation_of_joined_posts_adds_up() {
    let a = ["a, b!", "c; d"];
    let b = ["e, f", "g."];
    let joined = [a[0], a[1], b[0], b[1]];
    let ia = punctuation_inventory(&a);
    let ib = punctuation_inventory(&b);
    let iab = punctuation_inventory(&joined);
    let get = |inv: &Vec<tone_clone::analyze::PunctuationEntry>, c: char| {
        inv.iter()
            .find(|e| e.char == c)
            .map(|e| (e.count, e.posts_with))
            .unwrap_or((0, 0))
    };
    for c in [',', '!', ';', '.', '?'] {
        let (ca, pa) = get(&ia, c);
        let (cb, pb) = get(&ib, c);
        assert_eq!(get(&iab, c), (ca + cb, pa + pb));
    }
    assert_eq!(get(&iab, ','), (2, 2));
}

#[test]
fn diverse_examples_of_one_date_keep_pick_order() {
    let mut posts = Vec::new();
    for i in 0..4 {
        posts.push(post(i, "x", &"w ".repeat(i as usize + 1), Some("a/a"), "2024-05-05"));
    }
    posts.push(post(10, "x", "w", Some("b/b"), "2024-05-05"));
    let picked = select_diverse_examples(&posts, 3);
    let ids: Vec<i64> = picked.iter().map(|p| p.id).collect();
    assert_eq!(ids, vec![0, 10, 2]);
}
