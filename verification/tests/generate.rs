use tone_clone::analyze::{build_profile, type_summaries};
use tone_clone::generate::{
    example_types, examples_file_name, posts_of_type, render_examples, render_voice_profile,
    GenerateOpts, ProfileFigures, TypeFigures, VOICE_PROFILE_FILE,
};
use tone_clone::models::Post;
use tone_clone::text::push_decimal;

fn post(id: i64, post_type: &str, body: &str, url: Option<&str>, repo: Option<&str>) -> Post {
    Post {
        id,
        source_id: 1,
        external_id: format!("ext-{id}"),
        post_type: post_type.to_string(),
        body: body.to_string(),
        url: url.map(|u| u.to_string()),
        repo: repo.map(|r| r.to_string()),
        created_at: format!("2024-01-0{id}"),
        likely_ai: false,
        scraped_at: "2024-02-01".to_string(),
    }
}

fn figures() -> ProfileFigures {
    ProfileFigures {
        avg_words: "3.5".to_string(),
        median_words: "3.0".to_string(),
        avg_sentence_words: "2.1".to_string(),
        avg_sentences_per_post: "1.5".to_string(),
        lowercase_start_pct: "50".to_string(),
        contraction_pct: "0".to_string(),
        question_pct: "100".to_string(),
    }
}

#[test]
fn decimal_rendering() {
    let mut s = String::from("n=");
    push_decimal(&mut s, 0);
    assert_eq!(s, "n=0");
    let mut s = String::new();
    push_decimal(&mut s, 1234567);
    assert_eq!(s, "1234567");
    let mut s = String::new();
    push_decimal(&mut s, 10);
    assert_eq!(s, "10");
}

#[test]
fn examples_file_layout() {
    let a = post(1, "pr_comment", "first body", Some("https://x/1"), Some("o/r"));
    let b = post(2, "pr_comment", "second body", Some(""), None);
    let out = render_examples("pr_comment", &[&a, &b]);
    assert_eq!(
        out,
        "# Examples: pr_comment\n\n2 curated examples.\n\n\
         ## 1 (o/r, 2024-01-01)\n\nhttps://x/1\n\nfirst body\n\n---\n\n\
         ## 2 (unknown, 2024-01-02)\n\nsecond body\n\n---\n\n"
    );
    let none: [&Post; 0] = [];
    assert_eq!(render_examples("x", &none), "# Examples: x\n\n0 curated examples.\n\n");
}

#[test]
fn voice_profile_layout() {
    let bodies = ["Use `x` | y, ok?", "fine, done."];
    let profile = build_profile(&bodies);
    let posts = vec![post(1, "issue_body", bodies[0], None, None)];
    let sums = type_summaries(&posts);
    let tf = vec![TypeFigures {
        avg_words: "6.0".to_string(),
        median_words: "6.0".to_string(),
        lowercase_start_pct: "0".to_string(),
        question_pct: "100".to_string(),
    }];
    let out = render_voice_profile(&profile, &sums, &figures(), &tf);
    assert!(out.starts_with(
        "# Voice Profile\n\nGenerated from 2 authentic posts.\n\n## Word Count\n\n\
         | Metric | Value |\n|---|---|\n| Average | 3.5 |\n| Median | 3.0 |\n| Min | 2 |\n| Max | 5 |\n\n\
         ## Sentence Structure\n\n| Metric | Value |\n|---|---|\n| Avg words per sentence | 2.1 |\n\
         | Avg sentences per post | 1.5 |\n\n## Style Patterns\n\n| Pattern | Rate |\n|---|---|\n\
         | Starts with lowercase | 50% |\n| Contains contractions | 0% |\n| Contains questions | 100% |\n\n\
         ## Punctuation Inventory\n\n| Char | Total uses | Posts containing |\n|---|---|---|\n"
    ));
    assert!(out.contains("| `,` | 2 | 2 |\n"));
    assert!(out.contains("| `` ` `` | 2 | 1 |\n"));
    assert!(out.contains("| `?` | 1 | 1 |\n"));
    assert!(out.contains(
        "\n**Notable absences:** semicolons (`;`), em-dashes (`\u{2014}`) and en-dashes (`\u{2013}`) are not used in authentic writing.\n\n"
    ));
    assert!(!out.contains("## Common Bigrams"));
    assert!(out.ends_with(
        "## By Post Type\n\n| Type | Count | Avg words | Median words | Lowercase start | Questions |\n\
         |---|---|---|---|---|---|\n| issue_body | 1 | 6.0 | 6.0 | 0% | 100% |\n\n"
    ));
}

#[test]
fn voice_profile_notes_only_missing_punctuation() {
    let bodies = ["a; b \u{2013} c", "a b"];
    let profile = build_profile(&bodies);
    let out = render_voice_profile(&profile, &[], &figures(), &[]);
    assert!(!out.contains("Notable absences"));
    let bodies = ["a; b", "a b"];
    let profile = build_profile(&bodies);
    let out = render_voice_profile(&profile, &[], &figures(), &[]);
    assert!(out.contains(
        "\n**Notable absences:** em-dashes (`\u{2014}`) and en-dashes (`\u{2013}`) are not used in authentic writing.\n"
    ));
}

#[test]
fn voice_profile_lists_repeated_phrases() {
    let bodies = ["quick brown fox", "quick brown fox jumps", "a quick brown fox"];
    let profile = build_profile(&bodies);
    let out = render_voice_profile(&profile, &[], &figures(), &[]);
    assert!(out.contains("## Common Bigrams\n\n| Phrase | Count |\n|---|---|\n"));
    assert!(out.contains("| quick brown | 3 |\n"));
    assert!(out.contains("## Common Trigrams\n\n| Phrase | Count |\n|---|---|\n| quick brown fox | 3 |\n"));
}

#[test]
fn example_file_names() {
    assert_eq!(examples_file_name("pr_comment"), "examples-pr_comment.md");
    assert_eq!(VOICE_PROFILE_FILE, "voice-profile.md");
}

#[test]
fn example_types_by_mode() {
    let posts = vec![
        post(1, "review_body", "a", None, None),
        post(2, "pr_comment", "b", None, None),
        post(3, "pr_comment", "c", None, None),
        post(4, "issue_body", "d", None, None),
    ];
    let sums = type_summaries(&posts);
    let files = example_types(false, None, &sums);
    let in_order: Vec<String> = sums.iter().map(|s| s.post_type.clone()).collect();
    assert_eq!(files, in_order);
    assert_eq!(files[0], "pr_comment");
    assert_eq!(example_types(true, None, &sums), vec!["issue_body", "pr_comment", "review_body"]);
    assert_eq!(example_types(true, Some("pr_body"), &sums), vec!["pr_body"]);
}

#[test]
fn posts_of_one_type_in_order() {
    let posts = vec![
        post(1, "a", "x", None, None),
        post(2, "b", "y", None, None),
        post(3, "a", "z", Some("u"), Some("r")),
    ];
    let of_a = posts_of_type(&posts, "a");
    assert_eq!(of_a.len(), 2);
    assert_eq!((of_a[0].id, of_a[1].id), (1, 3));
    assert_eq!(of_a[1].repo.as_deref(), Some("r"));
    assert!(posts_of_type(&posts, "c").is_empty());
}

#[test]
fn default_generate_options() {
    let opts = GenerateOpts::new("/tmp/profiles".to_string());
    assert_eq!(opts.output_dir, "/tmp/profiles");
    assert!(!opts.stdout);
    assert!(opts.post_type.is_none() && opts.topic.is_none() && opts.source_id.is_none());
    assert_eq!(opts.limit, 10);
    assert!(opts.exclude_ai);
}
