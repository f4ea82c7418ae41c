use tone_clone::query::{
    count_from_rows, display_body, posts_statement, search_statement, source_counts,
    stats_from_rows, stats_statements, type_counts, DbValue, Row, SqlParam, Statement,
};

fn row(cols: &[(&str, DbValue)]) -> Row {
    Row { columns: cols.iter().map(|(n, v)| (n.to_string(), v.clone())).collect() }
}

fn text(s: &str) -> DbValue {
    DbValue::String(s.to_string())
}

fn placeholders(st: &Statement) -> usize {
    st.sql.chars().filter(|c| *c == '?').count()
}

fn param_text(p: &SqlParam) -> Option<&str> {
    match p {
        SqlParam::Text(t) => Some(t.as_str()),
        _ => None,
    }
}

fn param_int(p: &SqlParam) -> Option<i64> {
    match p {
        SqlParam::Int64(n) => Some(*n),
        _ => None,
    }
}

#[test]
fn search_without_filters() {
    let st = search_statement("rust async", false, None, 20);
    assert_eq!(
        st.sql,
        "SELECT p.* FROM posts p\n         JOIN posts_fts ON posts_fts.rowid = p.id\n         WHERE posts_fts MATCH ?\n         ORDER BY rank\n         LIMIT ?"
    );
    assert_eq!(st.params.len(), 2);
    assert_eq!(param_text(&st.params[0]), Some("rust async"));
    assert_eq!(param_int(&st.params[1]), Some(20));
    assert_eq!(placeholders(&st), st.params.len());
}

#[test]
fn search_with_all_filters() {
    let types = ["pr_comment", "issue_body"];
    let st = search_statement("fix", true, Some(&types), 5);
    assert!(st.sql.contains(
        "WHERE posts_fts MATCH ? AND p.likely_ai = 0 AND p.post_type IN (?, ?)\n"
    ));
    let texts: Vec<Option<&str>> = st.params.iter().map(param_text).collect();
    assert_eq!(texts, vec![Some("fix"), Some("pr_comment"), Some("issue_body"), None]);
    assert_eq!(param_int(&st.params[3]), Some(5));
    assert_eq!(placeholders(&st), st.params.len());
}

#[test]
fn search_with_empty_type_list_has_no_type_filter() {
    let types: [&str; 0] = [];
    let st = search_statement("x", false, Some(&types), 1);
    assert!(!st.sql.contains("post_type"));
    assert_eq!(st.params.len(), 2);
}

#[test]
fn stats_statements_with_and_without_source() {
    let all = stats_statements(None);
    assert_eq!(all.total.sql, "SELECT COUNT(*) as cnt FROM posts ");
    assert_eq!(all.authentic.sql, "SELECT COUNT(*) as cnt FROM posts WHERE likely_ai = 0");
    assert_eq!(
        all.by_type.sql,
        "SELECT post_type, COUNT(*) as cnt FROM posts  GROUP BY post_type ORDER BY cnt DESC"
    );
    assert!(all.by_source.sql.contains("GROUP BY s.id ORDER BY cnt DESC"));
    for st in [&all.total, &all.authentic, &all.by_type, &all.by_source] {
        assert!(st.params.is_empty());
        assert_eq!(placeholders(st), 0);
    }
    let one = stats_statements(Some(4));
    assert_eq!(one.total.sql, "SELECT COUNT(*) as cnt FROM posts WHERE source_id = ?");
    assert_eq!(
        one.authentic.sql,
        "SELECT COUNT(*) as cnt FROM posts WHERE likely_ai = 0 AND source_id = ?"
    );
    for st in [&one.total, &one.authentic, &one.by_type, &one.by_source] {
        assert_eq!(st.params.len(), 1);
        assert_eq!(param_int(&st.params[0]), Some(4));
        assert_eq!(placeholders(st), 1);
    }
}

#[test]
fn row_get_takes_the_first_column_of_a_name() {
    let r = row(&[("cnt", DbValue::Int64(3)), ("cnt", DbValue::Int64(9))]);
    assert!(matches!(r.get("cnt"), Some(DbValue::Int64(3))));
    assert!(r.get("missing").is_none());
}

#[test]
fn counts_read_from_rows() {
    assert_eq!(count_from_rows(&[]), 0);
    assert_eq!(count_from_rows(&[row(&[("cnt", DbValue::Int64(12))])]), 12);
    assert_eq!(count_from_rows(&[row(&[("cnt", text("12"))])]), 0);
    assert_eq!(count_from_rows(&[row(&[("n", DbValue::Int64(12))])]), 0);
}

#[test]
fn counts_by_type_and_source_skip_malformed_rows() {
    let types = type_counts(&[
        row(&[("post_type", text("pr_comment")), ("cnt", DbValue::Int64(5))]),
        row(&[("post_type", DbValue::Null), ("cnt", DbValue::Int64(2))]),
        row(&[("post_type", text("issue_body")), ("cnt", DbValue::Other)]),
        row(&[("cnt", DbValue::Int64(1)), ("post_type", text("review_body"))]),
    ]);
    assert_eq!(
        types,
        vec![("pr_comment".to_string(), 5), ("review_body".to_string(), 1)]
    );
    let sources = source_counts(&[
        row(&[("platform", text("github")), ("username", text("al")), ("cnt", DbValue::Int64(7))]),
        row(&[("platform", text("github")), ("cnt", DbValue::Int64(1))]),
    ]);
    assert_eq!(sources, vec![("github".to_string(), "al".to_string(), 7)]);
}

#[test]
fn stats_from_rows_derives_likely_ai() {
    let stats = stats_from_rows(
        &[row(&[("cnt", DbValue::Int64(10))])],
        &[row(&[("cnt", DbValue::Int64(7))])],
        &[],
        &[],
    );
    assert_eq!(stats.total_posts, 10);
    assert_eq!(stats.authentic_posts, 7);
    assert_eq!(stats.likely_ai_posts, 3);
    assert!(stats.by_type.is_empty() && stats.by_source.is_empty());
}

#[test]
fn posts_statement_variants() {
    let all = posts_statement(false, None, None, None);
    assert_eq!(all.sql, "SELECT p.* FROM posts p ORDER BY p.created_at");
    assert!(all.params.is_empty());
    let some = posts_statement(true, Some("pr_comment"), Some("async"), Some(2));
    assert_eq!(
        some.sql,
        "SELECT p.* FROM posts p JOIN posts_fts ON posts_fts.rowid = p.id WHERE posts_fts MATCH ? AND p.likely_ai = 0 AND p.post_type = ? AND p.source_id = ? ORDER BY p.created_at"
    );
    let texts: Vec<Option<&str>> = some.params.iter().map(param_text).collect();
    assert_eq!(texts, vec![Some("async"), Some("pr_comment"), None]);
    assert_eq!(param_int(&some.params[2]), Some(2));
    assert_eq!(placeholders(&some), some.params.len());
    let ai = posts_statement(true, None, None, None);
    assert_eq!(ai.sql, "SELECT p.* FROM posts p WHERE p.likely_ai = 0 ORDER BY p.created_at");
}

#[test]
fn long_bodies_are_cut_for_display() {
    assert_eq!(display_body("short"), "short");
    let exact = "a".repeat(500);
    assert_eq!(display_body(&exact), exact);
    let long = "b".repeat(501);
    assert_eq!(display_body(&long), format!("{}...", "b".repeat(500)));
    let mixed = format!("{}{}", "c".repeat(498), "éé");
    assert_eq!(display_body(&mixed), format!("{}é...", "c".repeat(498)));
}
