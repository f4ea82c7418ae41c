use tone_clone::query::{DbValue, Row, SqlParam};
use tone_clone::source::ScrapeResult;
use tone_clone::store::{
    add_source_statement, log_finish_statement, log_id, log_start_statement, resume_cursor,
    resume_cursor_statement, scraper_for, sources_statement, LAST_ROWID_SQL,
};

fn row(cols: &[(&str, DbValue)]) -> Row {
    Row { columns: cols.iter().map(|(n, v)| (n.to_string(), v.clone())).collect() }
}

fn q(sql: &str) -> usize {
    sql.chars().filter(|c| *c == '?').count()
}

#[test]
fn adding_a_source() {
    let st = add_source_statement("github", "alice", Some("2023-01-01"));
    assert_eq!(
        st.sql,
        "INSERT INTO sources (platform, username, ai_cutoff_date) VALUES (?, ?, ?)"
    );
    assert!(matches!(&st.params[..], [SqlParam::Text(p), SqlParam::Text(u), SqlParam::Text(c)]
        if p == "github" && u == "alice" && c == "2023-01-01"));
    let st = add_source_statement("github", "bob", None);
    assert!(matches!(st.params[2], SqlParam::Null));
    assert_eq!(q(&st.sql), st.params.len());
}

#[test]
fn choosing_sources_to_scrape() {
    let all = sources_statement(None);
    assert_eq!(all.sql, "SELECT * FROM sources ORDER BY id");
    assert!(all.params.is_empty());
    let one = sources_statement(Some(3));
    assert_eq!(one.sql, "SELECT * FROM sources WHERE id = ?");
    assert!(matches!(one.params[..], [SqlParam::Int64(3)]));
}

#[test]
fn scrape_log_statements() {
    let st = resume_cursor_statement(5);
    assert_eq!(q(&st.sql), 1);
    assert!(matches!(st.params[..], [SqlParam::Int64(5)]));
    let st = log_start_statement(5);
    assert_eq!(st.sql, "INSERT INTO scrape_log (source_id) VALUES (?)");
    assert!(matches!(st.params[..], [SqlParam::Int64(5)]));
    assert_eq!(LAST_ROWID_SQL, "SELECT last_insert_rowid() as id");
    let done = ScrapeResult { posts_fetched: 42, cursor: None };
    let st = log_finish_statement(&done, 9);
    assert_eq!(q(&st.sql), 3);
    assert!(matches!(st.params[..], [SqlParam::Int64(42), SqlParam::Null, SqlParam::Int64(9)]));
    let part = ScrapeResult { posts_fetched: 1, cursor: Some("Y3Vyc29y".to_string()) };
    let st = log_finish_statement(&part, 2);
    assert!(matches!(&st.params[1], SqlParam::Text(c) if c == "Y3Vyc29y"));
}

#[test]
fn reading_cursor_and_log_id() {
    assert_eq!(resume_cursor(&[]), None);
    assert_eq!(
        resume_cursor(&[row(&[("cursor", DbValue::String("abc".to_string()))])]),
        Some("abc".to_string())
    );
    assert_eq!(resume_cursor(&[row(&[("cursor", DbValue::Null)])]), None);
    assert_eq!(log_id(&[row(&[("id", DbValue::Int64(17))])]), 17);
    assert_eq!(log_id(&[]), 0);
    assert_eq!(log_id(&[row(&[("id", DbValue::Other)])]), 0);
}

#[test]
fn only_github_has_a_scraper() {
    let s = scraper_for("github").expect("github scraper");
    assert_eq!(s.platform(), "github");
    assert!(scraper_for("gitlab").is_none());
    assert!(scraper_for("GitHub").is_none());
}
