use tone_clone::models::Source;
use tone_clone::source::github::{
    is_blank, likely_ai, page_rows, GitHubScraper, GqlComment, GqlReview, Pass, PostKind,
    ScrapeError, ScrapeState, SearchNode, SearchResponse,
};

fn s(x: &str) -> Option<String> {
    Some(x.to_string())
}

fn comment(id: &str, body: &str, author: &str) -> GqlComment {
    GqlComment {
        id: s(id),
        body: s(body),
        url: s(&format!("https://gh/{id}")),
        created_at: s("2024-05-01T00:00:00Z"),
        author_login: s(author),
    }
}

fn source(cutoff: Option<&str>) -> Source {
    Source {
        id: 3,
        platform: "github".to_string(),
        username: "alice".to_string(),
        ai_cutoff_date: cutoff.map(|c| c.to_string()),
        created_at: "2024-01-01".to_string(),
    }
}

fn pr_node() -> SearchNode {
    SearchNode {
        id: s("PR1"),
        body: s("My PR body"),
        url: s("https://gh/pr1"),
        created_at: s("2022-01-01T00:00:00Z"),
        repo: s("o/r"),
        is_pr: true,
        comments: Some(vec![
            comment("C1", "my comment", "alice"),
            comment("C2", "not mine", "bob"),
            comment("C3", "   ", "alice"),
        ]),
        reviews: Some(vec![
            GqlReview {
                id: s("R1"),
                body: s(""),
                url: None,
                created_at: s("2024-06-01T00:00:00Z"),
                author_login: s("alice"),
                comments: Some(vec![comment("RC1", "inline note", "alice")]),
            },
            GqlReview {
                id: s("R2"),
                body: s("Approved"),
                url: None,
                created_at: s("2024-06-02T00:00:00Z"),
                author_login: s("bob"),
                comments: Some(vec![comment("RC2", "bob inline", "bob")]),
            },
        ]),
    }
}

fn issue_node() -> SearchNode {
    SearchNode {
        id: s("I1"),
        body: s("Issue text"),
        url: s("https://gh/i1"),
        created_at: s("2021-03-01T00:00:00Z"),
        repo: None,
        is_pr: false,
        comments: Some(vec![comment("C9", "issue reply", "alice")]),
        reviews: None,
    }
}

fn page(nodes: Vec<SearchNode>, next: Option<bool>, cursor: Option<&str>) -> SearchResponse {
    SearchResponse {
        errors: None,
        nodes: Some(nodes),
        has_next_page: next,
        end_cursor: cursor.map(|c| c.to_string()),
    }
}

#[test]
fn scraper_platform() {
    assert_eq!(GitHubScraper::new().platform(), "github");
}

#[test]
fn authored_pass_stores_bodies_comments_and_reviews() {
    let src = source(Some("2023-01-01"));
    let rows = page_rows(&src, &page(vec![pr_node(), issue_node()], Some(false), None), true).unwrap();
    let got: Vec<(&str, &str, Option<&str>, Option<&str>, i64)> = rows
        .iter()
        .map(|r| {
            (
                r.external_id.as_str(),
                r.kind.as_str(),
                r.url.as_deref(),
                r.repo.as_deref(),
                r.likely_ai,
            )
        })
        .collect();
    assert_eq!(
        got,
        vec![
            ("PR1", "pr_body", Some("https://gh/pr1"), Some("o/r"), 0),
            ("C1", "pr_comment", Some("https://gh/C1"), Some("o/r"), 1),
            ("RC1", "review_comment", Some("https://gh/RC1"), Some("o/r"), 1),
            ("I1", "issue_body", Some("https://gh/i1"), Some(""), 0),
            ("C9", "issue_comment", Some("https://gh/C9"), Some(""), 1),
        ]
    );
    assert!(rows.iter().all(|r| r.source_id == 3));
    assert_eq!(rows[0].body, "My PR body");
}

#[test]
fn commented_pass_skips_item_text() {
    let src = source(None);
    let rows = page_rows(&src, &page(vec![pr_node(), issue_node()], None, None), false).unwrap();
    let ids: Vec<&str> = rows.iter().map(|r| r.external_id.as_str()).collect();
    assert_eq!(ids, vec!["C1", "RC1", "C9"]);
    assert!(rows.iter().all(|r| r.likely_ai == 0));
    assert!(rows.iter().all(|r| r.kind != PostKind::PrBody && r.kind != PostKind::IssueBody));
}

#[test]
fn review_text_is_kept_when_not_empty() {
    let mut node = pr_node();
    if let Some(reviews) = node.reviews.as_mut() {
        reviews[0].body = s("Please rename");
        reviews[0].url = s("https://gh/R1");
    }
    let rows = page_rows(&source(None), &page(vec![node], None, None), false).unwrap();
    let got: Vec<(&str, &str, Option<&str>)> = rows
        .iter()
        .map(|r| (r.external_id.as_str(), r.kind.as_str(), r.url.as_deref()))
        .collect();
    assert_eq!(
        got,
        vec![
            ("C1", "pr_comment", Some("https://gh/C1")),
            ("R1", "review_body", Some("https://gh/R1")),
            ("RC1", "review_comment", Some("https://gh/RC1")),
        ]
    );
}

#[test]
fn incomplete_items_are_skipped() {
    let mut node = issue_node();
    node.url = None;
    let mut c = comment("C5", "hi", "alice");
    c.created_at = None;
    node.comments = Some(vec![c, comment("C6", "ok", "alice")]);
    let rows = page_rows(&source(None), &page(vec![node], None, None), true).unwrap();
    let ids: Vec<&str> = rows.iter().map(|r| r.external_id.as_str()).collect();
    assert_eq!(ids, vec!["C6"]);
}

#[test]
fn refused_pages() {
    let src = source(None);
    let with_errors = SearchResponse {
        errors: s("[{\"message\":\"bad\"}]"),
        nodes: Some(vec![]),
        has_next_page: None,
        end_cursor: None,
    };
    match page_rows(&src, &with_errors, true) {
        Err(e) => assert_eq!(e.message(), "GraphQL errors: [{\"message\":\"bad\"}]"),
        Ok(_) => panic!("errors must be refused"),
    }
    let without_nodes = SearchResponse { errors: None, nodes: None, has_next_page: None, end_cursor: None };
    match page_rows(&src, &without_nodes, true) {
        Err(e) => {
            assert!(matches!(e, ScrapeError::MissingNodes));
            assert_eq!(e.message(), "missing search nodes");
        },
        Ok(_) => panic!("a page without items must be refused"),
    }
}

#[test]
fn blank_and_cutoff_rules() {
    assert!(is_blank(""));
    assert!(is_blank(" \n\t\u{3000}"));
    assert!(!is_blank(" x "));
    assert_eq!(likely_ai(&None, "2030-01-01"), 0);
    assert_eq!(likely_ai(&s("2023-01-01"), "2023-01-01"), 0);
    assert_eq!(likely_ai(&s("2023-01-01"), "2023-01-01T00:00:00Z"), 1);
    assert_eq!(likely_ai(&s("2023-01-01"), "2022-12-31"), 0);
}

#[test]
fn a_scrape_runs_both_passes_page_by_page() {
    let mut st = ScrapeState::start(Some("CUR0"));
    let req = st.next_request("alice").unwrap();
    assert_eq!(req.search_query, "author:alice");
    assert!(req.query.contains("first: 50, after: \"CUR0\") {"));
    assert!(req.query.contains("... on Issue {\n                id\n"));

    st.record_insert(1);
    st.record_insert(0);
    st.record_insert(1);
    assert_eq!(st.authored_count, 2);
    st.advance(&page(vec![], Some(true), Some("CUR1")));
    assert_eq!(st.pass, Pass::Authored);
    assert_eq!(st.cursor.as_deref(), Some("CUR1"));
    assert!(st.next_request("alice").unwrap().query.contains("after: \"CUR1\""));

    st.advance(&page(vec![], Some(false), Some("IGNORED")));
    assert_eq!(st.pass, Pass::Commented);
    assert!(st.cursor.is_none());
    let req = st.next_request("alice").unwrap();
    assert_eq!(req.search_query, "commenter:alice -author:alice");
    assert!(req.query.contains("first: 50) {"));
    assert!(!req.query.contains("after:"));
    assert!(!req.query.contains("... on Issue {\n                id\n"));

    st.record_insert(5);
    assert_eq!((st.authored_count, st.commented_count), (2, 1));
    st.advance(&page(vec![], None, None));
    assert_eq!(st.pass, Pass::Finished);
    assert!(st.next_request("alice").is_none());
    let result = st.finish();
    assert_eq!(result.posts_fetched, 3);
    assert!(result.cursor.is_none());
}

#[test]
fn rows_follow_the_running_pass() {
    let src = source(None);
    let mut st = ScrapeState::start(None);
    let first = st.rows(&src, &page(vec![issue_node()], Some(false), None)).unwrap();
    assert_eq!(first.len(), 2);
    st.advance(&page(vec![], Some(false), None));
    let second = st.rows(&src, &page(vec![issue_node()], Some(false), None)).unwrap();
    assert_eq!(second.len(), 1);
    assert_eq!(second[0].kind.as_str(), "issue_comment");
}
