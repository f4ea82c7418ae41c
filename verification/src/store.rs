//! The statements that keep the configured sources and the scrape log, and
//! what is read back from their rows.

use vstd::prelude::*;

use crate::query::{
    column, int_view, lemma_last_placeholder, lemma_no_placeholders, lemma_placeholders_concat,
    param_views, placeholder_count, text_view, DbValue, ParamKind, Row, SqlParam, Statement,
};
use crate::source::github::{platform_name, GitHubScraper};
use crate::source::ScrapeResult;
use crate::text::str_eq;

verus! {

/// Adds a source: platform, username, AI cutoff date (or null).
pub const ADD_SOURCE_SQL: &'static str = "INSERT INTO sources (platform, username, ai_cutoff_date) VALUES (?, ?, ?)";

/// All sources, in the order they were added.
pub const ALL_SOURCES_SQL: &'static str = "SELECT * FROM sources ORDER BY id";

/// The source with an id.
pub const SOURCE_BY_ID_SQL: &'static str = "SELECT * FROM sources WHERE id = ?";

/// The cursor of the latest scrape of a source that left one.
pub const RESUME_CURSOR_SQL: &'static str = "SELECT cursor FROM scrape_log WHERE source_id = ? AND cursor IS NOT NULL ORDER BY id DESC LIMIT 1";

/// Starts a scrape log entry for a source.
pub const LOG_START_SQL: &'static str = "INSERT INTO scrape_log (source_id) VALUES (?)";

/// The id of the row inserted last, as `id`.
pub const LAST_ROWID_SQL: &'static str = "SELECT last_insert_rowid() as id";

/// Finishes a scrape log entry: the number of posts, the cursor, the id.
pub const LOG_FINISH_SQL: &'static str = "UPDATE scrape_log SET finished_at = datetime('now'), posts_fetched = ?, cursor = ? WHERE id = ?";

/// Placeholders of text that has none before position `k`.
proof fn lemma_placeholders_from(s: Seq<char>, k: int)
    requires
        0 <= k <= s.len(),
        forall|i: int| 0 <= i < k ==> s[i] != '?',
    ensures
        placeholder_count(s) == placeholder_count(s.skip(k)),
{
    lemma_no_placeholders(s.take(k));
    lemma_placeholders_concat(s.take(k), s.skip(k));
    assert(s.take(k) + s.skip(k) =~= s);
}

/// Each statement of this module has as many placeholders as it takes
/// parameters.
pub proof fn lemma_store_placeholders()
    ensures
        placeholder_count(ADD_SOURCE_SQL@) == 3,
        placeholder_count(ALL_SOURCES_SQL@) == 0,
        placeholder_count(SOURCE_BY_ID_SQL@) == 1,
        placeholder_count(RESUME_CURSOR_SQL@) == 1,
        placeholder_count(LOG_START_SQL@) == 1,
        placeholder_count(LAST_ROWID_SQL@) == 0,
        placeholder_count(LOG_FINISH_SQL@) == 3,
{
    reveal_strlit(
        "INSERT INTO sources (platform, username, ai_cutoff_date) VALUES (?, ?, ?)",
    );
    reveal_strlit("SELECT * FROM sources ORDER BY id");
    reveal_strlit("SELECT * FROM sources WHERE id = ?");
    reveal_strlit(
        "SELECT cursor FROM scrape_log WHERE source_id = ? AND cursor IS NOT NULL ORDER BY id DESC LIMIT 1",
    );
    reveal_strlit("INSERT INTO scrape_log (source_id) VALUES (?)");
    reveal_strlit("SELECT last_insert_rowid() as id");
    reveal_strlit(
        "UPDATE scrape_log SET finished_at = datetime('now'), posts_fetched = ?, cursor = ? WHERE id = ?",
    );
    let add = ADD_SOURCE_SQL@;
    lemma_placeholders_from(add, add.len() - 8);
    assert(add.skip(add.len() - 8) =~= seq!['?', ',', ' ', '?', ',', ' ', '?', ')']);
    reveal_with_fuel(placeholder_count, 14);
    lemma_no_placeholders(ALL_SOURCES_SQL@);
    lemma_last_placeholder(SOURCE_BY_ID_SQL@);
    let resume = RESUME_CURSOR_SQL@;
    lemma_placeholders_from(resume, 48);
    lemma_placeholders_concat(seq!['?'], resume.skip(49));
    assert(resume.skip(48) =~= seq!['?'] + resume.skip(49));
    lemma_no_placeholders(resume.skip(49));
    assert(placeholder_count(seq!['?']) == 1) by {
        assert(seq!['?'].drop_last() =~= Seq::<char>::empty());
    }
    let start = LOG_START_SQL@;
    lemma_placeholders_from(start, start.len() - 2);
    assert(start.skip(start.len() - 2) =~= seq!['?', ')']);
    lemma_no_placeholders(LAST_ROWID_SQL@);
    let finish = LOG_FINISH_SQL@;
    let middle = seq!['?', ',', ' ', 'c', 'u', 'r', 's', 'o', 'r', ' ', '=', ' ', '?'];
    lemma_placeholders_from(finish, 69);
    assert(finish.skip(69) =~= middle + finish.skip(82));
    lemma_last_placeholder(finish.skip(82));
    lemma_placeholders_concat(middle, finish.skip(82));
}

/// The statement that adds a source.
pub fn add_source_statement(platform: &str, username: &str, ai_cutoff: Option<&str>) -> (r:
    Statement)
    ensures
        r.sql@ == ADD_SOURCE_SQL@,
        param_views(r.params@) == seq![
            text_view(platform@),
            text_view(username@),
            match ai_cutoff {
                Some(c) => text_view(c@),
                None => (ParamKind::Null, Seq::empty(), 0i64),
            },
        ],
        placeholder_count(r.sql@) == r.params@.len(),
{
    proof {
        lemma_store_placeholders();
    }
    let mut params: Vec<SqlParam> = Vec::new();
    params.push(SqlParam::Text(platform.to_owned()));
    params.push(SqlParam::Text(username.to_owned()));
    params.push(
        match ai_cutoff {
            Some(c) => SqlParam::Text(c.to_owned()),
            None => SqlParam::Null,
        },
    );
    let r = Statement { sql: String::from_str(ADD_SOURCE_SQL), params };
    assert(param_views(r.params@) =~= seq![
        text_view(platform@),
        text_view(username@),
        match ai_cutoff {
            Some(c) => text_view(c@),
            None => (ParamKind::Null, Seq::empty(), 0i64),
        },
    ]);
    r
}

/// The statement that reads the sources to scrape: the one with the id,
/// or all of them.
pub fn sources_statement(source_id: Option<i64>) -> (r: Statement)
    ensures
        match source_id {
            Some(id) => r.sql@ == SOURCE_BY_ID_SQL@ && param_views(r.params@) == seq![int_view(id)],
            None => r.sql@ == ALL_SOURCES_SQL@ && r.params@.len() == 0,
        },
        placeholder_count(r.sql@) == r.params@.len(),
{
    proof {
        lemma_store_placeholders();
    }
    let mut params: Vec<SqlParam> = Vec::new();
    match source_id {
        Some(id) => {
            params.push(SqlParam::Int64(id));
            let r = Statement { sql: String::from_str(SOURCE_BY_ID_SQL), params };
            assert(param_views(r.params@) =~= seq![int_view(id)]);
            r
        },
        None => Statement { sql: String::from_str(ALL_SOURCES_SQL), params },
    }
}

/// A statement of fixed text with the id of a source or log entry as its
/// only parameter.
fn id_statement(sql: &str, id: i64) -> (r: Statement)
    ensures
        r.sql@ == sql@,
        param_views(r.params@) == seq![int_view(id)],
{
    let mut params: Vec<SqlParam> = Vec::new();
    params.push(SqlParam::Int64(id));
    let r = Statement { sql: String::from_str(sql), params };
    assert(param_views(r.params@) =~= seq![int_view(id)]);
    r
}

/// The statement that reads the cursor to resume a source's scrape from.
pub fn resume_cursor_statement(source_id: i64) -> (r: Statement)
    ensures
        r.sql@ == RESUME_CURSOR_SQL@,
        param_views(r.params@) == seq![int_view(source_id)],
        placeholder_count(r.sql@) == r.params@.len(),
{
    proof {
        lemma_store_placeholders();
    }
    let r = id_statement(RESUME_CURSOR_SQL, source_id);
    assert(param_views(r.params@).len() == r.params@.len());
    r
}

/// The statement that starts the log entry of a source's scrape.
pub fn log_start_statement(source_id: i64) -> (r: Statement)
    ensures
        r.sql@ == LOG_START_SQL@,
        param_views(r.params@) == seq![int_view(source_id)],
        placeholder_count(r.sql@) == r.params@.len(),
{
    proof {
        lemma_store_placeholders();
    }
    let r = id_statement(LOG_START_SQL, source_id);
    assert(param_views(r.params@).len() == r.params@.len());
    r
}

/// The text of the first row's column, when it is a string.
pub open spec fn first_text(rows: Seq<Row>, name: Seq<char>) -> Option<Seq<char>> {
    if rows.len() == 0 {
        None
    } else {
        match column(rows[0].columns@, name) {
            Some(DbValue::String(s)) => Some(s@),
            _ => None,
        }
    }
}

/// The integer of the first row's column; 0 when there is no row, or the
/// column is missing or not an integer.
pub open spec fn first_int(rows: Seq<Row>, name: Seq<char>) -> i64 {
    if rows.len() == 0 {
        0
    } else {
        match column(rows[0].columns@, name) {
            Some(DbValue::Int64(n)) => n,
            _ => 0,
        }
    }
}

/// The cursor to resume from, read from the rows of the resume statement.
pub fn resume_cursor(rows: &[Row]) -> (r: Option<String>)
    ensures
        match r {
            Some(c) => first_text(rows@, "cursor"@) == Some(c@),
            None => first_text(rows@, "cursor"@) is None,
        },
{
    if rows.len() == 0 {
        return None;
    }
    match rows[0].get("cursor") {
        Some(DbValue::String(s)) => Some(s.clone()),
        _ => None,
    }
}

/// The id of the new log entry, read from the rows of [`LAST_ROWID_SQL`].
pub fn log_id(rows: &[Row]) -> (r: i64)
    ensures
        r == first_int(rows@, "id"@),
{
    if rows.len() == 0 {
        return 0;
    }
    match rows[0].get("id") {
        Some(DbValue::Int64(n)) => *n,
        _ => 0,
    }
}

/// The statement that finishes a log entry with the outcome of its scrape.
pub fn log_finish_statement(result: &ScrapeResult, log_id: i64) -> (r: Statement)
    ensures
        r.sql@ == LOG_FINISH_SQL@,
        param_views(r.params@) == seq![
            int_view(result.posts_fetched),
            match result.cursor {
                Some(c) => text_view(c@),
                None => (ParamKind::Null, Seq::empty(), 0i64),
            },
            int_view(log_id),
        ],
        placeholder_count(r.sql@) == r.params@.len(),
{
    proof {
        lemma_store_placeholders();
    }
    let mut params: Vec<SqlParam> = Vec::new();
    params.push(SqlParam::Int64(result.posts_fetched));
    params.push(
        match &result.cursor {
            Some(c) => SqlParam::Text(c.clone()),
            None => SqlParam::Null,
        },
    );
    params.push(SqlParam::Int64(log_id));
    let r = Statement { sql: String::from_str(LOG_FINISH_SQL), params };
    assert(param_views(r.params@) =~= seq![
        int_view(result.posts_fetched),
        match result.cursor {
            Some(c) => text_view(c@),
            None => (ParamKind::Null, Seq::empty(), 0i64),
        },
        int_view(log_id),
    ]);
    r
}

/// The scraper of a platform: GitHub's for `github`, none for any other.
pub fn scraper_for(platform: &str) -> (r: Option<GitHubScraper>)
    ensures
        r is Some <==> platform@ == platform_name(),
{
    if str_eq(platform, "github") {
        Some(GitHubScraper::new())
    } else {
        None
    }
}

} // verus!
