//! The statements that search and summarise the stored posts, and what is
//! read back from their rows.
//!
//! A statement is SQL text with `?` placeholders and the parameters bound to
//! them in order; the caller runs it and hands the rows back.

use vstd::prelude::*;

use crate::analyze::str_views;
use crate::models::Stats;
use crate::text::str_eq;
use vstd::string::StringSliceAdditionalSpecFns;

verus! {

/// A parameter bound to a placeholder of a statement.
#[derive(Clone, Debug)]
pub enum SqlParam {
    Null,
    Int64(i64),
    Text(String),
}

/// SQL text and the parameters of its placeholders, in order.
#[derive(Debug)]
pub struct Statement {
    pub sql: String,
    pub params: Vec<SqlParam>,
}

/// A value read from a row. Values of other types than those the summaries
/// read are `Other`.
#[derive(Clone, Debug)]
pub enum DbValue {
    Null,
    Int64(i64),
    String(String),
    Other,
}

/// A row of a result: its columns, by name, in order.
#[derive(Clone, Debug)]
pub struct Row {
    pub columns: Vec<(String, DbValue)>,
}

/// The value of the first column named `name`, if any.
pub open spec fn column(cols: Seq<(String, DbValue)>, name: Seq<char>) -> Option<DbValue>
    decreases cols.len(),
{
    if cols.len() == 0 {
        None
    } else if cols[0].0@ == name {
        Some(cols[0].1)
    } else {
        column(cols.drop_first(), name)
    }
}

impl Row {
    /// The value of the first column named `name`, if any.
    pub fn get(&self, name: &str) -> (r: Option<&DbValue>)
        ensures
            match r {
                Some(v) => column(self.columns@, name@) == Some(*v),
                None => column(self.columns@, name@) is None,
            },
    {
        let ghost cols = self.columns@;
        let mut i: usize = 0;
        assert(cols.skip(0) =~= cols);
        while i < self.columns.len()
            invariant
                cols == self.columns@,
                i <= cols.len(),
                column(cols, name@) == column(cols.skip(i as int), name@),
            decreases cols.len() - i,
        {
            proof {
                assert(cols.skip(i as int).drop_first() =~= cols.skip(i + 1));
                assert(cols.skip(i as int)[0] == cols[i as int]);
            }
            if str_eq(self.columns[i].0.as_str(), name) {
                return Some(&self.columns[i].1);
            }
            i = i + 1;
        }
        None
    }
}

/// The number of `?` placeholders in SQL text.
pub open spec fn placeholder_count(s: Seq<char>) -> nat
    decreases s.len(),
{
    if s.len() == 0 {
        0
    } else {
        placeholder_count(s.drop_last()) + if s.last() == '?' {
            1nat
        } else {
            0nat
        }
    }
}

/// Placeholders add up over concatenation.
pub proof fn lemma_placeholders_concat(a: Seq<char>, b: Seq<char>)
    ensures
        placeholder_count(a + b) == placeholder_count(a) + placeholder_count(b),
    decreases b.len(),
{
    if b.len() > 0 {
        lemma_placeholders_concat(a, b.drop_last());
        assert((a + b).drop_last() =~= a + b.drop_last());
    } else {
        assert(a + b =~= a);
    }
}

/// Text without a `?` has no placeholders.
pub proof fn lemma_no_placeholders(s: Seq<char>)
    requires
        forall|i: int| 0 <= i < s.len() ==> s[i] != '?',
    ensures
        placeholder_count(s) == 0,
    decreases s.len(),
{
    if s.len() > 0 {
        lemma_no_placeholders(s.drop_last());
    }
}

/// A single character is a placeholder when it is `?`.
proof fn lemma_single(c: char)
    ensures
        placeholder_count(seq![c]) == if c == '?' {
            1nat
        } else {
            0nat
        },
{
    assert(seq![c].drop_last() =~= Seq::<char>::empty());
    assert(placeholder_count(Seq::<char>::empty()) == 0);
    assert(seq![c].last() == c);
}

/// Text that is a single `?`.
proof fn lemma_one_placeholder()
    ensures
        placeholder_count("?"@) == 1,
{
    reveal_strlit("?");
    assert("?"@ =~= seq!['?']);
    lemma_single('?');
}

/// Text whose only `?` is its last character has one placeholder.
pub proof fn lemma_last_placeholder(s: Seq<char>)
    requires
        s.len() > 0,
        s.last() == '?',
        forall|i: int| 0 <= i < s.len() - 1 ==> s[i] != '?',
    ensures
        placeholder_count(s) == 1,
{
    lemma_no_placeholders(s.drop_last());
}

/// Conditions joined by ` AND `.
pub open spec fn join_and(cs: Seq<Seq<char>>) -> Seq<char>
    decreases cs.len(),
{
    if cs.len() == 0 {
        Seq::empty()
    } else if cs.len() == 1 {
        cs[0]
    } else {
        join_and(cs.drop_last()) + " AND "@ + cs.last()
    }
}

/// Placeholders of conditions joined by ` AND `: those of the conditions.
pub open spec fn placeholders_of(cs: Seq<Seq<char>>) -> nat
    decreases cs.len(),
{
    if cs.len() == 0 {
        0
    } else {
        placeholders_of(cs.drop_last()) + placeholder_count(cs.last())
    }
}

proof fn lemma_join_and_placeholders(cs: Seq<Seq<char>>)
    ensures
        placeholder_count(join_and(cs)) == placeholders_of(cs),
    decreases cs.len(),
{
    if cs.len() == 1 {
        assert(cs.drop_last().len() == 0);
        assert(placeholders_of(cs.drop_last()) == 0);
        assert(cs.last() == cs[0]);
    } else if cs.len() > 1 {
        lemma_join_and_placeholders(cs.drop_last());
        reveal_strlit(" AND ");
        lemma_no_placeholders(" AND "@);
        lemma_placeholders_concat(join_and(cs.drop_last()), " AND "@);
        lemma_placeholders_concat(join_and(cs.drop_last()) + " AND "@, cs.last());
    }
}

/// `n` placeholders separated by `, `.
pub open spec fn placeholder_list(n: nat) -> Seq<char>
    decreases n,
{
    if n == 0 {
        Seq::empty()
    } else if n == 1 {
        "?"@
    } else {
        placeholder_list((n - 1) as nat) + ", ?"@
    }
}

proof fn lemma_placeholder_list(n: nat)
    ensures
        placeholder_count(placeholder_list(n)) == n,
    decreases n,
{
    if n == 1 {
        lemma_one_placeholder();
    } else if n > 1 {
        lemma_placeholder_list((n - 1) as nat);
        reveal_strlit(", ?");
        assert(", ?"@ =~= seq![',', ' '] + seq!['?']);
        lemma_no_placeholders(seq![',', ' ']);
        lemma_single('?');
        lemma_placeholders_concat(seq![',', ' '], seq!['?']);
        lemma_placeholders_concat(placeholder_list((n - 1) as nat), ", ?"@);
    }
}

/// Start of the search statement, up to its conditions.
pub const SEARCH_HEAD: &'static str = "SELECT p.* FROM posts p\n         JOIN posts_fts ON posts_fts.rowid = p.id\n         WHERE ";

/// End of the search statement, after its conditions.
pub const SEARCH_TAIL: &'static str = "\n         ORDER BY rank\n         LIMIT ?";

/// The number of post types a search is limited to: none when the list is
/// missing or empty.
pub open spec fn type_count(post_types: Option<Seq<&str>>) -> nat {
    match post_types {
        Some(ts) => ts.len(),
        None => 0,
    }
}

/// The conditions of a search: the full-text match; unless AI posts are
/// wanted, that the post is not likely AI; and with post types, that the
/// post has one of them.
pub open spec fn search_conditions(exclude_ai: bool, n_types: nat) -> Seq<Seq<char>> {
    seq!["posts_fts MATCH ?"@] + (if exclude_ai {
        seq!["p.likely_ai = 0"@]
    } else {
        Seq::empty()
    }) + (if n_types > 0 {
        seq!["p.post_type IN ("@ + placeholder_list(n_types) + ")"@]
    } else {
        Seq::empty()
    })
}

/// The SQL text of a search.
pub open spec fn search_sql(exclude_ai: bool, n_types: nat) -> Seq<char> {
    SEARCH_HEAD@ + join_and(search_conditions(exclude_ai, n_types)) + SEARCH_TAIL@
}

/// The parameter is the given text.
pub open spec fn is_text(p: SqlParam, s: Seq<char>) -> bool {
    match p {
        SqlParam::Text(t) => t@ == s,
        _ => false,
    }
}

/// The parameters of a search: the terms, each post type, the limit.
pub open spec fn search_params(
    ps: Seq<SqlParam>,
    terms: Seq<char>,
    types: Seq<&str>,
    limit: i64,
) -> bool {
    &&& ps.len() == types.len() + 2
    &&& is_text(ps[0], terms)
    &&& forall|j: int| 0 <= j < types.len() ==> is_text(#[trigger] ps[j + 1], types[j]@)
    &&& ps.last() == SqlParam::Int64(limit)
}

/// A search statement has a placeholder for each of its parameters: the
/// terms, each post type, and the limit.
pub proof fn lemma_search_placeholders(exclude_ai: bool, n_types: nat)
    ensures
        placeholder_count(search_sql(exclude_ai, n_types)) == n_types + 2,
{
    reveal_strlit("SELECT p.* FROM posts p\n         JOIN posts_fts ON posts_fts.rowid = p.id\n         WHERE ");
    reveal_strlit("\n         ORDER BY rank\n         LIMIT ?");
    reveal_strlit("posts_fts MATCH ?");
    reveal_strlit("p.likely_ai = 0");
    reveal_strlit("p.post_type IN (");
    reveal_strlit(")");
    lemma_no_placeholders(SEARCH_HEAD@);
    lemma_last_placeholder(SEARCH_TAIL@);
    lemma_last_placeholder("posts_fts MATCH ?"@);
    lemma_no_placeholders("p.likely_ai = 0"@);
    lemma_no_placeholders("p.post_type IN ("@);
    lemma_no_placeholders(")"@);
    lemma_placeholder_list(n_types);
    let in_list = "p.post_type IN ("@ + placeholder_list(n_types) + ")"@;
    lemma_placeholders_concat("p.post_type IN ("@, placeholder_list(n_types));
    lemma_placeholders_concat("p.post_type IN ("@ + placeholder_list(n_types), ")"@);
    let conds = search_conditions(exclude_ai, n_types);
    let a = seq!["posts_fts MATCH ?"@];
    assert(placeholders_of(a) == 1) by {
        assert(a.drop_last().len() == 0);
        assert(placeholders_of(a.drop_last()) == 0);
    }
    if exclude_ai {
        let b = a.push("p.likely_ai = 0"@);
        assert(b.drop_last() =~= a);
        assert(placeholders_of(b) == 1);
        if n_types > 0 {
            assert(conds =~= b.push(in_list));
            assert(conds.drop_last() =~= b);
            assert(placeholders_of(conds) == placeholders_of(b) + placeholder_count(in_list));
        } else {
            assert(conds =~= b);
        }
    } else {
        if n_types > 0 {
            assert(conds =~= a.push(in_list));
            assert(conds.drop_last() =~= a);
            assert(placeholders_of(conds) == placeholders_of(a) + placeholder_count(in_list));
        } else {
            assert(conds =~= a);
        }
    }
    assert(placeholder_count(SEARCH_HEAD@) == 0);
    assert(placeholder_count(SEARCH_TAIL@) == 1);
    assert(placeholder_count(in_list) == n_types);
    assert(placeholders_of(conds) == n_types + 1);
    lemma_join_and_placeholders(conds);
    lemma_placeholders_concat(SEARCH_HEAD@, join_and(conds));
    lemma_placeholders_concat(SEARCH_HEAD@ + join_and(conds), SEARCH_TAIL@);
}

/// Append `n` placeholders separated by `, ` to `s`.
fn append_placeholders(s: &mut String, n: usize)
    ensures
        final(s)@ == old(s)@ + placeholder_list(n as nat),
{
    let ghost start = s@;
    let mut i: usize = 0;
    while i < n
        invariant
            i <= n,
            s@ == start + placeholder_list(i as nat),
        decreases n - i,
    {
        if i == 0 {
            s.append("?");
        } else {
            s.append(", ?");
        }
        i = i + 1;
        assert(s@ =~= start + placeholder_list(i as nat));
    }
}

/// The full-text search statement: posts matching `terms`, best match
/// first, at most `limit` of them; without posts flagged as likely AI when
/// `exclude_ai`; only of the given post types when the list is not empty.
pub fn search_statement(terms: &str, exclude_ai: bool, post_types: Option<&[&str]>, limit: i64) -> (r:
    Statement)
    ensures
        r.sql@ == search_sql(
            exclude_ai,
            type_count(
                match post_types {
                    Some(ts) => Some(ts@),
                    None => None,
                },
            ),
        ),
        search_params(
            r.params@,
            terms@,
            match post_types {
                Some(ts) => ts@,
                None => Seq::empty(),
            },
            limit,
        ),
        placeholder_count(r.sql@) == r.params@.len(),
{
    let ghost n_types = type_count(
        match post_types {
            Some(ts) => Some(ts@),
            None => None,
        },
    );
    let ghost types: Seq<&str> = match post_types {
        Some(ts) => ts@,
        None => Seq::empty(),
    };
    let ghost conds = search_conditions(exclude_ai, n_types);
    let mut sql = String::from_str(SEARCH_HEAD);
    sql.append("posts_fts MATCH ?");
    let mut params: Vec<SqlParam> = Vec::new();
    params.push(SqlParam::Text(terms.to_owned()));
    let ghost mut k: int = 1;
    assert(sql@ =~= SEARCH_HEAD@ + join_and(conds.take(1)));
    if exclude_ai {
        sql.append(" AND ");
        sql.append("p.likely_ai = 0");
        proof {
            k = 2;
            assert(conds.take(2).drop_last() =~= conds.take(1));
            assert(sql@ =~= SEARCH_HEAD@ + join_and(conds.take(2)));
        }
    }
    if let Some(types_slice) = post_types {
        if types_slice.len() > 0 {
            sql.append(" AND ");
            sql.append("p.post_type IN (");
            append_placeholders(&mut sql, types_slice.len());
            sql.append(")");
            let ghost before = params@;
            for j in 0..types_slice.len()
                invariant
                    params@.len() == 1 + j,
                    params@[0] == before[0],
                    is_text(before[0], terms@),
                    types == types_slice@,
                    forall|q: int| 0 <= q < j ==> is_text(#[trigger] params@[q + 1], types[q]@),
            {
                params.push(SqlParam::Text(types_slice[j].to_owned()));
            }
            proof {
                assert(conds.take(k + 1).drop_last() =~= conds.take(k));
                assert(conds.take(k + 1) =~= conds);
            }
        }
    }
    proof {
        assert(conds.take(conds.len() as int) =~= conds);
    }
    sql.append(SEARCH_TAIL);
    params.push(SqlParam::Int64(limit));
    proof {
        lemma_search_placeholders(exclude_ai, n_types);
        assert(sql@ == search_sql(exclude_ai, n_types));
        assert(params@.len() == n_types + 2);
    }
    Statement { sql, params }
}

/// The filter of the summaries to one source.
pub const WHERE_SOURCE: &'static str = "WHERE source_id = ?";

/// Start of the statements that count posts.
pub const COUNT_HEAD: &'static str = "SELECT COUNT(*) as cnt FROM posts ";

/// The filter to authentic posts of one source.
pub const WHERE_AUTHENTIC_SOURCE: &'static str = "WHERE likely_ai = 0 AND source_id = ?";

/// The filter to authentic posts.
pub const WHERE_AUTHENTIC: &'static str = "WHERE likely_ai = 0";

/// Start of the statement that counts posts by type.
pub const BY_TYPE_HEAD: &'static str = "SELECT post_type, COUNT(*) as cnt FROM posts ";

/// End of the statement that counts posts by type.
pub const BY_TYPE_TAIL: &'static str = " GROUP BY post_type ORDER BY cnt DESC";

/// Start of the statement that counts posts by source.
pub const BY_SOURCE_HEAD: &'static str = "SELECT s.platform, s.username, COUNT(*) as cnt\n                 FROM posts p JOIN sources s ON p.source_id = s.id\n                 ";

/// End of the statement that counts posts by source.
pub const BY_SOURCE_TAIL: &'static str = "\n                 GROUP BY s.id ORDER BY cnt DESC";

/// The four statements of the summary of the stored posts.
#[derive(Debug)]
pub struct StatsStatements {
    /// The number of posts, in a column `cnt`.
    pub total: Statement,
    /// The number of posts not flagged as likely AI, in a column `cnt`.
    pub authentic: Statement,
    /// Per post type (`post_type`), the number of posts (`cnt`), most first.
    pub by_type: Statement,
    /// Per source (`platform`, `username`), the number of posts (`cnt`),
    /// most first.
    pub by_source: Statement,
}

/// The filter of the summaries: to one source, or none.
pub open spec fn source_filter(source_id: Option<i64>) -> Seq<char> {
    match source_id {
        Some(_) => WHERE_SOURCE@,
        None => Seq::empty(),
    }
}

/// The filter of the count of authentic posts.
pub open spec fn authentic_filter(source_id: Option<i64>) -> Seq<char> {
    match source_id {
        Some(_) => WHERE_AUTHENTIC_SOURCE@,
        None => WHERE_AUTHENTIC@,
    }
}

/// The parameters of the summaries: the source's id, if any.
pub open spec fn source_params(ps: Seq<SqlParam>, source_id: Option<i64>) -> bool {
    match source_id {
        Some(sid) => ps == seq![SqlParam::Int64(sid)],
        None => ps.len() == 0,
    }
}

/// The summary statements' parameters.
fn source_param_list(source_id: Option<i64>) -> (r: Vec<SqlParam>)
    ensures
        source_params(r@, source_id),
{
    let mut r: Vec<SqlParam> = Vec::new();
    if let Some(sid) = source_id {
        r.push(SqlParam::Int64(sid));
        assert(r@ =~= seq![SqlParam::Int64(sid)]);
    }
    r
}

/// The summary of the stored posts, of one source when `source_id` is
/// given: the total, the authentic posts, and the counts by type and by
/// source.
pub fn stats_statements(source_id: Option<i64>) -> (r: StatsStatements)
    ensures
        r.total.sql@ == COUNT_HEAD@ + source_filter(source_id),
        source_params(r.total.params@, source_id),
        r.authentic.sql@ == COUNT_HEAD@ + authentic_filter(source_id),
        source_params(r.authentic.params@, source_id),
        r.by_type.sql@ == BY_TYPE_HEAD@ + source_filter(source_id) + BY_TYPE_TAIL@,
        source_params(r.by_type.params@, source_id),
        r.by_source.sql@ == BY_SOURCE_HEAD@ + source_filter(source_id) + BY_SOURCE_TAIL@,
        source_params(r.by_source.params@, source_id),
        placeholder_count(r.total.sql@) == r.total.params@.len(),
        placeholder_count(r.authentic.sql@) == r.authentic.params@.len(),
        placeholder_count(r.by_type.sql@) == r.by_type.params@.len(),
        placeholder_count(r.by_source.sql@) == r.by_source.params@.len(),
{
    let filter: &str = match source_id {
        Some(_) => WHERE_SOURCE,
        None => "",
    };
    let authentic_filter: &str = match source_id {
        Some(_) => WHERE_AUTHENTIC_SOURCE,
        None => WHERE_AUTHENTIC,
    };
    proof {
        reveal_strlit("");
        lemma_stats_placeholders(source_id);
    }
    let total = Statement {
        sql: String::from_str(COUNT_HEAD).concat(filter),
        params: source_param_list(source_id),
    };
    let authentic = Statement {
        sql: String::from_str(COUNT_HEAD).concat(authentic_filter),
        params: source_param_list(source_id),
    };
    let by_type = Statement {
        sql: String::from_str(BY_TYPE_HEAD).concat(filter).concat(BY_TYPE_TAIL),
        params: source_param_list(source_id),
    };
    let by_source = Statement {
        sql: String::from_str(BY_SOURCE_HEAD).concat(filter).concat(BY_SOURCE_TAIL),
        params: source_param_list(source_id),
    };
    StatsStatements { total, authentic, by_type, by_source }
}

/// Each summary statement has a placeholder exactly when it is limited to a
/// source, which is then its one parameter.
pub proof fn lemma_stats_placeholders(source_id: Option<i64>)
    ensures
        placeholder_count(COUNT_HEAD@ + source_filter(source_id)) == if source_id is Some {
            1nat
        } else {
            0nat
        },
        placeholder_count(COUNT_HEAD@ + authentic_filter(source_id)) == if source_id is Some {
            1nat
        } else {
            0nat
        },
        placeholder_count(BY_TYPE_HEAD@ + source_filter(source_id) + BY_TYPE_TAIL@) == if source_id is Some {
            1nat
        } else {
            0nat
        },
        placeholder_count(BY_SOURCE_HEAD@ + source_filter(source_id) + BY_SOURCE_TAIL@) == if source_id is Some {
            1nat
        } else {
            0nat
        },
{
    reveal_strlit("WHERE source_id = ?");
    reveal_strlit("SELECT COUNT(*) as cnt FROM posts ");
    reveal_strlit("WHERE likely_ai = 0 AND source_id = ?");
    reveal_strlit("WHERE likely_ai = 0");
    reveal_strlit("SELECT post_type, COUNT(*) as cnt FROM posts ");
    reveal_strlit(" GROUP BY post_type ORDER BY cnt DESC");
    reveal_strlit("SELECT s.platform, s.username, COUNT(*) as cnt\n                 FROM posts p JOIN sources s ON p.source_id = s.id\n                 ");
    reveal_strlit("\n                 GROUP BY s.id ORDER BY cnt DESC");
    lemma_last_placeholder(WHERE_SOURCE@);
    lemma_no_placeholders(COUNT_HEAD@);
    lemma_last_placeholder(WHERE_AUTHENTIC_SOURCE@);
    lemma_no_placeholders(WHERE_AUTHENTIC@);
    lemma_no_placeholders(BY_TYPE_HEAD@);
    lemma_no_placeholders(BY_TYPE_TAIL@);
    lemma_no_placeholders(BY_SOURCE_HEAD@);
    lemma_no_placeholders(BY_SOURCE_TAIL@);
    assert(placeholder_count(Seq::<char>::empty()) == 0);
    let f = source_filter(source_id);
    assert(placeholder_count(f) == if source_id is Some {
        1nat
    } else {
        0nat
    });
    lemma_placeholders_concat(COUNT_HEAD@, f);
    lemma_placeholders_concat(COUNT_HEAD@, authentic_filter(source_id));
    lemma_placeholders_concat(BY_TYPE_HEAD@, f);
    lemma_placeholders_concat(BY_TYPE_HEAD@ + f, BY_TYPE_TAIL@);
    lemma_placeholders_concat(BY_SOURCE_HEAD@, f);
    lemma_placeholders_concat(BY_SOURCE_HEAD@ + f, BY_SOURCE_TAIL@);
}

/// The number in the `cnt` column of the first row; 0 when there is no
/// row, or the column is missing or not an integer.
pub open spec fn count_of(rows: Seq<Row>) -> i64 {
    if rows.len() == 0 {
        0
    } else {
        match column(rows[0].columns@, "cnt"@) {
            Some(DbValue::Int64(n)) => n,
            _ => 0,
        }
    }
}

/// The number in the `cnt` column of the first row (see [`count_of`]).
pub fn count_from_rows(rows: &[Row]) -> (r: i64)
    ensures
        r == count_of(rows@),
{
    if rows.len() == 0 {
        return 0;
    }
    match rows[0].get("cnt") {
        Some(DbValue::Int64(n)) => *n,
        _ => 0,
    }
}

/// A row of the count by type, as (type, count), when its `post_type` is a
/// string and its `cnt` an integer.
pub open spec fn type_entry(r: Row) -> Seq<(Seq<char>, i64)> {
    match (column(r.columns@, "post_type"@), column(r.columns@, "cnt"@)) {
        (Some(DbValue::String(pt)), Some(DbValue::Int64(n))) => seq![(pt@, n)],
        _ => Seq::empty(),
    }
}

/// The entries of the rows of the count by type, in order.
pub open spec fn type_entries(rows: Seq<Row>) -> Seq<(Seq<char>, i64)>
    decreases rows.len(),
{
    if rows.len() == 0 {
        Seq::empty()
    } else {
        type_entries(rows.drop_last()) + type_entry(rows.last())
    }
}

/// The views of (text, count) pairs.
pub open spec fn pair_views(s: Seq<(String, i64)>) -> Seq<(Seq<char>, i64)> {
    s.map_values(|p: (String, i64)| (p.0@, p.1))
}

/// The counts by type read from their rows (see [`type_entries`]).
pub fn type_counts(rows: &[Row]) -> (r: Vec<(String, i64)>)
    ensures
        pair_views(r@) == type_entries(rows@),
{
    let mut r: Vec<(String, i64)> = Vec::new();
    assert(pair_views(r@) =~= type_entries(rows@.take(0)));
    for i in 0..rows.len()
        invariant
            pair_views(r@) == type_entries(rows@.take(i as int)),
    {
        let ghost t = rows@.take(i + 1);
        let ghost before = pair_views(r@);
        proof {
            assert(t.drop_last() =~= rows@.take(i as int));
            assert(t.last() == rows@[i as int]);
        }
        if let (Some(DbValue::String(pt)), Some(DbValue::Int64(n))) = (
            rows[i].get("post_type"),
            rows[i].get("cnt"),
        ) {
            r.push((pt.clone(), *n));
        }
        assert(pair_views(r@) =~= before + type_entry(rows@[i as int]));
    }
    assert(rows@.take(rows@.len() as int) =~= rows@);
    r
}

/// A row of the count by source, as (platform, username, count), when its
/// `platform` and `username` are strings and its `cnt` an integer.
pub open spec fn source_entry(r: Row) -> Seq<(Seq<char>, Seq<char>, i64)> {
    match (
        column(r.columns@, "platform"@),
        column(r.columns@, "username"@),
        column(r.columns@, "cnt"@),
    ) {
        (Some(DbValue::String(p)), Some(DbValue::String(u)), Some(DbValue::Int64(n))) => seq![
            (p@, u@, n),
        ],
        _ => Seq::empty(),
    }
}

/// The entries of the rows of the count by source, in order.
pub open spec fn source_entries(rows: Seq<Row>) -> Seq<(Seq<char>, Seq<char>, i64)>
    decreases rows.len(),
{
    if rows.len() == 0 {
        Seq::empty()
    } else {
        source_entries(rows.drop_last()) + source_entry(rows.last())
    }
}

/// The views of (text, text, count) triples.
pub open spec fn triple_views(s: Seq<(String, String, i64)>) -> Seq<(Seq<char>, Seq<char>, i64)> {
    s.map_values(|p: (String, String, i64)| (p.0@, p.1@, p.2))
}

/// The counts by source read from their rows (see [`source_entries`]).
pub fn source_counts(rows: &[Row]) -> (r: Vec<(String, String, i64)>)
    ensures
        triple_views(r@) == source_entries(rows@),
{
    let mut r: Vec<(String, String, i64)> = Vec::new();
    assert(triple_views(r@) =~= source_entries(rows@.take(0)));
    for i in 0..rows.len()
        invariant
            triple_views(r@) == source_entries(rows@.take(i as int)),
    {
        let ghost t = rows@.take(i + 1);
        let ghost before = triple_views(r@);
        proof {
            assert(t.drop_last() =~= rows@.take(i as int));
            assert(t.last() == rows@[i as int]);
        }
        if let (Some(DbValue::String(p)), Some(DbValue::String(u)), Some(DbValue::Int64(n))) = (
            rows[i].get("platform"),
            rows[i].get("username"),
            rows[i].get("cnt"),
        ) {
            r.push((p.clone(), u.clone(), *n));
        }
        assert(triple_views(r@) =~= before + source_entry(rows@[i as int]));
    }
    assert(rows@.take(rows@.len() as int) =~= rows@);
    r
}

/// The summary read from the rows of the four summary statements: the
/// total, the authentic posts, the rest as likely AI, and the counts by
/// type and by source.
pub fn stats_from_rows(total: &[Row], authentic: &[Row], by_type: &[Row], by_source: &[Row]) -> (r:
    Stats)
    requires
        i64::MIN <= count_of(total@) - count_of(authentic@) <= i64::MAX,
    ensures
        r.total_posts == count_of(total@),
        r.authentic_posts == count_of(authentic@),
        r.likely_ai_posts == r.total_posts - r.authentic_posts,
        pair_views(r.by_type@) == type_entries(by_type@),
        triple_views(r.by_source@) == source_entries(by_source@),
{
    let total_posts = count_from_rows(total);
    let authentic_posts = count_from_rows(authentic);
    Stats {
        total_posts,
        authentic_posts,
        likely_ai_posts: total_posts - authentic_posts,
        by_type: type_counts(by_type),
        by_source: source_counts(by_source),
    }
}

/// Start of the statement that fetches posts to profile.
pub const POSTS_HEAD: &'static str = "SELECT p.* FROM posts p";

/// The join with the full-text index, for a topic.
pub const TOPIC_JOIN: &'static str = " JOIN posts_fts ON posts_fts.rowid = p.id";

/// End of the statement that fetches posts to profile: oldest first.
pub const POSTS_TAIL: &'static str = " ORDER BY p.created_at";

/// A single condition when `present`, else none.
pub open spec fn when(present: bool, cond: Seq<char>) -> Seq<Seq<char>> {
    if present {
        seq![cond]
    } else {
        Seq::empty()
    }
}

/// The conditions on the posts to profile: matching the topic, not likely
/// AI, of the post type, of the source, as far as each is asked for.
pub open spec fn posts_conditions(
    exclude_ai: bool,
    has_type: bool,
    has_topic: bool,
    has_source: bool,
) -> Seq<Seq<char>> {
    when(has_topic, "posts_fts MATCH ?"@) + when(exclude_ai, "p.likely_ai = 0"@) + when(
        has_type,
        "p.post_type = ?"@,
    ) + when(has_source, "p.source_id = ?"@)
}

/// The SQL text of the statement that fetches posts to profile.
pub open spec fn posts_sql(
    exclude_ai: bool,
    has_type: bool,
    has_topic: bool,
    has_source: bool,
) -> Seq<char> {
    let conds = posts_conditions(exclude_ai, has_type, has_topic, has_source);
    POSTS_HEAD@ + (if has_topic {
        TOPIC_JOIN@
    } else {
        Seq::empty()
    }) + (if conds.len() > 0 {
        " WHERE "@ + join_and(conds)
    } else {
        Seq::empty()
    }) + POSTS_TAIL@
}

/// The kind of a parameter: null, integer or text.
#[derive(Clone, Copy, Debug, PartialEq, Eq, Structural)]
pub enum ParamKind {
    Null,
    Int64,
    Text,
}

/// A parameter as values: (kind, the text, the integer).
pub open spec fn param_view(p: SqlParam) -> (ParamKind, Seq<char>, i64) {
    match p {
        SqlParam::Null => (ParamKind::Null, Seq::empty(), 0),
        SqlParam::Int64(n) => (ParamKind::Int64, Seq::empty(), n),
        SqlParam::Text(t) => (ParamKind::Text, t@, 0),
    }
}

/// A text parameter as values.
pub open spec fn text_view(t: Seq<char>) -> (ParamKind, Seq<char>, i64) {
    (ParamKind::Text, t, 0)
}

/// An integer parameter as values.
pub open spec fn int_view(n: i64) -> (ParamKind, Seq<char>, i64) {
    (ParamKind::Int64, Seq::empty(), n)
}

/// The views of parameters.
pub open spec fn param_views(ps: Seq<SqlParam>) -> Seq<(ParamKind, Seq<char>, i64)> {
    ps.map_values(|p: SqlParam| param_view(p))
}

/// The parameters of the statement that fetches posts to profile: the
/// topic, the post type, the source's id, as far as each is given.
pub open spec fn posts_param_views(
    post_type: Option<Seq<char>>,
    topic: Option<Seq<char>>,
    source_id: Option<i64>,
) -> Seq<(ParamKind, Seq<char>, i64)> {
    (match topic {
        Some(t) => seq![text_view(t)],
        None => Seq::empty(),
    }) + (match post_type {
        Some(t) => seq![text_view(t)],
        None => Seq::empty(),
    }) + (match source_id {
        Some(n) => seq![int_view(n)],
        None => Seq::empty(),
    })
}

/// Append conditions joined by ` AND `.
fn push_joined(out: &mut String, conds: &Vec<&str>)
    ensures
        final(out)@ == old(out)@ + join_and(str_views(conds@)),
{
    let ghost start = out@;
    for i in 0..conds.len()
        invariant
            out@ == start + join_and(str_views(conds@).take(i as int)),
    {
        let ghost t = str_views(conds@).take(i + 1);
        proof {
            assert(t.drop_last() =~= str_views(conds@).take(i as int));
            assert(t.last() == conds@[i as int]@);
        }
        if i > 0 {
            out.append(" AND ");
        }
        out.append(conds[i]);
        proof {
            if i == 0 {
                assert(t.len() == 1);
                assert(str_views(conds@).take(0).len() == 0);
            }
            assert(out@ =~= start + join_and(t));
        }
    }
    assert(str_views(conds@).take(conds@.len() as int) =~= str_views(conds@));
}

/// The statement that fetches the posts to profile: not flagged as likely
/// AI when `exclude_ai`, of the post type, matching the topic in the
/// full-text index, and of the source, as far as each is given; oldest
/// first.
pub fn posts_statement(
    exclude_ai: bool,
    post_type: Option<&str>,
    topic: Option<&str>,
    source_id: Option<i64>,
) -> (r: Statement)
    ensures
        r.sql@ == posts_sql(exclude_ai, post_type is Some, topic is Some, source_id is Some),
        param_views(r.params@) == posts_param_views(
            match post_type {
                Some(t) => Some(t@),
                None => None,
            },
            match topic {
                Some(t) => Some(t@),
                None => None,
            },
            source_id,
        ),
        placeholder_count(r.sql@) == r.params@.len(),
{
    let ghost conds_spec = posts_conditions(
        exclude_ai,
        post_type is Some,
        topic is Some,
        source_id is Some,
    );
    let mut conds: Vec<&str> = Vec::new();
    let mut params: Vec<SqlParam> = Vec::new();
    let mut sql = String::from_str(POSTS_HEAD);
    if let Some(t) = topic {
        sql.append(TOPIC_JOIN);
        conds.push("posts_fts MATCH ?");
        params.push(SqlParam::Text(t.to_owned()));
    }
    if exclude_ai {
        conds.push("p.likely_ai = 0");
    }
    if let Some(t) = post_type {
        conds.push("p.post_type = ?");
        params.push(SqlParam::Text(t.to_owned()));
    }
    if let Some(sid) = source_id {
        conds.push("p.source_id = ?");
        params.push(SqlParam::Int64(sid));
    }
    assert(str_views(conds@) =~= conds_spec);
    if conds.len() > 0 {
        sql.append(" WHERE ");
        push_joined(&mut sql, &conds);
    }
    sql.append(POSTS_TAIL);
    assert(sql@ =~= posts_sql(exclude_ai, post_type is Some, topic is Some, source_id is Some));
    assert(param_views(params@) =~= posts_param_views(
        match post_type {
            Some(t) => Some(t@),
            None => None,
        },
        match topic {
            Some(t) => Some(t@),
            None => None,
        },
        source_id,
    ));
    proof {
        lemma_posts_placeholders(exclude_ai, post_type is Some, topic is Some, source_id is Some);
    }
    Statement { sql, params }
}

/// The statement that fetches posts to profile has a placeholder for each
/// filter that takes a value: topic, post type, source.
pub proof fn lemma_posts_placeholders(
    exclude_ai: bool,
    has_type: bool,
    has_topic: bool,
    has_source: bool,
)
    ensures
        placeholder_count(posts_sql(exclude_ai, has_type, has_topic, has_source)) == (if has_topic {
            1nat
        } else {
            0nat
        }) + (if has_type {
            1nat
        } else {
            0nat
        }) + (if has_source {
            1nat
        } else {
            0nat
        }),
{
    reveal_strlit("SELECT p.* FROM posts p");
    reveal_strlit(" JOIN posts_fts ON posts_fts.rowid = p.id");
    reveal_strlit(" ORDER BY p.created_at");
    reveal_strlit(" WHERE ");
    reveal_strlit("posts_fts MATCH ?");
    reveal_strlit("p.likely_ai = 0");
    reveal_strlit("p.post_type = ?");
    reveal_strlit("p.source_id = ?");
    lemma_no_placeholders(POSTS_HEAD@);
    lemma_no_placeholders(TOPIC_JOIN@);
    lemma_no_placeholders(POSTS_TAIL@);
    lemma_no_placeholders(" WHERE "@);
    lemma_last_placeholder("posts_fts MATCH ?"@);
    lemma_no_placeholders("p.likely_ai = 0"@);
    lemma_last_placeholder("p.post_type = ?"@);
    lemma_last_placeholder("p.source_id = ?"@);
    assert(placeholder_count(Seq::<char>::empty()) == 0);
    let c1 = when(has_topic, "posts_fts MATCH ?"@);
    let c2 = c1 + when(exclude_ai, "p.likely_ai = 0"@);
    let c3 = c2 + when(has_type, "p.post_type = ?"@);
    let c4 = c3 + when(has_source, "p.source_id = ?"@);
    lemma_placeholders_of_when(Seq::empty(), has_topic, "posts_fts MATCH ?"@);
    assert(Seq::<Seq<char>>::empty() + c1 =~= c1);
    lemma_placeholders_of_when(c1, exclude_ai, "p.likely_ai = 0"@);
    lemma_placeholders_of_when(c2, has_type, "p.post_type = ?"@);
    lemma_placeholders_of_when(c3, has_source, "p.source_id = ?"@);
    let conds = posts_conditions(exclude_ai, has_type, has_topic, has_source);
    assert(conds == c4);
    lemma_join_and_placeholders(conds);
    let join = if has_topic {
        TOPIC_JOIN@
    } else {
        Seq::empty()
    };
    let filter = if conds.len() > 0 {
        " WHERE "@ + join_and(conds)
    } else {
        Seq::empty()
    };
    lemma_placeholders_concat(" WHERE "@, join_and(conds));
    if conds.len() == 0 {
        assert(placeholders_of(conds) == 0);
    }
    lemma_placeholders_concat(POSTS_HEAD@, join);
    lemma_placeholders_concat(POSTS_HEAD@ + join, filter);
    lemma_placeholders_concat(POSTS_HEAD@ + join + filter, POSTS_TAIL@);
}

/// Placeholders of conditions with one more, when present.
proof fn lemma_placeholders_of_when(cs: Seq<Seq<char>>, present: bool, cond: Seq<char>)
    ensures
        placeholders_of(cs + when(present, cond)) == placeholders_of(cs) + if present {
            placeholder_count(cond)
        } else {
            0
        },
{
    if present {
        assert((cs + when(present, cond)).drop_last() =~= cs);
    } else {
        assert(cs + when(present, cond) =~= cs);
    }
}

/// How many bytes of a post's text a search result shows.
pub const DISPLAY_BYTES: usize = 500;

/// A post's text as a search result shows it: whole when it has at most
/// [`DISPLAY_BYTES`] bytes, else those first bytes followed by `...`.
/// The cut must fall on a character boundary.
pub fn display_body(body: &str) -> (r: String)
    requires
        body.spec_bytes().len() <= usize::MAX,
        body.spec_bytes().len() > DISPLAY_BYTES ==> vstd::utf8::is_char_boundary(
            body.spec_bytes(),
            DISPLAY_BYTES as int,
        ),
    ensures
        body.spec_bytes().len() <= DISPLAY_BYTES ==> r@ == body@,
        body.spec_bytes().len() > DISPLAY_BYTES ==> {
            &&& r@.len() >= 3
            &&& vstd::utf8::encode_utf8(r@.take(r@.len() - 3)) == body.spec_bytes().take(
                DISPLAY_BYTES as int,
            )
            &&& r@.skip(r@.len() - 3) == "..."@
        },
{
    if body.len() > DISPLAY_BYTES {
        let (head, _) = body.split_at(DISPLAY_BYTES);
        let r = head.to_owned().concat("...");
        proof {
            reveal_strlit("...");
            assert(r@.take(r@.len() - 3) =~= head@);
            assert(r@.skip(r@.len() - 3) =~= "..."@);
            assert(head.spec_bytes() == vstd::utf8::encode_utf8(head@));
            assert(body.spec_bytes().take(DISPLAY_BYTES as int) =~= body.spec_bytes().subrange(
                0,
                DISPLAY_BYTES as int,
            ));
        }
        r
    } else {
        body.to_owned()
    }
}

/// A search leaves out posts flagged as likely AI exactly when asked to,
/// whatever post types it is limited to: its conditions hold the AI filter
/// iff `exclude_ai`, and asking for it adds exactly that condition, right
/// after the full-text match.
pub proof fn lemma_search_ai_filter(exclude_ai: bool, n_types: nat)
    ensures
        search_conditions(exclude_ai, n_types).contains("p.likely_ai = 0"@) <==> exclude_ai,
        search_conditions(true, n_types) == search_conditions(false, n_types).insert(
            1,
            "p.likely_ai = 0"@,
        ),
        exclude_ai ==> crate::text::contains_seq(
            search_sql(exclude_ai, n_types),
            " AND p.likely_ai = 0"@,
        ),
{
    reveal_strlit("p.likely_ai = 0");
    reveal_strlit("posts_fts MATCH ?");
    reveal_strlit("p.post_type IN (");
    reveal_strlit(" AND ");
    reveal_strlit(" AND p.likely_ai = 0");
    let ai = "p.likely_ai = 0"@;
    let m = "posts_fts MATCH ?"@;
    let in_list = "p.post_type IN ("@ + placeholder_list(n_types) + ")"@;
    assert(m[1] != ai[1]);
    assert(in_list[2] == 'p');
    assert(in_list[2] != ai[2]);
    let with = search_conditions(true, n_types);
    let without = search_conditions(false, n_types);
    assert(with =~= without.insert(1, ai));
    assert(with[1] == ai);
    if !exclude_ai {
        if without.contains(ai) {
            let k = choose|k: int| 0 <= k < without.len() && without[k] == ai;
            if k == 0 {
                assert(without[0] == m);
            } else {
                assert(without[k] == in_list);
            }
        }
    } else {
        let head = SEARCH_HEAD@ + "posts_fts MATCH ?"@;
        let rest = if n_types > 0 {
            " AND "@ + in_list
        } else {
            Seq::empty()
        };
        assert(with.take(1).len() == 1);
        assert(join_and(with.take(1)) == m) by {
            assert(with.take(1).drop_last().len() == 0);
        }
        assert(with.take(2).drop_last() =~= with.take(1));
        assert(join_and(with.take(2)) == m + " AND "@ + ai);
        if n_types > 0 {
            assert(with.take(3) =~= with);
            assert(with.take(3).drop_last() =~= with.take(2));
        } else {
            assert(with.take(2) =~= with);
        }
        assert(search_sql(true, n_types) =~= head + " AND p.likely_ai = 0"@ + (rest
            + SEARCH_TAIL@));
        crate::text::lemma_contains_self(" AND p.likely_ai = 0"@);
        crate::text::lemma_contains_within(
            head,
            " AND p.likely_ai = 0"@,
            rest + SEARCH_TAIL@,
            " AND p.likely_ai = 0"@,
        );
    }
}

} // verus!
