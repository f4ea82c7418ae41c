//! Scraping a GitHub account through the GraphQL search API: which
//! requests to send, which of the returned items are the user's own
//! writing, and how the two passes (items the user authored, then items the
//! user only commented on) advance from page to page.
//!
//! The requests themselves and the database writes are made by the caller,
//! which drives [`ScrapeState`]: ask it for the next request, hand it each
//! page that comes back, store the rows it derives, and report how many
//! rows each store added.

use vstd::prelude::*;

use crate::models::Source;
use crate::order::{chars_less, chars_lt};
use crate::source::ScrapeResult;
use crate::text::{chars_of, strip_bounds, trim};

verus! {

/// The GitHub scraper.
pub struct GitHubScraper;

impl GitHubScraper {
    pub fn new() -> (s: Self) {
        GitHubScraper
    }

    /// The platform name under which GitHub sources are configured.
    pub fn platform(&self) -> (r: &'static str)
        ensures
            r@ == platform_name(),
    {
        "github"
    }
}

/// The name of the GitHub platform.
pub open spec fn platform_name() -> Seq<char> {
    "github"@
}

/// Start of every search request, up to where the pagination argument goes.
pub const SEARCH_HEAD: &'static str = "query($searchQuery: String!) {\n    search(query: $searchQuery, type: ISSUE, first: 50";

/// Rest of the search request of the authored pass: the items' own text,
/// their comments, and (for pull requests) their reviews.
pub const AUTHORED_TAIL: &'static str = ") {
        pageInfo {
            hasNextPage
            endCursor
        }
        nodes {
            ... on Issue {
                id
                body
                url
                createdAt
                repository { nameWithOwner }
                comments(first: 100) {
                    nodes {
                        id
                        body
                        url
                        createdAt
                        author { login }
                    }
                }
            }
            ... on PullRequest {
                id
                body
                url
                createdAt
                repository { nameWithOwner }
                comments(first: 100) {
                    nodes {
                        id
                        body
                        url
                        createdAt
                        author { login }
                    }
                }
                reviews(first: 50) {
                    nodes {
                        id
                        body
                        url
                        createdAt
                        author { login }
                        comments(first: 100) {
                            nodes {
                                id
                                body
                                url
                                createdAt
                                author { login }
                            }
                        }
                    }
                }
            }
        }
    }
}";

/// Rest of the search request of the commented pass: only the items'
/// comments and reviews.
pub const COMMENTED_TAIL: &'static str = ") {
        pageInfo {
            hasNextPage
            endCursor
        }
        nodes {
            ... on Issue {
                repository { nameWithOwner }
                comments(first: 100) {
                    nodes {
                        id
                        body
                        url
                        createdAt
                        author { login }
                    }
                }
            }
            ... on PullRequest {
                repository { nameWithOwner }
                comments(first: 100) {
                    nodes {
                        id
                        body
                        url
                        createdAt
                        author { login }
                    }
                }
                reviews(first: 50) {
                    nodes {
                        id
                        body
                        url
                        createdAt
                        author { login }
                        comments(first: 100) {
                            nodes {
                                id
                                body
                                url
                                createdAt
                                author { login }
                            }
                        }
                    }
                }
            }
        }
    }
}";

/// Which pass of a scrape is running.
#[derive(Clone, Copy, Debug, PartialEq, Eq, Structural)]
pub enum Pass {
    /// Items the user authored: their bodies, and the user's comments and
    /// reviews on them.
    Authored,
    /// Items the user commented on without authoring them.
    Commented,
    /// Both passes are done.
    Finished,
}

/// The pass that follows `p` once its last page is in.
pub open spec fn next_pass(p: Pass) -> Pass {
    match p {
        Pass::Authored => Pass::Commented,
        _ => Pass::Finished,
    }
}

/// A search request: the GraphQL query text and the search string bound to
/// its `$searchQuery` variable.
pub struct PageRequest {
    pub query: String,
    pub search_query: String,
}

/// The view of an optional string.
pub open spec fn opt_view(o: Option<String>) -> Option<Seq<char>> {
    match o {
        Some(s) => Some(s@),
        None => None,
    }
}

/// The pagination argument of a request: empty on the first page, else
/// `, after: "<cursor>"`.
pub open spec fn after_clause(cursor: Option<Seq<char>>) -> Seq<char> {
    match cursor {
        Some(c) => ", after: \""@ + c + "\""@,
        None => Seq::empty(),
    }
}

/// The GraphQL text of the search request of a pass.
pub open spec fn query_text(authored: bool, cursor: Option<Seq<char>>) -> Seq<char> {
    SEARCH_HEAD@ + after_clause(cursor) + (if authored {
        AUTHORED_TAIL@
    } else {
        COMMENTED_TAIL@
    })
}

/// The search string of a pass: the user's own items, or the items the
/// user commented on without authoring them.
pub open spec fn search_text(authored: bool, user: Seq<char>) -> Seq<char> {
    if authored {
        "author:"@ + user
    } else {
        "commenter:"@ + user + " -author:"@ + user
    }
}

/// The state of a scrape between two pages.
pub struct ScrapeState {
    pub pass: Pass,
    /// The cursor after which the next page of the current pass starts.
    pub cursor: Option<String>,
    /// New posts stored by the authored pass so far.
    pub authored_count: i64,
    /// New posts stored by the commented pass so far.
    pub commented_count: i64,
}

impl ScrapeState {
    /// A scrape that starts with the authored pass, after `resume_cursor`
    /// when one is given.
    pub fn start(resume_cursor: Option<&str>) -> (s: ScrapeState)
        ensures
            s.pass == Pass::Authored,
            opt_view(s.cursor) == match resume_cursor {
                Some(c) => Some(c@),
                None => None::<Seq<char>>,
            },
            s.authored_count == 0,
            s.commented_count == 0,
    {
        let cursor = match resume_cursor {
            Some(c) => Some(c.to_owned()),
            None => None,
        };
        ScrapeState { pass: Pass::Authored, cursor, authored_count: 0, commented_count: 0 }
    }

    /// The next search request, or `None` once both passes are done.
    pub fn next_request(&self, username: &str) -> (r: Option<PageRequest>)
        ensures
            self.pass == Pass::Finished <==> r is None,
            r matches Some(req) ==> {
                let authored = self.pass == Pass::Authored;
                &&& req.query@ == query_text(authored, opt_view(self.cursor))
                &&& req.search_query@ == search_text(authored, username@)
            },
    {
        let authored = match self.pass {
            Pass::Authored => true,
            Pass::Commented => false,
            Pass::Finished => {
                return None;
            },
        };
        let mut query = String::from_str(SEARCH_HEAD);
        match &self.cursor {
            Some(c) => {
                query.append(", after: \"");
                query.append(c.as_str());
                query.append("\"");
            },
            None => {},
        }
        if authored {
            query.append(AUTHORED_TAIL);
        } else {
            query.append(COMMENTED_TAIL);
        }
        let search_query = if authored {
            let s = String::from_str("author:");
            s.concat(username)
        } else {
            let s = String::from_str("commenter:");
            let s = s.concat(username);
            let s = s.concat(" -author:");
            s.concat(username)
        };
        assert(query@ =~= query_text(authored, opt_view(self.cursor)));
        Some(PageRequest { query, search_query })
    }

    /// Move past a page: to the next page of the pass when the page says
    /// there is one, else to the first page of the next pass.
    pub fn advance(&mut self, page: &SearchResponse)
        ensures
            final(self).authored_count == old(self).authored_count,
            final(self).commented_count == old(self).commented_count,
            page.has_next_page == Some(true) ==> {
                &&& final(self).pass == old(self).pass
                &&& opt_view(final(self).cursor) == opt_view(page.end_cursor)
            },
            page.has_next_page != Some(true) ==> {
                &&& final(self).pass == next_pass(old(self).pass)
                &&& final(self).cursor is None
            },
    {
        if page.has_next_page == Some(true) {
            self.cursor = match &page.end_cursor {
                Some(c) => Some(c.clone()),
                None => None,
            };
        } else {
            self.cursor = None;
            self.pass = match self.pass {
                Pass::Authored => Pass::Commented,
                _ => Pass::Finished,
            };
        }
    }

    /// The number of new posts stored by the running pass.
    pub open spec fn pass_count(self) -> int {
        match self.pass {
            Pass::Authored => self.authored_count as int,
            Pass::Commented => self.commented_count as int,
            Pass::Finished => 0,
        }
    }

    /// Count one store of a row, which added `affected` rows: a row that was
    /// already there (the same post seen again) adds none.
    pub fn record_insert(&mut self, affected: u64)
        requires
            old(self).pass_count() < i64::MAX,
        ensures
            final(self).pass == old(self).pass,
            final(self).cursor == old(self).cursor,
            final(self).authored_count == old(self).authored_count + (if old(self).pass
                == Pass::Authored && affected > 0 {
                1int
            } else {
                0int
            }),
            final(self).commented_count == old(self).commented_count + (if old(self).pass
                == Pass::Commented && affected > 0 {
                1int
            } else {
                0int
            }),
    {
        if affected > 0 {
            match self.pass {
                Pass::Authored => {
                    self.authored_count = self.authored_count + 1;
                },
                Pass::Commented => {
                    self.commented_count = self.commented_count + 1;
                },
                Pass::Finished => {},
            }
        }
    }

    /// The outcome of the scrape: all new posts of both passes, and no
    /// cursor, since the scrape ran to its end.
    pub fn finish(&self) -> (r: ScrapeResult)
        requires
            self.authored_count + self.commented_count <= i64::MAX,
            self.authored_count + self.commented_count >= i64::MIN,
        ensures
            r.posts_fetched == self.authored_count + self.commented_count,
            r.cursor is None,
    {
        ScrapeResult { posts_fetched: self.authored_count + self.commented_count, cursor: None }
    }
}

/// A comment as the search returns it; a field that is absent or not a
/// string is `None`.
#[derive(Clone, Debug)]
pub struct GqlComment {
    pub id: Option<String>,
    pub body: Option<String>,
    pub url: Option<String>,
    pub created_at: Option<String>,
    pub author_login: Option<String>,
}

/// A pull request review as the search returns it, with its inline
/// comments when the list is there.
#[derive(Clone, Debug)]
pub struct GqlReview {
    pub id: Option<String>,
    pub body: Option<String>,
    pub url: Option<String>,
    pub created_at: Option<String>,
    pub author_login: Option<String>,
    pub comments: Option<Vec<GqlComment>>,
}

/// An issue or pull request as the search returns it.
#[derive(Clone, Debug)]
pub struct SearchNode {
    pub id: Option<String>,
    pub body: Option<String>,
    pub url: Option<String>,
    pub created_at: Option<String>,
    /// The repository's `owner/name`.
    pub repo: Option<String>,
    /// Whether the item came with a `reviews` field, which only pull
    /// requests have.
    pub is_pr: bool,
    pub comments: Option<Vec<GqlComment>>,
    pub reviews: Option<Vec<GqlReview>>,
}

/// The response to a search request.
#[derive(Clone, Debug)]
pub struct SearchResponse {
    /// The response's `errors`, rendered, when it has them.
    pub errors: Option<String>,
    /// The items of the page, when the response holds a list of them.
    pub nodes: Option<Vec<SearchNode>>,
    pub has_next_page: Option<bool>,
    pub end_cursor: Option<String>,
}


/// The kind of a post, as stored with it.
#[derive(Clone, Copy, Debug, PartialEq, Eq, Structural)]
pub enum PostKind {
    PrBody,
    IssueBody,
    PrComment,
    IssueComment,
    ReviewBody,
    ReviewComment,
}

/// The stored name of a kind of post.
pub open spec fn kind_name(k: PostKind) -> Seq<char> {
    match k {
        PostKind::PrBody => "pr_body"@,
        PostKind::IssueBody => "issue_body"@,
        PostKind::PrComment => "pr_comment"@,
        PostKind::IssueComment => "issue_comment"@,
        PostKind::ReviewBody => "review_body"@,
        PostKind::ReviewComment => "review_comment"@,
    }
}

impl PostKind {
    /// The stored name of the kind.
    pub fn as_str(&self) -> (r: &'static str)
        ensures
            r@ == kind_name(*self),
    {
        match self {
            PostKind::PrBody => "pr_body",
            PostKind::IssueBody => "issue_body",
            PostKind::PrComment => "pr_comment",
            PostKind::IssueComment => "issue_comment",
            PostKind::ReviewBody => "review_body",
            PostKind::ReviewComment => "review_comment",
        }
    }
}

/// A piece of the user's writing found on a page: its id on GitHub, kind,
/// text, link, repository and creation time.
#[derive(Debug)]
pub struct PostCandidate {
    pub external_id: String,
    pub kind: PostKind,
    pub body: String,
    pub url: Option<String>,
    pub repo: String,
    pub created_at: String,
}

/// A candidate as values: (id, kind, body, url, repository, created at).
pub type CandidateView = (Seq<char>, PostKind, Seq<char>, Option<Seq<char>>, Seq<char>, Seq<char>);

impl View for PostCandidate {
    type V = CandidateView;

    open spec fn view(&self) -> CandidateView {
        (
            self.external_id@,
            self.kind,
            self.body@,
            opt_view(self.url),
            self.repo@,
            self.created_at@,
        )
    }
}

/// The views of a sequence of candidates.
pub open spec fn candidate_views(s: Seq<PostCandidate>) -> Seq<CandidateView> {
    s.map_values(|c: PostCandidate| c@)
}

/// The author of a comment or review is the user.
pub open spec fn by_user(login: Option<String>, user: Seq<char>) -> bool {
    match login {
        Some(l) => l@ == user,
        None => false,
    }
}

/// The repository name of an item, empty when it is missing.
pub open spec fn repo_name(repo: Option<String>) -> Seq<char> {
    match repo {
        Some(r) => r@,
        None => Seq::empty(),
    }
}

/// A comment as a candidate of the given kind, when it has an id, a body,
/// a link and a creation time.
pub open spec fn comment_candidate(c: GqlComment, kind: PostKind, repo: Seq<char>) -> Seq<
    CandidateView,
> {
    match (c.id, c.body, c.url, c.created_at) {
        (Some(id), Some(body), Some(url), Some(created)) => seq![
            (id@, kind, body@, Some(url@), repo, created@),
        ],
        _ => Seq::empty(),
    }
}

/// The user's own comments among `cs`, in order, as candidates.
pub open spec fn comment_candidates(
    cs: Seq<GqlComment>,
    user: Seq<char>,
    kind: PostKind,
    repo: Seq<char>,
) -> Seq<CandidateView>
    decreases cs.len(),
{
    if cs.len() == 0 {
        Seq::empty()
    } else {
        comment_candidates(cs.drop_last(), user, kind, repo) + if by_user(
            cs.last().author_login,
            user,
        ) {
            comment_candidate(cs.last(), kind, repo)
        } else {
            Seq::empty()
        }
    }
}

/// A review's own text as a candidate, when it has an id, a non-empty body
/// and a creation time (its link may be missing).
pub open spec fn review_body_candidate(r: GqlReview, repo: Seq<char>) -> Seq<CandidateView> {
    match (r.id, r.body, r.created_at) {
        (Some(id), Some(body), Some(created)) => if body@.len() > 0 {
            seq![(id@, PostKind::ReviewBody, body@, opt_view(r.url), repo, created@)]
        } else {
            Seq::empty()
        },
        _ => Seq::empty(),
    }
}

/// The candidates of a review by the user: its text, then the user's own
/// inline comments on it.
pub open spec fn review_candidates(r: GqlReview, user: Seq<char>, repo: Seq<char>) -> Seq<
    CandidateView,
> {
    if by_user(r.author_login, user) {
        review_body_candidate(r, repo) + match r.comments {
            Some(cs) => comment_candidates(cs@, user, PostKind::ReviewComment, repo),
            None => Seq::empty(),
        }
    } else {
        Seq::empty()
    }
}

/// The candidates of a list of reviews, in order.
pub open spec fn reviews_candidates(rs: Seq<GqlReview>, user: Seq<char>, repo: Seq<char>) -> Seq<
    CandidateView,
>
    decreases rs.len(),
{
    if rs.len() == 0 {
        Seq::empty()
    } else {
        reviews_candidates(rs.drop_last(), user, repo) + review_candidates(rs.last(), user, repo)
    }
}

/// An item's own text as a candidate (a pull request or issue body), when
/// it has an id, a body, a link and a creation time.
pub open spec fn node_body_candidate(n: SearchNode, repo: Seq<char>) -> Seq<CandidateView> {
    let kind = if n.is_pr {
        PostKind::PrBody
    } else {
        PostKind::IssueBody
    };
    match (n.id, n.body, n.url, n.created_at) {
        (Some(id), Some(body), Some(url), Some(created)) => seq![
            (id@, kind, body@, Some(url@), repo, created@),
        ],
        _ => Seq::empty(),
    }
}

/// The user's comments on an item, as candidates.
pub open spec fn node_comment_candidates(n: SearchNode, user: Seq<char>) -> Seq<CandidateView> {
    let kind = if n.is_pr {
        PostKind::PrComment
    } else {
        PostKind::IssueComment
    };
    match n.comments {
        Some(cs) => comment_candidates(cs@, user, kind, repo_name(n.repo)),
        None => Seq::empty(),
    }
}

/// The user's reviews of an item, as candidates.
pub open spec fn node_review_candidates(n: SearchNode, user: Seq<char>) -> Seq<CandidateView> {
    match n.reviews {
        Some(rs) => reviews_candidates(rs@, user, repo_name(n.repo)),
        None => Seq::empty(),
    }
}

/// The candidates of an item: in the authored pass its own text first;
/// then the user's comments on it; then the user's reviews.
pub open spec fn node_candidates(n: SearchNode, user: Seq<char>, authored: bool) -> Seq<
    CandidateView,
> {
    (if authored {
        node_body_candidate(n, repo_name(n.repo))
    } else {
        Seq::empty()
    }) + node_comment_candidates(n, user) + node_review_candidates(n, user)
}

/// The candidates of the items of a page, in order.
pub open spec fn page_candidates(ns: Seq<SearchNode>, user: Seq<char>, authored: bool) -> Seq<
    CandidateView,
>
    decreases ns.len(),
{
    if ns.len() == 0 {
        Seq::empty()
    } else {
        page_candidates(ns.drop_last(), user, authored) + node_candidates(ns.last(), user, authored)
    }
}

/// Copy an optional string.
fn clone_opt(o: &Option<String>) -> (r: Option<String>)
    ensures
        opt_view(r) == opt_view(*o),
{
    match o {
        Some(s) => Some(s.clone()),
        None => None,
    }
}

/// Whether the author of a comment or review is the user.
fn is_by_user(login: &Option<String>, user: &String) -> (r: bool)
    ensures
        r == by_user(*login, user@),
{
    match login {
        Some(l) => *l == *user,
        None => false,
    }
}

/// Add a comment's candidate, if it has one, to `out`.
fn push_comment(out: &mut Vec<PostCandidate>, c: &GqlComment, kind: PostKind, repo: &String)
    ensures
        candidate_views(final(out)@) == candidate_views(old(out)@) + comment_candidate(
            *c,
            kind,
            repo@,
        ),
{
    let ghost before = candidate_views(out@);
    if let (Some(id), Some(body), Some(url), Some(created)) = (
        &c.id,
        &c.body,
        &c.url,
        &c.created_at,
    ) {
        out.push(
            PostCandidate {
                external_id: id.clone(),
                kind,
                body: body.clone(),
                url: Some(url.clone()),
                repo: repo.clone(),
                created_at: created.clone(),
            },
        );
        assert(candidate_views(out@) =~= before + comment_candidate(*c, kind, repo@));
    } else {
        assert(candidate_views(out@) =~= before + comment_candidate(*c, kind, repo@));
    }
}

/// Add the user's own comments among `cs` to `out`.
fn push_comments(
    out: &mut Vec<PostCandidate>,
    cs: &Vec<GqlComment>,
    user: &String,
    kind: PostKind,
    repo: &String,
)
    ensures
        candidate_views(final(out)@) == candidate_views(old(out)@) + comment_candidates(
            cs@,
            user@,
            kind,
            repo@,
        ),
{
    let ghost before = candidate_views(out@);
    for i in 0..cs.len()
        invariant
            candidate_views(out@) == before + comment_candidates(cs@.take(i as int), user@, kind, repo@),
    {
        let ghost t = cs@.take(i + 1);
        proof {
            assert(t.drop_last() =~= cs@.take(i as int));
            assert(t.last() == cs@[i as int]);
        }
        if is_by_user(&cs[i].author_login, user) {
            push_comment(out, &cs[i], kind, repo);
        }
        assert(candidate_views(out@) =~= before + comment_candidates(t, user@, kind, repo@));
    }
    assert(cs@.take(cs@.len() as int) =~= cs@);
}

/// Add the candidates of a review to `out`.
fn push_review(out: &mut Vec<PostCandidate>, r: &GqlReview, user: &String, repo: &String)
    ensures
        candidate_views(final(out)@) == candidate_views(old(out)@) + review_candidates(
            *r,
            user@,
            repo@,
        ),
{
    let ghost before = candidate_views(out@);
    if !is_by_user(&r.author_login, user) {
        assert(candidate_views(out@) =~= before + review_candidates(*r, user@, repo@));
        return ;
    }
    if let (Some(id), Some(body), Some(created)) = (&r.id, &r.body, &r.created_at) {
        if !body.as_str().is_empty() {
            out.push(
                PostCandidate {
                    external_id: id.clone(),
                    kind: PostKind::ReviewBody,
                    body: body.clone(),
                    url: clone_opt(&r.url),
                    repo: repo.clone(),
                    created_at: created.clone(),
                },
            );
        }
    }
    let ghost mid = candidate_views(out@);
    assert(mid =~= before + review_body_candidate(*r, repo@));
    if let Some(cs) = &r.comments {
        push_comments(out, cs, user, PostKind::ReviewComment, repo);
    }
    assert(candidate_views(out@) =~= before + review_candidates(*r, user@, repo@));
}

/// Add the candidates of an item to `out`.
fn push_node(out: &mut Vec<PostCandidate>, n: &SearchNode, user: &String, authored: bool)
    ensures
        candidate_views(final(out)@) == candidate_views(old(out)@) + node_candidates(
            *n,
            user@,
            authored,
        ),
{
    let ghost before = candidate_views(out@);
    let repo = match &n.repo {
        Some(r) => r.clone(),
        None => String::new(),
    };
    if authored {
        if let (Some(id), Some(body), Some(url), Some(created)) = (
            &n.id,
            &n.body,
            &n.url,
            &n.created_at,
        ) {
            let kind = if n.is_pr {
                PostKind::PrBody
            } else {
                PostKind::IssueBody
            };
            out.push(
                PostCandidate {
                    external_id: id.clone(),
                    kind,
                    body: body.clone(),
                    url: Some(url.clone()),
                    repo: repo.clone(),
                    created_at: created.clone(),
                },
            );
        }
    }
    let ghost own = if authored {
        node_body_candidate(*n, repo@)
    } else {
        Seq::empty()
    };
    assert(candidate_views(out@) =~= before + own);
    let kind = if n.is_pr {
        PostKind::PrComment
    } else {
        PostKind::IssueComment
    };
    if let Some(cs) = &n.comments {
        push_comments(out, cs, user, kind, &repo);
    }
    let ghost com = node_comment_candidates(*n, user@);
    assert(candidate_views(out@) =~= before + own + com);
    if let Some(rs) = &n.reviews {
        let ghost mid = candidate_views(out@);
        for i in 0..rs.len()
            invariant
                candidate_views(out@) == mid + reviews_candidates(rs@.take(i as int), user@, repo@),
        {
            let ghost t = rs@.take(i + 1);
            proof {
                assert(t.drop_last() =~= rs@.take(i as int));
                assert(t.last() == rs@[i as int]);
            }
            push_review(out, &rs[i], user, &repo);
            assert(candidate_views(out@) =~= mid + reviews_candidates(t, user@, repo@));
        }
        assert(rs@.take(rs@.len() as int) =~= rs@);
    }
    assert(candidate_views(out@) =~= before + node_candidates(*n, user@, authored));
}

/// The candidates of the items of a page, in order.
pub fn page_candidates_of(nodes: &Vec<SearchNode>, user: &String, authored: bool) -> (r: Vec<
    PostCandidate,
>)
    ensures
        candidate_views(r@) == page_candidates(nodes@, user@, authored),
{
    let mut out: Vec<PostCandidate> = Vec::new();
    assert(candidate_views(out@) =~= Seq::empty());
    for i in 0..nodes.len()
        invariant
            candidate_views(out@) == page_candidates(nodes@.take(i as int), user@, authored),
    {
        let ghost t = nodes@.take(i + 1);
        proof {
            assert(t.drop_last() =~= nodes@.take(i as int));
            assert(t.last() == nodes@[i as int]);
        }
        push_node(&mut out, &nodes[i], user, authored);
    }
    assert(nodes@.take(nodes@.len() as int) =~= nodes@);
    out
}


/// The statement that stores a post, unless a post with the same source and
/// id is already there. Its parameters are the fields of a [`NewPost`], in
/// order.
pub const INSERT_POST_SQL: &'static str = "INSERT OR IGNORE INTO posts (source_id, external_id, post_type, body, url, repo, created_at, likely_ai)
                 VALUES (?, ?, ?, ?, ?, ?, ?, ?)";

/// A post to store.
#[derive(Debug)]
pub struct NewPost {
    pub source_id: i64,
    pub external_id: String,
    pub kind: PostKind,
    pub body: String,
    pub url: Option<String>,
    pub repo: Option<String>,
    pub created_at: String,
    /// 1 when the post was written after the source's AI cutoff date, else 0.
    pub likely_ai: i64,
}

/// A post to store, as values: (source id, id, kind, body, url,
/// repository, created at, likely AI).
pub type NewPostView = (
    i64,
    Seq<char>,
    PostKind,
    Seq<char>,
    Option<Seq<char>>,
    Option<Seq<char>>,
    Seq<char>,
    i64,
);

impl View for NewPost {
    type V = NewPostView;

    open spec fn view(&self) -> NewPostView {
        (
            self.source_id,
            self.external_id@,
            self.kind,
            self.body@,
            opt_view(self.url),
            opt_view(self.repo),
            self.created_at@,
            self.likely_ai,
        )
    }
}

/// The views of a sequence of posts to store.
pub open spec fn new_post_views(s: Seq<NewPost>) -> Seq<NewPostView> {
    s.map_values(|p: NewPost| p@)
}

/// A post counts as likely AI-written when the source has a cutoff date
/// and the post was created after it (the dates compared as text).
pub open spec fn likely_ai_flag(cutoff: Option<String>, created_at: Seq<char>) -> i64 {
    match cutoff {
        Some(c) => if chars_lt(c@, created_at) {
            1
        } else {
            0
        },
        None => 0,
    }
}

/// The row that stores a candidate for a source.
pub open spec fn row_for(source: Source, c: CandidateView) -> NewPostView {
    (source.id, c.0, c.1, c.2, c.3, Some(c.4), c.5, likely_ai_flag(source.ai_cutoff_date, c.5))
}

/// The rows that store candidates for a source: one per candidate whose
/// body is not blank, in order.
pub open spec fn rows_for(source: Source, cs: Seq<CandidateView>) -> Seq<NewPostView>
    decreases cs.len(),
{
    if cs.len() == 0 {
        Seq::empty()
    } else {
        let prev = rows_for(source, cs.drop_last());
        if trim(cs.last().2).len() == 0 {
            prev
        } else {
            prev.push(row_for(source, cs.last()))
        }
    }
}

/// Whether a text is empty or all whitespace.
pub fn is_blank(s: &str) -> (r: bool)
    ensures
        r == (trim(s@).len() == 0),
{
    let cs = chars_of(s);
    let (a, b) = strip_bounds(&cs, 0, cs.len(), false);
    assert(cs@.subrange(0, cs@.len() as int) =~= cs@);
    a == b
}

/// The likely-AI flag of a post created at `created_at` for a source with
/// the given cutoff date.
pub fn likely_ai(cutoff: &Option<String>, created_at: &str) -> (r: i64)
    ensures
        r == likely_ai_flag(*cutoff, created_at@),
{
    match cutoff {
        Some(c) => {
            if chars_less(&chars_of(c.as_str()), &chars_of(created_at)) {
                1
            } else {
                0
            }
        },
        None => 0,
    }
}

/// The rows that store the candidates for a source: blank bodies are
/// skipped, and each row is flagged by the source's AI cutoff date.
pub fn rows_for_candidates(source: &Source, cands: &Vec<PostCandidate>) -> (r: Vec<NewPost>)
    ensures
        new_post_views(r@) == rows_for(*source, candidate_views(cands@)),
{
    let mut out: Vec<NewPost> = Vec::new();
    let ghost cv = candidate_views(cands@);
    assert(new_post_views(out@) =~= rows_for(*source, cv.take(0)));
    for i in 0..cands.len()
        invariant
            cv == candidate_views(cands@),
            new_post_views(out@) == rows_for(*source, cv.take(i as int)),
    {
        let ghost t = cv.take(i + 1);
        let ghost before = new_post_views(out@);
        proof {
            assert(t.drop_last() =~= cv.take(i as int));
            assert(t.last() == cands@[i as int]@);
        }
        let c = &cands[i];
        if !is_blank(c.body.as_str()) {
            out.push(
                NewPost {
                    source_id: source.id,
                    external_id: c.external_id.clone(),
                    kind: c.kind,
                    body: c.body.clone(),
                    url: clone_opt(&c.url),
                    repo: Some(c.repo.clone()),
                    created_at: c.created_at.clone(),
                    likely_ai: likely_ai(&source.ai_cutoff_date, c.created_at.as_str()),
                },
            );
        }
        assert(new_post_views(out@) =~= rows_for(*source, t));
    }
    assert(cv.take(cands@.len() as int) =~= cv);
    out
}

/// Why a page of search results cannot be used.
#[derive(Clone, Debug)]
pub enum ScrapeError {
    /// The response reported errors (rendered).
    GraphqlErrors(String),
    /// The response holds no list of items.
    MissingNodes,
}

impl ScrapeError {
    /// The error message.
    pub fn message(&self) -> (r: String)
        ensures
            r@ == match self {
                ScrapeError::GraphqlErrors(e) => "GraphQL errors: "@ + e@,
                ScrapeError::MissingNodes => "missing search nodes"@,
            },
    {
        match self {
            ScrapeError::GraphqlErrors(e) => String::from_str("GraphQL errors: ").concat(e.as_str()),
            ScrapeError::MissingNodes => String::from_str("missing search nodes"),
        }
    }
}

/// The rows to store from a page of the authored (or the commented) pass
/// for a source: the user's own writing on the page, without blank bodies.
/// A response with errors, or without a list of items, is refused.
pub fn page_rows(source: &Source, page: &SearchResponse, authored: bool) -> (r: Result<
    Vec<NewPost>,
    ScrapeError,
>)
    ensures
        match r {
            Ok(rows) => page.errors is None && page.nodes is Some && new_post_views(rows@)
                == rows_for(
                *source,
                page_candidates(page.nodes.unwrap()@, source.username@, authored),
            ),
            Err(ScrapeError::GraphqlErrors(e)) => page.errors == Some(e),
            Err(ScrapeError::MissingNodes) => page.errors is None && page.nodes is None,
        },
{
    if let Some(e) = &page.errors {
        return Err(ScrapeError::GraphqlErrors(e.clone()));
    }
    match &page.nodes {
        Some(nodes) => {
            let cands = page_candidates_of(nodes, &source.username, authored);
            Ok(rows_for_candidates(source, &cands))
        },
        None => Err(ScrapeError::MissingNodes),
    }
}

impl ScrapeState {
    /// The rows to store from a page of the running pass.
    pub fn rows(&self, source: &Source, page: &SearchResponse) -> (r: Result<
        Vec<NewPost>,
        ScrapeError,
    >)
        ensures
            match r {
                Ok(rows) => page.errors is None && page.nodes is Some && new_post_views(rows@)
                    == rows_for(
                    *source,
                    page_candidates(
                        page.nodes.unwrap()@,
                        source.username@,
                        self.pass == Pass::Authored,
                    ),
                ),
                Err(ScrapeError::GraphqlErrors(e)) => page.errors == Some(e),
                Err(ScrapeError::MissingNodes) => page.errors is None && page.nodes is None,
            },
    {
        let authored = match self.pass {
            Pass::Authored => true,
            _ => false,
        };
        page_rows(source, page, authored)
    }
}


/// Every stored row belongs to the source, has a body that is not blank,
/// and is flagged 0 or 1, by the source's cutoff date (never without one);
/// there are no more rows than candidates.
pub proof fn lemma_rows_for(source: Source, cs: Seq<CandidateView>)
    ensures
        rows_for(source, cs).len() <= cs.len(),
        forall|k: int|
            0 <= k < rows_for(source, cs).len() ==> {
                let row = #[trigger] rows_for(source, cs)[k];
                &&& row.0 == source.id
                &&& trim(row.3).len() > 0
                &&& row.7 == likely_ai_flag(source.ai_cutoff_date, row.6)
                &&& (row.7 == 0 || row.7 == 1)
                &&& (source.ai_cutoff_date is None ==> row.7 == 0)
            },
    decreases cs.len(),
{
    if cs.len() > 0 {
        lemma_rows_for(source, cs.drop_last());
        let prev = rows_for(source, cs.drop_last());
        assert forall|k: int| 0 <= k < rows_for(source, cs).len() implies {
            let row = #[trigger] rows_for(source, cs)[k];
            &&& row.0 == source.id
            &&& trim(row.3).len() > 0
            &&& row.7 == likely_ai_flag(source.ai_cutoff_date, row.6)
            &&& (row.7 == 0 || row.7 == 1)
            &&& (source.ai_cutoff_date is None ==> row.7 == 0)
        } by {
            if k < prev.len() {
                assert(rows_for(source, cs)[k] == prev[k]);
            }
        }
    }
}

/// The user's comments among `cs` are all candidates of the given kind.
proof fn lemma_comment_kinds(cs: Seq<GqlComment>, user: Seq<char>, kind: PostKind, repo: Seq<char>)
    ensures
        forall|k: int|
            0 <= k < comment_candidates(cs, user, kind, repo).len() ==> (#[trigger] comment_candidates(
                cs,
                user,
                kind,
                repo,
            )[k]).1 == kind,
    decreases cs.len(),
{
    if cs.len() > 0 {
        lemma_comment_kinds(cs.drop_last(), user, kind, repo);
        let prev = comment_candidates(cs.drop_last(), user, kind, repo);
        assert forall|k: int| 0 <= k < comment_candidates(cs, user, kind, repo).len() implies (
        #[trigger] comment_candidates(cs, user, kind, repo)[k]).1 == kind by {
            if k < prev.len() {
                assert(comment_candidates(cs, user, kind, repo)[k] == prev[k]);
            }
        }
    }
}

/// The candidates of reviews are review texts and review comments.
proof fn lemma_review_kinds(rs: Seq<GqlReview>, user: Seq<char>, repo: Seq<char>)
    ensures
        forall|k: int|
            0 <= k < reviews_candidates(rs, user, repo).len() ==> {
                let kind = (#[trigger] reviews_candidates(rs, user, repo)[k]).1;
                kind == PostKind::ReviewBody || kind == PostKind::ReviewComment
            },
    decreases rs.len(),
{
    if rs.len() > 0 {
        lemma_review_kinds(rs.drop_last(), user, repo);
        let prev = reviews_candidates(rs.drop_last(), user, repo);
        let r = rs.last();
        let own = review_candidates(r, user, repo);
        if by_user(r.author_login, user) {
            match r.comments {
                Some(cs) => lemma_comment_kinds(cs@, user, PostKind::ReviewComment, repo),
                None => {},
            }
        }
        assert forall|k: int| 0 <= k < reviews_candidates(rs, user, repo).len() implies {
            let kind = (#[trigger] reviews_candidates(rs, user, repo)[k]).1;
            kind == PostKind::ReviewBody || kind == PostKind::ReviewComment
        } by {
            if k < prev.len() {
                assert(reviews_candidates(rs, user, repo)[k] == prev[k]);
            } else {
                let j = k - prev.len();
                assert(reviews_candidates(rs, user, repo)[k] == own[j]);
                if by_user(r.author_login, user) {
                    let b = review_body_candidate(r, repo);
                    if j >= b.len() {
                        assert(own[j] == match r.comments {
                            Some(cs) => comment_candidates(cs@, user, PostKind::ReviewComment, repo),
                            None => Seq::<CandidateView>::empty(),
                        }[j - b.len()]);
                    }
                }
            }
        }
    }
}

/// The commented pass never stores an item's own text: all it finds are
/// the user's comments and reviews.
pub proof fn lemma_commented_pass_skips_item_text(ns: Seq<SearchNode>, user: Seq<char>)
    ensures
        forall|k: int|
            0 <= k < page_candidates(ns, user, false).len() ==> {
                let kind = (#[trigger] page_candidates(ns, user, false)[k]).1;
                kind != PostKind::PrBody && kind != PostKind::IssueBody
            },
    decreases ns.len(),
{
    if ns.len() > 0 {
        lemma_commented_pass_skips_item_text(ns.drop_last(), user);
        let prev = page_candidates(ns.drop_last(), user, false);
        let n = ns.last();
        let com = node_comment_candidates(n, user);
        let rev = node_review_candidates(n, user);
        let kind = if n.is_pr {
            PostKind::PrComment
        } else {
            PostKind::IssueComment
        };
        match n.comments {
            Some(cs) => lemma_comment_kinds(cs@, user, kind, repo_name(n.repo)),
            None => {},
        }
        match n.reviews {
            Some(rs) => lemma_review_kinds(rs@, user, repo_name(n.repo)),
            None => {},
        }
        assert(node_candidates(n, user, false) =~= com + rev);
        assert forall|k: int| 0 <= k < page_candidates(ns, user, false).len() implies {
            let kind = (#[trigger] page_candidates(ns, user, false)[k]).1;
            kind != PostKind::PrBody && kind != PostKind::IssueBody
        } by {
            if k < prev.len() {
                assert(page_candidates(ns, user, false)[k] == prev[k]);
            } else if k < prev.len() + com.len() {
                assert(page_candidates(ns, user, false)[k] == com[k - prev.len()]);
            } else {
                assert(page_candidates(ns, user, false)[k] == rev[k - prev.len() - com.len()]);
            }
        }
    }
}

/// In either pass, the request for the page after a cursor carries that
/// cursor: its query holds `, after: "<cursor>"`, and it is the first-page
/// query lengthened by exactly that clause.
pub proof fn lemma_cursor_in_query(authored: bool, c: Seq<char>)
    ensures
        crate::text::contains_seq(query_text(authored, Some(c)), ", after: \""@ + c + "\""@),
        query_text(authored, Some(c)).len() == query_text(authored, None).len() + c.len() + 11,
{
    reveal_strlit(", after: \"");
    reveal_strlit("\"");
    let clause = ", after: \""@ + c + "\""@;
    let tail = if authored {
        AUTHORED_TAIL@
    } else {
        COMMENTED_TAIL@
    };
    assert(query_text(authored, Some(c)) == SEARCH_HEAD@ + clause + tail);
    assert(query_text(authored, None) =~= SEARCH_HEAD@ + tail);
    crate::text::lemma_contains_self(clause);
    crate::text::lemma_contains_within(SEARCH_HEAD@, clause, tail, clause);
}

/// The candidates of comments carry the repository they were found in.
proof fn lemma_comment_candidates_repo(
    cs: Seq<GqlComment>,
    user: Seq<char>,
    kind: PostKind,
    repo: Seq<char>,
)
    ensures
        forall|k: int|
            0 <= k < comment_candidates(cs, user, kind, repo).len() ==> (
            #[trigger] comment_candidates(cs, user, kind, repo)[k]).4 == repo,
    decreases cs.len(),
{
    if cs.len() > 0 {
        lemma_comment_candidates_repo(cs.drop_last(), user, kind, repo);
        let prev = comment_candidates(cs.drop_last(), user, kind, repo);
        assert forall|k: int| 0 <= k < comment_candidates(cs, user, kind, repo).len() implies (
        #[trigger] comment_candidates(cs, user, kind, repo)[k]).4 == repo by {
            if k < prev.len() {
                assert(comment_candidates(cs, user, kind, repo)[k] == prev[k]);
            }
        }
    }
}

/// The candidates of reviews carry the repository they were found in.
proof fn lemma_review_candidates_repo(rs: Seq<GqlReview>, user: Seq<char>, repo: Seq<char>)
    ensures
        forall|k: int|
            0 <= k < reviews_candidates(rs, user, repo).len() ==> (#[trigger] reviews_candidates(
                rs,
                user,
                repo,
            )[k]).4 == repo,
    decreases rs.len(),
{
    if rs.len() > 0 {
        lemma_review_candidates_repo(rs.drop_last(), user, repo);
        let prev = reviews_candidates(rs.drop_last(), user, repo);
        let r = rs.last();
        let own = review_candidates(r, user, repo);
        let body = review_body_candidate(r, repo);
        let com = match r.comments {
            Some(cs) => comment_candidates(cs@, user, PostKind::ReviewComment, repo),
            None => Seq::<CandidateView>::empty(),
        };
        match r.comments {
            Some(cs) => lemma_comment_candidates_repo(cs@, user, PostKind::ReviewComment, repo),
            None => {},
        }
        assert forall|k: int| 0 <= k < reviews_candidates(rs, user, repo).len() implies (
        #[trigger] reviews_candidates(rs, user, repo)[k]).4 == repo by {
            if k < prev.len() {
                assert(reviews_candidates(rs, user, repo)[k] == prev[k]);
            } else {
                let j = k - prev.len();
                assert(reviews_candidates(rs, user, repo)[k] == own[j]);
                if by_user(r.author_login, user) {
                    assert(own == body + com);
                    if j >= body.len() {
                        assert(own[j] == com[j - body.len()]);
                    }
                }
            }
        }
    }
}

/// Everything found on an item — its own text, the user's comments and
/// reviews, and their inline comments — is stored with the item's
/// repository.
pub proof fn lemma_node_candidates_repo(n: SearchNode, user: Seq<char>, authored: bool)
    ensures
        forall|k: int|
            0 <= k < node_candidates(n, user, authored).len() ==> (#[trigger] node_candidates(
                n,
                user,
                authored,
            )[k]).4 == repo_name(n.repo),
{
    let repo = repo_name(n.repo);
    let own = if authored {
        node_body_candidate(n, repo)
    } else {
        Seq::<CandidateView>::empty()
    };
    let com = node_comment_candidates(n, user);
    let rev = node_review_candidates(n, user);
    let kind = if n.is_pr {
        PostKind::PrComment
    } else {
        PostKind::IssueComment
    };
    match n.comments {
        Some(cs) => lemma_comment_candidates_repo(cs@, user, kind, repo),
        None => {},
    }
    match n.reviews {
        Some(rs) => lemma_review_candidates_repo(rs@, user, repo),
        None => {},
    }
    assert forall|k: int| 0 <= k < node_candidates(n, user, authored).len() implies (
    #[trigger] node_candidates(n, user, authored)[k]).4 == repo by {
        assert(node_candidates(n, user, authored) == own + com + rev);
        if k < own.len() {
            assert(node_candidates(n, user, authored)[k] == own[k]);
        } else if k < own.len() + com.len() {
            assert(node_candidates(n, user, authored)[k] == com[k - own.len()]);
        } else {
            assert(node_candidates(n, user, authored)[k] == rev[k - own.len() - com.len()]);
        }
    }
}

/// Every candidate of a page is stored with the repository of an item of
/// that page.
pub proof fn lemma_page_candidates_repo(ns: Seq<SearchNode>, user: Seq<char>, authored: bool)
    ensures
        forall|k: int|
            0 <= k < page_candidates(ns, user, authored).len() ==> exists|i: int|
                0 <= i < ns.len() && (#[trigger] page_candidates(ns, user, authored)[k]).4
                    == repo_name(#[trigger] ns[i].repo),
    decreases ns.len(),
{
    if ns.len() > 0 {
        lemma_page_candidates_repo(ns.drop_last(), user, authored);
        lemma_node_candidates_repo(ns.last(), user, authored);
        let prev = page_candidates(ns.drop_last(), user, authored);
        let last = node_candidates(ns.last(), user, authored);
        assert forall|k: int| 0 <= k < page_candidates(ns, user, authored).len() implies exists|
            i: int,
        |
            0 <= i < ns.len() && (#[trigger] page_candidates(ns, user, authored)[k]).4
                == repo_name(#[trigger] ns[i].repo) by {
            if k < prev.len() {
                assert(page_candidates(ns, user, authored)[k] == prev[k]);
                let i = choose|i: int|
                    0 <= i < ns.drop_last().len() && prev[k].4 == repo_name(
                        #[trigger] ns.drop_last()[i].repo,
                    );
                assert(ns.drop_last()[i] == ns[i]);
            } else {
                assert(page_candidates(ns, user, authored)[k] == last[k - prev.len()]);
                assert(ns[ns.len() - 1] == ns.last());
            }
        }
    }
}

} // verus!
