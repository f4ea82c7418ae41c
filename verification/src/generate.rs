//! The generated writing guides: a voice profile in Markdown and, per post
//! type, a file of curated examples.

use vstd::prelude::*;

use crate::analyze::{Ngram, PunctuationEntry, TypeSummary, VoiceProfile};
use crate::models::Post;
use crate::order::{sort_strings, sorted_strings};
use crate::text::{
    contains_seq, decimal, lemma_char_not_in_concat, lemma_contains_char, lemma_contains_self,
    lemma_contains_within, push_decimal,
};

verus! {

/// Options for generating the guides.
pub struct GenerateOpts {
    /// Where the files go.
    pub output_dir: String,
    /// Print everything instead of writing files.
    pub stdout: bool,
    /// Only this post type.
    pub post_type: Option<String>,
    /// Only posts matching this full-text search.
    pub topic: Option<String>,
    /// Examples per post type, at most.
    pub limit: usize,
    /// Leave out posts flagged as likely AI.
    pub exclude_ai: bool,
    /// Only posts of this source.
    pub source_id: Option<i64>,
}

impl GenerateOpts {
    /// The default options, writing into `output_dir`: files, every post
    /// type and topic, ten examples per type, no posts flagged as likely AI,
    /// every source.
    pub fn new(output_dir: String) -> (r: GenerateOpts)
        ensures
            r.output_dir == output_dir,
            !r.stdout,
            r.post_type is None,
            r.topic is None,
            r.limit == 10,
            r.exclude_ai,
            r.source_id is None,
    {
        GenerateOpts {
            output_dir,
            stdout: false,
            post_type: None,
            topic: None,
            limit: 10,
            exclude_ai: true,
            source_id: None,
        }
    }
}

/// A post's repository, `unknown` when it has none.
pub open spec fn repo_label(repo: Option<String>) -> Seq<char> {
    match repo {
        Some(r) => r@,
        None => "unknown"@,
    }
}

/// The link line of an example, when the post has a non-empty link.
pub open spec fn url_block(url: Option<String>) -> Seq<char> {
    match url {
        Some(u) => if u@.len() > 0 {
            u@ + "\n\n"@
        } else {
            Seq::empty()
        },
        None => Seq::empty(),
    }
}

/// The section of the `i`-th example (counted from 0).
pub open spec fn example_section(i: nat, p: Post) -> Seq<char> {
    "## "@ + decimal(i + 1) + " ("@ + repo_label(p.repo) + ", "@ + p.created_at@ + ")\n\n"@
        + url_block(p.url) + p.body@ + "\n\n---\n\n"@
}

/// The sections of the examples, in order.
pub open spec fn example_sections(ps: Seq<&Post>) -> Seq<char>
    decreases ps.len(),
{
    if ps.len() == 0 {
        Seq::empty()
    } else {
        example_sections(ps.drop_last()) + example_section(
            (ps.len() - 1) as nat,
            *ps.last(),
        )
    }
}

/// The examples file of a post type: a title, the number of examples, and
/// a section per example with its number, repository, date, link and text.
pub open spec fn examples_text(post_type: Seq<char>, ps: Seq<&Post>) -> Seq<char> {
    "# Examples: "@ + post_type + "\n\n"@ + decimal(ps.len()) + " curated examples.\n\n"@
        + example_sections(ps)
}

/// Append the section of the `i`-th example.
fn push_example(out: &mut String, i: usize, post: &Post)
    requires
        i < usize::MAX,
    ensures
        final(out)@ == old(out)@ + example_section(i as nat, *post),
{
    out.append("## ");
    push_decimal(out, i + 1);
    out.append(" (");
    match &post.repo {
        Some(repo) => out.append(repo.as_str()),
        None => out.append("unknown"),
    }
    out.append(", ");
    out.append(post.created_at.as_str());
    out.append(")\n\n");
    let ghost mid = out@;
    if let Some(url) = &post.url {
        if !url.as_str().is_empty() {
            out.append(url.as_str());
            out.append("\n\n");
        }
    }
    assert(out@ =~= mid + url_block(post.url));
    out.append(post.body.as_str());
    out.append("\n\n---\n\n");
    assert(out@ =~= old(out)@ + example_section(i as nat, *post));
}

/// Render the examples file of a post type.
pub fn render_examples(post_type: &str, examples: &[&Post]) -> (r: String)
    ensures
        r@ == examples_text(post_type@, examples@),
{
    let mut out = String::from_str("# Examples: ");
    out.append(post_type);
    out.append("\n\n");
    push_decimal(&mut out, examples.len());
    out.append(" curated examples.\n\n");
    let ghost head = out@;
    assert(head + example_sections(examples@.take(0)) =~= head);
    for i in 0..examples.len()
        invariant
            out@ == head + example_sections(examples@.take(i as int)),
    {
        let ghost before = out@;
        push_example(&mut out, i, examples[i]);
        proof {
            let t = examples@.take(i + 1);
            assert(t.drop_last() =~= examples@.take(i as int));
            assert(t.last() == examples@[i as int]);
            assert(out@ =~= before + example_section(i as nat, *examples@[i as int]));
        }
    }
    assert(examples@.take(examples@.len() as int) =~= examples@);
    out
}

/// Calls `String::push`. Trusted, not proved: `c` is appended to the end of
/// `s`, and nothing else of `s` changes.
#[verifier::external_body]
fn push_char(s: &mut String, c: char)
    ensures
        final(s)@ == old(s)@.push(c),
{
    s.push(c);
}

/// The figures of a voice profile that are averages, medians or
/// percentages, formatted for display.
pub struct ProfileFigures {
    /// Average words per post.
    pub avg_words: String,
    /// Median words per post.
    pub median_words: String,
    /// Average words per sentence.
    pub avg_sentence_words: String,
    /// Average sentences per post.
    pub avg_sentences_per_post: String,
    /// Percentage of posts that start in lower case.
    pub lowercase_start_pct: String,
    /// Percentage of posts with contractions.
    pub contraction_pct: String,
    /// Percentage of posts with questions.
    pub question_pct: String,
}

/// The formatted figures of a post type's summary.
pub struct TypeFigures {
    pub avg_words: String,
    pub median_words: String,
    pub lowercase_start_pct: String,
    pub question_pct: String,
}

/// The title and the table of word counts.
pub open spec fn word_table(p: VoiceProfile, f: ProfileFigures) -> Seq<char> {
    "# Voice Profile\n\n"@ + "Generated from "@ + decimal(p.total_posts as nat)
        + " authentic posts.\n\n"@ + "## Word Count\n\n"@
        + "| Metric | Value |\n|---|---|\n| Average | "@ + f.avg_words@ + " |\n| Median | "@
        + f.median_words@ + " |\n| Min | "@ + decimal(p.word_count.min as nat) + " |\n| Max | "@
        + decimal(p.word_count.max as nat) + " |\n\n"@
}

/// The table of sentences.
pub open spec fn sentence_table(f: ProfileFigures) -> Seq<char> {
    "## Sentence Structure\n\n"@
        + "| Metric | Value |\n|---|---|\n| Avg words per sentence | "@ + f.avg_sentence_words@
        + " |\n| Avg sentences per post | "@ + f.avg_sentences_per_post@ + " |\n\n"@
}

/// The table of style patterns.
pub open spec fn style_table(f: ProfileFigures) -> Seq<char> {
    "## Style Patterns\n\n"@ + "| Pattern | Rate |\n|---|---|\n| Starts with lowercase | "@
        + f.lowercase_start_pct@ + "% |\n| Contains contractions | "@ + f.contraction_pct@
        + "% |\n| Contains questions | "@ + f.question_pct@ + "% |\n\n"@
}

/// The title and the tables of word counts, sentences and style.
pub open spec fn profile_head(p: VoiceProfile, f: ProfileFigures) -> Seq<char> {
    word_table(p, f) + sentence_table(f) + style_table(f)
}

/// How a punctuation character is shown in a Markdown table cell.
pub open spec fn char_cell(c: char) -> Seq<char> {
    if c == '`' {
        "`` ` ``"@
    } else if c == '|' {
        "\\|"@
    } else {
        seq!['`', c, '`']
    }
}

/// The table row of a punctuation character.
pub open spec fn punct_row(e: PunctuationEntry) -> Seq<char> {
    "| "@ + char_cell(e.char) + " | "@ + decimal(e.count as nat) + " | "@ + decimal(
        e.posts_with as nat,
    ) + " |\n"@
}

/// The table rows of the punctuation inventory, in order.
pub open spec fn punct_rows(es: Seq<PunctuationEntry>) -> Seq<char>
    decreases es.len(),
{
    if es.len() == 0 {
        Seq::empty()
    } else {
        punct_rows(es.drop_last()) + punct_row(es.last())
    }
}

/// Some entry of the inventory is the character `c`.
pub open spec fn has_punct(es: Seq<PunctuationEntry>, c: char) -> bool {
    exists|k: int| 0 <= k < es.len() && (#[trigger] es[k]).char == c
}

/// What a profile says of semicolons.
pub open spec fn semicolon_note() -> Seq<char> {
    "semicolons (`;`)"@
}

/// What a profile says of dashes.
pub open spec fn dash_note() -> Seq<char> {
    "em-dashes (`\u{2014}`) and en-dashes (`\u{2013}`)"@
}

/// The note on punctuation that the writing never uses: semicolons, and
/// em- and en-dashes (either of the two counts as used).
pub open spec fn absences_note(es: Seq<PunctuationEntry>) -> Seq<char> {
    let semi = has_punct(es, ';');
    let dash = has_punct(es, '\u{2014}') || has_punct(es, '\u{2013}');
    if semi && dash {
        Seq::empty()
    } else {
        "\n**Notable absences:** "@ + (if !semi && !dash {
            semicolon_note() + ", "@ + dash_note()
        } else if !semi {
            semicolon_note()
        } else {
            dash_note()
        }) + " are not used in authentic writing.\n"@
    }
}

/// The punctuation section: the inventory table and the note on absences.
pub open spec fn punct_section(es: Seq<PunctuationEntry>) -> Seq<char> {
    "## Punctuation Inventory\n\n"@ + "| Char | Total uses | Posts containing |\n|---|---|---|\n"@
        + punct_rows(es) + absences_note(es) + "\n"@
}

/// The table row of a phrase.
pub open spec fn ngram_row(n: Ngram) -> Seq<char> {
    "| "@ + n.words@ + " | "@ + decimal(n.count as nat) + " |\n"@
}

/// The table rows of phrases, in order.
pub open spec fn ngram_rows(ns: Seq<Ngram>) -> Seq<char>
    decreases ns.len(),
{
    if ns.len() == 0 {
        Seq::empty()
    } else {
        ngram_rows(ns.drop_last()) + ngram_row(ns.last())
    }
}

/// A section of common phrases under `title`; nothing when there are none.
pub open spec fn ngram_section(title: Seq<char>, ns: Seq<Ngram>) -> Seq<char> {
    if ns.len() == 0 {
        Seq::empty()
    } else {
        title + "| Phrase | Count |\n|---|---|\n"@ + ngram_rows(ns) + "\n"@
    }
}

/// The table row of a post type.
pub open spec fn type_row(t: TypeSummary, f: TypeFigures) -> Seq<char> {
    "| "@ + t.post_type@ + " | "@ + decimal(t.count as nat) + " | "@ + f.avg_words@ + " | "@
        + f.median_words@ + " | "@ + f.lowercase_start_pct@ + "% | "@ + f.question_pct@
        + "% |\n"@
}

/// The table rows of the post types, each with its figures, in order.
pub open spec fn type_rows(ts: Seq<TypeSummary>, fs: Seq<TypeFigures>) -> Seq<char>
    decreases ts.len(),
{
    if ts.len() == 0 {
        Seq::empty()
    } else {
        type_rows(ts.drop_last(), fs.drop_last()) + type_row(ts.last(), fs.last())
    }
}

/// The section of the post types.
pub open spec fn type_section(ts: Seq<TypeSummary>, fs: Seq<TypeFigures>) -> Seq<char> {
    "## By Post Type\n\n"@
        + "| Type | Count | Avg words | Median words | Lowercase start | Questions |\n|---|---|---|---|---|---|\n"@
        + type_rows(ts, fs) + "\n"@
}

/// The voice profile in Markdown.
pub open spec fn voice_profile_text(
    p: VoiceProfile,
    ts: Seq<TypeSummary>,
    f: ProfileFigures,
    fs: Seq<TypeFigures>,
) -> Seq<char> {
    profile_head(p, f) + punct_section(p.punctuation@) + ngram_section(
        "## Common Bigrams\n\n"@,
        p.bigrams@,
    ) + ngram_section("## Common Trigrams\n\n"@, p.trigrams@) + type_section(ts, fs)
}

/// Append the title and the table of word counts.
fn push_word_table(out: &mut String, p: &VoiceProfile, f: &ProfileFigures)
    ensures
        final(out)@ == old(out)@ + word_table(*p, *f),
{
    out.append("# Voice Profile\n\n");
    out.append("Generated from ");
    push_decimal(out, p.total_posts);
    out.append(" authentic posts.\n\n");
    out.append("## Word Count\n\n");
    out.append("| Metric | Value |\n|---|---|\n| Average | ");
    out.append(f.avg_words.as_str());
    out.append(" |\n| Median | ");
    out.append(f.median_words.as_str());
    out.append(" |\n| Min | ");
    push_decimal(out, p.word_count.min);
    out.append(" |\n| Max | ");
    push_decimal(out, p.word_count.max);
    out.append(" |\n\n");
    assert(out@ =~= old(out)@ + word_table(*p, *f));
}

/// Append the table of sentences.
fn push_sentence_table(out: &mut String, f: &ProfileFigures)
    ensures
        final(out)@ == old(out)@ + sentence_table(*f),
{
    out.append("## Sentence Structure\n\n");
    out.append("| Metric | Value |\n|---|---|\n| Avg words per sentence | ");
    out.append(f.avg_sentence_words.as_str());
    out.append(" |\n| Avg sentences per post | ");
    out.append(f.avg_sentences_per_post.as_str());
    out.append(" |\n\n");
    assert(out@ =~= old(out)@ + sentence_table(*f));
}

/// Append the table of style patterns.
fn push_style_table(out: &mut String, f: &ProfileFigures)
    ensures
        final(out)@ == old(out)@ + style_table(*f),
{
    out.append("## Style Patterns\n\n");
    out.append("| Pattern | Rate |\n|---|---|\n| Starts with lowercase | ");
    out.append(f.lowercase_start_pct.as_str());
    out.append("% |\n| Contains contractions | ");
    out.append(f.contraction_pct.as_str());
    out.append("% |\n| Contains questions | ");
    out.append(f.question_pct.as_str());
    out.append("% |\n\n");
    assert(out@ =~= old(out)@ + style_table(*f));
}

/// Append how a punctuation character is shown in a table cell.
fn push_char_cell(out: &mut String, c: char)
    ensures
        final(out)@ == old(out)@ + char_cell(c),
{
    if c == '`' {
        out.append("`` ` ``");
    } else if c == '|' {
        out.append("\\|");
    } else {
        proof {
            reveal_strlit("`");
        }
        out.append("`");
        push_char(out, c);
        out.append("`");
        assert(out@ =~= old(out)@ + char_cell(c));
    }
}

/// Whether some entry of the inventory is the character `c`.
fn has_punct_char(es: &Vec<PunctuationEntry>, c: char) -> (r: bool)
    ensures
        r == has_punct(es@, c),
{
    for k in 0..es.len()
        invariant
            forall|j: int| 0 <= j < k ==> (#[trigger] es@[j]).char != c,
    {
        if es[k].char == c {
            assert(es@[k as int].char == c);
            return true;
        }
    }
    false
}

/// Append the table row of a punctuation character.
fn push_punct_row(out: &mut String, e: PunctuationEntry)
    ensures
        final(out)@ == old(out)@ + punct_row(e),
{
    out.append("| ");
    push_char_cell(out, e.char);
    out.append(" | ");
    push_decimal(out, e.count);
    out.append(" | ");
    push_decimal(out, e.posts_with);
    out.append(" |\n");
    assert(out@ =~= old(out)@ + punct_row(e));
}

/// Append the punctuation section.
fn push_punct_section(out: &mut String, es: &Vec<PunctuationEntry>)
    ensures
        final(out)@ == old(out)@ + punct_section(es@),
{
    out.append("## Punctuation Inventory\n\n");
    out.append("| Char | Total uses | Posts containing |\n|---|---|---|\n");
    let ghost head = out@;
    assert(head + punct_rows(es@.take(0)) =~= head);
    for k in 0..es.len()
        invariant
            out@ == head + punct_rows(es@.take(k as int)),
    {
        push_punct_row(out, es[k]);
        proof {
            let t = es@.take(k + 1);
            assert(t.drop_last() =~= es@.take(k as int));
            assert(t.last() == es@[k as int]);
        }
    }
    assert(es@.take(es@.len() as int) =~= es@);
    let ghost rows = out@;
    let semi = has_punct_char(es, ';');
    let dash = has_punct_char(es, '\u{2014}') || has_punct_char(es, '\u{2013}');
    if !semi || !dash {
        out.append("\n**Notable absences:** ");
        if !semi && !dash {
            out.append("semicolons (`;`)");
            out.append(", ");
            out.append("em-dashes (`\u{2014}`) and en-dashes (`\u{2013}`)");
        } else if !semi {
            out.append("semicolons (`;`)");
        } else {
            out.append("em-dashes (`\u{2014}`) and en-dashes (`\u{2013}`)");
        }
        out.append(" are not used in authentic writing.\n");
    }
    assert(out@ =~= rows + absences_note(es@));
    out.append("\n");
    assert(out@ =~= old(out)@ + punct_section(es@));
}

/// Append the table row of a phrase.
fn push_ngram_row(out: &mut String, n: &Ngram)
    ensures
        final(out)@ == old(out)@ + ngram_row(*n),
{
    out.append("| ");
    out.append(n.words.as_str());
    out.append(" | ");
    push_decimal(out, n.count);
    out.append(" |\n");
    assert(out@ =~= old(out)@ + ngram_row(*n));
}

/// Append a section of common phrases under `title`, when there are any.
fn push_ngram_section(out: &mut String, title: &str, ns: &Vec<Ngram>)
    ensures
        final(out)@ == old(out)@ + ngram_section(title@, ns@),
{
    if ns.len() == 0 {
        assert(out@ =~= old(out)@ + ngram_section(title@, ns@));
        return ;
    }
    out.append(title);
    out.append("| Phrase | Count |\n|---|---|\n");
    let ghost head = out@;
    assert(head + ngram_rows(ns@.take(0)) =~= head);
    for k in 0..ns.len()
        invariant
            out@ == head + ngram_rows(ns@.take(k as int)),
    {
        push_ngram_row(out, &ns[k]);
        proof {
            let t = ns@.take(k + 1);
            assert(t.drop_last() =~= ns@.take(k as int));
            assert(t.last() == ns@[k as int]);
        }
    }
    assert(ns@.take(ns@.len() as int) =~= ns@);
    out.append("\n");
    assert(out@ =~= old(out)@ + ngram_section(title@, ns@));
}

/// Append the table row of a post type.
fn push_type_row(out: &mut String, t: &TypeSummary, f: &TypeFigures)
    ensures
        final(out)@ == old(out)@ + type_row(*t, *f),
{
    out.append("| ");
    out.append(t.post_type.as_str());
    out.append(" | ");
    push_decimal(out, t.count);
    out.append(" | ");
    out.append(f.avg_words.as_str());
    out.append(" | ");
    out.append(f.median_words.as_str());
    out.append(" | ");
    out.append(f.lowercase_start_pct.as_str());
    out.append("% | ");
    out.append(f.question_pct.as_str());
    out.append("% |\n");
    assert(out@ =~= old(out)@ + type_row(*t, *f));
}

/// Append the section of the post types.
fn push_type_section(out: &mut String, ts: &[TypeSummary], fs: &[TypeFigures])
    requires
        ts@.len() == fs@.len(),
    ensures
        final(out)@ == old(out)@ + type_section(ts@, fs@),
{
    out.append("## By Post Type\n\n");
    out.append(
        "| Type | Count | Avg words | Median words | Lowercase start | Questions |\n|---|---|---|---|---|---|\n",
    );
    let ghost head = out@;
    assert(head + type_rows(ts@.take(0), fs@.take(0)) =~= head);
    for k in 0..ts.len()
        invariant
            ts@.len() == fs@.len(),
            out@ == head + type_rows(ts@.take(k as int), fs@.take(k as int)),
    {
        push_type_row(out, &ts[k], &fs[k]);
        proof {
            let tt = ts@.take(k + 1);
            let ft = fs@.take(k + 1);
            assert(tt.drop_last() =~= ts@.take(k as int));
            assert(ft.drop_last() =~= fs@.take(k as int));
            assert(tt.last() == ts@[k as int]);
            assert(ft.last() == fs@[k as int]);
        }
    }
    assert(ts@.take(ts@.len() as int) =~= ts@);
    assert(fs@.take(fs@.len() as int) =~= fs@);
    out.append("\n");
    assert(out@ =~= old(out)@ + type_section(ts@, fs@));
}

/// Render the voice profile: its figures, punctuation, common phrases and
/// post types, with the fractional figures as `figures` and `type_figures`
/// (one per summary) give them.
pub fn render_voice_profile(
    profile: &VoiceProfile,
    type_summaries: &[TypeSummary],
    figures: &ProfileFigures,
    type_figures: &[TypeFigures],
) -> (r: String)
    requires
        type_summaries@.len() == type_figures@.len(),
    ensures
        r@ == voice_profile_text(*profile, type_summaries@, *figures, type_figures@),
{
    let mut out = String::new();
    push_word_table(&mut out, profile, figures);
    push_sentence_table(&mut out, figures);
    push_style_table(&mut out, figures);
    push_punct_section(&mut out, &profile.punctuation);
    push_ngram_section(&mut out, "## Common Bigrams\n\n", &profile.bigrams);
    push_ngram_section(&mut out, "## Common Trigrams\n\n", &profile.trigrams);
    push_type_section(&mut out, type_summaries, type_figures);
    assert(out@ =~= voice_profile_text(*profile, type_summaries@, *figures, type_figures@));
    out
}

/// The file name of the voice profile.
pub const VOICE_PROFILE_FILE: &'static str = "voice-profile.md";

/// The file name of the examples of a post type.
pub open spec fn examples_file_name_of(post_type: Seq<char>) -> Seq<char> {
    "examples-"@ + post_type + ".md"@
}

/// The file name of the examples of a post type.
pub fn examples_file_name(post_type: &str) -> (r: String)
    ensures
        r@ == examples_file_name_of(post_type@),
{
    String::from_str("examples-").concat(post_type).concat(".md")
}

/// Copy an optional string.
fn copy_opt(o: &Option<String>) -> (r: Option<String>)
    ensures
        r == *o,
{
    match o {
        Some(s) => Some(s.clone()),
        None => None,
    }
}

/// Copy a post.
pub fn copy_post(p: &Post) -> (r: Post)
    ensures
        r == *p,
{
    Post {
        id: p.id,
        source_id: p.source_id,
        external_id: p.external_id.clone(),
        post_type: p.post_type.clone(),
        body: p.body.clone(),
        url: copy_opt(&p.url),
        repo: copy_opt(&p.repo),
        created_at: p.created_at.clone(),
        likely_ai: p.likely_ai,
        scraped_at: p.scraped_at.clone(),
    }
}

/// The posts of a post type, in order.
pub open spec fn of_type(posts: Seq<Post>, post_type: Seq<char>) -> Seq<Post>
    decreases posts.len(),
{
    if posts.len() == 0 {
        Seq::empty()
    } else {
        let prev = of_type(posts.drop_last(), post_type);
        if posts.last().post_type@ == post_type {
            prev.push(posts.last())
        } else {
            prev
        }
    }
}

/// Copies of the posts of a post type, in order.
pub fn posts_of_type(posts: &[Post], post_type: &str) -> (r: Vec<Post>)
    ensures
        r@ == of_type(posts@, post_type@),
{
    let mut r: Vec<Post> = Vec::new();
    for i in 0..posts.len()
        invariant
            r@ == of_type(posts@.take(i as int), post_type@),
    {
        proof {
            let t = posts@.take(i + 1);
            assert(t.drop_last() =~= posts@.take(i as int));
            assert(t.last() == posts@[i as int]);
        }
        if crate::text::str_eq(posts[i].post_type.as_str(), post_type) {
            r.push(copy_post(&posts[i]));
        }
    }
    assert(posts@.take(posts@.len() as int) =~= posts@);
    r
}

/// The post types of the summaries, in order.
pub open spec fn summary_types(ts: Seq<TypeSummary>) -> Seq<String> {
    ts.map_values(|t: TypeSummary| t.post_type)
}

/// The post types to write examples for. Written to files: one per
/// summary, in the summaries' order. Printed: the requested type alone, or
/// else the summaries' types in lexicographic order.
pub fn example_types(stdout: bool, post_type: Option<&str>, summaries: &[TypeSummary]) -> (r: Vec<
    String,
>)
    ensures
        !stdout ==> r@ == summary_types(summaries@),
        stdout && post_type is Some ==> r@.len() == 1 && r@[0]@ == post_type.unwrap()@,
        stdout && post_type is None ==> {
            &&& r@.to_multiset() == summary_types(summaries@).to_multiset()
            &&& sorted_strings(r@)
        },
{
    if stdout {
        if let Some(pt) = post_type {
            let mut one: Vec<String> = Vec::new();
            one.push(pt.to_owned());
            return one;
        }
    }
    let mut types: Vec<String> = Vec::new();
    for i in 0..summaries.len()
        invariant
            types@ == summary_types(summaries@).take(i as int),
    {
        types.push(summaries[i].post_type.clone());
        assert(types@ =~= summary_types(summaries@).take(i + 1));
    }
    assert(types@ =~= summary_types(summaries@));
    if stdout {
        sort_strings(types)
    } else {
        types
    }
}

/// The writing uses an em- or en-dash.
pub open spec fn uses_dash(es: Seq<PunctuationEntry>) -> bool {
    has_punct(es, '\u{2014}') || has_punct(es, '\u{2013}')
}

/// The characters of the pieces of the note on absent punctuation: only the
/// semicolon note holds a semicolon, and only the dash note an em-dash.
proof fn lemma_note_literals()
    ensures
        dash_note()[12] == '\u{2014}',
        semicolon_note()[13] == ';',
        dash_note().len() == 35,
        semicolon_note().len() == 16,
        !"\n**Notable absences:** "@.contains('\u{2014}'),
        !"\n**Notable absences:** "@.contains(';'),
        !" are not used in authentic writing.\n"@.contains('\u{2014}'),
        !" are not used in authentic writing.\n"@.contains(';'),
        !", "@.contains('\u{2014}'),
        !", "@.contains(';'),
        !semicolon_note().contains('\u{2014}'),
        !dash_note().contains(';'),
        !Seq::<char>::empty().contains('\u{2014}'),
        !Seq::<char>::empty().contains(';'),
{
    lemma_note_head();
    lemma_note_tail();
    lemma_note_notes();
    reveal_strlit(", ");
}

proof fn lemma_note_head()
    ensures
        !"\n**Notable absences:** "@.contains('\u{2014}'),
        !"\n**Notable absences:** "@.contains(';'),
{
    reveal_strlit("\n**Notable absences:** ");
}

proof fn lemma_note_tail()
    ensures
        !" are not used in authentic writing.\n"@.contains('\u{2014}'),
        !" are not used in authentic writing.\n"@.contains(';'),
{
    reveal_strlit(" are not used in authentic writing.\n");
}

proof fn lemma_note_notes()
    ensures
        dash_note()[12] == '\u{2014}',
        semicolon_note()[13] == ';',
        dash_note().len() == 35,
        semicolon_note().len() == 16,
        !semicolon_note().contains('\u{2014}'),
        !dash_note().contains(';'),
{
    reveal_strlit("semicolons (`;`)");
    reveal_strlit("em-dashes (`\u{2014}`) and en-dashes (`\u{2013}`)");
}

/// Text without the character at position `k` of `needle` does not hold
/// `needle`.
proof fn lemma_lacks(x: Seq<char>, needle: Seq<char>, k: int)
    requires
        0 <= k < needle.len(),
        !x.contains(needle[k]),
    ensures
        !contains_seq(x, needle),
{
    if contains_seq(x, needle) {
        lemma_contains_char(x, needle, k);
    }
}

/// `head + piece + tail` holds `piece` but not `other`, when none of
/// `head`, `piece` and `tail` has the character at position `k` of `other`.
proof fn lemma_note_with(head: Seq<char>, piece: Seq<char>, tail: Seq<char>, other: Seq<char>, k: int)
    requires
        0 <= k < other.len(),
        !head.contains(other[k]),
        !piece.contains(other[k]),
        !tail.contains(other[k]),
    ensures
        contains_seq(head + piece + tail, piece),
        !contains_seq(head + piece + tail, other),
{
    lemma_contains_self(piece);
    lemma_contains_within(head, piece, tail, piece);
    lemma_char_not_in_concat(head, piece, other[k]);
    lemma_char_not_in_concat(head + piece, tail, other[k]);
    lemma_lacks(head + piece + tail, other, k);
}

/// The note when the writing uses both semicolons and dashes: empty.
proof fn lemma_note_none(es: Seq<PunctuationEntry>)
    requires
        has_punct(es, ';'),
        uses_dash(es),
    ensures
        !contains_seq(absences_note(es), dash_note()),
        !contains_seq(absences_note(es), semicolon_note()),
{
    lemma_note_literals();
    assert(absences_note(es).len() == 0);
    lemma_lacks(absences_note(es), dash_note(), 12);
    lemma_lacks(absences_note(es), semicolon_note(), 13);
}

/// The note when the writing uses neither: it names both.
proof fn lemma_note_both(es: Seq<PunctuationEntry>)
    requires
        !has_punct(es, ';'),
        !uses_dash(es),
    ensures
        contains_seq(absences_note(es), dash_note()),
        contains_seq(absences_note(es), semicolon_note()),
{
    let head = "\n**Notable absences:** "@;
    let tail = " are not used in authentic writing.\n"@;
    let sep = ", "@;
    let semi_n = semicolon_note();
    let dash_n = dash_note();
    let note = absences_note(es);
    assert(note == head + (semi_n + sep + dash_n) + tail);
    assert(note =~= head + semi_n + (sep + dash_n + tail));
    lemma_contains_self(semi_n);
    lemma_contains_within(head, semi_n, sep + dash_n + tail, semi_n);
    assert(note =~= (head + semi_n + sep) + dash_n + tail);
    lemma_contains_self(dash_n);
    lemma_contains_within(head + semi_n + sep, dash_n, tail, dash_n);
}

/// The note when the writing uses dashes but no semicolon.
proof fn lemma_note_semicolon(es: Seq<PunctuationEntry>)
    requires
        !has_punct(es, ';'),
        uses_dash(es),
    ensures
        !contains_seq(absences_note(es), dash_note()),
        contains_seq(absences_note(es), semicolon_note()),
{
    lemma_note_literals();
    let head = "\n**Notable absences:** "@;
    let tail = " are not used in authentic writing.\n"@;
    assert(absences_note(es) == head + semicolon_note() + tail);
    lemma_note_with(head, semicolon_note(), tail, dash_note(), 12);
}

/// The note when the writing uses semicolons but no dash.
proof fn lemma_note_dash(es: Seq<PunctuationEntry>)
    requires
        has_punct(es, ';'),
        !uses_dash(es),
    ensures
        contains_seq(absences_note(es), dash_note()),
        !contains_seq(absences_note(es), semicolon_note()),
{
    lemma_note_literals();
    let head = "\n**Notable absences:** "@;
    let tail = " are not used in authentic writing.\n"@;
    assert(absences_note(es) == head + dash_note() + tail);
    lemma_note_with(head, dash_note(), tail, semicolon_note(), 13);
}

/// The note on absent punctuation names the dashes exactly when the writing
/// uses neither an em-dash nor an en-dash, and semicolons exactly when it
/// uses none.
pub proof fn lemma_absences_note(es: Seq<PunctuationEntry>)
    ensures
        contains_seq(absences_note(es), dash_note()) <==> !uses_dash(es),
        contains_seq(absences_note(es), semicolon_note()) <==> !has_punct(es, ';'),
{
    if has_punct(es, ';') && uses_dash(es) {
        lemma_note_none(es);
    } else if !has_punct(es, ';') && !uses_dash(es) {
        lemma_note_both(es);
    } else if !has_punct(es, ';') {
        lemma_note_semicolon(es);
    } else {
        lemma_note_dash(es);
    }
}

/// A rendered voice profile notes the dashes as absent when the writing
/// uses no em- or en-dash, and semicolons when it uses none.
pub proof fn lemma_voice_profile_absences(
    p: VoiceProfile,
    ts: Seq<TypeSummary>,
    f: ProfileFigures,
    fs: Seq<TypeFigures>,
)
    ensures
        !uses_dash(p.punctuation@) ==> contains_seq(voice_profile_text(p, ts, f, fs), dash_note()),
        !has_punct(p.punctuation@, ';') ==> contains_seq(
            voice_profile_text(p, ts, f, fs),
            semicolon_note(),
        ),
{
    let es = p.punctuation@;
    lemma_absences_note(es);
    let before = profile_head(p, f) + "## Punctuation Inventory\n\n"@
        + "| Char | Total uses | Posts containing |\n|---|---|---|\n"@ + punct_rows(es);
    let after = "\n"@ + ngram_section("## Common Bigrams\n\n"@, p.bigrams@) + ngram_section(
        "## Common Trigrams\n\n"@,
        p.trigrams@,
    ) + type_section(ts, fs);
    assert(voice_profile_text(p, ts, f, fs) =~= before + absences_note(es) + after);
    if !uses_dash(es) {
        lemma_contains_within(before, absences_note(es), after, dash_note());
    }
    if !has_punct(es, ';') {
        lemma_contains_within(before, absences_note(es), after, semicolon_note());
    }
}

} // verus!
