//! Statistics over a set of post bodies: word counts, sentences, style
//! rates, punctuation, common phrases, and example selection.

use vstd::prelude::*;

pub mod examples;
pub mod ngrams;

pub use examples::{select_diverse_examples, select_diverse_indices};
pub use ngrams::{common_ngrams, is_all_stopwords, Ngram};

use ngrams::ngrams_of;

use crate::text::{
    chars_of, contains_chars, contains_seq, is_ascii_lower, is_space, lowercase, strip_bounds, to_lowercase,
    trim, word_count, words,
};
use vstd::relations::sorted_by;
use crate::order::{
    lemma_permutation_distinct, lemma_permutation_elements, sort_by_count_desc,
    sorted_by_count_desc, ByCount,
};
use crate::models::Post;

verus! {

/// Word count statistics for a set of texts. The average is
/// `total_words / count`; the median is the mean of `median_low` and
/// `median_high`, which are the two middle counts (the same count when
/// `count` is odd).
pub struct WordCountStats {
    pub total_words: usize,
    pub median_low: usize,
    pub median_high: usize,
    pub min: usize,
    pub max: usize,
    pub count: usize,
}

/// Sum of a sequence of integers.
pub open spec fn sum(s: Seq<int>) -> int
    decreases s.len(),
{
    if s.len() == 0 {
        0
    } else {
        sum(s.drop_last()) + s.last()
    }
}

/// The word count of each body.
pub open spec fn word_count_seq(bodies: Seq<Seq<char>>) -> Seq<int> {
    Seq::new(bodies.len(), |i: int| words(bodies[i]).len() as int)
}

/// A sequence of machine integers as mathematical integers.
pub open spec fn ints(v: Seq<usize>) -> Seq<int> {
    v.map_values(|x: usize| x as int)
}

/// Sums add up over concatenation.
pub proof fn lemma_sum_concat(x: Seq<int>, y: Seq<int>)
    ensures
        sum(x + y) == sum(x) + sum(y),
    decreases y.len(),
{
    if y.len() == 0 {
        assert(x + y =~= x);
    } else {
        lemma_sum_concat(x, y.drop_last());
        assert((x + y).drop_last() =~= x + y.drop_last());
    }
}

/// A text has no more words than characters, and so a set of texts.
pub proof fn lemma_words_total(bodies: Seq<Seq<char>>)
    ensures
        sum(word_count_seq(bodies)) <= total_chars(bodies),
    decreases bodies.len(),
{
    if bodies.len() > 0 {
        lemma_words_total(bodies.drop_last());
        assert(word_count_seq(bodies).drop_last() =~= word_count_seq(bodies.drop_last()));
        crate::text::lemma_words_len(bodies.last());
    }
}

/// The ordering by which counts are sorted.
pub open spec fn int_leq() -> spec_fn(int, int) -> bool {
    |x: int, y: int| x <= y
}

/// Partial sums of non-negative integers never exceed the whole sum.
pub proof fn lemma_sum_prefix(s: Seq<int>, i: int)
    requires
        0 <= i <= s.len(),
        forall|k: int| 0 <= k < s.len() ==> s[k] >= 0,
    ensures
        sum(s.take(i)) <= sum(s),
        sum(s) >= 0,
    decreases s.len(),
{
    if s.len() > 0 {
        if i == s.len() {
            assert(s.take(i) =~= s);
            lemma_sum_prefix(s.drop_last(), 0);
        } else {
            assert(s.drop_last().take(i) =~= s.take(i));
            lemma_sum_prefix(s.drop_last(), i);
        }
    }
}

/// The word count of each body, in order.
pub fn word_counts(bodies: &[&str]) -> (r: Vec<usize>)
    ensures
        ints(r@) == word_count_seq(str_views(bodies@)),
{
    let mut r: Vec<usize> = Vec::new();
    for i in 0..bodies.len()
        invariant
            ints(r@) == word_count_seq(str_views(bodies@)).take(i as int),
    {
        let n = word_count(bodies[i]);
        let ghost old_r = r@;
        r.push(n);
        proof {
            assert(word_count_seq(str_views(bodies@))[i as int] == n as int);
            assert(ints(r@) =~= ints(old_r).push(n as int));
            assert(ints(r@) =~= word_count_seq(str_views(bodies@)).take(i + 1));
        }
    }
    assert(word_count_seq(str_views(bodies@)).take(str_views(bodies@).len() as int) =~= word_count_seq(str_views(bodies@)));
    r
}

/// `v` in ascending order.
pub fn sort_ascending(v: &Vec<usize>) -> (r: Vec<usize>)
    ensures
        ints(r@) == ints(v@).sort(),
        r@.len() == v@.len(),
{
    broadcast use vstd::seq_lib::group_to_multiset_ensures;

    let mut r: Vec<usize> = Vec::new();
    for i in 0..v.len()
        invariant
            ints(r@).to_multiset() == ints(v@.take(i as int)).to_multiset(),
            sorted_by(ints(r@), int_leq()),
            r@.len() == i,
    {
        let x = v[i];
        let mut k: usize = 0;
        while k < r.len() && r[k] <= x
            invariant
                k <= r@.len(),
                forall|j: int| 0 <= j < k ==> r@[j] <= x,
            decreases r@.len() - k,
        {
            k = k + 1;
        }
        let ghost old_r = r@;
        r.insert(k, x);
        proof {
            assert(ints(r@) =~= ints(old_r).insert(k as int, x as int));
            assert(ints(v@.take(i + 1)) =~= ints(v@.take(i as int)).push(x as int));
            vstd::seq_lib::to_multiset_insert(ints(old_r), k as int, x as int);
            vstd::seq_lib::to_multiset_build(ints(v@.take(i as int)), x as int);
            assert(sorted_by(ints(r@), int_leq())) by {
                assert forall|a: int, b: int| 0 <= a < b < ints(r@).len() implies #[trigger] (
                int_leq())(ints(r@)[a], ints(r@)[b]) by {
                    if b < k {
                        assert((int_leq())(ints(old_r)[a], ints(old_r)[b]));
                    } else if a < k && b == k {
                    } else if a < k {
                        assert((int_leq())(ints(old_r)[a], ints(old_r)[b - 1]));
                    } else if a == k {
                        assert((int_leq())(ints(old_r)[k as int], ints(old_r)[b - 1]));
                    } else {
                        assert((int_leq())(ints(old_r)[a - 1], ints(old_r)[b - 1]));
                    }
                }
            }
        }
    }
    proof {
        assert(v@.take(v@.len() as int) =~= v@);
        ints(v@).lemma_sort_ensures();
        vstd::seq_lib::lemma_sorted_unique(ints(r@), ints(v@).sort(), int_leq());
    }
    r
}


/// `r` holds the word count statistics of `texts`: the count of texts, the
/// total of their word counts, and the smallest, largest and middle word
/// counts; all zero when there are no texts.
pub open spec fn word_count_stats_of(texts: Seq<Seq<char>>, r: WordCountStats) -> bool {
    &&& r.count == texts.len()
    &&& texts.len() == 0 ==> r.total_words == 0 && r.median_low == 0 && r.median_high == 0
        && r.min == 0 && r.max == 0
    &&& texts.len() > 0 ==> {
        let n = texts.len() as int;
        let t = word_count_seq(texts).sort();
        &&& r.total_words == sum(word_count_seq(texts))
        &&& r.min == t[0]
        &&& r.max == t[n - 1]
        &&& r.median_low == (if n % 2 == 0 {
            t[n / 2 - 1]
        } else {
            t[n / 2]
        })
        &&& r.median_high == t[n / 2]
    }
}

/// Word count statistics over `bodies`: count, total, extremes and median
/// of the per-body word counts.
pub fn word_count_stats(bodies: &[&str]) -> (r: WordCountStats)
    requires
        total_chars(str_views(bodies@)) <= usize::MAX,
    ensures
        word_count_stats_of(str_views(bodies@), r),
        str_views(bodies@).len() > 0 ==> r.min <= r.median_low <= r.median_high <= r.max,
        forall|i: int|
            0 <= i < str_views(bodies@).len() ==> r.min <= #[trigger] word_count_seq(str_views(bodies@))[i] <= r.max,
{
    proof {
        lemma_words_total(str_views(bodies@));
    }
    if bodies.len() == 0 {
        return WordCountStats {
            total_words: 0,
            median_low: 0,
            median_high: 0,
            min: 0,
            max: 0,
            count: 0,
        };
    }
    let counts = word_counts(bodies);
    let sorted = sort_ascending(&counts);
    let ghost c = word_count_seq(str_views(bodies@));
    let mut total: usize = 0;
    for i in 0..counts.len()
        invariant
            ints(counts@) == c,
            sum(c) <= usize::MAX,
            total == sum(c.take(i as int)),
    {
        proof {
            assert(c.take(i + 1).drop_last() =~= c.take(i as int));
            lemma_sum_prefix(c, i + 1);
            assert(counts@[i as int] as int == c[i as int]);
        }
        total = total + counts[i];
    }
    proof {
        assert(c.take(c.len() as int) =~= c);
    }
    let len = sorted.len();
    let low = if len % 2 == 0 {
        sorted[len / 2 - 1]
    } else {
        sorted[len / 2]
    };
    let high = sorted[len / 2];
    proof {
        broadcast use vstd::seq_lib::group_to_multiset_ensures;

        c.lemma_sort_ensures();
        let t = c.sort();
        assert(ints(sorted@) == t);
        assert(t.len() == len);
        assert forall|i: int| 0 <= i < c.len() implies t[0] <= #[trigger] c[i] <= t[len - 1] by {
            assert(c.to_multiset().count(c[i]) > 0);
            assert(t.to_multiset().count(c[i]) > 0);
            let j = choose|j: int| 0 <= j < t.len() && t[j] == c[i];
            if j > 0 {
                assert((int_leq())(t[0], t[j]));
            }
            if j < len - 1 {
                assert((int_leq())(t[j], t[len - 1]));
            }
        }
        let h = (len / 2) as int;
        if len > 1 {
            assert((int_leq())(t[0], t[h - 1]));
            assert((int_leq())(t[h - 1], t[h]));
        }
        if h < len - 1 {
            assert((int_leq())(t[h], t[len - 1]));
        }
    }
    WordCountStats {
        total_words: total,
        median_low: low,
        median_high: high,
        min: sorted[0],
        max: sorted[len - 1],
        count: len,
    }
}

/// Sentence counts over a set of texts. The average sentence length is
/// `total_sentence_words / total_sentences` (0 when there are no
/// sentences); the average number of sentences per post is
/// `total_sentences / posts` (0 when there are no posts).
pub struct SentenceStats {
    pub total_sentences: usize,
    pub total_sentence_words: usize,
    pub posts: usize,
}

/// Number of sentences in each body.
pub open spec fn sentence_count_seq(bodies: Seq<Seq<char>>) -> Seq<int> {
    Seq::new(bodies.len(), |i: int| split_sentences(bodies[i]).len() as int)
}

/// Total words over a sequence of sentences.
pub open spec fn words_in(sents: Seq<Seq<char>>) -> int {
    sum(Seq::new(sents.len(), |j: int| words(sents[j]).len() as int))
}

/// Number of words in the sentences of each body.
pub open spec fn sentence_word_seq(bodies: Seq<Seq<char>>) -> Seq<int> {
    Seq::new(bodies.len(), |i: int| words_in(split_sentences(bodies[i])))
}

/// `r` counts the texts, their sentences, and the words in those sentences.
pub open spec fn sentence_stats_of(texts: Seq<Seq<char>>, r: SentenceStats) -> bool {
    &&& r.posts == texts.len()
    &&& r.total_sentences == sum(sentence_count_seq(texts))
    &&& r.total_sentence_words == sum(sentence_word_seq(texts))
}

/// Sentence statistics over `bodies`: how many sentences, and how many words
/// the sentences hold.
pub fn sentence_stats(bodies: &[&str]) -> (r: SentenceStats)
    requires
        total_chars(str_views(bodies@)) <= usize::MAX,
    ensures
        sentence_stats_of(str_views(bodies@), r),
        r.total_sentence_words == sum(word_count_seq(str_views(bodies@))),
{
    proof {
        lemma_sentence_totals(str_views(bodies@));
        lemma_sentence_words(str_views(bodies@));
    }
    let ghost sc = sentence_count_seq(str_views(bodies@));
    let ghost sw = sentence_word_seq(str_views(bodies@));
    let mut total_sentences: usize = 0;
    let mut total_words: usize = 0;
    for i in 0..bodies.len()
        invariant
            sc == sentence_count_seq(str_views(bodies@)),
            sw == sentence_word_seq(str_views(bodies@)),
            sum(sc) <= usize::MAX,
            sum(sw) <= usize::MAX,
            total_sentences == sum(sc.take(i as int)),
            total_words == sum(sw.take(i as int)),
    {
        let sents = sentences(bodies[i]);
        let ghost sv = str_views(sents@);
        proof {
            assert(sc.take(i + 1).drop_last() =~= sc.take(i as int));
            assert(sw.take(i + 1).drop_last() =~= sw.take(i as int));
            lemma_sum_prefix(sc, i + 1);
            assert forall|k: int| 0 <= k < sw.len() implies sw[k] >= 0 by {
                let ss = split_sentences(str_views(bodies@)[k]);
                lemma_sum_prefix(Seq::new(ss.len(), |j: int| words(ss[j]).len() as int), 0);
            }
            lemma_sum_prefix(sw, i + 1);
            assert(sc[i as int] == sv.len());
            assert(sw[i as int] == words_in(sv));
        }
        total_sentences = total_sentences + sents.len();
        let ghost ws = Seq::new(sv.len(), |j: int| words(sv[j]).len() as int);
        let mut body_words: usize = 0;
        for j in 0..sents.len()
            invariant
                sv == str_views(sents@),
                ws == Seq::new(sv.len(), |j: int| words(sv[j]).len() as int),
                sum(ws) == sw[i as int],
                total_words + sum(ws) <= usize::MAX,
                body_words == sum(ws.take(j as int)),
        {
            proof {
                assert(ws.take(j + 1).drop_last() =~= ws.take(j as int));
                lemma_sum_prefix(ws, j + 1);
            }
            let n = word_count(sents[j]);
            assert(n == ws[j as int]);
            body_words = body_words + n;
        }
        proof {
            assert(ws.take(ws.len() as int) =~= ws);
        }
        total_words = total_words + body_words;
    }
    proof {
        assert(sc.take(sc.len() as int) =~= sc);
        assert(sw.take(sw.len() as int) =~= sw);
    }
    SentenceStats { total_sentences, total_sentence_words: total_words, posts: bodies.len() }
}

/// A proportion of posts: `matching` of the `total` posts have a property.
/// The rate is `matching / total`, and 0 when `total` is 0.
pub struct Rate {
    pub matching: usize,
    pub total: usize,
}

/// `r` is the proportion of texts with property `p`.
pub open spec fn rate_of(texts: Seq<Seq<char>>, p: spec_fn(Seq<char>) -> bool, r: Rate) -> bool {
    r.total == texts.len() && r.matching == num_where(texts, p)
}

/// Number of bodies whose text has property `p`.
pub open spec fn num_where(bodies: Seq<Seq<char>>, p: spec_fn(Seq<char>) -> bool) -> nat
    decreases bodies.len(),
{
    if bodies.len() == 0 {
        0
    } else {
        num_where(bodies.drop_last(), p) + if p(bodies.last()) {
            1nat
        } else {
            0nat
        }
    }
}

/// At most every body has a property.
pub proof fn lemma_num_where_bound(bodies: Seq<Seq<char>>, p: spec_fn(Seq<char>) -> bool)
    ensures
        num_where(bodies, p) <= bodies.len(),
    decreases bodies.len(),
{
    if bodies.len() > 0 {
        lemma_num_where_bound(bodies.drop_last(), p);
    }
}

/// The trimmed text starts with an ASCII lowercase letter.
pub open spec fn starts_lowercase(s: Seq<char>) -> bool {
    trim(s).len() > 0 && is_ascii_lower(trim(s)[0])
}

/// The contractions whose presence a post is checked for, in lowercase, as
/// the lowercased text is searched for them.
pub open spec fn contractions() -> Seq<Seq<char>> {
    seq![
        "don't"@, "doesn't"@, "didn't"@, "can't"@, "won't"@, "wouldn't"@, "shouldn't"@,
        "couldn't"@, "isn't"@, "aren't"@, "wasn't"@, "weren't"@, "haven't"@, "hasn't"@,
        "hadn't"@, "it's"@, "that's"@, "there's"@, "here's"@, "what's"@, "who's"@, "let's"@,
        "i'm"@, "i've"@, "i'd"@, "i'll"@, "you're"@, "you've"@, "you'd"@, "you'll"@, "we're"@,
        "we've"@, "we'd"@, "we'll"@, "they're"@, "they've"@, "they'd"@, "they'll"@, "he's"@,
        "she's"@,
    ]
}

/// Lowercased text holds one of the contractions.
pub open spec fn holds_contraction(lowered: Seq<char>) -> bool {
    exists|k: int| 0 <= k < contractions().len() && contains_seq(lowered, #[trigger] contractions()[k])
}

/// A body uses a contraction: its lowercase form holds one.
pub open spec fn uses_contraction(s: Seq<char>) -> bool {
    holds_contraction(lowercase(s))
}

/// A body contains a question mark.
pub open spec fn asks_question(s: Seq<char>) -> bool {
    s.contains('?')
}

/// The contractions, as character vectors.
fn contraction_chars() -> (v: Vec<Vec<char>>)
    ensures
        v@.len() == contractions().len(),
        forall|k: int| 0 <= k < v@.len() ==> (#[trigger] v@[k])@ == contractions()[k],
{
    let list: Vec<&str> = vec![
        "don't", "doesn't", "didn't", "can't", "won't", "wouldn't", "shouldn't", "couldn't",
        "isn't", "aren't", "wasn't", "weren't", "haven't", "hasn't", "hadn't", "it's", "that's",
        "there's", "here's", "what's", "who's", "let's", "i'm", "i've", "i'd", "i'll", "you're",
        "you've", "you'd", "you'll", "we're", "we've", "we'd", "we'll", "they're", "they've",
        "they'd", "they'll", "he's", "she's",
    ];
    assert(str_views(list@) =~= contractions());
    let mut v: Vec<Vec<char>> = Vec::new();
    for i in 0..list.len()
        invariant
            str_views(list@) == contractions(),
            v@.len() == i,
            forall|k: int| 0 <= k < i ==> (#[trigger] v@[k])@ == contractions()[k],
    {
        let cs = chars_of(list[i]);
        assert(cs@ == str_views(list@)[i as int]);
        v.push(cs);
    }
    v
}

/// Whether lowercased text holds one of the contractions.
pub fn has_contraction(lowered: &str) -> (r: bool)
    ensures
        r == holds_contraction(lowered@),
{
    let list = contraction_chars();
    let cs = chars_of(lowered);
    for k in 0..list.len()
        invariant
            list@.len() == contractions().len(),
            forall|q: int| 0 <= q < list@.len() ==> (#[trigger] list@[q])@ == contractions()[q],
            cs@ == lowered@,
            forall|q: int| 0 <= q < k ==> !contains_seq(lowered@, #[trigger] contractions()[q]),
    {
        if contains_chars(&cs, &list[k]) {
            return true;
        }
    }
    false
}

/// Fraction of posts that start (after trimming) with an ASCII lowercase letter.
pub fn lowercase_start_rate(bodies: &[&str]) -> (r: Rate)
    ensures
        rate_of(str_views(bodies@), |s: Seq<char>| starts_lowercase(s), r),
        r.matching <= r.total,
{
    let mut count: usize = 0;
    for i in 0..bodies.len()
        invariant
            count == num_where(str_views(bodies@).take(i as int), |s: Seq<char>| starts_lowercase(s)),
            count <= i,
    {
        let cs = chars_of(bodies[i]);
        let (a, b) = strip_bounds(&cs, 0, cs.len(), false);
        let hit = a < b && 'a' <= cs[a] && cs[a] <= 'z';
        proof {
            assert(cs@.subrange(0, cs@.len() as int) =~= cs@);
            assert(str_views(bodies@).take(i + 1).drop_last() =~= str_views(bodies@).take(i as int));
            assert(hit == starts_lowercase(str_views(bodies@)[i as int]));
        }
        if hit {
            count = count + 1;
        }
    }
    proof {
        assert(str_views(bodies@).take(str_views(bodies@).len() as int) =~= str_views(bodies@));
    }
    Rate { matching: count, total: bodies.len() }
}

/// Fraction of posts whose lowercase form holds a common contraction.
pub fn contraction_rate(bodies: &[&str]) -> (r: Rate)
    ensures
        rate_of(str_views(bodies@), |s: Seq<char>| uses_contraction(s), r),
        r.matching <= r.total,
{
    let mut count: usize = 0;
    for i in 0..bodies.len()
        invariant
            count == num_where(str_views(bodies@).take(i as int), |s: Seq<char>| uses_contraction(s)),
            count <= i,
    {
        let lower = to_lowercase(bodies[i]);
        let hit = has_contraction(lower.as_str());
        proof {
            assert(str_views(bodies@).take(i + 1).drop_last() =~= str_views(bodies@).take(i as int));
        }
        if hit {
            count = count + 1;
        }
    }
    proof {
        assert(str_views(bodies@).take(str_views(bodies@).len() as int) =~= str_views(bodies@));
    }
    Rate { matching: count, total: bodies.len() }
}

/// Fraction of posts containing a question mark.
pub fn question_rate(bodies: &[&str]) -> (r: Rate)
    ensures
        rate_of(str_views(bodies@), |s: Seq<char>| asks_question(s), r),
        r.matching <= r.total,
{
    let mut count: usize = 0;
    for i in 0..bodies.len()
        invariant
            count == num_where(str_views(bodies@).take(i as int), |s: Seq<char>| asks_question(s)),
            count <= i,
    {
        let cs = chars_of(bodies[i]);
        let mut found = false;
        for j in 0..cs.len()
            invariant
                found <==> (exists|q: int| 0 <= q < j && cs@[q] == '?'),
        {
            if cs[j] == '?' {
                found = true;
            }
        }
        proof {
            assert(str_views(bodies@).take(i + 1).drop_last() =~= str_views(bodies@).take(i as int));
            if found {
                let q = choose|q: int| 0 <= q < cs@.len() && cs@[q] == '?';
                assert(str_views(bodies@)[i as int].contains('?'));
            }
            assert(found == asks_question(str_views(bodies@)[i as int]));
        }
        if found {
            count = count + 1;
        }
    }
    proof {
        assert(str_views(bodies@).take(str_views(bodies@).len() as int) =~= str_views(bodies@));
    }
    Rate { matching: count, total: bodies.len() }
}

/// Punctuation usage entry: how often `char` occurs over all posts, and in
/// how many posts it occurs.
#[derive(Clone, Copy)]
pub struct PunctuationEntry {
    pub char: char,
    pub count: usize,
    pub posts_with: usize,
}

impl ByCount for PunctuationEntry {
    open spec fn count_key(&self) -> int {
        self.count as int
    }

    fn count_value(&self) -> (r: usize) {
        self.count
    }
}

/// The punctuation characters that the inventory tracks.
pub open spec fn is_tracked_punct(c: char) -> bool {
    ||| c == '.' || c == ',' || c == '!' || c == '?' || c == ':' || c == ';' || c == '-'
    ||| c == '\u{2014}' || c == '\u{2013}' || c == '\'' || c == '"' || c == '(' || c == ')'
    ||| c == '[' || c == ']' || c == '{' || c == '}' || c == '/' || c == '\\' || c == '@'
    ||| c == '#' || c == '`' || c == '~' || c == '*' || c == '&' || c == '+' || c == '='
    ||| c == '<' || c == '>'
}

/// Executable test for a tracked punctuation character.
pub fn tracked_punct(c: char) -> (r: bool)
    ensures
        r == is_tracked_punct(c),
{
    c == '.' || c == ',' || c == '!' || c == '?' || c == ':' || c == ';' || c == '-' || c
        == '\u{2014}' || c == '\u{2013}' || c == '\'' || c == '"' || c == '(' || c == ')' || c
        == '[' || c == ']' || c == '{' || c == '}' || c == '/' || c == '\\' || c == '@' || c
        == '#' || c == '`' || c == '~' || c == '*' || c == '&' || c == '+' || c == '=' || c
        == '<' || c == '>'
}

/// Number of times `c` occurs in `s`.
pub open spec fn occurrences(s: Seq<char>, c: char) -> nat
    decreases s.len(),
{
    if s.len() == 0 {
        0
    } else {
        occurrences(s.drop_last(), c) + if s.last() == c {
            1nat
        } else {
            0nat
        }
    }
}

/// Number of times `c` occurs over all bodies.
pub open spec fn total_occurrences(bodies: Seq<Seq<char>>, c: char) -> nat
    decreases bodies.len(),
{
    if bodies.len() == 0 {
        0
    } else {
        total_occurrences(bodies.drop_last(), c) + occurrences(bodies.last(), c)
    }
}

/// Number of bodies in which `c` occurs.
pub open spec fn posts_containing(bodies: Seq<Seq<char>>, c: char) -> nat {
    num_where(bodies, |s: Seq<char>| s.contains(c))
}

/// Total number of characters over all bodies.
pub open spec fn total_chars(bodies: Seq<Seq<char>>) -> nat
    decreases bodies.len(),
{
    if bodies.len() == 0 {
        0
    } else {
        total_chars(bodies.drop_last()) + bodies.last().len()
    }
}

/// Occurrences of a character in a growing prefix.
pub proof fn lemma_occurrences_step(s: Seq<char>, j: int, c: char)
    requires
        0 <= j < s.len(),
    ensures
        occurrences(s.take(j + 1), c) == occurrences(s.take(j), c) + if s[j] == c {
            1nat
        } else {
            0nat
        },
        s.take(j + 1).contains(c) <==> (s.take(j).contains(c) || s[j] == c),
{
    assert(s.take(j + 1).drop_last() =~= s.take(j));
    assert(s.take(j + 1)[j] == s[j]);
    if s.take(j).contains(c) {
        let q = choose|q: int| 0 <= q < j && s.take(j)[q] == c;
        assert(s.take(j + 1)[q] == c);
    }
    if s.take(j + 1).contains(c) && s[j] != c {
        let t = s.take(j + 1);
        let q = choose|q: int| 0 <= q < t.len() && t[q] == c;
        assert(s.take(j)[q] == c);
    }
}

/// A character occurs at most as often as the sequence is long, and occurs
/// at least once exactly when the sequence contains it.
pub proof fn lemma_occurrences_bounds(s: Seq<char>, c: char)
    ensures
        occurrences(s, c) <= s.len(),
        occurrences(s, c) > 0 <==> s.contains(c),
    decreases s.len(),
{
    if s.len() > 0 {
        lemma_occurrences_bounds(s.drop_last(), c);
        if s.drop_last().contains(c) {
            let q = choose|q: int| 0 <= q < s.len() - 1 && s.drop_last()[q] == c;
            assert(s[q] == c);
        }
        if s.contains(c) && s.last() != c {
            let q = choose|q: int| 0 <= q < s.len() && s[q] == c;
            assert(s.drop_last()[q] == c);
        }
    }
}

/// Over all bodies, the occurrences of a character bound the bodies that
/// contain it, and the characters bound the occurrences.
pub proof fn lemma_totals(bodies: Seq<Seq<char>>, c: char)
    ensures
        posts_containing(bodies, c) <= total_occurrences(bodies, c),
        total_occurrences(bodies, c) <= total_chars(bodies),
        posts_containing(bodies, c) <= bodies.len(),
    decreases bodies.len(),
{
    if bodies.len() > 0 {
        lemma_totals(bodies.drop_last(), c);
        lemma_occurrences_bounds(bodies.last(), c);
    }
}

/// The characters of a prefix of the bodies never exceed those of all of them.
pub proof fn lemma_total_chars_prefix(bodies: Seq<Seq<char>>, i: int)
    requires
        0 <= i < bodies.len(),
    ensures
        total_chars(bodies.take(i)) + bodies[i].len() <= total_chars(bodies),
    decreases bodies.len(),
{
    if i == bodies.len() - 1 {
        assert(bodies.drop_last() =~= bodies.take(i));
    } else {
        assert(bodies.drop_last().take(i) =~= bodies.take(i));
        lemma_total_chars_prefix(bodies.drop_last(), i);
    }
}

/// The entries found after reading bodies `done` and then the prefix `p` of
/// the next body.
pub open spec fn entries_match(e: Seq<PunctuationEntry>, done: Seq<Seq<char>>, p: Seq<char>) -> bool {
    &&& forall|k: int| 0 <= k < e.len() ==> is_tracked_punct(#[trigger] e[k].char)
    &&& forall|k: int|
        0 <= k < e.len() ==> #[trigger] e[k].count == total_occurrences(done, e[k].char)
            + occurrences(p, e[k].char)
    &&& forall|k: int|
        0 <= k < e.len() ==> #[trigger] e[k].posts_with == posts_containing(done, e[k].char) + if p.contains(e[k].char) {
            1nat
        } else {
            0nat
        }
    &&& forall|k1: int, k2: int| 0 <= k1 < k2 < e.len() ==> e[k1].char != e[k2].char
    &&& forall|k: int| 0 <= k < e.len() ==> #[trigger] e[k].count > 0
    &&& forall|c: char|
        is_tracked_punct(c) && total_occurrences(done, c) + occurrences(p, c) > 0 ==> exists|
            k: int,
        | 0 <= k < e.len() && #[trigger] e[k].char == c
}

/// Index of the entry for `c`, or the number of entries when there is none.
fn find_entry(entries: &Vec<PunctuationEntry>, c: char) -> (k: usize)
    ensures
        k <= entries@.len(),
        forall|q: int| 0 <= q < k ==> entries@[q].char != c,
        k < entries@.len() ==> entries@[k as int].char == c,
{
    let mut k: usize = 0;
    while k < entries.len() && entries[k].char != c
        invariant
            k <= entries@.len(),
            forall|q: int| 0 <= q < k ==> entries@[q].char != c,
        decreases entries@.len() - k,
    {
        k = k + 1;
    }
    k
}

/// Whether `v` holds `c`.
pub fn vec_has_char(v: &Vec<char>, c: char) -> (r: bool)
    ensures
        r == v@.contains(c),
{
    for q in 0..v.len()
        invariant
            forall|t: int| 0 <= t < q ==> v@[t] != c,
    {
        if v[q] == c {
            return true;
        }
    }
    false
}

/// Reading a character that is not tracked changes no entry.
pub proof fn lemma_entries_skip(
    e: Seq<PunctuationEntry>,
    done: Seq<Seq<char>>,
    p: Seq<char>,
    p2: Seq<char>,
    c: char,
)
    requires
        entries_match(e, done, p),
        !is_tracked_punct(c),
        forall|d: char| #[trigger] occurrences(p2, d) == occurrences(p, d) + if d == c {
            1nat
        } else {
            0nat
        },
        forall|d: char| #[trigger] p2.contains(d) <==> (p.contains(d) || d == c),
    ensures
        entries_match(e, done, p2),
{
    assert forall|k: int| 0 <= k < e.len() implies #[trigger] e[k].count == total_occurrences(
        done,
        e[k].char,
    ) + occurrences(p2, e[k].char) by {
        assert(occurrences(p2, e[k].char) == occurrences(p, e[k].char));
    }
    assert forall|k: int| 0 <= k < e.len() implies #[trigger] e[k].posts_with == posts_containing(
        done,
        e[k].char,
    ) + if p2.contains(e[k].char) {
        1nat
    } else {
        0nat
    } by {
        assert(p2.contains(e[k].char) == p.contains(e[k].char));
    }
    assert forall|d: char|
        is_tracked_punct(d) && total_occurrences(done, d) + occurrences(p2, d) > 0 implies exists|
            q: int,
        | 0 <= q < e.len() && #[trigger] e[q].char == d by {
        assert(occurrences(p2, d) == occurrences(p, d));
    }
}

/// Reading a tracked character `c` updates its entry at `k`, or adds one when
/// `k` is past the end.
pub proof fn lemma_entries_step(
    e0: Seq<PunctuationEntry>,
    e: Seq<PunctuationEntry>,
    done: Seq<Seq<char>>,
    p: Seq<char>,
    p2: Seq<char>,
    c: char,
    k: int,
)
    requires
        entries_match(e0, done, p),
        is_tracked_punct(c),
        0 <= k <= e0.len(),
        forall|q: int| 0 <= q < k ==> e0[q].char != c,
        k < e0.len() ==> e0[k].char == c && e == e0.update(
            k,
            PunctuationEntry {
                char: c,
                count: (e0[k].count + 1) as usize,
                posts_with: (if p.contains(c) {
                    e0[k].posts_with as int
                } else {
                    e0[k].posts_with + 1
                }) as usize,
            },
        ),
        k == e0.len() ==> e == e0.push(PunctuationEntry { char: c, count: 1, posts_with: 1 })
            && total_occurrences(done, c) + occurrences(p, c) == 0 && !p.contains(c),
        k == e0.len() ==> posts_containing(done, c) <= total_occurrences(done, c),
        k < e0.len() ==> e0[k].count + 1 <= usize::MAX && e0[k].posts_with + 1 <= usize::MAX,
        forall|d: char| #[trigger] occurrences(p2, d) == occurrences(p, d) + if d == c {
            1nat
        } else {
            0nat
        },
        forall|d: char| #[trigger] p2.contains(d) <==> (p.contains(d) || d == c),
    ensures
        entries_match(e, done, p2),
{
    assert forall|q: int| 0 <= q < e.len() implies is_tracked_punct(#[trigger] e[q].char) by {
        if q != k {
            assert(e[q] == e0[q]);
        }
    }
    assert forall|q: int| 0 <= q < e.len() implies #[trigger] e[q].count == total_occurrences(
        done,
        e[q].char,
    ) + occurrences(p2, e[q].char) by {
        if q != k {
            assert(e[q] == e0[q]);
            assert(occurrences(p2, e[q].char) == occurrences(p, e[q].char) + if e[q].char == c {
                1nat
            } else {
                0nat
            });
        } else {
            assert(occurrences(p2, c) == occurrences(p, c) + 1);
        }
    }
    assert forall|q: int| 0 <= q < e.len() implies #[trigger] e[q].posts_with == posts_containing(
        done,
        e[q].char,
    ) + if p2.contains(e[q].char) {
        1nat
    } else {
        0nat
    } by {
        if q != k {
            assert(e[q] == e0[q]);
            assert(p2.contains(e[q].char) == p.contains(e[q].char));
        } else {
            assert(p2.contains(c));
        }
    }
    assert forall|q1: int, q2: int| 0 <= q1 < q2 < e.len() implies e[q1].char != e[q2].char by {
        if q1 != k && q2 != k {
            assert(e[q1] == e0[q1] && e[q2] == e0[q2]);
        } else if q1 == k {
            assert(e[q2] == e0[q2]);
            if k < e0.len() {
                assert(e0[q1].char != e0[q2].char);
            }
        } else {
            assert(e[q1] == e0[q1]);
        }
    }
    assert forall|q: int| 0 <= q < e.len() implies #[trigger] e[q].count > 0 by {
        if q != k {
            assert(e[q] == e0[q]);
        }
    }
    assert forall|d: char|
        is_tracked_punct(d) && total_occurrences(done, d) + occurrences(p2, d) > 0 implies exists|
            q: int,
        | 0 <= q < e.len() && #[trigger] e[q].char == d by {
        if d != c {
            assert(occurrences(p2, d) == occurrences(p, d));
            let q = choose|q: int| 0 <= q < e0.len() && #[trigger] e0[q].char == d;
            assert(q != k);
            assert(e[q] == e0[q]);
        } else {
            assert(e[k].char == d);
        }
    }
}

/// Finishing a body moves its counts from the current prefix into the
/// bodies that are done.
pub proof fn lemma_entries_next_body(e: Seq<PunctuationEntry>, bodies: Seq<Seq<char>>, i: int)
    requires
        0 <= i < bodies.len(),
        entries_match(e, bodies.take(i), bodies[i]),
    ensures
        entries_match(e, bodies.take(i + 1), Seq::empty()),
{
    let done = bodies.take(i);
    let next = bodies.take(i + 1);
    assert(next.drop_last() =~= done);
    assert(next.last() == bodies[i]);
    assert forall|c: char| #[trigger] total_occurrences(next, c) == total_occurrences(done, c)
        + occurrences(bodies[i], c) by {}
    assert forall|c: char| #[trigger] posts_containing(next, c) == posts_containing(done, c)
        + if bodies[i].contains(c) {
        1nat
    } else {
        0nat
    } by {}
    assert forall|c: char| !(#[trigger] Seq::<char>::empty().contains(c)) by {}
    assert forall|c: char| #[trigger] occurrences(Seq::<char>::empty(), c) == 0 by {}
}

/// Reordering the entries keeps every property that holds entry by entry.
pub proof fn lemma_entries_permuted(
    e: Seq<PunctuationEntry>,
    r: Seq<PunctuationEntry>,
    bodies: Seq<Seq<char>>,
)
    requires
        entries_match(e, bodies, Seq::empty()),
        r.to_multiset() == e.to_multiset(),
        r.len() == e.len(),
    ensures
        forall|k: int|
            0 <= k < r.len() ==> {
                let c = (#[trigger] r[k]).char;
                &&& is_tracked_punct(c)
                &&& r[k].count == total_occurrences(bodies, c)
                &&& r[k].posts_with == posts_containing(bodies, c)
                &&& 0 < r[k].posts_with <= r[k].count
            },
        forall|k1: int, k2: int| 0 <= k1 < k2 < r.len() ==> r[k1].char != r[k2].char,
        forall|c: char|
            is_tracked_punct(c) && total_occurrences(bodies, c) > 0 ==> exists|k: int|
                0 <= k < r.len() && #[trigger] r[k].char == c,
{
    broadcast use vstd::seq_lib::group_to_multiset_ensures;

    assert forall|c: char| !(#[trigger] Seq::<char>::empty().contains(c)) by {}
    assert forall|c: char| #[trigger] occurrences(Seq::<char>::empty(), c) == 0 by {}
    // every entry of r is an entry of e, and conversely
    assert forall|k: int| 0 <= k < r.len() implies exists|q: int|
        0 <= q < e.len() && e[q] == #[trigger] r[k] by {
        assert(r.to_multiset().count(r[k]) > 0);
        assert(e.to_multiset().count(r[k]) > 0);
    }
    assert forall|k: int|
        0 <= k < r.len() implies {
            let c = (#[trigger] r[k]).char;
            &&& is_tracked_punct(c)
            &&& r[k].count == total_occurrences(bodies, c)
            &&& r[k].posts_with == posts_containing(bodies, c)
            &&& 0 < r[k].posts_with <= r[k].count
        } by {
        let q = choose|q: int| 0 <= q < e.len() && e[q] == r[k];
        let c = r[k].char;
        assert(e[q].char == c);
        lemma_totals(bodies, c);
        assert(posts_containing(bodies, c) <= total_occurrences(bodies, c));
        if posts_containing(bodies, c) == 0 {
            lemma_posts_containing_zero(bodies, c);
        }
    }
    assert forall|k1: int, k2: int| 0 <= k1 < k2 < r.len() implies r[k1].char != r[k2].char by {
        if r[k1].char == r[k2].char {
            let q1 = choose|q: int| 0 <= q < e.len() && e[q] == r[k1];
            let q2 = choose|q: int| 0 <= q < e.len() && e[q] == r[k2];
            assert(q1 == q2);
            assert(r[k1] == r[k2]);
            e.lemma_multiset_has_no_duplicates();
            lemma_no_repeat_at(r, k1, k2);
        }
    }
    assert forall|c: char|
        is_tracked_punct(c) && total_occurrences(bodies, c) > 0 implies exists|k: int|
            0 <= k < r.len() && #[trigger] r[k].char == c by {
        let q = choose|q: int| 0 <= q < e.len() && #[trigger] e[q].char == c;
        assert(e.to_multiset().count(e[q]) > 0);
        assert(r.to_multiset().count(e[q]) > 0);
        let k = choose|k: int| 0 <= k < r.len() && r[k] == e[q];
        assert(r[k].char == c);
    }
}

/// A character that occurs is contained in at least one body.
pub proof fn lemma_posts_containing_zero(bodies: Seq<Seq<char>>, c: char)
    requires
        posts_containing(bodies, c) == 0,
    ensures
        total_occurrences(bodies, c) == 0,
    decreases bodies.len(),
{
    if bodies.len() > 0 {
        lemma_posts_containing_zero(bodies.drop_last(), c);
        lemma_occurrences_bounds(bodies.last(), c);
    }
}

/// An element that a sequence holds twice occurs twice in its multiset.
pub proof fn lemma_no_repeat_at<A>(r: Seq<A>, k1: int, k2: int)
    requires
        0 <= k1 < k2 < r.len(),
        r[k1] == r[k2],
    ensures
        r.to_multiset().count(r[k1]) >= 2,
    decreases r.len(),
{
    broadcast use vstd::seq_lib::group_to_multiset_ensures;
    broadcast use vstd::multiset::group_multiset_axioms;

    if k2 == r.len() - 1 {
        assert(r =~= r.drop_last().push(r.last()));
        assert(r.drop_last()[k1] == r[k1]);
        assert(r.drop_last().to_multiset().count(r[k1]) >= 1);
    } else {
        assert(r =~= r.drop_last().push(r.last()));
        assert(r.drop_last()[k1] == r[k1] && r.drop_last()[k2] == r[k2]);
        lemma_no_repeat_at(r.drop_last(), k1, k2);
    }
}

/// `r` holds one entry for each tracked punctuation character that occurs in
/// `texts`, with its total occurrences and the number of texts containing it,
/// by non-increasing total.
pub open spec fn punctuation_of(texts: Seq<Seq<char>>, r: Seq<PunctuationEntry>) -> bool {
    &&& forall|k: int|
        0 <= k < r.len() ==> {
            let c = (#[trigger] r[k]).char;
            &&& is_tracked_punct(c)
            &&& r[k].count == total_occurrences(texts, c)
            &&& r[k].posts_with == posts_containing(texts, c)
        }
    &&& forall|k1: int, k2: int| 0 <= k1 < k2 < r.len() ==> r[k1].char != r[k2].char
    &&& forall|c: char|
        is_tracked_punct(c) && total_occurrences(texts, c) > 0 ==> exists|k: int|
            0 <= k < r.len() && #[trigger] r[k].char == c
    &&& sorted_by_count_desc(r)
}

/// The total of `c` that an inventory records, 0 when it has no entry for it.
pub open spec fn entry_count(r: Seq<PunctuationEntry>, c: char) -> nat {
    if exists|k: int| 0 <= k < r.len() && #[trigger] r[k].char == c {
        r[choose|k: int| 0 <= k < r.len() && #[trigger] r[k].char == c].count as nat
    } else {
        0
    }
}

/// The number of posts with `c` that an inventory records, 0 when it has no
/// entry for it.
pub open spec fn entry_posts(r: Seq<PunctuationEntry>, c: char) -> nat {
    if exists|k: int| 0 <= k < r.len() && #[trigger] r[k].char == c {
        r[choose|k: int| 0 <= k < r.len() && #[trigger] r[k].char == c].posts_with as nat
    } else {
        0
    }
}

/// Occurrences add up over concatenated sets of texts.
proof fn lemma_total_occurrences_concat(a: Seq<Seq<char>>, b: Seq<Seq<char>>, c: char)
    ensures
        total_occurrences(a + b, c) == total_occurrences(a, c) + total_occurrences(b, c),
    decreases b.len(),
{
    if b.len() == 0 {
        assert(a + b =~= a);
    } else {
        lemma_total_occurrences_concat(a, b.drop_last(), c);
        assert((a + b).drop_last() =~= a + b.drop_last());
    }
}

/// Counts of texts with a property add up over concatenated sets of texts.
proof fn lemma_num_where_concat(
    a: Seq<Seq<char>>,
    b: Seq<Seq<char>>,
    p: spec_fn(Seq<char>) -> bool,
)
    ensures
        num_where(a + b, p) == num_where(a, p) + num_where(b, p),
    decreases b.len(),
{
    if b.len() == 0 {
        assert(a + b =~= a);
    } else {
        lemma_num_where_concat(a, b.drop_last(), p);
        assert((a + b).drop_last() =~= a + b.drop_last());
    }
}

/// A text without `c` has no occurrence of it, and conversely.
proof fn lemma_occurrences_contains(s: Seq<char>, c: char)
    ensures
        (occurrences(s, c) > 0) == s.contains(c),
    decreases s.len(),
{
    if s.len() > 0 {
        lemma_occurrences_contains(s.drop_last(), c);
        if s.drop_last().contains(c) {
            let k = choose|k: int| 0 <= k < s.drop_last().len() && s.drop_last()[k] == c;
            assert(s[k] == c);
        }
        if s.contains(c) {
            let k = choose|k: int| 0 <= k < s.len() && s[k] == c;
            if k < s.len() - 1 {
                assert(s.drop_last()[k] == c);
            }
        }
    }
}

/// Texts where `c` never occurs hold no post with it.
proof fn lemma_no_occurrences_no_posts(texts: Seq<Seq<char>>, c: char)
    requires
        total_occurrences(texts, c) == 0,
    ensures
        posts_containing(texts, c) == 0,
    decreases texts.len(),
{
    if texts.len() > 0 {
        lemma_no_occurrences_no_posts(texts.drop_last(), c);
        lemma_occurrences_contains(texts.last(), c);
    }
}

/// What an inventory records of a character: its totals over the texts
/// when it is tracked, nothing otherwise.
pub proof fn lemma_entry_values(texts: Seq<Seq<char>>, r: Seq<PunctuationEntry>, c: char)
    requires
        punctuation_of(texts, r),
    ensures
        entry_count(r, c) == if is_tracked_punct(c) {
            total_occurrences(texts, c)
        } else {
            0
        },
        entry_posts(r, c) == if is_tracked_punct(c) {
            posts_containing(texts, c)
        } else {
            0
        },
{
    if exists|k: int| 0 <= k < r.len() && #[trigger] r[k].char == c {
        let k = choose|k: int| 0 <= k < r.len() && #[trigger] r[k].char == c;
        assert(is_tracked_punct(r[k].char));
    } else if is_tracked_punct(c) {
        if total_occurrences(texts, c) > 0 {
            let k = choose|k: int| 0 <= k < r.len() && #[trigger] r[k].char == c;
            assert(false);
        }
        lemma_no_occurrences_no_posts(texts, c);
    }
}

/// The inventory of two sets of posts taken together records, for every
/// character, the sum of what the inventories of each set record: its total
/// uses and the number of posts containing it. So the inventory does not
/// depend on how the posts are split or ordered between the two sets.
pub proof fn lemma_punctuation_concat(
    a: Seq<Seq<char>>,
    b: Seq<Seq<char>>,
    ra: Seq<PunctuationEntry>,
    rb: Seq<PunctuationEntry>,
    rab: Seq<PunctuationEntry>,
)
    requires
        punctuation_of(a, ra),
        punctuation_of(b, rb),
        punctuation_of(a + b, rab),
    ensures
        forall|c: char|
            #[trigger] entry_count(rab, c) == entry_count(ra, c) + entry_count(rb, c),
        forall|c: char|
            #[trigger] entry_posts(rab, c) == entry_posts(ra, c) + entry_posts(rb, c),
{
    assert forall|c: char| #[trigger]
        entry_count(rab, c) == entry_count(ra, c) + entry_count(rb, c) by {
        lemma_entry_values(a, ra, c);
        lemma_entry_values(b, rb, c);
        lemma_entry_values(a + b, rab, c);
        lemma_total_occurrences_concat(a, b, c);
    }
    assert forall|c: char| #[trigger]
        entry_posts(rab, c) == entry_posts(ra, c) + entry_posts(rb, c) by {
        lemma_entry_values(a, ra, c);
        lemma_entry_values(b, rb, c);
        lemma_entry_values(a + b, rab, c);
        lemma_num_where_concat(a, b, |s: Seq<char>| s.contains(c));
    }
}

/// Inventory of punctuation characters used across all posts: one entry for
/// each tracked character that occurs, with its total occurrences and the
/// number of posts containing it, ordered by non-increasing total.
pub fn punctuation_inventory(bodies: &[&str]) -> (r: Vec<PunctuationEntry>)
    requires
        total_chars(str_views(bodies@)) <= usize::MAX,
    ensures
        punctuation_of(str_views(bodies@), r@),
        forall|k: int| 0 <= k < r@.len() ==> 0 < (#[trigger] r@[k]).posts_with <= r@[k].count,
{
    let mut entries: Vec<PunctuationEntry> = Vec::new();
    for i in 0..bodies.len()
        invariant
            total_chars(str_views(bodies@)) <= usize::MAX,
            entries_match(entries@, str_views(bodies@).take(i as int), Seq::empty()),
    {
        let cs = chars_of(bodies[i]);
        let mut seen: Vec<char> = Vec::new();
        proof {
            lemma_total_chars_prefix(str_views(bodies@), i as int);
            assert(cs@.take(0) =~= Seq::<char>::empty());
            assert forall|c: char| #[trigger] seen@.contains(c) <==> (is_tracked_punct(c) && cs@.take(0).contains(c)) by {
                assert(!seen@.contains(c));
            }
        }
        for j in 0..cs.len()
            invariant
                total_chars(str_views(bodies@).take(i as int)) + cs@.len() <= usize::MAX,
                entries_match(entries@, str_views(bodies@).take(i as int), cs@.take(j as int)),
                forall|c: char| #[trigger] seen@.contains(c) <==> (is_tracked_punct(c) && cs@.take(j as int).contains(c)),
        {
            let c = cs[j];
            let ghost done = str_views(bodies@).take(i as int);
            let ghost p = cs@.take(j as int);
            let ghost p2 = cs@.take(j + 1);
            let ghost e0 = entries@;
            let ghost s0 = seen@;
            let ghost mut widx: int = 0;
            proof {
                assert forall|d: char| #[trigger] occurrences(p2, d) == occurrences(p, d) + if d == c {
                    1nat
                } else {
                    0nat
                } by {
                    lemma_occurrences_step(cs@, j as int, d);
                }
                assert forall|d: char| #[trigger] p2.contains(d) <==> (p.contains(d) || d == c) by {
                    lemma_occurrences_step(cs@, j as int, d);
                }
            }
            if tracked_punct(c) {
                let k = find_entry(&entries, c);
                let in_seen = vec_has_char(&seen, c);
                proof {
                    lemma_totals(done, c);
                    lemma_occurrences_bounds(p, c);
                    assert(p.len() == j);
                    assert(in_seen == p.contains(c));
                }
                if k < entries.len() {
                    let old_e = entries[k];
                    let new_posts = if in_seen {
                        old_e.posts_with
                    } else {
                        old_e.posts_with + 1
                    };
                    entries.set(
                        k,
                        PunctuationEntry { char: c, count: old_e.count + 1, posts_with: new_posts },
                    );
                } else {
                    proof {
                        if total_occurrences(done, c) + occurrences(p, c) > 0 {
                            let q = choose|q: int|
                                0 <= q < entries@.len() && #[trigger] entries@[q].char == c;
                            assert(false);
                        }
                    }
                    entries.push(PunctuationEntry { char: c, count: 1, posts_with: 1 });
                }
                if !in_seen {
                    seen.push(c);
                    assert(seen@ == s0.push(c));
                }
                proof {
                    lemma_entries_step(e0, entries@, done, p, p2, c, k as int);
                }
            }
            proof {
                assert forall|d: char| #[trigger] seen@.contains(d) <==> (is_tracked_punct(d) && p2.contains(d)) by {
                    assert(p2.contains(d) <==> (p.contains(d) || d == c));
                    assert(s0.contains(d) <==> (is_tracked_punct(d) && p.contains(d)));
                    if seen@ != s0 {
                        if s0.contains(d) {
                            let t = choose|t: int| 0 <= t < s0.len() && s0[t] == d;
                            assert(seen@[t] == d);
                        }
                        if d == c {
                            assert(seen@[s0.len() as int] == d);
                        }
                        if seen@.contains(d) && d != c {
                            let t = choose|t: int| 0 <= t < seen@.len() && seen@[t] == d;
                            assert(s0[t] == d);
                        }
                    }
                }
                if !is_tracked_punct(c) {
                    lemma_entries_skip(e0, done, p, p2, c);
                }
            }
        }
        proof {
            assert(cs@.take(cs@.len() as int) =~= cs@);
            lemma_entries_next_body(entries@, str_views(bodies@), i as int);
        }
    }
    proof {
        assert(str_views(bodies@).take(str_views(bodies@).len() as int) =~= str_views(bodies@));
    }
    let ghost e = entries@;
    let r = sort_by_count_desc(entries);
    proof {
        lemma_entries_permuted(e, r@, str_views(bodies@));
    }
    r
}

/// Full voice profile of a set of post bodies.
pub struct VoiceProfile {
    pub total_posts: usize,
    pub word_count: WordCountStats,
    pub sentence: SentenceStats,
    pub lowercase_start_rate: Rate,
    pub contraction_rate: Rate,
    pub question_rate: Rate,
    pub punctuation: Vec<PunctuationEntry>,
    pub bigrams: Vec<Ngram>,
    pub trigrams: Vec<Ngram>,
}

/// `r` is the voice profile of `texts`: each part as its own analysis
/// states it, with the 15 most common bigrams and 10 most common trigrams.
pub open spec fn profile_of(texts: Seq<Seq<char>>, r: VoiceProfile) -> bool {
    &&& r.total_posts == texts.len()
    &&& word_count_stats_of(texts, r.word_count)
    &&& sentence_stats_of(texts, r.sentence)
    &&& rate_of(texts, |s: Seq<char>| starts_lowercase(s), r.lowercase_start_rate)
    &&& rate_of(texts, |s: Seq<char>| uses_contraction(s), r.contraction_rate)
    &&& rate_of(texts, |s: Seq<char>| asks_question(s), r.question_rate)
    &&& punctuation_of(texts, r.punctuation@)
    &&& ngrams_of(texts, 2, 15, r.bigrams@)
    &&& ngrams_of(texts, 3, 10, r.trigrams@)
}

/// Build a full voice profile from a set of post bodies.
pub fn build_profile(bodies: &[&str]) -> (r: VoiceProfile)
    requires
        total_chars(str_views(bodies@)) <= usize::MAX,
    ensures
        profile_of(str_views(bodies@), r),
        r.sentence.total_sentence_words == r.word_count.total_words,
{
    VoiceProfile {
        total_posts: bodies.len(),
        word_count: word_count_stats(bodies),
        sentence: sentence_stats(bodies),
        lowercase_start_rate: lowercase_start_rate(bodies),
        contraction_rate: contraction_rate(bodies),
        question_rate: question_rate(bodies),
        punctuation: punctuation_inventory(bodies),
        bigrams: common_ngrams(bodies, 2, 15),
        trigrams: common_ngrams(bodies, 3, 10),
    }
}

/// Per-type summary stats.
pub struct TypeSummary {
    pub post_type: String,
    pub count: usize,
    pub word_count: WordCountStats,
    pub lowercase_start_rate: Rate,
    pub question_rate: Rate,
}

impl ByCount for TypeSummary {
    open spec fn count_key(&self) -> int {
        self.count as int
    }

    fn count_value(&self) -> (r: usize) {
        self.count
    }
}

/// The bodies of the posts of type `t`, in order.
pub open spec fn bodies_of_type(posts: Seq<Post>, t: Seq<char>) -> Seq<Seq<char>>
    decreases posts.len(),
{
    if posts.len() == 0 {
        Seq::empty()
    } else {
        let prev = bodies_of_type(posts.drop_last(), t);
        if posts.last().post_type@ == t {
            prev.push(posts.last().body@)
        } else {
            prev
        }
    }
}

/// The bodies of the posts, in order.
pub open spec fn post_bodies(posts: Seq<Post>) -> Seq<Seq<char>> {
    posts.map_values(|p: Post| p.body@)
}

/// The bodies of one type are no longer, all together, than all bodies.
pub proof fn lemma_bodies_of_type_chars(posts: Seq<Post>, t: Seq<char>)
    ensures
        total_chars(bodies_of_type(posts, t)) <= total_chars(post_bodies(posts)),
    decreases posts.len(),
{
    if posts.len() > 0 {
        lemma_bodies_of_type_chars(posts.drop_last(), t);
        assert(post_bodies(posts).drop_last() =~= post_bodies(posts.drop_last()));
        assert(post_bodies(posts).last() == posts.last().body@);
        let prev = bodies_of_type(posts.drop_last(), t);
        assert(prev.push(posts.last().body@).drop_last() =~= prev);
    }
}

/// Adding the next post to a prefix adds its body to the bodies of its type
/// only, and its type to the types present.
proof fn lemma_bodies_of_type_step(posts: Seq<Post>, i: int, t: Seq<char>)
    requires
        0 <= i < posts.len(),
    ensures
        bodies_of_type(posts.take(i + 1), t) == if posts[i].post_type@ == t {
            bodies_of_type(posts.take(i), t).push(posts[i].body@)
        } else {
            bodies_of_type(posts.take(i), t)
        },
        has_type(posts.take(i + 1), t) == (has_type(posts.take(i), t) || posts[i].post_type@ == t),
{
    let next = posts.take(i + 1);
    let pre = posts.take(i);
    assert(next.drop_last() =~= pre);
    assert(next.last() == posts[i]);
    if has_type(pre, t) {
        let w = choose|w: int| 0 <= w < pre.len() && (#[trigger] pre[w]).post_type@ == t;
        assert(next[w] == pre[w]);
    }
    if posts[i].post_type@ == t {
        assert(next[i] == posts[i]);
    }
    if has_type(next, t) {
        let w = choose|w: int| 0 <= w < next.len() && (#[trigger] next[w]).post_type@ == t;
        if w < i {
            assert(pre[w] == next[w]);
        }
    }
}

/// Some post has type `t`.
pub open spec fn has_type(posts: Seq<Post>, t: Seq<char>) -> bool {
    exists|i: int| 0 <= i < posts.len() && (#[trigger] posts[i]).post_type@ == t
}

/// `s` summarizes the posts of its type.
pub open spec fn summary_of(posts: Seq<Post>, s: TypeSummary) -> bool {
    let texts = bodies_of_type(posts, s.post_type@);
    &&& has_type(posts, s.post_type@)
    &&& s.count == texts.len()
    &&& word_count_stats_of(texts, s.word_count)
    &&& rate_of(texts, |x: Seq<char>| starts_lowercase(x), s.lowercase_start_rate)
    &&& rate_of(texts, |x: Seq<char>| asks_question(x), s.question_rate)
}

/// Build per-type summaries: one for each post type present, by
/// non-increasing number of posts.
#[verifier::spinoff_prover]
#[verifier::rlimit(40)]
pub fn type_summaries(posts: &[Post]) -> (r: Vec<TypeSummary>)
    requires
        total_chars(post_bodies(posts@)) <= usize::MAX,
    ensures
        forall|j: int| 0 <= j < r@.len() ==> summary_of(posts@, #[trigger] r@[j]),
        forall|j1: int, j2: int| 0 <= j1 < j2 < r@.len() ==> r@[j1].post_type@ != r@[j2].post_type@,
        forall|i: int|
            0 <= i < posts@.len() ==> exists|j: int|
                0 <= j < r@.len() && #[trigger] r@[j].post_type@ == (#[trigger] posts@[i]).post_type@,
        sorted_by_count_desc(r@),
{
    let mut types: Vec<String> = Vec::new();
    let mut groups: Vec<Vec<&str>> = Vec::new();
    let mut i: usize = 0;
    while i < posts.len()
        invariant
            i <= posts@.len(),
            types@.len() == groups@.len(),
            forall|k1: int, k2: int| 0 <= k1 < k2 < types@.len() ==> types@[k1]@ != types@[k2]@,
            forall|k: int|
                0 <= k < types@.len() ==> str_views((#[trigger] groups@[k])@) == bodies_of_type(
                    posts@.take(i as int),
                    types@[k]@,
                ) && has_type(posts@.take(i as int), types@[k]@),
            forall|i2: int|
                0 <= i2 < i ==> exists|k: int|
                    0 <= k < types@.len() && #[trigger] types@[k]@ == (#[trigger] posts@[i2]).post_type@,
        decreases posts@.len() - i,
    {
        let ghost pre = posts@.take(i as int);
        let ghost next = posts@.take(i + 1);
        let ghost g0 = groups@;
        let ghost t0 = types@;
        proof {
            assert(next.drop_last() =~= pre);
            assert(next.last() == posts@[i as int]);
        }
        let mut k: usize = 0;
        while k < types.len() && !(types[k] == posts[i].post_type)
            invariant
                i < posts@.len(),
                k <= types@.len(),
                forall|q: int| 0 <= q < k ==> types@[q]@ != posts@[i as int].post_type@,
            decreases types@.len() - k,
        {
            k = k + 1;
        }
        if k < types.len() {
            let mut tmp: Vec<&str> = Vec::new();
            groups.set_and_swap(k, &mut tmp);
            tmp.push(posts[i].body.as_str());
            groups.set(k, tmp);
        } else {
            types.push(posts[i].post_type.clone());
            let mut g: Vec<&str> = Vec::new();
            g.push(posts[i].body.as_str());
            groups.push(g);
        }
        proof {
            let ty = posts@[i as int].post_type@;
            assert forall|k2: int|
                0 <= k2 < types@.len() implies str_views((#[trigger] groups@[k2])@) == bodies_of_type(
                    next,
                    types@[k2]@,
                ) && has_type(next, types@[k2]@) by {
                lemma_bodies_of_type_step(posts@, i as int, types@[k2]@);
                if k2 == k {
                    assert(types@[k2]@ == ty);
                    assert(next[i as int].post_type@ == ty);
                    if k < t0.len() {
                        assert(str_views(groups@[k2]@) =~= str_views(g0[k2]@).push(posts@[i as int].body@));
                    } else {
                        assert(bodies_of_type(pre, ty).len() == 0) by {
                            lemma_no_type_no_bodies(pre, ty);
                        }
                        assert(str_views(groups@[k2]@) =~= seq![posts@[i as int].body@]);
                        assert(bodies_of_type(pre, ty) =~= Seq::<Seq<char>>::empty());
                        assert(Seq::<Seq<char>>::empty().push(posts@[i as int].body@) =~= seq![posts@[i as int].body@]);
                    }
                } else {
                    assert(groups@[k2] == g0[k2]);
                    assert(types@[k2] == t0[k2]);
                    assert(types@[k2]@ != ty);
                }
            }
            assert forall|k1: int, k2: int| 0 <= k1 < k2 < types@.len() implies types@[k1]@
                != types@[k2]@ by {
                if k2 == t0.len() {
                    assert(types@[k1] == t0[k1]);
                }
            }
            assert forall|i2: int| 0 <= i2 < i + 1 implies exists|k: int|
                0 <= k < types@.len() && #[trigger] types@[k]@ == (#[trigger] posts@[i2]).post_type@ by {
                if i2 < i {
                    let q = choose|q: int|
                        0 <= q < t0.len() && #[trigger] t0[q]@ == (#[trigger] posts@[i2]).post_type@;
                    assert(types@[q] == t0[q]);
                    assert(types@[q]@ == posts@[i2].post_type@);
                } else {
                    assert(types@[k as int]@ == posts@[i2].post_type@);
                }
            }
        }
        i = i + 1;
    }
    proof {
        assert(posts@.take(posts@.len() as int) =~= posts@);
    }
    proof {
        assert forall|t: Seq<char>| total_chars(#[trigger] bodies_of_type(posts@, t)) <= usize::MAX by {
            lemma_bodies_of_type_chars(posts@, t);
        }
    }
    let mut summaries: Vec<TypeSummary> = Vec::new();
    for k in 0..types.len()
        invariant
            types@.len() == groups@.len(),
            forall|t: Seq<char>| total_chars(#[trigger] bodies_of_type(posts@, t)) <= usize::MAX,
            forall|q: int|
                0 <= q < types@.len() ==> str_views((#[trigger] groups@[q])@) == bodies_of_type(
                    posts@,
                    types@[q]@,
                ) && has_type(posts@, types@[q]@),
            summaries@.len() == k,
            forall|q: int| 0 <= q < k ==> summary_of(posts@, #[trigger] summaries@[q]),
            forall|q: int| 0 <= q < k ==> (#[trigger] summaries@[q]).post_type@ == types@[q]@,
    {
        let g = &groups[k];
        proof {
            assert(str_views(g@) == bodies_of_type(posts@, types@[k as int]@));
            assert(total_chars(bodies_of_type(posts@, types@[k as int]@)) <= usize::MAX);
        }
        let s = TypeSummary {
            post_type: types[k].clone(),
            count: g.len(),
            word_count: word_count_stats(g.as_slice()),
            lowercase_start_rate: lowercase_start_rate(g.as_slice()),
            question_rate: question_rate(g.as_slice()),
        };
        summaries.push(s);
    }
    let ghost e = summaries@;
    let r = sort_by_count_desc(summaries);
    proof {
        lemma_permutation_elements(e, r@);
        assert forall|a: int, b: int| 0 <= a < b < e.len() implies (|x: TypeSummary| x.post_type@)(
            e[a],
        ) != (|x: TypeSummary| x.post_type@)(e[b]) by {}
        lemma_permutation_distinct(e, r@, |x: TypeSummary| x.post_type@);
        assert forall|j: int| 0 <= j < r@.len() implies summary_of(posts@, #[trigger] r@[j]) by {
            assert(e.contains(r@[j]));
        }
        assert forall|j1: int, j2: int| 0 <= j1 < j2 < r@.len() implies r@[j1].post_type@
            != r@[j2].post_type@ by {
            assert((|x: TypeSummary| x.post_type@)(r@[j1]) != (|x: TypeSummary| x.post_type@)(
                r@[j2],
            ));
        }
        assert forall|i: int| 0 <= i < posts@.len() implies exists|j: int|
            0 <= j < r@.len() && #[trigger] r@[j].post_type@ == (#[trigger] posts@[i]).post_type@ by {
            let q = choose|q: int|
                0 <= q < types@.len() && #[trigger] types@[q]@ == (#[trigger] posts@[i]).post_type@;
            assert(r@.contains(e[q]));
            let j = choose|j: int| 0 <= j < r@.len() && r@[j] == e[q];
            assert(r@[j].post_type@ == posts@[i].post_type@);
        }
    }
    r
}

/// With no post of type `t` there are no bodies of that type.
pub proof fn lemma_no_type_no_bodies(posts: Seq<Post>, t: Seq<char>)
    requires
        !has_type(posts, t),
    ensures
        bodies_of_type(posts, t).len() == 0,
    decreases posts.len(),
{
    if posts.len() > 0 {
        assert(posts.last() == posts[posts.len() - 1]);
        assert forall|i: int| 0 <= i < posts.len() - 1 implies (#[trigger] posts.drop_last()[i]).post_type@ != t by {
            assert(posts.drop_last()[i] == posts[i]);
        }
        lemma_no_type_no_bodies(posts.drop_last(), t);
    }
}

/// A sentence ends at `.`, `!` or `?`.
pub open spec fn is_terminal(c: char) -> bool {
    c == '.' || c == '!' || c == '?'
}

/// Position `i` of `s` closes a sentence: a terminal character followed by a
/// space, a newline, or the end of the text.
pub open spec fn ends_sentence(s: Seq<char>, i: int) -> bool {
    is_terminal(s[i]) && (i + 1 >= s.len() || s[i + 1] == ' ' || s[i + 1] == '\n')
}

/// `t` as a one-element sequence when it is not empty.
pub open spec fn keep_nonempty(t: Seq<char>) -> Seq<Seq<char>> {
    if t.len() > 0 {
        seq![t]
    } else {
        Seq::empty()
    }
}

/// The sentences of `s` found by scanning from position `i`, where the
/// current sentence began at `start`.
pub open spec fn sentences_from(s: Seq<char>, start: int, i: int) -> Seq<Seq<char>>
    decreases s.len() - i,
{
    if i >= s.len() {
        keep_nonempty(trim(s.subrange(start, s.len() as int)))
    } else if ends_sentence(s, i) {
        keep_nonempty(trim(s.subrange(start, i + 1))) + sentences_from(s, i + 1, i + 1)
    } else {
        sentences_from(s, start, i + 1)
    }
}

/// The trimmed, non-empty sentences of `s`, in order.
pub open spec fn split_sentences(s: Seq<char>) -> Seq<Seq<char>> {
    sentences_from(s, 0, 0)
}

/// Words add up over concatenated sentence lists.
proof fn lemma_words_in_concat(a: Seq<Seq<char>>, b: Seq<Seq<char>>)
    ensures
        words_in(a + b) == words_in(a) + words_in(b),
{
    let wa = Seq::new(a.len(), |j: int| words(a[j]).len() as int);
    let wb = Seq::new(b.len(), |j: int| words(b[j]).len() as int);
    assert(Seq::new((a + b).len(), |j: int| words((a + b)[j]).len() as int) =~= wa + wb);
    lemma_sum_concat(wa, wb);
}

/// A kept sentence is one, with no more words than characters.
proof fn lemma_keep_bound(t: Seq<char>)
    ensures
        keep_nonempty(t).len() <= t.len(),
        words_in(keep_nonempty(t)) <= t.len(),
{
    crate::text::lemma_words_len(t);
    let ws = Seq::new(keep_nonempty(t).len(), |j: int| words(keep_nonempty(t)[j]).len() as int);
    if t.len() > 0 {
        assert(ws.drop_last().len() == 0);
        assert(sum(ws.drop_last()) == 0);
    } else {
        assert(ws.len() == 0);
    }
}

/// The sentences found from `start` on are no more than the characters
/// left, and so are their words.
proof fn lemma_sentences_from_bound(s: Seq<char>, start: int, i: int)
    requires
        0 <= start <= i <= s.len(),
    ensures
        sentences_from(s, start, i).len() <= s.len() - start,
        words_in(sentences_from(s, start, i)) <= s.len() - start,
    decreases s.len() - i,
{
    if i >= s.len() {
        let t = trim(s.subrange(start, s.len() as int));
        crate::text::lemma_trim_len(s.subrange(start, s.len() as int));
        lemma_keep_bound(t);
    } else if ends_sentence(s, i) {
        let t = trim(s.subrange(start, i + 1));
        crate::text::lemma_trim_len(s.subrange(start, i + 1));
        lemma_keep_bound(t);
        lemma_sentences_from_bound(s, i + 1, i + 1);
        lemma_words_in_concat(keep_nonempty(t), sentences_from(s, i + 1, i + 1));
    } else {
        lemma_sentences_from_bound(s, start, i + 1);
    }
}

/// A set of texts has no more sentences than characters, nor more words in
/// its sentences.
pub proof fn lemma_sentence_totals(bodies: Seq<Seq<char>>)
    ensures
        sum(sentence_count_seq(bodies)) <= total_chars(bodies),
        sum(sentence_word_seq(bodies)) <= total_chars(bodies),
    decreases bodies.len(),
{
    if bodies.len() > 0 {
        lemma_sentence_totals(bodies.drop_last());
        assert(sentence_count_seq(bodies).drop_last() =~= sentence_count_seq(bodies.drop_last()));
        assert(sentence_word_seq(bodies).drop_last() =~= sentence_word_seq(bodies.drop_last()));
        lemma_sentences_from_bound(bodies.last(), 0, 0);
    }
}

/// The number of characters of all bodies, when it fits a `usize`.
pub fn total_chars_checked(bodies: &[&str]) -> (r: Option<usize>)
    ensures
        match r {
            Some(n) => n == total_chars(str_views(bodies@)),
            None => total_chars(str_views(bodies@)) > usize::MAX,
        },
{
    let ghost v = str_views(bodies@);
    let mut total: usize = 0;
    for i in 0..bodies.len()
        invariant
            v == str_views(bodies@),
            total == total_chars(v.take(i as int)),
    {
        let n = chars_of(bodies[i]).len();
        proof {
            assert(v.take(i + 1).drop_last() =~= v.take(i as int));
            lemma_total_chars_prefix(v, i as int);
        }
        match total.checked_add(n) {
            Some(t) => {
                total = t;
            },
            None => {
                return None;
            },
        }
    }
    assert(v.take(v.len() as int) =~= v);
    Some(total)
}

/// The number of characters of all the posts' bodies, when it fits a
/// `usize`.
pub fn post_chars_checked(posts: &[Post]) -> (r: Option<usize>)
    ensures
        match r {
            Some(n) => n == total_chars(post_bodies(posts@)),
            None => total_chars(post_bodies(posts@)) > usize::MAX,
        },
{
    let ghost v = post_bodies(posts@);
    let mut total: usize = 0;
    for i in 0..posts.len()
        invariant
            v == post_bodies(posts@),
            total == total_chars(v.take(i as int)),
    {
        let n = chars_of(posts[i].body.as_str()).len();
        proof {
            assert(v.take(i + 1).drop_last() =~= v.take(i as int));
            lemma_total_chars_prefix(v, i as int);
        }
        match total.checked_add(n) {
            Some(t) => {
                total = t;
            },
            None => {
                return None;
            },
        }
    }
    assert(v.take(v.len() as int) =~= v);
    Some(total)
}

/// The words of a kept sentence are those of the text it was trimmed from.
proof fn lemma_keep_words(x: Seq<char>)
    ensures
        words_in(keep_nonempty(trim(x))) == words(x).len(),
{
    crate::text::lemma_words_len_trim(x);
    let t = trim(x);
    let ws = Seq::new(keep_nonempty(t).len(), |j: int| words(keep_nonempty(t)[j]).len() as int);
    if t.len() > 0 {
        assert(ws.drop_last().len() == 0);
        assert(sum(ws.drop_last()) == 0);
    } else {
        assert(ws.len() == 0);
        assert(t =~= Seq::<char>::empty());
        assert(words(t).len() == 0);
    }
}

/// The sentences found from `start` on hold the words of the text from
/// `start` on.
proof fn lemma_sentences_from_words(s: Seq<char>, start: int, i: int)
    requires
        0 <= start <= i <= s.len(),
    ensures
        words_in(sentences_from(s, start, i)) == words(s.subrange(start, s.len() as int)).len(),
    decreases s.len() - i,
{
    if i >= s.len() {
        lemma_keep_words(s.subrange(start, s.len() as int));
    } else if ends_sentence(s, i) {
        let head = s.subrange(start, i + 1);
        let tail = s.subrange(i + 1, s.len() as int);
        lemma_keep_words(head);
        lemma_sentences_from_words(s, i + 1, i + 1);
        lemma_words_in_concat(keep_nonempty(trim(head)), sentences_from(s, i + 1, i + 1));
        if tail.len() > 0 {
            assert(tail[0] == s[i + 1]);
        }
        crate::text::lemma_words_len_concat(head, tail);
        assert(head + tail =~= s.subrange(start, s.len() as int));
    } else {
        lemma_sentences_from_words(s, start, i + 1);
    }
}

/// Splitting texts into sentences keeps every word: the sentences of each
/// text hold as many words as the text.
pub proof fn lemma_sentence_words(texts: Seq<Seq<char>>)
    ensures
        sentence_word_seq(texts) == word_count_seq(texts),
{
    assert forall|k: int| 0 <= k < texts.len() implies #[trigger] sentence_word_seq(texts)[k]
        == word_count_seq(texts)[k] by {
        lemma_sentences_from_words(texts[k], 0, 0);
        assert(texts[k].subrange(0, texts[k].len() as int) =~= texts[k]);
    }
    assert(sentence_word_seq(texts) =~= word_count_seq(texts));
}

/// A sentence is one when it neither is empty nor starts or ends with
/// whitespace.
pub open spec fn well_trimmed(t: Seq<char>) -> bool {
    t.len() > 0 && !is_space(t[0]) && !is_space(t.last())
}

/// Every sentence found from `start` on is non-empty and trimmed.
proof fn lemma_sentences_from_trimmed(s: Seq<char>, start: int, i: int)
    requires
        0 <= start <= i <= s.len(),
    ensures
        forall|k: int|
            0 <= k < sentences_from(s, start, i).len() ==> well_trimmed(
                #[trigger] sentences_from(s, start, i)[k],
            ),
    decreases s.len() - i,
{
    if i >= s.len() {
        let t = trim(s.subrange(start, s.len() as int));
        crate::text::lemma_trim_ends(s.subrange(start, s.len() as int));
        assert forall|k: int| 0 <= k < sentences_from(s, start, i).len() implies well_trimmed(
            #[trigger] sentences_from(s, start, i)[k],
        ) by {
            assert(sentences_from(s, start, i) == keep_nonempty(t));
            assert(t.len() > 0);
            assert(keep_nonempty(t)[k] == t);
        }
    } else if ends_sentence(s, i) {
        let t = trim(s.subrange(start, i + 1));
        crate::text::lemma_trim_ends(s.subrange(start, i + 1));
        lemma_sentences_from_trimmed(s, i + 1, i + 1);
        let rest = sentences_from(s, i + 1, i + 1);
        assert forall|k: int| 0 <= k < sentences_from(s, start, i).len() implies well_trimmed(
            #[trigger] sentences_from(s, start, i)[k],
        ) by {
            if k < keep_nonempty(t).len() {
                assert(keep_nonempty(t)[k] == t);
                assert(sentences_from(s, start, i)[k] == t);
            } else {
                assert(sentences_from(s, start, i)[k] == rest[k - keep_nonempty(t).len()]);
            }
        }
    } else {
        lemma_sentences_from_trimmed(s, start, i + 1);
        assert(sentences_from(s, start, i) == sentences_from(s, start, i + 1));
        assert forall|k: int| 0 <= k < sentences_from(s, start, i).len() implies well_trimmed(
            #[trigger] sentences_from(s, start, i)[k],
        ) by {
            assert(well_trimmed(sentences_from(s, start, i + 1)[k]));
        }
    }
}

/// Every sentence of a text is non-empty and has no whitespace at either
/// end.
pub proof fn lemma_sentences_trimmed(s: Seq<char>)
    ensures
        forall|k: int|
            0 <= k < split_sentences(s).len() ==> well_trimmed(#[trigger] split_sentences(s)[k]),
{
    lemma_sentences_from_trimmed(s, 0, 0);
}

/// The views of a sequence of string slices.
pub open spec fn str_views(v: Seq<&str>) -> Seq<Seq<char>> {
    v.map_values(|x: &str| x@)
}

/// Split text into sentences: a sentence ends at `.`, `!` or `?` followed by
/// a space, a newline or the end of the text; each is trimmed, and empty ones
/// are dropped.
pub fn sentences<'a>(text: &'a str) -> (r: Vec<&'a str>)
    ensures
        str_views(r@) == split_sentences(text@),
        forall|k: int| 0 <= k < r@.len() ==> well_trimmed(#[trigger] r@[k]@),
{
    let cs = chars_of(text);
    let len = cs.len();
    let mut result: Vec<&'a str> = Vec::new();
    let mut start: usize = 0;
    let mut i: usize = 0;
    while i < len
        invariant
            len == cs@.len(),
            cs@ == text@,
            start <= i <= len,
            str_views(result@) + sentences_from(cs@, start as int, i as int) == split_sentences(
                cs@,
            ),
        decreases len - i,
    {
        let c = cs[i];
        let is_terminal = c == '.' || c == '!' || c == '?';
        let at_end = i + 1 >= len;
        let closes = is_terminal && (at_end || cs[i + 1] == ' ' || cs[i + 1] == '\n');
        if closes {
            let ghost before = str_views(result@);
            let (a, b) = strip_bounds(&cs, start, i + 1, false);
            if a < b {
                let piece = text.substring_char(a, b);
                result.push(piece);
                assert(str_views(result@) =~= before.push(piece@));
            }
            proof {
                let t = trim(cs@.subrange(start as int, i + 1));
                assert(ends_sentence(cs@, i as int));
                if a < b {
                    assert(keep_nonempty(t) =~= seq![t]);
                    assert(before.push(t) + sentences_from(cs@, i + 1, i + 1) =~= before + (
                    seq![t] + sentences_from(cs@, i + 1, i + 1)));
                } else {
                    assert(keep_nonempty(t) =~= Seq::<Seq<char>>::empty());
                    assert(seq![] + sentences_from(cs@, i + 1, i + 1) =~= sentences_from(
                        cs@,
                        i + 1,
                        i + 1,
                    ));
                }
            }
            start = i + 1;
        }
        i = i + 1;
    }
    let ghost before = str_views(result@);
    let (a, b) = strip_bounds(&cs, start, len, false);
    if a < b {
        let piece = text.substring_char(a, b);
        result.push(piece);
        assert(str_views(result@) =~= before.push(piece@));
    }
    proof {
        let t = trim(cs@.subrange(start as int, len as int));
        if a < b {
            assert(keep_nonempty(t) =~= seq![t]);
            assert(before + seq![t] =~= before.push(t));
        } else {
            assert(keep_nonempty(t) =~= Seq::<Seq<char>>::empty());
            assert(before + Seq::<Seq<char>>::empty() =~= before);
        }
    }
    proof {
        lemma_sentences_trimmed(text@);
        assert forall|k: int| 0 <= k < result@.len() implies well_trimmed(#[trigger] result@[k]@) by {
            assert(str_views(result@)[k] == result@[k]@);
        }
    }
    result
}

} // verus!
