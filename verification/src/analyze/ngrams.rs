//! Common phrases: the most frequent n-word sequences over a set of posts.

use vstd::prelude::*;

use crate::analyze::str_views;
use crate::text::{
    chars_eq, chars_of, lowercase, strip_bounds, to_lowercase, trim_punct,
    word_spans, words,
};

verus! {

/// An n-word phrase (lowercased, words joined by single spaces) and how often
/// it occurs.
pub struct Ngram {
    pub words: String,
    pub count: usize,
}

/// The words that are non-empty once ASCII punctuation is trimmed from their
/// ends, trimmed.
pub open spec fn trimmed_nonempty(ws: Seq<Seq<char>>) -> Seq<Seq<char>>
    decreases ws.len(),
{
    if ws.len() == 0 {
        Seq::empty()
    } else {
        let prev = trimmed_nonempty(ws.drop_last());
        let t = trim_punct(ws.last());
        if t.len() > 0 {
            prev.push(t)
        } else {
            prev
        }
    }
}

/// The tokens of a text: its words with leading and trailing ASCII
/// punctuation removed, empty results dropped.
pub open spec fn tokens(s: Seq<char>) -> Seq<Seq<char>> {
    trimmed_nonempty(words(s))
}

/// The tokens of `text`, as slices of it.
pub fn tokens_of<'a>(text: &'a str) -> (r: Vec<&'a str>)
    ensures
        str_views(r@) == tokens(text@),
{
    let cs = chars_of(text);
    let spans = word_spans(&cs);
    let ghost ws = words(cs@);
    let mut r: Vec<&'a str> = Vec::new();
    for k in 0..spans.len()
        invariant
            cs@ == text@,
            ws == words(cs@),
            spans@.len() == ws.len(),
            forall|q: int|
                0 <= q < spans@.len() ==> {
                    let (a, b) = #[trigger] spans@[q];
                    &&& a < b <= cs@.len()
                    &&& cs@.subrange(a as int, b as int) == ws[q]
                },
            str_views(r@) == trimmed_nonempty(ws.take(k as int)),
    {
        let (a, b) = spans[k];
        let (a2, b2) = strip_bounds(&cs, a, b, true);
        let ghost before = str_views(r@);
        proof {
            assert(ws.take(k + 1).drop_last() =~= ws.take(k as int));
            assert(ws.take(k + 1).last() == ws[k as int]);
        }
        if a2 < b2 {
            let piece = text.substring_char(a2, b2);
            r.push(piece);
            assert(str_views(r@) =~= before.push(piece@));
        }
    }
    proof {
        assert(ws.take(ws.len() as int) =~= ws);
    }
    r
}

/// The stopwords: phrases made only of these are not counted.
pub open spec fn stopwords() -> Seq<Seq<char>> {
    seq![
        "a"@, "an"@, "the"@, "is"@, "it"@, "in"@, "on"@, "to"@, "of"@, "for"@, "and"@, "or"@,
        "but"@, "not"@, "be"@, "this"@, "that"@, "with"@, "as"@, "at"@, "by"@, "from"@, "if"@,
        "so"@, "no"@, "do"@, "i"@, "you"@, "we"@, "he"@, "she"@, "they"@, "my"@, "your"@,
        "our"@, "his"@, "her"@, "its"@, "their"@, "was"@, "were"@, "are"@, "am"@, "been"@,
        "has"@, "have"@, "had"@, "will"@, "would"@, "could"@, "should"@, "can"@, "may"@,
        "might"@,
    ]
}

/// Every word of `win`, lowercased, is a stopword.
pub open spec fn all_stopwords(win: Seq<Seq<char>>) -> bool {
    forall|k: int| 0 <= k < win.len() ==> stopwords().contains(lowercase(#[trigger] win[k]))
}

/// The stopwords, as character vectors.
fn stopword_chars() -> (v: Vec<Vec<char>>)
    ensures
        v@.len() == stopwords().len(),
        forall|k: int| 0 <= k < v@.len() ==> (#[trigger] v@[k])@ == stopwords()[k],
{
    let list: Vec<&str> = vec![
        "a", "an", "the", "is", "it", "in", "on", "to", "of", "for", "and", "or", "but", "not",
        "be", "this", "that", "with", "as", "at", "by", "from", "if", "so", "no", "do", "i",
        "you", "we", "he", "she", "they", "my", "your", "our", "his", "her", "its", "their",
        "was", "were", "are", "am", "been", "has", "have", "had", "will", "would", "could",
        "should", "can", "may", "might",
    ];
    assert(str_views(list@) =~= stopwords());
    let mut v: Vec<Vec<char>> = Vec::new();
    for i in 0..list.len()
        invariant
            str_views(list@) == stopwords(),
            v@.len() == i,
            forall|k: int| 0 <= k < i ==> (#[trigger] v@[k])@ == stopwords()[k],
    {
        let cs = chars_of(list[i]);
        assert(cs@ == str_views(list@)[i as int]);
        v.push(cs);
    }
    v
}

/// Whether lowercased text is a stopword.
pub fn is_stopword(lowered: &str) -> (r: bool)
    ensures
        r == stopwords().contains(lowered@),
{
    let stop = stopword_chars();
    let lc = chars_of(lowered);
    for j in 0..stop.len()
        invariant
            stop@.len() == stopwords().len(),
            forall|k: int| 0 <= k < stop@.len() ==> (#[trigger] stop@[k])@ == stopwords()[k],
            lc@ == lowered@,
            forall|q: int| 0 <= q < j ==> stopwords()[q] != lc@,
    {
        if chars_eq(&stop[j], &lc) {
            assert(stopwords()[j as int] == lowered@);
            return true;
        }
    }
    proof {
        if stopwords().contains(lowered@) {
            let q = choose|q: int| 0 <= q < stopwords().len() && stopwords()[q] == lowered@;
            assert(false);
        }
    }
    false
}

/// Whether every word, lowercased, is a stopword.
pub fn is_all_stopwords(words: &[&str]) -> (r: bool)
    ensures
        r == all_stopwords(str_views(words@)),
{
    for i in 0..words.len()
        invariant
            forall|k: int|
                0 <= k < i ==> stopwords().contains(lowercase(#[trigger] str_views(words@)[k])),
    {
        let lower = to_lowercase(words[i]);
        assert(str_views(words@)[i as int] == words@[i as int]@);
        if !is_stopword(lower.as_str()) {
            return false;
        }
    }
    true
}

/// Words joined by single spaces.
pub open spec fn join_words(w: Seq<Seq<char>>) -> Seq<char>
    decreases w.len(),
{
    if w.len() == 0 {
        Seq::empty()
    } else if w.len() == 1 {
        w[0]
    } else {
        join_words(w.drop_last()) + seq![' '] + w.last()
    }
}

/// Join words with single spaces.
pub fn join_with_spaces(win: &[&str]) -> (r: String)
    ensures
        r@ == join_words(str_views(win@)),
{
    let mut r = String::new();
    proof {
        reveal_strlit(" ");
    }
    for i in 0..win.len()
        invariant
            r@ == join_words(str_views(win@).take(i as int)),
            " "@ == seq![' '],
    {
        let ghost t = str_views(win@).take(i + 1);
        proof {
            assert(t.drop_last() =~= str_views(win@).take(i as int));
            assert(t.last() == win@[i as int]@);
        }
        if i > 0 {
            r.append(" ");
        } else {
            assert(t.len() == 1);
        }
        r.append(win[i]);
    }
    proof {
        assert(str_views(win@).take(win@.len() as int) =~= str_views(win@));
    }
    r
}

/// The phrase keys of the windows of `t` of `n` words that start before `m`,
/// skipping (for `n` of at most 2) windows made only of stopwords.
pub open spec fn window_keys(t: Seq<Seq<char>>, n: nat, m: nat) -> Seq<Seq<char>>
    decreases m,
{
    if m == 0 {
        Seq::empty()
    } else {
        let prev = window_keys(t, n, (m - 1) as nat);
        let win = t.subrange(m - 1, m - 1 + n);
        if n <= 2 && all_stopwords(win) {
            prev
        } else {
            prev.push(lowercase(join_words(win)))
        }
    }
}

/// The phrase keys of one body.
pub open spec fn body_keys(s: Seq<char>, n: nat) -> Seq<Seq<char>> {
    let t = tokens(s);
    if t.len() < n {
        Seq::empty()
    } else {
        window_keys(t, n, (t.len() - n + 1) as nat)
    }
}

/// The phrase keys of all bodies, in order.
pub open spec fn ngram_keys(bodies: Seq<Seq<char>>, n: nat) -> Seq<Seq<char>>
    decreases bodies.len(),
{
    if bodies.len() == 0 {
        Seq::empty()
    } else {
        ngram_keys(bodies.drop_last(), n) + body_keys(bodies.last(), n)
    }
}

/// How many times `x` occurs in `s`.
pub open spec fn count_in(s: Seq<Seq<char>>, x: Seq<char>) -> nat
    decreases s.len(),
{
    if s.len() == 0 {
        0
    } else {
        count_in(s.drop_last(), x) + if s.last() == x {
            1nat
        } else {
            0nat
        }
    }
}

/// Counting an appended key.
pub proof fn lemma_count_in_push(s: Seq<Seq<char>>, y: Seq<char>, x: Seq<char>)
    ensures
        count_in(s.push(y), x) == count_in(s, x) + if y == x {
            1nat
        } else {
            0nat
        },
{
    assert(s.push(y).drop_last() =~= s);
}

/// A key occurs at most as often as there are keys, and at least once
/// exactly when it is among them.
pub proof fn lemma_count_in_bounds(s: Seq<Seq<char>>, x: Seq<char>)
    ensures
        count_in(s, x) <= s.len(),
        count_in(s, x) > 0 <==> s.contains(x),
    decreases s.len(),
{
    if s.len() > 0 {
        lemma_count_in_bounds(s.drop_last(), x);
        if s.drop_last().contains(x) {
            let q = choose|q: int| 0 <= q < s.len() - 1 && s.drop_last()[q] == x;
            assert(s[q] == x);
        }
        if s.contains(x) && s.last() != x {
            let q = choose|q: int| 0 <= q < s.len() && s[q] == x;
            assert(s.drop_last()[q] == x);
        }
    }
}

/// Bucket of a phrase in the counting table.
pub open spec fn key_hash(s: Seq<char>) -> nat
    decreases s.len(),
{
    if s.len() == 0 {
        0
    } else {
        ((key_hash(s.drop_last()) * 31 + (s.last() as u32) as nat) % 4096) as nat
    }
}

/// Executable bucket of a phrase.
fn hash_key(cs: &Vec<char>) -> (h: usize)
    ensures
        h as nat == key_hash(cs@),
        h < 4096,
{
    let mut h: usize = 0;
    for i in 0..cs.len()
        invariant
            h as nat == key_hash(cs@.take(i as int)),
            h < 4096,
    {
        proof {
            assert(cs@.take(i + 1).drop_last() =~= cs@.take(i as int));
            assert(cs@.take(i + 1).last() == cs@[i as int]);
        }
        let c = cs[i] as u32;
        let hh: u64 = (h as u64) * 31 + (c as u64);
        h = (hh % 4096) as usize;
    }
    proof {
        assert(cs@.take(cs@.len() as int) =~= cs@);
    }
    h
}

/// The counting table holds, in the bucket of each phrase, the phrase with
/// its number of occurrences in `ks`, once, for every phrase of `ks`.
pub open spec fn table_ok(tab: Seq<Vec<Ngram>>, ks: Seq<Seq<char>>) -> bool {
    &&& tab.len() == 4096
    &&& forall|b: int, q: int|
        0 <= b < 4096 && 0 <= q < tab[b]@.len() ==> {
            let e = #[trigger] tab[b]@[q];
            &&& key_hash(e.words@) == b
            &&& e.count == count_in(ks, e.words@)
            &&& e.count > 0
        }
    &&& forall|b: int, q1: int, q2: int|
        0 <= b < 4096 && 0 <= q1 < q2 < tab[b]@.len() ==> #[trigger] tab[b]@[q1].words@
            != #[trigger] tab[b]@[q2].words@
    &&& forall|x: Seq<char>|
        ks.contains(x) ==> exists|q: int|
            0 <= q < tab[key_hash(x) as int]@.len() && #[trigger] tab[key_hash(
                x,
            ) as int]@[q].words@ == x
}

/// Count one more occurrence of `key`.
fn add_key(tab: &mut Vec<Vec<Ngram>>, key: String, Ghost(ks): Ghost<Seq<Seq<char>>>)
    requires
        table_ok(old(tab)@, ks),
        ks.len() + 1 <= usize::MAX,
    ensures
        table_ok(final(tab)@, ks.push(key@)),
{
    let ghost t0 = tab@;
    let ghost ks2 = ks.push(key@);
    let kc = chars_of(key.as_str());
    let h = hash_key(&kc);
    let mut bucket: Vec<Ngram> = Vec::new();
    tab.set_and_swap(h, &mut bucket);
    let ghost b0 = bucket@;
    assert(b0 == t0[h as int]@);
    let mut q: usize = 0;
    while q < bucket.len() && !(bucket[q].words == key)
        invariant
            bucket@ == b0,
            q <= b0.len(),
            forall|j: int| 0 <= j < q ==> b0[j].words@ != key@,
        decreases b0.len() - q,
    {
        q = q + 1;
    }
    proof {
        assert forall|x: Seq<char>| #[trigger] count_in(ks2, x) == count_in(ks, x) + if key@ == x {
            1nat
        } else {
            0nat
        } by {
            lemma_count_in_push(ks, key@, x);
        }
        lemma_count_in_bounds(ks, key@);
    }
    if q < bucket.len() {
        let c = bucket[q].count;
        proof {
            assert(t0[h as int]@[q as int] == b0[q as int]);
        }
        bucket.set(q, Ngram { words: key, count: c + 1 });
    } else {
        proof {
            if ks.contains(key@) {
                let j = choose|j: int|
                    0 <= j < t0[h as int]@.len() && #[trigger] t0[h as int]@[j].words@ == key@;
                assert(b0[j].words@ == key@);
            }
        }
        bucket.push(Ngram { words: key, count: 1 });
    }
    tab.set(h, bucket);
    proof {
        let t = tab@;
        assert(t == t0.update(h as int, bucket));
        assert forall|b: int, j: int| 0 <= b < 4096 && 0 <= j < t[b]@.len() implies {
            let e = #[trigger] t[b]@[j];
            &&& key_hash(e.words@) == b
            &&& e.count == count_in(ks2, e.words@)
            &&& e.count > 0
        } by {
            if b != h {
                assert(t[b] == t0[b]);
                let e = t0[b]@[j];
                assert(e.words@ != key@);
            } else if j != q {
                assert(t[b]@[j] == b0[j]);
                assert(t0[b]@[j] == b0[j]);
                if j < q {
                    assert(b0[j].words@ != key@);
                } else {
                    assert(b0[j].words@ != b0[q as int].words@);
                }
            }
        }
        assert forall|b: int, j1: int, j2: int|
            0 <= b < 4096 && 0 <= j1 < j2 < t[b]@.len() implies #[trigger] t[b]@[j1].words@
            != #[trigger] t[b]@[j2].words@ by {
            if b != h {
                assert(t[b] == t0[b]);
            } else {
                if j1 != q && j2 != q {
                    assert(t0[b]@[j1].words@ != t0[b]@[j2].words@);
                } else if j1 == q {
                    if q < b0.len() {
                        assert(t0[b]@[j1].words@ != t0[b]@[j2].words@);
                    }
                } else {
                    assert(b0[j1].words@ != key@);
                }
            }
        }
        assert forall|x: Seq<char>| ks2.contains(x) implies exists|j: int|
            0 <= j < t[key_hash(x) as int]@.len() && #[trigger] t[key_hash(x) as int]@[j].words@
                == x by {
            if x == key@ {
                assert(t[h as int]@[q as int].words@ == x);
            } else {
                let i = choose|i: int| 0 <= i < ks2.len() && ks2[i] == x;
                assert(ks[i] == x);
                assert(ks.contains(x));
                let hx = key_hash(x) as int;
                let j = choose|j: int| 0 <= j < t0[hx]@.len() && #[trigger] t0[hx]@[j].words@ == x;
                if hx != h {
                    assert(t[hx] == t0[hx]);
                } else {
                    assert(j != q);
                    assert(t[hx]@[j] == b0[j]);
                }
            }
        }
    }
}

/// Table position `(b2, q2)` is visited before `(b, q)`.
pub open spec fn visited_before(b2: int, q2: int, b: int, q: int) -> bool {
    b2 < b || (b2 == b && q2 < q)
}

/// The buffer of the most frequent phrases seen so far: `buf[j]` copies the
/// table entry at `pos[j]`, the positions differ, counts are at least 2 and
/// non-increasing; a frequent visited entry left out means the buffer is
/// full and that entry is no more frequent than the last one kept.
pub open spec fn buffer_ok(
    tab: Seq<Vec<Ngram>>,
    buf: Seq<Ngram>,
    pos: Seq<(int, int)>,
    k: nat,
    b: int,
    q: int,
) -> bool {
    &&& buf.len() == pos.len()
    &&& buf.len() <= k
    &&& forall|j: int|
        0 <= j < buf.len() ==> {
            let (pb, pq) = #[trigger] pos[j];
            &&& 0 <= pb < tab.len()
            &&& 0 <= pq < tab[pb]@.len()
            &&& visited_before(pb, pq, b, q)
            &&& buf[j].words@ == tab[pb]@[pq].words@
            &&& buf[j].count == tab[pb]@[pq].count
            &&& buf[j].count >= 2
        }
    &&& forall|j1: int, j2: int| 0 <= j1 < j2 < pos.len() ==> pos[j1] != pos[j2]
    &&& forall|j1: int, j2: int| 0 <= j1 < j2 < buf.len() ==> buf[j1].count >= buf[j2].count
    &&& forall|b2: int, q2: int|
        0 <= b2 < tab.len() && 0 <= q2 < tab[b2]@.len() && visited_before(b2, q2, b, q)
            && #[trigger] tab[b2]@[q2].count >= 2 && !pos.contains((b2, q2)) ==> buf.len() == k && (
        k == 0 || tab[b2]@[q2].count <= buf.last().count)
}

/// The entries of the table with count at least 2, at most `k` of them: the
/// most frequent ones, by non-increasing count.
fn top_frequent(tab: &Vec<Vec<Ngram>>, k: usize) -> (res: (Vec<Ngram>, Ghost<Seq<(int, int)>>))
    ensures
        buffer_ok(tab@, res.0@, res.1@, k as nat, tab@.len() as int, 0),
{
    let mut buf: Vec<Ngram> = Vec::new();
    let ghost mut pos: Seq<(int, int)> = Seq::empty();
    for b in 0..tab.len()
        invariant
            buffer_ok(tab@, buf@, pos, k as nat, b as int, 0),
    {
        proof {
            assert forall|b2: int, q2: int|
                0 <= b2 < tab@.len() && 0 <= q2 < tab@[b2]@.len() && visited_before(b2, q2, b as int, 0)
                    implies #[trigger] visited_before(b2, q2, b as int, q2 + 1) || true by {}
        }
        let bucket = &tab[b];
        for q in 0..bucket.len()
            invariant
                bucket@ == tab@[b as int]@,
                0 <= b < tab@.len(),
                buffer_ok(tab@, buf@, pos, k as nat, b as int, q as int),
        {
            let ghost b0 = buf@;
            let ghost p0 = pos;
            let cnt = bucket[q].count;
            if cnt >= 2 && (buf.len() < k || (k > 0 && cnt > buf[buf.len() - 1].count)) {
                let mut idx: usize = 0;
                while idx < buf.len() && buf[idx].count >= cnt
                    invariant
                        idx <= buf@.len(),
                        forall|j: int| 0 <= j < idx ==> buf@[j].count >= cnt,
                    decreases buf@.len() - idx,
                {
                    idx = idx + 1;
                }
                let entry = Ngram { words: bucket[q].words.clone(), count: cnt };
                buf.insert(idx, entry);
                proof {
                    pos = pos.insert(idx as int, (b as int, q as int));
                }
                let ghost b1 = buf@;
                let ghost p1 = pos;
                if buf.len() > k {
                    buf.pop();
                    proof {
                        pos = pos.drop_last();
                    }
                }
                proof {
                    lemma_buffer_insert(tab@, b0, p0, b1, p1, buf@, pos, k as nat, b as int, q as int, idx as int);
                }
            } else {
                proof {
                    assert forall|b2: int, q2: int|
                        0 <= b2 < tab@.len() && 0 <= q2 < tab@[b2]@.len() && visited_before(
                            b2,
                            q2,
                            b as int,
                            q + 1,
                        ) && #[trigger] tab@[b2]@[q2].count >= 2 && !pos.contains((b2, q2)) implies buf@.len()
                        == k && (k == 0 || tab@[b2]@[q2].count <= buf@.last().count) by {
                        if !visited_before(b2, q2, b as int, q as int) {
                            assert(b2 == b && q2 == q);
                        }
                    }
                    assert forall|j: int| 0 <= j < buf@.len() implies #[trigger] visited_before(
                        pos[j].0,
                        pos[j].1,
                        b as int,
                        q + 1,
                    ) by {
                        assert(visited_before(pos[j].0, pos[j].1, b as int, q as int));
                    }
                }
            }
        }
        proof {
            assert forall|b2: int, q2: int|
                0 <= b2 < tab@.len() && 0 <= q2 < tab@[b2]@.len() && visited_before(b2, q2, b + 1, 0)
                    && #[trigger] tab@[b2]@[q2].count >= 2 && !pos.contains((b2, q2)) implies buf@.len()
                == k && (k == 0 || tab@[b2]@[q2].count <= buf@.last().count) by {
                assert(visited_before(b2, q2, b as int, tab@[b as int]@.len() as int));
            }
            assert forall|j: int| 0 <= j < buf@.len() implies #[trigger] visited_before(
                pos[j].0,
                pos[j].1,
                b + 1,
                0,
            ) by {
                assert(visited_before(pos[j].0, pos[j].1, b as int, tab@[b as int]@.len() as int));
            }
        }
    }
    (buf, Ghost(pos))
}

/// Inserting the entry at `(b, q)` into the buffer at `idx`, and dropping the
/// last one when the buffer overflows, keeps the buffer consistent.
proof fn lemma_buffer_insert(
    tab: Seq<Vec<Ngram>>,
    b0: Seq<Ngram>,
    p0: Seq<(int, int)>,
    b1: Seq<Ngram>,
    p1: Seq<(int, int)>,
    b2: Seq<Ngram>,
    p2: Seq<(int, int)>,
    k: nat,
    b: int,
    q: int,
    idx: int,
)
    requires
        buffer_ok(tab, b0, p0, k, b, q),
        0 <= b < tab.len(),
        0 <= q < tab[b]@.len(),
        tab[b]@[q].count >= 2,
        b0.len() < k || (k > 0 && tab[b]@[q].count > b0.last().count),
        0 <= idx <= b0.len(),
        forall|j: int| 0 <= j < idx ==> b0[j].count >= tab[b]@[q].count,
        idx < b0.len() ==> b0[idx].count < tab[b]@[q].count,
        b1.len() == b0.len() + 1,
        b1[idx].words@ == tab[b]@[q].words@,
        b1[idx].count == tab[b]@[q].count,
        forall|j: int| 0 <= j < idx ==> b1[j] == b0[j],
        forall|j: int| idx < j < b1.len() ==> b1[j] == b0[j - 1],
        p1 == p0.insert(idx, (b, q)),
        b1.len() > k ==> b2 == b1.drop_last() && p2 == p1.drop_last(),
        b1.len() <= k ==> b2 == b1 && p2 == p1,
    ensures
        buffer_ok(tab, b2, p2, k, b, q + 1),
{
    let cx = tab[b]@[q].count;
    assert forall|j: int| 0 <= j < b1.len() implies {
        let (pb, pq) = #[trigger] p1[j];
        &&& 0 <= pb < tab.len()
        &&& 0 <= pq < tab[pb]@.len()
        &&& visited_before(pb, pq, b, q + 1)
        &&& b1[j].words@ == tab[pb]@[pq].words@
        &&& b1[j].count == tab[pb]@[pq].count
        &&& b1[j].count >= 2
    } by {
        if j < idx {
            assert(p1[j] == p0[j]);
        } else if j > idx {
            assert(p1[j] == p0[j - 1]);
        }
    }
    assert forall|j1: int, j2: int| 0 <= j1 < j2 < p1.len() implies p1[j1] != p1[j2] by {
        if j1 != idx && j2 != idx {
            let a1 = if j1 < idx { j1 } else { j1 - 1 };
            let a2 = if j2 < idx { j2 } else { j2 - 1 };
            assert(p1[j1] == p0[a1] && p1[j2] == p0[a2]);
        } else if j1 == idx {
            let a2 = if j2 < idx { j2 } else { j2 - 1 };
            assert(p1[j2] == p0[a2]);
            assert(visited_before(p0[a2].0, p0[a2].1, b, q));
        } else {
            let a1 = if j1 < idx { j1 } else { j1 - 1 };
            assert(p1[j1] == p0[a1]);
            assert(visited_before(p0[a1].0, p0[a1].1, b, q));
        }
    }
    assert forall|j1: int, j2: int| 0 <= j1 < j2 < b1.len() implies b1[j1].count
        >= b1[j2].count by {
        if j1 < idx && j2 < idx {
        } else if j1 < idx && j2 == idx {
        } else if j1 < idx {
            assert(b0[j1].count >= b0[j2 - 1].count);
        } else if j1 == idx {
            assert(b0[idx].count < cx);
            assert(b0[idx].count >= b0[j2 - 1].count || j2 - 1 == idx);
        } else {
            assert(b0[j1 - 1].count >= b0[j2 - 1].count);
        }
    }
    // the new last count never falls below the old one when the buffer was full
    if b0.len() == k && k > 0 {
        assert(idx < b0.len());
        assert(b2.len() == k);
        if k >= 2 {
            assert(b2.last() == b1[k - 1]);
            if idx == k - 1 {
                assert(b2.last().count == cx);
            } else {
                assert(b1[k - 1] == b0[k - 2]);
                assert(b0[k - 2].count >= b0[k - 1].count);
            }
        } else {
            assert(b2.last() == b1[0]);
        }
        assert(b2.last().count >= b0.last().count);
    }
    assert forall|bb: int, qq: int|
        0 <= bb < tab.len() && 0 <= qq < tab[bb]@.len() && visited_before(bb, qq, b, q + 1)
            && #[trigger] tab[bb]@[qq].count >= 2 && !p2.contains((bb, qq)) implies b2.len() == k
        && (k == 0 || tab[bb]@[qq].count <= b2.last().count) by {
        if bb == b && qq == q {
            if p1.len() <= k {
                assert(p2[idx] == (b, q));
            } else {
                // the new entry was dropped only if it was last, which its count forbids
                assert(idx < b0.len());
                assert(p2[idx] == (b, q));
            }
        } else {
            assert(visited_before(bb, qq, b, q));
            if p0.contains((bb, qq)) {
                let j = choose|j: int| 0 <= j < p0.len() && p0[j] == (bb, qq);
                let j1 = if j < idx { j } else { j + 1 };
                assert(p1[j1] == (bb, qq));
                if j1 < p2.len() {
                    assert(p2[j1] == (bb, qq));
                } else {
                    // it was the dropped last entry
                    assert(b1.len() > k);
                    assert(j1 == b1.len() - 1);
                    assert(b1[j1] == b0[j]);
                    assert(b0.len() == k);
                    assert(j == k - 1);
                }
            } else {
                assert(b0.len() == k);
            }
        }
    }
}

/// `r` holds at most `top_k` distinct phrases of `texts` seen at least twice,
/// each with its count, by non-increasing count; a phrase seen at least twice
/// that is left out means `r` is full and the phrase is no more frequent than
/// the last one kept.
pub open spec fn ngrams_of(texts: Seq<Seq<char>>, n: nat, top_k: nat, r: Seq<Ngram>) -> bool {
    ranked(ngram_keys(texts, n), top_k, r)
}

/// `r` holds at most `top_k` distinct keys seen at least twice among `keys`,
/// each with its count, by non-increasing count; a key seen at least twice
/// that is left out means `r` is full and the key is no more frequent than
/// the last one kept.
pub open spec fn ranked(keys: Seq<Seq<char>>, top_k: nat, r: Seq<Ngram>) -> bool {
    &&& r.len() <= top_k
    &&& forall|j: int|
        0 <= j < r.len() ==> (#[trigger] r[j]).count == count_in(keys, r[j].words@) && r[j].count
            >= 2
    &&& forall|j1: int, j2: int| 0 <= j1 < j2 < r.len() ==> r[j1].words@ != r[j2].words@
    &&& forall|j1: int, j2: int| 0 <= j1 < j2 < r.len() ==> r[j1].count >= r[j2].count
    &&& forall|x: Seq<char>|
        #[trigger] count_in(keys, x) >= 2 && !(exists|j: int| 0 <= j < r.len() && r[j].words@ == x)
            ==> r.len() == top_k && (top_k == 0 || count_in(keys, x) <= r[top_k - 1].count)
}

/// The views of a sequence of strings.
pub open spec fn string_views(v: Seq<String>) -> Seq<Seq<char>> {
    v.map_values(|x: String| x@)
}

/// The phrase keys of the bodies, in order: each window of `n` tokens of
/// a body, joined by single spaces and lowercased; for `n` of at most 2,
/// windows made only of stopwords are skipped.
fn phrase_keys(bodies: &[&str], n: usize) -> (r: Vec<String>)
    requires
        n >= 1 || str_views(bodies@).len() == 0,
    ensures
        string_views(r@) == ngram_keys(str_views(bodies@), n as nat),
{
    let mut keys: Vec<String> = Vec::new();
    for i in 0..bodies.len()
        invariant
            n >= 1 || str_views(bodies@).len() == 0,
            string_views(keys@) == ngram_keys(str_views(bodies@).take(i as int), n as nat),
    {
        let toks = tokens_of(bodies[i]);
        let ghost t = str_views(toks@);
        let ghost base = string_views(keys@);
        proof {
            assert(str_views(bodies@).take(i + 1).drop_last() =~= str_views(bodies@).take(i as int));
            assert(str_views(bodies@).take(i + 1).last() == str_views(bodies@)[i as int]);
            assert(base + Seq::<Seq<char>>::empty() =~= base);
        }
        if toks.len() >= n {
            let m = toks.len() - n + 1;
            for w in 0..m
                invariant
                    n >= 1,
                    m == t.len() - n + 1,
                    m == toks@.len() - n + 1,
                    toks@.len() <= usize::MAX,
                    t == str_views(toks@),
                    t == tokens(str_views(bodies@)[i as int]),
                    string_views(keys@) == base + window_keys(t, n as nat, w as nat),
            {
                let win = &toks[w..w + n];
                let ghost wv = t.subrange(w as int, w + n);
                proof {
                    assert(str_views(win@) =~= wv);
                }
                let ghost before = string_views(keys@);
                let skip = n <= 2 && is_all_stopwords(win);
                if !skip {
                    let joined = join_with_spaces(win);
                    let key = to_lowercase(joined.as_str());
                    keys.push(key);
                    assert(string_views(keys@) =~= before.push(lowercase(join_words(wv))));
                }
                proof {
                    assert(window_keys(t, n as nat, (w + 1) as nat) == if skip {
                        window_keys(t, n as nat, w as nat)
                    } else {
                        window_keys(t, n as nat, w as nat).push(lowercase(join_words(wv)))
                    });
                    if !skip {
                        assert(base + window_keys(t, n as nat, w as nat).push(lowercase(
                            join_words(wv),
                        )) =~= (base + window_keys(t, n as nat, w as nat)).push(lowercase(
                            join_words(wv),
                        )));
                    }
                }
            }
        }
    }
    proof {
        assert(str_views(bodies@).take(str_views(bodies@).len() as int) =~= str_views(bodies@));
    }
    keys
}

/// Count the given keys and keep the `top_k` most frequent of those seen at
/// least twice, by non-increasing count.
pub fn rank_keys(keys: &[String], top_k: usize) -> (r: Vec<Ngram>)
    ensures
        ranked(string_views(keys@), top_k as nat, r@),
{
    let mut tab: Vec<Vec<Ngram>> = Vec::new();
    for b in 0..4096usize
        invariant
            tab@.len() == b,
            forall|j: int| 0 <= j < b ==> (#[trigger] tab@[j])@.len() == 0,
    {
        tab.push(Vec::new());
    }
    let ghost all = string_views(keys@);
    for i in 0..keys.len()
        invariant
            all == string_views(keys@),
            keys@.len() <= usize::MAX,
            table_ok(tab@, all.take(i as int)),
    {
        proof {
            assert(all.take(i + 1) =~= all.take(i as int).push(keys@[i as int]@));
        }
        add_key(&mut tab, keys[i].clone(), Ghost(all.take(i as int)));
    }
    proof {
        assert(all.take(all.len() as int) =~= all);
    }
    let ghost ks = all;
    let (r, Ghost(pos)) = top_frequent(&tab, top_k);
    proof {
        let t = tab@;
        assert forall|j: int| 0 <= j < r@.len() implies (#[trigger] r@[j]).count == count_in(
            ks,
            r@[j].words@,
        ) && r@[j].count >= 2 by {
            let (pb, pq) = pos[j];
            assert(t[pb]@[pq].count == count_in(ks, t[pb]@[pq].words@));
        }
        assert forall|j1: int, j2: int| 0 <= j1 < j2 < r@.len() implies r@[j1].words@
            != r@[j2].words@ by {
            let (b1, q1) = pos[j1];
            let (b2, q2) = pos[j2];
            assert(key_hash(t[b1]@[q1].words@) == b1);
            assert(key_hash(t[b2]@[q2].words@) == b2);
            if b1 == b2 {
                if q1 < q2 {
                    assert(t[b1]@[q1].words@ != t[b1]@[q2].words@);
                } else {
                    assert(t[b1]@[q2].words@ != t[b1]@[q1].words@);
                }
            }
        }
        assert forall|x: Seq<char>|
            #[trigger] count_in(ks, x) >= 2 && !(exists|j: int|
                0 <= j < r@.len() && r@[j].words@ == x) implies r@.len() == top_k && (top_k == 0
            || count_in(ks, x) <= r@[top_k - 1].count) by {
            lemma_count_in_bounds(ks, x);
            let hx = key_hash(x) as int;
            let q = choose|q: int| 0 <= q < t[hx]@.len() && #[trigger] t[hx]@[q].words@ == x;
            assert(t[hx]@[q].count == count_in(ks, x));
            if pos.contains((hx, q)) {
                let j = choose|j: int| 0 <= j < pos.len() && pos[j] == (hx, q);
                assert(r@[j].words@ == x);
            }
            assert(visited_before(hx, q, t.len() as int, 0));
        }
    }
    r
}

/// The `top_k` most frequent `n`-word phrases (lowercased and joined by single
/// spaces) over the bodies, counting only phrases seen at least twice, by
/// non-increasing count. For `n` of at most 2, windows made only of
/// stopwords are skipped.
pub fn common_ngrams(bodies: &[&str], n: usize, top_k: usize) -> (r: Vec<Ngram>)
    requires
        n >= 1 || str_views(bodies@).len() == 0,
    ensures
        ngrams_of(str_views(bodies@), n as nat, top_k as nat, r@),
{
    let keys = phrase_keys(bodies, n);
    rank_keys(&keys, top_k)
}

/// For phrases of three words or more, no window is skipped: the keys of
/// the first `m` windows are those windows, each joined by spaces and
/// lowercased, in order, stopwords or not.
pub proof fn lemma_long_phrase_windows(t: Seq<Seq<char>>, n: nat, m: nat)
    requires
        n >= 3,
    ensures
        window_keys(t, n, m).len() == m,
        forall|j: int|
            0 <= j < m ==> #[trigger] window_keys(t, n, m)[j] == lowercase(
                join_words(t.subrange(j, j + n)),
            ),
    decreases m,
{
    if m > 0 {
        lemma_long_phrase_windows(t, n, (m - 1) as nat);
        let prev = window_keys(t, n, (m - 1) as nat);
        assert forall|j: int| 0 <= j < m implies #[trigger] window_keys(t, n, m)[j] == lowercase(
            join_words(t.subrange(j, j + n)),
        ) by {
            if j < m - 1 {
                assert(window_keys(t, n, m)[j] == prev[j]);
            }
        }
    }
}

/// For phrases of three words or more, a body with at least `n` tokens has
/// one key per window of its tokens.
pub proof fn lemma_long_phrase_keys(s: Seq<char>, n: nat)
    requires
        n >= 3,
        tokens(s).len() >= n,
    ensures
        body_keys(s, n).len() == tokens(s).len() - n + 1,
        forall|j: int|
            0 <= j < tokens(s).len() - n + 1 ==> #[trigger] body_keys(s, n)[j] == lowercase(
                join_words(tokens(s).subrange(j, j + n)),
            ),
{
    lemma_long_phrase_windows(tokens(s), n, (tokens(s).len() - n + 1) as nat);
}

} // verus!
