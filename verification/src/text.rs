//! Character-level text primitives: whitespace, words, trimming.

use vstd::prelude::*;

verus! {

/// The Unicode `White_Space` property, which `char::is_whitespace`,
/// `str::trim` and `str::split_whitespace` use.
pub open spec fn is_space(c: char) -> bool {
    let u = c as u32;
    ||| (0x9 <= u && u <= 0xd)
    ||| u == 0x20
    ||| u == 0x85
    ||| u == 0xa0
    ||| u == 0x1680
    ||| (0x2000 <= u && u <= 0x200a)
    ||| u == 0x2028
    ||| u == 0x2029
    ||| u == 0x202f
    ||| u == 0x205f
    ||| u == 0x3000
}

/// Executable whitespace test.
pub fn is_space_char(c: char) -> (r: bool)
    ensures
        r == is_space(c),
{
    let u = c as u32;
    (0x9 <= u && u <= 0xd) || u == 0x20 || u == 0x85 || u == 0xa0 || u == 0x1680 || (0x2000 <= u
        && u <= 0x200a) || u == 0x2028 || u == 0x2029 || u == 0x202f || u == 0x205f || u == 0x3000
}

/// The characters of a string slice, in order.
pub fn chars_of(s: &str) -> (v: Vec<char>)
    ensures
        v@ == s@,
{
    let mut v: Vec<char> = Vec::new();
    for c in it: s.chars()
        invariant
            v@ == it.seq().take(it.index() as int),
    {
        v.push(c);
    }
    v
}


/// The words of `s`: its maximal runs of non-whitespace characters, in order.
pub open spec fn words(s: Seq<char>) -> Seq<Seq<char>>
    decreases s.len(),
{
    if s.len() == 0 {
        Seq::empty()
    } else {
        let prev = words(s.drop_last());
        let c = s.last();
        if is_space(c) {
            prev
        } else if s.len() == 1 || is_space(s[s.len() - 2]) {
            prev.push(seq![c])
        } else {
            prev.update(prev.len() - 1, prev.last().push(c))
        }
    }
}

/// A sequence that ends in a non-whitespace character has at least one word.
pub proof fn lemma_words_nonempty(s: Seq<char>)
    requires
        s.len() > 0,
        !is_space(s.last()),
    ensures
        words(s).len() > 0,
    decreases s.len(),
{
    if s.len() > 1 && !is_space(s[s.len() - 2]) {
        lemma_words_nonempty(s.drop_last());
    }
}

/// Two texts that meet at whitespace have, together, the words of each.
pub proof fn lemma_words_len_concat(a: Seq<char>, b: Seq<char>)
    requires
        a.len() == 0 || b.len() == 0 || is_space(a.last()) || is_space(b[0]),
    ensures
        words(a + b).len() == words(a).len() + words(b).len(),
    decreases b.len(),
{
    if b.len() == 0 {
        assert(a + b =~= a);
    } else {
        let ab = a + b;
        assert(ab.drop_last() =~= a + b.drop_last());
        assert(ab.last() == b.last());
        if b.len() > 1 {
            assert(b.drop_last()[0] == b[0]);
            assert(ab[ab.len() - 2] == b[b.len() - 2]);
        } else if a.len() > 0 {
            assert(ab[ab.len() - 2] == a.last());
        }
        lemma_words_len_concat(a, b.drop_last());
        if ab.len() > 1 && !is_space(ab[ab.len() - 2]) {
            lemma_words_nonempty(ab.drop_last());
        }
        if b.len() > 1 && !is_space(b[b.len() - 2]) {
            lemma_words_nonempty(b.drop_last());
        }
    }
}

/// Whitespace at either end of a text holds no word.
pub proof fn lemma_words_len_trim(t: Seq<char>)
    ensures
        words(trim(t)).len() == words(t).len(),
{
    lemma_words_len_strip_start(t);
    lemma_words_len_strip_end(strip_start(t, false));
}

proof fn lemma_words_len_strip_start(t: Seq<char>)
    ensures
        words(strip_start(t, false)).len() == words(t).len(),
    decreases t.len(),
{
    if t.len() > 0 && is_space(t[0]) {
        lemma_words_len_strip_start(t.drop_first());
        let head = seq![t[0]];
        assert(head + t.drop_first() =~= t);
        assert(head.drop_last() =~= Seq::<char>::empty());
        assert(words(Seq::<char>::empty()).len() == 0);
        assert(words(head) == words(head.drop_last()));
        lemma_words_len_concat(head, t.drop_first());
    }
}

proof fn lemma_words_len_strip_end(t: Seq<char>)
    ensures
        words(strip_end(t, false)).len() == words(t).len(),
    decreases t.len(),
{
    if t.len() > 0 && is_space(t.last()) {
        lemma_words_len_strip_end(t.drop_last());
    }
}

/// Number of whitespace-separated words in `text`.
pub fn word_count(text: &str) -> (n: usize)
    ensures
        n == words(text@).len(),
{
    let cs = chars_of(text);
    count_words(&cs)
}

/// Number of words in a character sequence.
pub fn count_words(cs: &Vec<char>) -> (n: usize)
    ensures
        n == words(cs@).len(),
{
    let mut n: usize = 0;
    let mut i: usize = 0;
    while i < cs.len()
        invariant
            i <= cs.len(),
            n <= i,
            n == words(cs@.take(i as int)).len(),
        decreases cs.len() - i,
    {
        let c = cs[i];
        let starts = !is_space_char(c) && (i == 0 || is_space_char(cs[i - 1]));
        proof {
            let t = cs@.take(i + 1);
            assert(t.drop_last() =~= cs@.take(i as int));
            if !is_space(c) && !starts {
                assert(t.drop_last().last() == cs@[i - 1]);
                lemma_words_nonempty(t.drop_last());
            }
        }
        if starts {
            n = n + 1;
        }
        i = i + 1;
    }
    proof {
        assert(cs@.take(cs@.len() as int) =~= cs@);
    }
    n
}


/// `char::is_ascii_punctuation`: the 32 ASCII punctuation characters.
pub open spec fn is_ascii_punct(c: char) -> bool {
    let u = c as u32;
    ||| (0x21 <= u && u <= 0x2f)
    ||| (0x3a <= u && u <= 0x40)
    ||| (0x5b <= u && u <= 0x60)
    ||| (0x7b <= u && u <= 0x7e)
}

/// Executable ASCII punctuation test.
pub fn is_ascii_punct_char(c: char) -> (r: bool)
    ensures
        r == is_ascii_punct(c),
{
    let u = c as u32;
    (0x21 <= u && u <= 0x2f) || (0x3a <= u && u <= 0x40) || (0x5b <= u && u <= 0x60) || (0x7b
        <= u && u <= 0x7e)
}

/// The character class that a strip removes: ASCII punctuation when `punct`,
/// whitespace otherwise.
pub open spec fn stripped(c: char, punct: bool) -> bool {
    if punct {
        is_ascii_punct(c)
    } else {
        is_space(c)
    }
}

/// `t` without its leading characters of the class.
pub open spec fn strip_start(t: Seq<char>, punct: bool) -> Seq<char>
    decreases t.len(),
{
    if t.len() > 0 && stripped(t[0], punct) {
        strip_start(t.drop_first(), punct)
    } else {
        t
    }
}

/// `t` without its trailing characters of the class.
pub open spec fn strip_end(t: Seq<char>, punct: bool) -> Seq<char>
    decreases t.len(),
{
    if t.len() > 0 && stripped(t.last(), punct) {
        strip_end(t.drop_last(), punct)
    } else {
        t
    }
}

/// `str::trim`: leading and trailing whitespace removed.
pub open spec fn trim(t: Seq<char>) -> Seq<char> {
    strip_end(strip_start(t, false), false)
}

/// `trim_matches(|c| c.is_ascii_punctuation())`: leading and trailing
/// ASCII punctuation removed.
pub open spec fn trim_punct(t: Seq<char>) -> Seq<char> {
    strip_end(strip_start(t, true), true)
}

/// Stripping never lengthens a text.
pub proof fn lemma_strip_len(t: Seq<char>, punct: bool)
    ensures
        strip_start(t, punct).len() <= t.len(),
        strip_end(t, punct).len() <= t.len(),
    decreases t.len(),
{
    if t.len() > 0 {
        lemma_strip_len(t.drop_first(), punct);
        lemma_strip_len(t.drop_last(), punct);
    }
}

/// Trimming never lengthens a text.
pub proof fn lemma_trim_len(t: Seq<char>)
    ensures
        trim(t).len() <= t.len(),
{
    lemma_strip_len(t, false);
    lemma_strip_len(strip_start(t, false), false);
}

/// What stripping leaves does not start with a character of the class.
pub proof fn lemma_strip_start_first(t: Seq<char>, punct: bool)
    ensures
        strip_start(t, punct).len() > 0 ==> !stripped(strip_start(t, punct)[0], punct),
        strip_start(t, punct) == t.skip(t.len() - strip_start(t, punct).len()),
    decreases t.len(),
{
    if t.len() > 0 && stripped(t[0], punct) {
        lemma_strip_start_first(t.drop_first(), punct);
        lemma_strip_len(t.drop_first(), punct);
        let r = strip_start(t.drop_first(), punct);
        assert(t.drop_first().skip(t.drop_first().len() - r.len()) =~= t.skip(t.len() - r.len()));
    } else {
        assert(t.skip(0) =~= t);
    }
}

/// What stripping leaves is a prefix that does not end with a character
/// of the class.
pub proof fn lemma_strip_end_last(t: Seq<char>, punct: bool)
    ensures
        strip_end(t, punct).len() > 0 ==> !stripped(strip_end(t, punct).last(), punct),
        strip_end(t, punct) == t.take(strip_end(t, punct).len() as int),
    decreases t.len(),
{
    if t.len() > 0 && stripped(t.last(), punct) {
        lemma_strip_end_last(t.drop_last(), punct);
        lemma_strip_len(t.drop_last(), punct);
        let r = strip_end(t.drop_last(), punct);
        assert(t.drop_last().take(r.len() as int) =~= t.take(r.len() as int));
    } else {
        assert(t.take(t.len() as int) =~= t);
    }
}

/// A trimmed text neither starts nor ends with whitespace.
pub proof fn lemma_trim_ends(t: Seq<char>)
    ensures
        trim(t).len() > 0 ==> !is_space(trim(t)[0]) && !is_space(trim(t).last()),
{
    lemma_strip_start_first(t, false);
    let u = strip_start(t, false);
    lemma_strip_end_last(u, false);
    let r = strip_end(u, false);
    lemma_strip_len(u, false);
    if r.len() > 0 {
        assert(r == u.take(r.len() as int));
        assert(r[0] == u[0]);
    }
}

/// Executable test for the class that a strip removes.
pub fn is_stripped_char(c: char, punct: bool) -> (r: bool)
    ensures
        r == stripped(c, punct),
{
    if punct {
        is_ascii_punct_char(c)
    } else {
        is_space_char(c)
    }
}

/// Bounds of `cs[lo..hi]` with the characters of the class stripped from both ends.
pub fn strip_bounds(cs: &Vec<char>, lo: usize, hi: usize, punct: bool) -> (r: (usize, usize))
    requires
        lo <= hi <= cs.len(),
    ensures
        lo <= r.0 <= r.1 <= hi,
        cs@.subrange(r.0 as int, r.1 as int) == strip_end(
            strip_start(cs@.subrange(lo as int, hi as int), punct),
            punct,
        ),
{
    let mut a = lo;
    while a < hi && is_stripped_char(cs[a], punct)
        invariant
            lo <= a <= hi <= cs.len(),
            strip_start(cs@.subrange(lo as int, hi as int), punct) == strip_start(
                cs@.subrange(a as int, hi as int),
                punct,
            ),
        decreases hi - a,
    {
        proof {
            assert(cs@.subrange(a as int, hi as int).drop_first() =~= cs@.subrange(
                a + 1,
                hi as int,
            ));
        }
        a = a + 1;
    }
    assert(strip_start(cs@.subrange(lo as int, hi as int), punct) == cs@.subrange(
        a as int,
        hi as int,
    ));
    let mut b = hi;
    while b > a && is_stripped_char(cs[b - 1], punct)
        invariant
            lo <= a <= b <= hi <= cs.len(),
            strip_end(strip_start(cs@.subrange(lo as int, hi as int), punct), punct) == strip_end(
                cs@.subrange(a as int, b as int),
                punct,
            ),
        decreases b - a,
    {
        proof {
            assert(cs@.subrange(a as int, b as int).drop_last() =~= cs@.subrange(
                a as int,
                b - 1,
            ));
        }
        b = b - 1;
    }
    proof {
        if a == b {
            assert(cs@.subrange(a as int, b as int).len() == 0);
        }
    }
    (a, b)
}


/// `needle` occurs in `hay` at position `i`.
pub open spec fn occurs_at(hay: Seq<char>, needle: Seq<char>, i: int) -> bool {
    0 <= i && i + needle.len() <= hay.len() && hay.subrange(i, i + needle.len()) == needle
}

/// `needle` occurs somewhere in `hay` (`str::contains` with a string pattern).
pub open spec fn contains_seq(hay: Seq<char>, needle: Seq<char>) -> bool {
    exists|i: int| occurs_at(hay, needle, i)
}

/// Text found in a piece is found in anything the piece is part of.
pub proof fn lemma_contains_within(a: Seq<char>, x: Seq<char>, c: Seq<char>, needle: Seq<char>)
    requires
        contains_seq(x, needle),
    ensures
        contains_seq(a + x + c, needle),
{
    let i = choose|i: int| occurs_at(x, needle, i);
    assert((a + x + c).subrange(a.len() + i, a.len() + i + needle.len()) =~= x.subrange(
        i,
        i + needle.len(),
    ));
    assert(occurs_at(a + x + c, needle, a.len() + i));
}

/// Every text contains itself.
pub proof fn lemma_contains_self(x: Seq<char>)
    ensures
        contains_seq(x, x),
{
    assert(x.subrange(0, x.len() as int) =~= x);
    assert(occurs_at(x, x, 0));
}

/// Text that holds `needle` holds every character of `needle`.
pub proof fn lemma_contains_char(hay: Seq<char>, needle: Seq<char>, k: int)
    requires
        contains_seq(hay, needle),
        0 <= k < needle.len(),
    ensures
        hay.contains(needle[k]),
{
    let i = choose|i: int| occurs_at(hay, needle, i);
    assert(hay.subrange(i, i + needle.len())[k] == hay[i + k]);
}

/// A character in neither of two texts is not in their concatenation.
pub proof fn lemma_char_not_in_concat(a: Seq<char>, b: Seq<char>, ch: char)
    requires
        !a.contains(ch),
        !b.contains(ch),
    ensures
        !(a + b).contains(ch),
{
    if (a + b).contains(ch) {
        let k = choose|k: int| 0 <= k < (a + b).len() && (a + b)[k] == ch;
        if k < a.len() {
            assert(a[k] == ch);
        } else {
            assert(b[k - a.len()] == ch);
        }
    }
}

/// Executable substring search.
pub fn contains_chars(hay: &Vec<char>, needle: &Vec<char>) -> (r: bool)
    ensures
        r == contains_seq(hay@, needle@),
{
    let h = hay.len();
    let m = needle.len();
    if m > h {
        assert forall|i: int| !occurs_at(hay@, needle@, i) by {}
        return false;
    }
    let mut i: usize = 0;
    while i <= h - m
        invariant
            m == needle@.len(),
            h == hay@.len(),
            m <= h,
            i <= h - m + 1,
            forall|k: int| 0 <= k < i ==> !occurs_at(hay@, needle@, k),
        decreases h - i,
    {
        let mut j: usize = 0;
        let mut same = true;
        while j < m
            invariant
                m == needle@.len(),
                h == hay@.len(),
                i + m <= h,
                j <= m,
                same <==> (forall|q: int| 0 <= q < j ==> hay@[i + q] == needle@[q]),
            decreases m - j,
        {
            if hay[i + j] != needle[j] {
                same = false;
            }
            j = j + 1;
        }
        if same {
            assert(hay@.subrange(i as int, i + m) =~= needle@);
            assert(occurs_at(hay@, needle@, i as int));
            return true;
        }
        proof {
            if occurs_at(hay@, needle@, i as int) {
                let q = choose|q: int| 0 <= q < m && hay@[i + q] != needle@[q];
                assert(hay@.subrange(i as int, i + m)[q] == hay@[i + q]);
            }
        }
        i = i + 1;
    }
    false
}

/// What `str::to_lowercase` returns for a text: each character replaced by
/// its Unicode lowercase mapping (with the rule for a final sigma). It
/// depends on the text alone.
pub uninterp spec fn lowercase(s: Seq<char>) -> Seq<char>;

/// Calls `str::to_lowercase`. Trusted, not proved: the result is
/// `lowercase` of the argument, so the same text always lowercases the same
/// way; nothing more is claimed of the mapping.
#[verifier::external_body]
pub(crate) fn to_lowercase(s: &str) -> (r: String)
    ensures
        r@ == lowercase(s@),
{
    s.to_lowercase()
}

/// `char::is_ascii_lowercase`.
pub open spec fn is_ascii_lower(c: char) -> bool {
    'a' <= c && c <= 'z'
}


/// A sequence has no more words than characters.
pub proof fn lemma_words_len(s: Seq<char>)
    ensures
        words(s).len() <= s.len(),
    decreases s.len(),
{
    if s.len() > 0 {
        lemma_words_len(s.drop_last());
        if s.len() > 1 && !is_space(s[s.len() - 2]) {
            lemma_words_nonempty(s.drop_last());
        }
    }
}

/// Positions of the words of `cs`: word `k` is `cs[spans[k].0..spans[k].1]`.
pub fn word_spans(cs: &Vec<char>) -> (spans: Vec<(usize, usize)>)
    ensures
        spans@.len() == words(cs@).len(),
        forall|k: int|
            0 <= k < spans@.len() ==> {
                let (a, b) = #[trigger] spans@[k];
                &&& a < b <= cs@.len()
                &&& cs@.subrange(a as int, b as int) == words(cs@)[k]
            },
{
    let mut spans: Vec<(usize, usize)> = Vec::new();
    let mut i: usize = 0;
    while i < cs.len()
        invariant
            i <= cs@.len(),
            spans@.len() == words(cs@.take(i as int)).len(),
            forall|k: int|
                0 <= k < spans@.len() ==> {
                    let (a, b) = #[trigger] spans@[k];
                    &&& a < b <= i
                    &&& cs@.subrange(a as int, b as int) == words(cs@.take(i as int))[k]
                },
            i > 0 && !is_space(cs@[i - 1]) ==> spans@.len() > 0 && spans@.last().1 == i,
        decreases cs@.len() - i,
    {
        let c = cs[i];
        let ghost t = cs@.take(i + 1);
        let ghost w0 = words(cs@.take(i as int));
        let ghost s0 = spans@;
        proof {
            assert(t.drop_last() =~= cs@.take(i as int));
            assert(t.last() == c);
        }
        if is_space_char(c) {
        } else if i == 0 || is_space_char(cs[i - 1]) {
            spans.push((i, i + 1));
            proof {
                assert(cs@.subrange(i as int, i + 1) =~= seq![c]);
                if i > 0 {
                    assert(t[i - 1] == cs@[i - 1]);
                }
            }
        } else {
            let last = spans.len() - 1;
            let (a, b) = spans[last];
            spans.set(last, (a, i + 1));
            proof {
                assert(t[i - 1] == cs@[i - 1]);
                assert(cs@.subrange(a as int, i + 1) =~= cs@.subrange(a as int, i as int).push(c));
                assert forall|k: int| 0 <= k < spans@.len() implies {
                    let (a, b) = #[trigger] spans@[k];
                    &&& a < b <= i + 1
                    &&& cs@.subrange(a as int, b as int) == words(t)[k]
                } by {
                    if k < last {
                        assert(spans@[k] == s0[k]);
                    }
                }
            }
        }
        i = i + 1;
    }
    proof {
        assert(cs@.take(cs@.len() as int) =~= cs@);
    }
    spans
}

/// Whether two character vectors are equal.
pub fn chars_eq(a: &Vec<char>, b: &Vec<char>) -> (r: bool)
    ensures
        r == (a@ == b@),
{
    if a.len() != b.len() {
        return false;
    }
    for i in 0..a.len()
        invariant
            a@.len() == b@.len(),
            forall|k: int| 0 <= k < i ==> a@[k] == b@[k],
    {
        if a[i] != b[i] {
            return false;
        }
    }
    assert(a@ =~= b@);
    true
}

/// Whether two strings are equal.
pub fn str_eq(a: &str, b: &str) -> (r: bool)
    ensures
        r == (a@ == b@),
{
    chars_eq(&chars_of(a), &chars_of(b))
}

/// The decimal digit character of `d`, for `d` below 10.
pub open spec fn digit_char(d: nat) -> char {
    if d == 0 {
        '0'
    } else if d == 1 {
        '1'
    } else if d == 2 {
        '2'
    } else if d == 3 {
        '3'
    } else if d == 4 {
        '4'
    } else if d == 5 {
        '5'
    } else if d == 6 {
        '6'
    } else if d == 7 {
        '7'
    } else if d == 8 {
        '8'
    } else {
        '9'
    }
}

/// The decimal representation of `n`, without leading zeros.
pub open spec fn decimal(n: nat) -> Seq<char>
    decreases n,
{
    if n < 10 {
        seq![digit_char(n)]
    } else {
        decimal(n / 10) + seq![digit_char(n % 10)]
    }
}

/// The digit `d` as a string.
fn digit_str(d: usize) -> (r: &'static str)
    requires
        d < 10,
    ensures
        r@ == seq![digit_char(d as nat)],
{
    proof {
        reveal_strlit("0");
        reveal_strlit("1");
        reveal_strlit("2");
        reveal_strlit("3");
        reveal_strlit("4");
        reveal_strlit("5");
        reveal_strlit("6");
        reveal_strlit("7");
        reveal_strlit("8");
        reveal_strlit("9");
    }
    let r = if d == 0 {
        "0"
    } else if d == 1 {
        "1"
    } else if d == 2 {
        "2"
    } else if d == 3 {
        "3"
    } else if d == 4 {
        "4"
    } else if d == 5 {
        "5"
    } else if d == 6 {
        "6"
    } else if d == 7 {
        "7"
    } else if d == 8 {
        "8"
    } else {
        "9"
    };
    assert(r@ =~= seq![digit_char(d as nat)]);
    r
}

/// Append the decimal representation of `n` to `out`.
pub fn push_decimal(out: &mut String, n: usize)
    ensures
        final(out)@ == old(out)@ + decimal(n as nat),
    decreases n,
{
    if n >= 10 {
        push_decimal(out, n / 10);
    }
    out.append(digit_str(n % 10));
    assert(out@ =~= old(out)@ + decimal(n as nat));
}

} // verus!
