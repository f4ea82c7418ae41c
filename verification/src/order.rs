//! Ordering helpers: sorting by a count, and lexicographic order of
//! character sequences.

use vstd::prelude::*;

verus! {

/// Something that is ranked by a count.
pub trait ByCount {
    /// The count by which the value is ranked.
    spec fn count_key(&self) -> int;

    /// Reads the count.
    fn count_value(&self) -> (r: usize)
        ensures
            r as int == self.count_key(),
    ;
}

/// `s` is ordered by non-increasing count.
pub open spec fn sorted_by_count_desc<T: ByCount>(s: Seq<T>) -> bool {
    forall|i: int, j: int| 0 <= i < j < s.len() ==> s[i].count_key() >= s[j].count_key()
}

/// `v` reordered by non-increasing count.
pub fn sort_by_count_desc<T: ByCount>(v: Vec<T>) -> (r: Vec<T>)
    ensures
        r@.to_multiset() == v@.to_multiset(),
        r@.len() == v@.len(),
        sorted_by_count_desc(r@),
{
    broadcast use vstd::seq_lib::group_to_multiset_ensures;
    broadcast use vstd::multiset::group_multiset_axioms;

    let ghost orig = v@;
    let mut rest = v;
    let mut r: Vec<T> = Vec::new();
    while rest.len() > 0
        invariant
            r@.to_multiset().add(rest@.to_multiset()) == orig.to_multiset(),
            r@.len() + rest@.len() == orig.len(),
            sorted_by_count_desc(r@),
        decreases rest@.len(),
    {
        let ghost before = rest@;
        let x = rest.pop().unwrap();
        proof {
            assert(before =~= rest@.push(x));
        }
        let kx = x.count_value();
        let mut k: usize = 0;
        while k < r.len() && r[k].count_value() > kx
            invariant
                k <= r@.len(),
                forall|j: int| 0 <= j < k ==> r@[j].count_key() > kx,
            decreases r@.len() - k,
        {
            k = k + 1;
        }
        let ghost old_r = r@;
        r.insert(k, x);
        proof {
            vstd::seq_lib::to_multiset_insert(old_r, k as int, x);
            vstd::seq_lib::to_multiset_build(rest@, x);
            assert forall|a: int, b: int| 0 <= a < b < r@.len() implies r@[a].count_key()
                >= r@[b].count_key() by {
                if b < k {
                } else if a < k && b == k {
                } else if a < k {
                    assert(old_r[a].count_key() >= old_r[b - 1].count_key());
                } else if a == k {
                    if k < old_r.len() {
                        assert(old_r[k as int].count_key() >= old_r[b - 1].count_key());
                    }
                } else {
                    assert(old_r[a - 1].count_key() >= old_r[b - 1].count_key());
                }
            }
            assert(r@.to_multiset().add(rest@.to_multiset()) =~= orig.to_multiset());
        }
    }
    r
}


/// Elements of a reordering are elements of the sequence it reorders, and conversely.
pub proof fn lemma_permutation_elements<T>(e: Seq<T>, r: Seq<T>)
    requires
        r.to_multiset() == e.to_multiset(),
    ensures
        forall|i: int| 0 <= i < r.len() ==> e.contains(#[trigger] r[i]),
        forall|j: int| 0 <= j < e.len() ==> r.contains(#[trigger] e[j]),
{
    broadcast use vstd::seq_lib::group_to_multiset_ensures;

    assert forall|i: int| 0 <= i < r.len() implies e.contains(#[trigger] r[i]) by {
        assert(r.to_multiset().count(r[i]) > 0);
    }
    assert forall|j: int| 0 <= j < e.len() implies r.contains(#[trigger] e[j]) by {
        assert(e.to_multiset().count(e[j]) > 0);
    }
}

/// An element that a sequence holds twice occurs twice in its multiset.
pub proof fn lemma_repeat_counts<A>(r: Seq<A>, k1: int, k2: int)
    requires
        0 <= k1 < k2 < r.len(),
        r[k1] == r[k2],
    ensures
        r.to_multiset().count(r[k1]) >= 2,
    decreases r.len(),
{
    broadcast use vstd::seq_lib::group_to_multiset_ensures;
    broadcast use vstd::multiset::group_multiset_axioms;

    assert(r =~= r.drop_last().push(r.last()));
    if k2 == r.len() - 1 {
        assert(r.drop_last()[k1] == r[k1]);
        assert(r.drop_last().to_multiset().count(r[k1]) >= 1);
    } else {
        assert(r.drop_last()[k1] == r[k1] && r.drop_last()[k2] == r[k2]);
        lemma_repeat_counts(r.drop_last(), k1, k2);
    }
}

/// A reordering of a sequence whose keys differ has keys that differ.
pub proof fn lemma_permutation_distinct<T, K>(e: Seq<T>, r: Seq<T>, key: spec_fn(T) -> K)
    requires
        r.to_multiset() == e.to_multiset(),
        forall|a: int, b: int| 0 <= a < b < e.len() ==> key(e[a]) != key(e[b]),
    ensures
        forall|a: int, b: int| 0 <= a < b < r.len() ==> key(r[a]) != key(r[b]),
{
    lemma_permutation_elements(e, r);
    assert forall|a: int, b: int| 0 <= a < b < r.len() implies key(r[a]) != key(r[b]) by {
        if key(r[a]) == key(r[b]) {
            assert(e.contains(r[a]));
            assert(e.contains(r[b]));
            let qa = choose|q: int| 0 <= q < e.len() && e[q] == r[a];
            let qb = choose|q: int| 0 <= q < e.len() && e[q] == r[b];
            assert(qa == qb);
            lemma_repeat_counts(r, a, b);
            e.lemma_multiset_has_no_duplicates();
            assert forall|x: int, y: int| 0 <= x < y < e.len() implies e[x] != e[y] by {
                assert(key(e[x]) != key(e[y]));
            }
            assert(e.no_duplicates());
            e.lemma_multiset_has_no_duplicates();
        }
    }
}


/// Lexicographic order of character sequences by code point (the order of
/// `str` comparison, since UTF-8 preserves code point order).
pub open spec fn chars_lt(a: Seq<char>, b: Seq<char>) -> bool
    decreases a.len(),
{
    if a.len() == 0 {
        b.len() > 0
    } else if b.len() == 0 {
        false
    } else if a[0] != b[0] {
        (a[0] as u32) < (b[0] as u32)
    } else {
        chars_lt(a.drop_first(), b.drop_first())
    }
}

/// `a` is at most `b` in lexicographic order.
pub open spec fn chars_le(a: Seq<char>, b: Seq<char>) -> bool {
    a == b || chars_lt(a, b)
}

/// The lexicographic order is irreflexive and asymmetric.
pub proof fn lemma_chars_lt_asym(a: Seq<char>, b: Seq<char>)
    ensures
        !chars_lt(a, a),
        chars_lt(a, b) ==> !chars_lt(b, a),
    decreases a.len(),
{
    if a.len() > 0 && b.len() > 0 {
        lemma_chars_lt_asym(a.drop_first(), b.drop_first());

    } else if a.len() > 0 {
        lemma_chars_lt_asym(a.drop_first(), a.drop_first());
    }
}

/// The lexicographic order is transitive.
pub proof fn lemma_chars_lt_trans(a: Seq<char>, b: Seq<char>, c: Seq<char>)
    requires
        chars_lt(a, b),
        chars_lt(b, c),
    ensures
        chars_lt(a, c),
    decreases a.len(),
{
    if a.len() > 0 && b.len() > 0 && c.len() > 0 {
        if a[0] == b[0] && b[0] == c[0] {
            lemma_chars_lt_trans(a.drop_first(), b.drop_first(), c.drop_first());
        }
    }
}

/// Any two sequences are equal or ordered one way.
pub proof fn lemma_chars_lt_total(a: Seq<char>, b: Seq<char>)
    ensures
        a == b || chars_lt(a, b) || chars_lt(b, a),
    decreases a.len(),
{
    broadcast use vstd::utf8::char_u32_cast;

    if a.len() > 0 && b.len() > 0 {
        if a[0] == b[0] {
            lemma_chars_lt_total(a.drop_first(), b.drop_first());
            if a.drop_first() == b.drop_first() {
                assert(a =~= seq![a[0]] + a.drop_first());
                assert(b =~= seq![b[0]] + b.drop_first());
            }
        } else {
            let x = a[0] as u32;
            let y = b[0] as u32;
            if x == y {
                vstd::utf8::char_u32_cast(a[0], x);
                vstd::utf8::char_u32_cast(b[0], y);
                assert(false);
            }
        }
    } else if a.len() == 0 && b.len() == 0 {
        assert(a =~= b);
    }
}

/// Whether `a` comes before `b` in lexicographic order.
pub fn chars_less(a: &Vec<char>, b: &Vec<char>) -> (r: bool)
    ensures
        r == chars_lt(a@, b@),
{
    let mut i: usize = 0;
    assert(a@.skip(0) =~= a@);
    assert(b@.skip(0) =~= b@);
    while i < a.len() && i < b.len() && a[i] == b[i]
        invariant
            i <= a@.len(),
            i <= b@.len(),
            chars_lt(a@, b@) == chars_lt(a@.skip(i as int), b@.skip(i as int)),
        decreases a@.len() - i,
    {
        proof {
            assert(a@.skip(i as int).drop_first() =~= a@.skip(i + 1));
            assert(b@.skip(i as int).drop_first() =~= b@.skip(i + 1));
        }
        i = i + 1;
    }
    proof {
        if i < a.len() && i < b.len() {
            assert(a@.skip(i as int)[0] == a@[i as int]);
            assert(b@.skip(i as int)[0] == b@[i as int]);
        }
    }
    if i == a.len() {
        i < b.len()
    } else if i == b.len() {
        false
    } else {
        (a[i] as u32) < (b[i] as u32)
    }
}


/// `s` is in ascending lexicographic order.
pub open spec fn sorted_strings(s: Seq<String>) -> bool {
    forall|i: int, j: int| 0 <= i < j < s.len() ==> chars_le(#[trigger] s[i]@, #[trigger] s[j]@)
}

/// Whether `a` comes before `b` in lexicographic order.
fn string_less(a: &String, b: &String) -> (r: bool)
    ensures
        r == chars_lt(a@, b@),
{
    chars_less(&crate::text::chars_of(a.as_str()), &crate::text::chars_of(b.as_str()))
}

/// `v` in ascending lexicographic order (the order of `str` comparison).
pub fn sort_strings(v: Vec<String>) -> (r: Vec<String>)
    ensures
        r@.to_multiset() == v@.to_multiset(),
        r@.len() == v@.len(),
        sorted_strings(r@),
{
    broadcast use vstd::seq_lib::group_to_multiset_ensures;
    broadcast use vstd::multiset::group_multiset_axioms;

    let ghost orig = v@;
    let mut rest = v;
    let mut r: Vec<String> = Vec::new();
    while rest.len() > 0
        invariant
            r@.to_multiset().add(rest@.to_multiset()) == orig.to_multiset(),
            r@.len() + rest@.len() == orig.len(),
            sorted_strings(r@),
        decreases rest@.len(),
    {
        let ghost before = rest@;
        let x = rest.pop().unwrap();
        proof {
            assert(before =~= rest@.push(x));
        }
        let mut k: usize = 0;
        while k < r.len() && !string_less(&x, &r[k])
            invariant
                k <= r@.len(),
                forall|j: int| 0 <= j < k ==> chars_le(#[trigger] r@[j]@, x@),
            decreases r@.len() - k,
        {
            proof {
                lemma_chars_lt_total(x@, r@[k as int]@);
            }
            k = k + 1;
        }
        let ghost old_r = r@;
        r.insert(k, x);
        proof {
            vstd::seq_lib::to_multiset_insert(old_r, k as int, x);
            vstd::seq_lib::to_multiset_build(rest@, x);
            assert forall|a: int, b: int| 0 <= a < b < r@.len() implies chars_le(
                #[trigger] r@[a]@,
                #[trigger] r@[b]@,
            ) by {
                if b < k {
                    assert(chars_le(old_r[a]@, old_r[b]@));
                } else if a < k && b == k {
                    assert(chars_le(old_r[a]@, x@));
                } else if a < k {
                    assert(chars_le(old_r[a]@, x@));
                    assert(chars_lt(x@, old_r[k as int]@));
                    assert(chars_le(old_r[k as int]@, old_r[b - 1]@));
                    if old_r[a]@ != x@ {
                        lemma_chars_lt_trans(old_r[a]@, x@, old_r[k as int]@);
                    }
                    if old_r[k as int]@ != old_r[b - 1]@ {
                        lemma_chars_lt_trans(old_r[a]@, old_r[k as int]@, old_r[b - 1]@);
                    }
                } else if a == k {
                    assert(chars_lt(x@, old_r[k as int]@));
                    assert(chars_le(old_r[k as int]@, old_r[b - 1]@));
                    if old_r[k as int]@ != old_r[b - 1]@ {
                        lemma_chars_lt_trans(x@, old_r[k as int]@, old_r[b - 1]@);
                    }
                } else {
                    assert(chars_le(old_r[a - 1]@, old_r[b - 1]@));
                }
            }
            assert(r@.to_multiset().add(rest@.to_multiset()) =~= orig.to_multiset());
        }
    }
    r
}

} // verus!
