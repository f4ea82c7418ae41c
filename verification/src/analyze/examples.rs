//! Choosing example posts spread across repositories and lengths.

use vstd::prelude::*;

use crate::models::Post;
use crate::order::{
    chars_le, chars_less, chars_lt, lemma_chars_lt_asym, lemma_chars_lt_total, lemma_chars_lt_trans,
    lemma_permutation_distinct, lemma_permutation_elements, sort_by_count_desc, ByCount,
};
use crate::text::chars_of;
use crate::text::{word_count, words};

verus! {

/// The ids of the posts, in order.
pub open spec fn post_ids(posts: Seq<Post>) -> Seq<i64> {
    Seq::new(posts.len(), |i: int| posts[i].id)
}

/// Some selected post has id `id`.
pub open spec fn id_taken(ids: Seq<i64>, sel: Seq<int>, id: i64) -> bool {
    exists|j: int| 0 <= j < sel.len() && ids[#[trigger] sel[j]] == id
}

/// The post that bucket `i` offers in round `r`: its `r`-th post from the
/// start in even rounds and from the end in odd rounds; none once the
/// bucket has fewer than `r + 1` posts.
pub open spec fn offered(buckets: Seq<Seq<int>>, r: nat, i: int) -> Option<int> {
    let b = buckets[i];
    if r < b.len() {
        Some(
            if r % 2 == 0 {
                b[r as int]
            } else {
                b[b.len() - 1 - r]
            },
        )
    } else {
        None
    }
}

/// Round `r` of the selection, from bucket `i` on: each bucket in turn offers
/// a post, taken when its id is new, until `limit` posts are selected.
pub open spec fn round_from(
    buckets: Seq<Seq<int>>,
    ids: Seq<i64>,
    r: nat,
    i: int,
    sel: Seq<int>,
    limit: nat,
) -> Seq<int>
    decreases buckets.len() - i,
{
    if i >= buckets.len() || i < 0 || sel.len() >= limit {
        sel
    } else {
        match offered(buckets, r, i) {
            Some(p) => if !id_taken(ids, sel, ids[p]) {
                round_from(buckets, ids, r, i + 1, sel.push(p), limit)
            } else {
                round_from(buckets, ids, r, i + 1, sel, limit)
            },
            None => round_from(buckets, ids, r, i + 1, sel, limit),
        }
    }
}

/// The selection from round `r` on, starting from `sel`: rounds run until
/// `limit` posts are selected or a round selects nothing.
pub open spec fn rounds_from(
    buckets: Seq<Seq<int>>,
    ids: Seq<i64>,
    r: nat,
    sel: Seq<int>,
    limit: nat,
) -> Seq<int>
    decreases limit - sel.len(),
{
    if sel.len() >= limit {
        sel
    } else {
        let next = round_from(buckets, ids, r, 0, sel, limit);
        if next.len() <= sel.len() || next.len() > limit {
            next
        } else {
            rounds_from(buckets, ids, r + 1, next, limit)
        }
    }
}

/// A round only adds to the selection, never past `limit`.
pub proof fn lemma_round_grows(
    buckets: Seq<Seq<int>>,
    ids: Seq<i64>,
    r: nat,
    i: int,
    sel: Seq<int>,
    limit: nat,
)
    requires
        sel.len() <= limit,
    ensures
        round_from(buckets, ids, r, i, sel, limit).len() >= sel.len(),
        round_from(buckets, ids, r, i, sel, limit).len() <= limit,
        round_from(buckets, ids, r, i, sel, limit).subrange(0, sel.len() as int) == sel,
    decreases buckets.len() - i,
{
    if i >= buckets.len() || i < 0 || sel.len() >= limit {
        assert(sel.subrange(0, sel.len() as int) =~= sel);
    } else {
        match offered(buckets, r, i) {
            Some(p) => if !id_taken(ids, sel, ids[p]) {
                lemma_round_grows(buckets, ids, r, i + 1, sel.push(p), limit);
                let res = round_from(buckets, ids, r, i + 1, sel.push(p), limit);
                assert(res.subrange(0, sel.len() as int) =~= res.subrange(
                    0,
                    (sel.len() + 1) as int,
                ).subrange(0, sel.len() as int));
                assert(sel.push(p).subrange(0, sel.len() as int) =~= sel);
            } else {
                lemma_round_grows(buckets, ids, r, i + 1, sel, limit);
            },
            None => lemma_round_grows(buckets, ids, r, i + 1, sel, limit),
        }
    }
}

/// Select indices of posts by round-robin over the buckets.
fn round_robin(buckets: &Vec<Vec<usize>>, ids: &Vec<i64>, limit: usize) -> (sel: Vec<usize>)
    requires
        forall|b: int, j: int|
            0 <= b < buckets@.len() && 0 <= j < buckets@[b]@.len() ==> #[trigger] buckets@[b]@[j]
                < ids@.len(),
    ensures
        sel@.map_values(|x: usize| x as int) == rounds_from(
            bucket_views(buckets@),
            ids@,
            0,
            Seq::empty(),
            limit as nat,
        ),
{
    let ghost bv = bucket_views(buckets@);
    let ghost goal = rounds_from(bv, ids@, 0, Seq::empty(), limit as nat);
    let mut selected: Vec<usize> = Vec::new();
    let mut seen: Vec<i64> = Vec::new();
    let mut r: usize = 0;
    proof {
        assert(selected@.map_values(|x: usize| x as int) =~= Seq::<int>::empty());
    }
    while selected.len() < limit
        invariant
            bv == bucket_views(buckets@),
            forall|b: int, j: int|
                0 <= b < buckets@.len() && 0 <= j < buckets@[b]@.len() ==> #[trigger] buckets@[b]@[j]
                    < ids@.len(),
            selected@.len() <= limit,
            seen@.len() == selected@.len(),
            forall|j: int| 0 <= j < selected@.len() ==> #[trigger] seen@[j] == ids@[selected@[j] as int],
            forall|j: int| 0 <= j < selected@.len() ==> #[trigger] selected@[j] < ids@.len(),
            rounds_from(bv, ids@, r as nat, selected@.map_values(|x: usize| x as int), limit as nat)
                == goal,
            r <= selected@.len(),
        ensures
            selected@.map_values(|x: usize| x as int) == goal,
        decreases limit - selected@.len(),
    {
        let ghost start = selected@.map_values(|x: usize| x as int);
        let mut picked = false;
        let mut i: usize = 0;
        while i < buckets.len()
            invariant
                bv == bucket_views(buckets@),
                forall|b: int, j: int|
                    0 <= b < buckets@.len() && 0 <= j < buckets@[b]@.len() ==> #[trigger] buckets@[b]@[j]
                        < ids@.len(),
                i <= buckets@.len(),
                selected@.len() <= limit,
                seen@.len() == selected@.len(),
                forall|j: int| 0 <= j < selected@.len() ==> #[trigger] seen@[j] == ids@[selected@[j] as int],
                forall|j: int| 0 <= j < selected@.len() ==> #[trigger] selected@[j] < ids@.len(),
                round_from(bv, ids@, r as nat, 0, start, limit as nat) == round_from(
                    bv,
                    ids@,
                    r as nat,
                    i as int,
                    selected@.map_values(|x: usize| x as int),
                    limit as nat,
                ),
                picked <==> selected@.len() > start.len(),
                selected@.len() >= start.len(),
                start.len() >= r,
            ensures
                round_from(bv, ids@, r as nat, 0, start, limit as nat) == selected@.map_values(
                    |x: usize| x as int,
                ),
                selected@.len() <= limit,
                seen@.len() == selected@.len(),
                forall|j: int| 0 <= j < selected@.len() ==> #[trigger] seen@[j] == ids@[selected@[j] as int],
                forall|j: int| 0 <= j < selected@.len() ==> #[trigger] selected@[j] < ids@.len(),
                picked <==> selected@.len() > start.len(),
                selected@.len() >= start.len(),
            decreases buckets@.len() - i,
        {
            if selected.len() >= limit {
                break;
            }
            proof {
                assert(i < bv.len());
            }
            let bucket = &buckets[i];
            let ghost cur = selected@.map_values(|x: usize| x as int);
            if r < bucket.len() {
                let idx = if r % 2 == 0 {
                    r
                } else {
                    bucket.len() - 1 - r
                };
                let p = bucket[idx];
                let id = ids[p];
                let mut dup = false;
                let mut q: usize = 0;
                while q < seen.len()
                    invariant
                        q <= seen@.len(),
                        dup <==> exists|t: int| 0 <= t < q && seen@[t] == id,
                    decreases seen@.len() - q,
                {
                    if seen[q] == id {
                        dup = true;
                    }
                    q = q + 1;
                }
                proof {
                    assert(offered(bv, r as nat, i as int) == Some(p as int));
                    assert(dup == id_taken(ids@, cur, ids@[p as int])) by {
                        if dup {
                            let t = choose|t: int| 0 <= t < seen@.len() && seen@[t] == id;
                            assert(ids@[cur[t]] == id);
                        }
                        if id_taken(ids@, cur, ids@[p as int]) {
                            let j = choose|j: int| 0 <= j < cur.len() && ids@[#[trigger] cur[j]] == ids@[p as int];
                            assert(seen@[j] == id);
                        }
                    }
                }
                if !dup {
                    seen.push(id);
                    selected.push(p);
                    picked = true;
                    proof {
                        assert(selected@.map_values(|x: usize| x as int) =~= cur.push(p as int));
                    }
                }
            } else {
                proof {
                    assert(offered(bv, r as nat, i as int) == None::<int>);
                }
            }
            i = i + 1;
        }
        proof {
            lemma_round_grows(bv, ids@, r as nat, 0, start, limit as nat);
        }
        if !picked {
            proof {
                assert(selected@.map_values(|x: usize| x as int) =~= start);
            }
            break;
        }
        r = r + 1;
    }
    selected
}

/// The views of the buckets as sequences of integers.
pub open spec fn bucket_views(buckets: Seq<Vec<usize>>) -> Seq<Seq<int>> {
    buckets.map_values(|b: Vec<usize>| b@.map_values(|x: usize| x as int))
}


/// The repository of a post, by its text.
pub open spec fn repo_key(p: Post) -> Option<Seq<char>> {
    match p.repo {
        Some(s) => Some(s@),
        None => None,
    }
}

/// Number of words in the body of post `i`.
pub open spec fn body_words(posts: Seq<Post>, i: int) -> nat {
    words(posts[i].body@).len()
}

/// Within a bucket, post `x` comes before post `y`: it has fewer words, or
/// as many and comes earlier.
pub open spec fn before_in_bucket(posts: Seq<Post>, x: int, y: int) -> bool {
    body_words(posts, x) < body_words(posts, y) || (body_words(posts, x) == body_words(posts, y)
        && x < y)
}

/// A bucket: posts of one repository, by length and then by position.
pub open spec fn bucket_ok(posts: Seq<Post>, b: Seq<int>) -> bool {
    &&& b.len() > 0
    &&& forall|j: int| 0 <= j < b.len() ==> 0 <= #[trigger] b[j] < posts.len()
    &&& forall|j: int| 0 <= j < b.len() ==> repo_key(posts[#[trigger] b[j]]) == repo_key(posts[b[0]])
    &&& forall|j1: int, j2: int| 0 <= j1 < j2 < b.len() ==> before_in_bucket(posts, #[trigger] b[j1], #[trigger] b[j2])
}

/// Post `i` is in one of the buckets.
pub open spec fn in_buckets(buckets: Seq<Seq<int>>, i: int) -> bool {
    exists|b: int, j: int| 0 <= b < buckets.len() && 0 <= j < buckets[b].len() && #[trigger] buckets[b][j] == i
}

/// The posts grouped into one bucket per repository, every post in one, with
/// larger buckets first.
pub open spec fn valid_buckets(posts: Seq<Post>, buckets: Seq<Seq<int>>) -> bool {
    &&& forall|b: int| 0 <= b < buckets.len() ==> bucket_ok(posts, #[trigger] buckets[b])
    &&& forall|b1: int, b2: int|
        0 <= b1 < b2 < buckets.len() ==> repo_key(posts[buckets[b1][0]]) != repo_key(posts[buckets[b2][0]])
    &&& forall|i: int| 0 <= i < posts.len() ==> #[trigger] in_buckets(buckets, i)
    &&& forall|b1: int, b2: int| 0 <= b1 < b2 < buckets.len() ==> buckets[b1].len() >= buckets[b2].len()
}

impl ByCount for Vec<usize> {
    open spec fn count_key(&self) -> int {
        self@.len() as int
    }

    fn count_value(&self) -> (r: usize) {
        self.len()
    }
}

/// Whether two optional repositories name the same one.
fn same_repo(a: &Option<String>, b: &Option<String>) -> (r: bool)
    ensures
        r == (match a {
            Some(s) => Some(s@),
            None => None::<Seq<char>>,
        } == match b {
            Some(s) => Some(s@),
            None => None::<Seq<char>>,
        }),
{
    match (a, b) {
        (Some(x), Some(y)) => *x == *y,
        (None, None) => true,
        _ => false,
    }
}

/// Word counts of the post bodies.
fn body_word_counts(posts: &[Post]) -> (wc: Vec<usize>)
    ensures
        wc@.len() == posts@.len(),
        forall|i: int| 0 <= i < posts@.len() ==> #[trigger] wc@[i] == body_words(posts@, i),
{
    let mut wc: Vec<usize> = Vec::new();
    for i in 0..posts.len()
        invariant
            wc@.len() == i,
            forall|q: int| 0 <= q < i ==> #[trigger] wc@[q] == body_words(posts@, q),
    {
        wc.push(word_count(posts[i].body.as_str()));
    }
    wc
}

/// Group post indices into one bucket per repository, each ordered by length
/// and then by position, buckets in order of first appearance.
fn group_by_repo(posts: &[Post], wc: &Vec<usize>) -> (buckets: Vec<Vec<usize>>)
    requires
        wc@.len() == posts@.len(),
        forall|i: int| 0 <= i < posts@.len() ==> #[trigger] wc@[i] == body_words(posts@, i),
    ensures
        ({
            let bv = bucket_views(buckets@);
            &&& forall|b: int| 0 <= b < bv.len() ==> bucket_ok(posts@, #[trigger] bv[b])
            &&& forall|b1: int, b2: int|
                0 <= b1 < b2 < bv.len() ==> repo_key(posts@[bv[b1][0]]) != repo_key(posts@[bv[b2][0]])
            &&& forall|i: int| 0 <= i < posts@.len() ==> #[trigger] in_buckets(bv, i)
        }),
{
    let mut buckets: Vec<Vec<usize>> = Vec::new();
    let mut i: usize = 0;
    while i < posts.len()
        invariant
            i <= posts@.len(),
            wc@.len() == posts@.len(),
            forall|q: int| 0 <= q < posts@.len() ==> #[trigger] wc@[q] == body_words(posts@, q),
            forall|b: int| 0 <= b < buckets@.len() ==> bucket_ok(posts@, #[trigger] bucket_views(buckets@)[b]),
            forall|b: int, j: int|
                0 <= b < buckets@.len() && 0 <= j < buckets@[b]@.len() ==> #[trigger] buckets@[b]@[j] < i,
            forall|b: int| 0 <= b < buckets@.len() ==> (#[trigger] buckets@[b])@.len() > 0,
            forall|b1: int, b2: int|
                0 <= b1 < b2 < buckets@.len() ==> repo_key(posts@[buckets@[b1]@[0] as int]) != repo_key(
                    posts@[buckets@[b2]@[0] as int],
                ),
            forall|i2: int| 0 <= i2 < i ==> #[trigger] in_buckets(bucket_views(buckets@), i2),
        decreases posts@.len() - i,
    {
        let ghost old_b = buckets@;
        let mut k: usize = 0;
        while k < buckets.len() && !same_repo(&posts[buckets[k][0]].repo, &posts[i].repo)
            invariant
                i < posts@.len(),
                k <= buckets@.len(),
                forall|b: int, j: int|
                    0 <= b < buckets@.len() && 0 <= j < buckets@[b]@.len() ==> #[trigger] buckets@[b]@[j] < i,
                forall|b: int| 0 <= b < buckets@.len() ==> (#[trigger] buckets@[b])@.len() > 0,
                forall|b: int| 0 <= b < buckets@.len() ==> bucket_ok(posts@, #[trigger] bucket_views(buckets@)[b]),
                forall|q: int|
                    0 <= q < k ==> repo_key(posts@[buckets@[q]@[0] as int]) != repo_key(posts@[i as int]),
            decreases buckets@.len() - k,
        {
            proof {
                assert(bucket_ok(posts@, bucket_views(buckets@)[k as int]));
            }
            k = k + 1;
        }
        if k < buckets.len() {
            let mut bucket: Vec<usize> = Vec::new();
            buckets.set_and_swap(k, &mut bucket);
            let ghost b0 = bucket@;
            proof {
                assert(bucket_ok(posts@, bucket_views(old_b)[k as int]));
                assert(bucket_views(old_b)[k as int] == b0.map_values(|x: usize| x as int));
            }
            let mut pos: usize = 0;
            while pos < bucket.len() && wc[bucket[pos]] <= wc[i]
                invariant
                    bucket@ == b0,
                    pos <= b0.len(),
                    i < posts@.len(),
                    wc@.len() == posts@.len(),
                    forall|j: int| 0 <= j < b0.len() ==> #[trigger] b0[j] < i,
                    forall|j: int| 0 <= j < pos ==> wc@[b0[j] as int] <= wc@[i as int],
                decreases b0.len() - pos,
            {
                pos = pos + 1;
            }
            bucket.insert(pos, i);
            proof {
                let m0 = b0.map_values(|x: usize| x as int);
                let m1 = bucket@.map_values(|x: usize| x as int);
                assert(m1 =~= m0.insert(pos as int, i as int));
                assert forall|j: int| 0 <= j < pos implies body_words(posts@, #[trigger] m0[j]) <= body_words(posts@, i as int) by {
                    assert(wc@[b0[j] as int] <= wc@[i as int]);
                }
                if pos < b0.len() {
                    assert(wc@[b0[pos as int] as int] > wc@[i as int]);
                }
                lemma_bucket_insert(posts@, m0, m1, pos as int, i as int);
            }
            let ghost nb = bucket@;
            buckets.set(k, bucket);
            proof {
                let bv = bucket_views(buckets@);
                assert(buckets@ == old_b.update(k as int, buckets@[k as int]));
                assert(buckets@[k as int]@ == nb);
                assert forall|b: int| 0 <= b < buckets@.len() implies bucket_ok(posts@, #[trigger] bucket_views(buckets@)[b]) by {
                    if b != k {
                        assert(bucket_views(buckets@)[b] == bucket_views(old_b)[b]);
                    } else {
                        assert(bucket_views(buckets@)[b] == nb.map_values(|x: usize| x as int));
                    }
                }
                assert(repo_key(posts@[buckets@[k as int]@[0] as int]) == repo_key(posts@[old_b[k as int]@[0] as int])) by {
                    assert(bucket_ok(posts@, bucket_views(buckets@)[k as int]));
                    assert(nb.contains(old_b[k as int]@[0])) by {
                        if pos == 0 {
                            assert(nb[1] == b0[0]);
                        } else {
                            assert(nb[0] == b0[0]);
                        }
                    }
                    let j = choose|j: int| 0 <= j < nb.len() && nb[j] == old_b[k as int]@[0];
                    assert(bucket_views(buckets@)[k as int][j] == nb[j] as int);
                }
                assert forall|b: int, j: int|
                    0 <= b < buckets@.len() && 0 <= j < buckets@[b]@.len() implies #[trigger] buckets@[b]@[j] < i + 1 by {
                    if b == k {
                        if j < pos {
                            assert(nb[j] == b0[j]);
                        } else if j > pos {
                            assert(nb[j] == b0[j - 1]);
                        }
                    }
                }
                assert forall|i2: int| 0 <= i2 < i + 1 implies #[trigger] in_buckets(bucket_views(buckets@), i2) by {
                    let bv = bucket_views(buckets@);
                    let ov = bucket_views(old_b);
                    if i2 == i {
                        assert(bv[k as int][pos as int] == i2);
                    } else {
                        assert(in_buckets(ov, i2));
                        let (b, j) = choose|b: int, j: int|
                            0 <= b < ov.len() && 0 <= j < ov[b].len() && #[trigger] ov[b][j] == i2;
                        if b == k {
                            if j < pos {
                                assert(nb[j] == b0[j]);
                                assert(bv[b][j] == i2);
                            } else {
                                assert(nb[j + 1] == b0[j]);
                                assert(bv[b][j + 1] == i2);
                            }
                        } else {
                            assert(bv[b] == ov[b]);
                            assert(bv[b][j] == i2);
                        }
                    }
                }
            }
        } else {
            let mut bucket: Vec<usize> = Vec::new();
            bucket.push(i);
            buckets.push(bucket);
            proof {
                assert(buckets@ == old_b.push(buckets@.last()));
                assert forall|b: int| 0 <= b < buckets@.len() implies bucket_ok(posts@, #[trigger] bucket_views(buckets@)[b]) by {
                    if b < old_b.len() {
                        assert(bucket_views(buckets@)[b] == bucket_views(old_b)[b]);
                    } else {
                        assert(bucket_views(buckets@)[b] =~= seq![i as int]);
                    }
                }
                assert forall|b: int, j: int|
                    0 <= b < buckets@.len() && 0 <= j < buckets@[b]@.len() implies #[trigger] buckets@[b]@[j] < i + 1 by {
                    if b < old_b.len() {
                        assert(buckets@[b] == old_b[b]);
                    }
                }
                assert forall|b1: int, b2: int|
                    0 <= b1 < b2 < buckets@.len() implies repo_key(posts@[buckets@[b1]@[0] as int]) != repo_key(
                        posts@[buckets@[b2]@[0] as int],
                    ) by {
                    assert(buckets@[b1] == old_b[b1]);
                    if b2 < old_b.len() {
                        assert(buckets@[b2] == old_b[b2]);
                    }
                }
                assert forall|i2: int| 0 <= i2 < i + 1 implies #[trigger] in_buckets(bucket_views(buckets@), i2) by {
                    let bv = bucket_views(buckets@);
                    let ov = bucket_views(old_b);
                    if i2 == i {
                        assert(bv[old_b.len() as int][0] == i2);
                    } else {
                        assert(in_buckets(ov, i2));
                        let (b, j) = choose|b: int, j: int|
                            0 <= b < ov.len() && 0 <= j < ov[b].len() && #[trigger] ov[b][j] == i2;
                        assert(bv[b] == ov[b]);
                        assert(bv[b][j] == i2);
                    }
                }
            }
        }
        i = i + 1;
    }
    proof {
        let bv = bucket_views(buckets@);
        assert forall|b1: int, b2: int|
            0 <= b1 < b2 < bv.len() implies repo_key(posts@[bv[b1][0]]) != repo_key(posts@[bv[b2][0]]) by {
            assert(bv[b1][0] == buckets@[b1]@[0] as int);
            assert(bv[b2][0] == buckets@[b2]@[0] as int);
        }
    }
    buckets
}

/// Inserting post `x`, later than every post of the bucket, after the posts
/// with at most its length keeps the bucket ordered.
proof fn lemma_bucket_insert(posts: Seq<Post>, b0: Seq<int>, b1: Seq<int>, pos: int, x: int)
    requires
        bucket_ok(posts, b0),
        0 <= x < posts.len(),
        repo_key(posts[x]) == repo_key(posts[b0[0]]),
        0 <= pos <= b0.len(),
        b1 == b0.insert(pos, x),
        forall|j: int| 0 <= j < b0.len() ==> #[trigger] b0[j] < x,
        forall|j: int| 0 <= j < pos ==> body_words(posts, #[trigger] b0[j]) <= body_words(posts, x),
        pos < b0.len() ==> body_words(posts, b0[pos]) > body_words(posts, x),
    ensures
        bucket_ok(posts, b1),
{
    assert forall|j: int| 0 <= j < b1.len() implies repo_key(posts[#[trigger] b1[j]]) == repo_key(posts[b1[0]]) by {
        if pos == 0 {
            assert(b1[0] == x);
            if j > 0 {
                assert(b1[j] == b0[j - 1]);
            }
        } else {
            assert(b1[0] == b0[0]);
            if j < pos {
                assert(b1[j] == b0[j]);
            } else if j > pos {
                assert(b1[j] == b0[j - 1]);
            }
        }
    }
    assert forall|j1: int, j2: int| 0 <= j1 < j2 < b1.len() implies before_in_bucket(posts, #[trigger] b1[j1], #[trigger] b1[j2]) by {
        if j2 < pos {
            assert(b1[j1] == b0[j1] && b1[j2] == b0[j2]);
        } else if j2 == pos {
            assert(b1[j1] == b0[j1]);
        } else if j1 < pos {
            assert(b1[j1] == b0[j1] && b1[j2] == b0[j2 - 1]);
        } else if j1 == pos {
            assert(b1[j2] == b0[j2 - 1]);
            if j2 - 1 > pos {
                assert(before_in_bucket(posts, b0[pos], b0[j2 - 1]));
            }
        } else {
            assert(b1[j1] == b0[j1 - 1] && b1[j2] == b0[j2 - 1]);
        }
    }
    assert forall|j: int| 0 <= j < b1.len() implies 0 <= #[trigger] b1[j] < posts.len() by {
        if j < pos {
            assert(b1[j] == b0[j]);
        } else if j > pos {
            assert(b1[j] == b0[j - 1]);
        }
    }
}


/// A sequence of indices as integers.
pub open spec fn ints_of(v: Seq<usize>) -> Seq<int> {
    v.map_values(|x: usize| x as int)
}

/// Post `x` was created no later than post `y`.
pub open spec fn created_le(posts: Seq<Post>, x: int, y: int) -> bool {
    chars_le(posts[x].created_at@, posts[y].created_at@)
}

/// `p` arranges `picks` into `sel`: each `sel[a]` is `picks[p[a]]`, and no
/// pick is used twice.
pub open spec fn arranges(picks: Seq<int>, sel: Seq<int>, p: Seq<int>) -> bool {
    &&& p.len() == sel.len()
    &&& sel.len() == picks.len()
    &&& forall|a: int| 0 <= a < p.len() ==> 0 <= #[trigger] p[a] < picks.len() && sel[a] == picks[p[a]]
    &&& forall|a: int, b: int| 0 <= a < b < p.len() ==> #[trigger] p[a] != #[trigger] p[b]
}

/// Posts `x` and `y` were created at the same time.
pub open spec fn same_date(posts: Seq<Post>, x: int, y: int) -> bool {
    posts[x].created_at@ == posts[y].created_at@
}

/// `sel` is `picks` sorted by creation date, where picks of the same date
/// keep the order they have in `picks` (a stable sort).
pub open spec fn stable_date_sort(posts: Seq<Post>, picks: Seq<int>, sel: Seq<int>) -> bool {
    &&& forall|a: int, b: int| 0 <= a < b < sel.len() ==> created_le(posts, sel[a], sel[b])
    &&& exists|p: Seq<int>|
        #[trigger] arranges(picks, sel, p) && forall|a: int, b: int|
            0 <= a < b < sel.len() && same_date(posts, sel[a], sel[b]) ==> p[a] < p[b]
}

/// The selected posts, reordered by creation date.
fn sort_by_created(posts: &[Post], sel: Vec<usize>) -> (r: Vec<usize>)
    requires
        forall|j: int| 0 <= j < sel@.len() ==> #[trigger] sel@[j] < posts@.len(),
    ensures
        ints_of(r@).to_multiset() == ints_of(sel@).to_multiset(),
        r@.len() == sel@.len(),
        forall|j: int| 0 <= j < r@.len() ==> #[trigger] r@[j] < posts@.len(),
        forall|a: int, b: int|
            0 <= a < b < r@.len() ==> created_le(posts@, r@[a] as int, r@[b] as int),
        stable_date_sort(posts@, ints_of(sel@), ints_of(r@)),
{
    broadcast use vstd::seq_lib::group_to_multiset_ensures;

    let mut r: Vec<usize> = Vec::new();
    let ghost mut p: Seq<int> = Seq::empty();
    assert(arranges(ints_of(sel@.take(0)), ints_of(r@), p));
    for i in 0..sel.len()
        invariant
            arranges(ints_of(sel@.take(i as int)), ints_of(r@), p),
            forall|a: int, b: int|
                0 <= a < b < r@.len() && same_date(posts@, r@[a] as int, r@[b] as int) ==> p[a]
                    < p[b],
            forall|j: int| 0 <= j < sel@.len() ==> #[trigger] sel@[j] < posts@.len(),
            ints_of(r@).to_multiset() == ints_of(sel@.take(i as int)).to_multiset(),
            r@.len() == i,
            forall|j: int| 0 <= j < r@.len() ==> #[trigger] r@[j] < posts@.len(),
            forall|a: int, b: int|
                0 <= a < b < r@.len() ==> created_le(posts@, r@[a] as int, r@[b] as int),
    {
        let x = sel[i];
        let cx = chars_of(posts[x].created_at.as_str());
        let mut k: usize = 0;
        while k < r.len() && !chars_less(&cx, &chars_of(posts[r[k]].created_at.as_str()))
            invariant
                k <= r@.len(),
                x < posts@.len(),
                cx@ == posts@[x as int].created_at@,
                forall|j: int| 0 <= j < r@.len() ==> #[trigger] r@[j] < posts@.len(),
                forall|j: int| 0 <= j < k ==> !chars_lt(cx@, posts@[r@[j] as int].created_at@),
            decreases r@.len() - k,
        {
            k = k + 1;
        }
        let ghost old_r = r@;
        let ghost old_p = p;
        r.insert(k, x);
        proof {
            p = old_p.insert(k as int, i as int);
            lemma_stable_step(posts@, ints_of(sel@), i as int, ints_of(old_r), old_p, k as int);
            assert(ints_of(r@) =~= ints_of(old_r).insert(k as int, x as int));
            vstd::seq_lib::to_multiset_insert(ints_of(old_r), k as int, x as int);
            assert(ints_of(sel@.take(i + 1)) =~= ints_of(sel@.take(i as int)).push(x as int));
            vstd::seq_lib::to_multiset_build(ints_of(sel@.take(i as int)), x as int);
            let cxv = posts@[x as int].created_at@;
            assert forall|a: int, b: int| 0 <= a < b < r@.len() implies created_le(
                posts@,
                r@[a] as int,
                r@[b] as int,
            ) by {
                if b < k {
                    assert(created_le(posts@, old_r[a] as int, old_r[b] as int));
                } else if a < k && b == k {
                    lemma_chars_lt_total(posts@[old_r[a] as int].created_at@, cxv);
                } else if a < k {
                    assert(created_le(posts@, old_r[a] as int, old_r[b - 1] as int));
                    lemma_chars_lt_total(posts@[old_r[a] as int].created_at@, cxv);
                    if chars_lt(posts@[old_r[a] as int].created_at@, cxv) && chars_lt(cxv, posts@[old_r[b - 1] as int].created_at@) {
                        lemma_chars_lt_trans(posts@[old_r[a] as int].created_at@, cxv, posts@[old_r[b - 1] as int].created_at@);
                        lemma_chars_lt_asym(posts@[old_r[a] as int].created_at@, posts@[old_r[b - 1] as int].created_at@);
                    }
                } else if a == k {
                    let ck = posts@[old_r[k as int] as int].created_at@;
                    let cb = posts@[old_r[b - 1] as int].created_at@;
                    assert(chars_lt(cxv, ck));
                    if b - 1 > k {
                        assert(created_le(posts@, old_r[k as int] as int, old_r[b - 1] as int));
                        if chars_lt(ck, cb) {
                            lemma_chars_lt_trans(cxv, ck, cb);
                        }
                    }
                } else {
                    assert(created_le(posts@, old_r[a - 1] as int, old_r[b - 1] as int));
                }
            }
        }
    }
    proof {
        assert(sel@.take(sel@.len() as int) =~= sel@);
        assert(ints_of(sel@.take(sel@.len() as int)) =~= ints_of(sel@));
        assert forall|a: int, b: int|
            0 <= a < b < ints_of(r@).len() && same_date(posts@, ints_of(r@)[a], ints_of(r@)[b])
            implies p[a] < p[b] by {
            assert(same_date(posts@, r@[a] as int, r@[b] as int));
        }
        assert(arranges(ints_of(sel@), ints_of(r@), p));
    }
    r
}

/// One insertion of the date sort keeps it stable: the pick `picks[i]`,
/// placed at `k` after every pick dated no later and before a later one,
/// comes after the picks of the same date that precede it in `picks`.
proof fn lemma_stable_step(
    posts: Seq<Post>,
    picks: Seq<int>,
    i: int,
    r: Seq<int>,
    p: Seq<int>,
    k: int,
)
    requires
        0 <= i < picks.len(),
        0 <= k <= r.len(),
        arranges(picks.take(i), r, p),
        forall|a: int, b: int| 0 <= a < b < r.len() && same_date(posts, r[a], r[b]) ==> p[a] < p[b],
        forall|a: int, b: int| 0 <= a < b < r.len() ==> created_le(posts, r[a], r[b]),
        forall|j: int|
            0 <= j < k ==> !chars_lt(posts[picks[i]].created_at@, #[trigger] posts[r[j]].created_at@),
        k < r.len() ==> chars_lt(posts[picks[i]].created_at@, posts[r[k]].created_at@),
    ensures
        arranges(picks.take(i + 1), r.insert(k, picks[i]), p.insert(k, i)),
        forall|a: int, b: int|
            0 <= a < b < r.len() + 1 && same_date(
                posts,
                r.insert(k, picks[i])[a],
                r.insert(k, picks[i])[b],
            ) ==> p.insert(k, i)[a] < p.insert(k, i)[b],
{
    let r2 = r.insert(k, picks[i]);
    let p2 = p.insert(k, i);
    let t2 = picks.take(i + 1);
    let cx = posts[picks[i]].created_at@;
    assert forall|a: int| 0 <= a < p2.len() implies 0 <= #[trigger] p2[a] < t2.len() && r2[a]
        == t2[p2[a]] by {
        if a > k {
            assert(p2[a] == p[a - 1]);
            assert(picks.take(i)[p[a - 1]] == t2[p[a - 1]]);
        } else if a < k {
            assert(picks.take(i)[p[a]] == t2[p[a]]);
        }
    }
    assert forall|a: int, b: int| 0 <= a < b < p2.len() implies #[trigger] p2[a] != #[trigger] p2[b] by {
        if a < k && b > k {
            assert(p[a] != p[b - 1]);
        } else if a > k {
            assert(p[a - 1] != p[b - 1]);
        } else if a == k {
            assert(p2[b] == p[b - 1]);
        }
    }
    assert forall|a: int, b: int|
        0 <= a < b < r.len() + 1 && same_date(posts, r2[a], r2[b]) implies p2[a] < p2[b] by {
        if b < k {
        } else if b == k {
            assert(p2[a] == p[a]);
        } else if a < k {
            assert(p2[a] == p[a] && p2[b] == p[b - 1]);
        } else if a == k {
            let cb = posts[r[b - 1]].created_at@;
            let ck = posts[r[k]].created_at@;
            assert(chars_lt(cx, ck));
            if b - 1 > k {
                assert(created_le(posts, r[k], r[b - 1]));
                if chars_lt(ck, cb) {
                    lemma_chars_lt_trans(cx, ck, cb);
                }
            }
            assert(chars_lt(cx, cb));
            assert(r2[b] == r[b - 1]);
            lemma_chars_lt_asym(cx, cb);
        } else {
            assert(p2[a] == p[a - 1] && p2[b] == p[b - 1]);
        }
    }
}

/// Indices of the first post with each id, in order.
pub open spec fn first_occurrences(ids: Seq<i64>) -> Seq<int>
    decreases ids.len(),
{
    if ids.len() == 0 {
        Seq::empty()
    } else {
        let prev = first_occurrences(ids.drop_last());
        if ids.drop_last().contains(ids.last()) {
            prev
        } else {
            prev.push(ids.len() - 1)
        }
    }
}

/// Indices of the first post with each id.
fn first_with_each_id(posts: &[Post]) -> (r: Vec<usize>)
    ensures
        r@.map_values(|x: usize| x as int) == first_occurrences(post_ids(posts@)),
{
    let ghost ids = post_ids(posts@);
    let mut r: Vec<usize> = Vec::new();
    let mut seen: Vec<i64> = Vec::new();
    for i in 0..posts.len()
        invariant
            ids == post_ids(posts@),
            r@.map_values(|x: usize| x as int) == first_occurrences(ids.take(i as int)),
            forall|v: i64| #[trigger] seen@.contains(v) <==> ids.take(i as int).contains(v),
    {
        let id = posts[i].id;
        let mut dup = false;
        for q in 0..seen.len()
            invariant
                dup <==> exists|t: int| 0 <= t < q && seen@[t] == id,
        {
            if seen[q] == id {
                dup = true;
            }
        }
        let ghost t = ids.take(i + 1);
        let ghost s0 = seen@;
        let ghost r0 = r@;
        proof {
            assert(t.drop_last() =~= ids.take(i as int));
            assert(t.last() == id);
            assert(dup == s0.contains(id));
        }
        if !dup {
            seen.push(id);
            r.push(i);
            assert(r@.map_values(|x: usize| x as int) =~= r0.map_values(|x: usize| x as int).push(i as int));
        }
        proof {
            assert forall|v: i64| #[trigger] seen@.contains(v) <==> t.contains(v) by {
                if t.contains(v) {
                    let w = choose|w: int| 0 <= w < t.len() && t[w] == v;
                    if w < i {
                        assert(ids.take(i as int)[w] == v);
                        assert(s0.contains(v));
                        let z = choose|z: int| 0 <= z < s0.len() && s0[z] == v;
                        assert(seen@[z] == v);
                    } else if !dup {
                        assert(seen@[s0.len() as int] == v);
                    } else {
                        assert(s0.contains(v));
                        let z = choose|z: int| 0 <= z < s0.len() && s0[z] == v;
                        assert(seen@[z] == v);
                    }
                }
                if seen@.contains(v) {
                    let z = choose|z: int| 0 <= z < seen@.len() && seen@[z] == v;
                    if z < s0.len() {
                        assert(s0[z] == v);
                        assert(s0.contains(v));
                        assert(ids.take(i as int).contains(v));
                        let w = choose|w: int| 0 <= w < i && ids.take(i as int)[w] == v;
                        assert(t[w] == v);
                    } else {
                        assert(t[i as int] == v);
                    }
                }
            }
        }
    }
    proof {
        assert(ids.take(ids.len() as int) =~= ids);
    }
    r
}

/// The selection of examples: for at most `limit` posts, the first post with
/// each id; otherwise, for some valid grouping into buckets, the round-robin
/// picks stably sorted by creation date (picks of the same date keep the
/// order in which they were picked).
pub open spec fn diverse_selection(posts: Seq<Post>, limit: nat, sel: Seq<int>) -> bool {
    if posts.len() <= limit {
        sel == first_occurrences(post_ids(posts))
    } else {
        exists|buckets: Seq<Seq<int>>|
            #[trigger] valid_buckets(posts, buckets) && sel.to_multiset() == rounds_from(
                buckets,
                post_ids(posts),
                0,
                Seq::empty(),
                limit,
            ).to_multiset() && stable_date_sort(
                posts,
                rounds_from(buckets, post_ids(posts), 0, Seq::empty(), limit),
                sel,
            )
    }
}

/// Indices of diverse examples among the posts: spread across repositories
/// by round-robin over per-repository buckets (largest first), alternating
/// between the shortest and longest remaining posts, never the same id
/// twice, then ordered by creation date (picks of the same date in the
/// order they were picked). With no more posts than `limit`, the first post
/// with each id, in order.
pub fn select_diverse_indices(posts: &[Post], limit: usize) -> (sel: Vec<usize>)
    ensures
        diverse_selection(posts@, limit as nat, sel@.map_values(|x: usize| x as int)),
        distinct_picks(post_ids(posts@), sel@.map_values(|x: usize| x as int)),
        sel@.len() <= limit,
{
    if posts.len() <= limit {
        let first = first_with_each_id(posts);
        proof {
            lemma_selection_facts(posts@, limit as nat, first@.map_values(|x: usize| x as int));
        }
        return first;
    }
    let wc = body_word_counts(posts);
    let grouped = group_by_repo(posts, &wc);
    let ghost gv = bucket_views(grouped@);
    let buckets = sort_by_count_desc(grouped);
    let ghost bv = bucket_views(buckets@);
    let mut ids: Vec<i64> = Vec::new();
    for i in 0..posts.len()
        invariant
            ids@ == post_ids(posts@).take(i as int),
    {
        ids.push(posts[i].id);
        assert(ids@ =~= post_ids(posts@).take(i + 1));
    }
    proof {
        assert(ids@ =~= post_ids(posts@));
        lemma_sorted_buckets_valid(posts@, grouped@, buckets@);
    }
    proof {
        lemma_valid_buckets_range(posts@, bv);
        assert forall|b: int, j: int|
            0 <= b < buckets@.len() && 0 <= j < buckets@[b]@.len() implies #[trigger] buckets@[b]@[j]
                < ids@.len() by {
            assert(bv[b][j] == buckets@[b]@[j] as int);
        }
    }
    let picked = round_robin(&buckets, &ids, limit);
    let ghost pv = picked@.map_values(|x: usize| x as int);
    proof {
        lemma_valid_buckets_range(posts@, bv);
        lemma_rounds_distinct(bv, post_ids(posts@), 0, Seq::empty(), limit as nat);
        assert forall|j: int| 0 <= j < picked@.len() implies #[trigger] picked@[j] < posts@.len() by {
            assert(pv[j] == picked@[j] as int);
        }
    }
    let sel = sort_by_created(posts, picked);
    proof {
        let sv = sel@.map_values(|x: usize| x as int);
        assert(sv == ints_of(sel@));
        assert(pv == ints_of(picked@));
        assert(valid_buckets(posts@, bv));
        assert(pv == rounds_from(bv, post_ids(posts@), 0, Seq::empty(), limit as nat));
        assert(diverse_selection(posts@, limit as nat, sv));
        lemma_selection_facts(posts@, limit as nat, sv);
    }
    sel
}

/// Diverse examples among the posts (see `select_diverse_indices`).
pub fn select_diverse_examples(posts: &[Post], limit: usize) -> (r: Vec<&Post>)
    ensures
        exists|sel: Seq<int>|
            diverse_selection(posts@, limit as nat, sel) && r@.len() == sel.len() && forall|j: int|
                0 <= j < sel.len() ==> 0 <= #[trigger] sel[j] < posts@.len() && r@[j] == posts@[sel[j]],
{
    let sel = select_diverse_indices(posts, limit);
    let ghost sv = sel@.map_values(|x: usize| x as int);
    proof {
        lemma_selection_facts(posts@, limit as nat, sv);
    }
    let mut r: Vec<&Post> = Vec::new();
    for k in 0..sel.len()
        invariant
            sv == sel@.map_values(|x: usize| x as int),
            forall|j: int| 0 <= j < sv.len() ==> 0 <= #[trigger] sv[j] < posts@.len(),
            r@.len() == k,
            forall|j: int| 0 <= j < k ==> r@[j] == posts@[#[trigger] sv[j]],
    {
        assert(sv[k as int] == sel@[k as int] as int);
        r.push(&posts[sel[k]]);
    }
    r
}


/// Every post of a bucket is a valid index.
pub open spec fn entries_in_range(buckets: Seq<Seq<int>>, n: int) -> bool {
    forall|b: int, j: int|
        0 <= b < buckets.len() && 0 <= j < buckets[b].len() ==> 0 <= #[trigger] buckets[b][j] < n
}

/// A selection of valid indices whose posts have pairwise different ids.
pub open spec fn distinct_picks(ids: Seq<i64>, sel: Seq<int>) -> bool {
    &&& forall|j: int| 0 <= j < sel.len() ==> 0 <= #[trigger] sel[j] < ids.len()
    &&& forall|a: int, b: int| 0 <= a < b < sel.len() ==> ids[#[trigger] sel[a]] != ids[#[trigger] sel[b]]
}

/// A round keeps the picks valid and their ids different.
pub proof fn lemma_round_distinct(
    buckets: Seq<Seq<int>>,
    ids: Seq<i64>,
    r: nat,
    i: int,
    sel: Seq<int>,
    limit: nat,
)
    requires
        entries_in_range(buckets, ids.len() as int),
        distinct_picks(ids, sel),
    ensures
        distinct_picks(ids, round_from(buckets, ids, r, i, sel, limit)),
    decreases buckets.len() - i,
{
    if i >= buckets.len() || i < 0 || sel.len() >= limit {
    } else {
        match offered(buckets, r, i) {
            Some(p) => if !id_taken(ids, sel, ids[p]) {
                let b = buckets[i];
                if r % 2 == 0 {
                    assert(p == buckets[i][r as int]);
                } else {
                    assert(p == buckets[i][b.len() - 1 - r]);
                }
                let s2 = sel.push(p);
                assert forall|a: int, c: int| 0 <= a < c < s2.len() implies ids[#[trigger] s2[a]]
                    != ids[#[trigger] s2[c]] by {
                    if c == sel.len() {
                        assert(s2[a] == sel[a]);
                        if ids[sel[a]] == ids[p] {
                            assert(id_taken(ids, sel, ids[p]));
                        }
                    } else {
                        assert(s2[a] == sel[a] && s2[c] == sel[c]);
                    }
                }
                lemma_round_distinct(buckets, ids, r, i + 1, s2, limit);
            } else {
                lemma_round_distinct(buckets, ids, r, i + 1, sel, limit);
            },
            None => lemma_round_distinct(buckets, ids, r, i + 1, sel, limit),
        }
    }
}

/// The whole selection keeps the picks valid, their ids different, and
/// their number within `limit`.
pub proof fn lemma_rounds_distinct(
    buckets: Seq<Seq<int>>,
    ids: Seq<i64>,
    r: nat,
    sel: Seq<int>,
    limit: nat,
)
    requires
        entries_in_range(buckets, ids.len() as int),
        distinct_picks(ids, sel),
        sel.len() <= limit,
    ensures
        distinct_picks(ids, rounds_from(buckets, ids, r, sel, limit)),
        rounds_from(buckets, ids, r, sel, limit).len() <= limit,
    decreases limit - sel.len(),
{
    if sel.len() < limit {
        let next = round_from(buckets, ids, r, 0, sel, limit);
        lemma_round_distinct(buckets, ids, r, 0, sel, limit);
        lemma_round_grows(buckets, ids, r, 0, sel, limit);
        if !(next.len() <= sel.len() || next.len() > limit) {
            lemma_rounds_distinct(buckets, ids, r + 1, next, limit);
        }
    }
}

/// The first post of each id: valid indices with different ids.
pub proof fn lemma_first_occurrences_distinct(ids: Seq<i64>)
    ensures
        distinct_picks(ids, first_occurrences(ids)),
        first_occurrences(ids).len() <= ids.len(),
    decreases ids.len(),
{
    if ids.len() > 0 {
        let d = ids.drop_last();
        lemma_first_occurrences_distinct(d);
        let prev = first_occurrences(d);
        assert forall|j: int| 0 <= j < prev.len() implies ids[#[trigger] prev[j]] == d[prev[j]] by {}
        if !d.contains(ids.last()) {
            let s2 = prev.push(ids.len() - 1);
            assert forall|a: int, c: int| 0 <= a < c < s2.len() implies ids[#[trigger] s2[a]]
                != ids[#[trigger] s2[c]] by {
                if c == prev.len() {
                    assert(s2[a] == prev[a]);
                    if ids[prev[a]] == ids.last() {
                        assert(d[prev[a]] == ids.last());
                    }
                } else {
                    assert(s2[a] == prev[a] && s2[c] == prev[c]);
                    assert(d[prev[a]] != d[prev[c]]);
                }
            }
        } else {
            assert forall|a: int, c: int| 0 <= a < c < prev.len() implies ids[#[trigger] prev[a]]
                != ids[#[trigger] prev[c]] by {
                assert(d[prev[a]] != d[prev[c]]);
            }
        }
    }
}

/// Sorting the grouped buckets by size gives valid buckets.
proof fn lemma_sorted_buckets_valid(posts: Seq<Post>, grouped: Seq<Vec<usize>>, buckets: Seq<Vec<usize>>)
    requires
        ({
            let gv = bucket_views(grouped);
            &&& forall|b: int| 0 <= b < gv.len() ==> bucket_ok(posts, #[trigger] gv[b])
            &&& forall|b1: int, b2: int|
                0 <= b1 < b2 < gv.len() ==> repo_key(posts[gv[b1][0]]) != repo_key(posts[gv[b2][0]])
            &&& forall|i: int| 0 <= i < posts.len() ==> #[trigger] in_buckets(gv, i)
        }),
        buckets.to_multiset() == grouped.to_multiset(),
        buckets.len() == grouped.len(),
        crate::order::sorted_by_count_desc(buckets),
    ensures
        valid_buckets(posts, bucket_views(buckets)),
{
    let gv = bucket_views(grouped);
    let bv = bucket_views(buckets);
    lemma_permutation_elements(grouped, buckets);
    assert forall|b: int| 0 <= b < bv.len() implies bucket_ok(posts, #[trigger] bv[b]) by {
        assert(grouped.contains(buckets[b]));
        let g = choose|g: int| 0 <= g < grouped.len() && grouped[g] == buckets[b];
        assert(gv[g] == bv[b]);
    }
    let key = |v: Vec<usize>| repo_key(posts[v@[0] as int]);
    assert forall|a: int, c: int| 0 <= a < c < grouped.len() implies key(grouped[a]) != key(grouped[c]) by {
        assert(gv[a][0] == grouped[a]@[0] as int);
        assert(gv[c][0] == grouped[c]@[0] as int);
    }
    lemma_permutation_distinct(grouped, buckets, key);
    assert forall|b1: int, b2: int|
        0 <= b1 < b2 < bv.len() implies repo_key(posts[bv[b1][0]]) != repo_key(posts[bv[b2][0]]) by {
        assert(bucket_ok(posts, bv[b1]));
        assert(bucket_ok(posts, bv[b2]));
        assert(bv[b1][0] == buckets[b1]@[0] as int);
        assert(bv[b2][0] == buckets[b2]@[0] as int);
        assert(key(buckets[b1]) != key(buckets[b2]));
    }
    assert forall|i: int| 0 <= i < posts.len() implies #[trigger] in_buckets(bv, i) by {
        assert(in_buckets(gv, i));
        let (g, j) = choose|g: int, j: int| 0 <= g < gv.len() && 0 <= j < gv[g].len() && #[trigger] gv[g][j] == i;
        assert(buckets.contains(grouped[g]));
        let b = choose|b: int| 0 <= b < buckets.len() && buckets[b] == grouped[g];
        assert(bv[b] == gv[g]);
        assert(bv[b][j] == i);
    }
    assert forall|b1: int, b2: int| 0 <= b1 < b2 < bv.len() implies bv[b1].len() >= bv[b2].len() by {
        assert(buckets[b1].count_key() >= buckets[b2].count_key());
    }
}

/// Valid buckets hold only valid indices.
proof fn lemma_valid_buckets_range(posts: Seq<Post>, buckets: Seq<Seq<int>>)
    requires
        valid_buckets(posts, buckets),
    ensures
        entries_in_range(buckets, posts.len() as int),
{
    assert forall|b: int, j: int| 0 <= b < buckets.len() && 0 <= j < buckets[b].len() implies 0
        <= #[trigger] buckets[b][j] < posts.len() by {
        assert(bucket_ok(posts, buckets[b]));
    }
}

/// A selection holds valid indices of posts with different ids, no more
/// than `limit` of them.
pub proof fn lemma_selection_facts(posts: Seq<Post>, limit: nat, sel: Seq<int>)
    requires
        diverse_selection(posts, limit, sel),
    ensures
        distinct_picks(post_ids(posts), sel),
        sel.len() <= limit,
{
    let ids = post_ids(posts);
    if posts.len() <= limit {
        lemma_first_occurrences_distinct(ids);
    } else {
        let buckets = choose|buckets: Seq<Seq<int>>|
            #[trigger] valid_buckets(posts, buckets) && sel.to_multiset() == rounds_from(
                buckets,
                ids,
                0,
                Seq::empty(),
                limit,
            ).to_multiset() && stable_date_sort(
                posts,
                rounds_from(buckets, ids, 0, Seq::empty(), limit),
                sel,
            );
        lemma_valid_buckets_range(posts, buckets);
        let picks = rounds_from(buckets, ids, 0, Seq::empty(), limit);
        lemma_rounds_distinct(buckets, ids, 0, Seq::empty(), limit);
        lemma_permutation_elements(picks, sel);
        assert forall|j: int| 0 <= j < sel.len() implies 0 <= #[trigger] sel[j] < ids.len() by {
            assert(picks.contains(sel[j]));
        }
        let key = |x: int| ids[x];
        assert forall|a: int, c: int| 0 <= a < c < picks.len() implies key(picks[a]) != key(picks[c]) by {}
        lemma_permutation_distinct(picks, sel, key);
        assert forall|a: int, c: int| 0 <= a < c < sel.len() implies ids[#[trigger] sel[a]] != ids[#[trigger] sel[c]] by {
            assert(key(sel[a]) != key(sel[c]));
        }
        vstd::seq_lib::to_multiset_len(sel);
        vstd::seq_lib::to_multiset_len(picks);
    }
}

} // verus!
