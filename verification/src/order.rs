//! Ordered identifier sequences and first-match lookup.
//!
//! Signatures are kept as strictly increasing sequences of component ids, so
//! that set equality of two signatures coincides with sequence equality; row
//! and column lookups are first-match searches over id sequences.
use vstd::prelude::*;

verus! {

/// Strictly increasing: sorted with no duplicates.
pub open spec fn sorted_strict(s: Seq<u64>) -> bool {
    forall|i: int, j: int| 0 <= i < j < s.len() ==> s[i] < s[j]
}

/// No two positions hold the same value.
pub open spec fn distinct(s: Seq<u64>) -> bool {
    forall|i: int, j: int| 0 <= i < j < s.len() ==> s[i] != s[j]
}

/// Index of the first occurrence of `x` in `s`, or -1 when absent.
pub open spec fn find_u64(s: Seq<u64>, x: u64) -> int
    decreases s.len(),
{
    if s.len() == 0 {
        -1
    } else if s[0] == x {
        0
    } else if find_u64(s.drop_first(), x) < 0 {
        -1
    } else {
        find_u64(s.drop_first(), x) + 1
    }
}

/// Index of the first pair in `s` whose key is `k`, or -1 when absent.
pub open spec fn find_key<V>(s: Seq<(u64, V)>, k: u64) -> int
    decreases s.len(),
{
    if s.len() == 0 {
        -1
    } else if s[0].0 == k {
        0
    } else if find_key(s.drop_first(), k) < 0 {
        -1
    } else {
        find_key(s.drop_first(), k) + 1
    }
}

/// Whether some pair of `s` has key `k`.
pub open spec fn has_key<V>(s: Seq<(u64, V)>, k: u64) -> bool {
    exists|i: int| 0 <= i < s.len() && (#[trigger] s[i]).0 == k
}

/// Pairwise distinct keys.
pub open spec fn distinct_keys<V>(s: Seq<(u64, V)>) -> bool {
    forall|i: int, j: int| 0 <= i < j < s.len() ==> s[i].0 != s[j].0
}

pub proof fn lemma_find_u64(s: Seq<u64>, x: u64)
    ensures
        find_u64(s, x) == -1 <==> !s.contains(x),
        s.contains(x) ==> 0 <= find_u64(s, x) < s.len() && s[find_u64(s, x)] == x && forall|k: int|
            0 <= k < find_u64(s, x) ==> s[k] != x,
    decreases s.len(),
{
    if s.len() > 0 {
        let t = s.drop_first();
        lemma_find_u64(t, x);
        assert(forall|k: int| 0 <= k < t.len() ==> t[k] == s[k + 1]);
        if s[0] != x {
            if s.contains(x) {
                let w = choose|w: int| 0 <= w < s.len() && s[w] == x;
                assert(t[w - 1] == x);
                assert(t.contains(x));
            }
            if t.contains(x) {
                let ft = find_u64(t, x);
                assert(s[ft + 1] == t[ft]);
                assert(s.contains(x));
                assert forall|k: int| 0 <= k < ft + 1 implies s[k] != x by {
                    if k > 0 {
                        assert(t[k - 1] != x);
                        assert(t[k - 1] == s[k]);
                    }
                }
            }
        } else {
            assert(s.contains(x));
        }
    }
}

/// A position that matches with no earlier match is the found position.
pub proof fn lemma_find_u64_at(s: Seq<u64>, x: u64, i: int)
    requires
        0 <= i < s.len(),
        s[i] == x,
        forall|k: int| 0 <= k < i ==> s[k] != x,
    ensures
        find_u64(s, x) == i,
{
    lemma_find_u64(s, x);
    assert(s.contains(x));
    let f = find_u64(s, x);
    if f < i {
        assert(s[f] == x);
    }
    if f > i {
        assert(s[i] != x);
    }
}

pub proof fn lemma_find_key<V>(s: Seq<(u64, V)>, k: u64)
    ensures
        find_key(s, k) == -1 <==> !has_key(s, k),
        has_key(s, k) ==> 0 <= find_key(s, k) < s.len() && s[find_key(s, k)].0 == k && forall|
            j: int,
        | 0 <= j < find_key(s, k) ==> s[j].0 != k,
    decreases s.len(),
{
    if s.len() > 0 {
        let t = s.drop_first();
        lemma_find_key(t, k);
        assert(forall|j: int| 0 <= j < t.len() ==> t[j] == s[j + 1]);
        if s[0].0 != k {
            if has_key(s, k) {
                let w = choose|w: int| 0 <= w < s.len() && (#[trigger] s[w]).0 == k;
                assert(t[w - 1].0 == k);
                assert(has_key(t, k));
            }
            if has_key(t, k) {
                let ft = find_key(t, k);
                assert(s[ft + 1] == t[ft]);
                assert(has_key(s, k));
                assert forall|j: int| 0 <= j < ft + 1 implies s[j].0 != k by {
                    if j > 0 {
                        assert(t[j - 1].0 != k);
                        assert(t[j - 1] == s[j]);
                    }
                }
            }
        } else {
            assert(has_key(s, k));
        }
    }
}

pub proof fn lemma_find_key_at<V>(s: Seq<(u64, V)>, k: u64, i: int)
    requires
        0 <= i < s.len(),
        s[i].0 == k,
        forall|j: int| 0 <= j < i ==> s[j].0 != k,
    ensures
        find_key(s, k) == i,
{
    lemma_find_key(s, k);
    assert(has_key(s, k));
    let f = find_key(s, k);
    if f < i {
        assert(s[f].0 == k);
    }
    if f > i {
        assert(s[i].0 != k);
    }
}

/// How appending a pair moves the first match for a key.
pub proof fn lemma_find_key_push<V>(s: Seq<(u64, V)>, p: (u64, V), k: u64)
    ensures
        has_key(s, k) ==> find_key(s.push(p), k) == find_key(s, k),
        !has_key(s, k) && k == p.0 ==> find_key(s.push(p), k) == s.len(),
        !has_key(s, k) && k != p.0 ==> find_key(s.push(p), k) == -1 && !has_key(s.push(p), k),
{
    lemma_find_key(s, k);
    let sp = s.push(p);
    if has_key(s, k) {
        let f = find_key(s, k);
        assert(sp[f] == s[f]);
        assert forall|j: int| 0 <= j < f implies sp[j].0 != k by {
            assert(sp[j] == s[j]);
        }
        lemma_find_key_at(sp, k, f);
    } else if k == p.0 {
        assert(sp[s.len() as int] == p);
        assert forall|j: int| 0 <= j < s.len() implies sp[j].0 != k by {
            assert(sp[j] == s[j]);
        }
        lemma_find_key_at(sp, k, s.len() as int);
    } else {
        if has_key(sp, k) {
            let w = choose|w: int| 0 <= w < sp.len() && (#[trigger] sp[w]).0 == k;
            if w < s.len() {
                assert(s[w] == sp[w]);
                assert(has_key(s, k));
            }
        }
        lemma_find_key(sp, k);
    }
}

/// How removing the pair at position `k` moves the first match for a key,
/// when no key repeats.
pub proof fn lemma_find_key_remove<V>(s: Seq<(u64, V)>, k: int, e: u64)
    requires
        0 <= k < s.len(),
        distinct_keys(s),
    ensures
        e == s[k].0 ==> !has_key(s.remove(k), e) && find_key(s.remove(k), e) == -1,
        e != s[k].0 && has_key(s, e) && find_key(s, e) < k ==> find_key(s.remove(k), e) == find_key(
            s,
            e,
        ),
        e != s[k].0 && has_key(s, e) && find_key(s, e) > k ==> find_key(s.remove(k), e) == find_key(
            s,
            e,
        ) - 1,
        !has_key(s, e) ==> !has_key(s.remove(k), e) && find_key(s.remove(k), e) == -1,
{
    let r = s.remove(k);
    s.remove_ensures(k);
    lemma_find_key(s, e);
    if e == s[k].0 || !has_key(s, e) {
        if has_key(r, e) {
            let w = choose|w: int| 0 <= w < r.len() && (#[trigger] r[w]).0 == e;
            if w < k {
                assert(s[w].0 == e);
                assert(has_key(s, e));
            } else {
                assert(s[w + 1].0 == e);
                assert(has_key(s, e));
            }
        }
        lemma_find_key(r, e);
    } else {
        let f = find_key(s, e);
        assert(s[f].0 == e);
        assert(f != k);
        if f < k {
            assert(r[f] == s[f]);
            assert forall|w: int| 0 <= w < f implies r[w].0 != e by {
                assert(r[w] == s[w]);
            }
            lemma_find_key_at(r, e, f);
        } else {
            assert(r[f - 1] == s[f]);
            assert forall|w: int| 0 <= w < f - 1 implies r[w].0 != e by {
                if w < k {
                    assert(r[w] == s[w]);
                } else {
                    assert(r[w] == s[w + 1]);
                }
            }
            lemma_find_key_at(r, e, f - 1);
        }
    }
}

/// First-match search depends only on the keys of the pairs.
pub proof fn lemma_find_key_same_keys<V1, V2>(a: Seq<(u64, V1)>, b: Seq<(u64, V2)>, k: u64)
    requires
        a.len() == b.len(),
        forall|i: int| 0 <= i < a.len() ==> a[i].0 == b[i].0,
    ensures
        find_key(a, k) == find_key(b, k),
    decreases a.len(),
{
    if a.len() > 0 {
        let ta = a.drop_first();
        let tb = b.drop_first();
        assert(forall|i: int| 0 <= i < ta.len() ==> ta[i] == a[i + 1] && tb[i] == b[i + 1]);
        lemma_find_key_same_keys(ta, tb, k);
    }
}

/// Two strictly sorted id sequences with the same element set are equal:
/// the canonical form of a component set is unique.
pub proof fn lemma_sorted_set_unique(a: Seq<u64>, b: Seq<u64>)
    requires
        sorted_strict(a),
        sorted_strict(b),
        a.to_set() == b.to_set(),
    ensures
        a == b,
    decreases a.len(),
{
    if a.len() == 0 {
        if b.len() > 0 {
            assert(b.to_set().contains(b[0]));
            assert(a.contains(b[0]));
        }
        assert(a =~= b);
    } else {
        if b.len() == 0 {
            assert(a.to_set().contains(a[0]));
            assert(b.contains(a[0]));
        }
        assert(b.to_set().contains(a[0]));
        assert(b.contains(a[0]));
        let ja = choose|j: int| 0 <= j < b.len() && b[j] == a[0];
        if ja > 0 {
            assert(b[0] < b[ja]);
        }
        assert(b[0] <= a[0]);
        assert(a.to_set().contains(b[0]));
        assert(a.contains(b[0]));
        let ia = choose|i: int| 0 <= i < a.len() && a[i] == b[0];
        if ia > 0 {
            assert(a[0] < a[ia]);
        }
        assert(a[0] <= b[0]);
        assert(a[0] == b[0]);
        let ta = a.drop_first();
        let tb = b.drop_first();
        assert(forall|i: int| 0 <= i < ta.len() ==> ta[i] == a[i + 1]);
        assert(forall|i: int| 0 <= i < tb.len() ==> tb[i] == b[i + 1]);
        lemma_sorted_drop_first_set(a);
        lemma_sorted_drop_first_set(b);
        assert(ta.to_set() =~= tb.to_set());
        lemma_sorted_set_unique(ta, tb);
        assert forall|i: int| 0 <= i < a.len() implies a[i] == b[i] by {
            if i > 0 {
                assert(ta[i - 1] == a[i]);
                assert(tb[i - 1] == b[i]);
            }
        }
        assert(a =~= b);
    }
}

/// Dropping the head of a strictly sorted sequence removes exactly the head
/// from its element set.
pub proof fn lemma_sorted_drop_first_set(a: Seq<u64>)
    requires
        sorted_strict(a),
        a.len() > 0,
    ensures
        sorted_strict(a.drop_first()),
        a.drop_first().to_set() == a.to_set().remove(a[0]),
{
    let t = a.drop_first();
    assert(forall|i: int| 0 <= i < t.len() ==> t[i] == a[i + 1]);
    assert forall|x: u64| t.to_set().contains(x) implies a.to_set().remove(a[0]).contains(x) by {
        let w = choose|w: int| 0 <= w < t.len() && t[w] == x;
        assert(a[w + 1] == x);
        assert(a.contains(x));
        assert(a[0] < a[w + 1]);
    }
    assert forall|x: u64| a.to_set().remove(a[0]).contains(x) implies t.to_set().contains(x) by {
        let w = choose|w: int| 0 <= w < a.len() && a[w] == x;
        assert(w != 0);
        assert(t[w - 1] == x);
        assert(t.contains(x));
    }
    assert(t.to_set() =~= a.to_set().remove(a[0]));
}

/// Linear search for `x` in `v`, reporting the first matching index.
pub fn find_index(v: &Vec<u64>, x: u64) -> (r: Option<usize>)
    ensures
        match r {
            Some(i) => i < v@.len() && v@[i as int] == x && find_u64(v@, x) == i && v@.contains(x),
            None => !v@.contains(x) && find_u64(v@, x) == -1,
        },
{
    let mut i: usize = 0;
    while i < v.len()
        invariant
            i <= v@.len(),
            forall|k: int| 0 <= k < i ==> v@[k] != x,
        decreases v@.len() - i,
    {
        if v[i] == x {
            proof {
                lemma_find_u64_at(v@, x, i as int);
            }
            return Some(i);
        }
        i = i + 1;
    }
    proof {
        if v@.contains(x) {
            let w = choose|w: int| 0 <= w < v@.len() && v@[w] == x;
            assert(v@[w] != x);
        }
        lemma_find_u64(v@, x);
    }
    None
}

/// Linear search among pairs for the first one keyed by `k`.
pub fn find_key_index<V>(v: &Vec<(u64, V)>, k: u64) -> (r: Option<usize>)
    ensures
        match r {
            Some(i) => i < v@.len() && v@[i as int].0 == k && find_key(v@, k) == i && has_key(
                v@,
                k,
            ),
            None => !has_key(v@, k) && find_key(v@, k) == -1,
        },
{
    let mut i: usize = 0;
    while i < v.len()
        invariant
            i <= v@.len(),
            forall|j: int| 0 <= j < i ==> v@[j].0 != k,
        decreases v@.len() - i,
    {
        if v[i].0 == k {
            proof {
                lemma_find_key_at(v@, k, i as int);
            }
            return Some(i);
        }
        i = i + 1;
    }
    proof {
        if has_key(v@, k) {
            let w = choose|w: int| 0 <= w < v@.len() && (#[trigger] v@[w]).0 == k;
            assert(v@[w].0 != k);
        }
        lemma_find_key(v@, k);
    }
    None
}

/// Whether `x` occurs in `v`.
pub fn ids_contain(v: &Vec<u64>, x: u64) -> (r: bool)
    ensures
        r <==> v@.contains(x),
{
    match find_index(v, x) {
        Some(_) => true,
        None => false,
    }
}

/// Whether two id vectors hold the same sequence.
pub fn ids_equal(a: &Vec<u64>, b: &Vec<u64>) -> (r: bool)
    ensures
        r <==> a@ == b@,
{
    if a.len() != b.len() {
        return false;
    }
    let mut i: usize = 0;
    while i < a.len()
        invariant
            a@.len() == b@.len(),
            i <= a@.len(),
            forall|k: int| 0 <= k < i ==> a@[k] == b@[k],
        decreases a@.len() - i,
    {
        if a[i] != b[i] {
            return false;
        }
        i = i + 1;
    }
    proof {
        assert(a@ =~= b@);
    }
    true
}

/// Whether every id of `req` occurs in `sig`.
pub fn ids_subset(req: &Vec<u64>, sig: &Vec<u64>) -> (r: bool)
    ensures
        r <==> req@.to_set() <= sig@.to_set(),
{
    let mut i: usize = 0;
    while i < req.len()
        invariant
            i <= req@.len(),
            forall|k: int| 0 <= k < i ==> sig@.contains(#[trigger] req@[k]),
        decreases req@.len() - i,
    {
        if !ids_contain(sig, req[i]) {
            proof {
                assert(req@.to_set().contains(req@[i as int]));
            }
            return false;
        }
        i = i + 1;
    }
    proof {
        assert forall|x: u64| req@.to_set().contains(x) implies sig@.to_set().contains(x) by {
            let w = choose|w: int| 0 <= w < req@.len() && req@[w] == x;
            assert(sig@.contains(req@[w]));
        }
    }
    true
}

/// Inserts `x` into a strictly sorted vector, keeping it strictly sorted;
/// inserting an id that is already present leaves the vector unchanged.
pub fn insert_sorted(v: &mut Vec<u64>, x: u64)
    requires
        sorted_strict(old(v)@),
    ensures
        sorted_strict(final(v)@),
        final(v)@.to_set() == old(v)@.to_set().insert(x),
{
    let mut p: usize = 0;
    while p < v.len() && v[p] < x
        invariant
            p <= v@.len(),
            sorted_strict(v@),
            v@ == old(v)@,
            forall|k: int| 0 <= k < p ==> v@[k] < x,
        decreases v@.len() - p,
    {
        p = p + 1;
    }
    if p < v.len() && v[p] == x {
        proof {
            assert(v@.contains(x));
            assert(v@.to_set() =~= old(v)@.to_set().insert(x));
        }
        return;
    }
    let ghost pre = v@;
    v.insert(p, x);
    proof {
        assert(v@ =~= pre.subrange(0, p as int) + seq![x] + pre.subrange(p as int, pre.len() as int));
        assert forall|i: int, j: int| 0 <= i < j < v@.len() implies v@[i] < v@[j] by {
            if j < p {
                assert(v@[i] == pre[i] && v@[j] == pre[j]);
            } else if i > p {
                assert(v@[i] == pre[i - 1] && v@[j] == pre[j - 1]);
            } else if i < p && j == p {
                assert(v@[i] == pre[i] && v@[j] == x);
            } else if i == p && j > p {
                assert(v@[i] == x && v@[j] == pre[j - 1]);
                assert(p < pre.len() ==> pre[p as int] > x);
                assert(pre[j - 1] >= pre[p as int] || j - 1 == p);
            } else if i < p && j > p {
                assert(v@[i] == pre[i] && v@[j] == pre[j - 1]);
                assert(pre[i] < x);
                assert(p < pre.len() ==> x < pre[p as int]);
                assert(j - 1 >= p);
            }
        }
        assert forall|y: u64| v@.to_set().contains(y) implies pre.to_set().insert(x).contains(y) by {
            let w = choose|w: int| 0 <= w < v@.len() && v@[w] == y;
            if w < p {
                assert(pre[w] == y);
                assert(pre.contains(y));
            } else if w > p {
                assert(pre[w - 1] == y);
                assert(pre.contains(y));
            }
        }
        assert forall|y: u64| pre.to_set().insert(x).contains(y) implies v@.to_set().contains(y) by {
            if y == x {
                assert(v@[p as int] == x);
                assert(v@.contains(x));
            } else {
                let w = choose|w: int| 0 <= w < pre.len() && pre[w] == y;
                if w < p {
                    assert(v@[w] == y);
                } else {
                    assert(v@[w + 1] == y);
                }
                assert(v@.contains(y));
            }
        }
        assert(v@.to_set() =~= pre.to_set().insert(x));
    }
}

/// The strictly sorted sequence holding exactly the ids of `ids`.
pub fn canon_ids(ids: &Vec<u64>) -> (r: Vec<u64>)
    ensures
        sorted_strict(r@),
        r@.to_set() == ids@.to_set(),
{
    let mut r: Vec<u64> = Vec::new();
    let mut i: usize = 0;
    while i < ids.len()
        invariant
            i <= ids@.len(),
            sorted_strict(r@),
            r@.to_set() == ids@.subrange(0, i as int).to_set(),
        decreases ids@.len() - i,
    {
        insert_sorted(&mut r, ids[i]);
        proof {
            let pre = ids@.subrange(0, i as int);
            let post = ids@.subrange(0, i + 1);
            assert(post =~= pre.push(ids@[i as int]));
            assert forall|y: u64| post.to_set().contains(y) implies pre.to_set().insert(
                ids@[i as int],
            ).contains(y) by {
                let w = choose|w: int| 0 <= w < post.len() && post[w] == y;
                if w < pre.len() {
                    assert(pre[w] == y);
                    assert(pre.contains(y));
                }
            }
            assert forall|y: u64| pre.to_set().insert(ids@[i as int]).contains(y) implies post
                .to_set().contains(y) by {
                if y == ids@[i as int] {
                    assert(post[post.len() - 1] == y);
                    assert(post.contains(y));
                } else {
                    let w = choose|w: int| 0 <= w < pre.len() && pre[w] == y;
                    assert(post[w] == y);
                    assert(post.contains(y));
                }
            }
            assert(post.to_set() =~= pre.to_set().insert(ids@[i as int]));
        }
        i = i + 1;
    }
    proof {
        assert(ids@.subrange(0, ids@.len() as int) =~= ids@);
    }
    r
}

/// A copy of strictly sorted `sig` with `x` inserted in order.
pub fn insert_id(sig: &Vec<u64>, x: u64) -> (r: Vec<u64>)
    requires
        sorted_strict(sig@),
    ensures
        sorted_strict(r@),
        r@.to_set() == sig@.to_set().insert(x),
{
    let mut r: Vec<u64> = Vec::new();
    let mut i: usize = 0;
    while i < sig.len()
        invariant
            i <= sig@.len(),
            r@ == sig@.subrange(0, i as int),
        decreases sig@.len() - i,
    {
        r.push(sig[i]);
        proof {
            assert(r@ =~= sig@.subrange(0, i + 1));
        }
        i = i + 1;
    }
    proof {
        assert(r@ =~= sig@);
    }
    insert_sorted(&mut r, x);
    r
}

/// A copy of strictly sorted `sig` with every occurrence of `x` left out.
pub fn remove_id(sig: &Vec<u64>, x: u64) -> (r: Vec<u64>)
    requires
        sorted_strict(sig@),
    ensures
        sorted_strict(r@),
        r@.to_set() == sig@.to_set().remove(x),
{
    let mut r: Vec<u64> = Vec::new();
    let mut i: usize = 0;
    while i < sig.len()
        invariant
            i <= sig@.len(),
            sorted_strict(sig@),
            sorted_strict(r@),
            r@.to_set() == sig@.subrange(0, i as int).to_set().remove(x),
            i < sig@.len() ==> forall|k: int| 0 <= k < r@.len() ==> r@[k] < sig@[i as int],
        decreases sig@.len() - i,
    {
        let ghost pre = r@;
        let ghost spre = sig@.subrange(0, i as int);
        let ghost spost = sig@.subrange(0, i + 1);
        proof {
            assert(spost =~= spre.push(sig@[i as int]));
            assert forall|y: u64| spost.to_set().contains(y) implies spre.to_set().insert(
                sig@[i as int],
            ).contains(y) by {
                let w = choose|w: int| 0 <= w < spost.len() && spost[w] == y;
                if w < spre.len() {
                    assert(spre[w] == y);
                    assert(spre.contains(y));
                }
            }
            assert forall|y: u64| spre.to_set().insert(sig@[i as int]).contains(y) implies spost
                .to_set().contains(y) by {
                if y == sig@[i as int] {
                    assert(spost[spost.len() - 1] == y);
                    assert(spost.contains(y));
                } else {
                    let w = choose|w: int| 0 <= w < spre.len() && spre[w] == y;
                    assert(spost[w] == y);
                    assert(spost.contains(y));
                }
            }
            assert(spost.to_set() =~= spre.to_set().insert(sig@[i as int]));
        }
        if sig[i] != x {
            r.push(sig[i]);
            proof {
                assert forall|y: u64| r@.to_set().contains(y) implies spost.to_set().remove(
                    x,
                ).contains(y) by {
                    let w = choose|w: int| 0 <= w < r@.len() && r@[w] == y;
                    if w < pre.len() {
                        assert(pre[w] == y);
                        assert(pre.contains(y));
                        assert(spre.to_set().remove(x).contains(y));
                    } else {
                        assert(y == sig@[i as int]);
                        assert(spost[spost.len() - 1] == y);
                        assert(spost.contains(y));
                    }
                }
                assert forall|y: u64| spost.to_set().remove(x).contains(y) implies r@
                    .to_set().contains(y) by {
                    if y == sig@[i as int] {
                        assert(r@[r@.len() - 1] == y);
                        assert(r@.contains(y));
                    } else {
                        assert(spre.to_set().remove(x).contains(y));
                        assert(pre.to_set().contains(y));
                        let w = choose|w: int| 0 <= w < pre.len() && pre[w] == y;
                        assert(r@[w] == y);
                        assert(r@.contains(y));
                    }
                }
                assert(r@.to_set() =~= spost.to_set().remove(x));
            }
        } else {
            proof {
                assert(r@.to_set() =~= spost.to_set().remove(x));
            }
        }
        proof {
            if i + 1 < sig@.len() {
                assert forall|k: int| 0 <= k < r@.len() implies r@[k] < sig@[i + 1] by {
                    if k < pre.len() {
                        assert(pre[k] < sig@[i as int]);
                    }
                    assert(sig@[i as int] < sig@[i + 1]);
                }
            }
        }
        i = i + 1;
    }
    proof {
        assert(sig@.subrange(0, sig@.len() as int) =~= sig@);
    }
    r
}

/// Copies a byte vector.
pub fn copy_bytes(v: &Vec<u8>) -> (r: Vec<u8>)
    ensures
        r@ == v@,
{
    let mut r: Vec<u8> = Vec::new();
    let mut i: usize = 0;
    while i < v.len()
        invariant
            i <= v@.len(),
            r@ == v@.subrange(0, i as int),
        decreases v@.len() - i,
    {
        r.push(v[i]);
        proof {
            assert(r@ =~= v@.subrange(0, i + 1));
        }
        i = i + 1;
    }
    proof {
        assert(r@ =~= v@);
    }
    r
}

/// Copies an id vector.
pub fn copy_ids(v: &Vec<u64>) -> (r: Vec<u64>)
    ensures
        r@ == v@,
{
    let mut r: Vec<u64> = Vec::new();
    let mut i: usize = 0;
    while i < v.len()
        invariant
            i <= v@.len(),
            r@ == v@.subrange(0, i as int),
        decreases v@.len() - i,
    {
        r.push(v[i]);
        proof {
            assert(r@ =~= v@.subrange(0, i + 1));
        }
        i = i + 1;
    }
    proof {
        assert(r@ =~= v@);
    }
    r
}

} // verus!
