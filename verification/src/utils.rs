use vstd::prelude::*;
use vstd::seq_lib::lemma_multiset_commutative;
use crate::route::Route;
use crate::subsequence::Subsequence;

verus! {

/// Relies on `rand::Rng::gen_range` over `start..end` on the thread-local
/// generator: the drawn value lies in the half-open range; an empty range
/// would make the call panic, so it is excluded here.
#[verifier::external_body]
pub(crate) fn rand_in_range(start: usize, end: usize) -> (r: usize)
    requires
        start < end,
    ensures
        start <= r < end,
{
    rand::Rng::gen_range(&mut rand::thread_rng(), start..end)
}

/// Relies on `rand::seq::SliceRandom::shuffle`: a Fisher-Yates shuffle
/// that reorders the elements in place and neither adds nor drops one.
#[verifier::external_body]
pub(crate) fn shuffle_vec(data: &mut Vec<usize>)
    ensures
        final(data)@.to_multiset() == old(data)@.to_multiset(),
{
    rand::seq::SliceRandom::shuffle(&mut data[..], &mut rand::thread_rng())
}

/// Relies on `rand::seq::SliceRandom::choose`: `None` exactly on an empty
/// slice, otherwise some element of the slice.
#[verifier::external_body]
pub(crate) fn choose_elem(data: &Vec<usize>) -> (r: Option<usize>)
    ensures
        match r {
            Some(v) => data@.contains(v),
            None => data@.len() == 0,
        },
{
    rand::seq::SliceRandom::choose(&data[..], &mut rand::thread_rng()).copied()
}

/// A value drawn from the half-open range `[start, end)`; an empty range
/// yields its start.
pub fn get_random_elem_from_range(start: usize, end: usize) -> (r: usize)
    ensures
        start < end ==> start <= r < end,
        start >= end ==> r == start,
{
    if start < end {
        rand_in_range(start, end)
    } else {
        start
    }
}

/// A fresh copy of `vec[lo..hi]`.
pub(crate) fn copy_range(vec: &Vec<usize>, lo: usize, hi: usize) -> (r: Vec<usize>)
    requires
        lo <= hi <= vec@.len(),
    ensures
        r@ == vec@.subrange(lo as int, hi as int),
{
    let mut r: Vec<usize> = Vec::new();
    let mut i: usize = lo;
    while i < hi
        invariant
            lo <= i <= hi <= vec@.len(),
            r@ == vec@.subrange(lo as int, i as int),
        decreases hi - i,
    {
        r.push(vec[i]);
        proof {
            assert(vec@.subrange(lo as int, i + 1) =~= vec@.subrange(lo as int, i as int).push(
                vec@[i as int],
            ));
        }
        i = i + 1;
    }
    r
}

/// A random reordering of `vec`; it holds exactly the elements of `vec`,
/// with no guarantee that the order actually changes.
pub fn random_permutation(vec: &Vec<usize>) -> (r: Vec<usize>)
    ensures
        r@.to_multiset() == vec@.to_multiset(),
        r@.len() == vec@.len(),
{
    let mut this_vec: Vec<usize> = vec.clone();
    proof {
        assert(this_vec@ =~= vec@);
    }
    shuffle_vec(&mut this_vec);
    proof {
        this_vec@.to_multiset_ensures();
        vec@.to_multiset_ensures();
    }
    this_vec
}

/// The vector `[0, 1, ..., k - 1]`.
pub(crate) fn range_vec(k: usize) -> (r: Vec<usize>)
    ensures
        r@.len() == k,
        forall|i: int| 0 <= i < k ==> r@[i] == i,
{
    let mut r: Vec<usize> = Vec::new();
    let mut i: usize = 0;
    while i < k
        invariant
            0 <= i <= k,
            r@.len() == i,
            forall|j: int| 0 <= j < i ==> r@[j] == j,
        decreases k - i,
    {
        r.push(i);
        i = i + 1;
    }
    r
}

/// A copy of `data` with the element at `elem_idx` removed.
pub fn remove_elem(data: Vec<usize>, elem_idx: usize) -> (r: Vec<usize>)
    requires
        elem_idx < data@.len(),
    ensures
        r@ == data@.remove(elem_idx as int),
{
    let mut data = data;
    data.remove(elem_idx);
    data
}

/// Does the sequence contain the value?
pub fn is_in(value: usize, elements: &Vec<usize>) -> (r: bool)
    ensures
        r == elements@.contains(value),
{
    let mut i: usize = 0;
    while i < elements.len()
        invariant
            0 <= i <= elements@.len(),
            forall|j: int| 0 <= j < i ==> elements@[j] != value,
        decreases elements@.len() - i,
    {
        if elements[i] == value {
            return true;
        }
        i = i + 1;
    }
    false
}

/// Where the moved element comes to rest: the original position of the
/// target element, corrected by one when the removal happens before it.
pub open spec fn move_target(put_before_idx: int, move_idx: int) -> int {
    if move_idx < put_before_idx {
        put_before_idx - 1
    } else {
        put_before_idx
    }
}

/// `t` is `s` unchanged, or `s` with a single element relocated: the
/// element at some position `m` removed and re-inserted immediately
/// before the element that some position `p` of `[0, s.len() - 1)`
/// named.  Relocation changes the adjacency of at most three edges of
/// the closed tour; in particular it is never an arbitrary reshuffle.
pub open spec fn is_relocation_of(s: Seq<usize>, t: Seq<usize>) -> bool {
    ||| t == s
    ||| exists|p: int, m: int|
        0 <= p < s.len() - 1 && 0 <= m < s.len() && t == #[trigger] s.remove(m).insert(
            move_target(p, m),
            s[m],
        )
}

/// Removing the element at `m` and re-inserting it elsewhere keeps the
/// collection of elements unchanged.
pub proof fn lemma_remove_insert_multiset(s: Seq<usize>, m: int, t: int)
    requires
        0 <= m < s.len(),
        0 <= t <= s.len() - 1,
    ensures
        s.remove(m).insert(t, s[m]).to_multiset() =~= s.to_multiset(),
{
    s.to_multiset_ensures();
    s.remove(m).to_multiset_ensures();
    vstd::seq_lib::to_multiset_insert(s.remove(m), t, s[m]);
    assert(s.contains(s[m]));
    assert(s.to_multiset().count(s[m]) > 0);
}

/// A copy of `data` in which the element at `move_idx` has been moved to
/// stand immediately before the element that `put_before_idx` names.
pub fn change_order(data: &Vec<usize>, put_before_idx: usize, move_idx: usize) -> (r: Vec<usize>)
    requires
        put_before_idx < data@.len(),
        move_idx < data@.len(),
    ensures
        put_before_idx == move_idx ==> r@ == data@,
        put_before_idx != move_idx ==> r@ == data@.remove(move_idx as int).insert(
            move_target(put_before_idx as int, move_idx as int),
            data@[move_idx as int],
        ),
        r@.to_multiset() == data@.to_multiset(),
        r@.len() == data@.len(),
        (data@.no_duplicates() && move_idx != put_before_idx && move_idx + 1 != put_before_idx)
            ==> r@ != data@,
{
    let mut new_data: Vec<usize> = data.clone();
    proof {
        assert(new_data@ =~= data@);
    }
    if put_before_idx != move_idx {
        let move_item: usize = data[move_idx];
        new_data.remove(move_idx);
        let target: usize = if move_idx < put_before_idx {
            put_before_idx - 1
        } else {
            put_before_idx
        };
        new_data.insert(target, move_item);
        proof {
            let m = move_idx as int;
            let t = move_target(put_before_idx as int, m);
            lemma_remove_insert_multiset(data@, m, t);
            data@.remove(m).insert_ensures(t, data@[m]);
            assert(new_data@.len() == data@.len());
            if data@.no_duplicates() && move_idx + 1 != put_before_idx {
                assert(new_data@[t] == data@[m]);
                assert(data@[t] != data@[m]);
            }
        }
    }
    new_data
}

/// Holds of the values that the segment does not contain.
pub open spec fn not_in_seg(seg: Seq<usize>) -> spec_fn(usize) -> bool {
    |x: usize| !seg.contains(x)
}

/// The child that the ordered crossover assembles from parents `a` and `b`
/// and the range `[start, start + len)`: first `b`'s elements inside the
/// range that are absent from `a`'s segment, then `a`'s segment itself,
/// then `b`'s elements after the range absent from the segment, then `b`'s
/// elements before the range absent from the segment.
pub open spec fn ox_child(a: Seq<usize>, b: Seq<usize>, start: int, len: int) -> Seq<usize>
    recommends
        0 <= start,
        0 <= len,
        start + len <= a.len(),
        a.len() == b.len(),
{
    let seg = a.subrange(start, start + len);
    b.subrange(start, start + len).filter(not_in_seg(seg)) + seg + b.subrange(
        start + len,
        b.len() as int,
    ).filter(not_in_seg(seg)) + b.subrange(0, start).filter(not_in_seg(seg))
}

/// Append to `child` the elements of `src` that are absent from `seg`,
/// keeping their order.
fn append_absent(child: &mut Vec<usize>, src: &Vec<usize>, seg: &Vec<usize>)
    ensures
        final(child)@ == old(child)@ + src@.filter(not_in_seg(seg@)),
{
    let ghost orig = child@;
    let mut i: usize = 0;
    proof {
        assert(src@.take(0).filter(not_in_seg(seg@)) =~= Seq::<usize>::empty());
        assert(child@ =~= orig + src@.take(0).filter(not_in_seg(seg@)));
    }
    while i < src.len()
        invariant
            0 <= i <= src@.len(),
            child@ == orig + src@.take(i as int).filter(not_in_seg(seg@)),
        decreases src@.len() - i,
    {
        let elem: usize = src[i];
        proof {
            assert(src@.take(i + 1) =~= src@.take(i as int).push(src@[i as int]));
            src@.take(i as int).lemma_filter_push(elem, not_in_seg(seg@));
        }
        if !is_in(elem, seg) {
            child.push(elem);
        }
        i = i + 1;
    }
    proof {
        assert(src@.take(src@.len() as int) =~= src@);
    }
}

/// Append every element of `src` to `child`, keeping the order.
fn append_all(child: &mut Vec<usize>, src: &Vec<usize>)
    ensures
        final(child)@ == old(child)@ + src@,
{
    let ghost orig = child@;
    let mut i: usize = 0;
    while i < src.len()
        invariant
            0 <= i <= src@.len(),
            child@ == orig + src@.take(i as int),
        decreases src@.len() - i,
    {
        child.push(src[i]);
        proof {
            assert(src@.take(i + 1) =~= src@.take(i as int).push(src@[i as int]));
            assert(child@ =~= orig + src@.take(i + 1));
        }
        i = i + 1;
    }
    proof {
        assert(src@.take(src@.len() as int) =~= src@);
        assert(child@ =~= orig + src@);
    }
}

/// A filtered sequence keeps no duplicates if the source had none.
proof fn lemma_filter_no_dup(s: Seq<usize>, p: spec_fn(usize) -> bool)
    requires
        s.no_duplicates(),
    ensures
        s.filter(p).no_duplicates(),
    decreases s.len(),
{
    reveal(Seq::filter);
    if s.len() > 0 {
        let rest = s.drop_last();
        let last = s.last();
        assert(rest.no_duplicates());
        lemma_filter_no_dup(rest, p);
        if p(last) {
            assert(!rest.contains(last)) by {
                if rest.contains(last) {
                    let j = choose|j: int| 0 <= j < rest.len() && rest[j] == last;
                    assert(s[j] == s[s.len() - 1]);
                    assert(false);
                }
            }
            assert forall|i: int| 0 <= i < rest.filter(p).len() implies rest.filter(p)[i]
                != last by {
                assert(rest.filter(p).contains(rest.filter(p)[i]));
                rest.lemma_filter_contains_rev(p, rest.filter(p)[i]);
            }
            assert(s.filter(p) == rest.filter(p).push(last));
        }
    }
}

/// A filter whose predicate holds of every element keeps the sequence.
proof fn lemma_filter_keeps_all(s: Seq<usize>, p: spec_fn(usize) -> bool)
    requires
        forall|i: int| 0 <= i < s.len() ==> p(#[trigger] s[i]),
    ensures
        s.filter(p) =~= s,
    decreases s.len(),
{
    reveal(Seq::filter);
    if s.len() > 0 {
        let rest = s.drop_last();
        assert(forall|i: int| 0 <= i < rest.len() ==> p(#[trigger] rest[i]));
        lemma_filter_keeps_all(rest, p);
        assert(p(s.last()));
        assert(s.filter(p) =~= rest.push(s.last()));
        assert(rest.push(s.last()) =~= s);
    }
}

/// A value contained in either part is contained in the concatenation.
pub(crate) proof fn lemma_contains_concat<A>(x: Seq<A>, y: Seq<A>, v: A)
    requires
        x.contains(v) || y.contains(v),
    ensures
        (x + y).contains(v),
{
    if x.contains(v) {
        let i = choose|i: int| 0 <= i < x.len() && x[i] == v;
        assert((x + y)[i] == v);
    } else {
        let i = choose|i: int| 0 <= i < y.len() && y[i] == v;
        assert((x + y)[x.len() + i] == v);
    }
}

/// A value contained in a sequence is still contained after a push.
pub(crate) proof fn lemma_push_preserves_contains<A>(s: Seq<A>, pushed: A, v: A)
    requires
        s.contains(v),
    ensures
        s.push(pushed).contains(v),
{
    let i = choose|i: int| 0 <= i < s.len() && s[i] == v;
    assert(s.push(pushed)[i] == v);
}

/// Two duplicate-free sequences over the same set of values hold the same
/// multiset of values.
proof fn lemma_same_set_multiset_eq(u: Seq<usize>, v: Seq<usize>)
    requires
        u.no_duplicates(),
        v.no_duplicates(),
        forall|x: usize| u.contains(x) <==> v.contains(x),
    ensures
        u.to_multiset() =~= v.to_multiset(),
{
    broadcast use vstd::multiset::group_multiset_axioms;

    u.to_multiset_ensures();
    v.to_multiset_ensures();
    u.lemma_multiset_has_no_duplicates();
    v.lemma_multiset_has_no_duplicates();
    assert forall|x: usize| u.to_multiset().count(x) == v.to_multiset().count(x) by {
        if u.contains(x) {
            assert(u.to_multiset().count(x) > 0);
            assert(v.to_multiset().count(x) > 0);
            assert(u.to_multiset().count(x) == 1);
            assert(v.to_multiset().count(x) == 1);
        } else {
            assert(u.to_multiset().count(x) == 0);
            assert(v.to_multiset().count(x) == 0);
        }
    }
}

/// A sequence with the same multiset of values as a permutation of `0..n`
/// is itself a permutation of `0..n`.
pub proof fn lemma_perm_from_multiset(a: Seq<usize>, b: Seq<usize>, n: int)
    requires
        a.to_multiset() == b.to_multiset(),
        crate::route::is_perm_of(a, n),
    ensures
        crate::route::is_perm_of(b, n),
{
    broadcast use vstd::multiset::group_multiset_axioms;

    a.to_multiset_ensures();
    b.to_multiset_ensures();
    a.lemma_multiset_has_no_duplicates();
    assert(forall|x: usize| b.to_multiset().contains(x) ==> b.to_multiset().count(x) == 1);
    b.lemma_multiset_has_no_duplicates_conv();
    assert forall|i: int| 0 <= i < b.len() implies (#[trigger] b[i]) < n by {
        assert(b.contains(b[i]));
        assert(b.to_multiset().count(b[i]) > 0);
        assert(a.to_multiset().count(b[i]) > 0);
        assert(a.contains(b[i]));
        let j = choose|j: int| 0 <= j < a.len() && a[j] == b[i];
        assert(a[j] < n);
    }
    assert forall|v: usize| 0 <= v < n implies b.contains(v) by {
        assert(a.contains(v));
        assert(a.to_multiset().count(v) > 0);
        assert(b.to_multiset().count(v) > 0);
    }
}

/// Permutation invariant of the ordered crossover: when both parents
/// visit every location of `0..n` exactly once, so does the child that
/// `ox_child` assembles, whatever range was drawn.
pub proof fn lemma_ox_child_perm(a: Seq<usize>, b: Seq<usize>, start: int, len: int, n: int)
    requires
        crate::route::is_perm_of(a, n),
        crate::route::is_perm_of(b, n),
        0 <= start,
        0 <= len,
        start + len <= n,
    ensures
        crate::route::is_perm_of(ox_child(a, b, start, len), n),
{
    let seg = a.subrange(start, start + len);
    let p = not_in_seg(seg);
    let bin = b.subrange(start, start + len);
    let baf = b.subrange(start + len, b.len() as int);
    let bbe = b.subrange(0, start);
    let f1 = bin.filter(p);
    let f2 = baf.filter(p);
    let f3 = bbe.filter(p);
    let child = ox_child(a, b, start, len);
    assert(child == f1 + seg + f2 + f3);

    assert(seg.no_duplicates());
    assert(bin.no_duplicates());
    assert(baf.no_duplicates());
    assert(bbe.no_duplicates());
    lemma_filter_no_dup(bin, p);
    lemma_filter_no_dup(baf, p);
    lemma_filter_no_dup(bbe, p);

    // The filtered parts avoid the segment's values.
    assert forall|i: int, j: int| 0 <= i < f1.len() && 0 <= j < seg.len() implies f1[i]
        != seg[j] by {
        bin.lemma_filter_pred(p, i);
        if f1[i] == seg[j] {
            assert(seg.contains(f1[i]));
        }
    }
    assert forall|i: int, j: int| 0 <= i < f2.len() && 0 <= j < seg.len() implies f2[i]
        != seg[j] by {
        baf.lemma_filter_pred(p, i);
        if f2[i] == seg[j] {
            assert(seg.contains(f2[i]));
        }
    }
    assert forall|i: int, j: int| 0 <= i < f3.len() && 0 <= j < seg.len() implies f3[i]
        != seg[j] by {
        bbe.lemma_filter_pred(p, i);
        if f3[i] == seg[j] {
            assert(seg.contains(f3[i]));
        }
    }
    // The filtered parts come from disjoint ranges of the duplicate-free
    // second parent, so they are pairwise disjoint.
    assert forall|i: int, j: int| 0 <= i < f1.len() && 0 <= j < f2.len() implies f1[i] != f2[j] by {
        assert(f1.contains(f1[i]));
        bin.lemma_filter_contains_rev(p, f1[i]);
        assert(f2.contains(f2[j]));
        baf.lemma_filter_contains_rev(p, f2[j]);
        let k1 = choose|k: int| 0 <= k < bin.len() && bin[k] == f1[i];
        let k2 = choose|k: int| 0 <= k < baf.len() && baf[k] == f2[j];
        assert(b[start + k1] == f1[i]);
        assert(b[start + len + k2] == f2[j]);
    }
    assert forall|i: int, j: int| 0 <= i < f1.len() && 0 <= j < f3.len() implies f1[i] != f3[j] by {
        assert(f1.contains(f1[i]));
        bin.lemma_filter_contains_rev(p, f1[i]);
        assert(f3.contains(f3[j]));
        bbe.lemma_filter_contains_rev(p, f3[j]);
        let k1 = choose|k: int| 0 <= k < bin.len() && bin[k] == f1[i];
        let k3 = choose|k: int| 0 <= k < bbe.len() && bbe[k] == f3[j];
        assert(b[start + k1] == f1[i]);
        assert(b[k3] == f3[j]);
    }
    assert forall|i: int, j: int| 0 <= i < f2.len() && 0 <= j < f3.len() implies f2[i] != f3[j] by {
        assert(f2.contains(f2[i]));
        baf.lemma_filter_contains_rev(p, f2[i]);
        assert(f3.contains(f3[j]));
        bbe.lemma_filter_contains_rev(p, f3[j]);
        let k2 = choose|k: int| 0 <= k < baf.len() && baf[k] == f2[i];
        let k3 = choose|k: int| 0 <= k < bbe.len() && bbe[k] == f3[j];
        assert(b[start + len + k2] == f2[i]);
        assert(b[k3] == f3[j]);
    }

    // Assemble: the concatenation stays duplicate-free.
    vstd::seq_lib::lemma_no_dup_in_concat(f1, seg);
    let c1 = f1 + seg;
    assert forall|i: int, j: int| 0 <= i < c1.len() && 0 <= j < f2.len() implies c1[i] != f2[j] by {
        if i < f1.len() {
            assert(c1[i] == f1[i]);
        } else {
            assert(c1[i] == seg[i - f1.len()]);
        }
    }
    vstd::seq_lib::lemma_no_dup_in_concat(c1, f2);
    let c2 = c1 + f2;
    assert forall|i: int, j: int| 0 <= i < c2.len() && 0 <= j < f3.len() implies c2[i] != f3[j] by {
        if i < f1.len() {
            assert(c2[i] == f1[i]);
        } else if i < c1.len() {
            assert(c2[i] == seg[i - f1.len()]);
        } else {
            assert(c2[i] == f2[i - c1.len()]);
        }
    }
    vstd::seq_lib::lemma_no_dup_in_concat(c2, f3);
    assert(child == c2 + f3);
    assert(child.no_duplicates());

    // Every location below `n` appears in the child.
    assert forall|v: usize| 0 <= v < n implies child.contains(v) by {
        if seg.contains(v) {
            lemma_contains_concat(f1, seg, v);
            lemma_contains_concat(c1, f2, v);
            lemma_contains_concat(c2, f3, v);
        } else {
            assert(b.contains(v));
            let j = choose|j: int| 0 <= j < b.len() && b[j] == v;
            if j < start {
                assert(bbe[j] == v);
                bbe.lemma_filter_contains(p, j);
                lemma_contains_concat(c2, f3, v);
            } else if j < start + len {
                assert(bin[j - start] == v);
                bin.lemma_filter_contains(p, j - start);
                lemma_contains_concat(f1, seg, v);
                lemma_contains_concat(c1, f2, v);
                lemma_contains_concat(c2, f3, v);
            } else {
                assert(baf[j - start - len] == v);
                baf.lemma_filter_contains(p, j - start - len);
                lemma_contains_concat(c1, f2, v);
                lemma_contains_concat(c2, f3, v);
            }
        }
    }

    // Every value of the child is a location below `n`.
    assert forall|i: int| 0 <= i < child.len() implies (#[trigger] child[i]) < n by {
        let x = child[i];
        if i < f1.len() {
            assert(x == f1[i]);
            assert(f1.contains(x));
            bin.lemma_filter_contains_rev(p, x);
            let k = choose|k: int| 0 <= k < bin.len() && bin[k] == x;
            assert(b[start + k] == x);
        } else if i < c1.len() {
            assert(x == seg[i - f1.len()]);
            assert(a[start + (i - f1.len())] == x);
        } else if i < c2.len() {
            assert(x == f2[i - c1.len()]);
            assert(f2.contains(x));
            baf.lemma_filter_contains_rev(p, x);
            let k = choose|k: int| 0 <= k < baf.len() && baf[k] == x;
            assert(b[start + len + k] == x);
        } else {
            assert(x == f3[i - c2.len()]);
            assert(f3.contains(x));
            bbe.lemma_filter_contains_rev(p, x);
            let k = choose|k: int| 0 <= k < bbe.len() && bbe[k] == x;
            assert(b[k] == x);
        }
    }

    // The child holds exactly the values of the second parent, once each,
    // so it has exactly `n` elements.
    assert forall|x: usize| child.contains(x) <==> b.contains(x) by {
        if child.contains(x) {
            let i = choose|i: int| 0 <= i < child.len() && child[i] == x;
            assert(x < n);
            assert(b.contains(x));
        }
        if b.contains(x) {
            let i = choose|i: int| 0 <= i < b.len() && b[i] == x;
            assert(x < n);
            assert(child.contains(x));
        }
    }
    lemma_same_set_multiset_eq(child, b);
    child.to_multiset_ensures();
    b.to_multiset_ensures();
    assert(child.len() == b.len());
}

/// Boundary case of the ordered crossover: a range that spans the whole
/// route hands the child exactly the first parent.
pub proof fn lemma_ox_full_range(a: Seq<usize>, b: Seq<usize>, n: int)
    requires
        crate::route::is_perm_of(a, n),
        crate::route::is_perm_of(b, n),
    ensures
        ox_child(a, b, 0, n) =~= a,
{
    let seg = a.subrange(0, n);
    assert(seg =~= a);
    let p = not_in_seg(seg);
    let bin = b.subrange(0, n);
    assert(bin =~= b);
    let baf = b.subrange(n, b.len() as int);
    let bbe = b.subrange(0, 0);
    assert(baf.len() == 0);
    assert(bbe.len() == 0);
    assert(bin.all(|x: usize| !p(x))) by {
        assert forall|i: int| 0 <= i < bin.len() implies !p(#[trigger] bin[i]) by {
            assert(bin[i] == b[i]);
            assert(b[i] < n);
            assert(seg.contains(b[i]));
        }
    }
    bin.lemma_all_neg_filter_empty(p);
    baf.lemma_filter_len(p);
    bbe.lemma_filter_len(p);
    assert(ox_child(a, b, 0, n) =~= a);
}

/// Boundary case of the ordered crossover: a range of length zero hands
/// the child the second parent rotated to start at the range's position;
/// a range starting at zero hands it the second parent unchanged.
pub proof fn lemma_ox_empty_range(a: Seq<usize>, b: Seq<usize>, start: int)
    requires
        0 <= start <= b.len(),
        start <= a.len(),
    ensures
        ox_child(a, b, start, 0) =~= b.subrange(start, b.len() as int) + b.subrange(0, start),
        start == 0 ==> ox_child(a, b, 0, 0) =~= b,
{
    let seg = a.subrange(start, start);
    assert(seg.len() == 0);
    let p = not_in_seg(seg);
    let bin = b.subrange(start, start);
    assert(bin.len() == 0);
    let baf = b.subrange(start, b.len() as int);
    let bbe = b.subrange(0, start);
    bin.lemma_filter_len(p);
    assert(forall|i: int| 0 <= i < baf.len() ==> p(#[trigger] baf[i]));
    assert(forall|i: int| 0 <= i < bbe.len() ==> p(#[trigger] bbe[i]));
    lemma_filter_keeps_all(baf, p);
    lemma_filter_keeps_all(bbe, p);
    assert(ox_child(a, b, start, 0) =~= baf + bbe);
    if start == 0 {
        assert(bbe.len() == 0);
        assert(baf + bbe =~= b);
    }
}

/// The ordered-crossover operator: the child keeps `a`'s segment inside
/// the given range as one contiguous block, and fills the rest with `b`'s
/// remaining elements in the relative order they hold in `b`.
pub fn ordered_crossover(parent_a: &Route, parent_b: &Route, subsequence: Subsequence) -> (child:
    Route)
    requires
        parent_a@.len() == parent_b@.len(),
        subsequence.start_index + subsequence.length <= parent_a@.len(),
    ensures
        child@ == ox_child(
            parent_a@,
            parent_b@,
            subsequence.start_index as int,
            subsequence.length as int,
        ),
{
    let mut child_indexes: Vec<usize> = Vec::new();
    let mapped_selection = match subsequence.get_values_in(&parent_a.indexes) {
        Some(values) => values,
        None => unreached(),
    };
    let values_in_b = match subsequence.get_values_in(&parent_b.indexes) {
        Some(values) => values,
        None => unreached(),
    };
    // First the elements inside the range of the second parent that are
    // not in the segment of the first.
    append_absent(&mut child_indexes, &values_in_b, &mapped_selection);
    // Then the segment of the first parent.
    append_all(&mut child_indexes, &mapped_selection);
    // Then what follows the range in the second parent and is not in the
    // segment.
    let values_after_b = match subsequence.get_values_after(&parent_b.indexes) {
        Some(values) => values,
        None => unreached(),
    };
    append_absent(&mut child_indexes, &values_after_b, &mapped_selection);
    // Finally what precedes the range in the second parent and is not in
    // the segment.
    let values_before_b = match subsequence.get_values_before(&parent_b.indexes) {
        Some(values) => values,
        None => unreached(),
    };
    append_absent(&mut child_indexes, &values_before_b, &mapped_selection);
    proof {
        assert(child_indexes@ =~= ox_child(
            parent_a@,
            parent_b@,
            subsequence.start_index as int,
            subsequence.length as int,
        ));
    }
    Route { indexes: child_indexes }
}

/// The index `a` sorts before the index `b`: its key is larger, or the
/// keys are equal and `a` is the smaller index.  This is the order of a
/// stable descending sort of indices by key.
pub open spec fn idx_before(keys: Seq<i64>, a: int, b: int) -> bool {
    keys[a] > keys[b] || (keys[a] == keys[b] && a < b)
}

/// `ix` lists every index of `keys` exactly once, ordered by descending
/// key with ties broken by ascending index.  Exactly one sequence
/// satisfies this for given keys: the stable descending argsort.
pub open spec fn is_stable_desc_argsort(keys: Seq<i64>, ix: Seq<usize>) -> bool {
    &&& ix.len() == keys.len()
    &&& forall|i: int| 0 <= i < ix.len() ==> (#[trigger] ix[i]) < keys.len()
    &&& ix.no_duplicates()
    &&& forall|v: usize| 0 <= v < keys.len() ==> ix.contains(v)
    &&& forall|i: int, j: int|
        0 <= i < j < ix.len() ==> idx_before(keys, ix[i] as int, ix[j] as int)
}

/// The indices of `data`, sorted by descending value; equal values keep
/// their original relative order.
pub fn argsort(data: &Vec<i64>) -> (r: Vec<usize>)
    ensures
        is_stable_desc_argsort(data@, r@),
{
    let n = data.len();
    let mut r: Vec<usize> = Vec::new();
    let mut s: usize = 0;
    while s < n
        invariant
            0 <= s <= n,
            n == data@.len(),
            r@.len() == s,
            forall|i: int| 0 <= i < s ==> (#[trigger] r@[i]) < s,
            r@.no_duplicates(),
            forall|v: usize| 0 <= v < s ==> r@.contains(v),
            forall|i: int, j: int|
                0 <= i < j < s ==> idx_before(data@, r@[i] as int, r@[j] as int),
        decreases n - s,
    {
        let mut pos: usize = 0;
        while pos < r.len() && !(data[s] > data[r[pos]])
            invariant
                0 <= pos <= r@.len() == s < n == data@.len(),
                forall|i: int| 0 <= i < s ==> (#[trigger] r@[i]) < s,
                forall|p: int| 0 <= p < pos ==> data@[r@[p] as int] >= data@[s as int],
            decreases r@.len() - pos,
        {
            pos = pos + 1;
        }
        let ghost old_r = r@;
        r.insert(pos, s);
        proof {
            old_r.insert_ensures(pos as int, s as usize);
            let new_r = r@;
            // The inserted index is new, so no duplicates arise.
            assert forall|i: int, j: int|
                0 <= i < new_r.len() && 0 <= j < new_r.len() && i != j implies new_r[i]
                != new_r[j] by {
                if i != pos && j != pos {
                    let oi: int = if i < pos {
                        i
                    } else {
                        i - 1
                    };
                    let oj: int = if j < pos {
                        j
                    } else {
                        j - 1
                    };
                    assert(new_r[i] == old_r[oi]);
                    assert(new_r[j] == old_r[oj]);
                }
            }
            // Every index below `s + 1` still occurs.
            assert forall|v: usize| 0 <= v < s + 1 implies new_r.contains(v) by {
                if v == s {
                    assert(new_r[pos as int] == s);
                } else {
                    assert(old_r.contains(v));
                    let i = choose|i: int| 0 <= i < old_r.len() && old_r[i] == v;
                    if i < pos {
                        assert(new_r[i] == v);
                    } else {
                        assert(new_r[i + 1] == v);
                    }
                }
            }
            // The order is kept: everything before the insertion point
            // sorts before the new index, the new index sorts before
            // everything after it.
            assert forall|i: int, j: int|
                0 <= i < j < new_r.len() implies idx_before(
                data@,
                new_r[i] as int,
                new_r[j] as int,
            ) by {
                if i == pos {
                    assert(new_r[i] == s);
                    assert(data@[s as int] > data@[old_r[pos as int] as int]);
                    assert(new_r[j] == old_r[j - 1]);
                    if j - 1 > pos {
                        assert(idx_before(data@, old_r[pos as int] as int, old_r[j - 1] as int));
                    }
                } else if j == pos {
                    assert(new_r[j] == s);
                    assert(new_r[i] == old_r[i]);
                    assert(data@[old_r[i] as int] >= data@[s as int]);
                    assert(old_r[i] < s);
                } else {
                    let oi: int = if i < pos {
                        i
                    } else {
                        i - 1
                    };
                    let oj: int = if j < pos {
                        j
                    } else {
                        j - 1
                    };
                    assert(new_r[i] == old_r[oi]);
                    assert(new_r[j] == old_r[oj]);
                    if oi == oj {
                        assert(false);
                    }
                    if i < pos && j > pos {
                        assert(idx_before(data@, old_r[oi] as int, old_r[oj] as int));
                    }
                }
            }
        }
        s = s + 1;
    }
    r
}

/// The opposite of an ordering: greater becomes less, less becomes
/// greater, equal stays equal.
pub fn reverse_ordering(ordering: core::cmp::Ordering) -> (r: core::cmp::Ordering)
    ensures
        ordering == core::cmp::Ordering::Greater ==> r == core::cmp::Ordering::Less,
        ordering == core::cmp::Ordering::Less ==> r == core::cmp::Ordering::Greater,
        ordering == core::cmp::Ordering::Equal ==> r == core::cmp::Ordering::Equal,
{
    match ordering {
        core::cmp::Ordering::Greater => core::cmp::Ordering::Less,
        core::cmp::Ordering::Less => core::cmp::Ordering::Greater,
        core::cmp::Ordering::Equal => core::cmp::Ordering::Equal,
    }
}

} // verus!
