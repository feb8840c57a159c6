use vstd::prelude::*;
use vstd::utf8::encode_utf8;

verus! {

/// A key by which items are put in order: a total preorder with an executable test.
pub trait KeyOrder: Sized {
    /// Does `a` come no later than `b`?
    spec fn key_le(a: Self, b: Self) -> bool;

    /// Does this key come no later than `other`?
    fn le(&self, other: &Self) -> (r: bool)
        ensures
            r == Self::key_le(*self, *other),
    ;

    /// Any two keys are ordered one way or the other.
    proof fn lemma_total(a: Self, b: Self)
        ensures
            Self::key_le(a, b) || Self::key_le(b, a),
    ;

    /// The order is transitive.
    proof fn lemma_trans(a: Self, b: Self, c: Self)
        requires
            Self::key_le(a, b),
            Self::key_le(b, c),
        ensures
            Self::key_le(a, c),
    ;
}

impl KeyOrder for i64 {
    open spec fn key_le(a: i64, b: i64) -> bool {
        a <= b
    }

    proof fn lemma_total(a: i64, b: i64) {
    }

    proof fn lemma_trans(a: i64, b: i64, c: i64) {
    }

    fn le(&self, other: &i64) -> (r: bool) {
        *self <= *other
    }
}

impl KeyOrder for usize {
    open spec fn key_le(a: usize, b: usize) -> bool {
        a <= b
    }

    proof fn lemma_total(a: usize, b: usize) {
    }

    proof fn lemma_trans(a: usize, b: usize, c: usize) {
    }

    fn le(&self, other: &usize) -> (r: bool) {
        *self <= *other
    }
}

/// A key in reverse order: larger keys first.
#[derive(Debug, Clone, Copy)]
pub struct Rev<K>(pub K);

impl<K: KeyOrder> KeyOrder for Rev<K> {
    open spec fn key_le(a: Rev<K>, b: Rev<K>) -> bool {
        K::key_le(b.0, a.0)
    }

    proof fn lemma_total(a: Rev<K>, b: Rev<K>) {
        K::lemma_total(a.0, b.0);
    }

    proof fn lemma_trans(a: Rev<K>, b: Rev<K>, c: Rev<K>) {
        K::lemma_trans(c.0, b.0, a.0);
    }

    fn le(&self, other: &Rev<K>) -> (r: bool) {
        other.0.le(&self.0)
    }
}

/// Byte strings compared lexicographically: -1, 0 or 1 as `a` comes before, with or
/// after `b`; a proper prefix comes first.
pub open spec fn bytes_order(a: Seq<u8>, b: Seq<u8>) -> int
    decreases a.len(),
{
    if a.len() == 0 {
        if b.len() == 0 {
            0
        } else {
            -1
        }
    } else if b.len() == 0 {
        1
    } else if a[0] < b[0] {
        -1
    } else if a[0] > b[0] {
        1
    } else {
        bytes_order(a.drop_first(), b.drop_first())
    }
}

/// The order of strings: lexicographic on their UTF-8 bytes.
pub open spec fn text_le(a: Seq<char>, b: Seq<char>) -> bool {
    bytes_order(encode_utf8(a), encode_utf8(b)) <= 0
}

proof fn lemma_bytes_order_step(a: Seq<u8>, b: Seq<u8>, i: int)
    requires
        0 <= i <= a.len(),
        i <= b.len(),
        forall|k: int| 0 <= k < i ==> a[k] == b[k],
    ensures
        bytes_order(a, b) == bytes_order(a.subrange(i, a.len() as int), b.subrange(i, b.len() as int)),
    decreases i,
{
    if i > 0 {
        lemma_bytes_order_step(a.drop_first(), b.drop_first(), i - 1);
        assert(a.drop_first().subrange(i - 1, a.len() - 1) =~= a.subrange(i, a.len() as int));
        assert(b.drop_first().subrange(i - 1, b.len() - 1) =~= b.subrange(i, b.len() as int));
    } else {
        assert(a.subrange(0, a.len() as int) =~= a);
        assert(b.subrange(0, b.len() as int) =~= b);
    }
}

/// Compares two byte strings lexicographically.
pub fn compare_bytes(a: &[u8], b: &[u8]) -> (r: i8)
    ensures
        r == bytes_order(a@, b@),
{
    let mut i: usize = 0;
    while i < a.len() && i < b.len()
        invariant
            i <= a.len(),
            i <= b.len(),
            forall|k: int| 0 <= k < i ==> a@[k] == b@[k],
        decreases a.len() - i,
    {
        if a[i] != b[i] {
            proof {
                lemma_bytes_order_step(a@, b@, i as int);
                let sa = a@.subrange(i as int, a@.len() as int);
                let sb = b@.subrange(i as int, b@.len() as int);
                assert(sa[0] == a@[i as int]);
                assert(sb[0] == b@[i as int]);
            }
            if a[i] < b[i] {
                return -1;
            } else {
                return 1;
            }
        }
        i = i + 1;
    }
    proof {
        lemma_bytes_order_step(a@, b@, i as int);
    }
    if i < a.len() {
        1
    } else if i < b.len() {
        -1
    } else {
        0
    }
}

/// Comparing byte strings the other way round gives the opposite answer.
pub proof fn lemma_bytes_order_flip(a: Seq<u8>, b: Seq<u8>)
    ensures
        bytes_order(a, b) == -bytes_order(b, a),
    decreases a.len(),
{
    if a.len() > 0 && b.len() > 0 && a[0] == b[0] {
        lemma_bytes_order_flip(a.drop_first(), b.drop_first());
    }
}

/// The order of byte strings is transitive.
pub proof fn lemma_bytes_order_trans(a: Seq<u8>, b: Seq<u8>, c: Seq<u8>)
    requires
        bytes_order(a, b) <= 0,
        bytes_order(b, c) <= 0,
    ensures
        bytes_order(a, c) <= 0,
    decreases a.len(),
{
    if a.len() > 0 && b.len() > 0 && c.len() > 0 && a[0] == b[0] && b[0] == c[0] {
        lemma_bytes_order_trans(a.drop_first(), b.drop_first(), c.drop_first());
    }
}

impl KeyOrder for String {
    open spec fn key_le(a: String, b: String) -> bool {
        text_le(a@, b@)
    }

    proof fn lemma_total(a: String, b: String) {
        lemma_bytes_order_flip(encode_utf8(a@), encode_utf8(b@));
    }

    proof fn lemma_trans(a: String, b: String, c: String) {
        lemma_bytes_order_trans(encode_utf8(a@), encode_utf8(b@), encode_utf8(c@));
    }

    fn le(&self, other: &String) -> (r: bool) {
        let a = self.as_str().as_bytes();
        let b = other.as_str().as_bytes();
        compare_bytes(a, b) <= 0
    }
}

/// `x` placed into `s` after every item whose key comes no later than its own.
pub open spec fn insert_keyed<K: KeyOrder, T>(s: Seq<(K, T)>, x: (K, T)) -> Seq<(K, T)>
    decreases s.len(),
{
    if s.len() == 0 {
        seq![x]
    } else if K::key_le(s.last().0, x.0) {
        s.push(x)
    } else {
        insert_keyed(s.drop_last(), x).push(s.last())
    }
}

/// The items of `s` in the order of their keys, items with equal keys keeping
/// their order.
pub open spec fn sort_keyed<K: KeyOrder, T>(s: Seq<(K, T)>) -> Seq<(K, T)>
    decreases s.len(),
{
    if s.len() == 0 {
        seq![]
    } else {
        insert_keyed(sort_keyed(s.drop_last()), s.last())
    }
}

/// The keys of the sequence come in order.
pub open spec fn keys_sorted<K: KeyOrder, T>(s: Seq<(K, T)>) -> bool {
    forall|i: int, j: int| 0 <= i < j < s.len() ==> K::key_le(#[trigger] s[i].0, #[trigger] s[j].0)
}

proof fn lemma_insert_sorted<K: KeyOrder, T>(s: Seq<(K, T)>, x: (K, T))
    requires
        keys_sorted(s),
    ensures
        keys_sorted(insert_keyed(s, x)),
        insert_keyed(s, x).to_multiset() == s.to_multiset().insert(x),
    decreases s.len(),
{
    broadcast use {vstd::seq_lib::group_to_multiset_ensures, vstd::multiset::group_multiset_axioms};
    if s.len() == 0 {
        assert(seq![x] =~= s.push(x));
    } else if K::key_le(s.last().0, x.0) {
        let r = s.push(x);
        assert forall|i: int, j: int| 0 <= i < j < r.len() implies K::key_le(#[trigger] r[i].0, #[trigger] r[j].0) by {
            if j == s.len() {
                if i < s.len() - 1 {
                    K::lemma_trans(s[i].0, s.last().0, x.0);
                }
            }
        }
    } else {
        let last = s.last();
        let rest = s.drop_last();
        assert(keys_sorted(rest));
        lemma_insert_sorted(rest, x);
        K::lemma_total(last.0, x.0);
        let p = |y: (K, T)| K::key_le(y.0, last.0);
        assert forall|k: int| 0 <= k < rest.len() implies p(#[trigger] rest[k]) by {
            assert(rest[k] == s[k]);
        }
        lemma_insert_keeps(rest, x, p);
        let mid = insert_keyed(rest, x);
        let r = mid.push(last);
        assert forall|i: int, j: int| 0 <= i < j < r.len() implies K::key_le(#[trigger] r[i].0, #[trigger] r[j].0) by {
            if j == mid.len() {
                assert(p(mid[i]));
            }
        }
        assert(s =~= rest.push(last));
        assert(r.to_multiset() =~= s.to_multiset().insert(x));
    }
}

/// Sorting by key puts the keys in order and keeps every item, each as often as it
/// came.
pub proof fn lemma_sort_sorted<K: KeyOrder, T>(s: Seq<(K, T)>)
    ensures
        keys_sorted(sort_keyed(s)),
        sort_keyed(s).to_multiset() == s.to_multiset(),
    decreases s.len(),
{
    broadcast use {vstd::seq_lib::group_to_multiset_ensures, vstd::multiset::group_multiset_axioms};
    if s.len() == 0 {
    } else {
        lemma_sort_sorted(s.drop_last());
        lemma_insert_sorted(sort_keyed(s.drop_last()), s.last());
        assert(s =~= s.drop_last().push(s.last()));
    }
}

/// The items of a keyed sequence, without their keys.
pub open spec fn items_of<K, T>(s: Seq<(K, T)>) -> Seq<T> {
    s.map_values(|p: (K, T)| p.1)
}

/// Sorts keyed items by their keys; items with equal keys keep their order.
pub fn sort_by_key<K: KeyOrder, T>(v: &mut Vec<(K, T)>)
    ensures
        final(v)@ == sort_keyed(old(v)@),
{
    let mut src: Vec<(K, T)> = Vec::new();
    std::mem::swap(&mut src, v);
    let ghost initial = src@;
    let mut rev: Vec<(K, T)> = Vec::new();
    while src.len() > 0
        invariant
            initial == src@ + rev@.reverse(),
        decreases src@.len(),
    {
        let ghost s0 = src@;
        let ghost r0 = rev@;
        let x = src.pop().unwrap();
        rev.push(x);
        proof {
            assert(rev@.reverse() =~= seq![x] + r0.reverse());
            assert(s0 =~= src@.push(x));
            assert(src@ + rev@.reverse() =~= s0 + r0.reverse());
        }
    }
    let mut sorted: Vec<(K, T)> = Vec::new();
    let ghost mut i: int = 0;
    proof {
        assert(initial =~= rev@.reverse());
        assert(initial.take(0) =~= Seq::<(K, T)>::empty());
    }
    while rev.len() > 0
        invariant
            0 <= i <= initial.len(),
            rev@.len() == initial.len() - i,
            forall|k: int| 0 <= k < rev@.len() ==> rev@[k] == initial[initial.len() - 1 - k],
            sorted@ == sort_keyed(initial.take(i)),
        decreases rev@.len(),
    {
        let x = rev.pop().unwrap();
        proof {
            assert(x == initial[i]);
            assert(initial.take(i + 1).drop_last() =~= initial.take(i));
            assert(initial.take(i + 1).last() == x);
        }
        let mut tail: Vec<(K, T)> = Vec::new();
        let ghost target = insert_keyed(sorted@, x);
        while sorted.len() > 0 && !sorted[sorted.len() - 1].0.le(&x.0)
            invariant
                target == insert_keyed(sorted@, x) + tail@.reverse(),
            decreases sorted@.len(),
        {
            let ghost s0 = sorted@;
            let last = sorted.pop().unwrap();
            proof {
                assert(s0.drop_last() == sorted@);
                assert(s0.last() == last);
                assert(insert_keyed(s0, x) == insert_keyed(sorted@, x).push(last));
            }
            let ghost t0 = tail@;
            tail.push(last);
            proof {
                assert(tail@.reverse() =~= seq![last] + t0.reverse());
                assert(insert_keyed(sorted@, x).push(last) + t0.reverse() =~= insert_keyed(
                    sorted@,
                    x,
                ) + (seq![last] + t0.reverse()));
            }
        }
        proof {
            assert(insert_keyed(sorted@, x) == sorted@.push(x));
        }
        sorted.push(x);
        while tail.len() > 0
            invariant
                target == sorted@ + tail@.reverse(),
            decreases tail@.len(),
        {
            let ghost t0 = tail@;
            let y = tail.pop().unwrap();
            proof {
                assert(t0.reverse() =~= seq![y] + tail@.reverse());
                assert(sorted@ + t0.reverse() =~= sorted@.push(y) + tail@.reverse());
            }
            sorted.push(y);
        }
        proof {
            assert(sorted@ + tail@.reverse() =~= sorted@);
            assert forall|k: int| 0 <= k < rev@.len() implies rev@[k] == initial[initial.len() - 1
                - k] by {}
            i = i + 1;
        }
    }
    proof {
        assert(initial.take(initial.len() as int) =~= initial);
    }
    *v = sorted;
}

/// The items of a keyed vector, without their keys, in order.
pub fn strip_keys<K, T>(v: Vec<(K, T)>) -> (r: Vec<T>)
    ensures
        r@ == items_of(v@),
{
    let mut src = v;
    let ghost initial = src@;
    let mut rev: Vec<T> = Vec::new();
    while src.len() > 0
        invariant
            rev@.len() + src@.len() == initial.len(),
            src@ == initial.take(src@.len() as int),
            forall|k: int| 0 <= k < rev@.len() ==> rev@[k] == initial[initial.len() - 1 - k].1,
        decreases src@.len(),
    {
        let ghost s0 = src@;
        let p = src.pop().unwrap();
        proof {
            assert(s0.take(s0.len() - 1) =~= src@);
            assert(initial.take(src@.len() as int) =~= s0.take(src@.len() as int));
        }
        rev.push(p.1);
    }
    let mut out: Vec<T> = Vec::new();
    while rev.len() > 0
        invariant
            out@.len() + rev@.len() == initial.len(),
            forall|k: int| 0 <= k < rev@.len() ==> rev@[k] == initial[initial.len() - 1 - k].1,
            forall|k: int| 0 <= k < out@.len() ==> out@[k] == initial[k].1,
        decreases rev@.len(),
    {
        let y = rev.pop().unwrap();
        out.push(y);
    }
    assert(out@ =~= items_of(initial));
    out
}


/// The payloads of a keyed sequence changed by `f`, keys kept.
pub open spec fn map_payload<K, T, U>(s: Seq<(K, T)>, f: spec_fn(T) -> U) -> Seq<(K, U)> {
    s.map_values(|p: (K, T)| (p.0, f(p.1)))
}

/// Inserting by key does not look at the payloads.
pub proof fn lemma_insert_map<K: KeyOrder, T, U>(s: Seq<(K, T)>, x: (K, T), f: spec_fn(T) -> U)
    ensures
        map_payload(insert_keyed(s, x), f) == insert_keyed(map_payload(s, f), (x.0, f(x.1))),
    decreases s.len(),
{
    if s.len() == 0 {
        assert(map_payload(seq![x], f) =~= seq![(x.0, f(x.1))]);
    } else {
        assert(map_payload(s, f).last() == (s.last().0, f(s.last().1)));
        assert(map_payload(s, f).drop_last() =~= map_payload(s.drop_last(), f));
        if K::key_le(s.last().0, x.0) {
            assert(map_payload(s.push(x), f) =~= map_payload(s, f).push((x.0, f(x.1))));
        } else {
            lemma_insert_map(s.drop_last(), x, f);
            assert(map_payload(insert_keyed(s.drop_last(), x).push(s.last()), f) =~= map_payload(
                insert_keyed(s.drop_last(), x),
                f,
            ).push((s.last().0, f(s.last().1))));
        }
    }
}

/// Sorting by key does not look at the payloads.
pub proof fn lemma_sort_map<K: KeyOrder, T, U>(s: Seq<(K, T)>, f: spec_fn(T) -> U)
    ensures
        map_payload(sort_keyed(s), f) == sort_keyed(map_payload(s, f)),
    decreases s.len(),
{
    if s.len() == 0 {
        assert(map_payload(Seq::<(K, T)>::empty(), f) =~= Seq::<(K, U)>::empty());
    } else {
        lemma_sort_map(s.drop_last(), f);
        lemma_insert_map(sort_keyed(s.drop_last()), s.last(), f);
        assert(map_payload(s, f).drop_last() =~= map_payload(s.drop_last(), f));
        assert(map_payload(s, f).last() == (s.last().0, f(s.last().1)));
    }
}

/// Inserting adds one item.
pub proof fn lemma_insert_len<K: KeyOrder, T>(s: Seq<(K, T)>, x: (K, T))
    ensures
        insert_keyed(s, x).len() == s.len() + 1,
    decreases s.len(),
{
    if s.len() > 0 && !K::key_le(s.last().0, x.0) {
        lemma_insert_len(s.drop_last(), x);
    }
}

/// Sorting keeps the number of items.
pub proof fn lemma_sort_len<K: KeyOrder, T>(s: Seq<(K, T)>)
    ensures
        sort_keyed(s).len() == s.len(),
    decreases s.len(),
{
    if s.len() > 0 {
        lemma_sort_len(s.drop_last());
        lemma_insert_len(sort_keyed(s.drop_last()), s.last());
    }
}

/// Inserting keeps a property that every item has.
pub proof fn lemma_insert_keeps<K: KeyOrder, T>(s: Seq<(K, T)>, x: (K, T), p: spec_fn((K, T)) -> bool)
    requires
        forall|k: int| 0 <= k < s.len() ==> p(#[trigger] s[k]),
        p(x),
    ensures
        forall|k: int| 0 <= k < insert_keyed(s, x).len() ==> p(#[trigger] insert_keyed(s, x)[k]),
    decreases s.len(),
{
    lemma_insert_len(s, x);
    if s.len() > 0 && !K::key_le(s.last().0, x.0) {
        lemma_insert_keeps(s.drop_last(), x, p);
        lemma_insert_len(s.drop_last(), x);
        assert forall|k: int| 0 <= k < insert_keyed(s, x).len() implies p(
            #[trigger] insert_keyed(s, x)[k],
        ) by {
            if k < insert_keyed(s, x).len() - 1 {
                assert(insert_keyed(s, x)[k] == insert_keyed(s.drop_last(), x)[k]);
            }
        }
    } else if s.len() > 0 {
        assert forall|k: int| 0 <= k < insert_keyed(s, x).len() implies p(
            #[trigger] insert_keyed(s, x)[k],
        ) by {
            if k < s.len() {
                assert(insert_keyed(s, x)[k] == s[k]);
            }
        }
    }
}

/// Sorting keeps a property that every item has.
pub proof fn lemma_sort_keeps<K: KeyOrder, T>(s: Seq<(K, T)>, p: spec_fn((K, T)) -> bool)
    requires
        forall|k: int| 0 <= k < s.len() ==> p(#[trigger] s[k]),
    ensures
        forall|k: int| 0 <= k < sort_keyed(s).len() ==> p(#[trigger] sort_keyed(s)[k]),
    decreases s.len(),
{
    if s.len() > 0 {
        lemma_sort_keeps(s.drop_last(), p);
        lemma_insert_keeps(sort_keyed(s.drop_last()), s.last(), p);
    }
}

} // verus!
