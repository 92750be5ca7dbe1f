//! The order of keys.
//!
//! Keys are strings and are ordered as `str` orders them: lexicographically, by the bytes of
//! their UTF-8 encoding.
use vstd::prelude::*;
use vstd::utf8;

verus! {

/// `a` comes strictly before `b` in the lexicographic order of byte strings.
pub open spec fn lex_less(a: Seq<u8>, b: Seq<u8>) -> bool
    decreases a.len(),
{
    if b.len() == 0 {
        false
    } else if a.len() == 0 {
        true
    } else if a[0] != b[0] {
        a[0] < b[0]
    } else {
        lex_less(a.drop_first(), b.drop_first())
    }
}

proof fn lemma_lex_irreflexive(a: Seq<u8>)
    ensures
        !lex_less(a, a),
    decreases a.len(),
{
    if a.len() > 0 {
        lemma_lex_irreflexive(a.drop_first());
    }
}

proof fn lemma_lex_transitive(a: Seq<u8>, b: Seq<u8>, c: Seq<u8>)
    requires
        lex_less(a, b),
        lex_less(b, c),
    ensures
        lex_less(a, c),
    decreases a.len(),
{
    if a.len() > 0 && a[0] == b[0] && b[0] == c[0] {
        lemma_lex_transitive(a.drop_first(), b.drop_first(), c.drop_first());
    }
}

proof fn lemma_lex_total(a: Seq<u8>, b: Seq<u8>)
    ensures
        lex_less(a, b) || a == b || lex_less(b, a),
    decreases a.len(),
{
    if a.len() > 0 && b.len() > 0 && a[0] == b[0] {
        lemma_lex_total(a.drop_first(), b.drop_first());
        if a.drop_first() == b.drop_first() {
            assert(a =~= seq![a[0]] + a.drop_first());
            assert(b =~= seq![b[0]] + b.drop_first());
        }
    } else if a.len() == 0 && b.len() == 0 {
        assert(a =~= b);
    }
}

/// The key `a` comes strictly before the key `b`.
#[verifier::opaque]
pub open spec fn key_less(a: Seq<char>, b: Seq<char>) -> bool {
    lex_less(utf8::encode_utf8(a), utf8::encode_utf8(b))
}

/// No key comes before itself.
pub broadcast proof fn lemma_key_irreflexive(a: Seq<char>)
    ensures
        !#[trigger] key_less(a, a),
{
    reveal(key_less);
    lemma_lex_irreflexive(utf8::encode_utf8(a));
}

/// The order of keys is transitive.
pub broadcast proof fn lemma_key_transitive(a: Seq<char>, b: Seq<char>, c: Seq<char>)
    requires
        #[trigger] key_less(a, b),
        #[trigger] key_less(b, c),
    ensures
        key_less(a, c),
{
    reveal(key_less);
    lemma_lex_transitive(utf8::encode_utf8(a), utf8::encode_utf8(b), utf8::encode_utf8(c));
}

/// Of two different keys one comes before the other.
pub broadcast proof fn lemma_key_total(a: Seq<char>, b: Seq<char>)
    ensures
        #[trigger] key_less(a, b) || a == b || key_less(b, a),
{
    reveal(key_less);
    lemma_lex_total(utf8::encode_utf8(a), utf8::encode_utf8(b));
    utf8::encode_utf8_decode_utf8(a);
    utf8::encode_utf8_decode_utf8(b);
}

/// Up to position `i` the byte strings agree, and there `a` ends first or has the smaller byte.
pub open spec fn first_difference(a: Seq<u8>, b: Seq<u8>, i: int) -> bool {
    &&& 0 <= i <= a.len()
    &&& i < b.len()
    &&& a.take(i) == b.take(i)
    &&& i < a.len() ==> a[i] < b[i]
}

proof fn lemma_lex_difference(a: Seq<u8>, b: Seq<u8>) -> (i: int)
    requires
        lex_less(a, b),
    ensures
        first_difference(a, b, i),
    decreases a.len(),
{
    if a.len() == 0 || a[0] != b[0] {
        assert(a.take(0) =~= b.take(0));
        0
    } else {
        let i = lemma_lex_difference(a.drop_first(), b.drop_first()) + 1;
        assert forall|j: int| 0 <= j < i implies a[j] == b[j] by {
            if j > 0 {
                assert(a.drop_first().take(i - 1)[j - 1] == b.drop_first().take(i - 1)[j - 1]);
            }
        }
        assert(a.take(i) =~= b.take(i));
        i
    }
}

proof fn lemma_difference_lex(a: Seq<u8>, b: Seq<u8>, i: int)
    requires
        first_difference(a, b, i),
    ensures
        lex_less(a, b),
    decreases i,
{
    if i > 0 {
        assert(a[0] == a.take(i)[0] && b[0] == b.take(i)[0]);
        assert(a.drop_first().take(i - 1) =~= a.take(i).drop_first());
        assert(b.drop_first().take(i - 1) =~= b.take(i).drop_first());
        lemma_difference_lex(a.drop_first(), b.drop_first(), i - 1);
    }
}

/// The order of keys is that of their UTF-8 bytes: a key comes before another exactly where its bytes
/// are a proper beginning of the other's, or where at the first position at which they differ its byte
/// is the smaller number.
pub proof fn law_keys_are_ordered_by_bytes(a: Seq<char>, b: Seq<char>)
    ensures
        ({
            let x = utf8::encode_utf8(a);
            let y = utf8::encode_utf8(b);
            key_less(a, b) <==> exists|i: int|
                0 <= i <= x.len() && i < y.len() && #[trigger] x.take(i) == y.take(i) && (i == x.len() || x[i] < y[i])
        }),
{
    reveal(key_less);
    let x = utf8::encode_utf8(a);
    let y = utf8::encode_utf8(b);
    if key_less(a, b) {
        let i = lemma_lex_difference(x, y);
        assert(x.take(i) == y.take(i));
    }
    if exists|i: int|
        0 <= i <= x.len() && i < y.len() && #[trigger] x.take(i) == y.take(i) && (i == x.len() || x[i] < y[i]) {
        let i = choose|i: int|
            0 <= i <= x.len() && i < y.len() && #[trigger] x.take(i) == y.take(i) && (i == x.len() || x[i] < y[i]);
        lemma_difference_lex(x, y, i);
    }
}

/// The laws of a strict total order, for [`key_less`].
pub broadcast group group_key_order {
    lemma_key_irreflexive,
    lemma_key_transitive,
    lemma_key_total,
}

/// Every element of `s` comes before those behind it.
pub open spec fn ordered<T>(s: Seq<T>, less: spec_fn(T, T) -> bool) -> bool {
    forall|i: int, j: int| 0 <= i < j < s.len() ==> #[trigger] less(s[i], s[j])
}

/// `less` never holds both ways, nor of an element and itself.
pub open spec fn asymmetric<T>(less: spec_fn(T, T) -> bool) -> bool {
    forall|a: T, b: T| #[trigger] less(a, b) ==> !less(b, a)
}

/// There is one way only to put a set of elements in order.
pub proof fn lemma_ordered_unique<T>(s: Seq<T>, t: Seq<T>, less: spec_fn(T, T) -> bool)
    requires
        asymmetric(less),
        ordered(s, less),
        ordered(t, less),
        forall|x: T| s.contains(x) <==> t.contains(x),
    ensures
        s == t,
    decreases s.len(),
{
    if s.len() == 0 {
        if t.len() > 0 {
            assert(t.contains(t[0]));
        }
        assert(s =~= t);
    } else {
        assert(s.contains(s.last()));
        let j = choose|j: int| 0 <= j < t.len() && t[j] == s.last();
        assert(t.contains(t.last()));
        let i = choose|i: int| 0 <= i < s.len() && s[i] == t.last();
        assert(s.last() == t.last()) by {
            if s.last() != t.last() {
                assert(less(s[i], s[s.len() - 1]));
                assert(less(t[j], t[t.len() - 1]));
            }
        }
        let s1 = s.drop_last();
        let t1 = t.drop_last();
        assert(ordered(s1, less)) by {
            assert forall|a: int, b: int| 0 <= a < b < s1.len() implies #[trigger] less(s1[a], s1[b]) by {
                assert(less(s[a], s[b]));
            }
        }
        assert(ordered(t1, less)) by {
            assert forall|a: int, b: int| 0 <= a < b < t1.len() implies #[trigger] less(t1[a], t1[b]) by {
                assert(less(t[a], t[b]));
            }
        }
        assert forall|x: T| s1.contains(x) <==> t1.contains(x) by {
            if s1.contains(x) {
                let a = choose|a: int| 0 <= a < s1.len() && s1[a] == x;
                assert(s[a] == x && less(s[a], s[s.len() - 1]));
                assert(t.contains(x));
                let b = choose|b: int| 0 <= b < t.len() && t[b] == x;
                assert(b < t.len() - 1);
                assert(t1[b] == x);
            }
            if t1.contains(x) {
                let a = choose|a: int| 0 <= a < t1.len() && t1[a] == x;
                assert(t[a] == x && less(t[a], t[t.len() - 1]));
                assert(s.contains(x));
                let b = choose|b: int| 0 <= b < s.len() && s[b] == x;
                assert(b < s.len() - 1);
                assert(s1[b] == x);
            }
        }
        lemma_ordered_unique(s1, t1, less);
        assert(s =~= s1.push(s.last()));
        assert(t =~= t1.push(t.last()));
    }
}

/// `less` is a strict total order.
pub open spec fn total_order<T>(less: spec_fn(T, T) -> bool) -> bool {
    &&& asymmetric(less)
    &&& forall|a: T, b: T, c: T| #[trigger] less(a, b) && #[trigger] less(b, c) ==> less(a, c)
    &&& forall|a: T, b: T| #[trigger] less(a, b) || a == b || less(b, a)
}

proof fn lemma_insert_ordered<T>(s: Seq<T>, x: T, less: spec_fn(T, T) -> bool) -> (more: Seq<T>)
    requires
        total_order(less),
        ordered(s, less),
        !s.contains(x),
    ensures
        ordered(more, less),
        forall|y: T| #[trigger] more.contains(y) <==> s.contains(y) || y == x,
    decreases s.len(),
{
    if s.len() == 0 || less(s.last(), x) {
        let more = s.push(x);
        assert forall|i: int, j: int| 0 <= i < j < more.len() implies #[trigger] less(more[i], more[j]) by {
            if j < s.len() {
                assert(less(s[i], s[j]));
            } else if i < s.len() - 1 {
                assert(less(s[i], s[s.len() - 1]));
            }
        }
        assert forall|y: T| #[trigger] more.contains(y) <==> s.contains(y) || y == x by {
            if s.contains(y) {
                let i = choose|i: int| 0 <= i < s.len() && s[i] == y;
                assert(more[i] == y);
            }
            if y == x {
                assert(more[s.len() as int] == x);
            }
            if more.contains(y) {
                let i = choose|i: int| 0 <= i < more.len() && more[i] == y;
                if i < s.len() {
                    assert(s[i] == y);
                }
            }
        }
        more
    } else {
        let last = s.last();
        let front = s.drop_last();
        assert(s.contains(last));
        assert(less(x, last));
        assert forall|i: int, j: int| 0 <= i < j < front.len() implies #[trigger] less(front[i], front[j]) by {
            assert(less(s[i], s[j]));
        }
        assert(!front.contains(x)) by {
            if front.contains(x) {
                let i = choose|i: int| 0 <= i < front.len() && front[i] == x;
                assert(s[i] == x);
            }
        }
        let part = lemma_insert_ordered(front, x, less);
        let more = part.push(last);
        assert forall|i: int, j: int| 0 <= i < j < more.len() implies #[trigger] less(more[i], more[j]) by {
            if j < part.len() {
                assert(less(part[i], part[j]));
            } else {
                assert(part.contains(part[i]));
                if part[i] != x {
                    let n = choose|n: int| 0 <= n < front.len() && front[n] == part[i];
                    assert(less(s[n], s[s.len() - 1]));
                }
            }
        }
        assert forall|y: T| #[trigger] more.contains(y) <==> s.contains(y) || y == x by {
            if s.contains(y) || y == x {
                if y == last {
                    assert(more[part.len() as int] == y);
                } else {
                    if s.contains(y) {
                        let i = choose|i: int| 0 <= i < s.len() && s[i] == y;
                        assert(front[i] == y);
                    }
                    assert(part.contains(y));
                    let i = choose|i: int| 0 <= i < part.len() && part[i] == y;
                    assert(more[i] == y);
                }
            }
            if more.contains(y) && y != last {
                let i = choose|i: int| 0 <= i < more.len() && more[i] == y;
                assert(part[i] == y);
                assert(part.contains(y));
                if y != x {
                    let n = choose|n: int| 0 <= n < front.len() && front[n] == y;
                    assert(s[n] == y);
                }
            }
        }
        more
    }
}

/// The members of a finite set can be put in order.
pub proof fn lemma_order_exists<T>(members: Set<T>, less: spec_fn(T, T) -> bool) -> (list: Seq<T>)
    requires
        members.finite(),
        total_order(less),
    ensures
        ordered(list, less),
        list.to_set() == members,
    decreases members.len(),
{
    if members.len() == 0 {
        let list = Seq::<T>::empty();
        assert(list.to_set() =~= members);
        list
    } else {
        let x = members.choose();
        let part = lemma_order_exists(members.remove(x), less);
        assert(!part.contains(x)) by {
            assert(!part.to_set().contains(x));
        }
        let list = lemma_insert_ordered(part, x, less);
        assert forall|y: T| list.to_set().contains(y) <==> members.contains(y) by {
            assert(list.contains(y) <==> part.contains(y) || y == x);
            assert(part.to_set().contains(y) <==> members.remove(x).contains(y));
        }
        assert(list.to_set() =~= members);
        list
    }
}

/// How one key stands to another.
#[derive(Clone, Copy, PartialEq, Eq, Structural, Debug)]
pub enum Side {
    Before,
    Same,
    After,
}

/// Compares two keys.
pub fn compare(a: &str, b: &str) -> (side: Side)
    ensures
        match side {
            Side::Before => key_less(a@, b@),
            Side::Same => a@ == b@,
            Side::After => key_less(b@, a@),
        },
{
    let x: &[u8] = a.as_bytes();
    let y: &[u8] = b.as_bytes();
    proof {
        reveal(key_less);
        assert(x@.skip(0) =~= x@);
        assert(y@.skip(0) =~= y@);
    }
    let mut i: usize = 0;
    while i < x.len() && i < y.len()
        invariant
            x@ == utf8::encode_utf8(a@),
            y@ == utf8::encode_utf8(b@),
            i <= x.len(),
            i <= y.len(),
            x@.take(i as int) == y@.take(i as int),
            lex_less(x@, y@) == lex_less(x@.skip(i as int), y@.skip(i as int)),
            lex_less(y@, x@) == lex_less(y@.skip(i as int), x@.skip(i as int)),
        decreases x.len() - i,
    {
        reveal(key_less);
        if x[i] < y[i] {
            return Side::Before;
        }
        if y[i] < x[i] {
            return Side::After;
        }
        proof {
            assert(x@.skip(i as int).drop_first() =~= x@.skip(i + 1));
            assert(y@.skip(i as int).drop_first() =~= y@.skip(i + 1));
            assert(x@.take(i + 1) =~= x@.take(i as int).push(x@[i as int]));
            assert(y@.take(i + 1) =~= y@.take(i as int).push(y@[i as int]));
        }
        i += 1;
    }
    reveal(key_less);
    if i < y.len() {
        Side::Before
    } else if i < x.len() {
        Side::After
    } else {
        proof {
            assert(x@ =~= x@.take(i as int));
            assert(y@ =~= y@.take(i as int));
            utf8::encode_utf8_decode_utf8(a@);
            utf8::encode_utf8_decode_utf8(b@);
        }
        Side::Same
    }
}

} // verus!
