//! Byte-wise order on names (the order of Rust's `str`), sorting and joining.

use vstd::prelude::*;
use vstd::utf8::encode_utf8;

verus! {

broadcast use vstd::utf8::encode_utf8_decode_utf8;

/// Lexicographic order on byte strings.
pub open spec fn bytes_lt(a: Seq<u8>, b: Seq<u8>) -> bool
    decreases a.len(),
{
    if a.len() == 0 {
        b.len() > 0
    } else if b.len() == 0 {
        false
    } else if a[0] != b[0] {
        a[0] < b[0]
    } else {
        bytes_lt(a.drop_first(), b.drop_first())
    }
}

/// `a` sorts strictly before `b`: their UTF-8 encodings compare byte by byte.
pub open spec fn name_lt(a: Seq<char>, b: Seq<char>) -> bool {
    bytes_lt(encode_utf8(a), encode_utf8(b))
}

pub open spec fn name_le(a: Seq<char>, b: Seq<char>) -> bool {
    !name_lt(b, a)
}

proof fn lemma_bytes_lt_irrefl(a: Seq<u8>)
    ensures
        !bytes_lt(a, a),
    decreases a.len(),
{
    if a.len() > 0 {
        lemma_bytes_lt_irrefl(a.drop_first());
    }
}

proof fn lemma_bytes_lt_total(a: Seq<u8>, b: Seq<u8>)
    ensures
        a =~= b || bytes_lt(a, b) || bytes_lt(b, a),
        !(bytes_lt(a, b) && bytes_lt(b, a)),
    decreases a.len(),
{
    if a.len() > 0 && b.len() > 0 && a[0] == b[0] {
        lemma_bytes_lt_total(a.drop_first(), b.drop_first());
        if a.drop_first() =~= b.drop_first() {
            assert(a =~= seq![a[0]] + a.drop_first());
            assert(b =~= seq![b[0]] + b.drop_first());
        }
    }
}

proof fn lemma_bytes_lt_trans(a: Seq<u8>, b: Seq<u8>, c: Seq<u8>)
    requires
        bytes_lt(a, b),
        bytes_lt(b, c),
    ensures
        bytes_lt(a, c),
    decreases a.len(),
{
    if a.len() > 0 && b.len() > 0 && c.len() > 0 && a[0] == b[0] && b[0] == c[0] {
        lemma_bytes_lt_trans(a.drop_first(), b.drop_first(), c.drop_first());
    }
}

/// Names with the same encoding are the same name.
proof fn lemma_encode_injective(a: Seq<char>, b: Seq<char>)
    requires
        encode_utf8(a) =~= encode_utf8(b),
    ensures
        a == b,
{
    assert(vstd::utf8::decode_utf8(encode_utf8(a)) == a);
    assert(vstd::utf8::decode_utf8(encode_utf8(b)) == b);
}

pub(crate) proof fn lemma_name_order(a: Seq<char>, b: Seq<char>, c: Seq<char>)
    ensures
        !name_lt(a, a),
        a == b || name_lt(a, b) || name_lt(b, a),
        !(name_lt(a, b) && name_lt(b, a)),
        name_lt(a, b) && name_lt(b, c) ==> name_lt(a, c),
        name_le(a, b) && name_le(b, c) ==> name_le(a, c),
        name_lt(a, b) && name_le(b, c) ==> name_lt(a, c),
{
    lemma_bytes_lt_irrefl(encode_utf8(a));
    lemma_bytes_lt_total(encode_utf8(a), encode_utf8(b));
    lemma_bytes_lt_total(encode_utf8(b), encode_utf8(c));
    lemma_bytes_lt_total(encode_utf8(a), encode_utf8(c));
    if encode_utf8(a) =~= encode_utf8(b) {
        lemma_encode_injective(a, b);
    }
    if encode_utf8(b) =~= encode_utf8(c) {
        lemma_encode_injective(b, c);
    }
    if encode_utf8(a) =~= encode_utf8(c) {
        lemma_encode_injective(a, c);
    }
    if name_lt(a, b) && name_lt(b, c) {
        lemma_bytes_lt_trans(encode_utf8(a), encode_utf8(b), encode_utf8(c));
    }
    if name_lt(c, b) && name_lt(b, a) {
        lemma_bytes_lt_trans(encode_utf8(c), encode_utf8(b), encode_utf8(a));
    }
    if name_lt(a, b) && name_le(b, c) && b != c {
        lemma_bytes_lt_trans(encode_utf8(a), encode_utf8(b), encode_utf8(c));
    }
    if name_lt(b, c) && name_lt(c, a) {
        lemma_bytes_lt_trans(encode_utf8(b), encode_utf8(c), encode_utf8(a));
    }
    if name_lt(c, a) && name_lt(a, b) {
        lemma_bytes_lt_trans(encode_utf8(c), encode_utf8(a), encode_utf8(b));
    }
}

proof fn lemma_bytes_lt_skip(a: Seq<u8>, b: Seq<u8>, i: int)
    requires
        0 <= i <= a.len(),
        i <= b.len(),
        forall|k: int| 0 <= k < i ==> a[k] == b[k],
    ensures
        bytes_lt(a, b) == bytes_lt(a.skip(i), b.skip(i)),
    decreases i,
{
    if i > 0 {
        lemma_bytes_lt_skip(a.drop_first(), b.drop_first(), i - 1);
        assert(a.drop_first().skip(i - 1) =~= a.skip(i));
        assert(b.drop_first().skip(i - 1) =~= b.skip(i));
    } else {
        assert(a.skip(0) =~= a);
        assert(b.skip(0) =~= b);
    }
}

/// `a < b` for Rust strings.
pub fn name_less(a: &String, b: &String) -> (r: bool)
    ensures
        r == name_lt(a@, b@),
{
    let x = a.as_str().as_bytes();
    let y = b.as_str().as_bytes();
    assert(x@ == encode_utf8(a@));
    assert(y@ == encode_utf8(b@));
    let n = if x.len() < y.len() {
        x.len()
    } else {
        y.len()
    };
    let mut i: usize = 0;
    while i < n
        invariant
            i <= n,
            n <= x@.len(),
            n <= y@.len(),
            n == x@.len() || n == y@.len(),
            x@ == encode_utf8(a@),
            y@ == encode_utf8(b@),
            forall|k: int| 0 <= k < i ==> x@[k] == y@[k],
        decreases n - i,
    {
        if x[i] != y[i] {
            proof {
                lemma_bytes_lt_skip(x@, y@, i as int);
                assert(x@.skip(i as int)[0] == x@[i as int]);
                assert(y@.skip(i as int)[0] == y@[i as int]);
            }
            return x[i] < y[i];
        }
        i = i + 1;
    }
    proof {
        lemma_bytes_lt_skip(x@, y@, i as int);
    }
    x.len() < y.len()
}

/// The characters of each name.
pub open spec fn views(v: Seq<String>) -> Seq<Seq<char>> {
    Seq::new(v.len(), |i: int| v[i]@)
}

/// The order on names, as a relation.
pub open spec fn name_order() -> spec_fn(Seq<char>, Seq<char>) -> bool {
    |a: Seq<char>, b: Seq<char>| name_le(a, b)
}

/// The order on names is a total order.
pub(crate) proof fn lemma_name_order_total()
    ensures
        vstd::relations::total_ordering(name_order()),
{
    let r = name_order();
    assert forall|a: Seq<char>| #[trigger] r(a, a) by {
        lemma_name_order(a, a, a);
    }
    assert forall|a: Seq<char>, b: Seq<char>| #[trigger] r(a, b) && #[trigger] r(b, a) implies a == b by {
        lemma_name_order(a, b, a);
    }
    assert forall|a: Seq<char>, b: Seq<char>, c: Seq<char>| #[trigger] r(a, b) && #[trigger] r(b, c) implies r(a, c) by {
        lemma_name_order(a, b, c);
    }
    assert forall|a: Seq<char>, b: Seq<char>| #[trigger] r(a, b) || #[trigger] r(b, a) by {
        lemma_name_order(a, b, a);
    }
}

/// `v` sorted in increasing order.
pub open spec fn names_sorted(v: Seq<String>) -> bool {
    forall|i: int, j: int| 0 <= i < j < v.len() ==> name_le(#[trigger] v[i]@, #[trigger] v[j]@)
}

/// The names of `v` in increasing order (a stable insertion sort).
pub fn sort_names(v: &Vec<String>) -> (r: Vec<String>)
    ensures
        names_sorted(r@),
        r@.to_multiset() == v@.to_multiset(),
        r@.len() == v@.len(),
        views(r@) == views(v@).sort_by(name_order()),
{
    broadcast use vstd::seq_lib::group_to_multiset_ensures;

    let mut out: Vec<String> = Vec::new();
    let mut i: usize = 0;
    while i < v.len()
        invariant
            i <= v@.len(),
            names_sorted(out@),
            out@.to_multiset() == v@.subrange(0, i as int).to_multiset(),
            views(out@).to_multiset() == views(v@.subrange(0, i as int)).to_multiset(),
            out@.len() == i,
        decreases v@.len() - i,
    {
        let x = v[i].clone();
        let mut pos: usize = 0;
        while pos < out.len() && !name_less(&x, &out[pos])
            invariant
                pos <= out@.len(),
                forall|q: int| 0 <= q < pos ==> name_le(#[trigger] out@[q]@, x@),
            decreases out@.len() - pos,
        {
            pos = pos + 1;
        }
        let ghost before = out@;
        out.insert(pos, x);
        proof {
            assert forall|a: int, b: int| 0 <= a < b < out@.len() implies name_le(#[trigger] out@[a]@, #[trigger] out@[b]@) by {
                if b == pos as int {
                    assert(out@[a] == before[a]);
                } else if a == pos as int {
                    assert(out@[b] == before[b - 1]);
                    lemma_name_order(x@, before[pos as int]@, before[b - 1]@);
                    if b - 1 > pos {
                        assert(name_le(before[pos as int]@, before[b - 1]@));
                    }
                } else {
                    let a0 = if a < pos { a } else { a - 1 };
                    let b0 = if b < pos { b } else { b - 1 };
                    assert(out@[a] == before[a0]);
                    assert(out@[b] == before[b0]);
                }
            }
            assert(out@ =~= before.insert(pos as int, v@[i as int]));
            vstd::seq_lib::to_multiset_insert(before, pos as int, v@[i as int]);
            vstd::seq_lib::to_multiset_build(v@.subrange(0, i as int), v@[i as int]);
            assert(v@.subrange(0, i + 1) =~= v@.subrange(0, i as int).push(v@[i as int]));
            assert(views(out@) =~= views(before).insert(pos as int, v@[i as int]@));
            vstd::seq_lib::to_multiset_insert(views(before), pos as int, v@[i as int]@);
            assert(views(v@.subrange(0, i + 1)) =~= views(v@.subrange(0, i as int)).push(v@[i as int]@));
            vstd::seq_lib::to_multiset_build(views(v@.subrange(0, i as int)), v@[i as int]@);
        }
        i = i + 1;
    }
    proof {
        assert(v@.subrange(0, v@.len() as int) =~= v@);
        lemma_name_order_total();
        views(v@).lemma_sort_by_ensures(name_order());
        assert(vstd::relations::sorted_by(views(out@), name_order())) by {
            assert forall|a: int, b: int| 0 <= a < b < views(out@).len() implies #[trigger] (name_order())(
                views(out@)[a],
                views(out@)[b],
            ) by {
                assert(name_le(out@[a]@, out@[b]@));
            }
        }
        vstd::seq_lib::lemma_sorted_unique(views(out@), views(v@).sort_by(name_order()), name_order());
    }
    out
}

/// The names of `v` joined with `sep` between consecutive names.
pub open spec fn joined(v: Seq<Seq<char>>, sep: Seq<char>) -> Seq<char>
    decreases v.len(),
{
    if v.len() == 0 {
        Seq::empty()
    } else if v.len() == 1 {
        v[0]
    } else {
        joined(v.drop_last(), sep) + sep + v.last()
    }
}

/// No part is empty and none holds the character `c`.
pub open spec fn parts_ok(v: Seq<Seq<char>>, c: char) -> bool {
    forall|i: int| 0 <= i < v.len() ==> (#[trigger] v[i]).len() > 0 && !v[i].contains(c)
}

/// A joined sequence is empty only when there are no parts, holds the
/// separator only when there are two parts at least, and holds another
/// character only when a part does.
pub(crate) proof fn lemma_joined_chars(v: Seq<Seq<char>>, c: char, d: char)
    requires
        parts_ok(v, c),
    ensures
        v.len() >= 1 ==> joined(v, seq![c]).len() > 0,
        joined(v, seq![c]).contains(c) <==> v.len() >= 2,
        d != c && joined(v, seq![c]).contains(d) ==> exists|i: int| 0 <= i < v.len() && #[trigger] v[i].contains(d),
    decreases v.len(),
{
    let s = joined(v, seq![c]);
    if v.len() == 1 {
        assert(s == v[0]);
    } else if v.len() >= 2 {
        let a = joined(v.drop_last(), seq![c]);
        let x = v.last();
        lemma_joined_chars(v.drop_last(), c, d);
        assert(s == a + seq![c] + x);
        assert(s[a.len() as int] == c);
        if d != c && s.contains(d) {
            let p = choose|p: int| 0 <= p < s.len() && s[p] == d;
            if p < a.len() {
                assert(a[p] == d);
                assert(a.contains(d));
                let i = choose|i: int| 0 <= i < v.drop_last().len() && #[trigger] v.drop_last()[i].contains(d);
                assert(v[i] == v.drop_last()[i]);
            } else {
                assert(p > a.len());
                assert(x[p - a.len() - 1] == d);
                assert(x.contains(d));
                assert(v[v.len() - 1].contains(d));
            }
        }
    }
}

/// Parts that are not empty and do not hold the separator are given back
/// by their join: two such lists with the same join are equal.
pub(crate) proof fn lemma_joined_injective(u: Seq<Seq<char>>, w: Seq<Seq<char>>, c: char)
    requires
        parts_ok(u, c),
        parts_ok(w, c),
        joined(u, seq![c]) == joined(w, seq![c]),
    ensures
        u == w,
    decreases u.len(),
{
    let s = joined(u, seq![c]);
    lemma_joined_chars(u, c, c);
    lemma_joined_chars(w, c, c);
    if u.len() == 0 {
        assert(w.len() == 0);
        assert(u =~= w);
    } else if u.len() == 1 {
        assert(w.len() == 1);
        assert(u =~= w);
    } else {
        let a = joined(u.drop_last(), seq![c]);
        let b = joined(w.drop_last(), seq![c]);
        let x = u.last();
        let y = w.last();
        assert(s == a + seq![c] + x);
        assert(s == b + seq![c] + y);
        assert(parts_ok(u.drop_last(), c)) by {
            assert forall|i: int| 0 <= i < u.drop_last().len() implies (#[trigger] u.drop_last()[i]).len() > 0
                && !u.drop_last()[i].contains(c) by {
                assert(u.drop_last()[i] == u[i]);
            }
        }
        assert(parts_ok(w.drop_last(), c)) by {
            assert forall|i: int| 0 <= i < w.drop_last().len() implies (#[trigger] w.drop_last()[i]).len() > 0
                && !w.drop_last()[i].contains(c) by {
                assert(w.drop_last()[i] == w[i]);
            }
        }
        assert(!x.contains(c)) by {
            assert(x == u[u.len() - 1]);
        }
        assert(!y.contains(c)) by {
            assert(y == w[w.len() - 1]);
        }
        if x.len() < y.len() {
            let p = a.len() as int;
            assert(s[p] == c);
            assert(y[p - b.len() - 1] == s[p]);
            assert(y.contains(c));
        }
        if y.len() < x.len() {
            let p = b.len() as int;
            assert(s[p] == c);
            assert(x[p - a.len() - 1] == s[p]);
            assert(x.contains(c));
        }
        assert(a.len() == b.len());
        assert(a =~= b) by {
            assert forall|i: int| 0 <= i < a.len() implies a[i] == b[i] by {
                assert(a[i] == s[i]);
                assert(b[i] == s[i]);
            }
        }
        assert(x =~= y) by {
            assert forall|i: int| 0 <= i < x.len() implies x[i] == y[i] by {
                assert(x[i] == s[a.len() + 1 + i]);
                assert(y[i] == s[b.len() + 1 + i]);
            }
        }
        lemma_joined_injective(u.drop_last(), w.drop_last(), c);
        assert(u =~= w) by {
            assert forall|i: int| 0 <= i < u.len() implies u[i] == w[i] by {
                if i < u.len() - 1 {
                    assert(u[i] == u.drop_last()[i]);
                    assert(w[i] == w.drop_last()[i]);
                }
            }
        }
    }
}

/// `v.join(sep)`.
pub fn join_names(v: &Vec<String>, sep: &str) -> (r: String)
    ensures
        r@ == joined(views(v@), sep@),
{
    let mut r = String::new();
    let mut i: usize = 0;
    while i < v.len()
        invariant
            i <= v@.len(),
            r@ == joined(views(v@.take(i as int)), sep@),
        decreases v@.len() - i,
    {
        proof {
            assert(v@.take(i + 1).drop_last() =~= v@.take(i as int));
            assert(views(v@.take(i + 1)).drop_last() =~= views(v@.take(i as int)));
        }
        if i > 0 {
            r.append(sep);
        }
        r.append(v[i].as_str());
        proof {
            if i == 0 {
                assert(r@ =~= v@[0]@);
            }
        }
        i = i + 1;
    }
    proof {
        assert(v@.take(v@.len() as int) =~= v@);
    }
    r
}

} // verus!
