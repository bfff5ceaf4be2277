//! Ascending path order: paths compare by their UTF-8 bytes, as a byte-wise
//! collation does, and sorted lists of distinct paths.
use vstd::prelude::*;
use vstd::utf8::{encode_utf8, encode_utf8_decode_utf8};

verus! {

/// Lexicographic order on byte strings; a proper prefix comes first.
pub open spec fn bytes_lt(a: Seq<u8>, b: Seq<u8>) -> bool
    decreases a.len(),
{
    if a.len() == 0 {
        b.len() > 0
    } else if b.len() == 0 {
        false
    } else if a[0] != b[0] {
        a[0] < b[0]
    } else {
        bytes_lt(a.drop_first(), b.drop_first())
    }
}

/// `a` comes before `b` in ascending path order.
pub open spec fn path_lt(a: Seq<char>, b: Seq<char>) -> bool {
    bytes_lt(encode_utf8(a), encode_utf8(b))
}

/// The texts of a list of strings.
pub open spec fn texts(v: Seq<String>) -> Seq<Seq<char>> {
    v.map_values(|s: String| s@)
}

/// Each text comes strictly before the next one.
pub open spec fn strictly_ascending(v: Seq<Seq<char>>) -> bool {
    forall|i: int, j: int| 0 <= i < j < v.len() ==> path_lt(#[trigger] v[i], #[trigger] v[j])
}

pub proof fn lemma_bytes_lt_transitive(a: Seq<u8>, b: Seq<u8>, c: Seq<u8>)
    requires
        bytes_lt(a, b),
        bytes_lt(b, c),
    ensures
        bytes_lt(a, c),
    decreases a.len(),
{
    if a.len() > 0 && b.len() > 0 && c.len() > 0 && a[0] == b[0] && b[0] == c[0] {
        lemma_bytes_lt_transitive(a.drop_first(), b.drop_first(), c.drop_first());
    }
}

pub proof fn lemma_bytes_lt_total(a: Seq<u8>, b: Seq<u8>)
    requires
        a != b,
    ensures
        bytes_lt(a, b) || bytes_lt(b, a),
    decreases a.len(),
{
    if a.len() > 0 && b.len() > 0 && a[0] == b[0] {
        if a.drop_first() == b.drop_first() {
            assert(a =~= seq![a[0]] + a.drop_first());
            assert(b =~= seq![b[0]] + b.drop_first());
        }
        lemma_bytes_lt_total(a.drop_first(), b.drop_first());
    } else if a.len() == 0 && b.len() == 0 {
        assert(a =~= b);
    }
}

/// Compares two byte strings: negative, zero or positive as `a` comes
/// before, equals or comes after `b`.
fn compare_bytes(a: &[u8], b: &[u8]) -> (r: i8)
    ensures
        r < 0 <==> bytes_lt(a@, b@),
        r == 0 <==> a@ == b@,
{
    let mut i: usize = 0;
    assert(a@.skip(0) =~= a@ && b@.skip(0) =~= b@);
    assert(a@.take(0) =~= b@.take(0));
    while i < a.len() && i < b.len() && a[i] == b[i]
        invariant
            i <= a@.len(),
            i <= b@.len(),
            a@.take(i as int) == b@.take(i as int),
            bytes_lt(a@, b@) == bytes_lt(a@.skip(i as int), b@.skip(i as int)),
        decreases a@.len() - i,
    {
        proof {
            let sa = a@.skip(i as int);
            let sb = b@.skip(i as int);
            assert(sa.drop_first() =~= a@.skip(i + 1));
            assert(sb.drop_first() =~= b@.skip(i + 1));
            assert(a@.take(i + 1) =~= a@.take(i as int).push(a@[i as int]));
            assert(b@.take(i + 1) =~= b@.take(i as int).push(b@[i as int]));
        }
        i = i + 1;
    }
    let ghost sa = a@.skip(i as int);
    let ghost sb = b@.skip(i as int);
    if i == a.len() && i == b.len() {
        assert(a@ =~= a@.take(i as int));
        assert(b@ =~= b@.take(i as int));
        0
    } else if i == a.len() {
        assert(a@ != b@) by {
            if a@ == b@ {
                assert(a@.len() == b@.len());
            }
        }
        -1
    } else if i == b.len() {
        assert(a@ != b@) by {
            if a@ == b@ {
                assert(a@.len() == b@.len());
            }
        }
        1
    } else {
        assert(sa[0] == a@[i as int] && sb[0] == b@[i as int]);
        assert(a@ != b@) by {
            if a@ == b@ {
                assert(a@[i as int] == b@[i as int]);
            }
        }
        if a[i] < b[i] {
            -1
        } else {
            1
        }
    }
}

proof fn lemma_insert_keeps_ascending(v: Seq<Seq<char>>, i: int, x: Seq<char>)
    requires
        strictly_ascending(v),
        0 <= i <= v.len(),
        forall|m: int| 0 <= m < i ==> path_lt(#[trigger] v[m], x),
        forall|m: int| i <= m < v.len() ==> path_lt(x, #[trigger] v[m]),
    ensures
        strictly_ascending(v.insert(i, x)),
        v.insert(i, x).to_set() == v.to_set().insert(x),
{
    let w = v.insert(i, x);
    assert forall|p: int, q: int| 0 <= p < q < w.len() implies path_lt(#[trigger] w[p], #[trigger] w[q]) by {
        if q < i {
            assert(w[p] == v[p] && w[q] == v[q]);
        } else if q == i {
            assert(w[p] == v[p]);
        } else if p == i {
            assert(w[q] == v[q - 1]);
        } else if p < i {
            assert(w[p] == v[p] && w[q] == v[q - 1]);
        } else {
            assert(w[p] == v[p - 1] && w[q] == v[q - 1]);
        }
    }
    assert forall|e: Seq<char>| w.to_set().contains(e) <==> v.to_set().insert(x).contains(e) by {
        if w.to_set().contains(e) {
            let k = choose|k: int| 0 <= k < w.len() && w[k] == e;
            if k < i {
                assert(v[k] == e);
            } else if k > i {
                assert(v[k - 1] == e);
            }
        }
        if v.to_set().contains(e) {
            let k = choose|k: int| 0 <= k < v.len() && v[k] == e;
            if k < i {
                assert(w[k] == e);
            } else {
                assert(w[k + 1] == e);
            }
        }
        if e == x {
            assert(w[i] == x);
        }
    }
    assert(w.to_set() =~= v.to_set().insert(x));
}

/// Inserts `x` into a strictly ascending list of distinct paths, unless the
/// list already holds it.
pub fn insert_sorted(list: &mut Vec<String>, x: String)
    requires
        strictly_ascending(texts(old(list)@)),
    ensures
        strictly_ascending(texts(final(list)@)),
        texts(final(list)@).to_set() == texts(old(list)@).to_set().insert(x@),
{
    let ghost before = texts(list@);
    let mut i: usize = 0;
    while i < list.len()
        invariant
            list@ == old(list)@,
            before == texts(list@),
            strictly_ascending(before),
            i <= list@.len(),
            forall|m: int| 0 <= m < i ==> path_lt(#[trigger] before[m], x@),
        decreases list@.len() - i,
    {
        let c = compare_bytes(list[i].as_str().as_bytes(), x.as_str().as_bytes());
        if c == 0 {
            proof {
                encode_utf8_decode_utf8(list@[i as int]@);
                encode_utf8_decode_utf8(x@);
                assert(before[i as int] == x@);
                assert(before.to_set().insert(x@) =~= before.to_set());
            }
            return;
        }
        if c > 0 {
            proof {
                let e = encode_utf8(before[i as int]);
                lemma_bytes_lt_total(e, encode_utf8(x@));
                assert forall|m: int| i <= m < before.len() implies path_lt(x@, #[trigger] before[m]) by {
                    if m > i {
                        lemma_bytes_lt_transitive(encode_utf8(x@), e, encode_utf8(before[m]));
                    }
                }
                lemma_insert_keeps_ascending(before, i as int, x@);
            }
            let ghost xv = x@;
            list.insert(i, x);
            assert(texts(list@) =~= before.insert(i as int, xv));
            return;
        }
        i = i + 1;
    }
    proof {
        lemma_insert_keeps_ascending(before, i as int, x@);
    }
    let ghost xv = x@;
    list.push(x);
    assert(texts(list@) =~= before.insert(i as int, xv));
}

} // verus!
