use vstd::multiset::Multiset;
use vstd::prelude::*;
use vstd::utf8::encode_utf8;

use crate::chunk::pack;
use crate::text::utf8_bytes;

verus! {

broadcast use vstd::seq_lib::to_multiset_insert, vstd::seq_lib::group_to_multiset_ensures,
    vstd::multiset::group_multiset_axioms;

/// Lexicographic order on bytes: the order of `String`'s `Ord`.
pub open spec fn bytes_lt(a: Seq<u8>, b: Seq<u8>) -> bool
    decreases a.len(),
{
    if a.len() == 0 {
        b.len() > 0
    } else if b.len() == 0 {
        false
    } else if a[0] != b[0] {
        a[0] < b[0]
    } else {
        bytes_lt(a.skip(1), b.skip(1))
    }
}

/// The output order of entries `(path, content, priority)`: by priority,
/// then by path.
pub open spec fn entry_lt(a: (String, String, i32), b: (String, String, i32)) -> bool {
    a.2 < b.2 || (a.2 == b.2 && bytes_lt(encode_utf8(a.0@), encode_utf8(b.0@)))
}

/// No entry comes after one that should follow it.
pub open spec fn sorted(s: Seq<(String, String, i32)>) -> bool {
    forall|i: int, j: int| 0 <= i < j < s.len() ==> !entry_lt(#[trigger] s[j], #[trigger] s[i])
}

pub proof fn lemma_bytes_lt_irreflexive(a: Seq<u8>)
    ensures
        !bytes_lt(a, a),
    decreases a.len(),
{
    if a.len() > 0 {
        lemma_bytes_lt_irreflexive(a.skip(1));
    }
}

pub proof fn lemma_bytes_lt_transitive(a: Seq<u8>, b: Seq<u8>, c: Seq<u8>)
    requires
        bytes_lt(a, b),
        bytes_lt(b, c),
    ensures
        bytes_lt(a, c),
    decreases a.len(),
{
    if a.len() > 0 && b.len() > 0 && c.len() > 0 && a[0] == b[0] && b[0] == c[0] {
        lemma_bytes_lt_transitive(a.skip(1), b.skip(1), c.skip(1));
    }
}

pub proof fn lemma_bytes_lt_total(a: Seq<u8>, b: Seq<u8>)
    ensures
        bytes_lt(a, b) || bytes_lt(b, a) || a == b,
    decreases a.len(),
{
    if a.len() > 0 && b.len() > 0 && a[0] == b[0] {
        lemma_bytes_lt_total(a.skip(1), b.skip(1));
        if a.skip(1) == b.skip(1) {
            assert(a =~= seq![a[0]] + a.skip(1));
            assert(b =~= seq![b[0]] + b.skip(1));
        }
    } else if a.len() == 0 && b.len() == 0 {
        assert(a =~= b);
    }
}

/// `e < s[q]` for every `q` at or after `mid` once it holds at `mid`.
proof fn lemma_lt_upward(s: Seq<(String, String, i32)>, e: (String, String, i32), mid: int, q: int)
    requires
        sorted(s),
        0 <= mid <= q < s.len(),
        entry_lt(e, s[mid]),
    ensures
        entry_lt(e, s[q]),
{
    if mid < q {
        let a = encode_utf8(e.0@);
        let b = encode_utf8(s[mid].0@);
        let c = encode_utf8(s[q].0@);
        assert(!entry_lt(s[q], s[mid]));
        lemma_bytes_lt_total(b, c);
        if e.2 == s[mid].2 && s[mid].2 == s[q].2 && bytes_lt(b, c) {
            lemma_bytes_lt_transitive(a, b, c);
        }
    }
}

/// `s[q] <= e` for every `q` at or before `mid` once it holds at `mid`.
proof fn lemma_le_downward(s: Seq<(String, String, i32)>, e: (String, String, i32), mid: int, q: int)
    requires
        sorted(s),
        0 <= q <= mid < s.len(),
        !entry_lt(e, s[mid]),
    ensures
        !entry_lt(e, s[q]),
{
    if q < mid {
        let a = encode_utf8(e.0@);
        let b = encode_utf8(s[mid].0@);
        let c = encode_utf8(s[q].0@);
        assert(!entry_lt(s[mid], s[q]));
        lemma_bytes_lt_total(a, b);
        lemma_bytes_lt_total(c, b);
        if e.2 == s[q].2 && s[q].2 == s[mid].2 && bytes_lt(a, c) {
            if bytes_lt(c, b) {
                lemma_bytes_lt_transitive(a, c, b);
            } else {
                assert(c == b);
            }
        }
    }
}

/// No two of the entries share a path, and none occurs twice.
pub open spec fn unique_paths(m: Multiset<(String, String, i32)>) -> bool {
    forall|x: (String, String, i32), y: (String, String, i32)|
        #![trigger m.count(x), m.count(y)]
        m.count(x) > 0 && m.count(y) > 0 && x.0@ == y.0@ ==> x == y && m.count(x) == 1
}

proof fn lemma_sorted_unique(a: Seq<(String, String, i32)>, b: Seq<(String, String, i32)>)
    requires
        sorted(a),
        sorted(b),
        a.to_multiset() == b.to_multiset(),
        unique_paths(a.to_multiset()),
    ensures
        a == b,
    decreases a.len(),
{
    let m = a.to_multiset();
    a.to_multiset_ensures();
    b.to_multiset_ensures();
    if a.len() == 0 {
        assert(b.to_multiset().len() == 0);
        assert(b =~= a);
    } else {
        assert(b.len() == a.len());
        let x = a[0];
        let y = b[0];
        assert(a.contains(x));
        assert(m.count(x) > 0);
        assert(b.contains(y));
        assert(m.count(y) > 0);
        assert(b.contains(x));
        assert(a.contains(y));
        let j = choose|j: int| 0 <= j < b.len() && b[j] == x;
        let i = choose|i: int| 0 <= i < a.len() && a[i] == y;
        if x != y {
            assert(i != 0);
            assert(j != 0);
            assert(!entry_lt(a[i], a[0]));
            assert(!entry_lt(b[j], b[0]));
            let bx = encode_utf8(x.0@);
            let by = encode_utf8(y.0@);
            lemma_bytes_lt_total(bx, by);
            assert(bx == by);
            vstd::utf8::encode_utf8_decode_utf8(x.0@);
            vstd::utf8::encode_utf8_decode_utf8(y.0@);
            assert(x.0@ == y.0@);
        }
        let a1 = a.remove(0);
        let b1 = b.remove(0);
        assert(a1.to_multiset() == m.remove(x));
        assert(b1.to_multiset() == m.remove(x));
        let m1 = m.remove(x);
        assert forall|p: (String, String, i32), q: (String, String, i32)|
            #![trigger m1.count(p), m1.count(q)]
            m1.count(p) > 0 && m1.count(q) > 0 && p.0@ == q.0@ implies p == q && m1.count(p)
            == 1 by {
            assert(m.count(p) > 0 && m.count(q) > 0);
        }
        assert(sorted(a1)) by {
            assert forall|u: int, v: int| 0 <= u < v < a1.len() implies !entry_lt(
                #[trigger] a1[v],
                #[trigger] a1[u],
            ) by {
                assert(a1[v] == a[v + 1] && a1[u] == a[u + 1]);
            }
        }
        assert(sorted(b1)) by {
            assert forall|u: int, v: int| 0 <= u < v < b1.len() implies !entry_lt(
                #[trigger] b1[v],
                #[trigger] b1[u],
            ) by {
                assert(b1[v] == b[v + 1] && b1[u] == b[u + 1]);
            }
        }
        lemma_sorted_unique(a1, b1);
        assert(a =~= seq![x] + a1);
        assert(b =~= seq![x] + b1);
    }
}

/// The output depends only on which files were found, not on the order in
/// which discovery produced them: two discoveries of the same entries, each
/// sorted, give the same sequence and therefore the same chunks.
pub proof fn lemma_output_independent_of_discovery_order(
    found1: Seq<(String, String, i32)>,
    found2: Seq<(String, String, i32)>,
    sorted1: Seq<(String, String, i32)>,
    sorted2: Seq<(String, String, i32)>,
    threshold: nat,
    token_mode: bool,
)
    requires
        found1.to_multiset() == found2.to_multiset(),
        unique_paths(found1.to_multiset()),
        sorted(sorted1),
        sorted(sorted2),
        sorted1.to_multiset() == found1.to_multiset(),
        sorted2.to_multiset() == found2.to_multiset(),
    ensures
        sorted1 == sorted2,
        pack(sorted1, threshold, token_mode) == pack(sorted2, threshold, token_mode),
{
    lemma_sorted_unique(sorted1, sorted2);
}

fn bytes_less(a: &Vec<u8>, b: &Vec<u8>) -> (r: bool)
    ensures
        r == bytes_lt(a@, b@),
{
    let mut k: usize = 0;
    assert(a@.skip(0) =~= a@);
    assert(b@.skip(0) =~= b@);
    while k < a.len() && k < b.len() && a[k] == b[k]
        invariant
            k <= a@.len(),
            k <= b@.len(),
            bytes_lt(a@, b@) == bytes_lt(a@.skip(k as int), b@.skip(k as int)),
        decreases a@.len() - k,
    {
        assert(a@.skip(k as int).skip(1) =~= a@.skip(k + 1));
        assert(b@.skip(k as int).skip(1) =~= b@.skip(k + 1));
        k = k + 1;
    }
    if k == a.len() {
        k < b.len()
    } else if k == b.len() {
        false
    } else {
        a[k] < b[k]
    }
}

/// Whether `a` comes before `b` in output order.
pub fn entry_less(a: &(String, String, i32), b: &(String, String, i32)) -> (r: bool)
    ensures
        r == entry_lt(*a, *b),
{
    if a.2 != b.2 {
        a.2 < b.2
    } else {
        let pa = utf8_bytes(a.0.as_str());
        let pb = utf8_bytes(b.0.as_str());
        bytes_less(&pa, &pb)
    }
}

/// Sorts entries by priority, then by path, ascending.
pub fn sort_entries(entries: Vec<(String, String, i32)>) -> (r: Vec<(String, String, i32)>)
    ensures
        sorted(r@),
        r@.to_multiset() == entries@.to_multiset(),
{
    let mut out: Vec<(String, String, i32)> = Vec::new();
    let mut rest = entries;
    let ghost all = rest@;
    proof {
        assert(out@ =~= Seq::<(String, String, i32)>::empty());
        assert(out@.to_multiset() =~= Multiset::empty());
        assert(Multiset::<(String, String, i32)>::empty().add(rest@.to_multiset()) =~= rest@.to_multiset());
    }
    while rest.len() > 0
        invariant
            sorted(out@),
            out@.to_multiset().add(rest@.to_multiset()) == all.to_multiset(),
        decreases rest@.len(),
    {
        let ghost prev_rest = rest@;
        let e = rest.pop().unwrap();
        proof {
            assert(prev_rest =~= rest@.push(e));
        }
        let mut lo: usize = 0;
        let mut hi: usize = out.len();
        while lo < hi
            invariant
                lo <= hi <= out@.len(),
                sorted(out@),
                forall|q: int| 0 <= q < lo ==> !entry_lt(e, #[trigger] out@[q]),
                forall|q: int| hi <= q < out@.len() ==> entry_lt(e, #[trigger] out@[q]),
            decreases hi - lo,
        {
            let mid = lo + (hi - lo) / 2;
            if entry_less(&e, &out[mid]) {
                proof {
                    assert forall|q: int| mid <= q < out@.len() implies entry_lt(e, #[trigger] out@[q]) by {
                        lemma_lt_upward(out@, e, mid as int, q);
                    }
                }
                hi = mid;
            } else {
                proof {
                    assert forall|q: int| 0 <= q <= mid implies !entry_lt(e, #[trigger] out@[q]) by {
                        lemma_le_downward(out@, e, mid as int, q);
                    }
                }
                lo = mid + 1;
            }
        }
        let ghost old_out = out@;
        out.insert(lo, e);
        proof {
            assert forall|a: int, b: int| 0 <= a < b < out@.len() implies !entry_lt(
                #[trigger] out@[b],
                #[trigger] out@[a],
            ) by {
                if a == lo as int {
                    assert(out@[b] == old_out[b - 1]);
                    assert(entry_lt(e, old_out[b - 1]));
                    let x = encode_utf8(e.0@);
                    let y = encode_utf8(old_out[b - 1].0@);
                    if e.2 == old_out[b - 1].2 && bytes_lt(y, x) {
                        lemma_bytes_lt_transitive(x, y, x);
                        lemma_bytes_lt_irreflexive(x);
                    }
                } else if b == lo as int {
                    assert(out@[a] == old_out[a]);
                } else {
                    let a0 = if a < lo { a } else { a - 1 };
                    let b0 = if b < lo { b } else { b - 1 };
                    assert(out@[a] == old_out[a0]);
                    assert(out@[b] == old_out[b0]);
                }
            }
            assert(out@.to_multiset().add(rest@.to_multiset()) =~= old_out.to_multiset().add(
                prev_rest.to_multiset(),
            ));
        }
    }
    proof {
        assert(rest@ =~= Seq::<(String, String, i32)>::empty());
        assert(rest@.to_multiset() =~= Multiset::empty());
        assert(out@.to_multiset().add(Multiset::empty()) =~= out@.to_multiset());
    }
    out
}

} // verus!
