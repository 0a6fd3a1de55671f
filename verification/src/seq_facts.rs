//! Facts about strictly sorted sequences of keys.
//!
//! The in-order key sequence of a well-formed B-tree node is strictly
//! ascending; these lemmas provide the sequence-level reasoning the tree
//! proofs rest on: gluing sorted pieces around a middle element, cutting a
//! sorted sequence into bounded pieces, and the uniqueness of a strictly
//! sorted sequence with a given membership.

use vstd::prelude::*;

verus! {

/// A sequence is strictly ascending: any later element is strictly larger.
pub open spec fn sorted_strict(s: Seq<u64>) -> bool {
    forall|i: int, j: int| 0 <= i < j < s.len() ==> s[i] < s[j]
}

/// A value occurs in a concatenation exactly when it occurs in one of the parts.
pub proof fn lemma_concat_contains(a: Seq<u64>, b: Seq<u64>, x: u64)
    ensures
        (a + b).contains(x) <==> a.contains(x) || b.contains(x),
{
    if a.contains(x) {
        let i = choose|i: int| 0 <= i < a.len() && a[i] == x;
        assert((a + b)[i] == x);
    }
    if b.contains(x) {
        let i = choose|i: int| 0 <= i < b.len() && b[i] == x;
        assert((a + b)[a.len() + i] == x);
    }
    if (a + b).contains(x) {
        let i = choose|i: int| 0 <= i < (a + b).len() && (a + b)[i] == x;
        if i < a.len() {
            assert(a[i] == x);
        } else {
            assert(b[i - a.len()] == x);
        }
    }
}

/// A singleton holds exactly its one element.
pub proof fn lemma_singleton_contains(m: u64, x: u64)
    ensures
        seq![m].contains(x) <==> x == m,
{
    if x == m {
        assert(seq![m][0] == x);
    }
}

/// Gluing sorted pieces around a strictly separating middle element keeps the
/// whole strictly sorted.
pub proof fn lemma_sorted_glue(a: Seq<u64>, m: u64, b: Seq<u64>)
    requires
        sorted_strict(a),
        sorted_strict(b),
        forall|x: u64| a.contains(x) ==> x < m,
        forall|x: u64| b.contains(x) ==> x > m,
    ensures
        sorted_strict(a + seq![m] + b),
{
    let c = a + seq![m] + b;
    assert forall|i: int, j: int| 0 <= i < j < c.len() implies c[i] < c[j] by {
        if i < a.len() {
            assert(c[i] == a[i]);
            assert(a.contains(a[i]));
        } else if i == a.len() {
            assert(c[i] == m);
        } else {
            assert(c[i] == b[i - a.len() - 1]);
            assert(b.contains(b[i - a.len() - 1]));
        }
        if j < a.len() {
            assert(c[j] == a[j]);
            assert(a.contains(a[j]));
        } else if j == a.len() {
            assert(c[j] == m);
        } else {
            assert(c[j] == b[j - a.len() - 1]);
            assert(b.contains(b[j - a.len() - 1]));
        }
    }
}

/// Cutting a strictly sorted sequence at a middle element leaves sorted pieces
/// strictly bounded by that element.
pub proof fn lemma_sorted_cut(a: Seq<u64>, m: u64, b: Seq<u64>)
    requires
        sorted_strict(a + seq![m] + b),
    ensures
        sorted_strict(a),
        sorted_strict(b),
        forall|x: u64| a.contains(x) ==> x < m,
        forall|x: u64| b.contains(x) ==> x > m,
{
    let c = a + seq![m] + b;
    assert(c[a.len() as int] == m);
    assert forall|x: u64| a.contains(x) implies x < m by {
        let i = choose|i: int| 0 <= i < a.len() && a[i] == x;
        assert(c[i] == x);
    }
    assert forall|x: u64| b.contains(x) implies x > m by {
        let i = choose|i: int| 0 <= i < b.len() && b[i] == x;
        assert(c[a.len() + 1 + i] == x);
    }
    assert forall|i: int, j: int| 0 <= i < j < a.len() implies a[i] < a[j] by {
        assert(c[i] == a[i]);
        assert(c[j] == a[j]);
    }
    assert forall|i: int, j: int| 0 <= i < j < b.len() implies b[i] < b[j] by {
        assert(c[a.len() + 1 + i] == b[i]);
        assert(c[a.len() + 1 + j] == b[j]);
    }
}

/// Inserting a value strictly between its neighbours keeps a sequence strictly
/// sorted, and adds exactly that value to its membership.
pub proof fn lemma_sorted_insert(s: Seq<u64>, pos: int, v: u64)
    requires
        sorted_strict(s),
        0 <= pos <= s.len(),
        forall|j: int| 0 <= j < pos ==> s[j] < v,
        forall|j: int| pos <= j < s.len() ==> v < s[j],
    ensures
        sorted_strict(s.insert(pos, v)),
        forall|x: u64| s.insert(pos, v).contains(x) <==> s.contains(x) || x == v,
        s.insert(pos, v).len() == s.len() + 1,
{
    s.insert_ensures(pos, v);
    let t = s.insert(pos, v);
    assert forall|i: int, j: int| 0 <= i < j < t.len() implies t[i] < t[j] by {
        if i < pos {
            assert(t[i] == s[i]);
        } else if i == pos {
            assert(t[i] == v);
        } else {
            assert(t[i] == s[i - 1]);
        }
        if j < pos {
            assert(t[j] == s[j]);
        } else if j == pos {
            assert(t[j] == v);
        } else {
            assert(t[j] == s[j - 1]);
        }
    }
    assert forall|x: u64| t.contains(x) implies s.contains(x) || x == v by {
        let i = choose|i: int| 0 <= i < t.len() && t[i] == x;
        if i < pos {
            assert(s[i] == x);
        } else if i > pos {
            assert(s[i - 1] == x);
        }
    }
    assert forall|x: u64| s.contains(x) || x == v implies t.contains(x) by {
        if s.contains(x) {
            let i = choose|i: int| 0 <= i < s.len() && s[i] == x;
            if i < pos {
                assert(t[i] == x);
            } else {
                assert(t[i + 1] == x);
            }
        } else {
            assert(t[pos] == x);
        }
    }
}

/// The ascending, deduplicating insertion of a value into a sorted sequence:
/// the value lands before the first larger element, and a value already
/// present changes nothing.
pub open spec fn sorted_insert_seq(s: Seq<u64>, v: u64) -> Seq<u64>
    decreases s.len(),
{
    if s.len() == 0 {
        seq![v]
    } else if v < s[0] {
        seq![v] + s
    } else if v == s[0] {
        s
    } else {
        seq![s[0]] + sorted_insert_seq(s.skip(1), v)
    }
}

/// The ascending insertion adds exactly the inserted value to a sequence's
/// membership, whatever the sequence.
pub proof fn lemma_insert_seq_contains(s: Seq<u64>, v: u64, x: u64)
    ensures
        sorted_insert_seq(s, v).contains(x) <==> s.contains(x) || x == v,
    decreases s.len(),
{
    let t = sorted_insert_seq(s, v);
    if s.len() == 0 {
        lemma_singleton_contains(v, x);
    } else if v < s[0] {
        lemma_concat_contains(seq![v], s, x);
        lemma_singleton_contains(v, x);
    } else if v == s[0] {
        if x == v {
            assert(s[0] == x);
        }
    } else {
        let s1 = s.skip(1);
        lemma_insert_seq_contains(s1, v, x);
        lemma_concat_contains(seq![s[0]], sorted_insert_seq(s1, v), x);
        lemma_singleton_contains(s[0], x);
        if s.contains(x) && x != s[0] {
            let i = choose|i: int| 0 <= i < s.len() && s[i] == x;
            assert(s1[i - 1] == x);
        }
        if s1.contains(x) {
            let i = choose|i: int| 0 <= i < s1.len() && s1[i] == x;
            assert(s[i + 1] == x);
        }
    }
}

/// The ascending insertion keeps a strictly sorted sequence strictly sorted.
pub proof fn lemma_sorted_insert_seq(s: Seq<u64>, v: u64)
    requires
        sorted_strict(s),
    ensures
        sorted_strict(sorted_insert_seq(s, v)),
    decreases s.len(),
{
    let t = sorted_insert_seq(s, v);
    if s.len() == 0 {
    } else if v < s[0] {
        assert forall|i: int, j: int| 0 <= i < j < t.len() implies t[i] < t[j] by {
            if i > 0 {
                assert(t[i] == s[i - 1]);
            }
            assert(t[j] == s[j - 1]);
        }
    } else if v == s[0] {
    } else {
        let s1 = s.skip(1);
        assert forall|i: int, j: int| 0 <= i < j < s1.len() implies s1[i] < s1[j] by {
            assert(s1[i] == s[i + 1]);
            assert(s1[j] == s[j + 1]);
        }
        lemma_sorted_insert_seq(s1, v);
        let r = sorted_insert_seq(s1, v);
        assert forall|i: int, j: int| 0 <= i < j < t.len() implies t[i] < t[j] by {
            assert(t[j] == r[j - 1]);
            assert(r.contains(r[j - 1]));
            if i == 0 {
                assert(t[i] == s[0]);
                assert forall|x: u64| #[trigger] r.contains(x) implies s[0] < x by {
                    lemma_insert_seq_contains(s1, v, x);
                    if s1.contains(x) {
                        let k = choose|k: int| 0 <= k < s1.len() && s1[k] == x;
                        assert(s[k + 1] == x);
                    }
                }
            } else {
                assert(t[i] == r[i - 1]);
            }
        }
    }
}

/// Two strictly sorted sequences holding exactly the same values are the same
/// sequence: a strictly sorted sequence is determined by its membership.
pub proof fn lemma_sorted_unique(s: Seq<u64>, t: Seq<u64>)
    requires
        sorted_strict(s),
        sorted_strict(t),
        forall|x: u64| s.contains(x) <==> t.contains(x),
    ensures
        s == t,
    decreases s.len(),
{
    if s.len() == 0 {
        if t.len() > 0 {
            assert(t.contains(t[0]));
        }
        assert(s =~= t);
    } else {
        assert(s.contains(s[0]));
        assert(t.len() > 0) by {
            assert(t.contains(s[0]));
        }
        assert(t[0] == s[0]) by {
            assert(t.contains(s[0]));
            let i = choose|i: int| 0 <= i < t.len() && t[i] == s[0];
            assert(t.contains(t[0]));
            assert(s.contains(t[0]));
            let j = choose|j: int| 0 <= j < s.len() && s[j] == t[0];
        }
        let s1 = s.skip(1);
        let t1 = t.skip(1);
        assert forall|i: int, j: int| 0 <= i < j < s1.len() implies s1[i] < s1[j] by {
            assert(s1[i] == s[i + 1]);
            assert(s1[j] == s[j + 1]);
        }
        assert forall|i: int, j: int| 0 <= i < j < t1.len() implies t1[i] < t1[j] by {
            assert(t1[i] == t[i + 1]);
            assert(t1[j] == t[j + 1]);
        }
        assert forall|x: u64| s1.contains(x) implies t1.contains(x) by {
            let i = choose|i: int| 0 <= i < s1.len() && s1[i] == x;
            assert(s[i + 1] == x);
            assert(s.contains(x));
            assert(x > s[0]);
            assert(t.contains(x));
            let j = choose|j: int| 0 <= j < t.len() && t[j] == x;
            assert(j > 0);
            assert(t1[j - 1] == x);
        }
        assert forall|x: u64| t1.contains(x) implies s1.contains(x) by {
            let i = choose|i: int| 0 <= i < t1.len() && t1[i] == x;
            assert(t[i + 1] == x);
            assert(t.contains(x));
            assert(x > t[0]);
            assert(s.contains(x));
            let j = choose|j: int| 0 <= j < s.len() && s[j] == x;
            assert(j > 0);
            assert(s1[j - 1] == x);
        }
        lemma_sorted_unique(s1, t1);
        assert forall|i: int| 0 <= i < s.len() implies s[i] == t[i] by {
            if i > 0 {
                assert(s1[i - 1] == s[i]);
                assert(t1[i - 1] == t[i]);
            }
        }
        assert(s =~= t);
    }
}

} // verus!
