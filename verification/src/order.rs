//! The order in which names and paths are listed.
//!
//! Names are ordered character by character, paths name by name: of two
//! sequences the one with the smaller element at the first difference comes
//! first, and a sequence comes before each of its extensions.

use crate::path::PathView;
use vstd::prelude::*;
use vstd::relations::{connected, irreflexive, strict_total_ordering, transitive};
use vstd::std_specs::iter::IteratorSpec;

verus! {

/// `a` comes before `b` in the lexicographic order that `lt` induces.
pub open spec fn lex_lt<T>(lt: spec_fn(T, T) -> bool, a: Seq<T>, b: Seq<T>) -> bool
    decreases a.len(),
{
    if b.len() == 0 {
        false
    } else if a.len() == 0 {
        true
    } else if a[0] == b[0] {
        lex_lt(lt, a.drop_first(), b.drop_first())
    } else {
        lt(a[0], b[0])
    }
}

/// Characters are ordered by their code points.
pub open spec fn char_order() -> spec_fn(char, char) -> bool {
    |x: char, y: char| (x as u32) < (y as u32)
}

/// `a` comes before `b`: the order of names.
pub open spec fn name_lt(a: Seq<char>, b: Seq<char>) -> bool {
    lex_lt(char_order(), a, b)
}

/// The order of names, as a relation.
pub open spec fn name_order() -> spec_fn(Seq<char>, Seq<char>) -> bool {
    |a: Seq<char>, b: Seq<char>| name_lt(a, b)
}

/// `p` comes before `q`: the order of paths, in which a directory comes
/// before everything below it and siblings come in the order of their names.
pub open spec fn path_lt(p: PathView, q: PathView) -> bool {
    lex_lt(name_order(), p, q)
}

/// The order of paths, as a relation.
pub open spec fn path_order() -> spec_fn(PathView, PathView) -> bool {
    |p: PathView, q: PathView| path_lt(p, q)
}

/// Each path of `order` comes before all that follow it.
pub open spec fn ascending(order: Seq<PathView>) -> bool {
    forall|i: int, j: int|
        0 <= i < j < order.len() ==> path_lt(#[trigger] order[i], #[trigger] order[j])
}

/// No sequence comes before itself.
pub proof fn lemma_lex_irreflexive<T>(lt: spec_fn(T, T) -> bool, a: Seq<T>)
    ensures
        !lex_lt(lt, a, a),
    decreases a.len(),
{
    if a.len() > 0 {
        lemma_lex_irreflexive(lt, a.drop_first());
    }
}

/// Of two sequences at most one comes before the other.
pub proof fn lemma_lex_asymmetric<T>(lt: spec_fn(T, T) -> bool, a: Seq<T>, b: Seq<T>)
    requires
        irreflexive(lt),
        transitive(lt),
        lex_lt(lt, a, b),
    ensures
        !lex_lt(lt, b, a),
    decreases a.len(),
{
    if a.len() > 0 && b.len() > 0 {
        if a[0] == b[0] {
            lemma_lex_asymmetric(lt, a.drop_first(), b.drop_first());
        } else {
            if lt(b[0], a[0]) {
                assert(lt(a[0], b[0]) && lt(b[0], a[0]));
                assert(lt(a[0], a[0]));
            }
        }
    }
}

/// Coming before is transitive.
pub proof fn lemma_lex_transitive<T>(lt: spec_fn(T, T) -> bool, a: Seq<T>, b: Seq<T>, c: Seq<T>)
    requires
        irreflexive(lt),
        transitive(lt),
        lex_lt(lt, a, b),
        lex_lt(lt, b, c),
    ensures
        lex_lt(lt, a, c),
    decreases a.len(),
{
    if a.len() > 0 {
        if a[0] == b[0] && b[0] == c[0] {
            lemma_lex_transitive(lt, a.drop_first(), b.drop_first(), c.drop_first());
        } else if a[0] == b[0] {
        } else if b[0] == c[0] {
        } else {
            assert(lt(a[0], b[0]) && lt(b[0], c[0]));
            assert(lt(a[0], c[0]));
            if a[0] == c[0] {
                assert(lt(a[0], a[0]));
            }
        }
    }
}

/// Of two different sequences one comes before the other.
pub proof fn lemma_lex_connected<T>(lt: spec_fn(T, T) -> bool, a: Seq<T>, b: Seq<T>)
    requires
        connected(lt),
        a != b,
    ensures
        lex_lt(lt, a, b) || lex_lt(lt, b, a),
    decreases a.len(),
{
    if a.len() > 0 && b.len() > 0 {
        if a[0] == b[0] {
            if a.drop_first() == b.drop_first() {
                assert(a =~= seq![a[0]] + a.drop_first());
                assert(b =~= seq![b[0]] + b.drop_first());
            }
            lemma_lex_connected(lt, a.drop_first(), b.drop_first());
        } else {
            assert(lt(a[0], b[0]) || lt(b[0], a[0]));
        }
    } else {
        if a.len() == 0 && b.len() == 0 {
            assert(a =~= b);
        }
    }
}

/// The lexicographic order over a strict total order is a strict total order.
pub proof fn lemma_lex_strict_total<T>(lt: spec_fn(T, T) -> bool)
    requires
        strict_total_ordering(lt),
    ensures
        strict_total_ordering(|a: Seq<T>, b: Seq<T>| lex_lt(lt, a, b)),
{
    let lex = |a: Seq<T>, b: Seq<T>| lex_lt(lt, a, b);
    assert forall|a: Seq<T>| #[trigger] lex(a, a) == false by {
        lemma_lex_irreflexive(lt, a);
    }
    assert forall|a: Seq<T>, b: Seq<T>| #[trigger] lex(a, b) && #[trigger] lex(b, a) implies
        a == b by {
        lemma_lex_asymmetric(lt, a, b);
    }
    assert forall|a: Seq<T>, b: Seq<T>, c: Seq<T>|
        #[trigger] lex(a, b) && #[trigger] lex(b, c) implies lex(a, c) by {
        lemma_lex_transitive(lt, a, b, c);
    }
    assert forall|a: Seq<T>, b: Seq<T>| a != b implies
        #[trigger] lex(a, b) || #[trigger] lex(b, a) by {
        lemma_lex_connected(lt, a, b);
    }
}

/// The order of characters is a strict total order.
pub proof fn lemma_char_order()
    ensures
        strict_total_ordering(char_order()),
{
    let lt = char_order();
    assert forall|x: char, y: char| x != y implies #[trigger] lt(x, y) || #[trigger] lt(y, x) by {
        lemma_code_points_differ(x, y);
    }
}

/// Different characters have different code points.
proof fn lemma_code_points_differ(x: char, y: char)
    requires
        x != y,
    ensures
        x as u32 != y as u32,
{
}

/// The order of names is a strict total order.
pub proof fn lemma_name_order()
    ensures
        strict_total_ordering(name_order()),
{
    lemma_char_order();
    lemma_lex_strict_total(char_order());
    let lex = |a: Seq<char>, b: Seq<char>| lex_lt(char_order(), a, b);
    assert forall|a: Seq<char>, b: Seq<char>| #[trigger] name_order()(a, b) == lex(a, b) by {}
    assert(name_order() =~= lex);
}

/// The order of paths is a strict total order.
pub proof fn lemma_path_order()
    ensures
        strict_total_ordering(path_order()),
{
    lemma_name_order();
    lemma_lex_strict_total(name_order());
    let lex = |p: PathView, q: PathView| lex_lt(name_order(), p, q);
    assert(path_order() =~= lex);
}

/// No name comes before itself.
pub proof fn lemma_name_lt_irreflexive(a: Seq<char>)
    ensures
        !name_lt(a, a),
{
    lemma_lex_irreflexive(char_order(), a);
}

/// Coming before is transitive among names.
pub proof fn lemma_name_lt_transitive(a: Seq<char>, b: Seq<char>, c: Seq<char>)
    requires
        name_lt(a, b),
        name_lt(b, c),
    ensures
        name_lt(a, c),
{
    lemma_char_order();
    lemma_lex_transitive(char_order(), a, b, c);
}

/// No path comes before itself.
pub proof fn lemma_path_lt_irreflexive(p: PathView)
    ensures
        !path_lt(p, p),
{
    lemma_lex_irreflexive(name_order(), p);
}

/// Of two paths at most one comes before the other.
pub proof fn lemma_path_lt_asymmetric(p: PathView, q: PathView)
    requires
        path_lt(p, q),
    ensures
        !path_lt(q, p),
{
    lemma_name_order();
    lemma_lex_asymmetric(name_order(), p, q);
}

/// Coming before is transitive among paths.
pub proof fn lemma_path_lt_transitive(p: PathView, q: PathView, r: PathView)
    requires
        path_lt(p, q),
        path_lt(q, r),
    ensures
        path_lt(p, r),
{
    lemma_name_order();
    lemma_lex_transitive(name_order(), p, q, r);
}

/// Of two different paths one comes before the other.
pub proof fn lemma_path_lt_connected(p: PathView, q: PathView)
    requires
        p != q,
    ensures
        path_lt(p, q) || path_lt(q, p),
{
    lemma_name_order();
    lemma_lex_connected(name_order(), p, q);
}

/// Behind a common first name two paths stand as their rests stand.
pub proof fn lemma_path_lt_behind(name: Seq<char>, p: PathView, q: PathView)
    ensures
        path_lt(seq![name] + p, seq![name] + q) == path_lt(p, q),
{
    assert((seq![name] + p).drop_first() =~= p);
    assert((seq![name] + q).drop_first() =~= q);
}

/// The root comes before every other path.
pub proof fn lemma_path_lt_root(p: PathView)
    ensures
        path_lt(PathView::empty(), p) == (p.len() > 0),
{
}

/// Of two paths whose first names differ, the one with the first name that
/// comes before the other's comes before the other.
pub proof fn lemma_path_lt_heads(p: PathView, q: PathView)
    requires
        p.len() > 0,
        q.len() > 0,
        name_lt(p[0], q[0]),
    ensures
        path_lt(p, q),
{
    lemma_name_lt_irreflexive(p[0]);
}

/// Two ascending sequences of paths that hold the same paths are equal.
pub proof fn lemma_ascending_unique(a: Seq<PathView>, b: Seq<PathView>)
    requires
        ascending(a),
        ascending(b),
        forall|p: PathView| a.contains(p) <==> b.contains(p),
    ensures
        a == b,
    decreases a.len(),
{
    if a.len() == 0 {
        if b.len() > 0 {
            assert(b.contains(b[0]));
        }
        assert(a =~= b);
    } else {
        assert(a.contains(a[0]));
        assert(b.contains(a[0]));
        let j = choose|j: int| 0 <= j < b.len() && b[j] == a[0];
        assert(b.contains(b[0]));
        let i = choose|i: int| 0 <= i < a.len() && a[i] == b[0];
        if i > 0 && j > 0 {
            lemma_path_lt_asymmetric(a[0], a[i]);
        }
        if i > 0 && j == 0 {
            lemma_path_lt_irreflexive(a[0]);
        }
        assert(a[0] == b[0]);
        let x = a.drop_first();
        let y = b.drop_first();
        assert forall|p: PathView| x.contains(p) <==> y.contains(p) by {
            if x.contains(p) {
                let k = choose|k: int| 0 <= k < x.len() && x[k] == p;
                assert(a[k + 1] == p);
                assert(a.contains(p));
                let m = choose|m: int| 0 <= m < b.len() && b[m] == p;
                if m == 0 {
                    lemma_path_lt_irreflexive(p);
                }
                assert(y[m - 1] == p);
            }
            if y.contains(p) {
                let k = choose|k: int| 0 <= k < y.len() && y[k] == p;
                assert(b[k + 1] == p);
                assert(b.contains(p));
                let m = choose|m: int| 0 <= m < a.len() && a[m] == p;
                if m == 0 {
                    lemma_path_lt_irreflexive(p);
                }
                assert(x[m - 1] == p);
            }
        }
        assert forall|i: int, j: int| 0 <= i < j < x.len() implies path_lt(
            #[trigger] x[i],
            #[trigger] x[j],
        ) by {
            assert(x[i] == a[i + 1] && x[j] == a[j + 1]);
        }
        assert forall|i: int, j: int| 0 <= i < j < y.len() implies path_lt(
            #[trigger] y[i],
            #[trigger] y[j],
        ) by {
            assert(y[i] == b[i + 1] && y[j] == b[j + 1]);
        }
        lemma_ascending_unique(x, y);
        assert(a =~= seq![a[0]] + x);
        assert(b =~= seq![b[0]] + y);
    }
}

/// An ascending sequence of paths takes in one more path at its place.
pub proof fn lemma_ascending_insert(
    order: Seq<PathView>,
    p: PathView,
) -> (grown: Seq<PathView>)
    requires
        ascending(order),
        !order.contains(p),
    ensures
        ascending(grown),
        forall|q: PathView| #[trigger] grown.contains(q) <==> order.contains(q) || q == p,
    decreases order.len(),
{
    if order.len() == 0 || path_lt(p, order[0]) {
        let grown = seq![p] + order;
        assert forall|i: int, j: int| 0 <= i < j < grown.len() implies path_lt(
            #[trigger] grown[i],
            #[trigger] grown[j],
        ) by {
            if i == 0 {
                if j > 1 {
                    lemma_path_lt_transitive(p, order[0], order[j - 1]);
                }
            } else {
                assert(grown[i] == order[i - 1] && grown[j] == order[j - 1]);
            }
        }
        assert forall|q: PathView|
            #[trigger] grown.contains(q) <==> order.contains(q) || q == p by {
            if order.contains(q) {
                let k = choose|k: int| 0 <= k < order.len() && order[k] == q;
                assert(grown[k + 1] == q);
            }
            if q == p {
                assert(grown[0] == q);
            }
            if grown.contains(q) {
                let k = choose|k: int| 0 <= k < grown.len() && grown[k] == q;
                if k > 0 {
                    assert(order[k - 1] == q);
                }
            }
        }
        grown
    } else {
        let first = order[0];
        let rest = order.drop_first();
        assert(order.contains(first));
        lemma_path_lt_connected(p, first);
        assert forall|i: int, j: int| 0 <= i < j < rest.len() implies path_lt(
            #[trigger] rest[i],
            #[trigger] rest[j],
        ) by {
            assert(rest[i] == order[i + 1] && rest[j] == order[j + 1]);
        }
        if rest.contains(p) {
            let k = choose|k: int| 0 <= k < rest.len() && rest[k] == p;
            assert(order[k + 1] == p);
        }
        let tail = lemma_ascending_insert(rest, p);
        let grown = seq![first] + tail;
        assert forall|i: int, j: int| 0 <= i < j < grown.len() implies path_lt(
            #[trigger] grown[i],
            #[trigger] grown[j],
        ) by {
            if i == 0 {
                let q = tail[j - 1];
                assert(tail.contains(q));
                if q != p {
                    let k = choose|k: int| 0 <= k < rest.len() && rest[k] == q;
                    assert(order[k + 1] == q);
                }
            } else {
                assert(grown[i] == tail[i - 1] && grown[j] == tail[j - 1]);
            }
        }
        assert forall|q: PathView|
            #[trigger] grown.contains(q) <==> order.contains(q) || q == p by {
            if order.contains(q) {
                let k = choose|k: int| 0 <= k < order.len() && order[k] == q;
                if k == 0 {
                    assert(grown[0] == q);
                } else {
                    assert(rest[k - 1] == q);
                    assert(tail.contains(q));
                    let m = choose|m: int| 0 <= m < tail.len() && tail[m] == q;
                    assert(grown[m + 1] == q);
                }
            }
            if q == p {
                assert(tail.contains(q));
                let m = choose|m: int| 0 <= m < tail.len() && tail[m] == q;
                assert(grown[m + 1] == q);
            }
            if grown.contains(q) {
                let k = choose|k: int| 0 <= k < grown.len() && grown[k] == q;
                if k > 0 {
                    assert(tail[k - 1] == q);
                    assert(tail.contains(q));
                    if q != p {
                        let m = choose|m: int| 0 <= m < rest.len() && rest[m] == q;
                        assert(order[m + 1] == q);
                    }
                }
            }
        }
        grown
    }
}

/// Finitely many paths can be put in ascending order.
pub proof fn lemma_ascending_exists(paths: Set<PathView>) -> (order: Seq<PathView>)
    requires
        paths.finite(),
    ensures
        ascending(order),
        forall|q: PathView| #[trigger] order.contains(q) <==> paths.contains(q),
    decreases paths.len(),
{
    if paths.len() == 0 {
        let order = Seq::<PathView>::empty();
        assert forall|q: PathView| #[trigger] order.contains(q) <==> paths.contains(q) by {
            if paths.contains(q) {
                assert(paths.len() > 0);
            }
        }
        order
    } else {
        let p = paths.choose();
        let rest = lemma_ascending_exists(paths.remove(p));
        let order = lemma_ascending_insert(rest, p);
        assert forall|q: PathView| #[trigger] order.contains(q) <==> paths.contains(q) by {
            assert(rest.contains(q) <==> paths.remove(p).contains(q));
        }
        order
    }
}

/// Decides whether `c` comes before `d` in the order of characters.
fn char_precedes(c: char, d: char) -> (before: bool)
    ensures
        before == char_order()(c, d),
{
    c < d
}

/// How one name stands to another in the order of names.
#[derive(Debug, PartialEq, Eq, Structural)]
pub enum Relation {
    /// The first comes before the second.
    Before,
    /// The two are the same name.
    Same,
    /// The first comes after the second.
    After,
}

/// Tells how `a` stands to `b` in the order of names.
pub fn compare(a: &str, b: &str) -> (relation: Relation)
    ensures
        relation is Before <==> name_lt(a@, b@),
        relation is Same <==> a@ == b@,
        relation is After <==> name_lt(b@, a@),
{
    proof {
        lemma_char_order();
        lemma_lex_irreflexive(char_order(), a@);
        if name_lt(a@, b@) {
            lemma_lex_asymmetric(char_order(), a@, b@);
        }
        if name_lt(b@, a@) {
            lemma_lex_asymmetric(char_order(), b@, a@);
        }
    }
    let mut left = a.chars();
    let mut right = b.chars();
    let ghost mut seen: int = 0;
    proof {
        assert(a@.skip(0) =~= a@);
        assert(b@.skip(0) =~= b@);
    }
    loop
        invariant
            0 <= seen <= a@.len(),
            seen <= b@.len(),
            left.remaining() == a@.skip(seen),
            right.remaining() == b@.skip(seen),
            a@.take(seen) == b@.take(seen),
            name_lt(a@, b@) == name_lt(left.remaining(), right.remaining()),
            name_lt(b@, a@) == name_lt(right.remaining(), left.remaining()),
        decreases a@.len() - seen,
    {
        let ghost left_before = left.remaining();
        let ghost right_before = right.remaining();
        let x = left.next();
        let y = right.next();
        match (x, y) {
            (None, None) => {
                proof {
                    assert(a@.take(seen) =~= a@);
                    assert(b@.take(seen) =~= b@);
                }
                return Relation::Same;
            },
            (None, Some(_)) => {
                return Relation::Before;
            },
            (Some(_), None) => {
                return Relation::After;
            },
            (Some(c), Some(d)) => {
                if c != d {
                    assert(name_lt(left_before, right_before) == char_order()(c, d));
                    assert(name_lt(right_before, left_before) == char_order()(d, c));
                    if char_precedes(c, d) {
                        return Relation::Before;
                    } else {
                        proof {
                            lemma_char_order();
                            assert(char_order()(c, d) || char_order()(d, c));
                        }
                        return Relation::After;
                    }
                }
                proof {
                    assert(a@.skip(seen).drop_first() =~= a@.skip(seen + 1));
                    assert(b@.skip(seen).drop_first() =~= b@.skip(seen + 1));
                    assert(a@.take(seen + 1) =~= a@.take(seen).push(c));
                    assert(b@.take(seen + 1) =~= b@.take(seen).push(d));
                    seen = seen + 1;
                }
            },
        }
    }
}

/// Tells whether `a` and `b` hold the same text.
pub fn same_text(a: &str, b: &str) -> (same: bool)
    ensures
        same == (a@ == b@),
{
    match compare(a, b) {
        Relation::Same => true,
        _ => false,
    }
}

} // verus!
