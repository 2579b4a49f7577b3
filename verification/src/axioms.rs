use vstd::prelude::*;

use crate::elements::ElementSet;
use crate::operator::Operator;

verus! {

/// Closure: every ordered pair of members combines to a member.
///
/// Kept opaque: its quantifier is exposed only where a proof reveals it,
/// which keeps the solver's instantiation in check.
#[verifier::opaque]
pub open spec fn closed<T: Operator<T>>(s: Seq<T>) -> bool {
    forall|x: T, y: T|
        s.contains(x) && s.contains(y) ==> s.contains(#[trigger] x.spec_operate(&y))
}

/// Associativity: grouping of a repeated operation does not affect the result.
///
/// Kept opaque for the same reason as `closed`.
#[verifier::opaque]
pub open spec fn associative<T: Operator<T>>(s: Seq<T>) -> bool {
    forall|x: T, y: T, z: T|
        s.contains(x) && s.contains(y) && s.contains(z) ==> (#[trigger] x.spec_operate(
            &y,
        ).spec_operate(&z)) == x.spec_operate(&y.spec_operate(&z))
}

/// `e` is a member that leaves every member unchanged when placed on the left.
pub open spec fn is_identity<T: Operator<T>>(s: Seq<T>, e: T) -> bool {
    &&& s.contains(e)
    &&& forall|y: T| s.contains(y) ==> #[trigger] e.spec_operate(&y) == y
}

/// Some member of the set is an identity.
pub open spec fn has_identity<T: Operator<T>>(s: Seq<T>) -> bool {
    exists|e: T| is_identity(s, e)
}

/// `y` is a member that inverts `x`: combining them yields the identity `e`.
pub open spec fn inverts<T: Operator<T>>(s: Seq<T>, e: T, x: T, y: T) -> bool {
    &&& s.contains(y)
    &&& x.spec_operate(&y) == e
}

/// Some member of the set inverts `x` against `e`.
pub open spec fn has_some_inverse<T: Operator<T>>(s: Seq<T>, e: T, x: T) -> bool {
    exists|y: T| #[trigger] inverts(s, e, x, y)
}

/// `y` is the inverse against `e` of some member of the set.
pub open spec fn inverts_something<T: Operator<T>>(s: Seq<T>, e: T, y: T) -> bool {
    exists|x: T| s.contains(x) && #[trigger] inverts(s, e, x, y)
}

/// Inversion against `e` is a well-defined bijection over the whole set:
/// every member has exactly one inverse, and every member is the inverse
/// of some member.
pub open spec fn inverse_structure<T: Operator<T>>(s: Seq<T>, e: T) -> bool {
    &&& forall|x: T| s.contains(x) ==> #[trigger] has_some_inverse(s, e, x)
    &&& forall|x: T, y1: T, y2: T|
        s.contains(x) && #[trigger] inverts(s, e, x, y1) && #[trigger] inverts(s, e, x, y2)
            ==> y1 == y2
    &&& forall|y: T| s.contains(y) ==> #[trigger] inverts_something(s, e, y)
}

/// The set is a group: it is non-empty, closed and associative, and some
/// identity admits a full inverse bijection.
pub open spec fn is_group<T: Operator<T>>(s: Seq<T>) -> bool {
    &&& s.len() > 0
    &&& closed(s)
    &&& associative(s)
    &&& exists|e: T| #[trigger] is_identity(s, e) && inverse_structure(s, e)
}

/// Closure check over every ordered pair of members.
pub fn is_closed<T: Operator<T>>(elements: &ElementSet<T>) -> (r: bool)
    ensures
        r == closed(elements@),
{
    proof {
        reveal(closed);
    }
    let ghost s = elements@;
    let n = elements.len();
    let mut i: usize = 0;
    while i < n
        invariant
            s == elements@,
            n == s.len(),
            i <= n,
            forall|a: int, b: int|
                0 <= a < i && 0 <= b < n ==> s.contains(#[trigger] s[a].spec_operate(&s[b])),
        decreases n - i,
    {
        let mut j: usize = 0;
        while j < n
            invariant
                s == elements@,
                n == s.len(),
                i < n,
                j <= n,
                forall|b: int| 0 <= b < j ==> s.contains(#[trigger] s[i as int].spec_operate(&s[b])),
                forall|a: int, b: int|
                    0 <= a < i && 0 <= b < n ==> s.contains(#[trigger] s[a].spec_operate(&s[b])),
            decreases n - j,
        {
            let z = elements.get(i).operate(elements.get(j));
            if !elements.contains(&z) {
                proof {
                    reveal(closed);
                    assert(s.contains(s[i as int]));
                    assert(s.contains(s[j as int]));
                }
                return false;
            }
            j += 1;
        }
        i += 1;
    }
    proof {
        assert forall|x: T, y: T| s.contains(x) && s.contains(y) implies s.contains(
            x.spec_operate(&y),
        ) by {
            let a = choose|a: int| 0 <= a < s.len() && s[a] == x;
            let b = choose|b: int| 0 <= b < s.len() && s[b] == y;
            assert(s.contains(s[a].spec_operate(&s[b])));
        }
    }
    true
}

/// Associativity check over every ordered triple of members.
pub fn is_associative<T: Operator<T>>(elements: &ElementSet<T>) -> (r: bool)
    ensures
        r == associative(elements@),
{
    proof {
        reveal(associative);
    }
    let ghost s = elements@;
    let n = elements.len();
    let mut i: usize = 0;
    while i < n
        invariant
            s == elements@,
            n == s.len(),
            i <= n,
            forall|a: int, b: int, c: int|
                0 <= a < i && 0 <= b < n && 0 <= c < n ==> (#[trigger] s[a].spec_operate(
                    &s[b],
                ).spec_operate(&s[c])) == s[a].spec_operate(&s[b].spec_operate(&s[c])),
        decreases n - i,
    {
        let mut j: usize = 0;
        while j < n
            invariant
                s == elements@,
                n == s.len(),
                i < n,
                j <= n,
                forall|b: int, c: int|
                    0 <= b < j && 0 <= c < n ==> (#[trigger] s[i as int].spec_operate(
                        &s[b],
                    ).spec_operate(&s[c])) == s[i as int].spec_operate(&s[b].spec_operate(&s[c])),
                forall|a: int, b: int, c: int|
                    0 <= a < i && 0 <= b < n && 0 <= c < n ==> (#[trigger] s[a].spec_operate(
                        &s[b],
                    ).spec_operate(&s[c])) == s[a].spec_operate(&s[b].spec_operate(&s[c])),
            decreases n - j,
        {
            let mut k: usize = 0;
            while k < n
                invariant
                    s == elements@,
                    n == s.len(),
                    i < n,
                    j < n,
                    k <= n,
                    forall|c: int|
                        0 <= c < k ==> (#[trigger] s[i as int].spec_operate(
                            &s[j as int],
                        ).spec_operate(&s[c])) == s[i as int].spec_operate(
                            &s[j as int].spec_operate(&s[c]),
                        ),
                decreases n - k,
            {
                let left = elements.get(i).operate(elements.get(j)).operate(elements.get(k));
                let right = elements.get(i).operate(&elements.get(j).operate(elements.get(k)));
                if !T::equals(&left, &right) {
                    proof {
                        reveal(associative);
                        assert(s.contains(s[i as int]));
                        assert(s.contains(s[j as int]));
                        assert(s.contains(s[k as int]));
                    }
                    return false;
                }
                k += 1;
            }
            j += 1;
        }
        i += 1;
    }
    proof {
        assert forall|x: T, y: T, z: T|
            s.contains(x) && s.contains(y) && s.contains(z) implies (x.spec_operate(
            &y,
        ).spec_operate(&z)) == x.spec_operate(&y.spec_operate(&z)) by {
            let a = choose|a: int| 0 <= a < s.len() && s[a] == x;
            let b = choose|b: int| 0 <= b < s.len() && s[b] == y;
            let c = choose|c: int| 0 <= c < s.len() && s[c] == z;
            assert((s[a].spec_operate(&s[b]).spec_operate(&s[c])) == s[a].spec_operate(
                &s[b].spec_operate(&s[c]),
            ));
        }
    }
    true
}

/// Index of the first member that is a left identity, if any.
fn identity_index<T: Operator<T>>(elements: &ElementSet<T>) -> (r: Option<usize>)
    ensures
        match r {
            Some(i) => i < elements@.len() && is_identity(elements@, elements@[i as int]),
            None => !has_identity(elements@),
        },
{
    let ghost s = elements@;
    let n = elements.len();
    let mut i: usize = 0;
    while i < n
        invariant
            s == elements@,
            n == s.len(),
            i <= n,
            forall|a: int| 0 <= a < i ==> !is_identity(s, #[trigger] s[a]),
        decreases n - i,
    {
        let mut ok = true;
        let mut j: usize = 0;
        while j < n
            invariant
                s == elements@,
                n == s.len(),
                i < n,
                j <= n,
                ok <==> forall|b: int|
                    0 <= b < j ==> #[trigger] s[i as int].spec_operate(&s[b]) == s[b],
            decreases n - j,
        {
            if !T::equals(&elements.get(i).operate(elements.get(j)), elements.get(j)) {
                ok = false;
            }
            j += 1;
        }
        if ok {
            proof {
                assert forall|y: T| s.contains(y) implies s[i as int].spec_operate(&y) == y by {
                    let b = choose|b: int| 0 <= b < s.len() && s[b] == y;
                    assert(s[i as int].spec_operate(&s[b]) == s[b]);
                }
                assert(s.contains(s[i as int]));
            }
            return Some(i);
        }
        proof {
            let b = choose|b: int| 0 <= b < n && s[i as int].spec_operate(&s[b]) != s[b];
            assert(s.contains(s[b]));
        }
        i += 1;
    }
    proof {
        assert forall|e: T| !is_identity(s, e) by {
            if is_identity(s, e) {
                let a = choose|a: int| 0 <= a < s.len() && s[a] == e;
                assert(!is_identity(s, s[a]));
            }
        }
    }
    None
}

/// A member that leaves every member unchanged when placed on the left,
/// or nothing when no member does.  Which of several identities is
/// returned is not pinned down; a well-formed group has only one.
pub fn identity<'a, T: Operator<T>>(elements: &'a ElementSet<T>) -> (r: Option<&'a T>)
    ensures
        match r {
            Some(e) => is_identity(elements@, *e),
            None => !has_identity(elements@),
        },
{
    match identity_index(elements) {
        Some(i) => Some(elements.get(i)),
        None => None,
    }
}

/// Position `p` holds the one member of the sequence that inverts the
/// member at position `a` against `e`.
pub open spec fn unique_inverse_at<T: Operator<T>>(s: Seq<T>, e: T, a: int, p: int) -> bool {
    &&& 0 <= p < s.len()
    &&& s[a].spec_operate(&s[p]) == e
    &&& forall|b: int| 0 <= b < s.len() && b != p ==> #[trigger] s[a].spec_operate(&s[b]) != e
}

/// Some entry of the mapping points at position `b`.
pub open spec fn covered(m: Seq<usize>, b: int) -> bool {
    exists|a: int| 0 <= a < m.len() && #[trigger] m[a] == b
}

/// When inversion against `e` is a full bijection, each position has a
/// unique inverse position.
proof fn lemma_structure_gives_unique_index<T: Operator<T>>(s: Seq<T>, e: T, a: int)
    requires
        crate::elements::distinct(s),
        inverse_structure(s, e),
        0 <= a < s.len(),
    ensures
        exists|p: int| unique_inverse_at(s, e, a, p),
{
    assert(s.contains(s[a]));
    assert(has_some_inverse(s, e, s[a]));
    let y = choose|y: T| inverts(s, e, s[a], y);
    let p = choose|p: int| 0 <= p < s.len() && s[p] == y;
    assert forall|b: int| 0 <= b < s.len() && b != p implies #[trigger] s[a].spec_operate(&s[b])
        != e by {
        if s[a].spec_operate(&s[b]) == e {
            assert(inverts(s, e, s[a], s[b]));
            assert(inverts(s, e, s[a], s[p]));
            assert(s[b] == s[p]);
        }
    }
    assert(unique_inverse_at(s, e, a, p));
}

/// When inversion against `e` is a full bijection and the mapping records
/// each position's unique inverse, every position is pointed at.
proof fn lemma_structure_covers<T: Operator<T>>(s: Seq<T>, e: T, m: Seq<usize>, j: int)
    requires
        inverse_structure(s, e),
        m.len() == s.len(),
        forall|a: int| 0 <= a < s.len() ==> unique_inverse_at(s, e, a, #[trigger] m[a] as int),
        0 <= j < s.len(),
    ensures
        covered(m, j),
{
    assert(s.contains(s[j]));
    assert(inverts_something(s, e, s[j]));
    let x = choose|x: T| s.contains(x) && #[trigger] inverts(s, e, x, s[j]);
    let a = choose|a: int| 0 <= a < s.len() && s[a] == x;
    assert(s[a].spec_operate(&s[j]) == e);
    assert(unique_inverse_at(s, e, a, m[a] as int));
    if m[a] != j {
        assert(s[a].spec_operate(&s[j]) != e);
    }
    assert(m[a] == j);
}

/// A mapping that records each position's unique inverse and points at
/// every position witnesses that inversion against `e` is a full bijection.
proof fn lemma_map_gives_structure<T: Operator<T>>(s: Seq<T>, e: T, m: Seq<usize>)
    requires
        m.len() == s.len(),
        forall|a: int| 0 <= a < s.len() ==> unique_inverse_at(s, e, a, #[trigger] m[a] as int),
        forall|b: int| 0 <= b < s.len() ==> #[trigger] covered(m, b),
    ensures
        inverse_structure(s, e),
{
    assert forall|x: T| s.contains(x) implies #[trigger] has_some_inverse(s, e, x) by {
        let a = choose|a: int| 0 <= a < s.len() && s[a] == x;
        assert(unique_inverse_at(s, e, a, m[a] as int));
        assert(s.contains(s[m[a] as int]));
        assert(inverts(s, e, x, s[m[a] as int]));
    }
    assert forall|x: T, y1: T, y2: T|
        s.contains(x) && #[trigger] inverts(s, e, x, y1) && #[trigger] inverts(s, e, x, y2)
        implies y1 == y2 by {
        let a = choose|a: int| 0 <= a < s.len() && s[a] == x;
        let b1 = choose|b: int| 0 <= b < s.len() && s[b] == y1;
        let b2 = choose|b: int| 0 <= b < s.len() && s[b] == y2;
        assert(unique_inverse_at(s, e, a, m[a] as int));
        assert(b1 == m[a] as int);
        assert(b2 == m[a] as int);
    }
    assert forall|y: T| s.contains(y) implies #[trigger] inverts_something(s, e, y) by {
        let b = choose|b: int| 0 <= b < s.len() && s[b] == y;
        assert(covered(m, b));
        let a = choose|a: int| 0 <= a < m.len() && m[a] == b;
        assert(unique_inverse_at(s, e, a, m[a] as int));
        assert(s.contains(s[a]));
        assert(inverts(s, e, s[a], y));
    }
}

/// Position of the one member that inverts the member at `i` against the
/// identity at `ei`, when exactly one member does.
fn unique_inverse_index<T: Operator<T>>(elements: &ElementSet<T>, ei: usize, i: usize) -> (r:
    Option<usize>)
    requires
        ei < elements@.len(),
        i < elements@.len(),
    ensures
        match r {
            Some(p) => unique_inverse_at(elements@, elements@[ei as int], i as int, p as int),
            None => forall|p: int|
                !unique_inverse_at(elements@, elements@[ei as int], i as int, p),
        },
{
    let ghost s = elements@;
    let ghost e = s[ei as int];
    let n = elements.len();
    let mut count: usize = 0;
    let mut idx: usize = 0;
    let mut j: usize = 0;
    while j < n
        invariant
            s == elements@,
            n == s.len(),
            i < n,
            ei < n,
            e == s[ei as int],
            j <= n,
            count <= j,
            count == 0 ==> forall|b: int|
                0 <= b < j ==> #[trigger] s[i as int].spec_operate(&s[b]) != e,
            count == 1 ==> idx < j && s[i as int].spec_operate(&s[idx as int]) == e && forall|
                b: int,
            |
                0 <= b < j && b != idx ==> #[trigger] s[i as int].spec_operate(&s[b]) != e,
            count >= 2 ==> exists|b1: int, b2: int|
                0 <= b1 < b2 < j && #[trigger] s[i as int].spec_operate(&s[b1]) == e
                    && #[trigger] s[i as int].spec_operate(&s[b2]) == e,
        decreases n - j,
    {
        if T::equals(&elements.get(i).operate(elements.get(j)), elements.get(ei)) {
            proof {
                if count == 1 {
                    assert(0 <= idx < j && s[i as int].spec_operate(&s[idx as int]) == e && s[
                        i as int
                    ].spec_operate(&s[j as int]) == e);
                }
            }
            count += 1;
            idx = j;
        }
        j += 1;
    }
    if count == 1 {
        Some(idx)
    } else {
        proof {
            assert forall|p: int| !unique_inverse_at(s, e, i as int, p) by {
                if unique_inverse_at(s, e, i as int, p) {
                    if count == 0 {
                        assert(s[i as int].spec_operate(&s[p]) != e);
                    } else {
                        let (b1, b2) = choose|b1: int, b2: int|
                            0 <= b1 < b2 < n && s[i as int].spec_operate(&s[b1]) == e && s[
                                i as int
                            ].spec_operate(&s[b2]) == e;
                        assert(b1 != p || b2 != p);
                    }
                }
            }
        }
        None
    }
}

/// Whether some entry of the mapping equals `j`.
fn has_preimage(m: &Vec<usize>, j: usize) -> (r: bool)
    ensures
        r == covered(m@, j as int),
{
    let n = m.len();
    let mut a: usize = 0;
    while a < n
        invariant
            n == m@.len(),
            a <= n,
            forall|a2: int| 0 <= a2 < a ==> #[trigger] m@[a2] != j,
        decreases n - a,
    {
        if m[a] == j {
            return true;
        }
        a += 1;
    }
    false
}

/// The full inverse mapping of the set, or nothing when inversion is not
/// a well-defined bijection over it.
///
/// A result `(ei, m)` gives the position `ei` of the identity the mapping
/// inverts against, and for each position `i` the position `m[i]` of the
/// one inverse of the member at `i`.  Nothing is returned when the set has
/// no identity, or when some member has no inverse or more than one, or
/// is the inverse of no member, against an identity of the set.
pub fn inverses<T: Operator<T>>(elements: &ElementSet<T>) -> (r: Option<(usize, Vec<usize>)>)
    requires
        elements.wf(),
    ensures
        match r {
            Some(p) => {
                &&& p.0 < elements@.len()
                &&& is_identity(elements@, elements@[p.0 as int])
                &&& inverse_structure(elements@, elements@[p.0 as int])
                &&& p.1@.len() == elements@.len()
                &&& forall|i: int|
                    0 <= i < elements@.len() ==> (#[trigger] p.1@[i]) < elements@.len()
                        && elements@[i].spec_operate(&elements@[p.1@[i] as int])
                        == elements@[p.0 as int]
            },
            None => !has_identity(elements@) || (exists|e: T|
                #[trigger] is_identity(elements@, e) && !inverse_structure(elements@, e)),
        },
{
    let ghost s = elements@;
    let ei = match identity_index(elements) {
        None => {
            return None;
        },
        Some(ei) => ei,
    };
    let ghost e = s[ei as int];
    let n = elements.len();
    let mut m: Vec<usize> = Vec::new();
    let mut i: usize = 0;
    while i < n
        invariant
            s == elements@,
            elements.wf(),
            n == s.len(),
            i <= n,
            ei < n,
            e == s[ei as int],
            is_identity(s, e),
            m@.len() == i,
            forall|a: int| 0 <= a < i ==> unique_inverse_at(s, e, a, #[trigger] m@[a] as int),
        decreases n - i,
    {
        match unique_inverse_index(elements, ei, i) {
            None => {
                proof {
                    if inverse_structure(s, e) {
                        lemma_structure_gives_unique_index(s, e, i as int);
                    }
                }
                return None;
            },
            Some(p) => {
                m.push(p);
            },
        }
        i += 1;
    }
    let mut j: usize = 0;
    while j < n
        invariant
            s == elements@,
            n == s.len(),
            j <= n,
            ei < n,
            e == s[ei as int],
            is_identity(s, e),
            m@.len() == n,
            forall|a: int| 0 <= a < n ==> unique_inverse_at(s, e, a, #[trigger] m@[a] as int),
            forall|b: int| 0 <= b < j ==> #[trigger] covered(m@, b),
        decreases n - j,
    {
        if !has_preimage(&m, j) {
            proof {
                if inverse_structure(s, e) {
                    lemma_structure_covers(s, e, m@, j as int);
                }
            }
            return None;
        }
        j += 1;
    }
    proof {
        lemma_map_gives_structure(s, e, m@);
        assert forall|i2: int| 0 <= i2 < s.len() implies (#[trigger] m@[i2]) < s.len()
            && s[i2].spec_operate(&s[m@[i2] as int]) == e by {
            assert(unique_inverse_at(s, e, i2, m@[i2] as int));
        }
    }
    Some((ei, m))
}

/// One instance of closure.
proof fn closed_at<T: Operator<T>>(s: Seq<T>, x: T, y: T)
    requires
        closed(s),
        s.contains(x),
        s.contains(y),
    ensures
        s.contains(x.spec_operate(&y)),
{
    reveal(closed);
}

/// One instance of associativity.
proof fn assoc_at<T: Operator<T>>(s: Seq<T>, x: T, y: T, z: T)
    requires
        associative(s),
        s.contains(x),
        s.contains(y),
        s.contains(z),
    ensures
        x.spec_operate(&y).spec_operate(&z) == x.spec_operate(&y.spec_operate(&z)),
{
    reveal(associative);
}

/// In a closed, associative set whose inversion against the identity `e`
/// is a full bijection, a right inverse is also a left inverse.
pub proof fn lemma_left_inverse<T: Operator<T>>(s: Seq<T>, e: T, x: T, y: T)
    requires
        closed(s),
        associative(s),
        is_identity(s, e),
        inverse_structure(s, e),
        s.contains(x),
        s.contains(y),
        x.spec_operate(&y) == e,
    ensures
        y.spec_operate(&x) == e,
{
    let u = y.spec_operate(&x);
    closed_at(s, y, x);
    assoc_at(s, x, y, x);
    assert(e.spec_operate(&x) == x);
    assert(x.spec_operate(&u) == x);
    assoc_at(s, y, x, u);
    assert(u.spec_operate(&u) == u);
    assert(inverts_something(s, e, u));
    let w = choose|w: T| s.contains(w) && #[trigger] inverts(s, e, w, u);
    assert(e.spec_operate(&u) == u);
    assoc_at(s, w, u, u);
    assert(u == e);
}

/// In such a set the left identity is a right identity as well.
pub proof fn lemma_right_identity<T: Operator<T>>(s: Seq<T>, e: T, x: T)
    requires
        closed(s),
        associative(s),
        is_identity(s, e),
        inverse_structure(s, e),
        s.contains(x),
    ensures
        x.spec_operate(&e) == x,
{
    assert(has_some_inverse(s, e, x));
    let y = choose|y: T| #[trigger] inverts(s, e, x, y);
    lemma_left_inverse(s, e, x, y);
    assoc_at(s, x, y, x);
    assert(e.spec_operate(&x) == x);
    assert(x.spec_operate(&e) == x);
}

/// Law: a set that satisfies all four group axioms against an identity `e`
/// has no other identity; the identity a validated group reports is the
/// only one.
pub proof fn lemma_identity_unique<T: Operator<T>>(s: Seq<T>, e: T, e2: T)
    requires
        closed(s),
        associative(s),
        is_identity(s, e),
        inverse_structure(s, e),
        is_identity(s, e2),
    ensures
        e2 == e,
{
    lemma_right_identity(s, e, e2);
    assert(e2.spec_operate(&e) == e);
}

/// Law: the inverse mapping of a group is an involution.  When `y` is the
/// inverse of `x`, `x` is in turn the one inverse of `y`, so taking the
/// inverse twice leads back to `x`.
pub proof fn lemma_inverse_involutive<T: Operator<T>>(s: Seq<T>, e: T, x: T, y: T)
    requires
        closed(s),
        associative(s),
        is_identity(s, e),
        inverse_structure(s, e),
        s.contains(x),
        inverts(s, e, x, y),
    ensures
        inverts(s, e, y, x),
        forall|z: T| #[trigger] inverts(s, e, y, z) ==> z == x,
{
    lemma_left_inverse(s, e, x, y);
    assert(inverts(s, e, y, x));
    assert forall|z: T| #[trigger] inverts(s, e, y, z) implies z == x by {
        assert(s.contains(y) && inverts(s, e, y, z) && inverts(s, e, y, x));
    }
}

/// Whether the set forms a group: non-empty, closed, associative, with an
/// identity and a full inverse bijection.
pub fn is_a_group<T: Operator<T>>(elements: &ElementSet<T>) -> (r: bool)
    requires
        elements.wf(),
    ensures
        r == is_group(elements@),
{
    let ghost s = elements@;
    if elements.len() == 0 {
        return false;
    }
    if !is_closed(elements) {
        return false;
    }
    if !is_associative(elements) {
        return false;
    }
    let id = identity(elements);
    if id.is_none() {
        proof {
            assert forall|e: T| !(#[trigger] is_identity(s, e) && inverse_structure(s, e)) by {
                if is_identity(s, e) {
                    assert(has_identity(s));
                }
            }
        }
        return false;
    }
    let inv = inverses(elements);
    if inv.is_none() {
        proof {
            if is_group(s) {
                let eg = choose|eg: T| #[trigger] is_identity(s, eg) && inverse_structure(s, eg);
                assert(has_identity(s));
                let eb = choose|eb: T| #[trigger] is_identity(s, eb) && !inverse_structure(s, eb);
                lemma_identity_unique(s, eg, eb);
                assert(false);
            }
        }
        return false;
    }
    proof {
        let p = inv.unwrap();
        assert(is_identity(s, s[p.0 as int]) && inverse_structure(s, s[p.0 as int]));
    }
    true
}

} // verus!
