use vstd::prelude::*;

use itertools::Itertools;

use crate::axioms::{
    associative, closed, has_identity, identity, inverse_structure, inverses, inverts,
    is_associative, is_closed, is_group, is_identity, lemma_identity_unique,
};
use crate::elements::{distinct, ElementSet};
use crate::operator::Operator;

verus! {

/// Why construction of a group failed.  Both failures are final for the
/// given set and operation: the checks are deterministic, so only another
/// set or operation can change the verdict.
#[derive(Clone, Copy, PartialEq, Eq, Debug)]
pub enum GroupError {
    /// Closure, identity or inverse structure failed.
    NotAGroup,
    /// The other axioms held, but associativity was checked and failed.
    NotAssociative,
}

impl GroupError {
    /// The failure's description.
    pub fn message(&self) -> (r: &'static str)
        ensures
            *self matches GroupError::NotAGroup ==> r@ == "elements and operator do not form a group"@,
            *self matches GroupError::NotAssociative ==> r@
                == "elements and operator do not satisfy associativity"@,
    {
        match self {
            GroupError::NotAGroup => "elements and operator do not form a group",
            GroupError::NotAssociative => "elements and operator do not satisfy associativity",
        }
    }
}

/// Commutativity: the order of the two operands never matters.
pub open spec fn abelian<T: Operator<T>>(s: Seq<T>) -> bool {
    forall|x: T, y: T|
        s.contains(x) && s.contains(y) ==> #[trigger] x.spec_operate(&y) == y.spec_operate(&x)
}

/// A validated group: a borrowed carrier set together with its identity
/// and the full inverse mapping.  A value of this type comes only out of
/// `GroupBuilder::build` after the required axiom checks have passed, and
/// never outlives the set it was built from.
pub struct Group<'a, T> {
    elements: &'a ElementSet<T>,
    inverses: Vec<usize>,
    identity: &'a T,
}

impl<'a, T: Operator<T>> Group<'a, T> {
    /// The members of the carrier set.
    pub closed spec fn spec_elements(self) -> Seq<T> {
        self.elements@
    }

    /// The identity element the group was validated against.
    pub closed spec fn spec_identity(self) -> T {
        *self.identity
    }

    /// For each position of the carrier, the position of its inverse.
    pub closed spec fn spec_inverses(self) -> Seq<usize> {
        self.inverses@
    }

    /// What construction established: a duplicate-free closed carrier
    /// whose inversion against the stored identity is a full bijection,
    /// recorded position by position in the stored mapping.
    pub open spec fn wf(self) -> bool {
        &&& distinct(self.spec_elements())
        &&& closed(self.spec_elements())
        &&& is_identity(self.spec_elements(), self.spec_identity())
        &&& inverse_structure(self.spec_elements(), self.spec_identity())
        &&& self.spec_inverses().len() == self.spec_elements().len()
        &&& forall|i: int|
            0 <= i < self.spec_elements().len() ==> (#[trigger] self.spec_inverses()[i])
                < self.spec_elements().len() && self.spec_elements()[i].spec_operate(
                &self.spec_elements()[self.spec_inverses()[i] as int],
            ) == self.spec_identity()
    }

    /// The identity element.
    pub fn identity(&self) -> (r: &T)
        ensures
            *r == self.spec_identity(),
    {
        self.identity
    }

    /// The carrier set the group was built from.
    pub fn elements(&self) -> (r: &ElementSet<T>)
        ensures
            r@ == self.spec_elements(),
    {
        self.elements
    }

    /// The one inverse of a member, or nothing for a value outside the set.
    pub fn inverse_of(&self, x: &T) -> (r: Option<&T>)
        requires
            self.wf(),
        ensures
            match r {
                Some(y) => self.spec_elements().contains(*x) && inverts(
                    self.spec_elements(),
                    self.spec_identity(),
                    *x,
                    *y,
                ),
                None => !self.spec_elements().contains(*x),
            },
    {
        let ghost s = self.spec_elements();
        let n = self.elements.len();
        let mut i: usize = 0;
        while i < n
            invariant
                self.wf(),
                s == self.spec_elements(),
                n == s.len(),
                i <= n,
                forall|a: int| 0 <= a < i ==> s[a] !== *x,
            decreases n - i,
        {
            if T::equals(self.elements.get(i), x) {
                let p = self.inverses[i];
                proof {
                    assert(self.spec_inverses()[i as int] < s.len() && s[i as int].spec_operate(
                        &s[self.spec_inverses()[i as int] as int],
                    ) == self.spec_identity());
                    assert(s.contains(s[i as int]));
                    assert(s.contains(s[p as int]));
                }
                return Some(self.elements.get(p));
            }
            i += 1;
        }
        None
    }
}

/// Relies on itertools' `Itertools::combinations` over `0..n` with size 2:
/// it yields every 2-element combination of the range, each in the order
/// the range produced it, so every pair of positions `i < j < n` comes out
/// exactly once.
#[verifier::external_body]
fn index_pairs(n: usize) -> (r: Vec<(usize, usize)>)
    ensures
        forall|k: int| 0 <= k < r@.len() ==> (#[trigger] r@[k]).0 < r@[k].1 < n,
        forall|i: usize, j: usize| i < j < n ==> r@.contains((i, j)),
{
    (0..n).combinations(2).map(|c| (c[0], c[1])).collect()
}

impl<'a, T: Operator<T>> Group<'a, T> {
    /// Whether the operation commutes on every pair of distinct members.
    pub fn is_abelian(&self) -> (r: bool)
        ensures
            r == abelian(self.spec_elements()),
    {
        let ghost s = self.spec_elements();
        let n = self.elements.len();
        let pairs = index_pairs(n);
        let np = pairs.len();
        let mut k: usize = 0;
        while k < np
            invariant
                s == self.spec_elements(),
                n == s.len(),
                np == pairs@.len(),
                k <= np,
                forall|k2: int| 0 <= k2 < np ==> (#[trigger] pairs@[k2]).0 < pairs@[k2].1 < n,
                forall|i2: usize, j2: usize| i2 < j2 < n ==> pairs@.contains((i2, j2)),
                forall|k2: int|
                    0 <= k2 < k ==> s[(#[trigger] pairs@[k2]).0 as int].spec_operate(
                        &s[pairs@[k2].1 as int],
                    ) == s[pairs@[k2].1 as int].spec_operate(&s[pairs@[k2].0 as int]),
            decreases np - k,
        {
            let a = pairs[k].0;
            let b = pairs[k].1;
            let xa = self.elements.get(a);
            let xb = self.elements.get(b);
            if !T::equals(&xa.operate(xb), &xb.operate(xa)) {
                proof {
                    assert(s.contains(s[a as int]));
                    assert(s.contains(s[b as int]));
                }
                return false;
            }
            k += 1;
        }
        proof {
            assert forall|x: T, y: T| s.contains(x) && s.contains(y) implies #[trigger] x.spec_operate(
                &y,
            ) == y.spec_operate(&x) by {
                let a = choose|a: int| 0 <= a < s.len() && s[a] == x;
                let b = choose|b: int| 0 <= b < s.len() && s[b] == y;
                if a < b {
                    assert(pairs@.contains((a as usize, b as usize)));
                    let k2 = choose|k2: int|
                        0 <= k2 < pairs@.len() && pairs@[k2] == (a as usize, b as usize);
                    assert(s[pairs@[k2].0 as int].spec_operate(&s[pairs@[k2].1 as int]) == s[
                        pairs@[k2].1 as int
                    ].spec_operate(&s[pairs@[k2].0 as int]));
                } else if b < a {
                    assert(pairs@.contains((b as usize, a as usize)));
                    let k2 = choose|k2: int|
                        0 <= k2 < pairs@.len() && pairs@[k2] == (b as usize, a as usize);
                    assert(s[pairs@[k2].0 as int].spec_operate(&s[pairs@[k2].1 as int]) == s[
                        pairs@[k2].1 as int
                    ].spec_operate(&s[pairs@[k2].0 as int]));
                }
            }
        }
        true
    }

    /// The candidate orders of subgroups: every divisor of the group's
    /// order, in ascending order.  Lagrange's theorem rules out all other
    /// orders; it does not promise a subgroup of each listed order.
    pub fn possible_orders_of_subgroups(&self) -> (r: Vec<u32>)
        requires
            self.spec_elements().len() <= u32::MAX,
        ensures
            forall|k: int|
                0 <= k < r@.len() ==> 1 <= (#[trigger] r@[k]) && r@[k]
                    <= self.spec_elements().len() && self.spec_elements().len() as int % (
                r@[k] as int) == 0,
            forall|d: u32|
                1 <= d <= self.spec_elements().len() && self.spec_elements().len() as int % (
                d as int) == 0 ==> r@.contains(d),
            forall|k1: int, k2: int| 0 <= k1 < k2 < r@.len() ==> r@[k1] < r@[k2],
    {
        let ghost s = self.spec_elements();
        let n: u32 = self.elements.len() as u32;
        let mut r: Vec<u32> = Vec::new();
        let mut d: u64 = 1;
        while d <= n as u64
            invariant
                s == self.spec_elements(),
                n == s.len(),
                1 <= d <= n as u64 + 1,
                forall|k: int|
                    0 <= k < r@.len() ==> 1 <= (#[trigger] r@[k]) && r@[k] < d && n as int % (
                    r@[k] as int) == 0,
                forall|d2: u32| 1 <= d2 < d && n as int % (d2 as int) == 0 ==> r@.contains(d2),
                forall|k1: int, k2: int| 0 <= k1 < k2 < r@.len() ==> r@[k1] < r@[k2],
            decreases n as u64 - d + 1,
        {
            if (n as u64) % d == 0 {
                let ghost old_r = r@;
                r.push(d as u32);
                proof {
                    assert forall|k1: int, k2: int| 0 <= k1 < k2 < r@.len() implies r@[k1]
                        < r@[k2] by {
                        if k2 == r@.len() - 1 {
                            assert(r@[k1] < d);
                        }
                    }
                    assert forall|d2: u32|
                        1 <= d2 < d + 1 && n as int % (d2 as int) == 0 implies r@.contains(
                        d2,
                    ) by {
                        if d2 < d {
                            assert(old_r.contains(d2));
                            let k = choose|k: int| 0 <= k < old_r.len() && old_r[k] == d2;
                            assert(r@[k] == d2);
                        } else {
                            assert(r@[r@.len() - 1] == d2);
                        }
                    }
                }
            }
            d += 1;
        }
        r
    }
}

/// Configuration for validating a carrier set as a group: the candidate
/// set and a flag deciding whether the cubic associativity check runs.
/// Skipping it is an explicit caller decision for sets whose operation is
/// already known to be associative; the cheaper checks always run.
pub struct GroupBuilder<'a, T> {
    elements: &'a ElementSet<T>,
    check_associative: bool,
}

impl<'a, T: Operator<T>> GroupBuilder<'a, T> {
    /// The candidate carrier set.
    pub closed spec fn spec_elements(self) -> Seq<T> {
        self.elements@
    }

    /// Whether `build` will run the associativity check.
    pub closed spec fn spec_check_associative(self) -> bool {
        self.check_associative
    }

    /// Start a builder for the given set; associativity is checked unless
    /// switched off.
    pub fn new(elements: &'a ElementSet<T>) -> (b: GroupBuilder<'a, T>)
        ensures
            b.spec_elements() == elements@,
            b.spec_check_associative(),
    {
        GroupBuilder { elements, check_associative: true }
    }

    /// Choose whether `build` runs the associativity check.
    pub fn check_associativity(self, check: bool) -> (b: GroupBuilder<'a, T>)
        ensures
            b.spec_elements() == self.spec_elements(),
            b.spec_check_associative() == check,
    {
        GroupBuilder { elements: self.elements, check_associative: check }
    }

    /// Validate the set and produce the group, or report why it is none.
    ///
    /// Closure, identity and inverse structure are always checked; the
    /// associativity check runs only when configured.  A set that forms a
    /// group is always accepted, whatever the flag.
    pub fn build(self) -> (r: Result<Group<'a, T>, GroupError>)
        requires
            distinct(self.spec_elements()),
        ensures
            match r {
                Ok(g) => {
                    &&& g.wf()
                    &&& g.spec_elements() == self.spec_elements()
                    &&& closed(self.spec_elements())
                    &&& is_identity(self.spec_elements(), g.spec_identity())
                    &&& inverse_structure(self.spec_elements(), g.spec_identity())
                    &&& self.spec_check_associative() ==> associative(self.spec_elements())
                },
                Err(e) => match e {
                    GroupError::NotAGroup => !closed(self.spec_elements()) || !has_identity(
                        self.spec_elements(),
                    ) || (exists|e2: T|
                        #[trigger] is_identity(self.spec_elements(), e2) && !inverse_structure(
                            self.spec_elements(),
                            e2,
                        )),
                    GroupError::NotAssociative => self.spec_check_associative() && !associative(
                        self.spec_elements(),
                    ) && closed(self.spec_elements()) && (exists|e2: T|
                        #[trigger] is_identity(self.spec_elements(), e2) && inverse_structure(
                            self.spec_elements(),
                            e2,
                        )),
                },
            },
            is_group(self.spec_elements()) ==> r is Ok,
            self.spec_check_associative() ==> (r is Ok <==> is_group(self.spec_elements())),
            !closed(self.spec_elements()) ==> r matches Err(GroupError::NotAGroup),
            !has_identity(self.spec_elements()) ==> r matches Err(GroupError::NotAGroup),
    {
        let ghost s = self.spec_elements();
        let identity_found = identity(self.elements);
        let inverse_map = inverses(self.elements);
        let closure = is_closed(self.elements);

        if !(closure && identity_found.is_some() && inverse_map.is_some()) {
            proof {
                if is_group(s) {
                    assert(closed(s));
                    let eg = choose|eg: T|
                        #[trigger] is_identity(s, eg) && inverse_structure(s, eg);
                    assert(has_identity(s));
                    if inverse_map is None && has_identity(s) {
                        let eb = choose|eb: T|
                            #[trigger] is_identity(s, eb) && !inverse_structure(s, eb);
                        lemma_identity_unique(s, eg, eb);
                    }
                    assert(false);
                }
                if identity_found is Some {
                    assert(has_identity(s));
                }
            }
            return Err(GroupError::NotAGroup);
        }

        let (ei, m) = inverse_map.unwrap();
        let group = Group {
            elements: self.elements,
            identity: self.elements.get(ei),
            inverses: m,
        };
        proof {
            assert(s.contains(s[ei as int]));
            assert(s.len() > 0);
            assert(has_identity(s));
        }

        if self.check_associative {
            if is_associative(self.elements) {
                Ok(group)
            } else {
                proof {
                    assert(!is_group(s));
                }
                Err(GroupError::NotAssociative)
            }
        } else {
            Ok(group)
        }
    }
}

} // verus!
