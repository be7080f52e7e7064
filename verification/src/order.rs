//! The order of transaction identities.
//!
//! An identity is any type with a lawful total order. Two identities that compare equal name
//! the same transaction, whether or not they are the same value.

use vstd::laws_cmp::obeys_cmp;
use vstd::prelude::*;
use vstd::std_specs::cmp::{OrdSpec, PartialEqSpec, PartialOrdSpec};

verus! {

/// The comparison operators of `I` agree with each other and form a total order.
pub open spec fn ordered<I: Ord>() -> bool {
    obeys_cmp::<I>()
}

/// `a` comes strictly before `b`.
pub open spec fn before<I: Ord>(a: I, b: I) -> bool {
    a.cmp_spec(&b) is Less
}

/// `a` and `b` name the same transaction.
pub open spec fn same<I: Ord>(a: I, b: I) -> bool {
    a.cmp_spec(&b) is Equal
}

/// What a total order gives: one of three relations holds of any two identities, `same` is an
/// equivalence, `before` is transitive, and neither distinguishes equal identities.
pub proof fn lemma_order<I: Ord>()
    requires
        ordered::<I>(),
    ensures
        forall|a: I| #[trigger] same(a, a),
        forall|a: I, b: I| #[trigger] same(a, b) ==> same(b, a) && !before(a, b) && !before(b, a),
        forall|a: I, b: I| #[trigger] before(a, b) ==> !before(b, a) && !same(a, b) && !same(b, a),
        forall|a: I, b: I|
            #![trigger before(a, b)]
            #![trigger same(a, b)]
            before(a, b) || same(a, b) || before(b, a),
        forall|a: I, b: I, c: I|
            #[trigger] before(a, b) && #[trigger] before(b, c) ==> before(a, c),
        forall|a: I, b: I, c: I| #[trigger] same(a, b) && #[trigger] same(b, c) ==> same(a, c),
        forall|a: I, b: I, c: I|
            #[trigger] same(a, b) && #[trigger] before(b, c) ==> before(a, c),
        forall|a: I, b: I, c: I|
            #[trigger] before(a, b) && #[trigger] same(b, c) ==> before(a, c),
{
    reveal(vstd::laws_eq::obeys_eq_spec_properties);
    reveal(vstd::laws_cmp::obeys_partial_cmp_spec_properties);
    reveal(vstd::laws_cmp::obeys_cmp_partial_ord);
    reveal(vstd::laws_cmp::obeys_cmp_ord);
    assert forall|a: I, b: I| #[trigger] same(a, b) implies same(b, a) && !before(a, b) && !before(
        b,
        a,
    ) by {
        assert(a.partial_cmp_spec(&b) == Some(a.cmp_spec(&b)));
        assert(b.partial_cmp_spec(&a) == Some(b.cmp_spec(&a)));
        assert(a.eq_spec(&b) && b.eq_spec(&a));
    }
    assert forall|a: I, b: I| #[trigger] before(a, b) implies !before(b, a) && !same(a, b) && !same(
        b,
        a,
    ) by {
        assert(a.partial_cmp_spec(&b) == Some(a.cmp_spec(&b)));
        assert(b.partial_cmp_spec(&a) == Some(b.cmp_spec(&a)));
    }
    assert forall|a: I, b: I|
        #![trigger before(a, b)]
        #![trigger same(a, b)]
        before(a, b) || same(a, b) || before(b, a) by {
        assert(a.partial_cmp_spec(&b) == Some(a.cmp_spec(&b)));
        assert(b.partial_cmp_spec(&a) == Some(b.cmp_spec(&a)));
    }
    assert forall|a: I| #[trigger] same(a, a) by {
        assert(before(a, a) || same(a, a));
    }
    assert forall|a: I, b: I, c: I| #[trigger] before(a, b) && #[trigger] before(b, c) implies before(
        a,
        c,
    ) by {
        assert(a.partial_cmp_spec(&b) == Some(a.cmp_spec(&b)));
        assert(b.partial_cmp_spec(&c) == Some(b.cmp_spec(&c)));
        assert(a.partial_cmp_spec(&c) == Some(a.cmp_spec(&c)));
    }
    assert forall|a: I, b: I, c: I| #[trigger] same(a, b) && #[trigger] same(b, c) implies same(
        a,
        c,
    ) by {
        assert(a.partial_cmp_spec(&b) == Some(a.cmp_spec(&b)));
        assert(b.partial_cmp_spec(&c) == Some(b.cmp_spec(&c)));
        assert(a.partial_cmp_spec(&c) == Some(a.cmp_spec(&c)));
        assert(a.eq_spec(&b) && b.eq_spec(&c) && a.eq_spec(&c));
    }
    assert forall|a: I, b: I, c: I| #[trigger] same(a, b) && #[trigger] before(b, c) implies before(
        a,
        c,
    ) by {
        assert(same(b, a));
        if same(a, c) {
            assert(same(b, c));
        } else if before(c, a) {
            assert(before(b, a));
        }
        assert(before(a, c) || same(a, c) || before(c, a));
    }
    assert forall|a: I, b: I, c: I| #[trigger] before(a, b) && #[trigger] same(b, c) implies before(
        a,
        c,
    ) by {
        assert(same(c, b));
        if same(a, c) {
            assert(same(a, b));
        } else if before(c, a) {
            assert(before(c, b));
        }
        assert(before(a, c) || same(a, c) || before(c, a));
    }
}

/// The order is that of the comparison operators of `I`: what comes before is less, and what names
/// the same transaction is equal.
pub proof fn law_order_is_that_of_identities<I: Ord>(a: I, b: I)
    requires
        ordered::<I>(),
    ensures
        before(a, b) <==> a.partial_cmp_spec(&b) == Some(std::cmp::Ordering::Less),
        same(a, b) <==> a.eq_spec(&b),
{
    reveal(vstd::laws_eq::obeys_eq_spec_properties);
    reveal(vstd::laws_cmp::obeys_partial_cmp_spec_properties);
    reveal(vstd::laws_cmp::obeys_cmp_partial_ord);
    reveal(vstd::laws_cmp::obeys_cmp_ord);
    assert(a.partial_cmp_spec(&b) == Some(a.cmp_spec(&b)));
}

/// Whether `a` comes strictly before `b`.
pub fn precedes<I: Ord>(a: &I, b: &I) -> (yes: bool)
    requires
        ordered::<I>(),
    ensures
        yes == before(*a, *b),
{
    proof {
        reveal(vstd::laws_cmp::obeys_cmp_partial_ord);
        reveal(vstd::laws_cmp::obeys_cmp_ord);
        assert(a.partial_cmp_spec(b) == Some(a.cmp_spec(b)));
    }
    *a < *b
}

} // verus!
