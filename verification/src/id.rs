//! The identity algebra: a recursive partition of the right to record
//! events. An identity is either `Zero` (no ownership in this region),
//! `One` (exclusive ownership), or a `Tuple` splitting the region in two.

use std::rc::Rc;
use vstd::prelude::*;

verus! {

/// The mathematical model of an identity tree.
pub enum IdView {
    Zero,
    One,
    Tuple(Box<IdView>, Box<IdView>),
}

/// How an operation on identities or event trees can fail.
#[derive(Clone, Copy, PartialEq, Eq, Debug)]
pub enum ItcError {
    /// `sum` was handed two identities that both claim ownership of a
    /// common region: they were not produced by a matching `split`.
    NonDisjoint,
    /// An identity was unsplit (`One` or `Zero`) at a position where the
    /// event tree has already branched: the two shapes have diverged.
    ShapeMismatch,
}

/// An identity interval with structural sharing of subtrees.
#[derive(Debug)]
pub enum Ident {
    Zero,
    One,
    Tuple(Rc<Ident>, Rc<Ident>),
}

impl View for Ident {
    type V = IdView;

    open spec fn view(&self) -> IdView
        decreases self,
    {
        match self {
            Ident::Zero => IdView::Zero,
            Ident::One => IdView::One,
            Ident::Tuple(l, r) => IdView::Tuple(Box::new((**l).view()), Box::new((**r).view())),
        }
    }
}

/// One level of normalization: a tuple of two `Zero`s collapses to `Zero`,
/// a tuple of two `One`s collapses to `One`; everything else is unchanged.
pub open spec fn norm_of(i: IdView) -> IdView {
    match i {
        IdView::Tuple(l, r) => {
            if *l == IdView::Zero && *r == IdView::Zero {
                IdView::Zero
            } else if *l == IdView::One && *r == IdView::One {
                IdView::One
            } else {
                i
            }
        },
        _ => i,
    }
}

/// Full normalization, applied bottom-up at every level.
pub open spec fn deep_norm(i: IdView) -> IdView
    decreases i,
{
    match i {
        IdView::Tuple(l, r) => norm_of(
            IdView::Tuple(Box::new(deep_norm(*l)), Box::new(deep_norm(*r))),
        ),
        _ => i,
    }
}

/// The two disjoint halves that `split` divides an identity into.
pub open spec fn split_of(i: IdView) -> (IdView, IdView)
    decreases i,
{
    match i {
        IdView::Zero => (IdView::Zero, IdView::Zero),
        IdView::One => (
            IdView::Tuple(Box::new(IdView::One), Box::new(IdView::Zero)),
            IdView::Tuple(Box::new(IdView::Zero), Box::new(IdView::One)),
        ),
        IdView::Tuple(l, r) => {
            if *l == IdView::Zero {
                let (a, b) = split_of(*r);
                (
                    IdView::Tuple(Box::new(IdView::Zero), Box::new(a)),
                    IdView::Tuple(Box::new(IdView::Zero), Box::new(b)),
                )
            } else if *r == IdView::Zero {
                let (a, b) = split_of(*l);
                (
                    IdView::Tuple(Box::new(a), Box::new(IdView::Zero)),
                    IdView::Tuple(Box::new(b), Box::new(IdView::Zero)),
                )
            } else {
                (
                    IdView::Tuple(l, Box::new(IdView::Zero)),
                    IdView::Tuple(Box::new(IdView::Zero), r),
                )
            }
        },
    }
}

/// Whether two identities are disjoint, so that `sum` can recombine them:
/// nowhere does a `One` on one side face anything but a `Zero` on the other.
pub open spec fn sum_ok(a: IdView, b: IdView) -> bool
    decreases a,
{
    match (a, b) {
        (IdView::Zero, _) => true,
        (_, IdView::Zero) => true,
        (IdView::Tuple(l1, r1), IdView::Tuple(l2, r2)) => sum_ok(*l1, *l2) && sum_ok(*r1, *r2),
        _ => false,
    }
}

/// The recombination of two disjoint identities. Only meaningful where
/// `sum_ok` holds; elsewhere the value is left unconstrained.
pub open spec fn sum_of(a: IdView, b: IdView) -> IdView
    decreases a,
{
    match (a, b) {
        (IdView::Zero, _) => b,
        (_, IdView::Zero) => a,
        (IdView::Tuple(l1, r1), IdView::Tuple(l2, r2)) => norm_of(
            IdView::Tuple(Box::new(sum_of(*l1, *l2)), Box::new(sum_of(*r1, *r2))),
        ),
        _ => arbitrary(),
    }
}

/// Law: one level of identity normalization is idempotent.
pub proof fn lemma_id_norm_idempotent(i: IdView)
    ensures
        norm_of(norm_of(i)) == norm_of(i),
{
}

/// Law: `Zero` is an identity element of `sum`, on either side.
pub proof fn lemma_sum_identity(x: IdView)
    ensures
        sum_ok(IdView::Zero, x),
        sum_of(IdView::Zero, x) == x,
        sum_ok(x, IdView::Zero),
        sum_of(x, IdView::Zero) == x,
{
}

proof fn lemma_deep_norm_of(i: IdView)
    ensures
        deep_norm(norm_of(i)) == deep_norm(i),
{
    match i {
        IdView::Tuple(l, r) => {
            if *l == IdView::Zero && *r == IdView::Zero {
                assert(norm_of(i) == IdView::Zero);
                assert(deep_norm(IdView::Zero) == IdView::Zero);
                assert(deep_norm(i) == norm_of(
                    IdView::Tuple(Box::new(deep_norm(*l)), Box::new(deep_norm(*r))),
                ));
            } else if *l == IdView::One && *r == IdView::One {
                assert(norm_of(i) == IdView::One);
                assert(deep_norm(IdView::One) == IdView::One);
                assert(deep_norm(i) == norm_of(
                    IdView::Tuple(Box::new(deep_norm(*l)), Box::new(deep_norm(*r))),
                ));
            } else {
                assert(norm_of(i) == i);
            }
        },
        _ => {},
    }
}

/// Law: splitting an identity and recombining the two halves with `sum`
/// reconstructs the original identity, up to normalization.
pub proof fn lemma_split_sum_recompose(i: IdView)
    ensures
        sum_ok(split_of(i).0, split_of(i).1),
        deep_norm(sum_of(split_of(i).0, split_of(i).1)) == deep_norm(i),
    decreases i,
{
    match i {
        IdView::Zero => {
            assert(sum_of(IdView::Zero, IdView::Zero) == IdView::Zero);
            assert(deep_norm(IdView::Zero) == IdView::Zero);
        },
        IdView::One => {
            let a = IdView::Tuple(Box::new(IdView::One), Box::new(IdView::Zero));
            let b = IdView::Tuple(Box::new(IdView::Zero), Box::new(IdView::One));
            assert(split_of(i) == (a, b));
            assert(sum_ok(IdView::One, IdView::Zero));
            assert(sum_ok(IdView::Zero, IdView::One));
            assert(sum_of(IdView::One, IdView::Zero) == IdView::One);
            assert(sum_of(IdView::Zero, IdView::One) == IdView::One);
            assert(sum_of(a, b) == norm_of(
                IdView::Tuple(Box::new(IdView::One), Box::new(IdView::One)),
            ));
            assert(deep_norm(IdView::One) == IdView::One);
        },
        IdView::Tuple(l, r) => {
            if *l == IdView::Zero {
                lemma_split_sum_recompose(*r);
                let a = split_of(*r).0;
                let b = split_of(*r).1;
                let ta = IdView::Tuple(Box::new(IdView::Zero), Box::new(a));
                let tb = IdView::Tuple(Box::new(IdView::Zero), Box::new(b));
                assert(split_of(i) == (ta, tb));
                assert(sum_ok(IdView::Zero, IdView::Zero));
                assert(sum_of(IdView::Zero, IdView::Zero) == IdView::Zero);
                let s = sum_of(a, b);
                let ts = IdView::Tuple(Box::new(IdView::Zero), Box::new(s));
                assert(sum_of(ta, tb) == norm_of(ts));
                lemma_deep_norm_of(ts);
                assert(deep_norm(ts) == norm_of(
                    IdView::Tuple(Box::new(deep_norm(IdView::Zero)), Box::new(deep_norm(s))),
                ));
                assert(deep_norm(IdView::Zero) == IdView::Zero);
                assert(deep_norm(i) == norm_of(
                    IdView::Tuple(Box::new(deep_norm(*l)), Box::new(deep_norm(*r))),
                ));
            } else if *r == IdView::Zero {
                lemma_split_sum_recompose(*l);
                let a = split_of(*l).0;
                let b = split_of(*l).1;
                let ta = IdView::Tuple(Box::new(a), Box::new(IdView::Zero));
                let tb = IdView::Tuple(Box::new(b), Box::new(IdView::Zero));
                assert(split_of(i) == (ta, tb));
                assert(sum_ok(IdView::Zero, IdView::Zero));
                assert(sum_of(IdView::Zero, IdView::Zero) == IdView::Zero);
                let s = sum_of(a, b);
                let ts = IdView::Tuple(Box::new(s), Box::new(IdView::Zero));
                assert(sum_of(ta, tb) == norm_of(ts));
                lemma_deep_norm_of(ts);
                assert(deep_norm(ts) == norm_of(
                    IdView::Tuple(Box::new(deep_norm(s)), Box::new(deep_norm(IdView::Zero))),
                ));
                assert(deep_norm(IdView::Zero) == IdView::Zero);
                assert(deep_norm(i) == norm_of(
                    IdView::Tuple(Box::new(deep_norm(*l)), Box::new(deep_norm(*r))),
                ));
            } else {
                let ta = IdView::Tuple(l, Box::new(IdView::Zero));
                let tb = IdView::Tuple(Box::new(IdView::Zero), r);
                assert(split_of(i) == (ta, tb));
                assert(sum_ok(*l, IdView::Zero));
                assert(sum_ok(IdView::Zero, *r));
                assert(sum_of(*l, IdView::Zero) == *l);
                assert(sum_of(IdView::Zero, *r) == *r);
                assert(sum_of(ta, tb) == norm_of(
                    IdView::Tuple(Box::new(sum_of(*l, IdView::Zero)), Box::new(sum_of(IdView::Zero, *r))),
                ));
                assert(IdView::Tuple(Box::new(*l), Box::new(*r)) == i);
                lemma_deep_norm_of(i);
            }
        },
    }
}

impl Clone for Ident {
    /// A clone shares every subtree with the original and models the
    /// same identity.
    fn clone(&self) -> (r: Self)
        ensures
            r@ == self@,
    {
        match self {
            Ident::Zero => Ident::Zero,
            Ident::One => Ident::One,
            Ident::Tuple(l, r) => Ident::Tuple(crate::rc_dup(l), crate::rc_dup(r)),
        }
    }
}

impl Ident {
    /// Divides ownership into two complementary halves whose recombination
    /// via `sum` reconstructs the original, up to normalization.
    pub fn split(&self) -> (r: (Ident, Ident))
        ensures
            r.0@ == split_of(self@).0,
            r.1@ == split_of(self@).1,
        decreases self,
    {
        match self {
            Ident::Zero => (Ident::Zero, Ident::Zero),
            Ident::One => {
                proof {
                    assert((Ident::One)@ == IdView::One);
                    assert((Ident::Zero)@ == IdView::Zero);
                }
                (
                    Ident::Tuple(Rc::new(Ident::One), Rc::new(Ident::Zero)),
                    Ident::Tuple(Rc::new(Ident::Zero), Rc::new(Ident::One)),
                )
            },
            Ident::Tuple(i1, i2) => match (&**i1, &**i2) {
                (Ident::Zero, id) => {
                    proof {
                        assert(i1@ == IdView::Zero);
                    }
                    let (l, r) = id.split();
                    (
                        Ident::Tuple(crate::rc_dup(i1), Rc::new(l)),
                        Ident::Tuple(crate::rc_dup(i1), Rc::new(r)),
                    )
                },
                (id, Ident::Zero) => {
                    proof {
                        assert(i1@ != IdView::Zero && i2@ == IdView::Zero);
                    }
                    let (l, r) = id.split();
                    (
                        Ident::Tuple(Rc::new(l), crate::rc_dup(i2)),
                        Ident::Tuple(Rc::new(r), crate::rc_dup(i2)),
                    )
                },
                _ => {
                    proof {
                        assert(i1@ != IdView::Zero && i2@ != IdView::Zero);
                        assert((Ident::Zero)@ == IdView::Zero);
                    }
                    (
                        Ident::Tuple(crate::rc_dup(i1), Rc::new(Ident::Zero)),
                        Ident::Tuple(Rc::new(Ident::Zero), crate::rc_dup(i2)),
                    )
                },
            },
        }
    }

    /// Collapses a tuple of two `Zero`s to `Zero` and a tuple of two
    /// `One`s to `One`; every other shape passes through unchanged.
    pub fn norm(self) -> (r: Ident)
        ensures
            r@ == norm_of(self@),
    {
        match self {
            Ident::Tuple(i1, i2) => match (&*i1, &*i2) {
                (Ident::Zero, Ident::Zero) => Ident::Zero,
                (Ident::One, Ident::One) => Ident::One,
                _ => {
                    proof {
                        assert(!(i1@ == IdView::Zero && i2@ == IdView::Zero));
                        assert(!(i1@ == IdView::One && i2@ == IdView::One));
                    }
                    Ident::Tuple(i1, i2)
                },
            },
            _ => self,
        }
    }

    /// Recombines two disjoint identities. Where the identities are not
    /// disjoint (a `One` faces a non-`Zero`), the contract between caller
    /// and algebra is broken and the error says so.
    pub fn sum(&self, other: &Ident) -> (r: Result<Ident, ItcError>)
        ensures
            r is Ok <==> sum_ok(self@, other@),
            r matches Ok(s) ==> s@ == sum_of(self@, other@),
            r is Err ==> r == Err::<Ident, ItcError>(ItcError::NonDisjoint),
        decreases self,
    {
        if let Ident::Zero = self {
            return Ok(other.clone());
        }
        if let Ident::Zero = other {
            return Ok(self.clone());
        }
        if let (Ident::Tuple(l1, r1), Ident::Tuple(l2, r2)) = (self, other) {
            let sl = match (&**l1).sum(&**l2) {
                Ok(s) => s,
                Err(e) => {
                    return Err(e);
                },
            };
            let sr = match (&**r1).sum(&**r2) {
                Ok(s) => s,
                Err(e) => {
                    return Err(e);
                },
            };
            return Ok(Ident::Tuple(Rc::new(sl), Rc::new(sr)).norm());
        }
        Err(ItcError::NonDisjoint)
    }
}

} // verus!
