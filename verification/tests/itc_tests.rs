use itc::Event;
use itc::Ident;
use itc::ItcError;
use std::rc::Rc;

fn lf(n: i64) -> Event {
    Event::Leaf(n)
}

fn nd(n: i64, a: Event, b: Event) -> Event {
    Event::Node(n, Rc::new(a), Rc::new(b))
}

fn tp(a: Ident, b: Ident) -> Ident {
    Ident::Tuple(Rc::new(a), Rc::new(b))
}

fn id_eq(a: &Ident, b: &Ident) -> bool {
    match (a, b) {
        (Ident::Zero, Ident::Zero) => true,
        (Ident::One, Ident::One) => true,
        (Ident::Tuple(l1, r1), Ident::Tuple(l2, r2)) => id_eq(l1, l2) && id_eq(r1, r2),
        _ => false,
    }
}

#[test]
fn first_fork_and_event() {
    // A fresh replica holds the full identity and an empty history; the
    // first fork and the first event behave exactly as documented.
    let (a, b) = Ident::One.split();
    assert!(id_eq(&a, &tp(Ident::One, Ident::Zero)));
    assert!(id_eq(&b, &tp(Ident::Zero, Ident::One)));

    let e = lf(0);
    let e2 = e.event(&a).unwrap();
    assert!(e2.eq_real(&nd(0, lf(1), lf(0))));
    assert_eq!(e2.max(), 1);
    assert_eq!(e2.min(), 0);
}

#[test]
fn rejoined_halves_give_full_ownership() {
    let s = tp(Ident::One, Ident::Zero).sum(&tp(Ident::Zero, Ident::One)).unwrap();
    assert!(id_eq(&s, &Ident::One));
}

#[test]
fn split_then_sum_restores_identity() {
    let ids = [
        Ident::Zero,
        Ident::One,
        tp(Ident::Zero, Ident::One),
        tp(Ident::One, tp(Ident::Zero, Ident::One)),
        tp(tp(Ident::One, Ident::Zero), Ident::Zero),
    ];
    for id in ids.iter() {
        let (a, b) = id.split();
        let s = a.sum(&b).unwrap();
        assert!(id_eq(&s, id));
    }
}

#[test]
fn zero_is_identity_for_sum() {
    let xs = [Ident::One, tp(Ident::Zero, Ident::One), Ident::Zero];
    for x in xs.iter() {
        assert!(id_eq(&Ident::Zero.sum(x).unwrap(), x));
        assert!(id_eq(&x.sum(&Ident::Zero).unwrap(), x));
    }
}

#[test]
fn id_norm_collapses_and_is_idempotent() {
    let z = tp(Ident::Zero, Ident::Zero).norm();
    assert!(id_eq(&z, &Ident::Zero));
    let o = tp(Ident::One, Ident::One).norm();
    assert!(id_eq(&o, &Ident::One));
    let mixed = tp(Ident::One, Ident::Zero).norm();
    assert!(id_eq(&mixed, &tp(Ident::One, Ident::Zero)));
    assert!(id_eq(&mixed.clone().norm(), &mixed));
}

#[test]
fn event_norm_is_idempotent() {
    let e = nd(1, nd(1, lf(2), lf(2)), lf(3));
    let n1 = e.norm();
    assert!(n1.eq_real(&lf(4)));
    let n2 = n1.norm();
    assert!(n2.eq_real(&n1));
}

#[test]
fn norm_factors_common_minimum() {
    let e = nd(0, lf(2), lf(5));
    let n = e.norm();
    assert!(n.eq_real(&nd(2, lf(0), lf(3))));
    assert_eq!(n.min(), e.min());
    assert_eq!(n.max(), e.max());
}

#[test]
fn min_and_max_bound_every_leaf() {
    let e = nd(1, lf(2), nd(0, lf(5), lf(1)));
    assert_eq!(e.min(), 2);
    assert_eq!(e.max(), 6);
    assert!(e.min() <= e.max());
    // the three leaves' absolute counts
    for leaf in [1 + 2, 1 + 0 + 5, 1 + 0 + 1] {
        assert!(e.min() <= leaf && leaf <= e.max());
    }
}

#[test]
fn value_lift_sink_touch_only_the_root() {
    assert_eq!(nd(3, lf(1), lf(2)).value(), 3);
    assert_eq!(lf(7).value(), 7);
    assert!(lf(2).lift(5).eq_real(&lf(7)));
    let sunk = nd(5, lf(1), lf(2)).sink(2);
    assert_eq!(sunk.value(), 3);
    assert!(sunk.eq_real(&nd(3, lf(1), lf(2))));
}

#[test]
fn fill_raises_owned_side_without_inflating_max() {
    let e = nd(0, lf(1), lf(3));
    let i = tp(Ident::One, Ident::Zero);
    let filled = e.fill(&i);
    assert!(filled.eq_real(&lf(3)));
    assert_eq!(filled.max(), e.max());
    // event takes the fill path here, since filling visibly changed e
    let e2 = e.event(&i).unwrap();
    assert!(e2.eq_real(&filled));
}

#[test]
fn fill_leaves_unowned_regions_alone() {
    let e = nd(0, lf(1), lf(3));
    let filled = e.fill(&Ident::Zero);
    assert!(filled.eq_real(&e));
    let leaf = lf(4).fill(&Ident::One);
    assert!(leaf.eq_real(&lf(4)));
}

#[test]
fn recording_never_lowers_the_maximum() {
    let cases = [
        (lf(0), Ident::One),
        (nd(0, lf(1), lf(3)), tp(Ident::One, Ident::Zero)),
        (nd(2, lf(0), lf(1)), tp(Ident::Zero, Ident::One)),
    ];
    for (e, i) in cases.iter() {
        let e2 = e.event(i).unwrap();
        assert!(e2.max() >= e.max());
    }
}

#[test]
fn grow_increments_exactly_one_leaf() {
    let grown = lf(5).grow(&Ident::One).unwrap().0;
    assert!(grown.eq_real(&lf(6)));

    let e = nd(0, lf(0), lf(1));
    let grown = e.grow(&tp(Ident::One, Ident::Zero)).unwrap().0;
    assert!(grown.eq_real(&nd(0, lf(1), lf(1))));
}

#[test]
fn grow_prefers_the_cheaper_descent() {
    // growing the right leaf is one descent shorter than the left branch
    let e = nd(0, nd(0, lf(0), lf(0)), lf(0));
    let i = tp(tp(Ident::One, Ident::Zero), Ident::One);
    let grown = e.grow(&i).unwrap().0;
    assert!(grown.eq_real(&nd(0, nd(0, lf(0), lf(0)), lf(1))));
}

#[test]
fn grow_avoids_creating_structure() {
    // the left side would need a new branch; any descent beats creation
    let e = nd(0, lf(0), nd(0, lf(0), lf(0)));
    let i = tp(tp(Ident::One, Ident::Zero), tp(Ident::One, Ident::Zero));
    let grown = e.grow(&i).unwrap().0;
    assert!(grown.eq_real(&nd(0, lf(0), nd(0, lf(1), lf(0)))));
}

#[test]
fn differently_built_histories_compare_equal() {
    // same causal history reached through different shapes
    let a = nd(1, nd(0, lf(2), lf(2)), lf(2));
    let b = lf(3);
    assert!(a.equiv(&b));
    assert!(!a.eq_real(&b));

    let c = nd(0, lf(1), lf(1));
    let d = lf(1);
    assert!(c.equiv(&d));
    assert!(!c.equiv(&lf(0)));
}

#[test]
fn sum_rejects_overlapping_ownership() {
    assert_eq!(Ident::One.sum(&Ident::One).unwrap_err(), ItcError::NonDisjoint);
    assert_eq!(
        Ident::One.sum(&tp(Ident::Zero, Ident::One)).unwrap_err(),
        ItcError::NonDisjoint
    );
    assert_eq!(
        tp(Ident::One, Ident::Zero).sum(&tp(Ident::One, Ident::Zero)).unwrap_err(),
        ItcError::NonDisjoint
    );
}

#[test]
fn event_rejects_a_diverged_identity() {
    // an identity with no ownership cannot record anywhere
    assert_eq!(lf(0).event(&Ident::Zero).unwrap_err(), ItcError::ShapeMismatch);
    // an unsplit identity over an already-branched tree, where filling
    // changes nothing either
    let e = nd(0, lf(1), lf(1));
    assert_eq!(e.event(&Ident::One).unwrap_err(), ItcError::ShapeMismatch);
}

#[test]
fn forked_replicas_record_independently() {
    let (a, b) = Ident::One.split();
    let e = lf(0);
    let ea = e.event(&a).unwrap();
    let eb = e.event(&b).unwrap();
    assert!(ea.eq_real(&nd(0, lf(1), lf(0))));
    assert!(eb.eq_real(&nd(0, lf(0), lf(1))));
    let again = ea.event(&a).unwrap();
    assert!(again.eq_real(&nd(0, lf(2), lf(0))));
}
