use rsat::add;
use rsat::cnf::CnfFormula;
use rsat::lit::Lit;

#[test]
fn it_works() {
    let result = add(2, 2);
    assert_eq!(result, 4);
}

#[test]
fn test_add_clause() {
    let mut formula = CnfFormula::default();
    let a = Lit::from_dimacs(1, true);
    let b = Lit::from_dimacs(2, true);
    let c = Lit::from_dimacs(3, true);
    formula.add_clause(&[a, a, b]);
    formula.add_clause(&[b, c]);
    formula.add_clause(&[!a, b]);
    formula.add_clause(&[a, !a]);
    let mut formula_iter = formula.iter().into_iter();
    assert_eq!(formula_iter.next().as_deref(), Some([a, b].as_ref()));
    assert_eq!(formula_iter.next().as_deref(), Some([b, c].as_ref()));
    assert_eq!(formula_iter.next().as_deref(), Some([!a, b].as_ref()));
    assert_eq!(formula_iter.next().as_deref(), None);
}

#[test]
fn test_postive_negtive() {
    assert_eq!(Lit::from_dimacs(1, true).to_dimacs(), 1);
    assert_eq!((!Lit::from_dimacs(1, true)).to_dimacs(), 1);
}

#[test]
fn literal_round_trip_and_polarity() {
    for n in 1..200usize {
        let pos = Lit::from_dimacs(n, true);
        let neg = Lit::from_dimacs(n, false);
        assert_eq!(pos.to_dimacs(), n);
        assert_eq!(neg.to_dimacs(), n);
        assert!(pos.is_positive() && !pos.is_negative());
        assert!(neg.is_negative() && !neg.is_positive());
        assert_eq!(pos.index(), n - 1);
        assert_eq!(!pos, neg);
        assert_eq!(!!pos, pos);
        assert_ne!(!pos, pos);
        assert_eq!(Lit::from_index(n - 1, true), pos);
    }
}

#[test]
fn literals_are_ordered_by_their_encoding() {
    let a = Lit::from_index(0, true);
    let b = Lit::from_index(1, true);
    assert!(a < !a);
    assert!(!a < b);
    assert!(b < !b);
}

#[test]
fn assign_bool_follows_the_polarity() {
    let assignment = vec![Some(true), Some(false), None];
    let a = Lit::from_dimacs(1, true);
    let b = Lit::from_dimacs(2, true);
    let c = Lit::from_dimacs(3, true);
    assert_eq!(a.assign_bool(&assignment), Some(true));
    assert_eq!((!a).assign_bool(&assignment), Some(false));
    assert_eq!(b.assign_bool(&assignment), Some(false));
    assert_eq!((!b).assign_bool(&assignment), Some(true));
    assert_eq!(c.assign_bool(&assignment), None);
    assert_eq!((!c).assign_bool(&assignment), None);
}

#[test]
fn repeated_literals_are_stored_once() {
    let a = Lit::from_dimacs(1, true);
    let b = Lit::from_dimacs(2, false);
    let mut formula = CnfFormula::new();
    formula.add_clause(&[b, a, b, a, b]);
    assert_eq!(formula.iter(), vec![vec![b, a]]);
}

#[test]
fn a_clause_with_a_literal_and_its_negation_is_dropped() {
    let a = Lit::from_dimacs(1, true);
    let b = Lit::from_dimacs(7, true);
    let mut formula = CnfFormula::new();
    formula.add_clause(&[b, a, !b]);
    assert!(formula.iter().is_empty());
    assert_eq!(CnfFormula::check_clause(&[b, a, !b]), None);
    assert_eq!(CnfFormula::check_clause(&[b, a, b]), Some(vec![b, a]));
}

#[test]
fn an_empty_clause_is_stored_as_it_is() {
    let mut formula = CnfFormula::new();
    formula.add_clause(&[]);
    assert_eq!(formula.iter(), vec![Vec::<Lit>::new()]);
}

#[test]
fn signed_numbers_stand_for_literals() {
    let mut by_numbers = CnfFormula::new();
    by_numbers.add_numbers(&[3, -1, 0, 3, 2]);
    by_numbers.add_numbers(&[4, -4]);
    by_numbers.add_numbers(&[0]);
    by_numbers.add_numbers(&[-7]);
    let a = Lit::from_dimacs(1, true);
    let b = Lit::from_dimacs(2, true);
    let c = Lit::from_dimacs(3, true);
    let g = Lit::from_dimacs(7, true);
    assert_eq!(by_numbers.iter(), vec![vec![c, !a, b], vec![], vec![!g]]);
}
