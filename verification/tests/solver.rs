use rsat::cnf::CnfFormula;
use rsat::lit::Lit;
use rsat::prop::PropQueue;
use rsat::solver::{SolveState, Solver};

fn lit(n: i64) -> Lit {
    Lit::from_dimacs(n.unsigned_abs() as usize, n > 0)
}

fn formula_of(clauses: &[Vec<i64>]) -> CnfFormula {
    let mut formula = CnfFormula::new();
    for clause in clauses {
        let lits: Vec<Lit> = clause.iter().map(|n| lit(*n)).collect();
        formula.add_clause(&lits);
    }
    formula
}

fn satisfied_by(clauses: &[Vec<i64>], solver: &Solver) -> bool {
    clauses
        .iter()
        .all(|clause| clause.iter().any(|n| solver.value(&lit(*n)) == Some(true)))
}

fn brute_force(clauses: &[Vec<i64>], vars: usize) -> bool {
    (0u32..(1 << vars)).any(|bits| {
        clauses.iter().all(|clause| {
            clause.iter().any(|n| {
                let value = bits >> (n.unsigned_abs() - 1) & 1 == 1;
                value == (*n > 0)
            })
        })
    })
}

struct Rng(u64);

impl Rng {
    fn next(&mut self) -> u64 {
        self.0 ^= self.0 << 13;
        self.0 ^= self.0 >> 7;
        self.0 ^= self.0 << 17;
        self.0
    }

    fn below(&mut self, n: u64) -> u64 {
        self.next() % n
    }
}

fn random_clauses(rng: &mut Rng, vars: u64, count: usize, width: usize) -> Vec<Vec<i64>> {
    let mut clauses = Vec::new();
    for _ in 0..count {
        let mut clause = Vec::new();
        while clause.len() < width {
            let v = (rng.below(vars) + 1) as i64;
            if clause.iter().all(|n: &i64| n.abs() != v) {
                clause.push(if rng.below(2) == 0 { v } else { -v });
            }
        }
        clauses.push(clause);
    }
    clauses
}

#[test]
fn test_clause() {
    let a = Lit::from_dimacs(1, true);
    let b = Lit::from_dimacs(2, true);
    let c = Lit::from_dimacs(3, true);
    let assignment = vec![Some(true), Some(false), None];
    let value = |clause: &[Lit]| {
        let mut open = false;
        for l in clause {
            match l.assign_bool(&assignment) {
                Some(true) => return Some(true),
                None => open = true,
                Some(false) => {}
            }
        }
        if open {
            None
        } else {
            Some(false)
        }
    };
    assert_eq!(value(&[a]), Some(true));
    assert_eq!(value(&[a, b]), Some(true));
    assert_eq!(value(&[!a, b]), Some(false));
    assert_eq!(value(&[a, b, !c]), Some(true));
    assert_eq!(value(&[!a, c]), None);
}

#[test]
fn test_queue() {
    let mut prop_queue = PropQueue::default();
    prop_queue.push_back(&Lit::from_dimacs(1, true));
    prop_queue.push_back(&Lit::from_dimacs(2, true));
    let mut seen = Vec::new();
    while let Some(s) = prop_queue.pop_queue() {
        if s.to_dimacs() == 1 {
            prop_queue.push_back(&Lit::from_dimacs(5, true));
        }
        seen.push(s.to_dimacs());
    }
    assert_eq!(seen, vec![1, 2, 5]);
}

#[test]
fn test_solve_exp1() {
    let a = Lit::from_dimacs(1, true);
    let b = Lit::from_dimacs(2, true);
    let c = Lit::from_dimacs(3, true);
    let d = Lit::from_dimacs(4, true);
    let mut formula = CnfFormula::default();
    formula.add_clause(&[a]);
    formula.add_clause(&[!a, b]);
    formula.add_clause(&[!a, !b, c, d]);
    formula.add_clause(&[!a, !b, c]);
    let solver = Solver::new(true).add_formula(&formula).solve();
    assert_eq!(solver.state(), SolveState::Sat);
    assert_eq!(solver.model(), vec![a, b, c, d]);
}

#[test]
fn test_solve_exp2() {
    let a = Lit::from_dimacs(1, true);
    let b = Lit::from_dimacs(2, true);
    let c = Lit::from_dimacs(3, true);
    let d = Lit::from_dimacs(4, true);
    let e = Lit::from_dimacs(5, true);
    let mut formula = CnfFormula::default();
    formula.add_clause(&[a]);
    formula.add_clause(&[!a, b, c]);
    formula.add_clause(&[!a, d, e]);
    formula.add_clause(&[!b, !d]);
    let solver = Solver::new(true).add_formula(&formula).solve();
    assert_eq!(solver.state(), SolveState::Sat);
    for expected in vec![a, b, !d, e] {
        assert_eq!(solver.value(&expected), Some(true));
    }
    assert_eq!(solver.model(), vec![a, b, c, !d, e]);
}

#[test]
fn test_solve_exp3() {
    let a = Lit::from_dimacs(1, true);
    let b = Lit::from_dimacs(2, true);
    let c = Lit::from_dimacs(3, true);
    let d = Lit::from_dimacs(4, true);
    let e = Lit::from_dimacs(5, true);
    let mut formula = CnfFormula::default();
    formula.add_clause(&[a]);
    formula.add_clause(&[!a, b, c]);
    formula.add_clause(&[!d, !e]);
    let solver = Solver::new(true).add_formula(&formula).solve();
    assert_eq!(solver.state(), SolveState::Sat);
    for expected in vec![a, b] {
        assert_eq!(solver.value(&expected), Some(true));
    }
    assert_ne!(solver.value(&d), solver.value(&e));
    assert_eq!(solver.model(), vec![a, b, c, d, !e]);
}

#[test]
fn a_contradiction_at_level_0_is_unsat() {
    let clauses = vec![vec![1], vec![-1, 2], vec![-1, -2]];
    let solver = Solver::new(true).add_formula(&formula_of(&clauses)).solve();
    assert_eq!(solver.state(), SolveState::Unsat);
}

#[test]
fn contradicting_unit_clauses_are_unsat() {
    let clauses = vec![vec![1], vec![2, 3], vec![-1]];
    let solver = Solver::new(true).add_formula(&formula_of(&clauses)).solve();
    assert_eq!(solver.state(), SolveState::Unsat);
}

#[test]
fn a_repeated_unit_clause_is_asserted_once() {
    let clauses = vec![vec![2], vec![2], vec![-2, 1]];
    let solver = Solver::new(false).add_formula(&formula_of(&clauses)).solve();
    assert_eq!(solver.state(), SolveState::Sat);
    assert_eq!(solver.model(), vec![lit(1), lit(2)]);
}

#[test]
fn a_clause_without_literals_is_not_taken_in() {
    let mut formula = CnfFormula::new();
    formula.add_clause(&[]);
    formula.add_clause(&[lit(1), lit(2)]);
    let solver = Solver::new(true).add_formula(&formula).solve();
    assert_eq!(solver.state(), SolveState::Sat);
    assert_eq!(solver.model(), vec![lit(1), lit(2)]);
}

#[test]
fn a_solver_without_clauses_is_sat() {
    let solver = Solver::new(true).solve();
    assert_eq!(solver.state(), SolveState::Sat);
    assert_eq!(solver.var_count(), 0);
    let solver = Solver::new(false).add_formula(&CnfFormula::new()).solve();
    assert_eq!(solver.state(), SolveState::Sat);
    assert_eq!(solver.model(), vec![lit(-1)]);
}

#[test]
fn a_fresh_solver_is_unknown() {
    let solver = Solver::new(true).add_formula(&formula_of(&[vec![1, 2]]));
    assert_eq!(solver.state(), SolveState::Unknown);
    assert_eq!(solver.var_count(), 2);
    assert_eq!(solver.value(&lit(1)), None);
    assert_eq!(SolveState::default(), SolveState::Unknown);
}

#[test]
fn the_default_polarity_decides_free_variables() {
    let clauses = vec![vec![1, 2, 3]];
    let solver = Solver::new(true).add_formula(&formula_of(&clauses)).solve();
    assert_eq!(solver.model(), vec![lit(1), lit(2), lit(3)]);
    let solver = Solver::new(false).add_formula(&formula_of(&clauses)).solve();
    assert_eq!(solver.state(), SolveState::Sat);
    assert_eq!(solver.model(), vec![lit(-1), lit(-2), lit(3)]);
}

#[test]
fn learning_turns_a_wrong_decision_around() {
    let clauses = vec![vec![-1, 2], vec![-1, 3], vec![-2, -3, 4], vec![-4, -1]];
    let mut solver = Solver::new(true).add_formula(&formula_of(&clauses)).solve();
    assert_eq!(solver.state(), SolveState::Sat);
    assert_eq!(solver.value(&lit(1)), Some(false));
    assert!(satisfied_by(&clauses, &solver));
    assert!(solver.check_satisfied());
    assert_eq!(solver.state(), SolveState::Sat);
}

#[test]
fn check_satisfied_fails_before_the_search() {
    let clauses = vec![vec![1, 2], vec![1, 2, 3]];
    let mut solver = Solver::new(true).add_formula(&formula_of(&clauses));
    assert!(!solver.check_satisfied());
    assert_eq!(solver.state(), SolveState::Unsat);
}

#[test]
fn reasons_of_a_sat_result() {
    let clauses = vec![vec![1], vec![-1, 2], vec![-1, -2, 3], vec![4, 5]];
    let solver = Solver::new(true).add_formula(&formula_of(&clauses)).solve();
    assert_eq!(solver.state(), SolveState::Sat);
    assert_eq!(solver.get_prop_reason(&lit(1)), None);
    assert_eq!(solver.get_prop_reason(&lit(2)), Some(vec![lit(-1)]));
    let mut long = solver.get_prop_reason(&lit(3)).unwrap();
    long.sort();
    assert_eq!(long, vec![lit(-1), lit(-2)]);
    for antecedent in long {
        assert_eq!(solver.value(&antecedent), Some(false));
    }
    assert_eq!(solver.get_prop_reason(&lit(4)), None);
    let unsolved = Solver::new(true).add_formula(&formula_of(&clauses));
    assert_eq!(unsolved.get_prop_reason(&lit(2)), None);
}

#[test]
fn the_verdict_matches_brute_force_on_small_formulas() {
    let mut rng = Rng(0x9E37_79B9_7F4A_7C15);
    let mut sat = 0;
    let mut unsat = 0;
    for round in 0..400 {
        let vars = 3 + rng.below(6);
        let count = 1 + rng.below(40) as usize;
        let width = 1 + (round % 3);
        let clauses = random_clauses(&mut rng, vars, count, width);
        let expected = brute_force(&clauses, vars as usize);
        for polarity in [true, false] {
            let solver = Solver::new(polarity).add_formula(&formula_of(&clauses)).solve();
            if expected {
                assert_eq!(solver.state(), SolveState::Sat, "{:?}", clauses);
                assert!(satisfied_by(&clauses, &solver), "{:?}", clauses);
            } else {
                assert_eq!(solver.state(), SolveState::Unsat, "{:?}", clauses);
            }
        }
        if expected {
            sat += 1;
        } else {
            unsat += 1;
        }
    }
    assert!(sat > 20 && unsat > 20);
}

#[test]
fn solving_twice_gives_the_same_verdict() {
    let mut rng = Rng(42);
    for _ in 0..50 {
        let clauses = random_clauses(&mut rng, 12, 50, 3);
        let first = Solver::new(true).add_formula(&formula_of(&clauses)).solve();
        let second = Solver::new(true).add_formula(&formula_of(&clauses)).solve();
        assert_eq!(first.state(), second.state());
        assert_eq!(first.model(), second.model());
    }
}

#[test]
fn formulas_can_be_added_one_after_another() {
    let first = formula_of(&[vec![1, 2]]);
    let second = formula_of(&[vec![-1], vec![-2, 6]]);
    let solver = Solver::new(true).add_formula(&first).add_formula(&second).solve();
    assert_eq!(solver.var_count(), 6);
    assert_eq!(solver.state(), SolveState::Sat);
    assert_eq!(solver.value(&lit(1)), Some(false));
    assert_eq!(solver.value(&lit(2)), Some(true));
    assert_eq!(solver.value(&lit(6)), Some(true));
}

#[test]
fn a_long_chain_of_implications_is_sat() {
    let n = 400;
    let mut clauses = vec![vec![1]];
    for v in 1..n {
        clauses.push(vec![-v, v + 1]);
    }
    let solver = Solver::new(false).add_formula(&formula_of(&clauses)).solve();
    assert_eq!(solver.state(), SolveState::Sat);
    assert_eq!(solver.model().len(), n as usize);
    assert!(satisfied_by(&clauses, &solver));
}

#[test]
fn a_long_chain_with_a_false_end_is_unsat() {
    let n = 400;
    let mut clauses = vec![vec![1, 2, 3], vec![-1, 4], vec![-2, 4], vec![-3, 4]];
    for v in 4..n {
        clauses.push(vec![-v, -(v - 1), v + 1, v - 2]);
        clauses.push(vec![-v, v + 1]);
    }
    clauses.push(vec![-n]);
    let solver = Solver::new(true).add_formula(&formula_of(&clauses)).solve();
    assert_eq!(solver.state(), SolveState::Unsat);
}

#[test]
fn random_three_literal_clauses_over_hundreds_of_variables() {
    let mut rng = Rng(7);
    for _ in 0..5 {
        let clauses = random_clauses(&mut rng, 300, 900, 3);
        let mut solver = Solver::new(true).add_formula(&formula_of(&clauses)).solve();
        assert_ne!(solver.state(), SolveState::Unknown);
        if solver.state() == SolveState::Sat {
            assert!(satisfied_by(&clauses, &solver));
            assert!(solver.check_satisfied());
        }
    }
}

#[test]
fn pigeons_do_not_fit() {
    let holes = 5i64;
    let pigeons = holes + 1;
    let var = |p: i64, h: i64| p * holes + h + 1;
    let mut clauses = Vec::new();
    for p in 0..pigeons {
        clauses.push((0..holes).map(|h| var(p, h)).collect::<Vec<i64>>());
    }
    for h in 0..holes {
        for p in 0..pigeons {
            for q in (p + 1)..pigeons {
                clauses.push(vec![-var(p, h), -var(q, h)]);
            }
        }
    }
    let solver = Solver::new(true).add_formula(&formula_of(&clauses)).solve();
    assert_eq!(solver.state(), SolveState::Unsat);
    clauses.remove(0);
    let solver = Solver::new(true).add_formula(&formula_of(&clauses)).solve();
    assert_eq!(solver.state(), SolveState::Sat);
    assert!(satisfied_by(&clauses, &solver));
}

#[test]
fn propagation_leaves_no_clause_unit() {
    let clauses = vec![
        vec![1],
        vec![-1, 2],
        vec![-2, 3, 4],
        vec![-2, -4, 5],
        vec![-3, -5, 6],
        vec![-6, 7, 8, 9],
    ];
    for polarity in [true, false] {
        let solver = Solver::new(polarity).add_formula(&formula_of(&clauses)).solve();
        assert_eq!(solver.state(), SolveState::Sat);
        for clause in &clauses {
            let open = clause.iter().filter(|n| solver.value(&lit(**n)).is_none()).count();
            let held = clause.iter().filter(|n| solver.value(&lit(**n)) == Some(true)).count();
            assert_eq!(open, 0);
            assert!(held >= 1);
        }
        assert_eq!(solver.get_prop_reason(&lit(2)), Some(vec![lit(-1)]));
    }
    let solver = Solver::new(false).add_formula(&formula_of(&clauses)).solve();
    assert_eq!(solver.value(&lit(3)), Some(false));
    let mut forced = solver.get_prop_reason(&lit(4)).unwrap();
    forced.sort();
    assert_eq!(forced, vec![lit(-2), lit(3)]);
}

#[test]
fn a_learned_clause_asserts_its_first_literal() {
    let clauses = vec![vec![-2, 3], vec![-1, -3, 4], vec![-1, -3, -4]];
    let solver = Solver::new(true).add_formula(&formula_of(&clauses)).solve();
    assert_eq!(solver.state(), SolveState::Sat);
    assert_eq!(solver.model(), vec![lit(1), lit(-2), lit(-3), lit(4)]);
    assert_eq!(solver.get_prop_reason(&lit(1)), None);
    assert_eq!(solver.get_prop_reason(&lit(3)), Some(vec![lit(-1)]));
    assert_eq!(solver.get_prop_reason(&lit(2)), Some(vec![lit(3)]));
    assert_eq!(solver.get_prop_reason(&lit(4)), None);
}

#[test]
fn going_back_keeps_what_was_assigned_before() {
    let clauses = vec![vec![1], vec![-1, 2], vec![-3, 4], vec![-3, -4]];
    let solver = Solver::new(true).add_formula(&formula_of(&clauses)).solve();
    assert_eq!(solver.state(), SolveState::Sat);
    assert_eq!(solver.model(), vec![lit(1), lit(2), lit(-3), lit(4)]);
    assert_eq!(solver.get_prop_reason(&lit(3)), None);
}

#[test]
fn a_queue_from_a_slice_hands_out_its_literals_in_order() {
    let lits = [lit(3), lit(-1), lit(2)];
    let mut queue = PropQueue::from(&lits[..]);
    assert_eq!(queue.pop_queue(), Some(lit(3)));
    assert_eq!(queue.pop_queue(), Some(lit(-1)));
    assert_eq!(queue.pop_queue(), Some(lit(2)));
    assert_eq!(queue.pop_queue(), None);
    assert_eq!(PropQueue::new().pop_queue(), None);
}

#[test]
fn the_default_solver_decides_negatively() {
    let solver = Solver::default().add_formula(&formula_of(&[vec![1, 2]])).solve();
    assert_eq!(solver.state(), SolveState::Sat);
    assert_eq!(solver.model(), vec![lit(-1), lit(2)]);
}

#[test]
fn a_variable_in_no_clause_takes_the_default_polarity() {
    let clauses = vec![vec![1], vec![-1, 4], vec![5, 6, 7]];
    for polarity in [true, false] {
        let solver = Solver::new(polarity).add_formula(&formula_of(&clauses)).solve();
        assert_eq!(solver.state(), SolveState::Sat);
        assert_eq!(solver.value(&lit(2)), Some(polarity));
        assert_eq!(solver.value(&lit(3)), Some(polarity));
        assert_eq!(solver.get_prop_reason(&lit(2)), None);
        assert_eq!(solver.value(&lit(1)), Some(true));
        assert_eq!(solver.value(&lit(4)), Some(true));
    }
}

#[test]
fn every_value_has_a_unit_a_decision_or_a_clause_behind_it() {
    let mut rng = Rng(7);
    for _ in 0..40 {
        let clauses = random_clauses(&mut rng, 10, 30, 3);
        let solver = Solver::new(false).add_formula(&formula_of(&clauses)).solve();
        if solver.state() != SolveState::Sat {
            continue;
        }
        for v in 1..=10i64 {
            let held = if solver.value(&lit(v)) == Some(true) { lit(v) } else { lit(-v) };
            match solver.get_prop_reason(&held) {
                None => {},
                Some(others) => {
                    assert!(!others.is_empty());
                    for other in others {
                        assert_eq!(solver.value(&other), Some(false));
                    }
                },
            }
        }
    }
}

#[test]
fn the_same_formula_gives_the_same_reasons() {
    let clauses = vec![vec![-1, 2], vec![-2, 3, 4], vec![-2, -4, 5], vec![-3, -5], vec![1, 6]];
    let first = Solver::new(true).add_formula(&formula_of(&clauses)).solve();
    let second = Solver::new(true).add_formula(&formula_of(&clauses)).solve();
    assert_eq!(first.state(), second.state());
    assert_eq!(first.model(), second.model());
    for v in 1..=6i64 {
        assert_eq!(first.get_prop_reason(&lit(v)), second.get_prop_reason(&lit(v)));
    }
}

#[test]
fn the_learned_clause_stands_on_the_first_implication_point() {
    let clauses = vec![vec![-3, 4], vec![-4, -1, 5], vec![-4, -2, -5]];
    let solver = Solver::new(true).add_formula(&formula_of(&clauses)).solve();
    assert_eq!(solver.state(), SolveState::Sat);
    assert_eq!(solver.model(), vec![lit(1), lit(2), lit(-3), lit(-4), lit(5)]);
    assert_eq!(solver.get_prop_reason(&lit(4)), Some(vec![lit(-2), lit(-1)]));
    assert_eq!(solver.get_prop_reason(&lit(3)), Some(vec![lit(4)]));
    assert_eq!(solver.get_prop_reason(&lit(1)), None);
    assert_eq!(solver.get_prop_reason(&lit(2)), None);
    assert_eq!(solver.get_prop_reason(&lit(5)), None);
}
