use item_build::items::Item;
use item_build::optimizer::{
    check, constraint, formulate, Direction, interpret, measure, OptimizeError, Program, Quantity, Relation,
    Requirements, SolverOutcome, Variable,
};
use microlp::{
    ComparisonOp, Error, OptimizationDirection, Problem, SolutionStatus, SolveOutcome,
};

fn record(id: &str, cost: u64, ad: u64, ap: u64, asp: u64, limit: u64) -> Item {
    Item { name: id.to_string(), id: id.to_string(), cost, ad, ap, asp, ms: 0, limit }
}

fn three_items() -> Vec<Item> {
    vec![
        record("A", 1100, 0, 0, 25, 10),
        record("B", 3000, 30, 30, 25, 2),
        record("C", 2700, 45, 10, 30, 10),
    ]
}

fn solve_with_microlp(program: &Program) -> SolverOutcome {
    let direction = match program.direction {
        Direction::Minimize => OptimizationDirection::Minimize,
        Direction::Maximize => OptimizationDirection::Maximize,
    };
    let mut problem = Problem::new(direction);
    let mut vars = vec![];
    for variable in &program.variables {
        let min = i32::try_from(variable.min).unwrap();
        let max = i32::try_from(variable.max).unwrap();
        vars.push(problem.add_integer_var(variable.cost as f64, (min, max)));
    }
    for row in &program.constraints {
        let terms: Vec<_> =
            vars.iter().zip(&row.coefficients).map(|(var, weight)| (*var, *weight as f64)).collect();
        let op = match row.relation {
            Relation::AtMost => ComparisonOp::Le,
            Relation::AtLeast => ComparisonOp::Ge,
        };
        problem.add_constraint(terms.as_slice(), op, row.bound as f64);
    }
    match problem.solve() {
        Ok(SolveOutcome::Solution(solution)) => match solution.status() {
            SolutionStatus::Optimal => SolverOutcome::Optimal(
                vars.iter().map(|var| solution.var_value(*var).round() as i64).collect(),
            ),
            _ => SolverOutcome::TimedOut,
        },
        Ok(SolveOutcome::Interrupted(_)) => SolverOutcome::TimedOut,
        Err(Error::Infeasible) => SolverOutcome::Infeasible,
        Err(Error::Unbounded) => SolverOutcome::Unbounded,
        Err(_) => SolverOutcome::Failed,
    }
}

#[test]
fn default_requirements() {
    let req = Requirements::default();
    assert_eq!(req, Requirements { slots: 6, ad: 100, ap: 100, asp: 100 });
}

#[test]
fn program_names_every_item_in_every_constraint() {
    let items = three_items();
    let program = formulate(&items, &Requirements { slots: 6, ad: 101, ap: 102, asp: 103 });
    assert_eq!(
        program.variables,
        vec![
            Variable { cost: 1100, min: 0, max: 10 },
            Variable { cost: 3000, min: 0, max: 2 },
            Variable { cost: 2700, min: 0, max: 10 },
        ]
    );
    assert_eq!(program.direction, Direction::Minimize);
    assert_eq!(program.constraints.len(), 4);
    let rows: Vec<(Vec<u64>, Relation, u64)> = program
        .constraints
        .iter()
        .map(|row| (row.coefficients.clone(), row.relation, row.bound))
        .collect();
    assert_eq!(rows[0], (vec![1, 1, 1], Relation::AtMost, 6));
    assert_eq!(rows[1], (vec![0, 30, 45], Relation::AtLeast, 101));
    assert_eq!(rows[2], (vec![0, 30, 10], Relation::AtLeast, 102));
    assert_eq!(rows[3], (vec![25, 25, 30], Relation::AtLeast, 103));
}

#[test]
fn program_of_no_items() {
    let program = formulate(&vec![], &Requirements::default());
    assert!(program.variables.is_empty());
    assert_eq!(program.constraints.len(), 4);
    assert!(program.constraints.iter().all(|row| row.coefficients.is_empty()));
}

#[test]
fn single_constraint_and_measure() {
    let items = three_items();
    let row = constraint(&items, Quantity::Cost, Relation::AtMost, 9);
    assert_eq!(row.coefficients, vec![1100, 3000, 2700]);
    assert_eq!(row.relation, Relation::AtMost);
    assert_eq!(row.bound, 9);
    let mut fast = record("F", 1, 2, 3, 4, 5);
    fast.ms = 7;
    assert_eq!(measure(&fast, Quantity::Slots), 1);
    assert_eq!(measure(&fast, Quantity::Cost), 1);
    assert_eq!(measure(&fast, Quantity::Ad), 2);
    assert_eq!(measure(&fast, Quantity::Ap), 3);
    assert_eq!(measure(&fast, Quantity::Asp), 4);
    assert_eq!(measure(&fast, Quantity::Ms), 7);
}

#[test]
fn feasible_assignment_is_accepted_with_its_cost() {
    let items = three_items();
    let build = check(&items, &Requirements::default(), &vec![0, 2, 4]).unwrap();
    assert_eq!(build.counts, vec![0, 2, 4]);
    assert_eq!(build.cost, 16800);
    let exact = check(&items, &Requirements { slots: 6, ad: 240, ap: 100, asp: 170 }, &vec![0, 2, 4]);
    assert_eq!(exact.unwrap().cost, 16800);
}

#[test]
fn assignment_that_breaks_a_constraint_is_rejected() {
    let items = three_items();
    let req = Requirements::default();
    assert!(check(&items, &req, &vec![0, 2, 3]).is_none());
    assert!(check(&items, &req, &vec![1, 2, 4]).is_none());
    assert!(check(&items, &req, &vec![0, 3, 3]).is_none());
    assert!(check(&items, &req, &vec![-1, 2, 5]).is_none());
    assert!(check(&items, &req, &vec![0, 2]).is_none());
    assert!(check(&items, &req, &vec![0, 2, 4, 0]).is_none());
    assert!(check(&items, &Requirements { slots: 6, ad: 241, ap: 100, asp: 100 }, &vec![0, 2, 4]).is_none());
    assert!(check(&items, &Requirements { slots: 6, ad: 100, ap: 100, asp: 171 }, &vec![0, 2, 4]).is_none());
    assert!(check(&items, &Requirements { slots: 5, ad: 100, ap: 100, asp: 100 }, &vec![0, 2, 4]).is_none());
    assert!(check(&items, &req, &vec![i64::MAX, i64::MAX, i64::MAX]).is_none());
}

#[test]
fn large_amounts_do_not_overflow() {
    let items = vec![record("X", u64::MAX, u64::MAX, u64::MAX, u64::MAX, u64::MAX)];
    let req = Requirements { slots: u64::MAX, ad: u64::MAX, ap: 0, asp: 0 };
    let build = check(&items, &req, &vec![i64::MAX]).unwrap();
    assert_eq!(build.cost, (u64::MAX as u128) * (i64::MAX as u128));
}

#[test]
fn every_solver_answer_has_its_meaning() {
    let items = three_items();
    let req = Requirements::default();
    assert_eq!(interpret(&items, &req, &SolverOutcome::Infeasible).unwrap_err(), OptimizeError::Infeasible);
    assert_eq!(interpret(&items, &req, &SolverOutcome::Unbounded).unwrap_err(), OptimizeError::Unbounded);
    assert_eq!(interpret(&items, &req, &SolverOutcome::TimedOut).unwrap_err(), OptimizeError::SolverTimeout);
    assert_eq!(interpret(&items, &req, &SolverOutcome::Failed).unwrap_err(), OptimizeError::SolverInternalError);
    assert_eq!(
        interpret(&items, &req, &SolverOutcome::Optimal(vec![6, 0, 0])).unwrap_err(),
        OptimizeError::SolverInternalError
    );
    let build = interpret(&items, &req, &SolverOutcome::Optimal(vec![0, 2, 4])).unwrap();
    assert_eq!((build.counts, build.cost), (vec![0, 2, 4], 16800));
}

#[test]
fn accepted_build_meets_every_requirement() {
    let items = three_items();
    let req = Requirements::default();
    for a in 0..=6i64 {
        for b in 0..=6i64 {
            for c in 0..=6i64 {
                let counts = vec![a, b, c];
                let meets = a + b + c <= 6 && b <= 2 && 30 * b + 45 * c >= 100
                    && 30 * b + 10 * c >= 100 && 25 * a + 25 * b + 30 * c >= 100;
                let answer = interpret(&items, &req, &SolverOutcome::Optimal(counts));
                assert_eq!(answer.is_ok(), meets);
            }
        }
    }
}

#[test]
fn three_item_catalog_is_solved_at_minimum_cost() {
    let items = three_items();
    let req = Requirements::default();
    let outcome = solve_with_microlp(&formulate(&items, &req));
    let build = interpret(&items, &req, &outcome).unwrap();
    assert_eq!(build.counts, vec![0, 2, 4]);
    assert_eq!(build.cost, 16800);
    let roomy = Requirements { slots: 100, ad: 100, ap: 100, asp: 100 };
    let outcome = solve_with_microlp(&formulate(&items, &roomy));
    let build = interpret(&items, &roomy, &outcome).unwrap();
    assert_eq!(build.cost, 16800);
}

#[test]
fn unreachable_attack_damage_is_infeasible() {
    let items = vec![record("X", 1000, 40, 0, 0, 2), record("Y", 1000, 0, 60, 55, 2)];
    let req = Requirements::default();
    assert!(check(&items, &Requirements { slots: 6, ad: 80, ap: 120, asp: 110 }, &vec![2, 2]).is_some());
    assert!(check(&items, &req, &vec![2, 2]).is_none());
    let outcome = solve_with_microlp(&formulate(&items, &req));
    assert_eq!(outcome, SolverOutcome::Infeasible);
    assert_eq!(interpret(&items, &req, &outcome).unwrap_err(), OptimizeError::Infeasible);
}

#[test]
fn too_few_slots_is_infeasible() {
    let items = vec![record("X", 1000, 20, 20, 20, 10)];
    let tight = Requirements { slots: 4, ad: 100, ap: 100, asp: 100 };
    let outcome = solve_with_microlp(&formulate(&items, &tight));
    assert_eq!(interpret(&items, &tight, &outcome).unwrap_err(), OptimizeError::Infeasible);
    let req = Requirements::default();
    let outcome = solve_with_microlp(&formulate(&items, &req));
    let build = interpret(&items, &req, &outcome).unwrap();
    assert_eq!((build.counts, build.cost), (vec![5], 5000));
}
