//! The integer program over the decision records: its formulation for a
//! solver, and the check of what the solver answers.
//!
//! The program minimises the summed cost of the chosen copies, subject to a
//! cap on the number of copies and a floor on each of three summed stats.

use vstd::prelude::*;
use crate::items::Item;

verus! {

/// The slot cap and the three stat floors.
#[derive(Clone, Copy, Debug, PartialEq, Eq, Structural)]
pub struct Requirements {
    pub slots: u64,
    pub ad: u64,
    pub ap: u64,
    pub asp: u64,
}

impl Default for Requirements {
    /// Six slots, and a hundred of each stat.
    fn default() -> (r: Self)
        ensures
            r == (Requirements { slots: 6, ad: 100, ap: 100, asp: 100 }),
    {
        Requirements { slots: 6, ad: 100, ap: 100, asp: 100 }
    }
}

/// What one copy of an item adds to: a slot, the cost, or a stat.
#[derive(Clone, Copy, Debug, PartialEq, Eq, Structural)]
pub enum Quantity {
    Slots,
    Cost,
    Ad,
    Ap,
    Asp,
    Ms,
}

/// Whether the objective is to be made small or large.
#[derive(Clone, Copy, Debug, PartialEq, Eq, Structural)]
pub enum Direction {
    Minimize,
    Maximize,
}

/// The direction of a constraint.
#[derive(Clone, Copy, Debug, PartialEq, Eq, Structural)]
pub enum Relation {
    AtMost,
    AtLeast,
}

/// One integer decision variable: its weight in the objective and its bounds.
#[derive(Clone, Copy, Debug, PartialEq, Eq, Structural)]
pub struct Variable {
    pub cost: u64,
    pub min: u64,
    pub max: u64,
}

/// One linear constraint: a coefficient for every variable, a direction and a
/// bound.
#[derive(Clone, Debug, PartialEq, Eq)]
pub struct Constraint {
    pub coefficients: Vec<u64>,
    pub relation: Relation,
    pub bound: u64,
}

/// An integer linear program.
#[derive(Clone, Debug, PartialEq, Eq)]
pub struct Program {
    pub direction: Direction,
    pub variables: Vec<Variable>,
    pub constraints: Vec<Constraint>,
}

/// What a solver answers.
#[derive(Clone, Debug, PartialEq, Eq)]
pub enum SolverOutcome {
    /// An assignment, one count for each variable, claimed optimal.
    Optimal(Vec<i64>),
    Infeasible,
    Unbounded,
    TimedOut,
    Failed,
}

/// Why no build is returned.
#[derive(Clone, Copy, Debug, PartialEq, Eq, Structural)]
pub enum OptimizeError {
    /// No assignment meets the requirements within the slot cap.
    Infeasible,
    Unbounded,
    SolverTimeout,
    /// The solver failed, or its assignment breaks a constraint.
    SolverInternalError,
}

/// A checked assignment and its cost.
#[derive(Clone, Debug, PartialEq, Eq)]
pub struct Build {
    pub counts: Vec<i64>,
    pub cost: u128,
}

/// What one copy of `item` adds to `quantity`.
pub open spec fn amount(item: Item, quantity: Quantity) -> int {
    match quantity {
        Quantity::Slots => 1,
        Quantity::Cost => item.cost as int,
        Quantity::Ad => item.ad as int,
        Quantity::Ap => item.ap as int,
        Quantity::Asp => item.asp as int,
        Quantity::Ms => item.ms as int,
    }
}

/// What the first `n` counts add up to in `quantity`.
pub open spec fn total(items: Seq<Item>, counts: Seq<i64>, quantity: Quantity, n: int) -> int
    decreases n,
{
    if n <= 0 {
        0
    } else {
        total(items, counts, quantity, n - 1) + amount(items[n - 1], quantity) * counts[n - 1]
    }
}

/// An assignment is feasible when it has a count for each item, within the
/// item's bounds, uses no more than the slots, and reaches each floor.
pub open spec fn feasible(items: Seq<Item>, req: Requirements, counts: Seq<i64>) -> bool {
    let n = items.len() as int;
    &&& counts.len() == items.len()
    &&& forall|i: int| 0 <= i < n ==> 0 <= #[trigger] counts[i] <= items[i].limit
    &&& total(items, counts, Quantity::Slots, n) <= req.slots
    &&& total(items, counts, Quantity::Ad, n) >= req.ad
    &&& total(items, counts, Quantity::Ap, n) >= req.ap
    &&& total(items, counts, Quantity::Asp, n) >= req.asp
}

/// The constraint on `quantity` names every item with its own amount.
pub open spec fn constrains(
    row: Constraint,
    items: Seq<Item>,
    quantity: Quantity,
    relation: Relation,
    bound: u64,
) -> bool {
    &&& row.relation == relation
    &&& row.bound == bound
    &&& row.coefficients@.len() == items.len()
    &&& forall|i: int|
        0 <= i < items.len() ==> #[trigger] row.coefficients@[i] == amount(items[i], quantity)
}

/// The program of `items` under `req`: the summed cost is minimised, over a
/// variable for every item, from zero to its limit and weighted by its cost,
/// under the slot cap and the three floors, in that order.
pub open spec fn formulates(program: Program, items: Seq<Item>, req: Requirements) -> bool {
    &&& program.direction == Direction::Minimize
    &&& program.variables@.len() == items.len()
    &&& forall|i: int|
        0 <= i < items.len() ==> #[trigger] program.variables@[i] == (Variable {
            cost: items[i].cost,
            min: 0,
            max: items[i].limit,
        })
    &&& program.constraints@.len() == 4
    &&& constrains(program.constraints@[0], items, Quantity::Slots, Relation::AtMost, req.slots)
    &&& constrains(program.constraints@[1], items, Quantity::Ad, Relation::AtLeast, req.ad)
    &&& constrains(program.constraints@[2], items, Quantity::Ap, Relation::AtLeast, req.ap)
    &&& constrains(program.constraints@[3], items, Quantity::Asp, Relation::AtLeast, req.asp)
}

/// The weighted sum of the first `n` counts.
pub open spec fn weighted(coefficients: Seq<u64>, counts: Seq<i64>, n: int) -> int
    decreases n,
{
    if n <= 0 {
        0
    } else {
        weighted(coefficients, counts, n - 1) + coefficients[n - 1] * counts[n - 1]
    }
}

/// Whether an assignment meets one constraint.
pub open spec fn meets(row: Constraint, counts: Seq<i64>) -> bool {
    let sum = weighted(row.coefficients@, counts, counts.len() as int);
    &&& row.coefficients@.len() == counts.len()
    &&& match row.relation {
        Relation::AtMost => sum <= row.bound,
        Relation::AtLeast => sum >= row.bound,
    }
}

/// Whether an assignment is a solution of a program: a count for every
/// variable, within its bounds, that meets every constraint.
pub open spec fn satisfies(program: Program, counts: Seq<i64>) -> bool {
    &&& counts.len() == program.variables@.len()
    &&& forall|i: int|
        0 <= i < counts.len() ==> program.variables@[i].min <= #[trigger] counts[i]
            <= program.variables@[i].max
    &&& forall|k: int|
        0 <= k < program.constraints@.len() ==> meets(#[trigger] program.constraints@[k], counts)
}

/// What a program's objective comes to under an assignment.
pub open spec fn objective(program: Program, counts: Seq<i64>) -> int {
    objective_upto(program, counts, program.variables@.len() as int)
}

/// The objective over the first `n` variables.
pub open spec fn objective_upto(program: Program, counts: Seq<i64>, n: int) -> int
    decreases n,
{
    if n <= 0 {
        0
    } else {
        objective_upto(program, counts, n - 1) + program.variables@[n - 1].cost * counts[n - 1]
    }
}

/// What one copy of `item` adds to `quantity`.
pub fn measure(item: &Item, quantity: Quantity) -> (r: u64)
    ensures
        r == amount(*item, quantity),
{
    match quantity {
        Quantity::Slots => 1,
        Quantity::Cost => item.cost,
        Quantity::Ad => item.ad,
        Quantity::Ap => item.ap,
        Quantity::Asp => item.asp,
        Quantity::Ms => item.ms,
    }
}

/// The constraint that bounds `quantity`, over every item.
pub fn constraint(items: &Vec<Item>, quantity: Quantity, relation: Relation, bound: u64) -> (r:
    Constraint)
    ensures
        constrains(r, items@, quantity, relation, bound),
{
    let mut coefficients: Vec<u64> = Vec::new();
    let mut i: usize = 0;
    while i < items.len()
        invariant
            i <= items.len(),
            coefficients@.len() == i,
            forall|j: int| 0 <= j < i ==> #[trigger] coefficients@[j] == amount(items@[j], quantity),
        decreases items.len() - i,
    {
        coefficients.push(measure(&items[i], quantity));
        i += 1;
    }
    Constraint { coefficients, relation, bound }
}

/// The program that a solver is to minimise.
pub fn formulate(items: &Vec<Item>, req: &Requirements) -> (r: Program)
    ensures
        formulates(r, items@, *req),
{
    let mut variables: Vec<Variable> = Vec::new();
    let mut i: usize = 0;
    while i < items.len()
        invariant
            i <= items.len(),
            variables@.len() == i,
            forall|j: int|
                0 <= j < i ==> #[trigger] variables@[j] == (Variable {
                    cost: items@[j].cost,
                    min: 0,
                    max: items@[j].limit,
                }),
        decreases items.len() - i,
    {
        variables.push(Variable { cost: items[i].cost, min: 0, max: items[i].limit });
        i += 1;
    }
    let mut constraints: Vec<Constraint> = Vec::new();
    constraints.push(constraint(items, Quantity::Slots, Relation::AtMost, req.slots));
    constraints.push(constraint(items, Quantity::Ad, Relation::AtLeast, req.ad));
    constraints.push(constraint(items, Quantity::Ap, Relation::AtLeast, req.ap));
    constraints.push(constraint(items, Quantity::Asp, Relation::AtLeast, req.asp));
    Program { direction: Direction::Minimize, variables, constraints }
}

/// A constraint that names every item with its amount sums what the items
/// add up to.
pub proof fn lemma_weighted_is_total(
    row: Constraint,
    items: Seq<Item>,
    counts: Seq<i64>,
    quantity: Quantity,
    n: int,
)
    requires
        row.coefficients@.len() == items.len(),
        forall|i: int|
            0 <= i < items.len() ==> #[trigger] row.coefficients@[i] == amount(items[i], quantity),
        0 <= n <= items.len(),
    ensures
        weighted(row.coefficients@, counts, n) == total(items, counts, quantity, n),
    decreases n,
{
    if n > 0 {
        lemma_weighted_is_total(row, items, counts, quantity, n - 1);
    }
}

/// The objective of the formulated program is the cost of the assignment.
pub proof fn lemma_objective_is_cost(
    program: Program,
    items: Seq<Item>,
    req: Requirements,
    counts: Seq<i64>,
    n: int,
)
    requires
        formulates(program, items, req),
        0 <= n <= items.len(),
    ensures
        objective_upto(program, counts, n) == total(items, counts, Quantity::Cost, n),
    decreases n,
{
    if n > 0 {
        lemma_objective_is_cost(program, items, req, counts, n - 1);
        assert(program.variables@[n - 1].cost == items[n - 1].cost);
    }
}

/// The formulated program says what feasibility says: an assignment is a
/// solution of the program exactly when it is feasible for the items, and
/// the objective is its cost.
pub proof fn lemma_program_is_faithful(
    program: Program,
    items: Seq<Item>,
    req: Requirements,
    counts: Seq<i64>,
)
    requires
        formulates(program, items, req),
    ensures
        satisfies(program, counts) <==> feasible(items, req, counts),
        objective(program, counts) == total(items, counts, Quantity::Cost, items.len() as int),
{
    let n = items.len() as int;
    lemma_objective_is_cost(program, items, req, counts, n);
    if counts.len() == items.len() {
        lemma_weighted_is_total(program.constraints@[0], items, counts, Quantity::Slots, n);
        lemma_weighted_is_total(program.constraints@[1], items, counts, Quantity::Ad, n);
        lemma_weighted_is_total(program.constraints@[2], items, counts, Quantity::Ap, n);
        lemma_weighted_is_total(program.constraints@[3], items, counts, Quantity::Asp, n);
        if satisfies(program, counts) {
            assert(meets(program.constraints@[0], counts));
            assert(meets(program.constraints@[1], counts));
            assert(meets(program.constraints@[2], counts));
            assert(meets(program.constraints@[3], counts));
            assert forall|i: int| 0 <= i < n implies 0 <= #[trigger] counts[i]
                <= items[i].limit by {
                assert(program.variables@[i].max == items[i].limit);
            }
        }
        if feasible(items, req, counts) {
            assert forall|i: int| 0 <= i < counts.len() implies program.variables@[i].min
                <= #[trigger] counts[i] <= program.variables@[i].max by {
                assert(program.variables@[i].max == items[i].limit);
                assert(program.variables@[i].min == 0);
            }
            assert forall|k: int| 0 <= k < program.constraints@.len() implies meets(
                #[trigger] program.constraints@[k],
                counts,
            ) by {
                assert(k == 0 || k == 1 || k == 2 || k == 3);
            }
        }
    }
}

/// Where no count is negative, a longer prefix adds up to no less.
pub proof fn lemma_total_grows(
    items: Seq<Item>,
    counts: Seq<i64>,
    quantity: Quantity,
    a: int,
    b: int,
)
    requires
        counts.len() == items.len(),
        0 <= a <= b <= counts.len(),
        forall|i: int| 0 <= i < counts.len() ==> #[trigger] counts[i] >= 0,
    ensures
        total(items, counts, quantity, a) <= total(items, counts, quantity, b),
    decreases b - a,
{
    if a < b {
        lemma_total_grows(items, counts, quantity, a, b - 1);
        let w = amount(items[b - 1], quantity);
        let c = counts[b - 1] as int;
        assert(w * c >= 0) by (nonlinear_arith)
            requires
                w >= 0,
                c >= 0,
        ;
    }
}

/// A term of a sum stays under the room that the slots leave.
pub proof fn lemma_term_fits(w: int, c: int, used: int, slots: int, acc: int)
    requires
        0 <= w <= u64::MAX,
        0 <= c,
        0 <= used,
        used + c <= slots <= u64::MAX,
        0 <= acc <= used * u64::MAX,
    ensures
        0 <= w * c,
        acc + w * c <= (used + c) * u64::MAX,
        (used + c) * u64::MAX <= u128::MAX,
{
    let m = u64::MAX as int;
    assert(0 <= w * c <= m * c) by (nonlinear_arith)
        requires
            0 <= w <= m,
            0 <= c,
    ;
    assert((used + c) * m == used * m + m * c) by (nonlinear_arith);
    assert((used + c) * m <= m * m) by (nonlinear_arith)
        requires
            0 <= used + c <= m,
            0 <= m,
    ;
    assert(m * m <= u128::MAX) by (nonlinear_arith)
        requires
            m == 0xffff_ffff_ffff_ffff,
    ;
}

/// Checks a claimed assignment against every constraint. It is accepted
/// exactly when it is feasible, and then comes back with its cost.
pub fn check(items: &Vec<Item>, req: &Requirements, counts: &Vec<i64>) -> (r: Option<Build>)
    ensures
        match r {
            Some(build) => feasible(items@, *req, counts@) && build.counts@ == counts@
                && build.cost == total(items@, counts@, Quantity::Cost, items@.len() as int),
            None => !feasible(items@, *req, counts@),
        },
{
    if counts.len() != items.len() {
        return None;
    }
    let n = items.len();
    let mut kept: Vec<i64> = Vec::new();
    let mut used: u64 = 0;
    let mut cost: u128 = 0;
    let mut ad: u128 = 0;
    let mut ap: u128 = 0;
    let mut asp: u128 = 0;
    let mut i: usize = 0;
    while i < n
        invariant
            n == items@.len(),
            n == counts@.len(),
            i <= n,
            kept@ == counts@.subrange(0, i as int),
            forall|j: int| 0 <= j < i ==> 0 <= #[trigger] counts@[j] <= items@[j].limit,
            used == total(items@, counts@, Quantity::Slots, i as int),
            used <= req.slots,
            cost == total(items@, counts@, Quantity::Cost, i as int),
            ad == total(items@, counts@, Quantity::Ad, i as int),
            ap == total(items@, counts@, Quantity::Ap, i as int),
            asp == total(items@, counts@, Quantity::Asp, i as int),
            cost <= used * u64::MAX,
            ad <= used * u64::MAX,
            ap <= used * u64::MAX,
            asp <= used * u64::MAX,
        decreases n - i,
    {
        let c = counts[i];
        let item = &items[i];
        if c < 0 || c as u64 > item.limit {
            return None;
        }
        let c = c as u64;
        if c > req.slots - used {
            proof {
                if feasible(items@, *req, counts@) {
                    lemma_total_grows(items@, counts@, Quantity::Slots, i + 1, n as int);
                }
            }
            return None;
        }
        proof {
            lemma_term_fits(item.cost as int, c as int, used as int, req.slots as int, cost as int);
            lemma_term_fits(item.ad as int, c as int, used as int, req.slots as int, ad as int);
            lemma_term_fits(item.ap as int, c as int, used as int, req.slots as int, ap as int);
            lemma_term_fits(item.asp as int, c as int, used as int, req.slots as int, asp as int);
        }
        cost = cost + (item.cost as u128) * (c as u128);
        ad = ad + (item.ad as u128) * (c as u128);
        ap = ap + (item.ap as u128) * (c as u128);
        asp = asp + (item.asp as u128) * (c as u128);
        used = used + c;
        kept.push(counts[i]);
        i += 1;
        assert(kept@ =~= counts@.subrange(0, i as int));
    }
    assert(kept@ =~= counts@);
    if ad < req.ad as u128 || ap < req.ap as u128 || asp < req.asp as u128 {
        return None;
    }
    Some(Build { counts: kept, cost })
}

/// What a solver's answer means for the items it was asked about: a build
/// where the answer is a feasible assignment, else the reason for none.
pub fn interpret(items: &Vec<Item>, req: &Requirements, outcome: &SolverOutcome) -> (r: Result<
    Build,
    OptimizeError,
>)
    ensures
        match *outcome {
            SolverOutcome::Optimal(counts) => match r {
                Ok(build) => feasible(items@, *req, counts@) && build.counts@ == counts@
                    && build.cost == total(items@, counts@, Quantity::Cost, items@.len() as int),
                Err(e) => !feasible(items@, *req, counts@) && e
                    == OptimizeError::SolverInternalError,
            },
            SolverOutcome::Infeasible => r == Err::<Build, OptimizeError>(
                OptimizeError::Infeasible,
            ),
            SolverOutcome::Unbounded => r == Err::<Build, OptimizeError>(OptimizeError::Unbounded),
            SolverOutcome::TimedOut => r == Err::<Build, OptimizeError>(
                OptimizeError::SolverTimeout,
            ),
            SolverOutcome::Failed => r == Err::<Build, OptimizeError>(
                OptimizeError::SolverInternalError,
            ),
        },
        r is Ok ==> {
            let counts = r->Ok_0.counts@;
            let n = items@.len() as int;
            &&& total(items@, counts, Quantity::Slots, n) <= req.slots
            &&& total(items@, counts, Quantity::Ad, n) >= req.ad
            &&& total(items@, counts, Quantity::Ap, n) >= req.ap
            &&& total(items@, counts, Quantity::Asp, n) >= req.asp
        },
{
    match outcome {
        SolverOutcome::Optimal(counts) => match check(items, req, counts) {
            Some(build) => Ok(build),
            None => Err(OptimizeError::SolverInternalError),
        },
        SolverOutcome::Infeasible => Err(OptimizeError::Infeasible),
        SolverOutcome::Unbounded => Err(OptimizeError::Unbounded),
        SolverOutcome::TimedOut => Err(OptimizeError::SolverTimeout),
        SolverOutcome::Failed => Err(OptimizeError::SolverInternalError),
    }
}

} // verus!
