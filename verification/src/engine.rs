//! The engine: cell store, dependency graph and evaluation orchestrator.
//!
//! One `Engine` owns five logical indices, kept per cell in one record: the
//! stored value, the raw formula text, the error state, the input set and
//! the consumer set.  `set` overwrites a cell's formula, evaluates it,
//! rewires the graph edges, and re-evaluates every transitive consumer, in
//! an order where each cell comes after the inputs it reads.  When no such
//! order exists the formulas are circular: every cell of the affected
//! closure is marked with a cycle error instead.
//!
//! The engine invariant: the graph is symmetric (`b` is an input of `a`
//! exactly when `a` is a consumer of `b`), cells never set hold nothing, and
//! every cell is settled — its error state is present exactly when some
//! input binding holds an error value, and otherwise its stored value is a
//! possible outcome of its formula under the current bindings — unless it
//! is marked as circular.

use crate::evaluator::{bindings_have_error, eval_possible, evaluate_formula};
use crate::addr::{addr_chars, cell_key, cell_name, key_of};
use crate::range::{bindings_of, collect_bindings, refs_of};
use crate::values::{EvalError, GetResult, ValSpec, Value};
use std::collections::HashMap;
use vstd::prelude::*;
use vstd::string::StringExecFns;

verus! {

broadcast use vstd::std_specs::hash::group_hash_axioms;

/// Everything the engine keeps for one cell: the last computed value, the
/// raw formula text (present exactly when the cell was set at least once),
/// the error message of the most recent failed evaluation, the cells its
/// formula reads (inputs) and the cells that read it (consumers).
pub struct CellRecord {
    pub value: Value,
    pub formula: Option<String>,
    pub error: Option<String>,
    pub inputs: Vec<u64>,
    pub consumers: Vec<u64>,
}

/// The stored value of cell `k`: a cell never set reads as empty.
pub open spec fn value_of(cm: Map<u64, CellRecord>, k: u64) -> ValSpec {
    if cm.dom().contains(k) {
        cm[k].value@
    } else {
        ValSpec::Empty
    }
}

/// The formula text of cell `k`, present exactly when it was set.
pub open spec fn formula_of(cm: Map<u64, CellRecord>, k: u64) -> Option<Seq<char>> {
    if cm.dom().contains(k) {
        match cm[k].formula {
            Option::Some(s) => Option::Some(s@),
            Option::None => Option::None,
        }
    } else {
        Option::None
    }
}

/// The error state of cell `k`, present exactly when its most recent
/// evaluation failed.
pub open spec fn error_of(cm: Map<u64, CellRecord>, k: u64) -> Option<Seq<char>> {
    if cm.dom().contains(k) {
        match cm[k].error {
            Option::Some(s) => Option::Some(s@),
            Option::None => Option::None,
        }
    } else {
        Option::None
    }
}

/// The set of cells that `k`'s current formula reads.
pub open spec fn inputs_of(cm: Map<u64, CellRecord>, k: u64) -> Set<u64> {
    if cm.dom().contains(k) {
        cm[k].inputs@.to_set()
    } else {
        Set::empty()
    }
}

/// The set of cells whose current formula reads `k`.
pub open spec fn consumers_of(cm: Map<u64, CellRecord>, k: u64) -> Set<u64> {
    if cm.dom().contains(k) {
        cm[k].consumers@.to_set()
    } else {
        Set::empty()
    }
}

/// Reads the stored value of cell `k`.
pub(crate) fn value_at(cells: &HashMap<u64, CellRecord>, k: u64) -> (v: Value)
    ensures
        v@ == value_of(cells@, k),
{
    match cells.get(&k) {
        Option::Some(rec) => rec.value.clone(),
        Option::None => Value::Empty,
    }
}

/// Whether `v` holds `k`.
pub(crate) fn vec_has_key(v: &Vec<u64>, k: u64) -> (r: bool)
    ensures
        r == v@.contains(k),
{
    let mut i: usize = 0;
    while i < v.len()
        invariant
            0 <= i <= v@.len(),
            forall|j: int| 0 <= j < i ==> v@[j] != k,
        decreases v@.len() - i,
    {
        if v[i] == k {
            return true;
        }
        i = i + 1;
    }
    false
}

/// The message recorded for a cell whose evaluation failed because an input
/// holds an error value.
pub open spec fn eval_error_text() -> Seq<char> {
    "VariableDependsOnError"@
}

/// The message recorded for a cell caught in a formula cycle.
pub open spec fn cycle_error_text() -> Seq<char> {
    "CircularDependency"@
}

fn eval_error_string() -> (s: String)
    ensures
        s@ == eval_error_text(),
{
    String::from_str("VariableDependsOnError")
}

fn cycle_error_string() -> (s: String)
    ensures
        s@ == cycle_error_text(),
{
    String::from_str("CircularDependency")
}

/// Structural well-formedness of the store: no duplicates in the edge
/// lists, the graph is symmetric, and a cell never set holds no value, no
/// error and no inputs.
pub open spec fn graph_wf(cm: Map<u64, CellRecord>) -> bool {
    &&& forall|k: u64| #[trigger]
        cm.dom().contains(k) ==> cm[k].inputs@.no_duplicates() && cm[k].consumers@.no_duplicates()
    &&& forall|a: u64, b: u64| #![trigger inputs_of(cm, a).contains(b)]
        #![trigger consumers_of(cm, b).contains(a)]
        inputs_of(cm, a).contains(b) <==> consumers_of(cm, b).contains(a)
    &&& forall|a: u64| #[trigger]
        formula_of(cm, a) is None ==> value_of(cm, a) is Empty && error_of(cm, a) is None
            && inputs_of(cm, a) === Set::empty()
}

/// Cell `c` is settled: its input set is exactly what its formula reads;
/// its error state is present exactly when some current input binding holds
/// an error value; and when there is no error, its stored value is a
/// possible outcome of evaluating its formula under the current bindings.
/// A cell never set is settled by definition.
pub open spec fn settled(cm: Map<u64, CellRecord>, c: u64) -> bool {
    match formula_of(cm, c) {
        Option::Some(t) => {
            &&& inputs_of(cm, c) == refs_of(t)
            &&& if bindings_have_error(bindings_of(cm, t)) {
                error_of(cm, c) == Option::Some(eval_error_text())
            } else {
                error_of(cm, c) is None && eval_possible(
                    t,
                    bindings_of(cm, t),
                    Ok::<ValSpec, EvalError>(value_of(cm, c)),
                )
            }
        },
        Option::None => true,
    }
}

/// Every cell is settled or marked as circular.
pub open spec fn cell_ok(cm: Map<u64, CellRecord>, c: u64) -> bool {
    settled(cm, c) || error_of(cm, c) == Option::Some(cycle_error_text())
}

/// Settledness of a cell depends only on its own record and on the values
/// of the cells its formula reads.
pub proof fn lemma_settled_frame(m1: Map<u64, CellRecord>, m2: Map<u64, CellRecord>, c: u64)
    requires
        formula_of(m1, c) == formula_of(m2, c),
        value_of(m1, c) == value_of(m2, c),
        error_of(m1, c) == error_of(m2, c),
        inputs_of(m1, c) == inputs_of(m2, c),
        formula_of(m1, c) matches Option::Some(t) ==> forall|k: u64|
            refs_of(t).contains(k) ==> value_of(m1, k) == value_of(m2, k),
    ensures
        settled(m1, c) == settled(m2, c),
{
    match formula_of(m1, c) {
        Option::Some(t) => {
            crate::range::lemma_bindings_frame(m1, m2, t);
        },
        Option::None => {},
    }
}

/// Reachability only depends on the consumer edges: two stores with the
/// same consumer sets have the same cascades.
proof fn lemma_reaches_same_graph(m1: Map<u64, CellRecord>, m2: Map<u64, CellRecord>, x: u64, c: u64)
    requires
        forall|b: u64| #[trigger] consumers_of(m1, b) == consumers_of(m2, b),
        reaches(m1, x, c),
    ensures
        reaches(m2, x, c),
{
    let p = choose|p: Seq<u64>| consumer_chain(m1, x, c, p);
    assert forall|i: int| 0 <= i < p.len() - 1 implies consumers_of(m2, #[trigger] p[i]).contains(
        p[i + 1],
    ) by {
        assert(consumers_of(m1, p[i]).contains(p[i + 1]));
    }
    assert(consumer_chain(m2, x, c, p));
}

/// Every cell on a consumer chain out of `x` lies in any set that contains
/// `x`'s consumers and is closed under taking consumers.
proof fn lemma_chain_prefix(
    cm: Map<u64, CellRecord>,
    x: u64,
    cvec: Seq<u64>,
    p: Seq<u64>,
    i: int,
)
    requires
        forall|y: u64| consumers_of(cm, x).contains(y) ==> cvec.contains(y),
        forall|y: u64, z: u64|
            cvec.contains(y) && consumers_of(cm, y).contains(z) ==> cvec.contains(z),
        p.len() >= 1,
        consumers_of(cm, x).contains(p[0]),
        forall|t: int| 0 <= t < p.len() - 1 ==> consumers_of(cm, #[trigger] p[t]).contains(
            p[t + 1],
        ),
        0 <= i < p.len(),
    ensures
        cvec.contains(p[i]),
    decreases i,
{
    if i > 0 {
        lemma_chain_prefix(cm, x, cvec, p, i - 1);
    }
}

/// Every cell the cascade from `x` can reach lies in such a closed set.
proof fn lemma_reaches_into_closure(
    cm: Map<u64, CellRecord>,
    x: u64,
    cvec: Seq<u64>,
    c: u64,
)
    requires
        forall|y: u64| consumers_of(cm, x).contains(y) ==> cvec.contains(y),
        forall|y: u64, z: u64|
            cvec.contains(y) && consumers_of(cm, y).contains(z) ==> cvec.contains(z),
        reaches(cm, x, c),
    ensures
        cvec.contains(c),
{
    let p = choose|p: Seq<u64>| consumer_chain(cm, x, c, p);
    lemma_chain_prefix(cm, x, cvec, p, p.len() - 1);
}

/// The position of `y` in `order`.
spec fn index_in(order: Seq<u64>, y: u64) -> int {
    choose|j: int| 0 <= j < order.len() && order[j] == y
}

/// In a duplicate-free order, a contained cell has exactly one position.
proof fn lemma_index_in(order: Seq<u64>, y: u64)
    requires
        order.no_duplicates(),
        order.contains(y),
    ensures
        0 <= index_in(order, y) < order.len(),
        order[index_in(order, y)] == y,
        forall|j: int| 0 <= j < order.len() && order[j] == y ==> j == index_in(order, y),
{
    let j0 = index_in(order, y);
    assert(exists|j: int| 0 <= j < order.len() && order[j] == y);
}

/// No consumer cycle runs through the cells of a dependency order: along a
/// consumer chain the positions strictly increase, so no chain can return
/// to its starting cell.
proof fn lemma_order_excludes_cycle(
    cm: Map<u64, CellRecord>,
    cvec: Seq<u64>,
    order: Seq<u64>,
    x: u64,
    p: Seq<u64>,
    i: int,
)
    requires
        graph_wf(cm),
        order.no_duplicates(),
        order.to_set() == cvec.to_set(),
        forall|j: int, b: u64|
            0 <= j < order.len() && inputs_of(cm, #[trigger] order[j]).contains(b)
                && cvec.contains(b) ==> #[trigger] order.take(j).contains(b),
        forall|y: u64| consumers_of(cm, x).contains(y) ==> cvec.contains(y),
        forall|y: u64, z: u64|
            cvec.contains(y) && consumers_of(cm, y).contains(z) ==> cvec.contains(z),
        cvec.contains(x),
        consumer_chain(cm, x, x, p),
        0 <= i < p.len(),
    ensures
        index_in(order, x) < index_in(order, p[i]),
    decreases i,
{
    lemma_chain_prefix(cm, x, cvec, p, i);
    assert(order.to_set().contains(p[i]));
    assert(order.contains(p[i]));
    lemma_index_in(order, p[i]);
    assert(order.to_set().contains(x));
    assert(order.contains(x));
    lemma_index_in(order, x);
    let j = index_in(order, p[i]);
    if i == 0 {
        // x feeds p[0], so x stands before it in the order
        assert(consumers_of(cm, x).contains(p[0]));
        assert(inputs_of(cm, p[0]).contains(x));
        assert(inputs_of(cm, order[j]).contains(x));
        assert(order.take(j).contains(x));
        let jx = choose|jx: int| 0 <= jx < order.take(j).len() && order.take(j)[jx] == x;
        assert(order[jx] == x);
        assert(jx == index_in(order, x));
    } else {
        lemma_order_excludes_cycle(cm, cvec, order, x, p, i - 1);
        lemma_chain_prefix(cm, x, cvec, p, i - 1);
        assert(consumers_of(cm, p[i - 1]).contains(p[i]));
        assert(inputs_of(cm, p[i]).contains(p[i - 1]));
        assert(inputs_of(cm, order[j]).contains(p[i - 1]));
        assert(cvec.contains(p[i - 1]));
        assert(order.take(j).contains(p[i - 1]));
        let jp = choose|jp: int|
            0 <= jp < order.take(j).len() && order.take(j)[jp] == p[i - 1];
        assert(order[jp] == p[i - 1]);
        lemma_index_in(order, p[i - 1]);
        assert(jp == index_in(order, p[i - 1]));
        assert(index_in(order, p[i - 1]) < j);
    }
}

/// When every unplaced cell of `cvec` still reads some unplaced cell of
/// `cvec`, an arbitrarily long chain of input edges through unplaced cells
/// can be followed from any unplaced starting cell.
proof fn build_input_chain(
    cm: Map<u64, CellRecord>,
    cvec: Seq<u64>,
    placed: Seq<u64>,
    y0: u64,
    k: nat,
) -> (p: Seq<u64>)
    requires
        forall|y: u64|
            #[trigger] cvec.contains(y) && !placed.contains(y) ==> exists|b: u64|
                inputs_of(cm, y).contains(b) && cvec.contains(b) && !placed.contains(b),
        cvec.contains(y0),
        !placed.contains(y0),
    ensures
        p.len() == k + 1,
        p[0] == y0,
        forall|i: int| 0 <= i < p.len() ==> cvec.contains(#[trigger] p[i]) && !placed.contains(
            p[i],
        ),
        forall|i: int| 0 <= i < k ==> inputs_of(cm, #[trigger] p[i]).contains(p[i + 1]),
    decreases k,
{
    if k == 0 {
        seq![y0]
    } else {
        let b = choose|b: u64|
            inputs_of(cm, y0).contains(b) && cvec.contains(b) && !placed.contains(b);
        let rest = build_input_chain(cm, cvec, placed, b, (k - 1) as nat);
        let p = seq![y0] + rest;
        assert(p[0] == y0);
        assert forall|i: int| 0 <= i < p.len() implies cvec.contains(#[trigger] p[i])
            && !placed.contains(p[i]) by {
            if i >= 1 {
                assert(p[i] == rest[i - 1]);
            }
        }
        assert forall|i: int| 0 <= i < k implies inputs_of(cm, #[trigger] p[i]).contains(
            p[i + 1],
        ) by {
            if i == 0 {
                assert(p[1] == rest[0]);
            } else {
                assert(p[i] == rest[i - 1]);
                assert(p[i + 1] == rest[i]);
            }
        }
        p
    }
}

/// Out of a long enough chain of input edges within a finite set of cells, a
/// genuine cycle can be cut: some cell transitively consumes itself.
proof fn lemma_chain_yields_cycle(cm: Map<u64, CellRecord>, cvec: Seq<u64>, p: Seq<u64>)
    requires
        graph_wf(cm),
        cvec.no_duplicates(),
        p.len() > cvec.len(),
        forall|i: int| 0 <= i < p.len() ==> cvec.contains(#[trigger] p[i]),
        forall|i: int| 0 <= i < p.len() - 1 ==> inputs_of(cm, #[trigger] p[i]).contains(p[i + 1]),
    ensures
        exists|y: u64| cvec.contains(y) && reaches(cm, y, y),
{
    // pigeonhole: p has more entries than cvec has cells, so some cell repeats
    if p.no_duplicates() {
        p.unique_seq_to_set();
        cvec.unique_seq_to_set();
        assert forall|y: u64| p.to_set().contains(y) implies cvec.to_set().contains(y) by {
            let i = choose|i: int| 0 <= i < p.len() && p[i] == y;
        }
        vstd::set_lib::lemma_len_subset(p.to_set(), cvec.to_set());
        assert(false);
    }
    let (i, j) = choose|i: int, j: int|
        0 <= i < p.len() && 0 <= j < p.len() && i != j && p[i] == p[j] && i < j;
    assert(exists|i: int, j: int|
        0 <= i < p.len() && 0 <= j < p.len() && i != j && p[i] == p[j] && i < j) by {
        let (a, b) = choose|a: int, b: int|
            0 <= a < p.len() && 0 <= b < p.len() && a != b && #[trigger] p[a] == #[trigger] p[b];
        if a < b {
            assert(0 <= a < p.len() && 0 <= b < p.len() && a != b && p[a] == p[b] && a < b);
        } else {
            assert(0 <= b < p.len() && 0 <= a < p.len() && b != a && p[b] == p[a] && b < a);
        }
    }
    let y = p[i];
    // walk the segment backwards: input edges reversed are consumer edges
    let q = Seq::new((j - i) as nat, |t: int| p[j - 1 - t]);
    assert forall|t: int| 0 <= t < q.len() - 1 implies consumers_of(cm, #[trigger] q[t]).contains(
        q[t + 1],
    ) by {
        assert(q[t] == p[j - 1 - t]);
        assert(q[t + 1] == p[j - 2 - t]);
        assert(inputs_of(cm, p[j - 2 - t]).contains(p[j - 1 - t]));
    }
    assert(q[0] == p[j - 1]);
    assert(inputs_of(cm, p[j - 1]).contains(p[j]));
    assert(consumers_of(cm, p[j]).contains(p[j - 1]));
    assert(q.last() == p[i]);
    assert(consumer_chain(cm, y, y, q));
}

/// A fresh record for a cell seen for the first time.
fn new_record() -> (rec: CellRecord)
    ensures
        rec.value@ is Empty,
        rec.formula is None,
        rec.error is None,
        rec.inputs@ == Seq::<u64>::empty(),
        rec.consumers@ == Seq::<u64>::empty(),
{
    CellRecord {
        value: Value::Empty,
        formula: Option::None,
        error: Option::None,
        inputs: Vec::new(),
        consumers: Vec::new(),
    }
}

/// A copy of a key list.
fn copy_keys(v: &Vec<u64>) -> (r: Vec<u64>)
    ensures
        r@ == v@,
{
    let mut r: Vec<u64> = Vec::new();
    let mut i: usize = 0;
    while i < v.len()
        invariant
            0 <= i <= v@.len(),
            r@ == v@.take(i as int),
        decreases v@.len() - i,
    {
        r.push(v[i]);
        proof {
            assert(r@ =~= v@.take(i as int + 1));
        }
        i = i + 1;
    }
    proof {
        assert(v@.take(v@.len() as int) =~= v@);
    }
    r
}

/// The list without any occurrence of `k`, order kept.
fn remove_key(v: &Vec<u64>, k: u64) -> (r: Vec<u64>)
    requires
        v@.no_duplicates(),
    ensures
        r@.to_set() == v@.to_set().remove(k),
        r@.no_duplicates(),
{
    let mut r: Vec<u64> = Vec::new();
    let mut i: usize = 0;
    while i < v.len()
        invariant
            0 <= i <= v@.len(),
            v@.no_duplicates(),
            r@.no_duplicates(),
            forall|x: u64| #[trigger]
                r@.contains(x) == (v@.take(i as int).contains(x) && x != k),
        decreases v@.len() - i,
    {
        let ghost rold = r@;
        let e: u64 = v[i];
        if e != k {
            proof {
                if rold.contains(e) {
                    let jj = choose|jj: int|
                        0 <= jj < v@.take(i as int).len() && v@.take(i as int)[jj] == e;
                    assert(v@[jj] == v@[i as int]);
                    assert(false);
                }
            }
            r.push(e);
            proof {
                lemma_push_nodup(rold, e);
                assert(r@.no_duplicates());
            }
        }
        proof {
            broadcast use vstd::seq_lib::group_seq_properties;

            assert(v@.take(i as int + 1) =~= v@.take(i as int).push(v@[i as int]));
            assert forall|x: u64| #[trigger]
                r@.contains(x) == (v@.take(i as int + 1).contains(x) && x != k) by {
                if e != k {
                    assert(r@ == rold.push(e));
                    assert(r@.contains(x) == (rold.contains(x) || x == e));
                } else {
                    assert(r@ == rold);
                }
            }
        }
        i = i + 1;
    }
    proof {
        assert(v@.take(v@.len() as int) =~= v@);
        assert forall|x: u64| r@.to_set().contains(x) == v@.to_set().remove(k).contains(x) by {
            assert(r@.contains(x) == (v@.contains(x) && x != k));
        }
        assert(r@.to_set() =~= v@.to_set().remove(k));
    }
    r
}

/// Re-evaluates cell `x` from its stored formula: binds its variables,
/// invokes the evaluator, stores the result or the error, and rewires the
/// graph so that `x` is a consumer of exactly the cells its formula reads.
/// Returns the error message when evaluation failed.
#[verifier::loop_isolation(false)]
#[verifier::rlimit(100)]
fn eval_cell(cells: &mut HashMap<u64, CellRecord>, x: u64) -> (err: Option<String>)
    requires
        graph_wf(old(cells)@),
        formula_of(old(cells)@, x) is Some,
    ensures
        graph_wf(final(cells)@),
        final(cells)@.dom().contains(x),
        forall|a: u64| #[trigger] formula_of(final(cells)@, a) == formula_of(old(cells)@, a),
        forall|a: u64| a != x ==> #[trigger] value_of(final(cells)@, a) == value_of(old(cells)@, a),
        forall|a: u64| a != x ==> #[trigger] error_of(final(cells)@, a) == error_of(old(cells)@, a),
        forall|a: u64| a != x ==> #[trigger] inputs_of(final(cells)@, a) == inputs_of(old(cells)@, a),
        inputs_of(final(cells)@, x) == refs_of(formula_of(old(cells)@, x).unwrap()),
        forall|b: u64| #[trigger] consumers_of(final(cells)@, b) == (
        if refs_of(formula_of(old(cells)@, x).unwrap()).contains(b) {
            consumers_of(old(cells)@, b).insert(x)
        } else {
            consumers_of(old(cells)@, b).remove(x)
        }),
        ({
            let t = formula_of(old(cells)@, x).unwrap();
            if bindings_have_error(bindings_of(old(cells)@, t)) {
                &&& error_of(final(cells)@, x) == Option::Some(eval_error_text())
                &&& value_of(final(cells)@, x) == value_of(old(cells)@, x)
                &&& (err matches Option::Some(m) && m@ == eval_error_text())
            } else {
                &&& error_of(final(cells)@, x) is None
                &&& eval_possible(
                    t,
                    bindings_of(old(cells)@, t),
                    Ok::<ValSpec, EvalError>(value_of(final(cells)@, x)),
                )
                &&& err is None
            }
        }),
{
    let ghost m0 = cells@;
    let ghost t = formula_of(m0, x).unwrap();
    // read the formula and build the bindings against the current store
    let text: String = match cells.get(&x) {
        Option::Some(rec) => match &rec.formula {
            Option::Some(f) => f.clone(),
            Option::None => {
                proof {
                    assert(false);
                }
                vstd::pervasive::unreached()
            },
        },
        Option::None => {
            proof {
                assert(false);
            }
            vstd::pervasive::unreached()
        },
    };
    assert(text@ == t);
    let out = collect_bindings(cells, text.as_str());
    let bindings = out.0;
    let new_inputs = out.1;
    let result = evaluate_formula(text.as_str(), &bindings);
    // store the outcome and the new input list
    let mut rec = match cells.remove(&x) {
        Option::Some(r) => r,
        Option::None => {
            proof {
                assert(false);
            }
            vstd::pervasive::unreached()
        },
    };
    let old_inputs: Vec<u64> = rec.inputs;
    let ni2: Vec<u64> = copy_keys(&new_inputs);
    rec.inputs = new_inputs;
    let err: Option<String>;
    match result {
        Result::Ok(v) => {
            rec.value = v;
            rec.error = Option::None;
            err = Option::None;
        },
        Result::Err(_e) => {
            rec.error = Option::Some(eval_error_string());
            err = Option::Some(eval_error_string());
        },
    }
    cells.insert(x, rec);
    let ghost m1 = cells@;
    proof {
        assert(old_inputs@ == m0[x].inputs@);
        assert(old_inputs@.to_set() == inputs_of(m0, x));
        assert(forall|a: u64| #[trigger] formula_of(m1, a) == formula_of(m0, a));
        assert(forall|a: u64| a != x ==> #[trigger] value_of(m1, a) == value_of(m0, a));
        assert(forall|a: u64| a != x ==> #[trigger] error_of(m1, a) == error_of(m0, a));
        assert(forall|a: u64| a != x ==> #[trigger] inputs_of(m1, a) == inputs_of(m0, a));
        assert(forall|b: u64| #[trigger] consumers_of(m1, b) == consumers_of(m0, b));
        assert(inputs_of(m1, x) == refs_of(t));
        assert(forall|k: u64| #[trigger]
            m1.dom().contains(k) ==> m1[k].inputs@.no_duplicates()
                && m1[k].consumers@.no_duplicates());
    }
    // the old inputs no longer feed x: drop x from their consumers
    let mut i: usize = 0;
    while i < old_inputs.len()
        invariant
            0 <= i <= old_inputs@.len(),
            old_inputs@.no_duplicates(),
            forall|k: u64| #[trigger]
                cells@.dom().contains(k) ==> cells@[k].inputs@.no_duplicates()
                    && cells@[k].consumers@.no_duplicates(),
            forall|k: u64| #[trigger] m1.dom().contains(k) ==> cells@.dom().contains(k),
            forall|a: u64| #[trigger] formula_of(cells@, a) == formula_of(m1, a),
            forall|a: u64| #[trigger] value_of(cells@, a) == value_of(m1, a),
            forall|a: u64| #[trigger] error_of(cells@, a) == error_of(m1, a),
            forall|a: u64| #[trigger] inputs_of(cells@, a) == inputs_of(m1, a),
            forall|b: u64| #[trigger] consumers_of(cells@, b) == (
            if old_inputs@.take(i as int).contains(b) {
                consumers_of(m1, b).remove(x)
            } else {
                consumers_of(m1, b)
            }),
        decreases old_inputs@.len() - i,
    {
        let d: u64 = old_inputs[i];
        proof {
            if old_inputs@.take(i as int).contains(d) {
                let jj = choose|jj: int|
                    0 <= jj < i && old_inputs@.take(i as int)[jj] == d;
                assert(old_inputs@[jj] == old_inputs@[i as int]);
                assert(false);
            }
            assert(inputs_of(m0, x).contains(d));
            assert(consumers_of(m0, d).contains(x));
            assert(consumers_of(cells@, d).contains(x));
            assert(cells@.dom().contains(d));
        }
        let ghost mpre = cells@;
        let mut drec = match cells.remove(&d) {
            Option::Some(r) => r,
            Option::None => {
                proof {
                    assert(false);
                }
                vstd::pervasive::unreached()
            },
        };
        drec.consumers = remove_key(&drec.consumers, x);
        cells.insert(d, drec);
        proof {
            broadcast use vstd::seq_lib::group_seq_properties;

            assert(old_inputs@.take(i as int + 1) =~= old_inputs@.take(i as int).push(
                old_inputs@[i as int],
            ));
            assert(forall|a: u64| #[trigger] formula_of(cells@, a) == formula_of(mpre, a));
            assert(forall|a: u64| #[trigger] value_of(cells@, a) == value_of(mpre, a));
            assert(forall|a: u64| #[trigger] error_of(cells@, a) == error_of(mpre, a));
            assert(forall|a: u64| #[trigger] inputs_of(cells@, a) == inputs_of(mpre, a));
            assert(consumers_of(cells@, d) == consumers_of(mpre, d).remove(x));
            assert forall|b: u64| #[trigger] consumers_of(cells@, b) == (
            if old_inputs@.take(i as int + 1).contains(b) {
                consumers_of(m1, b).remove(x)
            } else {
                consumers_of(m1, b)
            }) by {
                if b != d {
                    assert(consumers_of(cells@, b) == consumers_of(mpre, b));
                } else {
                    if old_inputs@.take(i as int).contains(d) {
                        assert(false);
                    }
                    assert(consumers_of(mpre, d) == consumers_of(m1, d));
                }
            }
        }
        i = i + 1;
    }
    let ghost m2 = cells@;
    proof {
        assert(old_inputs@.take(old_inputs@.len() as int) =~= old_inputs@);
        assert(forall|b: u64| #[trigger] consumers_of(m2, b) == (
        if old_inputs@.contains(b) {
            consumers_of(m1, b).remove(x)
        } else {
            consumers_of(m1, b)
        }));
    }
    // the new inputs feed x: add x to their consumers
    let mut j: usize = 0;
    while j < ni2.len()
        invariant
            0 <= j <= ni2@.len(),
            ni2@.no_duplicates(),
            forall|k: u64| #[trigger]
                cells@.dom().contains(k) ==> cells@[k].inputs@.no_duplicates()
                    && cells@[k].consumers@.no_duplicates(),
            forall|k: u64| #[trigger] m2.dom().contains(k) ==> cells@.dom().contains(k),
            forall|a: u64| #[trigger] formula_of(cells@, a) == formula_of(m2, a),
            forall|a: u64| #[trigger] value_of(cells@, a) == value_of(m2, a),
            forall|a: u64| #[trigger] error_of(cells@, a) == error_of(m2, a),
            forall|a: u64| #[trigger] inputs_of(cells@, a) == inputs_of(m2, a),
            forall|b: u64| #[trigger] consumers_of(cells@, b) == (
            if ni2@.take(j as int).contains(b) {
                consumers_of(m2, b).insert(x)
            } else {
                consumers_of(m2, b)
            }),
        decreases ni2@.len() - j,
    {
        let d: u64 = ni2[j];
        proof {
            if ni2@.take(j as int).contains(d) {
                let jj = choose|jj: int| 0 <= jj < j && ni2@.take(j as int)[jj] == d;
                assert(ni2@[jj] == ni2@[j as int]);
                assert(false);
            }
        }
        let ghost mpre = cells@;
        let mut drec = match cells.remove(&d) {
            Option::Some(r) => r,
            Option::None => new_record(),
        };
        let had: bool = vec_has_key(&drec.consumers, x);
        let ghost cons_old = drec.consumers@;
        if !had {
            drec.consumers.push(x);
        }
        cells.insert(d, drec);
        proof {
            broadcast use vstd::seq_lib::group_seq_properties;

            assert(ni2@.take(j as int + 1) =~= ni2@.take(j as int).push(ni2@[j as int]));
            if !had {
                lemma_push_nodup(cons_old, x);
                cons_old.lemma_push_to_set_commute(x);
            }
            assert(forall|a: u64| #[trigger] formula_of(cells@, a) == formula_of(mpre, a));
            assert(forall|a: u64| #[trigger] value_of(cells@, a) == value_of(mpre, a));
            assert(forall|a: u64| #[trigger] error_of(cells@, a) == error_of(mpre, a));
            assert(forall|a: u64| #[trigger] inputs_of(cells@, a) == inputs_of(mpre, a));
            assert(consumers_of(cells@, d) =~= consumers_of(mpre, d).insert(x));
            assert forall|b: u64| #[trigger] consumers_of(cells@, b) == (
            if ni2@.take(j as int + 1).contains(b) {
                consumers_of(m2, b).insert(x)
            } else {
                consumers_of(m2, b)
            }) by {
                if b != d {
                    assert(consumers_of(cells@, b) == consumers_of(mpre, b));
                } else {
                    assert(consumers_of(mpre, d) == consumers_of(m2, d));
                }
            }
        }
        j = j + 1;
    }
    let ghost m3 = cells@;
    proof {
        assert(ni2@.take(ni2@.len() as int) =~= ni2@);
        assert(ni2@.to_set() == refs_of(t));
        // the consumer sets now match the new input set of x
        assert forall|b: u64| #[trigger] consumers_of(m3, b) == (
        if refs_of(t).contains(b) {
            consumers_of(m0, b).insert(x)
        } else {
            consumers_of(m0, b).remove(x)
        }) by {
            if refs_of(t).contains(b) {
                assert(ni2@.contains(b));
                if old_inputs@.contains(b) {
                    assert(consumers_of(m2, b) == consumers_of(m0, b).remove(x));
                    assert(consumers_of(m3, b) =~= consumers_of(m0, b).insert(x));
                } else {
                    assert(consumers_of(m3, b) =~= consumers_of(m0, b).insert(x));
                }
            } else {
                assert(!ni2@.contains(b));
                assert(consumers_of(m3, b) == consumers_of(m2, b));
                if old_inputs@.contains(b) {
                    assert(consumers_of(m3, b) == consumers_of(m0, b).remove(x));
                } else {
                    assert(!inputs_of(m0, x).contains(b));
                    assert(!consumers_of(m0, b).contains(x));
                    assert(consumers_of(m3, b) =~= consumers_of(m0, b).remove(x));
                }
            }
        }
        // symmetry is restored
        assert forall|a: u64, b: u64| #![trigger inputs_of(m3, a).contains(b)]
            #![trigger consumers_of(m3, b).contains(a)]
            inputs_of(m3, a).contains(b) <==> consumers_of(m3, b).contains(a) by {
            if a == x {
                assert(inputs_of(m3, x) == refs_of(t));
            } else {
                assert(inputs_of(m3, a) == inputs_of(m0, a));
                assert(consumers_of(m3, b).contains(a) == consumers_of(m0, b).contains(a));
            }
        }
        assert(graph_wf(m3));
    }
    err
}

/// Whether every cell's input set is exactly what its formula reads.
pub open spec fn inputs_ok(cm: Map<u64, CellRecord>) -> bool {
    forall|a: u64| #![trigger formula_of(cm, a)]
        match formula_of(cm, a) {
            Option::Some(f) => inputs_of(cm, a) == refs_of(f),
            Option::None => true,
        }
}

/// A non-empty chain of consumer edges leading from `x` to `c`.
pub open spec fn consumer_chain(cm: Map<u64, CellRecord>, x: u64, c: u64, p: Seq<u64>) -> bool {
    &&& p.len() >= 1
    &&& consumers_of(cm, x).contains(p[0])
    &&& forall|i: int| 0 <= i < p.len() - 1 ==> consumers_of(cm, #[trigger] p[i]).contains(p[i + 1])
    &&& p.last() == c
}

/// `c` is a transitive consumer of `x`: a change at `x` can cascade to `c`.
pub open spec fn reaches(cm: Map<u64, CellRecord>, x: u64, c: u64) -> bool {
    exists|p: Seq<u64>| consumer_chain(cm, x, c, p)
}

/// Pushing a fresh element onto a duplicate-free list keeps it
/// duplicate-free.
proof fn lemma_push_nodup(s: Seq<u64>, e: u64)
    requires
        s.no_duplicates(),
        !s.contains(e),
    ensures
        s.push(e).no_duplicates(),
{
    assert forall|p: int, q: int|
        0 <= p < s.push(e).len() && 0 <= q < s.push(e).len() && p != q implies s.push(e)[p]
        != s.push(e)[q] by {
        if q == s.len() && p < s.len() {
            if s.push(e)[p] == e {
                assert(s[p] == e);
                assert(s.contains(e));
            }
        } else if p == s.len() && q < s.len() {
            if s.push(e)[q] == e {
                assert(s[q] == e);
                assert(s.contains(e));
            }
        }
    }
}

/// A cell with a consumer reads something, so it has a formula.
proof fn lemma_consumer_has_formula(cm: Map<u64, CellRecord>, b: u64, z: u64)
    requires
        graph_wf(cm),
        consumers_of(cm, b).contains(z),
    ensures
        formula_of(cm, z) is Some,
        cm.dom().contains(z),
{
    assert(inputs_of(cm, z).contains(b));
    if formula_of(cm, z) is None {
        assert(inputs_of(cm, z) === Set::empty());
        assert(false);
    }
    if !cm.dom().contains(z) {
        assert(inputs_of(cm, z) =~= Set::empty());
        assert(false);
    }
}

/// The consumers of `y`, as a list without duplicates.
fn consumers_snapshot(cells: &HashMap<u64, CellRecord>, y: u64) -> (r: Vec<u64>)
    requires
        graph_wf(cells@),
    ensures
        r@.to_set() == consumers_of(cells@, y),
        r@.no_duplicates(),
{
    match cells.get(&y) {
        Option::Some(rec) => copy_keys(&rec.consumers),
        Option::None => {
            let r: Vec<u64> = Vec::new();
            proof {
                assert(r@.to_set() =~= consumers_of(cells@, y));
            }
            r
        },
    }
}

/// Collects a set of cells containing every consumer of `x` and closed
/// under taking consumers: everything the cascade from `x` can reach.
#[verifier::loop_isolation(false)]
fn closure_of(cells: &HashMap<u64, CellRecord>, x: u64) -> (c: Vec<u64>)
    requires
        graph_wf(cells@),
    ensures
        c@.no_duplicates(),
        forall|y: u64| consumers_of(cells@, x).contains(y) ==> c@.contains(y),
        forall|y: u64, z: u64|
            c@.contains(y) && consumers_of(cells@, y).contains(z) ==> c@.contains(z),
        forall|y: u64| #[trigger] c@.contains(y) ==> formula_of(cells@, y) is Some,
        forall|y: u64| #[trigger] c@.contains(y) ==> reaches(cells@, x, y),
{
    let mut seen: Vec<u64> = Vec::new();
    let mut work: Vec<u64> = consumers_snapshot(cells, x);
    proof {
        assert(cells@.dom().finite());
        assert forall|y: u64| #[trigger] work@.contains(y) implies formula_of(cells@, y) is Some
            && reaches(cells@, x, y) by {
            assert(consumers_of(cells@, x).contains(y));
            lemma_consumer_has_formula(cells@, x, y);
            let p = seq![y];
            assert(p.last() == y);
            assert(consumer_chain(cells@, x, y, p));
        }
    }
    while work.len() > 0
        invariant
            seen@.no_duplicates(),
            forall|y: u64| #[trigger] seen@.contains(y) ==> formula_of(cells@, y) is Some,
            forall|y: u64| #[trigger] seen@.contains(y) ==> cells@.dom().contains(y),
            forall|y: u64| #[trigger] work@.contains(y) ==> formula_of(cells@, y) is Some,
            forall|y: u64| #[trigger] seen@.contains(y) ==> reaches(cells@, x, y),
            forall|y: u64| #[trigger] work@.contains(y) ==> reaches(cells@, x, y),
            forall|y: u64|
                consumers_of(cells@, x).contains(y) ==> seen@.contains(y) || work@.contains(y),
            forall|y: u64, z: u64|
                seen@.contains(y) && consumers_of(cells@, y).contains(z) ==> seen@.contains(z)
                    || work@.contains(z),
        decreases cells@.dom().len() - seen@.len(), work@.len(),
    {
        proof {
            seen@.unique_seq_to_set();
            vstd::set_lib::lemma_len_subset(seen@.to_set(), cells@.dom());
            assert(seen@.to_set().len() <= cells@.dom().len());
        }
        let ghost wold = work@;
        let y: u64 = match work.pop() {
            Option::Some(y) => y,
            Option::None => {
                proof {
                    assert(false);
                }
                vstd::pervasive::unreached()
            },
        };
        proof {
            assert(wold == work@.push(y));
            assert(wold[wold.len() - 1] == y);
            assert(wold.contains(y));
            assert(formula_of(cells@, y) is Some);
            assert(reaches(cells@, x, y));
            assert(forall|z: u64| #[trigger] wold.contains(z) ==> work@.contains(z) || z == y);
        }
        if !vec_has_key(&seen, y) {
            let ghost sold = seen@;
            seen.push(y);
            let mut cons = consumers_snapshot(cells, y);
            let ghost cvw = cons@;
            work.append(&mut cons);
            proof {
                broadcast use vstd::seq_lib::group_seq_properties;

                assert(seen@ == sold.push(y));
                lemma_push_nodup(sold, y);
                assert(seen@.no_duplicates());
                assert(formula_of(cells@, y) is Some);
                if formula_of(cells@, y) is Some && !cells@.dom().contains(y) {
                    assert(false);
                }
                assert(cells@.dom().contains(y));
                assert forall|z: u64| #[trigger] work@.contains(z) implies formula_of(cells@, z)
                    is Some && reaches(cells@, x, z) by {
                    let idx = choose|idx: int| 0 <= idx < work@.len() && work@[idx] == z;
                    if idx < wold.len() - 1 {
                        assert(wold[idx] == z);
                        assert(wold.contains(z));
                    } else {
                        assert(cvw[idx - (wold.len() - 1)] == z);
                        assert(cvw.to_set().contains(z));
                        lemma_consumer_has_formula(cells@, y, z);
                        assert(consumers_of(cells@, y).contains(z));
                        let p = choose|p: Seq<u64>| consumer_chain(cells@, x, y, p);
                        let p2 = p.push(z);
                        assert(p2[0] == p[0]);
                        assert(p2.last() == z);
                        assert forall|i: int| 0 <= i < p2.len() - 1 implies consumers_of(
                            cells@,
                            #[trigger] p2[i],
                        ).contains(p2[i + 1]) by {
                            if i < p.len() - 1 {
                                assert(p2[i] == p[i]);
                                assert(p2[i + 1] == p[i + 1]);
                            } else {
                                assert(p2[i] == p.last());
                            }
                        }
                        assert(consumer_chain(cells@, x, z, p2));
                    }
                }
                assert forall|a: u64, z: u64|
                    seen@.contains(a) && consumers_of(cells@, a).contains(z) implies seen@.contains(
                    z,
                ) || work@.contains(z) by {
                    if a == y {
                        assert(cvw.to_set().contains(z));
                        let idx = choose|idx: int| 0 <= idx < cvw.len() && cvw[idx] == z;
                        assert(work@[wold.len() - 1 + idx] == z);
                        assert(work@.contains(z));
                    } else {
                        assert(sold.contains(a));
                        if wold.contains(z) {
                            let idx = choose|idx: int| 0 <= idx < wold.len() && wold[idx] == z;
                            if idx < wold.len() - 1 {
                                assert(work@[idx] == z);
                                assert(work@.contains(z));
                            } else {
                                assert(z == y);
                            }
                        }
                    }
                }
                assert forall|z: u64| #[trigger] seen@.contains(z) implies cells@.dom().contains(
                    z,
                ) by {
                    if sold.contains(z) {
                    } else {
                        assert(z == y);
                    }
                }
                seen@.unique_seq_to_set();
                vstd::set_lib::lemma_len_subset(seen@.to_set(), cells@.dom());
                assert(seen@.len() <= cells@.dom().len());
            }
        } else {
            proof {
                assert forall|z: u64| #[trigger] work@.contains(z) implies formula_of(
                    cells@,
                    z,
                ) is Some && reaches(cells@, x, z) by {
                    let idx = choose|idx: int| 0 <= idx < work@.len() && work@[idx] == z;
                    assert(wold[idx] == z);
                    assert(wold.contains(z));
                }
                assert forall|a: u64, z: u64|
                    seen@.contains(a) && consumers_of(cells@, a).contains(z) implies seen@.contains(
                    z,
                ) || work@.contains(z) by {
                    if wold.contains(z) {
                        assert(work@.contains(z) || z == y);
                        if z == y {
                            assert(seen@.contains(y));
                        }
                    }
                }
            }
        }
    }
    seen
}

/// Whether every input of `y` lying inside `c` has already been placed.
fn inputs_placed(
    cells: &HashMap<u64, CellRecord>,
    y: u64,
    c: &Vec<u64>,
    placed: &Vec<u64>,
) -> (r: bool)
    ensures
        r == forall|b: u64|
            inputs_of(cells@, y).contains(b) && c@.contains(b) ==> #[trigger] placed@.contains(b),
{
    match cells.get(&y) {
        Option::Some(rec) => {
            let mut i: usize = 0;
            while i < rec.inputs.len()
                invariant
                    0 <= i <= rec.inputs@.len(),
                    rec == cells@[y],
                    cells@.dom().contains(y),
                    forall|j: int|
                        0 <= j < i && c@.contains(#[trigger] rec.inputs@[j]) ==> placed@.contains(
                            rec.inputs@[j],
                        ),
                decreases rec.inputs@.len() - i,
            {
                let b: u64 = rec.inputs[i];
                if vec_has_key(c, b) && !vec_has_key(placed, b) {
                    proof {
                        assert(inputs_of(cells@, y).contains(b));
                    }
                    return false;
                }
                i = i + 1;
            }
            proof {
                assert forall|b: u64|
                    inputs_of(cells@, y).contains(b) && c@.contains(b) implies placed@.contains(
                    b,
                ) by {
                    let j = choose|j: int|
                        0 <= j < rec.inputs@.len() && rec.inputs@[j] == b;
                }
            }
            true
        },
        Option::None => {
            proof {
                assert(inputs_of(cells@, y) =~= Set::empty());
            }
            true
        },
    }
}

/// Orders the cells of `c` so that each one comes after every input it
/// reads within `c`.  `None` when no such order exists: the formulas are
/// circular.
#[verifier::loop_isolation(false)]
#[verifier::rlimit(60)]
fn topo_order(cells: &HashMap<u64, CellRecord>, c: &Vec<u64>) -> (r: Option<Vec<u64>>)
    requires
        graph_wf(cells@),
        c@.no_duplicates(),
    ensures
        r is None ==> exists|y: u64| c@.contains(y) && reaches(cells@, y, y),
        r matches Option::Some(order) ==> {
            &&& order@.no_duplicates()
            &&& order@.to_set() == c@.to_set()
            &&& forall|i: int, b: u64|
                0 <= i < order@.len() && inputs_of(cells@, #[trigger] order@[i]).contains(b)
                    && c@.contains(b) ==> #[trigger] order@.take(i).contains(b)
        },
{
    let mut placed: Vec<u64> = Vec::new();
    while placed.len() < c.len()
        invariant
            placed@.no_duplicates(),
            placed@.len() <= c@.len(),
            forall|y: u64| #[trigger] placed@.contains(y) ==> c@.contains(y),
            forall|i: int, b: u64|
                0 <= i < placed@.len() && inputs_of(cells@, #[trigger] placed@[i]).contains(b)
                    && c@.contains(b) ==> #[trigger] placed@.take(i).contains(b),
        decreases c@.len() - placed@.len(),
    {
        let mut idx: usize = 0;
        let mut found: bool = false;
        let mut pick: usize = 0;
        while idx < c.len()
            invariant
                0 <= idx <= c@.len(),
                found ==> pick < c@.len(),
                found ==> !placed@.contains(c@[pick as int]),
                found ==> forall|b: u64|
                    inputs_of(cells@, c@[pick as int]).contains(b) && c@.contains(b)
                        ==> #[trigger] placed@.contains(b),
                !found ==> forall|j: int|
                    0 <= j < idx ==> placed@.contains(#[trigger] c@[j]) || exists|b: u64|
                        #[trigger] inputs_of(cells@, c@[j]).contains(b) && c@.contains(b)
                            && !placed@.contains(b),
            decreases c@.len() - idx,
        {
            if !found {
                let y: u64 = c[idx];
                if !vec_has_key(&placed, y) {
                    if inputs_placed(cells, y, c, &placed) {
                        found = true;
                        pick = idx;
                    }
                }
            }
            idx = idx + 1;
        }
        if !found {
            proof {
                // every unplaced cell still reads an unplaced cell: follow
                // those edges long enough and some cell must repeat
                assert forall|y: u64| #[trigger] c@.contains(y) && !placed@.contains(y) implies
                    exists|b: u64|
                        inputs_of(cells@, y).contains(b) && c@.contains(b) && !placed@.contains(
                            b,
                        ) by {
                    let jj = choose|jj: int| 0 <= jj < c@.len() && c@[jj] == y;
                    assert(placed@.contains(c@[jj]) || exists|b: u64|
                        #[trigger] inputs_of(cells@, c@[jj]).contains(b) && c@.contains(b)
                            && !placed@.contains(b));
                }
                assert(exists|y0: u64| c@.contains(y0) && !placed@.contains(y0)) by {
                    if forall|y0: u64| #[trigger] c@.contains(y0) ==> placed@.contains(y0) {
                        placed@.unique_seq_to_set();
                        c@.unique_seq_to_set();
                        assert forall|y0: u64| c@.to_set().contains(y0)
                            implies placed@.to_set().contains(y0) by {}
                        vstd::set_lib::lemma_len_subset(c@.to_set(), placed@.to_set());
                        assert(false);
                    }
                }
                let y0 = choose|y0: u64| c@.contains(y0) && !placed@.contains(y0);
                let p = build_input_chain(cells@, c@, placed@, y0, c@.len());
                lemma_chain_yields_cycle(cells@, c@, p);
            }
            return Option::None;
        }
        let y: u64 = c[pick];
        let ghost pold = placed@;
        placed.push(y);
        proof {
            broadcast use vstd::seq_lib::group_seq_properties;

            lemma_push_nodup(pold, y);
            assert(placed@.no_duplicates());
            assert forall|i: int, b: u64|
                0 <= i < placed@.len() && inputs_of(cells@, #[trigger] placed@[i]).contains(b)
                    && c@.contains(b) implies #[trigger] placed@.take(i).contains(b) by {
                if i < pold.len() {
                    assert(placed@[i] == pold[i]);
                    assert(pold.take(i).contains(b));
                    assert(placed@.take(i) =~= pold.take(i));
                } else {
                    assert(placed@[i] == y);
                    assert(pold.contains(b));
                    assert(placed@.take(i) =~= pold);
                }
            }
        }
    }
    // every member of c was placed: the two lists have equal length, no
    // duplicates, and placed only holds members of c
    proof {
        placed@.unique_seq_to_set();
        c@.unique_seq_to_set();
        assert forall|y: u64| placed@.to_set().contains(y) implies c@.to_set().contains(y) by {}
        vstd::set_lib::lemma_subset_equality(placed@.to_set(), c@.to_set());
    }
    proof {
        assert forall|y: u64| c@.to_set().contains(y) implies placed@.to_set().contains(y) by {
            let j = choose|j: int| 0 <= j < c@.len() && c@[j] == y;
        }
        assert(placed@.to_set() =~= c@.to_set());
    }
    Option::Some(placed)
}

/// Marks every cell of `c` with the cycle error.
#[verifier::loop_isolation(false)]
fn mark_cycle(cells: &mut HashMap<u64, CellRecord>, c: &Vec<u64>)
    requires
        graph_wf(old(cells)@),
        c@.no_duplicates(),
        forall|y: u64| #[trigger] c@.contains(y) ==> formula_of(old(cells)@, y) is Some,
    ensures
        graph_wf(final(cells)@),
        forall|a: u64| #[trigger] formula_of(final(cells)@, a) == formula_of(old(cells)@, a),
        forall|a: u64| #[trigger] value_of(final(cells)@, a) == value_of(old(cells)@, a),
        forall|a: u64| #[trigger] inputs_of(final(cells)@, a) == inputs_of(old(cells)@, a),
        forall|a: u64| #[trigger] consumers_of(final(cells)@, a) == consumers_of(old(cells)@, a),
        forall|a: u64|
            c@.contains(a) ==> #[trigger] error_of(final(cells)@, a) == Option::Some(
                cycle_error_text(),
            ),
        forall|a: u64|
            !c@.contains(a) ==> #[trigger] error_of(final(cells)@, a) == error_of(old(cells)@, a),
{
    let ghost m0 = cells@;
    let mut i: usize = 0;
    while i < c.len()
        invariant
            0 <= i <= c@.len(),
            forall|k: u64| #[trigger]
                cells@.dom().contains(k) ==> cells@[k].inputs@.no_duplicates()
                    && cells@[k].consumers@.no_duplicates(),
            forall|a: u64| #[trigger] formula_of(cells@, a) == formula_of(m0, a),
            forall|a: u64| #[trigger] value_of(cells@, a) == value_of(m0, a),
            forall|a: u64| #[trigger] inputs_of(cells@, a) == inputs_of(m0, a),
            forall|a: u64| #[trigger] consumers_of(cells@, a) == consumers_of(m0, a),
            forall|a: u64|
                c@.take(i as int).contains(a) ==> #[trigger] error_of(cells@, a) == Option::Some(
                    cycle_error_text(),
                ),
            forall|a: u64|
                !c@.take(i as int).contains(a) ==> #[trigger] error_of(cells@, a) == error_of(
                    m0,
                    a,
                ),
        decreases c@.len() - i,
    {
        let y: u64 = c[i];
        proof {
            assert(c@.contains(y));
            assert(formula_of(cells@, y) is Some);
        }
        let ghost mpre = cells@;
        let mut rec = match cells.remove(&y) {
            Option::Some(r) => r,
            Option::None => {
                proof {
                    assert(false);
                }
                vstd::pervasive::unreached()
            },
        };
        rec.error = Option::Some(cycle_error_string());
        cells.insert(y, rec);
        proof {
            broadcast use vstd::seq_lib::group_seq_properties;

            assert(c@.take(i as int + 1) =~= c@.take(i as int).push(c@[i as int]));
            assert(forall|a: u64| #[trigger] formula_of(cells@, a) == formula_of(mpre, a));
            assert(forall|a: u64| #[trigger] value_of(cells@, a) == value_of(mpre, a));
            assert(forall|a: u64| #[trigger] inputs_of(cells@, a) == inputs_of(mpre, a));
            assert(forall|a: u64| #[trigger] consumers_of(cells@, a) == consumers_of(mpre, a));
            assert(error_of(cells@, y) == Option::Some(cycle_error_text()));
            assert(forall|a: u64|
                a != y ==> #[trigger] error_of(cells@, a) == error_of(mpre, a));
            assert(c@.take(i as int + 1)[i as int] == y);
            assert forall|a: u64| c@.take(i as int + 1).contains(a) implies #[trigger] error_of(
                cells@,
                a,
            ) == Option::Some(cycle_error_text()) by {
                if a != y {
                    let idx = choose|idx: int|
                        0 <= idx < c@.take(i as int + 1).len() && #[trigger] c@.take(
                            i as int + 1,
                        )[idx] == a;
                    assert(c@.take(i as int)[idx] == a);
                    assert(c@.take(i as int).contains(a));
                }
            }
            assert forall|a: u64| !c@.take(i as int + 1).contains(a) implies #[trigger] error_of(
                cells@,
                a,
            ) == error_of(m0, a) by {
                assert(a != y);
                if c@.take(i as int).contains(a) {
                    let idx = choose|idx: int|
                        0 <= idx < c@.take(i as int).len() && c@.take(i as int)[idx] == a;
                    assert(c@.take(i as int + 1)[idx] == a);
                    assert(false);
                }
            }
        }
        i = i + 1;
    }
    proof {
        assert(c@.take(c@.len() as int) =~= c@);
        assert forall|a: u64, b: u64| #![trigger inputs_of(cells@, a).contains(b)]
            #![trigger consumers_of(cells@, b).contains(a)]
            inputs_of(cells@, a).contains(b) <==> consumers_of(cells@, b).contains(a) by {
            assert(inputs_of(cells@, a) == inputs_of(m0, a));
            assert(consumers_of(cells@, b) == consumers_of(m0, b));
        }
        assert(graph_wf(cells@));
    }
}

/// A store with no cells.
pub open spec fn empty_sheet() -> Map<u64, CellRecord> {
    Map::empty()
}

/// What one `set` call reports back.
#[derive(Debug)]
pub enum SetOutcome {
    /// The cell evaluated and every consumer settled.
    Applied,
    /// The cell's own evaluation failed; the message is recorded in its
    /// error state.
    EvalFailed(String),
    /// The affected cells admit no evaluation order: their formulas are
    /// circular, and all of them were marked with the cycle error.
    CycleDetected(String),
}

/// The reactive engine: one object owning the cell store and the
/// dependency graph, constructed once and shared by all connections.
pub struct Engine {
    cells: HashMap<u64, CellRecord>,
}

impl View for Engine {
    type V = Map<u64, CellRecord>;

    closed spec fn view(&self) -> Map<u64, CellRecord> {
        self.cells@
    }
}

impl Engine {
    #[verifier::type_invariant]
    spec fn inv(self) -> bool {
        &&& graph_wf(self@)
        &&& inputs_ok(self@)
        &&& forall|c: u64| #[trigger] cell_ok(self@, c)
    }

    /// A fresh engine with no cells set.
    pub fn new() -> (e: Engine)
        ensures
            e@ == empty_sheet(),
    {
        let cells: HashMap<u64, CellRecord> = HashMap::new();
        proof {
            assert(forall|a: u64| inputs_of(cells@, a) =~= Set::<u64>::empty());
            assert(forall|a: u64| consumers_of(cells@, a) =~= Set::<u64>::empty());
            assert(graph_wf(cells@));
            assert(forall|c: u64| #[trigger] settled(cells@, c));
        }
        Engine { cells }
    }

    /// Reads cell (`col`, `row`): the recorded error message when the most
    /// recent evaluation of the cell failed or it sits in a formula cycle,
    /// its stored value otherwise.  A cell never set reads as the empty
    /// value.  Reading never changes the engine.
    pub fn get(&self, col: u32, row: u32) -> (r: GetResult)
        ensures
            (match r {
                GetResult::Value(v) => error_of(self@, key_of(col, row)) is None && v@ == value_of(
                    self@,
                    key_of(col, row),
                ),
                GetResult::Error(m) => error_of(self@, key_of(col, row)) == Option::Some(m@),
            }),
    {
        let k: u64 = cell_key(col, row);
        match self.cells.get(&k) {
            Option::Some(rec) => match &rec.error {
                Option::Some(m) => GetResult::Error(m.clone()),
                Option::None => GetResult::Value(rec.value.clone()),
            },
            Option::None => GetResult::Value(Value::Empty),
        }
    }

    /// Assigns `text` as the formula of cell (`col`, `row`): stores the
    /// text, binds the formula's variables, evaluates it, stores the value
    /// or the error, rewires the graph edges, and re-evaluates every
    /// transitive consumer, each one after the inputs it reads.  When the
    /// affected cells admit no such order their formulas are circular and
    /// every cell of the affected closure is marked with the cycle error
    /// instead.
    #[verifier::loop_isolation(false)]
    #[verifier::rlimit(100)]
    pub fn set(&mut self, col: u32, row: u32, text: String) -> (r: SetOutcome)
        ensures
            formula_of(final(self)@, key_of(col, row)) == Option::Some(text@),
            forall|a: u64|
                a != key_of(col, row) ==> #[trigger] formula_of(final(self)@, a) == formula_of(
                    old(self)@,
                    a,
                ),
            inputs_of(final(self)@, key_of(col, row)) == refs_of(text@),
            forall|a: u64|
                a != key_of(col, row) ==> #[trigger] inputs_of(final(self)@, a) == inputs_of(
                    old(self)@,
                    a,
                ),
            forall|b: u64| #[trigger] consumers_of(final(self)@, b) == (
            if refs_of(text@).contains(b) {
                consumers_of(old(self)@, b).insert(key_of(col, row))
            } else {
                consumers_of(old(self)@, b).remove(key_of(col, row))
            }),
            forall|c: u64|
                c != key_of(col, row) && !reaches(final(self)@, key_of(col, row), c)
                    ==> #[trigger] value_of(final(self)@, c) == value_of(old(self)@, c)
                    && error_of(final(self)@, c) == error_of(old(self)@, c),
            forall|c: u64| #[trigger] cell_ok(final(self)@, c),
            !(r is CycleDetected) ==> forall|c: u64| #[trigger]
                settled(final(self)@, c) || (error_of(final(self)@, c) == Option::Some(
                    cycle_error_text(),
                ) && error_of(old(self)@, c) == Option::Some(cycle_error_text()) && !reaches(
                    final(self)@,
                    key_of(col, row),
                    c,
                )),
            !(r is CycleDetected) ==> ((r is EvalFailed) <==> bindings_have_error(
                bindings_of(old(self)@, text@),
            )),
            !(r is CycleDetected) ==> ({
                let k = key_of(col, row);
                if bindings_have_error(bindings_of(old(self)@, text@)) {
                    error_of(final(self)@, k) == Option::Some(eval_error_text()) && value_of(
                        final(self)@,
                        k,
                    ) == value_of(old(self)@, k)
                } else {
                    error_of(final(self)@, k) is None && eval_possible(
                        text@,
                        bindings_of(old(self)@, text@),
                        Ok::<ValSpec, EvalError>(value_of(final(self)@, k)),
                    )
                }
            }),
            r matches SetOutcome::EvalFailed(m) ==> m@ == eval_error_text(),
            r matches SetOutcome::CycleDetected(m) ==> m@ == cycle_error_text(),
            r is CycleDetected ==> forall|c: u64| #![trigger settled(final(self)@, c)]
                settled(final(self)@, c) || (error_of(final(self)@, c) == Option::Some(
                    cycle_error_text(),
                ) && (reaches(final(self)@, key_of(col, row), c) || error_of(old(self)@, c)
                    == Option::Some(cycle_error_text()))),
            r is CycleDetected ==> exists|y: u64|
                reaches(final(self)@, key_of(col, row), y) && #[trigger] reaches(
                    final(self)@,
                    y,
                    y,
                ),
    {
        proof {
            use_type_invariant(&*self);
        }
        let ghost m0 = self@;
        let x: u64 = cell_key(col, row);
        let ghost t0 = text@;
        let mut cells: HashMap<u64, CellRecord> = HashMap::new();
        proof {
            assert(forall|a: u64| inputs_of(cells@, a) =~= Set::<u64>::empty());
            assert(forall|a: u64| consumers_of(cells@, a) =~= Set::<u64>::empty());
            assert(graph_wf(cells@));
            assert(forall|c: u64| #[trigger] settled(cells@, c));
        }
        std::mem::swap(&mut self.cells, &mut cells);
        // store the formula
        let mut rec = match cells.remove(&x) {
            Option::Some(r) => r,
            Option::None => new_record(),
        };
        rec.formula = Option::Some(text);
        cells.insert(x, rec);
        let ghost m1 = cells@;
        proof {
            assert(forall|a: u64|
                a != x ==> #[trigger] formula_of(m1, a) == formula_of(m0, a));
            assert(formula_of(m1, x) == Option::Some(t0));
            assert(forall|a: u64| #[trigger] value_of(m1, a) == value_of(m0, a));
            assert(forall|a: u64| #[trigger] error_of(m1, a) == error_of(m0, a));
            assert(forall|a: u64| #[trigger] inputs_of(m1, a) == inputs_of(m0, a));
            assert(forall|b: u64| #[trigger] consumers_of(m1, b) == consumers_of(m0, b));
            assert(forall|k: u64| #[trigger]
                m1.dom().contains(k) ==> m1[k].inputs@.no_duplicates()
                    && m1[k].consumers@.no_duplicates());
            assert forall|a: u64, b: u64| #![trigger inputs_of(m1, a).contains(b)]
                #![trigger consumers_of(m1, b).contains(a)]
                inputs_of(m1, a).contains(b) <==> consumers_of(m1, b).contains(a) by {
                assert(inputs_of(m1, a) == inputs_of(m0, a));
                assert(consumers_of(m1, b) == consumers_of(m0, b));
            }
            assert forall|a: u64| #[trigger] formula_of(m1, a) is None implies value_of(m1, a)
                is Empty && error_of(m1, a) is None && inputs_of(m1, a) === Set::empty() by {
                assert(a != x);
                assert(formula_of(m0, a) is None);
            }
            assert(graph_wf(m1));
            crate::range::lemma_bindings_frame(m0, m1, t0);
        }
        let err0: Option<String> = eval_cell(&mut cells, x);
        let ghost m2 = cells@;
        proof {
            assert(formula_of(m1, x).unwrap() == t0);
            // the input lists still match the formulas everywhere
            assert forall|a: u64| #![trigger formula_of(m2, a)]
                match formula_of(m2, a) {
                    Option::Some(f) => inputs_of(m2, a) == refs_of(f),
                    Option::None => true,
                } by {
                if a != x {
                    assert(formula_of(m2, a) == formula_of(m0, a));
                    assert(inputs_of(m2, a) == inputs_of(m0, a));
                }
            }
            assert(inputs_ok(m2));
        }
        let cvec: Vec<u64> = closure_of(&cells, x);
        let ghost cset = cvec@.to_set();
        proof {
            // every cell is settled, keeps an old cycle mark, or lies in
            // the closure that the cascade will re-evaluate
            assert forall|c: u64| #![trigger settled(m2, c)]
                settled(m2, c) || (error_of(m2, c) == Option::Some(cycle_error_text())
                    && error_of(m0, c) == Option::Some(cycle_error_text())) || cset.contains(
                c,
            ) by {
                if c == x {
                    if refs_of(t0).contains(x) {
                        assert(consumers_of(m2, x).contains(x));
                        assert(cvec@.contains(x));
                        assert(cset.contains(x));
                    } else {
                        assert forall|k: u64| refs_of(t0).contains(k) implies value_of(
                            m1,
                            k,
                        ) == value_of(m2, k) by {
                            assert(k != x);
                        }
                        crate::range::lemma_bindings_frame(m1, m2, t0);
                        assert(settled(m2, x));
                    }
                } else {
                    assert(cell_ok(m0, c));
                    if settled(m0, c) {
                        lemma_settled_frame(m0, m1, c);
                        assert(settled(m1, c));
                        match formula_of(m1, c) {
                            Option::Some(fc) => {
                                if refs_of(fc).contains(x) {
                                    assert(inputs_of(m1, c) == refs_of(fc));
                                    assert(inputs_of(m2, c).contains(x));
                                    assert(consumers_of(m2, x).contains(c));
                                    assert(cvec@.contains(c));
                                    assert(cset.contains(c));
                                } else {
                                    assert forall|k: u64| refs_of(fc).contains(k) implies
                                        value_of(m1, k) == value_of(m2, k) by {
                                        assert(k != x);
                                    }
                                    lemma_settled_frame(m1, m2, c);
                                    assert(settled(m2, c));
                                }
                            },
                            Option::None => {
                                assert(settled(m2, c));
                            },
                        }
                    } else {
                        assert(error_of(m0, c) == Option::Some(cycle_error_text()));
                        assert(error_of(m2, c) == error_of(m0, c));
                    }
                }
            }
        }
        match topo_order(&cells, &cvec) {
            Option::Some(order) => {
                proof {
                    assert(order@.skip(0) =~= order@);
                    assert forall|c: u64| #![trigger settled(m2, c)]
                        settled(m2, c) || (error_of(m2, c) == Option::Some(cycle_error_text())
                            && error_of(m0, c) == Option::Some(cycle_error_text())
                            && !cset.contains(c)) || order@.skip(0).contains(c) by {
                        if cset.contains(c) {
                            assert(order@.to_set().contains(c));
                        }
                    }
                    // the cell just assigned lies on no cycle, or no order
                    // could have been built
                    if cvec@.contains(x) {
                        assert(reaches(m2, x, x));
                        let p = choose|p: Seq<u64>| consumer_chain(m2, x, x, p);
                        lemma_order_excludes_cycle(m2, cvec@, order@, x, p, p.len() - 1);
                        assert(false);
                    }
                    assert(!cset.contains(x));
                }
                let mut idx: usize = 0;
                while idx < order.len()
                    invariant
                        0 <= idx <= order@.len(),
                        graph_wf(cells@),
                        inputs_ok(cells@),
                        forall|a: u64| #[trigger] formula_of(cells@, a) == formula_of(m2, a),
                        forall|b: u64| #[trigger]
                            consumers_of(cells@, b) == consumers_of(m2, b),
                        forall|a: u64| #[trigger] inputs_of(cells@, a) == inputs_of(m2, a),
                        forall|a: u64|
                            !cset.contains(a) ==> #[trigger] value_of(cells@, a) == value_of(
                                m2,
                                a,
                            ) && error_of(cells@, a) == error_of(m2, a),
                        forall|c: u64| #![trigger settled(cells@, c)]
                            settled(cells@, c) || (error_of(cells@, c) == Option::Some(
                                cycle_error_text(),
                            ) && error_of(m0, c) == Option::Some(cycle_error_text())
                                && !cset.contains(c)) || order@.skip(idx as int).contains(c),
                    decreases order@.len() - idx,
                {
                    let y: u64 = order[idx];
                    proof {
                        assert(order@.contains(y));
                        assert(cset.contains(y));
                        assert(cvec@.contains(y));
                        assert(formula_of(m2, y) is Some);
                        assert(formula_of(cells@, y) is Some);
                    }
                    let ghost mpre = cells@;
                    let _ = eval_cell(&mut cells, y);
                    proof {
                        let ty = formula_of(mpre, y).unwrap();
                        assert(refs_of(ty) == inputs_of(mpre, y));
                        // rewiring identical edges leaves the graph unchanged
                        assert forall|b: u64| #[trigger]
                            consumers_of(cells@, b) == consumers_of(mpre, b) by {
                            if refs_of(ty).contains(b) {
                                assert(inputs_of(mpre, y).contains(b));
                                assert(consumers_of(mpre, b).contains(y));
                                assert(consumers_of(cells@, b) =~= consumers_of(mpre, b));
                            } else {
                                assert(!inputs_of(mpre, y).contains(b));
                                assert(!consumers_of(mpre, b).contains(y));
                                assert(consumers_of(cells@, b) =~= consumers_of(mpre, b));
                            }
                        }
                        assert(forall|a: u64| #[trigger]
                            inputs_of(cells@, a) == inputs_of(mpre, a));
                        assert forall|a: u64| #![trigger formula_of(cells@, a)]
                            match formula_of(cells@, a) {
                                Option::Some(f) => inputs_of(cells@, a) == refs_of(f),
                                Option::None => true,
                            } by {
                            assert(formula_of(cells@, a) == formula_of(mpre, a));
                            assert(inputs_of(cells@, a) == inputs_of(mpre, a));
                        }
                        assert(inputs_ok(cells@));
                        // no cell consumes itself along the order
                        if refs_of(ty).contains(y) {
                            assert(inputs_of(m2, order@[idx as int]).contains(y));
                            assert(order@.take(idx as int).contains(y));
                            let k = choose|k: int|
                                0 <= k < idx && order@.take(idx as int)[k] == y;
                            assert(order@[k] == y);
                            assert(false);
                        }
                        // coverage is preserved
                        assert forall|c: u64| #![trigger settled(cells@, c)]
                            settled(cells@, c) || (error_of(cells@, c) == Option::Some(
                                cycle_error_text(),
                            ) && error_of(m0, c) == Option::Some(cycle_error_text())
                                && !cset.contains(c)) || order@.skip(idx as int + 1).contains(
                                c,
                            ) by {
                            if c == y {
                                assert forall|k: u64| refs_of(ty).contains(k) implies
                                    value_of(mpre, k) == value_of(cells@, k) by {
                                    assert(k != y);
                                }
                                crate::range::lemma_bindings_frame(mpre, cells@, ty);
                                assert(settled(cells@, y));
                            } else {
                                if settled(mpre, c) {
                                    match formula_of(mpre, c) {
                                        Option::Some(fc) => {
                                            if refs_of(fc).contains(y) {
                                                assert(inputs_of(mpre, c) == refs_of(fc));
                                                assert(inputs_of(m2, c).contains(y));
                                                assert(consumers_of(m2, y).contains(c));
                                                assert(cset.contains(c));
                                                let j = choose|j: int|
                                                    0 <= j < order@.len() && order@[j] == c;
                                                assert(inputs_of(
                                                    m2,
                                                    order@[j],
                                                ).contains(y));
                                                assert(order@.take(j).contains(y));
                                                let k = choose|k: int|
                                                    0 <= k < j && order@.take(j)[k] == y;
                                                assert(order@[k] == y);
                                                assert(k == idx);
                                                assert(order@.skip(idx as int + 1)[j - idx
                                                    - 1] == c);
                                                assert(order@.skip(
                                                    idx as int + 1,
                                                ).contains(c));
                                            } else {
                                                assert forall|k: u64|
                                                    refs_of(fc).contains(k) implies value_of(
                                                    mpre,
                                                    k,
                                                ) == value_of(cells@, k) by {
                                                    assert(k != y);
                                                }
                                                lemma_settled_frame(mpre, cells@, c);
                                                assert(settled(cells@, c));
                                            }
                                        },
                                        Option::None => {
                                            assert(settled(cells@, c));
                                        },
                                    }
                                } else if error_of(mpre, c) == Option::Some(cycle_error_text())
                                    && error_of(m0, c) == Option::Some(cycle_error_text())
                                    && !cset.contains(c) {
                                    assert(error_of(cells@, c) == error_of(mpre, c));
                                } else {
                                    assert(order@.skip(idx as int).contains(c));
                                    let j = choose|j: int|
                                        0 <= j < order@.skip(idx as int).len()
                                            && order@.skip(idx as int)[j] == c;
                                    assert(order@[idx + j] == c);
                                    assert(j != 0);
                                    assert(order@.skip(idx as int + 1)[j - 1] == c);
                                }
                            }
                        }
                    }
                    idx = idx + 1;
                }
                proof {
                    assert forall|c: u64| #[trigger] cell_ok(cells@, c) by {
                        if order@.skip(order@.len() as int).contains(c) {
                            assert(false);
                        }
                    }
                    // the graph was rewired exactly at the assigned cell
                    assert(inputs_of(cells@, x) == refs_of(t0));
                    assert(forall|a: u64|
                        a != x ==> #[trigger] inputs_of(cells@, a) == inputs_of(m0, a));
                    assert forall|b: u64| #[trigger] consumers_of(cells@, b) == (
                    if refs_of(t0).contains(b) {
                        consumers_of(m0, b).insert(x)
                    } else {
                        consumers_of(m0, b).remove(x)
                    }) by {
                        assert(consumers_of(cells@, b) == consumers_of(m2, b));
                        assert(consumers_of(m1, b) == consumers_of(m0, b));
                    }
                    // the assigned cell itself was evaluated once, against
                    // the old store
                    assert(value_of(cells@, x) == value_of(m2, x));
                    assert(error_of(cells@, x) == error_of(m2, x));
                    assert(bindings_of(m1, t0) == bindings_of(m0, t0));
                    // cells the cascade cannot reach are untouched
                    assert forall|c: u64|
                        c != x && !reaches(cells@, x, c) implies #[trigger] value_of(
                        cells@,
                        c,
                    ) == value_of(m0, c) && error_of(cells@, c) == error_of(m0, c) by {
                        if cset.contains(c) {
                            assert(cvec@.contains(c));
                            assert(reaches(m2, x, c));
                            lemma_reaches_same_graph(m2, cells@, x, c);
                            assert(false);
                        }
                    }
                    // stale cycle marks survive only outside the cascade
                    assert forall|c: u64| #[trigger]
                        settled(cells@, c) || (error_of(cells@, c) == Option::Some(
                            cycle_error_text(),
                        ) && error_of(m0, c) == Option::Some(cycle_error_text()) && !reaches(
                            cells@,
                            x,
                            c,
                        )) by {
                        if order@.skip(order@.len() as int).contains(c) {
                            assert(false);
                        }
                        if !settled(cells@, c) && reaches(cells@, x, c) {
                            lemma_reaches_same_graph(cells@, m2, x, c);
                            lemma_reaches_into_closure(m2, x, cvec@, c);
                            assert(cset.contains(c));
                            assert(false);
                        }
                    }
                }
                std::mem::swap(&mut self.cells, &mut cells);
                match err0 {
                    Option::None => SetOutcome::Applied,
                    Option::Some(m) => SetOutcome::EvalFailed(m),
                }
            },
            Option::None => {
                mark_cycle(&mut cells, &cvec);
                proof {
                    let y = choose|y: u64| cvec@.contains(y) && reaches(m2, y, y);
                    assert(reaches(m2, x, y));
                    lemma_reaches_same_graph(m2, cells@, x, y);
                    lemma_reaches_same_graph(m2, cells@, y, y);
                    assert(reaches(cells@, x, y) && reaches(cells@, y, y));
                    assert forall|a: u64| #![trigger formula_of(cells@, a)]
                        match formula_of(cells@, a) {
                            Option::Some(f) => inputs_of(cells@, a) == refs_of(f),
                            Option::None => true,
                        } by {
                        assert(formula_of(cells@, a) == formula_of(m2, a));
                        assert(inputs_of(cells@, a) == inputs_of(m2, a));
                    }
                    assert(inputs_ok(cells@));
                    assert forall|c: u64| #[trigger] cell_ok(cells@, c) by {
                        if cvec@.contains(c) {
                            assert(error_of(cells@, c) == Option::Some(cycle_error_text()));
                        } else {
                            assert(!cset.contains(c));
                            if settled(m2, c) {
                                assert(error_of(cells@, c) == error_of(m2, c));
                                lemma_settled_frame(m2, cells@, c);
                                assert(settled(cells@, c));
                            } else {
                                assert(error_of(m2, c) == Option::Some(cycle_error_text()));
                                assert(error_of(cells@, c) == error_of(m2, c));
                            }
                        }
                    }
                    assert forall|c: u64| #![trigger settled(cells@, c)]
                        settled(cells@, c) || (error_of(cells@, c) == Option::Some(
                            cycle_error_text(),
                        ) && (reaches(cells@, x, c) || error_of(m0, c) == Option::Some(
                            cycle_error_text(),
                        ))) by {
                        if cvec@.contains(c) {
                            assert(reaches(m2, x, c));
                            lemma_reaches_same_graph(m2, cells@, x, c);
                        } else {
                            if settled(m2, c) {
                                lemma_settled_frame(m2, cells@, c);
                            } else {
                                assert(error_of(m2, c) == Option::Some(cycle_error_text()));
                                assert(error_of(m0, c) == error_of(m2, c)
                                    || error_of(m0, c) == Option::Some(cycle_error_text()));
                            }
                        }
                    }
                    // the graph was rewired exactly at the assigned cell
                    assert(inputs_of(cells@, x) == refs_of(t0));
                    assert(forall|a: u64|
                        a != x ==> #[trigger] inputs_of(cells@, a) == inputs_of(m0, a));
                    assert forall|b: u64| #[trigger] consumers_of(cells@, b) == (
                    if refs_of(t0).contains(b) {
                        consumers_of(m0, b).insert(x)
                    } else {
                        consumers_of(m0, b).remove(x)
                    }) by {
                        assert(consumers_of(cells@, b) == consumers_of(m2, b));
                        assert(consumers_of(m1, b) == consumers_of(m0, b));
                    }
                    // cells the cascade cannot reach are untouched
                    assert forall|c: u64|
                        c != x && !reaches(cells@, x, c) implies #[trigger] value_of(
                        cells@,
                        c,
                    ) == value_of(m0, c) && error_of(cells@, c) == error_of(m0, c) by {
                        if cvec@.contains(c) {
                            assert(reaches(m2, x, c));
                            lemma_reaches_same_graph(m2, cells@, x, c);
                            assert(false);
                        }
                        assert(error_of(cells@, c) == error_of(m2, c));
                        assert(value_of(cells@, c) == value_of(m2, c));
                    }
                }
                std::mem::swap(&mut self.cells, &mut cells);
                SetOutcome::CycleDetected(cycle_error_string())
            },
        }
    }

    /// The cells that the formula of (`col`, `row`) currently reads.
    pub fn inputs_list(&self, col: u32, row: u32) -> (r: Vec<u64>)
        ensures
            r@.to_set() == inputs_of(self@, key_of(col, row)),
            r@.no_duplicates(),
    {
        proof {
            use_type_invariant(&*self);
        }
        let k: u64 = cell_key(col, row);
        match self.cells.get(&k) {
            Option::Some(rec) => copy_keys(&rec.inputs),
            Option::None => {
                let r: Vec<u64> = Vec::new();
                proof {
                    assert(r@.to_set() =~= inputs_of(self@, k));
                }
                r
            },
        }
    }

    /// The cells whose formulas currently read (`col`, `row`).
    pub fn consumers_list(&self, col: u32, row: u32) -> (r: Vec<u64>)
        ensures
            r@.to_set() == consumers_of(self@, key_of(col, row)),
            r@.no_duplicates(),
    {
        proof {
            use_type_invariant(&*self);
        }
        let k: u64 = cell_key(col, row);
        match self.cells.get(&k) {
            Option::Some(rec) => copy_keys(&rec.consumers),
            Option::None => {
                let r: Vec<u64> = Vec::new();
                proof {
                    assert(r@.to_set() =~= consumers_of(self@, k));
                }
                r
            },
        }
    }

    /// Resolves one variable token against the current store: what the
    /// evaluator would be handed for it.
    pub fn resolve(&self, token: &str) -> (a: crate::values::Argument)
        ensures
            a@ == crate::range::token_arg(self@, token@),
    {
        let out = crate::range::resolve_token(&self.cells, token);
        out.0
    }

    /// The wire text reporting that a read hit a cell in error state, as
    /// the protocol spells it.
    pub fn get_error_message(col: u32, row: u32, msg: &str) -> (s: String)
        ensures
            s@ == "Cannot get cell "@ + addr_chars(col, row) + ": it depends on an error - "@
                + msg@,
    {
        let mut s = String::from_str("Cannot get cell ");
        let name = cell_name(col, row);
        s.append(name.as_str());
        s.append(": it depends on an error - ");
        s.append(msg);
        s
    }

    /// Every cell is settled or marked as circular, at every point between
    /// public calls.
    pub fn lemma_cells_ok(&self)
        ensures
            forall|c: u64| #[trigger] cell_ok(self@, c),
    {
        proof {
            use_type_invariant(&*self);
        }
    }

    /// A cell that was never set reads as the empty value, with no error
    /// state and no inputs.
    pub fn lemma_unset_reads_empty(&self)
        ensures
            forall|k: u64| #![trigger formula_of(self@, k)]
                formula_of(self@, k) is None ==> value_of(self@, k) is Empty && error_of(
                    self@,
                    k,
                ) is None && inputs_of(self@, k) === Set::empty(),
    {
        proof {
            use_type_invariant(&*self);
        }
    }

    /// Graph symmetry: `b` is an input of `a` exactly when `a` is a
    /// consumer of `b`, for every pair of cells, after every sequence of
    /// `set` calls.
    pub fn lemma_graph_symmetry(&self)
        ensures
            forall|a: u64, b: u64| #![trigger inputs_of(self@, a).contains(b)]
                #![trigger consumers_of(self@, b).contains(a)]
                inputs_of(self@, a).contains(b) <==> consumers_of(self@, b).contains(a),
    {
        proof {
            use_type_invariant(&*self);
        }
    }

    /// The input set is always exactly what the cell's current formula
    /// reads, member address by member address — recomputed in full on
    /// every evaluation.
    pub fn lemma_inputs_match_formula(&self)
        ensures
            forall|a: u64| #![trigger formula_of(self@, a)]
                match formula_of(self@, a) {
                    Option::Some(f) => inputs_of(self@, a) == refs_of(f),
                    Option::None => inputs_of(self@, a) === Set::empty(),
                },
    {
        proof {
            use_type_invariant(&*self);
        }
    }

    /// Error propagation: a cell that reads a cell holding an error value
    /// is itself in error state (unless it carries the cycle mark), and
    /// conversely the evaluation-failure state appears only when some input
    /// binding of the cell's formula holds an error value.
    pub fn lemma_error_propagation(&self)
        ensures
            forall|c: u64, b: u64| #![trigger inputs_of(self@, c).contains(b)]
                inputs_of(self@, c).contains(b) && value_of(self@, b) is Error && error_of(
                    self@,
                    c,
                ) != Option::Some(cycle_error_text()) ==> error_of(self@, c) == Option::Some(
                    eval_error_text(),
                ),
            forall|c: u64| #![trigger formula_of(self@, c)]
                match formula_of(self@, c) {
                    Option::Some(t) => error_of(self@, c) == Option::Some(eval_error_text())
                        ==> bindings_have_error(bindings_of(self@, t)),
                    Option::None => true,
                },
    {
        proof {
            use_type_invariant(&*self);
            reveal_strlit("VariableDependsOnError");
            reveal_strlit("CircularDependency");
            assert(eval_error_text().len() == 22);
            assert(cycle_error_text().len() == 18);
            assert(eval_error_text() != cycle_error_text());
            assert forall|c: u64, b: u64| #![trigger inputs_of(self@, c).contains(b)]
                inputs_of(self@, c).contains(b) && value_of(self@, b) is Error && error_of(
                    self@,
                    c,
                ) != Option::Some(cycle_error_text()) implies error_of(self@, c) == Option::Some(
                eval_error_text(),
            ) by {
                assert(cell_ok(self@, c));
                assert(settled(self@, c));
                match formula_of(self@, c) {
                    Option::Some(t) => {
                        assert(refs_of(t).contains(b));
                        crate::range::lemma_refs_member_error(self@, t, b);
                    },
                    Option::None => {
                        assert(inputs_of(self@, c) === Set::empty());
                        assert(false);
                    },
                }
            }
            assert forall|c: u64| #![trigger formula_of(self@, c)]
                match formula_of(self@, c) {
                    Option::Some(t) => error_of(self@, c) == Option::Some(eval_error_text())
                        ==> bindings_have_error(bindings_of(self@, t)),
                    Option::None => true,
                } by {
                match formula_of(self@, c) {
                    Option::Some(t) => {
                        if error_of(self@, c) == Option::Some(eval_error_text()) {
                            assert(error_of(self@, c) != Option::Some(cycle_error_text()));
                            assert(cell_ok(self@, c));
                            assert(settled(self@, c));
                        }
                    },
                    Option::None => {},
                }
            }
        }
    }

    /// Dependency pruning: a cell consumes exactly what its current formula
    /// reads, so a cell whose formula does not read `b` never stays among
    /// `b`'s consumers.
    pub fn lemma_pruned(&self)
        ensures
            forall|a: u64, b: u64| #![trigger consumers_of(self@, b).contains(a)]
                (match formula_of(self@, a) {
                    Option::Some(f) => !refs_of(f).contains(b),
                    Option::None => true,
                }) ==> !consumers_of(self@, b).contains(a),
    {
        proof {
            use_type_invariant(&*self);
            assert forall|a: u64, b: u64| #![trigger consumers_of(self@, b).contains(a)]
                (match formula_of(self@, a) {
                    Option::Some(f) => !refs_of(f).contains(b),
                    Option::None => true,
                }) ==> !consumers_of(self@, b).contains(a) by {
                self.lemma_pruned_justify(a, b);
            }
        }
    }

    proof fn lemma_pruned_justify(&self, a: u64, b: u64)
        requires
            self.inv(),
        ensures
            (match formula_of(self@, a) {
                Option::Some(f) => !refs_of(f).contains(b),
                Option::None => true,
            }) ==> !consumers_of(self@, b).contains(a),
    {
        match formula_of(self@, a) {
            Option::Some(f) => {
                assert(inputs_of(self@, a) == refs_of(f));
            },
            Option::None => {
                assert(inputs_of(self@, a) === Set::empty());
            },
        }
    }
}

} // verus!
