//! The range resolver and variable binding.
//!
//! A formula's variable tokens are either plain cell names (`"B2"`) or range
//! tokens: two corner names joined by one underscore (`"A1_A3"`).  A range
//! expands deterministically: corners on the same row give a row vector
//! across the column span, corners in the same column give a column vector
//! down the row span, and corners that differ in both give a row-major
//! matrix over the rectangle.  Spans are inclusive, first corner to second;
//! a span that runs backwards is empty.  Members that were never set read as
//! empty values, never as an error.
//!
//! Tokens that name no cell — a non-canonical name, a corner that does not
//! parse, or more than one underscore — are bound to a single empty value
//! and contribute nothing to the cell's input set.

use crate::addr::{cell_key, key_of, parse_cell_name, parse_corner};
use crate::engine::{value_at, value_of, vec_has_key, CellRecord};
use crate::evaluator::{bind_argument, bindings_model, find_variables, formula_vars, new_bindings, Bindings};
use crate::values::{ArgSpec, Argument, ValSpec, Value};
use std::collections::HashMap;
use vstd::prelude::*;
use vstd::string::StrSliceExecFns;

verus! {

/// The index of the first underscore of `t`, or `t.len()` when there is
/// none.
pub open spec fn underscore_pos(t: Seq<char>) -> int
    decreases t.len(),
{
    if t.len() == 0 {
        0
    } else if t[0] == '_' {
        0
    } else {
        1 + underscore_pos(t.drop_first())
    }
}

/// Characterizes `underscore_pos`: everything before it is not an
/// underscore, and it lands on one unless there is none.
pub proof fn lemma_underscore_pos_char(t: Seq<char>)
    ensures
        0 <= underscore_pos(t) <= t.len(),
        forall|i: int| 0 <= i < underscore_pos(t) ==> t[i] != '_',
        underscore_pos(t) < t.len() ==> t[underscore_pos(t)] == '_',
    decreases t.len(),
{
    if t.len() > 0 && t[0] != '_' {
        let d = t.drop_first();
        lemma_underscore_pos_char(d);
        assert forall|i: int| 0 <= i < underscore_pos(t) implies t[i] != '_' by {
            if i >= 1 {
                assert(d[i - 1] != '_');
                assert(d[i - 1] == t[i]);
            }
        }
        if underscore_pos(t) < t.len() {
            assert(d[underscore_pos(d)] == t[underscore_pos(t)]);
        }
    }
}

/// `underscore_pos` is the unique split point.
pub proof fn lemma_underscore_pos_is(t: Seq<char>, k: int)
    requires
        0 <= k <= t.len(),
        forall|i: int| 0 <= i < k ==> t[i] != '_',
        k < t.len() ==> t[k] == '_',
    ensures
        underscore_pos(t) == k,
    decreases t.len(),
{
    if t.len() == 0 || t[0] == '_' {
    } else {
        lemma_underscore_pos_is(t.drop_first(), k - 1);
    }
}

/// The two corner names of a range token: `t` split at its underscore.
/// `None` when `t` has no underscore or more than one.
pub open spec fn token_corners(t: Seq<char>) -> Option<(Seq<char>, Seq<char>)> {
    let p = underscore_pos(t);
    if p < t.len() {
        let rest = t.skip(p + 1);
        if underscore_pos(rest) == rest.len() {
            Some((t.take(p), rest))
        } else {
            None
        }
    } else {
        None
    }
}

/// The member keys of the inclusive rectangle between two corners.
pub open spec fn rect_keys(c1: u32, r1: u32, c2: u32, r2: u32) -> Set<u64> {
    Set::new(
        |k: u64|
            exists|c: u32, r: u32|
                c1 <= c <= c2 && r1 <= r <= r2 && k == #[trigger] key_of(c, r),
    )
}

/// The cells a single variable token reads.
pub open spec fn token_keys(t: Seq<char>) -> Set<u64> {
    match token_corners(t) {
        Some(corners) => match (parse_corner(corners.0), parse_corner(corners.1)) {
            (Some(a), Some(b)) => rect_keys(a.0, a.1, b.0, b.1),
            _ => Set::empty(),
        },
        None => match parse_corner(t) {
            Some(a) => Set::empty().insert(key_of(a.0, a.1)),
            None => Set::empty(),
        },
    }
}

/// The inclusive span from `a` to `b`, empty when it runs backwards.
pub open spec fn span(a: u32, b: u32) -> Seq<u32> {
    if a <= b {
        Seq::new((b - a + 1) as nat, |i: int| (a + i) as u32)
    } else {
        Seq::empty()
    }
}

/// What a variable token is bound to for evaluation, under the store `cm`.
pub open spec fn token_arg(cm: Map<u64, CellRecord>, t: Seq<char>) -> ArgSpec {
    match token_corners(t) {
        Some(corners) => match (parse_corner(corners.0), parse_corner(corners.1)) {
            (Some(a), Some(b)) => {
                if a.1 == b.1 {
                    ArgSpec::Vector(
                        span(a.0, b.0).map_values(|c: u32| value_of(cm, key_of(c, a.1))),
                    )
                } else if a.0 == b.0 {
                    ArgSpec::Vector(
                        span(a.1, b.1).map_values(|r: u32| value_of(cm, key_of(a.0, r))),
                    )
                } else {
                    ArgSpec::Matrix(
                        span(a.1, b.1).map_values(
                            |r: u32| span(a.0, b.0).map_values(|c: u32| value_of(cm, key_of(c, r))),
                        ),
                    )
                }
            },
            _ => ArgSpec::Single(ValSpec::Empty),
        },
        None => match parse_corner(t) {
            Some(a) => ArgSpec::Single(value_of(cm, key_of(a.0, a.1))),
            None => ArgSpec::Single(ValSpec::Empty),
        },
    }
}

/// The full input set of a formula: every cell some variable token reads.
pub open spec fn refs_of(text: Seq<char>) -> Set<u64> {
    Set::new(
        |k: u64|
            exists|i: int|
                0 <= i < crate::evaluator::formula_vars(text).len() && #[trigger] token_keys(
                    crate::evaluator::formula_vars(text)[i],
                ).contains(k),
    )
}

/// The binding map a formula is evaluated under, given the store `cm`.
pub open spec fn bindings_of(cm: Map<u64, CellRecord>, text: Seq<char>) -> Map<Seq<char>, ArgSpec> {
    Map::new(
        |v: Seq<char>| crate::evaluator::formula_vars(text).contains(v),
        |v: Seq<char>| token_arg(cm, v),
    )
}

/// A token's binding depends only on the values of the cells it reads.
pub proof fn lemma_token_arg_frame(m1: Map<u64, CellRecord>, m2: Map<u64, CellRecord>, t: Seq<char>)
    requires
        forall|k: u64| token_keys(t).contains(k) ==> value_of(m1, k) == value_of(m2, k),
    ensures
        token_arg(m1, t) == token_arg(m2, t),
{
    match token_corners(t) {
        Some(corners) => match (parse_corner(corners.0), parse_corner(corners.1)) {
            (Some(a), Some(b)) => {
                assert forall|c: u32, r: u32| a.0 <= c <= b.0 && a.1 <= r <= b.1 implies value_of(
                    m1,
                    key_of(c, r),
                ) == value_of(m2, key_of(c, r)) by {
                    assert(token_keys(t).contains(key_of(c, r)));
                }
                if a.1 == b.1 {
                    assert(span(a.0, b.0).map_values(|c: u32| value_of(m1, key_of(c, a.1))) =~= span(
                        a.0,
                        b.0,
                    ).map_values(|c: u32| value_of(m2, key_of(c, a.1))));
                } else if a.0 == b.0 {
                    assert(span(a.1, b.1).map_values(|r: u32| value_of(m1, key_of(a.0, r))) =~= span(
                        a.1,
                        b.1,
                    ).map_values(|r: u32| value_of(m2, key_of(a.0, r))));
                } else {
                    assert(span(a.1, b.1).map_values(
                        |r: u32| span(a.0, b.0).map_values(|c: u32| value_of(m1, key_of(c, r))),
                    ) =~~= span(a.1, b.1).map_values(
                        |r: u32| span(a.0, b.0).map_values(|c: u32| value_of(m2, key_of(c, r))),
                    ));
                }
            },
            _ => {},
        },
        None => match parse_corner(t) {
            Some(a) => {
                assert(token_keys(t).contains(key_of(a.0, a.1)));
            },
            None => {},
        },
    }
}

/// A token's binding carries the stored value of every member cell it
/// reads: an error value among the members surfaces in the binding.
pub proof fn lemma_token_member_error(cm: Map<u64, CellRecord>, t: Seq<char>, k: u64)
    requires
        token_keys(t).contains(k),
        value_of(cm, k) is Error,
    ensures
        crate::evaluator::arg_has_error(token_arg(cm, t)),
{
    match token_corners(t) {
        Some(corners) => match (parse_corner(corners.0), parse_corner(corners.1)) {
            (Some(a), Some(b)) => {
                let (c, r) = choose|c: u32, r: u32|
                    a.0 <= c <= b.0 && a.1 <= r <= b.1 && k == #[trigger] key_of(c, r);
                if a.1 == b.1 {
                    let vs = span(a.0, b.0).map_values(|cc: u32| value_of(cm, key_of(cc, a.1)));
                    assert(r == a.1);
                    assert(span(a.0, b.0)[c - a.0] == c);
                    assert(vs[c - a.0] == value_of(cm, k));
                    assert(vs[c - a.0] is Error);
                } else if a.0 == b.0 {
                    let vs = span(a.1, b.1).map_values(|rr: u32| value_of(cm, key_of(a.0, rr)));
                    assert(c == a.0);
                    assert(span(a.1, b.1)[r - a.1] == r);
                    assert(vs[r - a.1] == value_of(cm, k));
                    assert(vs[r - a.1] is Error);
                } else {
                    let m = span(a.1, b.1).map_values(
                        |rr: u32| span(a.0, b.0).map_values(|cc: u32| value_of(cm, key_of(cc, rr))),
                    );
                    assert(span(a.1, b.1)[r - a.1] == r);
                    assert(m[r - a.1] == span(a.0, b.0).map_values(
                        |cc: u32| value_of(cm, key_of(cc, r)),
                    ));
                    assert(span(a.0, b.0)[c - a.0] == c);
                    assert(m[r - a.1][c - a.0] == value_of(cm, k));
                    assert(m[r - a.1][c - a.0] is Error);
                }
            },
            _ => {
                assert(false);
            },
        },
        None => match parse_corner(t) {
            Some(a) => {
                assert(k == key_of(a.0, a.1));
            },
            None => {
                assert(false);
            },
        },
    }
}

/// An error value stored in any cell a formula reads surfaces in the
/// formula's bindings.
pub proof fn lemma_refs_member_error(cm: Map<u64, CellRecord>, text: Seq<char>, k: u64)
    requires
        refs_of(text).contains(k),
        value_of(cm, k) is Error,
    ensures
        crate::evaluator::bindings_have_error(bindings_of(cm, text)),
{
    let vars = crate::evaluator::formula_vars(text);
    let i = choose|i: int| 0 <= i < vars.len() && #[trigger] token_keys(vars[i]).contains(k);
    let v = vars[i];
    lemma_token_member_error(cm, v, k);
    assert(vars.contains(v));
    assert(bindings_of(cm, text).dom().contains(v));
    assert(bindings_of(cm, text)[v] == token_arg(cm, v));
}

/// A formula's bindings depend only on the values of the cells it reads.
pub proof fn lemma_bindings_frame(
    m1: Map<u64, CellRecord>,
    m2: Map<u64, CellRecord>,
    text: Seq<char>,
)
    requires
        forall|k: u64| refs_of(text).contains(k) ==> value_of(m1, k) == value_of(m2, k),
    ensures
        bindings_of(m1, text) == bindings_of(m2, text),
{
    let vars = crate::evaluator::formula_vars(text);
    assert forall|v: Seq<char>| vars.contains(v) implies token_arg(m1, v) == token_arg(m2, v) by {
        let i = choose|i: int| 0 <= i < vars.len() && vars[i] == v;
        assert forall|k: u64| token_keys(v).contains(k) implies value_of(m1, k) == value_of(
            m2,
            k,
        ) by {
            assert(token_keys(vars[i]).contains(k));
            assert(refs_of(text).contains(k));
        }
        lemma_token_arg_frame(m1, m2, v);
    }
    assert(bindings_of(m1, text) =~= bindings_of(m2, text));
}

/// The values and keys of the cells on row `r` across columns `ca..=cb`.
#[verifier::loop_isolation(false)]
fn row_cells(cells: &HashMap<u64, CellRecord>, r: u32, ca: u32, cb: u32) -> (out: (
    Vec<Value>,
    Vec<u64>,
))
    ensures
        out.0.deep_view() == span(ca, cb).map_values(|c: u32| value_of(cells@, key_of(c, r))),
        out.1@ == span(ca, cb).map_values(|c: u32| key_of(c, r)),
{
    let mut vals: Vec<Value> = Vec::new();
    let mut keys: Vec<u64> = Vec::new();
    if ca <= cb {
        let mut c: u64 = ca as u64;
        while c <= cb as u64
            invariant
                ca as u64 <= c <= cb as u64 + 1,
                vals@.len() == c - ca,
                keys@.len() == c - ca,
                forall|i: int|
                    0 <= i < vals@.len() ==> vals@[i]@ == value_of(
                        cells@,
                        key_of((ca + i) as u32, r),
                    ),
                forall|i: int| 0 <= i < keys@.len() ==> keys@[i] == key_of((ca + i) as u32, r),
            decreases cb as u64 - c + 1,
        {
            let cc: u32 = c as u32;
            let k: u64 = cell_key(cc, r);
            keys.push(k);
            vals.push(value_at(cells, k));
            c = c + 1;
        }
    }
    proof {
        assert(vals.deep_view() =~= span(ca, cb).map_values(|c: u32| value_of(cells@, key_of(c, r))));
        assert(keys@ =~= span(ca, cb).map_values(|c: u32| key_of(c, r)));
    }
    (vals, keys)
}

/// The values and keys of the cells in column `c` down rows `ra..=rb`.
#[verifier::loop_isolation(false)]
fn col_cells(cells: &HashMap<u64, CellRecord>, c: u32, ra: u32, rb: u32) -> (out: (
    Vec<Value>,
    Vec<u64>,
))
    ensures
        out.0.deep_view() == span(ra, rb).map_values(|r: u32| value_of(cells@, key_of(c, r))),
        out.1@ == span(ra, rb).map_values(|r: u32| key_of(c, r)),
{
    let mut vals: Vec<Value> = Vec::new();
    let mut keys: Vec<u64> = Vec::new();
    if ra <= rb {
        let mut r: u64 = ra as u64;
        while r <= rb as u64
            invariant
                ra as u64 <= r <= rb as u64 + 1,
                vals@.len() == r - ra,
                keys@.len() == r - ra,
                forall|i: int|
                    0 <= i < vals@.len() ==> vals@[i]@ == value_of(
                        cells@,
                        key_of(c, (ra + i) as u32),
                    ),
                forall|i: int| 0 <= i < keys@.len() ==> keys@[i] == key_of(c, (ra + i) as u32),
            decreases rb as u64 - r + 1,
        {
            let rr: u32 = r as u32;
            let k: u64 = cell_key(c, rr);
            keys.push(k);
            vals.push(value_at(cells, k));
            r = r + 1;
        }
    }
    proof {
        assert(vals.deep_view() =~= span(ra, rb).map_values(|r: u32| value_of(cells@, key_of(c, r))));
        assert(keys@ =~= span(ra, rb).map_values(|r: u32| key_of(c, r)));
    }
    (vals, keys)
}

/// A sequence holding an underscore is no canonical cell name.
pub proof fn lemma_no_parse_with_underscore(t: Seq<char>, p: int)
    requires
        0 <= p < t.len(),
        t[p] == '_',
    ensures
        parse_corner(t) is None,
{
    crate::addr::lemma_upper_prefix_char(t);
    let l = crate::addr::upper_prefix_len(t);
    if l > p {
        assert(crate::addr::is_upper(t[p]));
        assert(false);
    }
    if 1 <= l && l < t.len() {
        assert(l <= p < t.len() && !crate::addr::is_digit(t[p]));
        assert(!(forall|i: int| l <= i < t.len() ==> crate::addr::is_digit(t[i])));
    }
}

/// Resolves one variable token against the store: the argument it is bound
/// to, and the member cells it reads.
#[verifier::loop_isolation(false)]
#[verifier::rlimit(50)]
pub(crate) fn resolve_token(cells: &HashMap<u64, CellRecord>, token: &str) -> (out: (
    Argument,
    Vec<u64>,
))
    ensures
        out.0@ == token_arg(cells@, token@),
        out.1@.to_set() == token_keys(token@),
{
    let n: usize = token.unicode_len();
    let mut p: usize = 0;
    while p < n && token.get_char(p) != '_'
        invariant
            0 <= p <= n,
            forall|i: int| 0 <= i < p ==> token@[i] != '_',
        decreases n - p,
    {
        p = p + 1;
    }
    proof {
        lemma_underscore_pos_is(token@, p as int);
    }
    if p == n {
        // a plain cell name, or no cell at all
        match parse_cell_name(token) {
            Option::Some((c, r)) => {
                let k: u64 = cell_key(c, r);
                let mut keys: Vec<u64> = Vec::new();
                keys.push(k);
                proof {
                    assert(keys@[0] == k);
                    assert(keys@.to_set() =~= token_keys(token@));
                }
                (Argument::Single(value_at(cells, k)), keys)
            },
            Option::None => {
                let keys: Vec<u64> = Vec::new();
                proof {
                    assert(keys@.to_set() =~= token_keys(token@));
                }
                (Argument::Single(Value::Empty), keys)
            },
        }
    } else {
        let left: &str = token.substring_char(0, p);
        let right: &str = token.substring_char(p + 1, n);
        proof {
            assert(left@ =~= token@.take(p as int));
            assert(right@ =~= token@.skip(p as int + 1));
        }
        let rn: usize = n - p - 1;
        let mut q: usize = 0;
        while q < rn && right.get_char(q) != '_'
            invariant
                0 <= q <= rn,
                forall|i: int| 0 <= i < q ==> right@[i] != '_',
            decreases rn - q,
        {
            q = q + 1;
        }
        if q < rn {
            // a second underscore: the token names no cells
            proof {
                lemma_underscore_pos_char(right@);
                assert(right@[q as int] == '_');
                assert(underscore_pos(right@) < right@.len());
                assert(token_corners(token@) is None);
                lemma_no_parse_with_underscore(token@, p as int);
                assert(Seq::<u64>::empty().to_set() =~= token_keys(token@));
            }
            (Argument::Single(Value::Empty), Vec::new())
        } else {
            proof {
                lemma_underscore_pos_is(right@, rn as int);
                assert(token_corners(token@) == Some((left@, right@)));
            }
            match (parse_cell_name(left), parse_cell_name(right)) {
                (Option::Some((c1, r1)), Option::Some((c2, r2))) => {
                    if r1 == r2 {
                        // same row: a row vector across the column span
                        let out = row_cells(cells, r1, c1, c2);
                        proof {
                            assert forall|k: u64|
                                out.1@.to_set().contains(k) == token_keys(token@).contains(k) by {
                                if out.1@.to_set().contains(k) {
                                    let i = choose|i: int|
                                        0 <= i < out.1@.len() && out.1@[i] == k;
                                    assert(k == key_of((c1 + i) as u32, r1));
                                }
                                if token_keys(token@).contains(k) {
                                    let (c, r) = choose|c: u32, r: u32|
                                        c1 <= c <= c2 && r1 <= r <= r2 && k == #[trigger] key_of(
                                            c,
                                            r,
                                        );
                                    assert(out.1@[c - c1] == key_of(c, r1));
                                }
                            }
                            assert(out.1@.to_set() =~= token_keys(token@));
                        }
                        (Argument::Vector(out.0), out.1)
                    } else if c1 == c2 {
                        // same column: a column vector down the row span
                        let out = col_cells(cells, c1, r1, r2);
                        proof {
                            assert forall|k: u64|
                                out.1@.to_set().contains(k) == token_keys(token@).contains(k) by {
                                if out.1@.to_set().contains(k) {
                                    let i = choose|i: int|
                                        0 <= i < out.1@.len() && out.1@[i] == k;
                                    assert(k == key_of(c1, (r1 + i) as u32));
                                }
                                if token_keys(token@).contains(k) {
                                    let (c, r) = choose|c: u32, r: u32|
                                        c1 <= c <= c2 && r1 <= r <= r2 && k == #[trigger] key_of(
                                            c,
                                            r,
                                        );
                                    assert(out.1@[r - r1] == key_of(c1, r));
                                }
                            }
                            assert(out.1@.to_set() =~= token_keys(token@));
                        }
                        (Argument::Vector(out.0), out.1)
                    } else {
                        // both differ: a row-major matrix over the rectangle
                        let mut rows: Vec<Vec<Value>> = Vec::new();
                        let mut keys: Vec<u64> = Vec::new();
                        if r1 <= r2 {
                            let mut r: u64 = r1 as u64;
                            while r <= r2 as u64
                                invariant
                                    r1 as u64 <= r <= r2 as u64 + 1,
                                    rows@.len() == r - r1,
                                    forall|i: int|
                                        0 <= i < rows@.len() ==> rows@[i].deep_view() == span(
                                            c1,
                                            c2,
                                        ).map_values(
                                            |c: u32|
                                                value_of(cells@, key_of(c, (r1 + i) as u32)),
                                        ),
                                    keys@.to_set() == Set::new(
                                        |k: u64|
                                            exists|c: u32, rr: u32|
                                                c1 <= c <= c2 && r1 <= rr && (rr as u64) < r && k
                                                    == #[trigger] key_of(c, rr),
                                    ),
                                decreases r2 as u64 - r + 1,
                            {
                                let rr: u32 = r as u32;
                                let out = row_cells(cells, rr, c1, c2);
                                let mut rowkeys = out.1;
                                let ghost oldkeys = keys@;
                                keys.append(&mut rowkeys);
                                rows.push(out.0);
                                proof {
                                    assert forall|k: u64|
                                        keys@.to_set().contains(k) == Set::new(
                                            |k: u64|
                                                exists|c: u32, x: u32|
                                                    c1 <= c <= c2 && r1 <= x && (x as u64) < r + 1
                                                        && k == #[trigger] key_of(c, x),
                                        ).contains(k) by {
                                        if keys@.to_set().contains(k) {
                                            let i = choose|i: int|
                                                0 <= i < keys@.len() && keys@[i] == k;
                                            if i < oldkeys.len() {
                                                assert(oldkeys.to_set().contains(k));
                                            } else {
                                                assert(k == key_of(
                                                    (c1 + (i - oldkeys.len())) as u32,
                                                    rr,
                                                ));
                                            }
                                        }
                                        if Set::new(
                                            |k: u64|
                                                exists|c: u32, x: u32|
                                                    c1 <= c <= c2 && r1 <= x && (x as u64) < r + 1
                                                        && k == #[trigger] key_of(c, x),
                                        ).contains(k) {
                                            let (c, x) = choose|c: u32, x: u32|
                                                c1 <= c <= c2 && r1 <= x && (x as u64) < r + 1 && k
                                                    == #[trigger] key_of(c, x);
                                            if (x as u64) < r {
                                                assert(oldkeys.to_set().contains(k));
                                                let i = choose|i: int|
                                                    0 <= i < oldkeys.len() && oldkeys[i] == k;
                                                assert(keys@[i] == k);
                                            } else {
                                                assert(keys@[oldkeys.len() + (c - c1)] == key_of(
                                                    c,
                                                    rr,
                                                ));
                                            }
                                        }
                                    }
                                    assert(keys@.to_set() =~= Set::new(
                                        |k: u64|
                                            exists|c: u32, x: u32|
                                                c1 <= c <= c2 && r1 <= x && (x as u64) < r + 1 && k
                                                    == #[trigger] key_of(c, x),
                                    ));
                                }
                                r = r + 1;
                            }
                        }
                        proof {
                            assert(rows.deep_view() =~~= span(r1, r2).map_values(
                                |r: u32| span(c1, c2).map_values(|c: u32| value_of(cells@, key_of(c, r))),
                            ));
                            assert(keys@.to_set() =~= token_keys(token@));
                        }
                        (Argument::Matrix(rows), keys)
                    }
                },
                _ => {
                    let keys: Vec<u64> = Vec::new();
                    proof {
                        assert(keys@.to_set() =~= token_keys(token@));
                    }
                    (Argument::Single(Value::Empty), keys)
                },
            }
        }
    }
}

/// Builds the binding map and the input set of a formula: one binding for
/// every variable token, and the deduplicated list of every cell any token
/// reads.
#[verifier::loop_isolation(false)]
pub(crate) fn collect_bindings(cells: &HashMap<u64, CellRecord>, text: &str) -> (out: (
    Bindings,
    Vec<u64>,
))
    ensures
        bindings_model(out.0) == bindings_of(cells@, text@),
        out.1@.to_set() == refs_of(text@),
        out.1@.no_duplicates(),
{
    let vars: Vec<String> = find_variables(text);
    let ghost gvars: Seq<Seq<char>> = formula_vars(text@);
    let mut b: Bindings = new_bindings();
    let mut members: Vec<u64> = Vec::new();
    let mut i: usize = 0;
    while i < vars.len()
        invariant
            0 <= i <= vars@.len(),
            bindings_model(b) == Map::new(
                |v: Seq<char>| gvars.take(i as int).contains(v),
                |v: Seq<char>| token_arg(cells@, v),
            ),
            members@.to_set() == Set::new(
                |k: u64|
                    exists|j: int| 0 <= j < i && #[trigger] token_keys(gvars[j]).contains(k),
            ),
            members@.no_duplicates(),
        decreases vars@.len() - i,
    {
        let token: &String = &vars[i];
        proof {
            assert(vars@[i as int].deep_view() == gvars[i as int]);
        }
        let out = resolve_token(cells, token.as_str());
        let arg = out.0;
        let keys = out.1;
        let ghost oldmodel = bindings_model(b);
        bind_argument(&mut b, token.clone(), arg);
        proof {
            broadcast use vstd::seq_lib::group_seq_properties;

            assert(gvars.take(i as int + 1) =~= gvars.take(i as int).push(gvars[i as int]));
            assert(bindings_model(b) =~= Map::new(
                |v: Seq<char>| gvars.take(i as int + 1).contains(v),
                |v: Seq<char>| token_arg(cells@, v),
            ));
        }
        let mut j: usize = 0;
        while j < keys.len()
            invariant
                0 <= j <= keys@.len(),
                members@.no_duplicates(),
                members@.to_set() == Set::new(
                    |k: u64|
                        exists|jj: int|
                            0 <= jj < i && #[trigger] token_keys(gvars[jj]).contains(k),
                ).union(keys@.take(j as int).to_set()),
            decreases keys@.len() - j,
        {
            let k: u64 = keys[j];
            let had: bool = vec_has_key(&members, k);
            let ghost mold = members@;
            if !had {
                members.push(k);
            }
            proof {
                broadcast use vstd::seq_lib::group_seq_properties;

                let prevs = Set::new(
                    |k: u64|
                        exists|jj: int|
                            0 <= jj < i && #[trigger] token_keys(gvars[jj]).contains(k),
                );
                let before = prevs.union(keys@.take(j as int).to_set());
                let after = prevs.union(keys@.take(j as int + 1).to_set());
                assert(keys@.take(j as int + 1) =~= keys@.take(j as int).push(keys@[j as int]));
                assert(after =~= before.insert(k));
                if had {
                    assert(mold.to_set().contains(k));
                    assert(members@.to_set() =~= after);
                } else {
                    mold.lemma_push_to_set_commute(k);
                    assert(members@.to_set() =~= after);
                }
            }
            j = j + 1;
        }
        proof {
            broadcast use vstd::seq_lib::group_seq_properties;

            assert(keys@.take(keys@.len() as int) =~= keys@);
            let prev = Set::new(
                |k: u64|
                    exists|jj: int| 0 <= jj < i && #[trigger] token_keys(gvars[jj]).contains(k),
            );
            let target = Set::new(
                |k: u64|
                    exists|jj: int|
                        0 <= jj < i + 1 && #[trigger] token_keys(gvars[jj]).contains(k),
            );
            assert forall|k: u64| members@.to_set().contains(k) implies target.contains(k) by {
                assert(prev.union(keys@.to_set()).contains(k));
                if keys@.to_set().contains(k) {
                    assert(token_keys(gvars[i as int]).contains(k));
                }
            }
            assert forall|k: u64| target.contains(k) implies members@.to_set().contains(k) by {
                let jj = choose|jj: int|
                    0 <= jj < i + 1 && #[trigger] token_keys(gvars[jj]).contains(k);
                if jj == i {
                    assert(keys@.to_set().contains(k));
                } else {
                    assert(prev.contains(k));
                }
                assert(prev.union(keys@.to_set()).contains(k));
            }
            assert(members@.to_set() =~= target);
        }
        i = i + 1;
    }
    proof {
        assert(gvars.take(gvars.len() as int) =~= gvars);
        assert(bindings_model(b) =~= bindings_of(cells@, text@));
        assert(members@.to_set() =~= refs_of(text@));
    }
    (b, members)
}

} // verus!
