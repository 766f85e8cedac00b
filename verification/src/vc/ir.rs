//! Finite Boolean verification conditions: variables, initial states, a
//! transition relation and a state property, with their canonical identity.

use vstd::prelude::*;
use vstd::utf8::encode_utf8;
use crate::smap::{StrMap, has_key, key_seq, sorted_keys};
use crate::text::{decimal, debug_text, seq_lt, usize_string};
use crate::vc::identity::{Sha256Id, id_text};

verus! {

/// The schema line that opens the canonical text of a verification condition.
pub const VC_SCHEMA: &'static str = "nmlt-vc/1";

/// The most variables a condition may have: its states are enumerated.
pub const MAX_VARIABLES: usize = 20;

#[derive(Clone, Copy, Debug, PartialEq, Eq, PartialOrd, Ord, Hash, Structural)]
pub enum StateRef {
    Current(usize),
    Next(usize),
}

#[derive(Debug, PartialEq, Eq, Hash)]
pub enum BoolExpr {
    Const(bool),
    Var(StateRef),
    Not(Box<BoolExpr>),
    And(Vec<BoolExpr>),
    Or(Vec<BoolExpr>),
    Implies(Box<BoolExpr>, Box<BoolExpr>),
    Iff(Box<BoolExpr>, Box<BoolExpr>),
}

impl BoolExpr {
    pub fn current(index: usize) -> (r: BoolExpr)
        ensures
            r == BoolExpr::Var(StateRef::Current(index)),
    {
        BoolExpr::Var(StateRef::Current(index))
    }

    pub fn next(index: usize) -> (r: BoolExpr)
        ensures
            r == BoolExpr::Var(StateRef::Next(index)),
    {
        BoolExpr::Var(StateRef::Next(index))
    }

    pub fn negate(expr: BoolExpr) -> (r: BoolExpr)
        ensures
            r == BoolExpr::Not(Box::new(expr)),
    {
        BoolExpr::Not(Box::new(expr))
    }

    pub fn implies(left: BoolExpr, right: BoolExpr) -> (r: BoolExpr)
        ensures
            r == BoolExpr::Implies(Box::new(left), Box::new(right)),
    {
        BoolExpr::Implies(Box::new(left), Box::new(right))
    }

    pub fn iff(left: BoolExpr, right: BoolExpr) -> (r: BoolExpr)
        ensures
            r == BoolExpr::Iff(Box::new(left), Box::new(right)),
    {
        BoolExpr::Iff(Box::new(left), Box::new(right))
    }

    /// A copy of the expression, node by node.
    pub fn copy(&self) -> (r: BoolExpr)
        ensures
            same_expr(r, *self),
        decreases self,
    {
        match self {
            BoolExpr::Const(b) => BoolExpr::Const(*b),
            BoolExpr::Var(v) => BoolExpr::Var(*v),
            BoolExpr::Not(x) => BoolExpr::Not(Box::new(x.copy())),
            BoolExpr::And(items) => BoolExpr::And(copy_all(items)),
            BoolExpr::Or(items) => BoolExpr::Or(copy_all(items)),
            BoolExpr::Implies(a, b) => BoolExpr::Implies(Box::new(a.copy()), Box::new(b.copy())),
            BoolExpr::Iff(a, b) => BoolExpr::Iff(Box::new(a.copy()), Box::new(b.copy())),
        }
    }
}

/// `a` and `b` are the same expression, node by node.
pub open spec fn same_expr(a: BoolExpr, b: BoolExpr) -> bool
    decreases a, 0nat,
{
    match (a, b) {
        (BoolExpr::Const(x), BoolExpr::Const(y)) => x == y,
        (BoolExpr::Var(x), BoolExpr::Var(y)) => x == y,
        (BoolExpr::Not(x), BoolExpr::Not(y)) => same_expr(*x, *y),
        (BoolExpr::And(xs), BoolExpr::And(ys)) => same_exprs(xs@, ys@),
        (BoolExpr::Or(xs), BoolExpr::Or(ys)) => same_exprs(xs@, ys@),
        (BoolExpr::Implies(x1, x2), BoolExpr::Implies(y1, y2)) => same_expr(*x1, *y1) && same_expr(*x2, *y2),
        (BoolExpr::Iff(x1, x2), BoolExpr::Iff(y1, y2)) => same_expr(*x1, *y1) && same_expr(*x2, *y2),
        _ => false,
    }
}

pub open spec fn same_exprs(xs: Seq<BoolExpr>, ys: Seq<BoolExpr>) -> bool
    decreases xs, 0nat,
{
    if xs.len() == 0 {
        ys.len() == 0
    } else {
        ys.len() == xs.len() && same_exprs(xs.drop_last(), ys.drop_last()) && same_expr(xs.last(), ys.last())
    }
}

fn copy_all(items: &Vec<BoolExpr>) -> (r: Vec<BoolExpr>)
    ensures
        same_exprs(r@, items@),
    decreases items,
{
    let mut out: Vec<BoolExpr> = Vec::new();
    let mut k: usize = 0;
    while k < items.len()
        invariant
            k <= items@.len(),
            out@.len() == k,
            same_exprs(out@, items@.subrange(0, k as int)),
        decreases items@.len() - k,
    {
        proof {
            assert(decreases_to!(items => items@[k as int]));
        }
        let c = items[k].copy();
        let ghost before = out@;
        out.push(c);
        proof {
            assert(out@.drop_last() =~= before);
            assert(items@.subrange(0, k + 1).drop_last() =~= items@.subrange(0, k as int));
        }
        k = k + 1;
    }
    proof {
        assert(items@.subrange(0, items@.len() as int) =~= items@);
    }
    out
}

impl Clone for BoolExpr {
    fn clone(&self) -> Self {
        self.copy()
    }
}

/// Bit `i` of the valuation `x`.
pub open spec fn bit(x: usize, i: usize) -> bool {
    x & (1usize << i) != 0
}

/// The value of `e` in the current valuation `cur` and next valuation `next`.
pub open spec fn holds(e: BoolExpr, cur: usize, next: usize) -> bool
    decreases e,
{
    match e {
        BoolExpr::Const(b) => b,
        BoolExpr::Var(StateRef::Current(i)) => bit(cur, i),
        BoolExpr::Var(StateRef::Next(i)) => bit(next, i),
        BoolExpr::Not(x) => !holds(*x, cur, next),
        BoolExpr::And(items) => all_hold(items@, cur, next),
        BoolExpr::Or(items) => any_holds(items@, cur, next),
        BoolExpr::Implies(a, b) => !holds(*a, cur, next) || holds(*b, cur, next),
        BoolExpr::Iff(a, b) => holds(*a, cur, next) == holds(*b, cur, next),
    }
}

pub open spec fn all_hold(s: Seq<BoolExpr>, cur: usize, next: usize) -> bool
    decreases s,
{
    if s.len() == 0 {
        true
    } else {
        all_hold(s.drop_last(), cur, next) && holds(s.last(), cur, next)
    }
}

pub open spec fn any_holds(s: Seq<BoolExpr>, cur: usize, next: usize) -> bool
    decreases s,
{
    if s.len() == 0 {
        false
    } else {
        any_holds(s.drop_last(), cur, next) || holds(s.last(), cur, next)
    }
}

pub proof fn lemma_all_hold(s: Seq<BoolExpr>, cur: usize, next: usize)
    ensures
        all_hold(s, cur, next) <==> forall|k: int| 0 <= k < s.len() ==> holds(#[trigger] s[k], cur, next),
        any_holds(s, cur, next) <==> exists|k: int| 0 <= k < s.len() && holds(#[trigger] s[k], cur, next),
    decreases s.len(),
{
    if s.len() > 0 {
        lemma_all_hold(s.drop_last(), cur, next);
        assert forall|k: int| 0 <= k < s.len() - 1 implies #[trigger] s.drop_last()[k] == s[k] by {}
        if any_holds(s, cur, next) && !holds(s.last(), cur, next) {
            let k = choose|k: int| 0 <= k < s.drop_last().len() && holds(#[trigger] s.drop_last()[k], cur, next);
            assert(holds(s[k], cur, next));
        }
        if exists|k: int| 0 <= k < s.len() && holds(#[trigger] s[k], cur, next) {
            let k = choose|k: int| 0 <= k < s.len() && holds(#[trigger] s[k], cur, next);
            if k < s.len() - 1 {
                assert(holds(s.drop_last()[k], cur, next));
            }
        }
        if all_hold(s, cur, next) {
            assert forall|k: int| 0 <= k < s.len() implies holds(#[trigger] s[k], cur, next) by {
                if k < s.len() - 1 {
                    assert(holds(s.drop_last()[k], cur, next));
                }
            }
        }
        if forall|k: int| 0 <= k < s.len() ==> holds(#[trigger] s[k], cur, next) {
            assert forall|k: int| 0 <= k < s.drop_last().len() implies holds(#[trigger] s.drop_last()[k], cur, next) by {
                assert(holds(s[k], cur, next));
            }
            assert(holds(s[s.len() - 1], cur, next));
        }
    }
}

/// Every variable that `e` names has an index below `n`.
pub open spec fn refs_below(e: BoolExpr, n: nat) -> bool
    decreases e,
{
    match e {
        BoolExpr::Const(_) => true,
        BoolExpr::Var(StateRef::Current(i)) => i < n,
        BoolExpr::Var(StateRef::Next(i)) => i < n,
        BoolExpr::Not(x) => refs_below(*x, n),
        BoolExpr::And(items) => all_below(items@, n),
        BoolExpr::Or(items) => all_below(items@, n),
        BoolExpr::Implies(a, b) => refs_below(*a, n) && refs_below(*b, n),
        BoolExpr::Iff(a, b) => refs_below(*a, n) && refs_below(*b, n),
    }
}

pub open spec fn all_below(s: Seq<BoolExpr>, n: nat) -> bool
    decreases s,
{
    if s.len() == 0 {
        true
    } else {
        all_below(s.drop_last(), n) && refs_below(s.last(), n)
    }
}

pub proof fn lemma_all_below(s: Seq<BoolExpr>, n: nat, k: int)
    requires
        all_below(s, n),
        0 <= k < s.len(),
    ensures
        refs_below(s[k], n),
    decreases s.len(),
{
    if k < s.len() - 1 {
        lemma_all_below(s.drop_last(), n, k);
        assert(s.drop_last()[k] == s[k]);
    }
}

/// Evaluates `e` on the valuations `cur` and `next`.
pub fn eval(e: &BoolExpr, cur: usize, next: usize) -> (r: bool)
    requires
        refs_below(*e, MAX_VARIABLES as nat),
    ensures
        r == holds(*e, cur, next),
    decreases e,
{
    match e {
        BoolExpr::Const(b) => *b,
        BoolExpr::Var(StateRef::Current(i)) => cur & (1usize << *i) != 0,
        BoolExpr::Var(StateRef::Next(i)) => next & (1usize << *i) != 0,
        BoolExpr::Not(x) => !eval(x, cur, next),
        BoolExpr::And(items) => {
            let mut acc = true;
            let mut k: usize = 0;
            while k < items.len()
                invariant
                    k <= items@.len(),
                    all_below(items@, MAX_VARIABLES as nat),
                    acc == all_hold(items@.subrange(0, k as int), cur, next),
                decreases items@.len() - k,
            {
                proof {
                    lemma_all_below(items@, MAX_VARIABLES as nat, k as int);
                    assert(decreases_to!(e => items@[k as int]));
                }
                let v = eval(&items[k], cur, next);
                proof {
                    assert(items@.subrange(0, k + 1).drop_last() =~= items@.subrange(0, k as int));
                }
                acc = acc && v;
                k = k + 1;
            }
            proof {
                assert(items@.subrange(0, items@.len() as int) =~= items@);
            }
            acc
        },
        BoolExpr::Or(items) => {
            let mut acc = false;
            let mut k: usize = 0;
            while k < items.len()
                invariant
                    k <= items@.len(),
                    all_below(items@, MAX_VARIABLES as nat),
                    acc == any_holds(items@.subrange(0, k as int), cur, next),
                decreases items@.len() - k,
            {
                proof {
                    lemma_all_below(items@, MAX_VARIABLES as nat, k as int);
                    assert(decreases_to!(e => items@[k as int]));
                }
                let v = eval(&items[k], cur, next);
                proof {
                    assert(items@.subrange(0, k + 1).drop_last() =~= items@.subrange(0, k as int));
                }
                acc = acc || v;
                k = k + 1;
            }
            proof {
                assert(items@.subrange(0, items@.len() as int) =~= items@);
            }
            acc
        },
        BoolExpr::Implies(a, b) => !eval(a, cur, next) || eval(b, cur, next),
        BoolExpr::Iff(a, b) => eval(a, cur, next) == eval(b, cur, next),
    }
}

#[derive(Clone, Debug, PartialEq, Eq)]
pub enum IrError {
    EmptyVariables,
    TooManyVariables(usize),
    DuplicateVariable(String),
    InvalidVariable(String),
    IndexOutOfRange { index: usize, variables: usize },
    NextStateInInitial,
    NextStateInProperty,
    ConfigurationIdentityMismatch { expected: Sha256Id, actual: Sha256Id },
}

pub enum IrErrorV {
    EmptyVariables,
    TooManyVariables(usize),
    DuplicateVariable(Seq<char>),
    InvalidVariable(Seq<char>),
    IndexOutOfRange { index: usize, variables: usize },
    NextStateInInitial,
    NextStateInProperty,
    ConfigurationIdentityMismatch { expected: Seq<char>, actual: Seq<char> },
}

impl View for IrError {
    type V = IrErrorV;

    open spec fn view(&self) -> IrErrorV {
        match self {
            IrError::EmptyVariables => IrErrorV::EmptyVariables,
            IrError::TooManyVariables(n) => IrErrorV::TooManyVariables(*n),
            IrError::DuplicateVariable(s) => IrErrorV::DuplicateVariable(s@),
            IrError::InvalidVariable(s) => IrErrorV::InvalidVariable(s@),
            IrError::IndexOutOfRange { index, variables } => IrErrorV::IndexOutOfRange { index: *index, variables: *variables },
            IrError::NextStateInInitial => IrErrorV::NextStateInInitial,
            IrError::NextStateInProperty => IrErrorV::NextStateInProperty,
            IrError::ConfigurationIdentityMismatch { expected, actual } =>
                IrErrorV::ConfigurationIdentityMismatch { expected: expected@, actual: actual@ },
        }
    }
}

/// The text that describes an error.
pub open spec fn ir_error_text(e: IrErrorV) -> Seq<char> {
    match e {
        IrErrorV::EmptyVariables => "a finite verification condition needs a variable"@,
        IrErrorV::TooManyVariables(n) => decimal(n as nat) + " Boolean variables exceed the exact-enumeration limit of 20"@,
        IrErrorV::DuplicateVariable(name) => "duplicate variable "@ + debug_text(name),
        IrErrorV::InvalidVariable(name) => "invalid variable name "@ + debug_text(name),
        IrErrorV::IndexOutOfRange { index, variables } =>
            "expression variable index "@ + decimal(index as nat) + " is outside 0.."@ + decimal(variables as nat),
        IrErrorV::NextStateInInitial => "initial formula contains a next-state variable"@,
        IrErrorV::NextStateInProperty => "property contains a next-state variable"@,
        IrErrorV::ConfigurationIdentityMismatch { expected, actual } =>
            "configuration identity is stale: expected "@ + expected + ", supplied "@ + actual,
    }
}

impl IrError {
    /// The text that describes the error.
    pub fn to_string(&self) -> (r: String)
        ensures
            r@ == ir_error_text(self@),
    {
        match self {
            IrError::EmptyVariables => String::from_str("a finite verification condition needs a variable"),
            IrError::TooManyVariables(n) =>
                usize_string(*n).concat(" Boolean variables exceed the exact-enumeration limit of 20"),
            IrError::DuplicateVariable(name) =>
                String::from_str("duplicate variable ").concat(crate::text::debug_string(name.as_str()).as_str()),
            IrError::InvalidVariable(name) =>
                String::from_str("invalid variable name ").concat(crate::text::debug_string(name.as_str()).as_str()),
            IrError::IndexOutOfRange { index, variables } => String::from_str("expression variable index ")
                .concat(usize_string(*index).as_str()).concat(" is outside 0..").concat(usize_string(*variables).as_str()),
            IrError::NextStateInInitial => String::from_str("initial formula contains a next-state variable"),
            IrError::NextStateInProperty => String::from_str("property contains a next-state variable"),
            IrError::ConfigurationIdentityMismatch { expected, actual } =>
                String::from_str("configuration identity is stale: expected ").concat(expected.as_str())
                    .concat(", supplied ").concat(actual.as_str()),
        }
    }

    pub fn copy(&self) -> (r: IrError)
        ensures
            r@ == self@,
    {
        match self {
            IrError::EmptyVariables => IrError::EmptyVariables,
            IrError::TooManyVariables(n) => IrError::TooManyVariables(*n),
            IrError::DuplicateVariable(s) => IrError::DuplicateVariable(s.clone()),
            IrError::InvalidVariable(s) => IrError::InvalidVariable(s.clone()),
            IrError::IndexOutOfRange { index, variables } => IrError::IndexOutOfRange { index: *index, variables: *variables },
            IrError::NextStateInInitial => IrError::NextStateInInitial,
            IrError::NextStateInProperty => IrError::NextStateInProperty,
            IrError::ConfigurationIdentityMismatch { expected, actual } =>
                IrError::ConfigurationIdentityMismatch { expected: expected.copy(), actual: actual.copy() },
        }
    }
}

/// The first fault of `e` in a left-to-right walk, for a condition with
/// `n` variables: a variable index out of range, or a next-state variable
/// where none is allowed, reported as `next_error`.
pub open spec fn expr_fault(e: BoolExpr, n: usize, allow_next: bool, next_error: IrErrorV) -> Option<IrErrorV>
    decreases e,
{
    match e {
        BoolExpr::Const(_) => None,
        BoolExpr::Var(StateRef::Current(i)) => if i < n { None } else { Some(IrErrorV::IndexOutOfRange { index: i, variables: n }) },
        BoolExpr::Var(StateRef::Next(i)) => if i >= n {
            Some(IrErrorV::IndexOutOfRange { index: i, variables: n })
        } else if allow_next {
            None
        } else {
            Some(next_error)
        },
        BoolExpr::Not(x) => expr_fault(*x, n, allow_next, next_error),
        BoolExpr::And(items) => items_fault(items@, n, allow_next, next_error),
        BoolExpr::Or(items) => items_fault(items@, n, allow_next, next_error),
        BoolExpr::Implies(a, b) => if expr_fault(*a, n, allow_next, next_error) is Some {
            expr_fault(*a, n, allow_next, next_error)
        } else {
            expr_fault(*b, n, allow_next, next_error)
        },
        BoolExpr::Iff(a, b) => if expr_fault(*a, n, allow_next, next_error) is Some {
            expr_fault(*a, n, allow_next, next_error)
        } else {
            expr_fault(*b, n, allow_next, next_error)
        },
    }
}

pub open spec fn items_fault(s: Seq<BoolExpr>, n: usize, allow_next: bool, next_error: IrErrorV) -> Option<IrErrorV>
    decreases s,
{
    if s.len() == 0 {
        None
    } else if items_fault(s.drop_last(), n, allow_next, next_error) is Some {
        items_fault(s.drop_last(), n, allow_next, next_error)
    } else {
        expr_fault(s.last(), n, allow_next, next_error)
    }
}

/// An expression without faults names only variables below `n`.
pub proof fn lemma_fault_free_below(e: BoolExpr, n: usize, allow_next: bool, next_error: IrErrorV)
    requires
        expr_fault(e, n, allow_next, next_error) is None,
    ensures
        refs_below(e, n as nat),
    decreases e,
{
    match e {
        BoolExpr::Not(x) => lemma_fault_free_below(*x, n, allow_next, next_error),
        BoolExpr::And(items) => lemma_items_fault_free_below(items@, n, allow_next, next_error),
        BoolExpr::Or(items) => lemma_items_fault_free_below(items@, n, allow_next, next_error),
        BoolExpr::Implies(a, b) => {
            lemma_fault_free_below(*a, n, allow_next, next_error);
            lemma_fault_free_below(*b, n, allow_next, next_error);
        },
        BoolExpr::Iff(a, b) => {
            lemma_fault_free_below(*a, n, allow_next, next_error);
            lemma_fault_free_below(*b, n, allow_next, next_error);
        },
        _ => {},
    }
}

pub proof fn lemma_items_fault_free_below(s: Seq<BoolExpr>, n: usize, allow_next: bool, next_error: IrErrorV)
    requires
        items_fault(s, n, allow_next, next_error) is None,
    ensures
        all_below(s, n as nat),
    decreases s,
{
    if s.len() > 0 {
        lemma_items_fault_free_below(s.drop_last(), n, allow_next, next_error);
        lemma_fault_free_below(s.last(), n, allow_next, next_error);
    }
}

/// Below `m` implies below any `n >= m`.
pub proof fn lemma_below_mono(e: BoolExpr, m: nat, n: nat)
    requires
        refs_below(e, m),
        m <= n,
    ensures
        refs_below(e, n),
    decreases e,
{
    match e {
        BoolExpr::Not(x) => lemma_below_mono(*x, m, n),
        BoolExpr::And(items) => lemma_all_below_mono(items@, m, n),
        BoolExpr::Or(items) => lemma_all_below_mono(items@, m, n),
        BoolExpr::Implies(a, b) => {
            lemma_below_mono(*a, m, n);
            lemma_below_mono(*b, m, n);
        },
        BoolExpr::Iff(a, b) => {
            lemma_below_mono(*a, m, n);
            lemma_below_mono(*b, m, n);
        },
        _ => {},
    }
}

pub proof fn lemma_all_below_mono(s: Seq<BoolExpr>, m: nat, n: nat)
    requires
        all_below(s, m),
        m <= n,
    ensures
        all_below(s, n),
    decreases s,
{
    if s.len() > 0 {
        lemma_all_below_mono(s.drop_last(), m, n);
        lemma_below_mono(s.last(), m, n);
    }
}

fn next_fault(property: bool) -> (r: IrError)
    ensures
        r@ == if property { IrErrorV::NextStateInProperty } else { IrErrorV::NextStateInInitial },
{
    if property { IrError::NextStateInProperty } else { IrError::NextStateInInitial }
}

pub open spec fn next_fault_view(property: bool) -> IrErrorV {
    if property { IrErrorV::NextStateInProperty } else { IrErrorV::NextStateInInitial }
}

/// Checks `e` for a condition with `variables` variables; a next-state
/// variable, where `allow_next` is false, is reported as being in the
/// property if `property` holds and in the initial formula otherwise.
fn validate_expr(e: &BoolExpr, variables: usize, allow_next: bool, property: bool) -> (r: Result<(), IrError>)
    ensures
        r is Ok <==> expr_fault(*e, variables, allow_next, next_fault_view(property)) is None,
        r matches Err(x) ==> expr_fault(*e, variables, allow_next, next_fault_view(property)) == Some(x@),
    decreases e,
{
    match e {
        BoolExpr::Const(_) => Ok(()),
        BoolExpr::Var(StateRef::Current(i)) => {
            if *i < variables {
                Ok(())
            } else {
                Err(IrError::IndexOutOfRange { index: *i, variables })
            }
        },
        BoolExpr::Var(StateRef::Next(i)) => {
            if *i >= variables {
                Err(IrError::IndexOutOfRange { index: *i, variables })
            } else if allow_next {
                Ok(())
            } else {
                Err(next_fault(property))
            }
        },
        BoolExpr::Not(x) => validate_expr(x, variables, allow_next, property),
        BoolExpr::And(items) => validate_items(items, variables, allow_next, property),
        BoolExpr::Or(items) => validate_items(items, variables, allow_next, property),
        BoolExpr::Implies(a, b) => {
            match validate_expr(a, variables, allow_next, property) {
                Err(x) => Err(x),
                Ok(()) => validate_expr(b, variables, allow_next, property),
            }
        },
        BoolExpr::Iff(a, b) => {
            match validate_expr(a, variables, allow_next, property) {
                Err(x) => Err(x),
                Ok(()) => validate_expr(b, variables, allow_next, property),
            }
        },
    }
}

fn validate_items(items: &Vec<BoolExpr>, variables: usize, allow_next: bool, property: bool) -> (r: Result<(), IrError>)
    ensures
        r is Ok <==> items_fault(items@, variables, allow_next, next_fault_view(property)) is None,
        r matches Err(x) ==> items_fault(items@, variables, allow_next, next_fault_view(property)) == Some(x@),
    decreases items,
{
    let ghost ne = next_fault_view(property);
    let mut k: usize = 0;
    while k < items.len()
        invariant
            k <= items@.len(),
            items_fault(items@.subrange(0, k as int), variables, allow_next, ne) is None,
        decreases items@.len() - k,
    {
        proof {
            assert(decreases_to!(items => items@[k as int]));
            assert(items@.subrange(0, k + 1).drop_last() =~= items@.subrange(0, k as int));
        }
        match validate_expr(&items[k], variables, allow_next, property) {
            Err(x) => {
                proof {
                    lemma_items_fault_prefix(items@, variables, allow_next, ne, k + 1);
                }
                return Err(x);
            },
            Ok(()) => {},
        }
        k = k + 1;
    }
    proof {
        assert(items@.subrange(0, items@.len() as int) =~= items@);
    }
    Ok(())
}

/// A fault in a prefix is the fault of the whole sequence.
proof fn lemma_items_fault_prefix(s: Seq<BoolExpr>, n: usize, allow_next: bool, ne: IrErrorV, k: int)
    requires
        0 <= k <= s.len(),
        items_fault(s.subrange(0, k), n, allow_next, ne) is Some,
    ensures
        items_fault(s, n, allow_next, ne) == items_fault(s.subrange(0, k), n, allow_next, ne),
    decreases s.len() - k,
{
    if k < s.len() {
        assert(s.subrange(0, k + 1).drop_last() =~= s.subrange(0, k));
        lemma_items_fault_prefix(s, n, allow_next, ne, k + 1);
    } else {
        assert(s.subrange(0, k) =~= s);
    }
}

/// The canonical text of an expression.
pub open spec fn canon(e: BoolExpr) -> Seq<char>
    decreases e,
{
    match e {
        BoolExpr::Const(b) => if b { "true"@ } else { "false"@ },
        BoolExpr::Var(StateRef::Current(i)) => "(cur "@ + decimal(i as nat) + ")"@,
        BoolExpr::Var(StateRef::Next(i)) => "(next "@ + decimal(i as nat) + ")"@,
        BoolExpr::Not(x) => "(not "@ + canon(*x) + ")"@,
        BoolExpr::And(items) => "(and"@ + canon_items(items@) + ")"@,
        BoolExpr::Or(items) => "(or"@ + canon_items(items@) + ")"@,
        BoolExpr::Implies(a, b) => "(implies "@ + canon(*a) + " "@ + canon(*b) + ")"@,
        BoolExpr::Iff(a, b) => "(iff "@ + canon(*a) + " "@ + canon(*b) + ")"@,
    }
}

/// Each expression of `s`, preceded by a space.
pub open spec fn canon_items(s: Seq<BoolExpr>) -> Seq<char>
    decreases s,
{
    if s.len() == 0 {
        Seq::empty()
    } else {
        canon_items(s.drop_last()) + " "@ + canon(s.last())
    }
}

impl BoolExpr {
    /// Appends the canonical text of the expression to `output`.
    pub fn write_canonical(&self, output: &mut String)
        ensures
            final(output)@ == old(output)@ + canon(*self),
        decreases self,
    {
        match self {
            BoolExpr::Const(b) => {
                if *b {
                    output.append("true");
                } else {
                    output.append("false");
                }
            },
            BoolExpr::Var(StateRef::Current(i)) => {
                output.append("(cur ");
                output.append(usize_string(*i).as_str());
                output.append(")");
            },
            BoolExpr::Var(StateRef::Next(i)) => {
                output.append("(next ");
                output.append(usize_string(*i).as_str());
                output.append(")");
            },
            BoolExpr::Not(x) => {
                output.append("(not ");
                x.write_canonical(output);
                output.append(")");
            },
            BoolExpr::And(items) => {
                output.append("(and");
                write_items(items, output);
                output.append(")");
            },
            BoolExpr::Or(items) => {
                output.append("(or");
                write_items(items, output);
                output.append(")");
            },
            BoolExpr::Implies(a, b) => {
                output.append("(implies ");
                a.write_canonical(output);
                output.append(" ");
                b.write_canonical(output);
                output.append(")");
            },
            BoolExpr::Iff(a, b) => {
                output.append("(iff ");
                a.write_canonical(output);
                output.append(" ");
                b.write_canonical(output);
                output.append(")");
            },
        }
        proof {
            assert(output@ =~= old(output)@ + canon(*self));
        }
    }
}

fn write_items(items: &Vec<BoolExpr>, output: &mut String)
    ensures
        final(output)@ == old(output)@ + canon_items(items@),
    decreases items,
{
    let ghost start = output@;
    let mut k: usize = 0;
    proof {
        assert(output@ =~= start + canon_items(items@.subrange(0, 0)));
    }
    while k < items.len()
        invariant
            k <= items@.len(),
            output@ == start + canon_items(items@.subrange(0, k as int)),
        decreases items@.len() - k,
    {
        proof {
            assert(decreases_to!(items => items@[k as int]));
        }
        output.append(" ");
        items[k].write_canonical(output);
        proof {
            assert(items@.subrange(0, k + 1).drop_last() =~= items@.subrange(0, k as int));
            assert(output@ =~= start + canon_items(items@.subrange(0, k + 1)));
        }
        k = k + 1;
    }
    proof {
        assert(items@.subrange(0, items@.len() as int) =~= items@);
    }
}

pub open spec fn text_views(s: Seq<String>) -> Seq<Seq<char>> {
    s.map_values(|x: String| x@)
}

/// `u` lists the texts of `s` in increasing order, each once.
pub open spec fn sorted_distinct(u: Seq<Seq<char>>, s: Seq<Seq<char>>) -> bool {
    &&& forall|i: int, j: int| 0 <= i < j < u.len() ==> seq_lt(u[i], u[j])
    &&& forall|x: Seq<char>| u.contains(x) <==> s.contains(x)
}

/// The texts of `s` in increasing order, each once.
pub open spec fn canonical_set(s: Seq<Seq<char>>) -> Seq<Seq<char>> {
    choose|u: Seq<Seq<char>>| sorted_distinct(u, s)
}

/// At most one sequence lists a set of texts in increasing order.
pub proof fn lemma_sorted_distinct_unique(a: Seq<Seq<char>>, b: Seq<Seq<char>>, s: Seq<Seq<char>>)
    requires
        sorted_distinct(a, s),
        sorted_distinct(b, s),
    ensures
        a == b,
    decreases a.len() + b.len(),
{
    if a.len() == 0 {
        if b.len() > 0 {
            assert(b.contains(b[0]));
        }
        assert(a =~= b);
    } else if b.len() == 0 {
        assert(a.contains(a[0]));
    } else {
        assert(a.contains(a[0]));
        assert(b.contains(b[0]));
        let j = choose|j: int| 0 <= j < b.len() && b[j] == a[0];
        let i = choose|i: int| 0 <= i < a.len() && a[i] == b[0];
        if a[0] != b[0] {
            assert(i > 0 && j > 0);
            crate::text::lemma_seq_lt_transitive(a[0], b[0], a[0]);
            crate::text::lemma_seq_lt_irreflexive(a[0]);
        }
        let ta = a.drop_first();
        let tb = b.drop_first();
        assert forall|x: Seq<char>| ta.contains(x) <==> (a.contains(x) && x != a[0]) by {
            if ta.contains(x) {
                let w = choose|w: int| 0 <= w < ta.len() && ta[w] == x;
                assert(a[w + 1] == x);
                crate::text::lemma_seq_lt_irreflexive(a[0]);
            }
            if a.contains(x) && x != a[0] {
                let w = choose|w: int| 0 <= w < a.len() && a[w] == x;
                assert(ta[w - 1] == x);
            }
        }
        assert forall|x: Seq<char>| tb.contains(x) <==> (b.contains(x) && x != b[0]) by {
            if tb.contains(x) {
                let w = choose|w: int| 0 <= w < tb.len() && tb[w] == x;
                assert(b[w + 1] == x);
                crate::text::lemma_seq_lt_irreflexive(b[0]);
            }
            if b.contains(x) && x != b[0] {
                let w = choose|w: int| 0 <= w < b.len() && b[w] == x;
                assert(tb[w - 1] == x);
            }
        }
        assert forall|x: Seq<char>| tb.contains(x) <==> ta.contains(x) by {
            assert(a.contains(x) <==> s.contains(x));
            assert(b.contains(x) <==> s.contains(x));
        }
        lemma_sorted_distinct_unique(ta, tb, ta);
        assert(a =~= seq![a[0]] + ta);
        assert(b =~= seq![b[0]] + tb);
    }
}

/// A `key:length:value` line, the length counted in UTF-8 bytes.
pub open spec fn length_prefixed(key: Seq<char>, value: Seq<char>) -> Seq<char> {
    key + ":"@ + decimal(encode_utf8(value).len()) + ":"@ + value + "\n"@
}

/// One `key:length:value` line for each text of `u`.
pub open spec fn prefixed_lines(key: Seq<char>, u: Seq<Seq<char>>) -> Seq<char>
    decreases u.len(),
{
    if u.len() == 0 {
        Seq::empty()
    } else {
        prefixed_lines(key, u.drop_last()) + length_prefixed(key, u.last())
    }
}

pub open spec fn bool_text(b: bool) -> Seq<char> {
    if b { "true"@ } else { "false"@ }
}

/// The canonical text of a configuration whose assumptions, sorted and
/// without repeats, are `u`.
pub open spec fn config_text(finite_domain: bool, terminal_stutter: bool, u: Seq<Seq<char>>) -> Seq<char> {
    "nmlt-verification-config/1\nfinite_domain="@ + bool_text(finite_domain) + "\nterminal_stutter="@ + bool_text(terminal_stutter)
        + "\n"@ + prefixed_lines("assumption"@, u)
}

/// The identity of a configuration.
pub open spec fn config_id(c: VerificationConfig) -> Seq<char> {
    id_text(encode_utf8(config_text(c.finite_domain, c.terminal_stutter, canonical_set(text_views(c.assumptions@)))))
}

/// Two configurations with the same flags and the same assumptions, in any
/// order and with any repeats, have the same identity.
pub proof fn config_identity_ignores_assumption_order(a: VerificationConfig, b: VerificationConfig)
    requires
        a.finite_domain == b.finite_domain,
        a.terminal_stutter == b.terminal_stutter,
        forall|x: Seq<char>| text_views(a.assumptions@).contains(x) <==> text_views(b.assumptions@).contains(x),
    ensures
        config_id(a) == config_id(b),
{
    let sa = text_views(a.assumptions@);
    let sb = text_views(b.assumptions@);
    lemma_sorted_texts(sa);
    let w = sorted_texts(sa);
    assert(sorted_distinct(canonical_set(sa), sa));
    assert(sorted_distinct(w, sb));
    assert(sorted_distinct(canonical_set(sb), sb));
    lemma_sorted_distinct_unique(canonical_set(sa), canonical_set(sb), sb);
}

/// `u` with `x` put in its place, unless `u` holds it already.
pub open spec fn insert_text(u: Seq<Seq<char>>, x: Seq<char>) -> Seq<Seq<char>>
    decreases u.len(),
{
    if u.len() == 0 {
        seq![x]
    } else if u[0] == x {
        u
    } else if seq_lt(x, u[0]) {
        seq![x] + u
    } else {
        seq![u[0]] + insert_text(u.drop_first(), x)
    }
}

/// The texts of `s` in increasing order, each once, built by insertion.
pub open spec fn sorted_texts(s: Seq<Seq<char>>) -> Seq<Seq<char>>
    decreases s.len(),
{
    if s.len() == 0 {
        Seq::empty()
    } else {
        insert_text(sorted_texts(s.drop_last()), s.last())
    }
}

pub open spec fn strictly_sorted_texts(u: Seq<Seq<char>>) -> bool {
    forall|i: int, j: int| 0 <= i < j < u.len() ==> seq_lt(u[i], u[j])
}

proof fn lemma_insert_text(u: Seq<Seq<char>>, x: Seq<char>)
    requires
        strictly_sorted_texts(u),
    ensures
        strictly_sorted_texts(insert_text(u, x)),
        forall|y: Seq<char>| #[trigger] insert_text(u, x).contains(y) <==> (u.contains(y) || y == x),
        insert_text(u, x).len() > 0 && (insert_text(u, x)[0] == x || (u.len() > 0 && insert_text(u, x)[0] == u[0])),
    decreases u.len(),
{
    let v = insert_text(u, x);
    if u.len() == 0 {
        assert(v =~= seq![x]);
        assert forall|y: Seq<char>| v.contains(y) <==> (u.contains(y) || y == x) by {
            if v.contains(y) {
                assert(v[0] == x);
            }
            if y == x {
                assert(v[0] == y);
            }
        }
    } else if u[0] == x {
        assert forall|y: Seq<char>| v.contains(y) <==> (u.contains(y) || y == x) by {
            if y == x {
                assert(u[0] == y);
            }
        }
    } else if seq_lt(x, u[0]) {
        assert forall|i: int, j: int| 0 <= i < j < v.len() implies seq_lt(v[i], v[j]) by {
            if i == 0 {
                assert(v[j] == u[j - 1]);
                if j - 1 > 0 {
                    assert(seq_lt(u[0], u[j - 1]));
                    crate::text::lemma_seq_lt_transitive(x, u[0], u[j - 1]);
                }
            } else {
                assert(v[i] == u[i - 1] && v[j] == u[j - 1]);
            }
        }
        assert forall|y: Seq<char>| v.contains(y) <==> (u.contains(y) || y == x) by {
            if v.contains(y) {
                let k = choose|k: int| 0 <= k < v.len() && v[k] == y;
                if k > 0 {
                    assert(u[k - 1] == y);
                }
            }
            if u.contains(y) {
                let k = choose|k: int| 0 <= k < u.len() && u[k] == y;
                assert(v[k + 1] == y);
            }
            if y == x {
                assert(v[0] == y);
            }
        }
    } else {
        let t = u.drop_first();
        assert(strictly_sorted_texts(t)) by {
            assert forall|i: int, j: int| 0 <= i < j < t.len() implies seq_lt(t[i], t[j]) by {
                assert(t[i] == u[i + 1] && t[j] == u[j + 1]);
            }
        }
        lemma_insert_text(t, x);
        let it = insert_text(t, x);
        crate::text::lemma_seq_lt_total(x, u[0]);
        assert(seq_lt(u[0], x));
        assert forall|k: int| 0 <= k < it.len() implies seq_lt(u[0], it[k]) by {
            assert(it.contains(it[k]));
            if it[k] == x {
            } else {
                assert(t.contains(it[k]));
                let m = choose|m: int| 0 <= m < t.len() && t[m] == it[k];
                assert(u[m + 1] == it[k]);
            }
        }
        assert(v == seq![u[0]] + it);
        assert forall|i: int, j: int| 0 <= i < j < v.len() implies seq_lt(v[i], v[j]) by {
            if i == 0 {
                assert(v[j] == it[j - 1]);
            } else {
                assert(v[i] == it[i - 1] && v[j] == it[j - 1]);
            }
        }
        assert forall|y: Seq<char>| v.contains(y) <==> (u.contains(y) || y == x) by {
            if v.contains(y) {
                let k = choose|k: int| 0 <= k < v.len() && v[k] == y;
                if k > 0 {
                    assert(it[k - 1] == y);
                    assert(it.contains(y));
                    if t.contains(y) {
                        let m = choose|m: int| 0 <= m < t.len() && t[m] == y;
                        assert(u[m + 1] == y);
                    }
                } else {
                    assert(u[0] == y);
                }
            }
            if u.contains(y) {
                let k = choose|k: int| 0 <= k < u.len() && u[k] == y;
                if k == 0 {
                    assert(v[0] == y);
                } else {
                    assert(t[k - 1] == y);
                    assert(t.contains(y));
                    assert(it.contains(y) <==> (t.contains(y) || y == x));
                    assert(it.contains(y));
                    let m = choose|m: int| 0 <= m < it.len() && it[m] == y;
                    assert(v[m + 1] == y);
                }
            }
            if y == x {
                assert(it.contains(y) <==> (t.contains(y) || y == x));
                assert(it.contains(y));
                let m = choose|m: int| 0 <= m < it.len() && it[m] == y;
                assert(v[m + 1] == y);
            }
        }
    }
}

proof fn lemma_sorted_texts(s: Seq<Seq<char>>)
    ensures
        sorted_distinct(sorted_texts(s), s),
    decreases s.len(),
{
    if s.len() > 0 {
        let d = s.drop_last();
        lemma_sorted_texts(d);
        lemma_insert_text(sorted_texts(d), s.last());
        assert forall|y: Seq<char>| sorted_texts(s).contains(y) <==> s.contains(y) by {
            if d.contains(y) {
                let k = choose|k: int| 0 <= k < d.len() && d[k] == y;
                assert(s[k] == y);
            }
            if s.contains(y) {
                let k = choose|k: int| 0 <= k < s.len() && s[k] == y;
                if k < s.len() - 1 {
                    assert(d[k] == y);
                }
            }
        }
    }
}

fn append_prefixed(output: &mut String, key: &str, value: &str)
    ensures
        final(output)@ == old(output)@ + length_prefixed(key@, value@),
{
    let len = value.as_bytes().len();
    output.append(key);
    output.append(":");
    output.append(usize_string(len).as_str());
    output.append(":");
    output.append(value);
    output.append("\n");
    proof {
        assert(output@ =~= old(output)@ + length_prefixed(key@, value@));
    }
}

fn bool_str(b: bool) -> (r: &'static str)
    ensures
        r@ == bool_text(b),
{
    if b { "true" } else { "false" }
}

#[derive(Clone, Debug, PartialEq, Eq)]
pub struct VerificationIdentity {
    pub model: Sha256Id,
    pub claim: Sha256Id,
    pub configuration: Sha256Id,
}

#[derive(Clone, Debug, PartialEq, Eq)]
pub struct VerificationConfig {
    pub finite_domain: bool,
    pub terminal_stutter: bool,
    pub assumptions: Vec<String>,
}

impl VerificationConfig {
    /// The identity of the configuration: the digest of its canonical
    /// text, in which each assumption appears once, in increasing order.
    pub fn identity(&self) -> (r: Sha256Id)
        ensures
            r@ == config_id(*self),
    {
        let ghost s = text_views(self.assumptions@);
        let mut set: StrMap<()> = StrMap::new();
        let mut i: usize = 0;
        while i < self.assumptions.len()
            invariant
                s == text_views(self.assumptions@),
                i <= self.assumptions@.len(),
                sorted_keys(set@),
                forall|k: Seq<char>| #[trigger] has_key(set@, k) <==> s.subrange(0, i as int).contains(k),
            decreases self.assumptions@.len() - i,
        {
            let ghost before = set@;
            set.insert(self.assumptions[i].clone(), ());
            proof {
                assert forall|k: Seq<char>| #[trigger] has_key(set@, k) <==> s.subrange(0, i + 1).contains(k) by {
                    assert(s.subrange(0, i + 1) =~= s.subrange(0, i as int).push(s[i as int]));
                    assert(has_key(before, k) <==> s.subrange(0, i as int).contains(k));
                    if s.subrange(0, i + 1).contains(k) && k != s[i as int] {
                        let w = choose|w: int| 0 <= w < i + 1 && #[trigger] s.subrange(0, i + 1)[w] == k;
                        assert(s.subrange(0, i as int)[w] == k);
                    }
                    if s.subrange(0, i as int).contains(k) {
                        let w = choose|w: int| 0 <= w < i && #[trigger] s.subrange(0, i as int)[w] == k;
                        assert(s.subrange(0, i + 1)[w] == k);
                    }
                    if k == s[i as int] {
                        assert(s.subrange(0, i + 1)[i as int] == k);
                    }
                }
            }
            i = i + 1;
        }
        let entries = set.entries();
        let ghost u = key_seq(set@);
        proof {
            assert(s.subrange(0, s.len() as int) =~= s);
            assert forall|x: Seq<char>| u.contains(x) <==> s.contains(x) by {
                crate::open::lemma_key_seq_contains(set@, x);
            }
            assert(sorted_distinct(u, s));
            lemma_sorted_distinct_unique(u, canonical_set(s), s);
        }
        let mut canonical = String::from_str("nmlt-verification-config/1\nfinite_domain=");
        canonical.append(bool_str(self.finite_domain));
        canonical.append("\nterminal_stutter=");
        canonical.append(bool_str(self.terminal_stutter));
        canonical.append("\n");
        let ghost head = canonical@;
        let mut k: usize = 0;
        proof {
            assert(canonical@ =~= head + prefixed_lines("assumption"@, u.subrange(0, 0)));
        }
        while k < entries.len()
            invariant
                entries_of(entries@) == u,
                k <= entries@.len(),
                canonical@ == head + prefixed_lines("assumption"@, u.subrange(0, k as int)),
            decreases entries@.len() - k,
        {
            append_prefixed(&mut canonical, "assumption", entries[k].0.as_str());
            proof {
                assert(u[k as int] == entries@[k as int].0@);
                assert(u.subrange(0, k + 1).drop_last() =~= u.subrange(0, k as int));
                assert(canonical@ =~= head + prefixed_lines("assumption"@, u.subrange(0, k + 1)));
            }
            k = k + 1;
        }
        proof {
            assert(u.subrange(0, u.len() as int) =~= u);
            assert(canonical@ =~= config_text(self.finite_domain, self.terminal_stutter, canonical_set(s)));
        }
        Sha256Id::digest(canonical.as_str().as_bytes())
    }
}

pub open spec fn entries_of(e: Seq<(String, ())>) -> Seq<Seq<char>> {
    e.map_values(|p: (String, ())| p.0@)
}

#[derive(Clone, Debug, PartialEq, Eq)]
pub struct FiniteSafetyVc {
    pub identity: VerificationIdentity,
    pub config: VerificationConfig,
    pub variables: Vec<String>,
    pub initial: BoolExpr,
    pub transition: BoolExpr,
    pub property: BoolExpr,
}

/// A character of a variable name: an ASCII letter or digit, or `_`.
pub open spec fn name_char(c: char) -> bool {
    ('a' <= c && c <= 'z') || ('A' <= c && c <= 'Z') || ('0' <= c && c <= '9') || c == '_'
}

pub open spec fn valid_name(s: Seq<char>) -> bool {
    s.len() > 0 && forall|i: int| 0 <= i < s.len() ==> name_char(#[trigger] s[i])
}

/// The fault of the `i`th variable name: invalid, or a repeat of an
/// earlier one.
pub open spec fn name_fault(names: Seq<Seq<char>>, i: int) -> Option<IrErrorV> {
    if !valid_name(names[i]) {
        Some(IrErrorV::InvalidVariable(names[i]))
    } else if names.subrange(0, i).contains(names[i]) {
        Some(IrErrorV::DuplicateVariable(names[i]))
    } else {
        None
    }
}

/// The first fault among the variable names from the `i`th on.
pub open spec fn names_fault(names: Seq<Seq<char>>, i: int) -> Option<IrErrorV>
    decreases names.len() - i,
{
    if i < 0 || i >= names.len() {
        None
    } else if name_fault(names, i) is Some {
        name_fault(names, i)
    } else {
        names_fault(names, i + 1)
    }
}

/// The first fault of `vc`, in the order: variables, the initial formula,
/// the transition relation, the property, the configuration identity.
pub open spec fn vc_fault(vc: FiniteSafetyVc) -> Option<IrErrorV> {
    let names = text_views(vc.variables@);
    let n = vc.variables@.len();
    if n == 0 {
        Some(IrErrorV::EmptyVariables)
    } else if n > MAX_VARIABLES {
        Some(IrErrorV::TooManyVariables(n as usize))
    } else if names_fault(names, 0) is Some {
        names_fault(names, 0)
    } else if expr_fault(vc.initial, n as usize, false, IrErrorV::NextStateInInitial) is Some {
        expr_fault(vc.initial, n as usize, false, IrErrorV::NextStateInInitial)
    } else if expr_fault(vc.transition, n as usize, true, IrErrorV::NextStateInInitial) is Some {
        expr_fault(vc.transition, n as usize, true, IrErrorV::NextStateInInitial)
    } else if expr_fault(vc.property, n as usize, false, IrErrorV::NextStateInProperty) is Some {
        expr_fault(vc.property, n as usize, false, IrErrorV::NextStateInProperty)
    } else if config_id(vc.config) != vc.identity.configuration@ {
        Some(IrErrorV::ConfigurationIdentityMismatch { expected: config_id(vc.config), actual: vc.identity.configuration@ })
    } else {
        None
    }
}

/// `vc` is valid: its formulas name only its variables, and there are at
/// most `MAX_VARIABLES` of them.
pub open spec fn vc_valid(vc: FiniteSafetyVc) -> bool {
    vc_fault(vc) is None
}

/// The canonical text of a condition.
pub open spec fn vc_text(vc: FiniteSafetyVc) -> Seq<char> {
    VC_SCHEMA@ + "\n"@ + length_prefixed("model"@, vc.identity.model@) + length_prefixed("claim"@, vc.identity.claim@)
        + length_prefixed("configuration"@, vc.identity.configuration@) + prefixed_lines("var"@, text_views(vc.variables@))
        + "initial:"@ + canon(vc.initial) + "\n"@ + "transition:"@ + canon(vc.transition) + "\n"@
        + "property:"@ + canon(vc.property) + "\n"@
}

/// The identity of a valid condition.
pub open spec fn vc_digest(vc: FiniteSafetyVc) -> Seq<char> {
    id_text(encode_utf8(vc_text(vc)))
}

/// The number of valuations of `n` variables.
pub open spec fn valuations(n: nat) -> nat {
    vstd::arithmetic::power2::pow2(n)
}

/// A valid condition's formulas name variables below `MAX_VARIABLES`.
pub proof fn lemma_valid_refs(vc: FiniteSafetyVc)
    requires
        vc_valid(vc),
    ensures
        vc.variables@.len() <= MAX_VARIABLES,
        refs_below(vc.initial, MAX_VARIABLES as nat),
        refs_below(vc.transition, MAX_VARIABLES as nat),
        refs_below(vc.property, MAX_VARIABLES as nat),
        refs_below(vc.initial, vc.variables@.len()),
        refs_below(vc.transition, vc.variables@.len()),
        refs_below(vc.property, vc.variables@.len()),
{
    let n = vc.variables@.len();
    lemma_fault_free_below(vc.initial, n as usize, false, IrErrorV::NextStateInInitial);
    lemma_fault_free_below(vc.transition, n as usize, true, IrErrorV::NextStateInInitial);
    lemma_fault_free_below(vc.property, n as usize, false, IrErrorV::NextStateInProperty);
    lemma_below_mono(vc.initial, n, MAX_VARIABLES as nat);
    lemma_below_mono(vc.transition, n, MAX_VARIABLES as nat);
    lemma_below_mono(vc.property, n, MAX_VARIABLES as nat);
}

fn is_valid_name(name: &str) -> (r: bool)
    ensures
        r == valid_name(name@),
{
    let n = name.unicode_len();
    if n == 0 {
        return false;
    }
    let mut i: usize = 0;
    while i < n
        invariant
            n == name@.len(),
            i <= n,
            forall|j: int| 0 <= j < i ==> name_char(#[trigger] name@[j]),
        decreases n - i,
    {
        let c = name.get_char(i);
        if !(('a' <= c && c <= 'z') || ('A' <= c && c <= 'Z') || ('0' <= c && c <= '9') || c == '_') {
            return false;
        }
        i = i + 1;
    }
    true
}

impl FiniteSafetyVc {
    /// Checks the condition; the error is its first fault, as `vc_fault`
    /// orders them.
    pub fn validate(&self) -> (r: Result<(), IrError>)
        ensures
            r is Ok <==> vc_fault(*self) is None,
            r matches Err(e) ==> vc_fault(*self) == Some(e@),
    {
        let n = self.variables.len();
        if n == 0 {
            return Err(IrError::EmptyVariables);
        }
        if n > MAX_VARIABLES {
            return Err(IrError::TooManyVariables(n));
        }
        let ghost names = text_views(self.variables@);
        let mut seen: StrMap<()> = StrMap::new();
        let mut i: usize = 0;
        while i < n
            invariant
                n == self.variables@.len(),
                names == text_views(self.variables@),
                i <= n,
                names_fault(names, 0) == names_fault(names, i as int),
                forall|k: Seq<char>| #[trigger] has_key(seen@, k) <==> names.subrange(0, i as int).contains(k),
            decreases n - i,
        {
            let name = self.variables[i].as_str();
            proof {
                assert(names[i as int] == name@);
            }
            if !is_valid_name(name) {
                return Err(IrError::InvalidVariable(self.variables[i].clone()));
            }
            if seen.contains_key(name) {
                return Err(IrError::DuplicateVariable(self.variables[i].clone()));
            }
            let ghost before = seen@;
            seen.insert(self.variables[i].clone(), ());
            proof {
                assert forall|k: Seq<char>| #[trigger] has_key(seen@, k) <==> names.subrange(0, i + 1).contains(k) by {
                    assert(has_key(before, k) <==> names.subrange(0, i as int).contains(k));
                    if names.subrange(0, i + 1).contains(k) && k != names[i as int] {
                        let w = choose|w: int| 0 <= w < i + 1 && #[trigger] names.subrange(0, i + 1)[w] == k;
                        assert(names.subrange(0, i as int)[w] == k);
                    }
                    if names.subrange(0, i as int).contains(k) {
                        let w = choose|w: int| 0 <= w < i && #[trigger] names.subrange(0, i as int)[w] == k;
                        assert(names.subrange(0, i + 1)[w] == k);
                    }
                    if k == names[i as int] {
                        assert(names.subrange(0, i + 1)[i as int] == k);
                    }
                }
            }
            i = i + 1;
        }
        match validate_expr(&self.initial, n, false, false) {
            Err(e) => return Err(e),
            Ok(()) => {},
        }
        match validate_expr(&self.transition, n, true, false) {
            Err(e) => return Err(e),
            Ok(()) => {},
        }
        match validate_expr(&self.property, n, false, true) {
            Err(e) => return Err(e),
            Ok(()) => {},
        }
        let expected = self.config.identity();
        if !expected.same(&self.identity.configuration) {
            return Err(IrError::ConfigurationIdentityMismatch { expected, actual: self.identity.configuration.copy() });
        }
        Ok(())
    }

    /// The identity of the whole condition: the digest of its canonical,
    /// length-prefixed text.
    pub fn digest(&self) -> (r: Result<Sha256Id, IrError>)
        ensures
            r is Ok <==> vc_fault(*self) is None,
            r matches Err(e) ==> vc_fault(*self) == Some(e@),
            r matches Ok(id) ==> id@ == vc_digest(*self),
    {
        match self.validate() {
            Err(e) => return Err(e),
            Ok(()) => {},
        }
        let mut canonical = String::from_str(VC_SCHEMA);
        canonical.append("\n");
        append_prefixed(&mut canonical, "model", self.identity.model.as_str());
        append_prefixed(&mut canonical, "claim", self.identity.claim.as_str());
        append_prefixed(&mut canonical, "configuration", self.identity.configuration.as_str());
        let ghost head = canonical@;
        let ghost names = text_views(self.variables@);
        let mut k: usize = 0;
        proof {
            assert(canonical@ =~= head + prefixed_lines("var"@, names.subrange(0, 0)));
        }
        while k < self.variables.len()
            invariant
                names == text_views(self.variables@),
                k <= self.variables@.len(),
                canonical@ == head + prefixed_lines("var"@, names.subrange(0, k as int)),
            decreases self.variables@.len() - k,
        {
            append_prefixed(&mut canonical, "var", self.variables[k].as_str());
            proof {
                assert(names.subrange(0, k + 1).drop_last() =~= names.subrange(0, k as int));
                assert(canonical@ =~= head + prefixed_lines("var"@, names.subrange(0, k + 1)));
            }
            k = k + 1;
        }
        proof {
            assert(names.subrange(0, names.len() as int) =~= names);
        }
        canonical.append("initial:");
        self.initial.write_canonical(&mut canonical);
        canonical.append("\n");
        canonical.append("transition:");
        self.transition.write_canonical(&mut canonical);
        canonical.append("\n");
        canonical.append("property:");
        self.property.write_canonical(&mut canonical);
        canonical.append("\n");
        proof {
            assert(canonical@ =~= vc_text(*self));
        }
        Ok(Sha256Id::digest(canonical.as_str().as_bytes()))
    }

    /// The number of valuations of the variables.
    pub fn state_count(&self) -> (r: usize)
        requires
            self.variables@.len() < usize::BITS,
        ensures
            r == valuations(self.variables@.len()),
    {
        let n = self.variables.len();
        proof {
            vstd::bits::lemma_usize_pow2_no_overflow(n as nat);
            vstd::bits::lemma_usize_shl_is_mul(1, n);
        }
        1usize << n
    }
}

} // verus!
