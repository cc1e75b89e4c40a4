//! Logical-plan rewrite: recognizes a bottom-N selector call inside a
//! projection and rewrites it into an equivalent ascending sort-with-limit
//! node, replacing the selector call in the projection by its field
//! argument.
//!
//! The rewrite errors when more than one selector call appears (a selector
//! nested inside another selector counts as a second call), and when the
//! selector's second argument is not an integer literal in `[1, 255]`.

use vstd::prelude::*;

verus! {

/// Errors the plan rewrite can report.
#[derive(Clone, Copy, PartialEq, Eq, Structural, Debug)]
pub enum PlanError {
    /// Nested or multiple selection functions in one projection.
    InvalidExprs,
    /// The selector call's arguments are not (field, k) with k an integer
    /// literal in [1, 255].
    InvalidArguments,
}

impl PlanError {
    /// Human-readable description of the error.
    pub fn message(&self) -> (r: String)
        ensures
            self is InvalidExprs ==> r@
                == "1. There cannot be nested selection functions. 2. There cannot be multiple selection functions."@,
            self is InvalidArguments ==> r@
                == "Routine not match. Maybe (field_name, k). k is integer literal value. The range of values for k is [1, 255]."@,
    {
        match self {
            PlanError::InvalidExprs => "1. There cannot be nested selection functions. 2. There cannot be multiple selection functions.".to_owned(),
            PlanError::InvalidArguments => "Routine not match. Maybe (field_name, k). k is integer literal value. The range of values for k is [1, 255].".to_owned(),
        }
    }
}

/// A literal scalar value carried by an expression.
#[derive(Clone, Copy, PartialEq, Eq, Structural, Debug)]
pub enum ScalarValue {
    Boolean(Option<bool>),
    UInt8(Option<u8>),
    UInt16(Option<u16>),
    UInt32(Option<u32>),
    UInt64(Option<u64>),
    Int8(Option<i8>),
    Int16(Option<i16>),
    Int32(Option<i32>),
    Int64(Option<i64>),
}

/// An expression of a projection: a column reference, a literal, a scalar
/// function call, or a sort expression wrapping the expression to sort on.
#[derive(Debug)]
pub enum Expr {
    Column(String),
    Literal(ScalarValue),
    ScalarUdf { name: Vec<u8>, args: Vec<Expr> },
    Sort { expr: Box<Expr>, asc: bool, nulls_first: bool },
}

/// Mathematical model of an expression.
#[verifier::ext_equal]
pub enum ExprV {
    Column(Seq<char>),
    Literal(ScalarValue),
    ScalarUdf { name: Seq<u8>, args: Seq<ExprV> },
    Sort { expr: Box<ExprV>, asc: bool, nulls_first: bool },
}

/// Model of an expression value.
pub open spec fn view_expr(e: Expr) -> ExprV
    decreases e,
{
    match e {
        Expr::Column(s) => ExprV::Column(s@),
        Expr::Literal(v) => ExprV::Literal(v),
        Expr::ScalarUdf { name, args } => ExprV::ScalarUdf {
            name: name@,
            args: view_exprs(args@),
        },
        Expr::Sort { expr, asc, nulls_first } => ExprV::Sort {
            expr: Box::new(view_expr(*expr)),
            asc,
            nulls_first,
        },
    }
}

/// Models of a sequence of expressions, elementwise.
pub open spec fn view_exprs(es: Seq<Expr>) -> Seq<ExprV>
    decreases es,
{
    if es.len() == 0 {
        Seq::empty()
    } else {
        view_exprs(es.drop_last()).push(view_expr(es.last()))
    }
}

/// The model of a sequence of expressions is elementwise.
pub proof fn lemma_view_exprs_len(es: Seq<Expr>)
    ensures
        view_exprs(es).len() == es.len(),
        forall|i: int| 0 <= i < es.len() ==> #[trigger] view_exprs(es)[i] == view_expr(es[i]),
    decreases es.len(),
{
    if es.len() > 0 {
        lemma_view_exprs_len(es.drop_last());
    }
}

/// ASCII lower-casing of one byte.
pub open spec fn spec_lower(b: u8) -> u8 {
    if 0x41 <= b <= 0x5a {
        (b + 0x20) as u8
    } else {
        b
    }
}

/// The byte string `bottom`, the recognized selector function name.
pub open spec fn bottom_name() -> Seq<u8> {
    seq![0x62u8, 0x6fu8, 0x74u8, 0x74u8, 0x6fu8, 0x6du8]
}

/// Whether a function name names the selector, ignoring ASCII case.
pub open spec fn is_selector_name(name: Seq<u8>) -> bool {
    name.map_values(|b: u8| spec_lower(b)) == bottom_name()
}

/// Executable test for [`is_selector_name`].
fn is_bottom_name(name: &Vec<u8>) -> (r: bool)
    ensures
        r == is_selector_name(name@),
{
    proof {
        assert(bottom_name().len() == 6);
        assert(bottom_name()[0] == 0x62u8);
        assert(bottom_name()[1] == 0x6fu8);
        assert(bottom_name()[2] == 0x74u8);
        assert(bottom_name()[3] == 0x74u8);
        assert(bottom_name()[4] == 0x6fu8);
        assert(bottom_name()[5] == 0x6du8);
        assert(name@.map_values(|b: u8| spec_lower(b)).len() == name@.len());
    }
    if name.len() != 6 {
        return false;
    }
    let mut i: usize = 0;
    while i < 6
        invariant
            0 <= i <= 6,
            name@.len() == 6,
            forall|j: int| 0 <= j < i ==> #[trigger] spec_lower(name@[j]) == bottom_name()[j],
        decreases 6 - i,
    {
        let b = name[i];
        let lo = if 0x41 <= b && b <= 0x5a {
            b + 0x20
        } else {
            b
        };
        let expected: u8 = if i == 0 {
            0x62
        } else if i == 1 {
            0x6f
        } else if i == 2 {
            0x74
        } else if i == 3 {
            0x74
        } else if i == 4 {
            0x6f
        } else {
            0x6d
        };
        proof {
            assert(bottom_name()[i as int] == expected);
            assert(spec_lower(name@[i as int]) == lo);
        }
        if lo != expected {
            proof {
                assert(name@.map_values(|b: u8| spec_lower(b))[i as int] == spec_lower(
                    name@[i as int],
                ));
            }
            return false;
        }
        i += 1;
    }
    proof {
        assert(name@.map_values(|b: u8| spec_lower(b)) =~= bottom_name());
    }
    true
}

/// Number of selector calls in an expression, nesting included.
pub open spec fn sel_count(e: ExprV) -> nat
    decreases e,
{
    match e {
        ExprV::ScalarUdf { name, args } => (if is_selector_name(name) {
            1nat
        } else {
            0nat
        }) + sel_count_list(args),
        ExprV::Sort { expr, .. } => sel_count(*expr),
        _ => 0,
    }
}

/// Number of selector calls in a sequence of expressions.
pub open spec fn sel_count_list(es: Seq<ExprV>) -> nat
    decreases es,
{
    if es.len() == 0 {
        0
    } else {
        sel_count(es[0]) + sel_count_list(es.drop_first())
    }
}

/// Appending one expression adds its selector count.
pub proof fn lemma_sel_count_list_push(es: Seq<ExprV>, x: ExprV)
    ensures
        sel_count_list(es.push(x)) == sel_count_list(es) + sel_count(x),
    decreases es.len(),
{
    let p = es.push(x);
    assert(p.len() == es.len() + 1);
    if es.len() == 0 {
        assert(p[0] == x);
        assert(p.drop_first() =~= Seq::<ExprV>::empty());
        assert(sel_count_list(p) == sel_count(p[0]) + sel_count_list(p.drop_first()));
        assert(sel_count_list(p.drop_first()) == 0);
        assert(sel_count_list(es) == 0);
    } else {
        assert(p[0] == es[0]);
        assert(p.drop_first() =~= es.drop_first().push(x));
        lemma_sel_count_list_push(es.drop_first(), x);
        assert(sel_count_list(p) == sel_count(p[0]) + sel_count_list(p.drop_first()));
        assert(sel_count_list(es) == sel_count(es[0]) + sel_count_list(es.drop_first()));
    }
}

/// The selector count clamped at two: the rewrite only distinguishes
/// none, one, and more than one.
pub open spec fn capped(n: nat) -> nat {
    if n >= 2 {
        2
    } else {
        n
    }
}

/// Counts selector calls in one expression, clamped at two.
fn sel_count_expr_capped(e: &Expr) -> (c: u8)
    ensures
        c as nat == capped(sel_count(view_expr(*e))),
    decreases *e, 0nat,
{
    match e {
        Expr::Column(_) => 0,
        Expr::Literal(_) => 0,
        Expr::Sort { expr, .. } => sel_count_expr_capped(expr),
        Expr::ScalarUdf { name, args } => {
            let own: u8 = if is_bottom_name(name) {
                1
            } else {
                0
            };
            let rest = sel_count_args_capped(args, 0);
            proof {
                assert(args@.subrange(0, args@.len() as int) =~= args@);
            }
            if own + rest > 2 {
                2
            } else {
                own + rest
            }
        },
    }
}

/// Counts selector calls in the expressions of `args` from position `i`
/// on, clamped at two.
fn sel_count_args_capped(args: &Vec<Expr>, i: usize) -> (c: u8)
    requires
        i <= args@.len(),
    ensures
        c as nat == capped(
            sel_count_list(view_exprs(args@.subrange(i as int, args@.len() as int))),
        ),
    decreases args@, args@.len() - i,
{
    if i == args.len() {
        proof {
            assert(args@.subrange(i as int, args@.len() as int) =~= Seq::<Expr>::empty());
        }
        0
    } else {
        proof {
            assert(decreases_to!(args@ => args@[i as int]));
        }
        let c0 = sel_count_expr_capped(&args[i]);
        let rest = sel_count_args_capped(args, i + 1);
        proof {
            let s = view_exprs(args@.subrange(i as int, args@.len() as int));
            let s1 = view_exprs(args@.subrange(i + 1, args@.len() as int));
            lemma_view_exprs_len(args@.subrange(i as int, args@.len() as int));
            lemma_view_exprs_len(args@.subrange(i + 1, args@.len() as int));
            assert(s.drop_first() =~= s1);
            assert(s[0] == view_expr(args@[i as int]));
        }
        if c0 + rest > 2 {
            2
        } else {
            c0 + rest
        }
    }
}

/// Counts selector calls across a projection's expressions, clamped at two.
fn sel_count_exprs_capped(exprs: &Vec<Expr>) -> (c: u8)
    ensures
        c as nat == capped(sel_count_list(view_exprs(exprs@))),
{
    let c = sel_count_args_capped(exprs, 0);
    proof {
        assert(exprs@.subrange(0, exprs@.len() as int) =~= exprs@);
    }
    c
}

/// Validates a projection's expressions: `Ok(false)` when no selector call
/// appears, `Ok(true)` when exactly one does, and an error when several do
/// (a selector nested inside another selector counts as a second call).
pub fn valid_exprs(exprs: &Vec<Expr>) -> (r: Result<bool, PlanError>)
    ensures
        ({
            let n = sel_count_list(view_exprs(exprs@));
            r == if n == 0 {
                Ok::<bool, PlanError>(false)
            } else if n == 1 {
                Ok::<bool, PlanError>(true)
            } else {
                Err::<bool, PlanError>(PlanError::InvalidExprs)
            }
        }),
{
    let c = sel_count_exprs_capped(exprs);
    match c {
        0 => Ok(false),
        1 => Ok(true),
        _ => Err(PlanError::InvalidExprs),
    }
}

/// Copies a byte string.
fn copy_bytes(v: &Vec<u8>) -> (r: Vec<u8>)
    ensures
        r@ == v@,
{
    let mut r: Vec<u8> = Vec::new();
    let mut i: usize = 0;
    while i < v.len()
        invariant
            0 <= i <= v@.len(),
            r@ =~= v@.subrange(0, i as int),
        decreases v@.len() - i,
    {
        r.push(v[i]);
        proof {
            assert(r@ =~= v@.subrange(0, i + 1));
        }
        i += 1;
    }
    proof {
        assert(v@.subrange(0, v@.len() as int) =~= v@);
    }
    r
}

/// Deep copy of an expression; the copy has the same model.
fn clone_expr(e: &Expr) -> (r: Expr)
    ensures
        view_expr(r) == view_expr(*e),
    decreases *e, 0nat,
{
    match e {
        Expr::Column(s) => Expr::Column(s.clone()),
        Expr::Literal(v) => Expr::Literal(*v),
        Expr::Sort { expr, asc, nulls_first } => Expr::Sort {
            expr: Box::new(clone_expr(expr)),
            asc: *asc,
            nulls_first: *nulls_first,
        },
        Expr::ScalarUdf { name, args } => {
            let new_args = clone_args(args, 0);
            proof {
                assert(args@.subrange(0, args@.len() as int) =~= args@);
                lemma_view_exprs_len(new_args@);
                lemma_view_exprs_len(args@);
                assert(view_exprs(new_args@) =~= view_exprs(args@));
            }
            Expr::ScalarUdf { name: copy_bytes(name), args: new_args }
        },
    }
}

/// Deep copies of the expressions of `args` from position `i` on.
fn clone_args(args: &Vec<Expr>, i: usize) -> (r: Vec<Expr>)
    requires
        i <= args@.len(),
    ensures
        r@.len() == args@.len() - i,
        forall|j: int|
            0 <= j < r@.len() ==> view_expr(#[trigger] r@[j]) == view_expr(args@[i + j]),
    decreases args@, args@.len() - i,
{
    if i == args.len() {
        Vec::new()
    } else {
        proof {
            assert(decreases_to!(args@ => args@[i as int]));
        }
        let c = clone_expr(&args[i]);
        let mut rest = clone_args(args, i + 1);
        rest.insert(0, c);
        rest
    }
}

/// The first selector call found in an expression, in evaluation order.
pub open spec fn find_sel(e: ExprV) -> Option<ExprV>
    decreases e,
{
    match e {
        ExprV::ScalarUdf { name, args } => if is_selector_name(name) {
            Some(e)
        } else {
            find_sel_list(args)
        },
        ExprV::Sort { expr, .. } => find_sel(*expr),
        _ => None,
    }
}

/// The first selector call found in a sequence of expressions.
pub open spec fn find_sel_list(es: Seq<ExprV>) -> Option<ExprV>
    decreases es,
{
    if es.len() == 0 {
        None
    } else if find_sel(es[0]) is Some {
        find_sel(es[0])
    } else {
        find_sel_list(es.drop_first())
    }
}

/// Finds the first selector call in one expression.
fn find_bottom_expr(e: &Expr) -> (r: Option<Expr>)
    ensures
        match (find_sel(view_expr(*e)), r) {
            (Some(v), Some(re)) => view_expr(re) == v,
            (None, None) => true,
            _ => false,
        },
    decreases *e, 0nat,
{
    match e {
        Expr::Column(_) => None,
        Expr::Literal(_) => None,
        Expr::Sort { expr, .. } => find_bottom_expr(expr),
        Expr::ScalarUdf { name, args } => {
            if is_bottom_name(name) {
                Some(clone_expr(e))
            } else {
                let r = find_bottom_args(args, 0);
                proof {
                    assert(args@.subrange(0, args@.len() as int) =~= args@);
                }
                r
            }
        },
    }
}

/// Finds the first selector call in the expressions of `args` from
/// position `i` on.
fn find_bottom_args(args: &Vec<Expr>, i: usize) -> (r: Option<Expr>)
    requires
        i <= args@.len(),
    ensures
        match (find_sel_list(view_exprs(args@.subrange(i as int, args@.len() as int))), r) {
            (Some(v), Some(re)) => view_expr(re) == v,
            (None, None) => true,
            _ => false,
        },
    decreases args@, args@.len() - i,
{
    if i == args.len() {
        proof {
            assert(args@.subrange(i as int, args@.len() as int) =~= Seq::<Expr>::empty());
        }
        None
    } else {
        proof {
            assert(decreases_to!(args@ => args@[i as int]));
        }
        let r0 = find_bottom_expr(&args[i]);
        proof {
            let s = view_exprs(args@.subrange(i as int, args@.len() as int));
            let s1 = view_exprs(args@.subrange(i + 1, args@.len() as int));
            lemma_view_exprs_len(args@.subrange(i as int, args@.len() as int));
            lemma_view_exprs_len(args@.subrange(i + 1, args@.len() as int));
            assert(s.drop_first() =~= s1);
            assert(s[0] == view_expr(args@[i as int]));
        }
        match r0 {
            Some(found) => Some(found),
            None => find_bottom_args(args, i + 1),
        }
    }
}

/// Extracts the first selector call from a projection's expressions, if
/// one appears.
pub fn extract_bottom_function(exprs: &Vec<Expr>) -> (r: Option<Expr>)
    ensures
        match (find_sel_list(view_exprs(exprs@)), r) {
            (Some(v), Some(re)) => view_expr(re) == v,
            (None, None) => true,
            _ => false,
        },
{
    let r = find_bottom_args(exprs, 0);
    proof {
        assert(exprs@.subrange(0, exprs@.len() as int) =~= exprs@);
    }
    r
}

/// Replaces every selector call in an expression by `v`.
pub open spec fn spec_replace(e: ExprV, v: ExprV) -> ExprV
    decreases e,
{
    match e {
        ExprV::ScalarUdf { name, args } => if is_selector_name(name) {
            v
        } else {
            ExprV::ScalarUdf { name, args: spec_replace_list(args, v) }
        },
        ExprV::Sort { expr, asc, nulls_first } => ExprV::Sort {
            expr: Box::new(spec_replace(*expr, v)),
            asc,
            nulls_first,
        },
        _ => e,
    }
}

/// Replaces every selector call in a sequence of expressions by `v`.
pub open spec fn spec_replace_list(es: Seq<ExprV>, v: ExprV) -> Seq<ExprV>
    decreases es,
{
    if es.len() == 0 {
        Seq::empty()
    } else {
        seq![spec_replace(es[0], v)] + spec_replace_list(es.drop_first(), v)
    }
}

/// Replacement over a sequence acts elementwise.
pub proof fn lemma_spec_replace_list_pointwise(es: Seq<ExprV>, v: ExprV)
    ensures
        spec_replace_list(es, v).len() == es.len(),
        forall|j: int|
            0 <= j < es.len() ==> #[trigger] spec_replace_list(es, v)[j] == spec_replace(
                es[j],
                v,
            ),
    decreases es.len(),
{
    if es.len() > 0 {
        lemma_spec_replace_list_pointwise(es.drop_first(), v);
    }
}

/// Replaces every selector call in one expression by a copy of `v`.
fn replace_sel(e: &Expr, v: &Expr) -> (r: Expr)
    ensures
        view_expr(r) == spec_replace(view_expr(*e), view_expr(*v)),
    decreases *e, 0nat,
{
    match e {
        Expr::Column(s) => Expr::Column(s.clone()),
        Expr::Literal(val) => Expr::Literal(*val),
        Expr::Sort { expr, asc, nulls_first } => Expr::Sort {
            expr: Box::new(replace_sel(expr, v)),
            asc: *asc,
            nulls_first: *nulls_first,
        },
        Expr::ScalarUdf { name, args } => {
            if is_bottom_name(name) {
                clone_expr(v)
            } else {
                let new_args = replace_sel_args(args, 0, v);
                proof {
                    assert(args@.subrange(0, args@.len() as int) =~= args@);
                    lemma_view_exprs_len(new_args@);
                    lemma_view_exprs_len(args@);
                    lemma_spec_replace_list_pointwise(view_exprs(args@), view_expr(*v));
                    assert(view_exprs(new_args@) =~= spec_replace_list(
                        view_exprs(args@),
                        view_expr(*v),
                    ));
                }
                Expr::ScalarUdf { name: copy_bytes(name), args: new_args }
            }
        },
    }
}

/// Replaces selector calls in the expressions of `args` from position `i`
/// on.
fn replace_sel_args(args: &Vec<Expr>, i: usize, v: &Expr) -> (r: Vec<Expr>)
    requires
        i <= args@.len(),
    ensures
        r@.len() == args@.len() - i,
        forall|j: int|
            0 <= j < r@.len() ==> view_expr(#[trigger] r@[j]) == spec_replace(
                view_expr(args@[i + j]),
                view_expr(*v),
            ),
    decreases args@, args@.len() - i,
{
    if i == args.len() {
        Vec::new()
    } else {
        proof {
            assert(decreases_to!(args@ => args@[i as int]));
        }
        let c = replace_sel(&args[i], v);
        let mut rest = replace_sel_args(args, i + 1, v);
        rest.insert(0, c);
        rest
    }
}

/// Replaces every selector call across a projection's expressions by a
/// copy of `v`.
pub fn replace_expr_with(exprs: &Vec<Expr>, v: &Expr) -> (r: Vec<Expr>)
    ensures
        view_exprs(r@) == spec_replace_list(view_exprs(exprs@), view_expr(*v)),
{
    let r = replace_sel_args(exprs, 0, v);
    proof {
        assert(exprs@.subrange(0, exprs@.len() as int) =~= exprs@);
        lemma_view_exprs_len(r@);
        lemma_view_exprs_len(exprs@);
        lemma_spec_replace_list_pointwise(view_exprs(exprs@), view_expr(*v));
        assert(view_exprs(r@) =~= spec_replace_list(view_exprs(exprs@), view_expr(*v)));
    }
    r
}

/// The integer payload of a literal scalar, if it carries one.
pub open spec fn scalar_int(v: ScalarValue) -> Option<int> {
    match v {
        ScalarValue::UInt8(Some(x)) => Some(x as int),
        ScalarValue::UInt16(Some(x)) => Some(x as int),
        ScalarValue::UInt32(Some(x)) => Some(x as int),
        ScalarValue::UInt64(Some(x)) => Some(x as int),
        ScalarValue::Int8(Some(x)) => Some(x as int),
        ScalarValue::Int16(Some(x)) => Some(x as int),
        ScalarValue::Int32(Some(x)) => Some(x as int),
        ScalarValue::Int64(Some(x)) => Some(x as int),
        _ => None,
    }
}

/// The accepted limit of a selector call: an integer literal whose value
/// lies in [1, 255].
pub open spec fn spec_k_of(e: ExprV) -> Option<int> {
    match e {
        ExprV::Literal(v) => match scalar_int(v) {
            Some(n) => if 1 <= n <= 255 {
                Some(n)
            } else {
                None
            },
            None => None,
        },
        _ => None,
    }
}

/// Extracts the limit of a selector call and checks its range: the
/// argument must be an integer literal in [1, 255].
pub fn extract_args_k(expr: &Expr) -> (r: Result<usize, PlanError>)
    ensures
        match spec_k_of(view_expr(*expr)) {
            Some(n) => r matches Ok(k) && k as int == n,
            None => r == Err::<usize, PlanError>(PlanError::InvalidArguments),
        },
{
    if let Expr::Literal(v0) = expr {
        let val: ScalarValue = *v0;
        let k: usize = match val {
            ScalarValue::UInt8(Some(v)) if v >= 1 => v as usize,
            ScalarValue::UInt16(Some(v)) if 1 <= v && v < 256 => v as usize,
            ScalarValue::UInt32(Some(v)) if 1 <= v && v < 256 => v as usize,
            ScalarValue::UInt64(Some(v)) if 1 <= v && v < 256 => v as usize,
            ScalarValue::Int8(Some(v)) if v >= 1 => v as usize,
            ScalarValue::Int16(Some(v)) if 1 <= v && v < 256 => v as usize,
            ScalarValue::Int32(Some(v)) if 1 <= v && v < 256 => v as usize,
            ScalarValue::Int64(Some(v)) if 1 <= v && v < 256 => v as usize,
            _ => {
                return Err(PlanError::InvalidArguments);
            },
        };
        return Ok(k);
    }
    Err(PlanError::InvalidArguments)
}

/// What extracting (field, k) from a candidate selector call yields: the
/// call must have exactly two arguments, the second an integer literal in
/// [1, 255].
pub open spec fn spec_extract_args(e: ExprV) -> Result<(ExprV, int), PlanError> {
    match e {
        ExprV::ScalarUdf { name, args } => if args.len() != 2 {
            Err(PlanError::InvalidArguments)
        } else {
            match spec_k_of(args[1]) {
                Some(n) => Ok((args[0], n)),
                None => Err(PlanError::InvalidArguments),
            }
        },
        _ => Err(PlanError::InvalidExprs),
    }
}

/// Extracts the (field, k) arguments of a selector call.
pub fn extract_args(expr: &Expr) -> (r: Result<(Expr, usize), PlanError>)
    ensures
        match (r, spec_extract_args(view_expr(*expr))) {
            (Ok((f, k)), Ok((fv, kv))) => view_expr(f) == fv && k as int == kv,
            (Err(a), Err(b)) => a == b,
            _ => false,
        },
{
    if let Expr::ScalarUdf { name, args } = expr {
        proof {
            lemma_view_exprs_len(args@);
        }
        if args.len() != 2 {
            return Err(PlanError::InvalidArguments);
        }
        let k = match extract_args_k(&args[1]) {
            Ok(k) => k,
            Err(e) => {
                return Err(e);
            },
        };
        let field_expr = clone_expr(&args[0]);
        return Ok((field_expr, k));
    }
    Err(PlanError::InvalidExprs)
}

/// A projection node: expressions computed over an input plan, keeping
/// the schema recorded when the projection was planned.
#[derive(Debug)]
pub struct Projection {
    pub expr: Vec<Expr>,
    pub input: Box<LogicalPlan>,
    pub schema: u64,
}

/// A sort node: sort expressions over an input plan, with an optional
/// fetch limit.
#[derive(Debug)]
pub struct SortNode {
    pub expr: Vec<Expr>,
    pub input: Box<LogicalPlan>,
    pub fetch: Option<usize>,
}

/// A logical query plan, restricted to the node kinds the rewrite reads.
#[derive(Debug)]
pub enum LogicalPlan {
    Projection(Projection),
    Sort(SortNode),
    TableScan { name: String },
}

/// Mathematical model of a logical plan.
#[verifier::ext_equal]
pub enum PlanV {
    Projection { exprs: Seq<ExprV>, input: Box<PlanV>, schema: u64 },
    Sort { exprs: Seq<ExprV>, input: Box<PlanV>, fetch: Option<usize> },
    TableScan { name: Seq<char> },
}

/// Model of a logical plan value.
pub open spec fn view_plan(p: LogicalPlan) -> PlanV
    decreases p,
{
    match p {
        LogicalPlan::Projection(pr) => PlanV::Projection {
            exprs: view_exprs(pr.expr@),
            input: Box::new(view_plan(*pr.input)),
            schema: pr.schema,
        },
        LogicalPlan::Sort(s) => PlanV::Sort {
            exprs: view_exprs(s.expr@),
            input: Box::new(view_plan(*s.input)),
            fetch: s.fetch,
        },
        LogicalPlan::TableScan { name } => PlanV::TableScan { name: name@ },
    }
}

/// The plan the rewrite produces for a projection holding the selector
/// call `b`: an ascending, nulls-last sort on the selector's field with
/// fetch k, wrapped in the projection with the selector call replaced by
/// the field.
pub open spec fn spec_transform_result(
    b: ExprV,
    exprs: Seq<ExprV>,
    input: PlanV,
    schema: u64,
) -> Result<PlanV, PlanError> {
    match spec_extract_args(b) {
        Ok((field, k)) => Ok(
            PlanV::Projection {
                exprs: spec_replace_list(exprs, field),
                input: Box::new(
                    PlanV::Sort {
                        exprs: seq![
                            ExprV::Sort { expr: Box::new(field), asc: true, nulls_first: false },
                        ],
                        input: Box::new(input),
                        fetch: Some(k as usize),
                    },
                ),
                schema,
            },
        ),
        Err(e) => Err(e),
    }
}

/// Builds the sort-with-limit node and the rewritten projection for the
/// selector call `bottom_function` found in `projection`.
pub fn do_transform(bottom_function: &Expr, projection: Projection) -> (r: Result<
    LogicalPlan,
    PlanError,
>)
    ensures
        match (r, spec_transform_result(
            view_expr(*bottom_function),
            view_exprs(projection.expr@),
            view_plan(*projection.input),
            projection.schema,
        )) {
            (Ok(p), Ok(pv)) => view_plan(p) == pv,
            (Err(a), Err(b)) => a == b,
            _ => false,
        },
{
    let (field, k) = match extract_args(bottom_function) {
        Ok(fk) => fk,
        Err(e) => {
            return Err(e);
        },
    };
    let Projection { expr, input, schema } = projection;

    let sort_expr = Expr::Sort { expr: Box::new(clone_expr(&field)), asc: true, nulls_first: false };
    let mut sort_exprs: Vec<Expr> = Vec::new();
    sort_exprs.push(sort_expr);
    proof {
        lemma_view_exprs_len(sort_exprs@);
        assert(view_exprs(sort_exprs@) =~= seq![
            ExprV::Sort { expr: Box::new(view_expr(field)), asc: true, nulls_first: false },
        ]);
    }
    let topk_node = LogicalPlan::Sort(SortNode { expr: sort_exprs, input, fetch: Some(k) });
    let ghost sortv = PlanV::Sort {
        exprs: seq![
            ExprV::Sort { expr: Box::new(view_expr(field)), asc: true, nulls_first: false },
        ],
        input: Box::new(view_plan(*projection.input)),
        fetch: Some(k),
    };
    proof {
        assert(view_plan(topk_node) =~= sortv);
    }

    let new_exprs = replace_expr_with(&expr, &field);
    let new_projection = LogicalPlan::Projection(
        Projection { expr: new_exprs, input: Box::new(topk_node), schema },
    );
    proof {
        assert(view_plan(new_projection) =~= (PlanV::Projection {
            exprs: spec_replace_list(view_exprs(projection.expr@), view_expr(field)),
            input: Box::new(sortv),
            schema: projection.schema,
        }));
    }
    Ok(new_projection)
}

/// Whether a bottom-up pass changed the plan node.
pub enum Transformed {
    Yes(LogicalPlan),
    No(LogicalPlan),
}

/// One bottom-up analysis step: a projection with exactly one selector
/// call is rewritten; one with several fails; anything else is unchanged.
pub open spec fn spec_analyze(pv: PlanV) -> Result<(bool, PlanV), PlanError> {
    match pv {
        PlanV::Projection { exprs, input, schema } => {
            let n = sel_count_list(exprs);
            if n >= 2 {
                Err(PlanError::InvalidExprs)
            } else if n == 1 {
                match find_sel_list(exprs) {
                    Some(b) => match spec_transform_result(b, exprs, *input, schema) {
                        Ok(p) => Ok((true, p)),
                        Err(e) => Err(e),
                    },
                    None => Ok((false, pv)),
                }
            } else {
                Ok((false, pv))
            }
        },
        _ => Ok((false, pv)),
    }
}

/// Inspects one plan node and rewrites it when it is a projection holding
/// exactly one selector call.
pub fn analyze_internal(plan: LogicalPlan) -> (r: Result<Transformed, PlanError>)
    ensures
        match (r, spec_analyze(view_plan(plan))) {
            (Ok(Transformed::Yes(p)), Ok((t, pv))) => t == true && view_plan(p) == pv,
            (Ok(Transformed::No(p)), Ok((t, pv))) => t == false && view_plan(p) == pv,
            (Err(a), Err(b)) => a == b,
            _ => false,
        },
{
    match plan {
        LogicalPlan::Projection(projection) => {
            let valid = match valid_exprs(&projection.expr) {
                Ok(b) => b,
                Err(e) => {
                    return Err(e);
                },
            };
            if valid {
                match extract_bottom_function(&projection.expr) {
                    Some(bottom_function) => match do_transform(&bottom_function, projection) {
                        Ok(p) => Ok(Transformed::Yes(p)),
                        Err(e) => Err(e),
                    },
                    None => Ok(Transformed::No(LogicalPlan::Projection(projection))),
                }
            } else {
                Ok(Transformed::No(LogicalPlan::Projection(projection)))
            }
        },
        other => Ok(Transformed::No(other)),
    }
}

/// Bottom-up rewrite over a whole plan: children are rewritten first,
/// then the node itself is analyzed.
pub open spec fn spec_transform_up(p: PlanV) -> Result<PlanV, PlanError>
    decreases p,
{
    let rebuilt = match p {
        PlanV::Projection { exprs, input, schema } => match spec_transform_up(*input) {
            Ok(ni) => Ok(PlanV::Projection { exprs, input: Box::new(ni), schema }),
            Err(e) => Err(e),
        },
        PlanV::Sort { exprs, input, fetch } => match spec_transform_up(*input) {
            Ok(ni) => Ok(PlanV::Sort { exprs, input: Box::new(ni), fetch }),
            Err(e) => Err(e),
        },
        leaf => Ok(leaf),
    };
    match rebuilt {
        Ok(rp) => match spec_analyze(rp) {
            Ok((_, out)) => Ok(out),
            Err(e) => Err(e),
        },
        Err(e) => Err(e),
    }
}

/// Rewrites a plan bottom-up, transforming every projection that holds
/// exactly one selector call.
pub fn transform_up(plan: LogicalPlan) -> (r: Result<LogicalPlan, PlanError>)
    ensures
        match (r, spec_transform_up(view_plan(plan))) {
            (Ok(p), Ok(pv)) => view_plan(p) == pv,
            (Err(a), Err(b)) => a == b,
            _ => false,
        },
    decreases plan,
{
    let rebuilt = match plan {
        LogicalPlan::Projection(Projection { expr, input, schema }) => {
            let new_input = match transform_up(*input) {
                Ok(p) => p,
                Err(e) => {
                    return Err(e);
                },
            };
            LogicalPlan::Projection(Projection { expr, input: Box::new(new_input), schema })
        },
        LogicalPlan::Sort(SortNode { expr, input, fetch }) => {
            let new_input = match transform_up(*input) {
                Ok(p) => p,
                Err(e) => {
                    return Err(e);
                },
            };
            LogicalPlan::Sort(SortNode { expr, input: Box::new(new_input), fetch })
        },
        leaf => leaf,
    };
    match analyze_internal(rebuilt) {
        Ok(Transformed::Yes(p)) => Ok(p),
        Ok(Transformed::No(p)) => Ok(p),
        Err(e) => Err(e),
    }
}

/// Analyzer rule that turns a projection holding one bottom-N selector
/// call into an ascending sort-with-limit node under the projection.
pub struct TransformBottomFuncToTopkNodeRule {}

impl TransformBottomFuncToTopkNodeRule {
    /// Applies the rewrite bottom-up over the whole plan.
    pub fn analyze(&self, plan: LogicalPlan) -> (r: Result<LogicalPlan, PlanError>)
        ensures
            match (r, spec_transform_up(view_plan(plan))) {
                (Ok(p), Ok(pv)) => view_plan(p) == pv,
                (Err(a), Err(b)) => a == b,
                _ => false,
            },
    {
        transform_up(plan)
    }

    /// The rule's registered name.
    pub fn name(&self) -> (r: &'static str)
        ensures
            r@ == "transform_bottom_func_to_topk_node"@,
    {
        "transform_bottom_func_to_topk_node"
    }
}

} // verus!
