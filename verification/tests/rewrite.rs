use tskv::rewrite::{
    extract_args, extract_args_k, valid_exprs, Expr, LogicalPlan, PlanError, Projection,
    ScalarValue, SortNode, Transformed, TransformBottomFuncToTopkNodeRule,
};

fn bottom_call(field: &str, k: ScalarValue) -> Expr {
    Expr::ScalarUdf {
        name: b"bottom".to_vec(),
        args: vec![Expr::Column(field.to_string()), Expr::Literal(k)],
    }
}

fn scan(name: &str) -> LogicalPlan {
    LogicalPlan::TableScan { name: name.to_string() }
}

#[test]
fn bottom_projection_becomes_sort_with_limit() {
    let plan = LogicalPlan::Projection(Projection {
        expr: vec![bottom_call("field", ScalarValue::UInt8(Some(5)))],
        input: Box::new(scan("I")),
        schema: 42,
    });
    let rule = TransformBottomFuncToTopkNodeRule {};
    let out = rule.analyze(plan).expect("rewrite should succeed");
    match out {
        LogicalPlan::Projection(p) => {
            assert_eq!(p.schema, 42);
            assert_eq!(p.expr.len(), 1);
            match &p.expr[0] {
                Expr::Column(c) => assert_eq!(c, "field"),
                _ => panic!("selector call was not replaced by its field"),
            }
            match *p.input {
                LogicalPlan::Sort(SortNode { expr, input, fetch }) => {
                    assert_eq!(fetch, Some(5));
                    assert_eq!(expr.len(), 1);
                    match &expr[0] {
                        Expr::Sort { expr: inner, asc, nulls_first } => {
                            assert!(*asc);
                            assert!(!*nulls_first);
                            match inner.as_ref() {
                                Expr::Column(c) => assert_eq!(c, "field"),
                                _ => panic!("sort expression is not the field"),
                            }
                        }
                        _ => panic!("expected a sort expression"),
                    }
                    match *input {
                        LogicalPlan::TableScan { name } => assert_eq!(name, "I"),
                        _ => panic!("sort input is not the original input"),
                    }
                }
                _ => panic!("projection input is not a sort node"),
            }
        }
        _ => panic!("result is not a projection"),
    }
}

#[test]
fn multiple_selectors_fail() {
    let plan = LogicalPlan::Projection(Projection {
        expr: vec![
            bottom_call("a", ScalarValue::UInt8(Some(3))),
            bottom_call("b", ScalarValue::UInt8(Some(2))),
        ],
        input: Box::new(scan("I")),
        schema: 1,
    });
    let rule = TransformBottomFuncToTopkNodeRule {};
    let err = rule.analyze(plan).expect_err("two selectors must fail");
    assert_eq!(err, PlanError::InvalidExprs);
    assert_eq!(
        err.message(),
        "1. There cannot be nested selection functions. 2. There cannot be multiple selection functions."
    );
}

#[test]
fn nested_selector_counts_as_second_call() {
    let nested = Expr::ScalarUdf {
        name: b"bottom".to_vec(),
        args: vec![bottom_call("x", ScalarValue::UInt8(Some(2))), Expr::Literal(
            ScalarValue::UInt8(Some(3)),
        )],
    };
    let exprs = vec![nested];
    assert_eq!(valid_exprs(&exprs), Err(PlanError::InvalidExprs));
}

#[test]
fn projection_without_selector_is_unchanged() {
    let plan = LogicalPlan::Projection(Projection {
        expr: vec![Expr::Column("a".to_string())],
        input: Box::new(scan("I")),
        schema: 7,
    });
    let rule = TransformBottomFuncToTopkNodeRule {};
    let out = rule.analyze(plan).expect("plain projection passes through");
    match out {
        LogicalPlan::Projection(p) => {
            assert_eq!(p.schema, 7);
            match *p.input {
                LogicalPlan::TableScan { name } => assert_eq!(name, "I"),
                _ => panic!("input changed"),
            }
        }
        _ => panic!("plan shape changed"),
    }
}

#[test]
fn selector_name_is_case_insensitive() {
    let exprs = vec![Expr::ScalarUdf {
        name: b"BoTToM".to_vec(),
        args: vec![Expr::Column("f".to_string()), Expr::Literal(ScalarValue::UInt8(Some(1)))],
    }];
    assert_eq!(valid_exprs(&exprs), Ok(true));
}

#[test]
fn k_must_be_integer_literal_in_range() {
    assert_eq!(extract_args_k(&Expr::Literal(ScalarValue::UInt8(Some(1)))), Ok(1));
    assert_eq!(extract_args_k(&Expr::Literal(ScalarValue::UInt16(Some(255)))), Ok(255));
    assert_eq!(
        extract_args_k(&Expr::Literal(ScalarValue::UInt16(Some(256)))),
        Err(PlanError::InvalidArguments)
    );
    assert_eq!(
        extract_args_k(&Expr::Literal(ScalarValue::UInt8(Some(0)))),
        Err(PlanError::InvalidArguments)
    );
    assert_eq!(
        extract_args_k(&Expr::Literal(ScalarValue::Int32(Some(-1)))),
        Err(PlanError::InvalidArguments)
    );
    assert_eq!(
        extract_args_k(&Expr::Literal(ScalarValue::Int64(Some(300)))),
        Err(PlanError::InvalidArguments)
    );
    assert_eq!(
        extract_args_k(&Expr::Literal(ScalarValue::Boolean(Some(true)))),
        Err(PlanError::InvalidArguments)
    );
    assert_eq!(
        extract_args_k(&Expr::Column("k".to_string())),
        Err(PlanError::InvalidArguments)
    );
    let err = extract_args_k(&Expr::Literal(ScalarValue::UInt8(None))).unwrap_err();
    assert_eq!(
        err.message(),
        "Routine not match. Maybe (field_name, k). k is integer literal value. The range of values for k is [1, 255]."
    );
}

#[test]
fn extract_args_needs_two_arguments() {
    let one_arg = Expr::ScalarUdf {
        name: b"bottom".to_vec(),
        args: vec![Expr::Column("f".to_string())],
    };
    match extract_args(&one_arg) {
        Err(PlanError::InvalidArguments) => {}
        _ => panic!("one argument must be rejected"),
    }
    match extract_args(&Expr::Column("f".to_string())) {
        Err(PlanError::InvalidExprs) => {}
        _ => panic!("a non-call must be rejected"),
    }
}

#[test]
fn rule_name_is_stable() {
    let rule = TransformBottomFuncToTopkNodeRule {};
    assert_eq!(rule.name(), "transform_bottom_func_to_topk_node");
}

#[test]
fn transform_applies_below_other_nodes() {
    let inner = LogicalPlan::Projection(Projection {
        expr: vec![bottom_call("f", ScalarValue::Int8(Some(2)))],
        input: Box::new(scan("T")),
        schema: 3,
    });
    let outer = LogicalPlan::Sort(SortNode {
        expr: vec![Expr::Column("f".to_string())],
        input: Box::new(inner),
        fetch: None,
    });
    let rule = TransformBottomFuncToTopkNodeRule {};
    let out = rule.analyze(outer).expect("nested rewrite succeeds");
    match out {
        LogicalPlan::Sort(s) => match *s.input {
            LogicalPlan::Projection(p) => match *p.input {
                LogicalPlan::Sort(topk) => assert_eq!(topk.fetch, Some(2)),
                _ => panic!("inner projection was not rewritten"),
            },
            _ => panic!("outer sort lost its projection"),
        },
        _ => panic!("outer node changed kind"),
    }
}

#[test]
fn transformed_reports_whether_a_rewrite_happened() {
    let plain = scan("I");
    match tskv::rewrite::analyze_internal(plain).unwrap() {
        Transformed::No(_) => {}
        Transformed::Yes(_) => panic!("a scan is never rewritten"),
    }
}
