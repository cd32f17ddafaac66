use state_game::bound::{
    CustomLogicOp, Data, Expression, FunctionIdentifier, FunctionOutputs, LogicOperators,
    LogicValue, NodeIdentifier, ParamBinding, ParamRole,
};
use state_game::helper::{try_until, CAN_TRY_COUNT};
use state_game::{Identifier, Namespace};
use LogicValue::{False, True, Unknown};

const ALL: [LogicValue; 3] = [True, False, Unknown];

#[test]
fn kleene_tables() {
    assert_eq!(True.and(Unknown), Unknown);
    assert_eq!(False.and(Unknown), False);
    assert_eq!(Unknown.and(Unknown), Unknown);
    assert_eq!(True.or(Unknown), True);
    assert_eq!(False.or(Unknown), Unknown);
    assert_eq!(False.or(False), False);
    assert_eq!(Unknown.not(), Unknown);
    assert_eq!(True.not(), False);
}

#[test]
fn kleene_laws_on_all_values() {
    for a in ALL {
        assert_eq!(a.not().not(), a);
        for b in ALL {
            assert_eq!(a.and(b), b.and(a));
            assert_eq!(a.or(b), b.or(a));
            assert_eq!(a.and(b).not(), a.not().or(b.not()));
        }
    }
}

struct Majority;

impl CustomLogicOp for Majority {
    fn combine(&self, inputs: &[LogicValue]) -> LogicValue {
        let yes = inputs.iter().filter(|v| **v == LogicValue::True).count();
        if yes * 2 > inputs.len() { LogicValue::True } else { LogicValue::False }
    }
}

#[test]
fn combine_and_folds_from_true() {
    assert_eq!(LogicOperators::And.combine(&[]), True);
    assert_eq!(LogicOperators::And.combine(&[True, True]), True);
    assert_eq!(LogicOperators::And.combine(&[True, Unknown]), Unknown);
    assert_eq!(LogicOperators::And.combine(&[Unknown, False, True]), False);
}

#[test]
fn combine_or_is_kleene_disjunction() {
    assert_eq!(LogicOperators::Or.combine(&[]), False);
    assert_eq!(LogicOperators::Or.combine(&[False, False]), False);
    assert_eq!(LogicOperators::Or.combine(&[False, Unknown]), Unknown);
    assert_eq!(LogicOperators::Or.combine(&[Unknown, True, False]), True);
}

#[test]
fn combine_not_and_custom() {
    assert_eq!(LogicOperators::Not.combine(&[]), Unknown);
    assert_eq!(LogicOperators::Not.combine(&[True, False]), False);
    assert_eq!(LogicOperators::Not.combine(&[Unknown]), Unknown);
    let op = LogicOperators::Custom(Box::new(Majority));
    assert_eq!(op.combine(&[True, True, False]), True);
    assert_eq!(op.combine(&[True, False, False]), False);
}

fn data(tag: u32) -> Data {
    Data {
        namespace: Namespace("ns".to_string()),
        identifier: Identifier("id".to_string()),
        data: Box::new(tag),
    }
}

#[test]
fn function_outputs_parts() {
    let both = FunctionOutputs::Both(Expression::Literal(LogicValue::True), data(7));
    assert!(matches!(both.expr_ref(), Some(Expression::Literal(LogicValue::True))));
    assert_eq!(both.data_ref().unwrap().data.downcast_ref::<u32>(), Some(&7));
    let (e, d) = both.into_parts();
    assert!(matches!(e, Some(Expression::Literal(LogicValue::True))));
    assert_eq!(d.unwrap().namespace, Namespace("ns".to_string()));

    let only_data = FunctionOutputs::Data(data(1));
    assert!(only_data.expr_ref().is_none());
    assert!(only_data.data_ref().is_some());
    let (e, d) = only_data.into_parts();
    assert!(e.is_none() && d.is_some());

    let only_ast = FunctionOutputs::AbstractSyntaxTree(Expression::Binding(NodeIdentifier(3)));
    assert!(only_ast.data_ref().is_none());
    let (e, d) = only_ast.into_parts();
    assert!(matches!(e, Some(Expression::Binding(NodeIdentifier(3)))));
    assert!(d.is_none());
}

#[test]
fn node_ids() {
    assert_eq!(Expression::Binding(NodeIdentifier(4)).node_id(), Some(NodeIdentifier(4)));
    assert_eq!(Expression::Literal(LogicValue::False).node_id(), None);
    let logic = Expression::Logic { id: NodeIdentifier(5), op: LogicOperators::And, children: vec![] };
    assert_eq!(logic.node_id(), Some(NodeIdentifier(5)));
    let f = Expression::Fn {
        id: NodeIdentifier(6),
        fn_id: FunctionIdentifier("f".to_string()),
        children: vec![Expression::Literal(LogicValue::True)],
        params: vec![ParamBinding { child_index: 0, role: ParamRole::Ast }],
    };
    assert_eq!(f.node_id(), Some(NodeIdentifier(6)));
}

#[test]
fn try_until_returns_first_success() {
    let mut calls = 0;
    let r: Result<u32, &str> = try_until(|| {
        calls += 1;
        if calls < 3 { Err("not yet") } else { Ok(calls) }
    });
    assert_eq!(r, Ok(3));
    assert_eq!(calls, 3);
}

#[test]
fn try_until_gives_up_after_the_limit() {
    let mut calls = 0;
    let r: Result<(), usize> = try_until(|| {
        calls += 1;
        Err(calls)
    });
    assert_eq!(r, Err(CAN_TRY_COUNT));
    assert_eq!(calls, 5);
}
