use state_game::policy_graph::{
    assign_param, fn_output_expr, is_well_formed, AuditComponent, CustomLogicOp, Data, DataGraph,
    DependencyGraph, EvalContext, EvaluatedExpr, Expr, FnId, FnOutput, LogicOp, NodeId, ParamBinding,
    ParamRole, PolicyGraph, PolicyValue,
};

fn nid(n: u64) -> NodeId {
    NodeId(n)
}

fn fid(s: &str) -> FnId {
    FnId(s.into())
}

// ── PolicyValue Kleene laws ───────────────────────────────

#[test]
fn kleene_and() {
    assert_eq!(PolicyValue::Deny.and(PolicyValue::Unknown), PolicyValue::Deny);
    assert_eq!(PolicyValue::Allow.and(PolicyValue::Unknown), PolicyValue::Unknown);
    assert_eq!(PolicyValue::Allow.and(PolicyValue::Allow), PolicyValue::Allow);
}

#[test]
fn kleene_or() {
    assert_eq!(PolicyValue::Allow.or(PolicyValue::Unknown), PolicyValue::Allow);
    assert_eq!(PolicyValue::Deny.or(PolicyValue::Unknown), PolicyValue::Unknown);
    assert_eq!(PolicyValue::Deny.or(PolicyValue::Deny), PolicyValue::Deny);
}

#[test]
fn kleene_not() {
    assert_eq!(PolicyValue::Allow.not(), PolicyValue::Deny);
    assert_eq!(PolicyValue::Deny.not(), PolicyValue::Allow);
    assert_eq!(PolicyValue::Unknown.not(), PolicyValue::Unknown);
}

// ── Basic evaluation ──────────────────────────────────────

#[test]
fn literal_evaluates() {
    let mut g = PolicyGraph::new(Expr::Literal(PolicyValue::Allow), DependencyGraph::new());
    assert_eq!(g.evaluate(&EvalContext::new()), PolicyValue::Allow);
}

#[test]
fn binding_resolves_from_context() {
    let id = nid(1);
    let mut g = PolicyGraph::new(Expr::Binding(id), DependencyGraph::new());
    let ctx = EvalContext::new().bind(id, PolicyValue::Allow);
    assert_eq!(g.evaluate(&ctx), PolicyValue::Allow);
}

#[test]
fn binding_unknown_when_missing() {
    let mut g = PolicyGraph::new(Expr::Binding(nid(1)), DependencyGraph::new());
    assert_eq!(g.evaluate(&EvalContext::new()), PolicyValue::Unknown);
}

// ── Logic nodes ───────────────────────────────────────────

#[test]
fn logic_and_deny_short_circuit() {
    let id = nid(10);
    let mut dep = DependencyGraph::new();
    dep.register_parent(nid(99), id);

    let expr = Expr::Logic {
        id,
        op: LogicOp::And,
        children: vec![Expr::Literal(PolicyValue::Deny), Expr::Binding(nid(99))],
    };
    let mut g = PolicyGraph::new(expr, dep);
    assert_eq!(g.evaluate(&EvalContext::new()), PolicyValue::Deny);
}

#[test]
fn logic_or_allow_short_circuit() {
    let id = nid(11);
    let expr = Expr::Logic {
        id,
        op: LogicOp::Or,
        children: vec![Expr::Literal(PolicyValue::Allow), Expr::Binding(nid(99))],
    };
    let mut g = PolicyGraph::new(expr, DependencyGraph::new());
    assert_eq!(g.evaluate(&EvalContext::new()), PolicyValue::Allow);
}

#[test]
fn logic_at_least_n() {
    let expr = Expr::Logic {
        id: nid(20),
        op: LogicOp::AtLeastN(2),
        children: vec![
            Expr::Literal(PolicyValue::Allow),
            Expr::Literal(PolicyValue::Allow),
            Expr::Literal(PolicyValue::Deny),
        ],
    };
    let mut g = PolicyGraph::new(expr, DependencyGraph::new());
    assert_eq!(g.evaluate(&EvalContext::new()), PolicyValue::Allow);
}

struct Xor;

impl CustomLogicOp for Xor {
    fn combine(&self, inputs: &[PolicyValue]) -> PolicyValue {
        let count = inputs.iter().filter(|&&v| v == PolicyValue::Allow).count();
        if count % 2 == 1 {
            PolicyValue::Allow
        } else {
            PolicyValue::Deny
        }
    }
}

#[test]
fn logic_custom_op() {
    let expr = Expr::Logic {
        id: nid(30),
        op: LogicOp::Custom(Box::new(Xor)),
        children: vec![Expr::Literal(PolicyValue::Allow), Expr::Literal(PolicyValue::Allow)],
    };
    let mut g = PolicyGraph::new(expr, DependencyGraph::new());
    assert_eq!(g.evaluate(&EvalContext::new()), PolicyValue::Deny);
}

// ── Fn nodes ──────────────────────────────────────────────

#[test]
fn fn_ast_output_evaluated() {
    let fn_id = fid("always_allow");
    let expr = Expr::Fn { id: nid(40), fn_id: fn_id.clone(), children: vec![], params: vec![] };
    let mut ctx = EvalContext::new();
    ctx.register_fn(fn_id, |_, _, _| FnOutput::Ast(Expr::Literal(PolicyValue::Allow)));
    let mut g = PolicyGraph::new(expr, DependencyGraph::new());
    assert_eq!(g.evaluate(&ctx), PolicyValue::Allow);
}

#[test]
fn fn_data_only_ignored_by_non_fn_parent() {
    let fn_id = fid("emit_data");
    let expr = Expr::Logic {
        id: nid(50),
        op: LogicOp::And,
        children: vec![
            Expr::Literal(PolicyValue::Allow),
            Expr::Fn { id: nid(51), fn_id: fn_id.clone(), children: vec![], params: vec![] },
        ],
    };
    let mut ctx = EvalContext::new();
    ctx.register_fn(fn_id, |_, _, _| FnOutput::Data(Data::new(42u32)));
    let mut g = PolicyGraph::new(expr, DependencyGraph::new());
    assert_eq!(g.evaluate(&ctx), PolicyValue::Unknown);
}

#[test]
fn fn_both_data_discarded_by_non_fn_parent() {
    let fn_id = fid("both_output");
    let expr = Expr::Fn { id: nid(60), fn_id: fn_id.clone(), children: vec![], params: vec![] };
    let mut ctx = EvalContext::new();
    ctx.register_fn(fn_id, |_, _, _| {
        FnOutput::Both(Expr::Literal(PolicyValue::Deny), Data::new("side_data"))
    });
    let mut g = PolicyGraph::new(expr, DependencyGraph::new());
    assert_eq!(g.evaluate(&ctx), PolicyValue::Deny);
}

#[test]
fn fn_param_binding_passes_data_to_parent_fn() {
    let child_id = fid("child");
    let parent_id = fid("parent");

    let expr = Expr::Fn {
        id: nid(70),
        fn_id: parent_id.clone(),
        children: vec![Expr::Fn { id: nid(71), fn_id: child_id.clone(), children: vec![], params: vec![] }],
        params: vec![ParamBinding { child_index: 0, role: ParamRole::DataOnly }],
    };

    let mut ctx = EvalContext::new();
    ctx.register_fn(child_id, |_, _, _| FnOutput::Data(Data::new(99u32)));
    ctx.register_fn(parent_id, |_, data, _| {
        let val = data
            .and_then(|d| d.downcast_ref::<u32>())
            .map(|&n| if n == 99 { PolicyValue::Allow } else { PolicyValue::Deny })
            .unwrap_or(PolicyValue::Unknown);
        FnOutput::Ast(Expr::Literal(val))
    });

    let mut g = PolicyGraph::new(expr, DependencyGraph::new());
    assert_eq!(g.evaluate(&ctx), PolicyValue::Allow);
}

// ── Cache and diff log ────────────────────────────────────

#[test]
fn cache_hit_avoids_reeval() {
    let id = nid(1);
    let mut g = PolicyGraph::new(Expr::Binding(id), DependencyGraph::new());
    let ctx = EvalContext::new().bind(id, PolicyValue::Allow);
    g.evaluate(&ctx);
    assert_eq!(g.evaluate(&ctx), PolicyValue::Allow);
    assert_eq!(g.audit().len(), 1);
}

#[test]
fn invalidate_and_reeval_updates_cache() {
    let id = nid(1);
    let mut g = PolicyGraph::new(Expr::Binding(id), DependencyGraph::new());

    let ctx1 = EvalContext::new().bind(id, PolicyValue::Allow);
    g.evaluate(&ctx1);

    let ctx2 = EvalContext::new().bind(id, PolicyValue::Deny);
    let result = g.invalidate_and_reeval(id, &ctx2);
    assert_eq!(result, PolicyValue::Deny);
}

#[test]
fn rollback_restores_previous_state() {
    let id = nid(1);
    let mut g = PolicyGraph::new(Expr::Binding(id), DependencyGraph::new());

    let ctx1 = EvalContext::new().bind(id, PolicyValue::Allow);
    g.evaluate(&ctx1);

    let ctx2 = EvalContext::new().bind(id, PolicyValue::Deny);
    g.invalidate_and_reeval(id, &ctx2);

    let before_rollback = g.audit().len();
    g.rollback(2);
    assert!(g.audit().len() < before_rollback);
}

// ── FnOutput ──────────────────────────────────────────────

#[test]
fn fn_output_no_none_none() {
    let _ast = FnOutput::Ast(Expr::Literal(PolicyValue::Allow));
    let _data = FnOutput::Data(Data::new(0u8));
    let _both = FnOutput::Both(Expr::Literal(PolicyValue::Deny), Data::new(0u8));
}

// ── Further cases ─────────────────────────────────────────

fn all_values() -> [PolicyValue; 3] {
    [PolicyValue::Allow, PolicyValue::Deny, PolicyValue::Unknown]
}

#[test]
fn kleene_laws_on_every_value() {
    for a in all_values() {
        assert_eq!(a.not().not(), a);
        assert_eq!(PolicyValue::Allow.and(a), a);
        assert_eq!(PolicyValue::Deny.or(a), a);
        for b in all_values() {
            assert_eq!(a.and(b), b.and(a));
            assert_eq!(a.or(b), b.or(a));
            assert_eq!(a.and(b).not(), a.not().or(b.not()));
            for c in all_values() {
                assert_eq!(a.and(b).and(c), a.and(b.and(c)));
                assert_eq!(a.or(b).or(c), a.or(b.or(c)));
            }
        }
    }
}

#[test]
fn combine_builtin_operators() {
    let vals = [PolicyValue::Allow, PolicyValue::Unknown, PolicyValue::Allow];
    assert_eq!(LogicOp::And.combine(&vals), PolicyValue::Unknown);
    assert_eq!(LogicOp::Or.combine(&vals), PolicyValue::Allow);
    assert_eq!(LogicOp::And.combine(&[]), PolicyValue::Allow);
    assert_eq!(LogicOp::Or.combine(&[]), PolicyValue::Deny);
    assert_eq!(LogicOp::Not.combine(&[PolicyValue::Allow]), PolicyValue::Deny);
    assert_eq!(LogicOp::AtLeastN(3).combine(&vals), PolicyValue::Deny);
    assert_eq!(LogicOp::AtLeastN(2).combine(&vals), PolicyValue::Allow);
    assert_eq!(LogicOp::AtLeastN(0).combine(&[]), PolicyValue::Allow);
}

#[test]
fn logic_ancestors_walks_depth_first() {
    let mut dep = DependencyGraph::new();
    dep.register_parent(nid(1), nid(2));
    dep.register_parent(nid(1), nid(3));
    dep.register_parent(nid(2), nid(4));
    dep.register_parent(nid(3), nid(4));
    dep.register_parent(nid(3), nid(5));
    let ids: Vec<u64> = dep.logic_ancestors(nid(1)).iter().map(|n| n.0).collect();
    // parents of 1, then the ancestors of the last parent (3) before those of 2
    assert_eq!(ids, vec![2, 3, 4, 5, 4]);
    assert!(dep.logic_ancestors(nid(5)).is_empty());
}

#[test]
fn not_node_and_nested_logic() {
    let expr = Expr::Logic {
        id: nid(1),
        op: LogicOp::Not,
        children: vec![Expr::Logic {
            id: nid(2),
            op: LogicOp::Or,
            children: vec![Expr::Binding(nid(3)), Expr::Literal(PolicyValue::Deny)],
        }],
    };
    assert!(is_well_formed(&expr));
    let mut g = PolicyGraph::new(expr, DependencyGraph::new());
    assert_eq!(g.evaluate(&EvalContext::new()), PolicyValue::Unknown);
    let ctx = EvalContext::new().bind(nid(3), PolicyValue::Deny);
    assert_eq!(g.invalidate_and_reeval(nid(3), &ctx), PolicyValue::Allow);
}

#[test]
fn malformed_not_is_detected() {
    let expr = Expr::Logic {
        id: nid(1),
        op: LogicOp::Not,
        children: vec![Expr::Literal(PolicyValue::Allow), Expr::Literal(PolicyValue::Deny)],
    };
    assert!(!is_well_formed(&expr));
    assert!(is_well_formed(&Expr::Literal(PolicyValue::Allow)));
}

#[test]
fn rollback_reverts_cache_and_log() {
    let id = nid(7);
    let mut g = PolicyGraph::new(Expr::Binding(id), DependencyGraph::new());
    g.evaluate(&EvalContext::new().bind(id, PolicyValue::Allow));
    let ctx2 = EvalContext::new().bind(id, PolicyValue::Deny);
    assert_eq!(g.invalidate_and_reeval(id, &ctx2), PolicyValue::Deny);
    // log: set Allow, invalidate, set Deny
    assert_eq!(g.audit().len(), 3);
    assert_eq!(g.audit()[1].before, PolicyValue::Allow);
    assert_eq!(g.audit()[1].after, PolicyValue::Unknown);
    g.rollback(2);
    assert_eq!(g.audit().len(), 1);
    // the cached Allow is back: evaluating with another context hits the cache
    assert_eq!(g.evaluate(&ctx2), PolicyValue::Allow);
    g.rollback(10);
    assert_eq!(g.audit().len(), 0);
    assert_eq!(g.evaluate(&ctx2), PolicyValue::Deny);
}

#[test]
fn evaluated_expr_starts_empty() {
    let e = EvaluatedExpr::new();
    assert!(AuditComponent::audit(&e).is_empty());
}

#[test]
fn data_graph_returns_function_data() {
    let fn_id = fid("make");
    let expr = Expr::Fn { id: nid(1), fn_id: fn_id.clone(), children: vec![], params: vec![] };
    let mut ctx = EvalContext::new().with_meta("k", "v");
    ctx.register_fn(fn_id, |_, _, _| FnOutput::Data(Data::new(5u32)));
    let mut g = DataGraph::new(expr, DependencyGraph::new());
    let d = g.evaluate(&ctx).unwrap();
    assert_eq!(d.downcast_ref::<u32>(), Some(&5u32));
    assert!(d.downcast_ref::<u8>().is_none());

    let mut lit = DataGraph::new(Expr::Literal(PolicyValue::Allow), DependencyGraph::new());
    assert!(lit.evaluate(&EvalContext::new()).is_none());
}

#[test]
fn unregistered_function_yields_unknown() {
    let expr = Expr::Fn { id: nid(1), fn_id: fid("missing"), children: vec![], params: vec![] };
    let mut g = PolicyGraph::new(expr, DependencyGraph::new());
    assert_eq!(g.evaluate(&EvalContext::new()), PolicyValue::Unknown);
    assert!(g.audit().is_empty());
}

#[test]
fn function_output_parts() {
    assert!(fn_output_expr(None).is_none());
    assert!(fn_output_expr(Some(FnOutput::Data(Data::new(1u8)))).is_none());
    assert!(matches!(
        fn_output_expr(Some(FnOutput::Both(Expr::Literal(PolicyValue::Deny), Data::new(1u8)))),
        Some(Expr::Literal(PolicyValue::Deny))
    ));
    let out = FnOutput::Both(Expr::Literal(PolicyValue::Allow), Data::new(3u8));
    assert!(out.expr_ref().is_some());
    assert!(out.data_ref().is_some());
    let (e, d) = out.into_parts();
    assert!(e.is_some() && d.is_some());
    assert_eq!(Expr::Binding(nid(4)).node_id(), Some(nid(4)));
    assert_eq!(Expr::Literal(PolicyValue::Allow).node_id(), None);
}

#[test]
fn assign_param_roles() {
    let mut ast = None;
    let mut data = None;
    assign_param(ParamRole::Both, Some(Expr::Literal(PolicyValue::Allow)), Some(Data::new(1u8)), &mut ast, &mut data);
    assert!(ast.is_some() && data.is_some());
    assign_param(ParamRole::Both, Some(Expr::Literal(PolicyValue::Deny)), None, &mut ast, &mut data);
    assert!(matches!(ast, Some(Expr::Literal(PolicyValue::Allow))));
    assert!(data.is_some());
    assign_param(ParamRole::DataOnly, None, None, &mut ast, &mut data);
    assert!(data.is_none());
    assign_param(ParamRole::Ast, Some(Expr::Literal(PolicyValue::Deny)), None, &mut ast, &mut data);
    assert!(matches!(ast, Some(Expr::Literal(PolicyValue::Deny))));
}

#[test]
fn fn_node_passes_literal_child_as_ast() {
    let fn_id = fid("echo");
    let expr = Expr::Fn {
        id: nid(1),
        fn_id: fn_id.clone(),
        children: vec![Expr::Binding(nid(2)), Expr::Literal(PolicyValue::Deny)],
        params: vec![
            ParamBinding { child_index: 5, role: ParamRole::Ast },
            ParamBinding { child_index: 0, role: ParamRole::Ast },
        ],
    };
    let mut ctx = EvalContext::new().bind(nid(2), PolicyValue::Allow);
    ctx.register_fn(fn_id, |ast, _, _| match ast {
        Some(Expr::Literal(v)) => FnOutput::Ast(Expr::Literal(*v)),
        _ => FnOutput::Ast(Expr::Literal(PolicyValue::Unknown)),
    });
    let mut g = PolicyGraph::new(expr, DependencyGraph::new());
    assert_eq!(g.evaluate(&ctx), PolicyValue::Allow);
}

#[test]
fn evaluation_caches_no_unknown() {
    // And(Binding 1 unbound, Or(Binding 2 unbound, Literal Deny)): every
    // node comes to Unknown, and nothing is cached or logged for them.
    let expr = Expr::Logic {
        id: nid(20),
        op: LogicOp::And,
        children: vec![
            Expr::Binding(nid(1)),
            Expr::Logic {
                id: nid(21),
                op: LogicOp::Or,
                children: vec![Expr::Binding(nid(2)), Expr::Literal(PolicyValue::Deny)],
            },
        ],
    };
    let mut g = PolicyGraph::new(expr, DependencyGraph::new());
    assert_eq!(g.evaluate(&EvalContext::new()), PolicyValue::Unknown);
    assert!(g.audit().is_empty());
    let ctx = EvalContext::new().bind(nid(2), PolicyValue::Allow);
    let mut g2 = PolicyGraph::new(
        Expr::Logic { id: nid(30), op: LogicOp::Or, children: vec![Expr::Binding(nid(1)), Expr::Binding(nid(2))] },
        DependencyGraph::new(),
    );
    assert_eq!(g2.evaluate(&ctx), PolicyValue::Allow);
    assert!(g2.audit().iter().all(|d| d.after != PolicyValue::Unknown));
    assert_eq!(g2.audit().len(), 2);
}

#[test]
fn metadata_entry_is_stored_and_replaced() {
    let ctx = EvalContext::new().with_meta("k", "v").with_meta("other", String::from("w"));
    assert_eq!(ctx.meta.get("k"), Some(&String::from("v")));
    assert_eq!(ctx.meta.get("other"), Some(&String::from("w")));
    assert_eq!(ctx.meta.len(), 2);
    let ctx = ctx.with_meta("k", "z");
    assert_eq!(ctx.meta.get("k"), Some(&String::from("z")));
    assert_eq!(ctx.meta.len(), 2);
}

#[test]
fn registering_again_replaces_the_function() {
    let fn_id = fid("choose");
    let expr = Expr::Fn { id: nid(60), fn_id: fn_id.clone(), children: vec![], params: vec![] };
    let mut ctx = EvalContext::new();
    ctx.register_fn(fn_id.clone(), |_, _, _| FnOutput::Ast(Expr::Literal(PolicyValue::Allow)));
    ctx.register_fn(fn_id, |_, _, _| FnOutput::Ast(Expr::Literal(PolicyValue::Deny)));
    let mut g = PolicyGraph::new(expr, DependencyGraph::new());
    assert_eq!(g.evaluate(&ctx), PolicyValue::Deny);
}

#[test]
fn custom_op_sees_every_child() {
    let expr = Expr::Logic {
        id: nid(31),
        op: LogicOp::Custom(Box::new(Xor)),
        children: vec![Expr::Literal(PolicyValue::Deny), Expr::Literal(PolicyValue::Allow)],
    };
    let mut g = PolicyGraph::new(expr, DependencyGraph::new());
    assert_eq!(g.evaluate(&EvalContext::new()), PolicyValue::Allow);
}

#[test]
fn reevaluation_invalidates_every_ancestor() {
    let b = nid(10);
    let expr = Expr::Logic {
        id: nid(1),
        op: LogicOp::Or,
        children: vec![
            Expr::Logic { id: nid(2), op: LogicOp::And, children: vec![Expr::Binding(b)] },
            Expr::Logic { id: nid(3), op: LogicOp::And, children: vec![Expr::Binding(b)] },
        ],
    };
    let mut g = PolicyGraph::new(expr, DependencyGraph::new());
    assert_eq!(g.evaluate(&EvalContext::new().bind(b, PolicyValue::Allow)), PolicyValue::Allow);
    let r = g.invalidate_and_reeval(b, &EvalContext::new().bind(b, PolicyValue::Deny));
    assert_eq!(r, PolicyValue::Deny);
}

#[test]
fn data_graph_unregistered_root_gives_nothing() {
    let expr = Expr::Fn { id: nid(80), fn_id: fid("missing"), children: vec![], params: vec![] };
    let mut g = DataGraph::new(expr, DependencyGraph::new());
    assert!(g.evaluate(&EvalContext::new()).is_none());
}

#[test]
fn rollback_of_the_last_diffs_keeps_the_first() {
    let a = nid(1);
    let b = nid(2);
    let expr = Expr::Logic { id: nid(3), op: LogicOp::And, children: vec![Expr::Binding(a), Expr::Binding(b)] };
    let mut g = PolicyGraph::new(expr, DependencyGraph::new());
    let ctx = EvalContext::new().bind(a, PolicyValue::Allow).bind(b, PolicyValue::Allow);
    assert_eq!(g.evaluate(&ctx), PolicyValue::Allow);
    assert_eq!(g.audit().len(), 3);
    g.rollback(2);
    assert_eq!(g.audit().len(), 1);
    assert_eq!(g.audit()[0].node_id, a);
    assert_eq!(g.audit()[0].after, PolicyValue::Allow);
    let ctx2 = EvalContext::new().bind(a, PolicyValue::Deny).bind(b, PolicyValue::Allow);
    assert_eq!(g.evaluate(&ctx2), PolicyValue::Allow);
}

#[test]
fn reevaluation_matches_a_fresh_graph() {
    let b = nid(10);
    let make = || Expr::Logic {
        id: nid(1),
        op: LogicOp::Custom(Box::new(Xor)),
        children: vec![
            Expr::Binding(b),
            Expr::Logic {
                id: nid(2),
                op: LogicOp::And,
                children: vec![
                    Expr::Literal(PolicyValue::Allow),
                    Expr::Fn { id: nid(3), fn_id: fid("yes"), children: vec![], params: vec![] },
                ],
            },
        ],
    };
    let mut ctx1 = EvalContext::new().bind(b, PolicyValue::Allow);
    ctx1.register_fn(fid("yes"), |_, _, _| FnOutput::Ast(Expr::Literal(PolicyValue::Allow)));
    let mut ctx2 = EvalContext::new().bind(b, PolicyValue::Deny);
    ctx2.register_fn(fid("yes"), |_, _, _| FnOutput::Ast(Expr::Literal(PolicyValue::Allow)));

    let mut g = PolicyGraph::new(make(), DependencyGraph::new());
    assert_eq!(g.evaluate(&ctx1), PolicyValue::Deny);
    let again = g.invalidate_and_reeval(b, &ctx2);

    let mut fresh = PolicyGraph::new(make(), DependencyGraph::new());
    assert_eq!(again, fresh.evaluate(&ctx2));
    assert_eq!(again, PolicyValue::Allow);
}

#[test]
fn reevaluation_through_a_function_matches_a_fresh_graph() {
    let b = nid(20);
    let make = || Expr::Logic {
        id: nid(21),
        op: LogicOp::Not,
        children: vec![Expr::Fn {
            id: nid(22),
            fn_id: fid("echo"),
            children: vec![Expr::Binding(b)],
            params: vec![ParamBinding { child_index: 0, role: ParamRole::Ast }],
        }],
    };
    let echo = |ast: Option<&Expr>, _: Option<&Data>, _: &EvalContext| match ast {
        Some(Expr::Literal(v)) => FnOutput::Ast(Expr::Literal(*v)),
        _ => FnOutput::Ast(Expr::Literal(PolicyValue::Unknown)),
    };
    let mut ctx1 = EvalContext::new().bind(b, PolicyValue::Allow);
    ctx1.register_fn(fid("echo"), echo);
    let mut ctx2 = EvalContext::new().bind(b, PolicyValue::Deny);
    ctx2.register_fn(fid("echo"), echo);

    let mut g = PolicyGraph::new(make(), DependencyGraph::new());
    assert_eq!(g.evaluate(&ctx1), PolicyValue::Deny);
    let again = g.invalidate_and_reeval(b, &ctx2);

    let mut fresh = PolicyGraph::new(make(), DependencyGraph::new());
    assert_eq!(again, fresh.evaluate(&ctx2));
    assert_eq!(again, PolicyValue::Allow);
}
