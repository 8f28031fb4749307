use flock_context::context::{CloudFunction, DataSinkType, ExecutionContext, ObjectRef, PlanSlot};
use flock_context::encoding::Encoding;
use flock_context::envelope::{CloudEnvironment, ContextError};
use flock_context::plan::{FeedError, Operator, Plan};

fn names(v: &[&str]) -> Vec<String> {
    v.iter().map(|s| s.to_string()).collect()
}

fn op(descriptor: &str, schema: &[&str], children: Vec<usize>) -> Operator {
    Operator { descriptor: descriptor.as_bytes().to_vec(), schema: names(schema), children }
}

/// A coalescing operator over a scan of `c1, c2, c3`.
fn coalesce_plan() -> Plan {
    Plan::from_operators(vec![
        op("coalesce_batches_exec", &["c1", "c2", "c3"], vec![1]),
        op("memory_exec", &["c1", "c2", "c3"], vec![]),
    ])
    .unwrap()
}

/// `SELECT a, b, d FROM t1 JOIN t2 ON a = c ORDER BY a LIMIT 3`, laid out
/// breadth-first.
fn join_plan() -> Plan {
    Plan::from_operators(vec![
        op("global_limit_exec", &["a", "b", "d"], vec![1]),
        op("sort_exec", &["a", "b", "d"], vec![2]),
        op("projection_exec", &["a", "b", "d"], vec![3]),
        op("hash_join_exec", &["a", "b", "c", "d"], vec![4, 5]),
        op("memory_exec", &["a", "b"], vec![]),
        op("memory_exec", &["c", "d"], vec![]),
    ])
    .unwrap()
}

fn inline_context(plan: Plan, name: &str, next: CloudFunction) -> ExecutionContext {
    ExecutionContext { plan: PlanSlot::Inline(plan), name: name.to_string(), next }
}

fn leaf_binding(ctx: &ExecutionContext, i: usize) -> Option<usize> {
    match &ctx.plan {
        PlanSlot::Inline(p) => p.binding(i),
        PlanSlot::Deferred(_) => panic!("plan is deferred"),
    }
}

#[test]
fn lambda_context_marshal() {
    let name = "hello".to_owned();
    let next = CloudFunction::Lambda("SX72HzqFz1Qij4bP-00-2021-01-28T19:27:50.298504836Z".to_owned());
    let lambda_context = inline_context(coalesce_plan(), &name, next);

    let json = lambda_context.marshal(Encoding::default()).unwrap();
    let de_json = ExecutionContext::unmarshal(&json).unwrap();
    assert_eq!(lambda_context, de_json);
}

#[test]
fn feed_one_source() {
    // SELECT MAX(c1), MIN(c2), c3 FROM test WHERE c2 < 99 GROUP BY c3
    let plan = Plan::from_operators(vec![
        op("hash_aggregate_exec", &["MAX(test.c1)", "MIN(test.c2)", "c3"], vec![1]),
        op("coalesce_batches_exec", &["c1", "c2", "c3"], vec![2]),
        op("filter_exec", &["c1", "c2", "c3"], vec![3]),
        op("memory_exec", &["c1", "c2", "c3"], vec![]),
    ])
    .unwrap();
    let mut ctx = inline_context(plan, "test", CloudFunction::Sink(DataSinkType::Empty));
    ctx.feed_one_source().unwrap();
    assert_eq!(leaf_binding(&ctx, 3), Some(0));
    for i in 0..3 {
        assert_eq!(leaf_binding(&ctx, i), None);
    }
}

#[test]
fn feed_two_source() {
    let mut ctx = inline_context(join_plan(), "test", CloudFunction::Sink(DataSinkType::Empty));
    ctx.feed_two_source(&names(&["a", "b"]), &names(&["c", "d"])).unwrap();
    assert_eq!(leaf_binding(&ctx, 4), Some(0));
    assert_eq!(leaf_binding(&ctx, 5), Some(1));
    assert_eq!(leaf_binding(&ctx, 3), None);
}

#[test]
fn feed_two_source_reversed_keeps_leaves() {
    let mut ctx = inline_context(join_plan(), "test", CloudFunction::Sink(DataSinkType::Empty));
    ctx.feed_two_source(&names(&["c", "d"]), &names(&["a", "b"])).unwrap();
    assert_eq!(leaf_binding(&ctx, 4), Some(1));
    assert_eq!(leaf_binding(&ctx, 5), Some(0));
}

#[test]
fn feed_leaf_schema_is_projection_of_batch() {
    let mut ctx = inline_context(join_plan(), "test", CloudFunction::Sink(DataSinkType::Empty));
    ctx.feed_two_source(&names(&["a", "b", "x"]), &names(&["d", "c"])).unwrap();
    assert_eq!(leaf_binding(&ctx, 4), Some(0));
    assert_eq!(leaf_binding(&ctx, 5), Some(1));
}

#[test]
fn feed_unmatched_leaf_fails_and_binds_nothing() {
    let mut ctx = inline_context(join_plan(), "test", CloudFunction::Sink(DataSinkType::Empty));
    let r = ctx.feed_two_source(&names(&["a", "b"]), &names(&["x", "y"]));
    assert_eq!(r, Err(FeedError::UnmatchedLeaf(5)));
    assert_eq!(leaf_binding(&ctx, 4), None);
}

#[test]
fn feed_data_sources_first_match_wins() {
    let mut ctx = inline_context(join_plan(), "test", CloudFunction::Sink(DataSinkType::Empty));
    let sources = vec![names(&["c", "d"]), names(&["a", "b"]), names(&["b", "a"])];
    ctx.feed_data_sources(&sources).unwrap();
    assert_eq!(leaf_binding(&ctx, 4), Some(1));
    assert_eq!(leaf_binding(&ctx, 5), Some(0));
}

#[test]
fn feed_one_source_without_leaf() {
    let mut ctx = inline_context(Plan::from_operators(vec![]).unwrap(), "test", CloudFunction::default());
    assert_eq!(ctx.feed_one_source(), Err(FeedError::NoLeaf));
}

#[test]
fn marshal_round_trip_every_codec() {
    let next = CloudFunction::Group(("q7-02".to_string(), 8));
    let ctx = inline_context(join_plan(), "q7-01-03", next);
    for e in [Encoding::Plain, Encoding::Snappy, Encoding::Lz4] {
        let s = ctx.marshal(e).unwrap();
        let back = ExecutionContext::unmarshal(&s).unwrap();
        assert_eq!(back, ctx);
        assert_eq!(back.name, "q7-01-03");
        match back.next {
            CloudFunction::Group((n, g)) => {
                assert_eq!(n, "q7-02");
                assert_eq!(g, 8);
            }
            _ => panic!("wrong target"),
        }
    }
}

#[test]
fn marshal_deferred_plan_round_trip() {
    let ctx = ExecutionContext {
        plan: PlanSlot::Deferred(ObjectRef { bucket: "plans".to_string(), key: "q3-00".to_string() }),
        name: "q3-00-00".to_string(),
        next: CloudFunction::Sink(DataSinkType::S3),
    };
    let back = ExecutionContext::unmarshal(&ctx.marshal(Encoding::Snappy).unwrap()).unwrap();
    assert_eq!(back, ctx);
    let r = back.overflow_ref().unwrap();
    assert_eq!(r.bucket, "plans");
    assert_eq!(r.key, "q3-00");
}

#[test]
fn compressed_context_differs_from_plain() {
    let ctx = inline_context(join_plan(), "q7-01-03", CloudFunction::default());
    let plain = ctx.marshal(Encoding::Plain).unwrap();
    let snappy = ctx.marshal(Encoding::Snappy).unwrap();
    let lz4 = ctx.marshal(Encoding::Lz4).unwrap();
    assert_ne!(plain, snappy);
    assert_ne!(plain, lz4);
    assert!(plain.ends_with(",\"encoding\":0}"));
    assert!(snappy.ends_with(",\"encoding\":1}"));
    assert!(lz4.ends_with(",\"encoding\":2}"));
}

#[test]
fn unmarshal_unknown_codec() {
    let r = ExecutionContext::unmarshal("{\"context\":\"00\",\"encoding\":7}");
    assert_eq!(r.err(), Some(ContextError::UnsupportedEncoding(7)));
}

#[test]
fn unmarshal_malformed() {
    assert_eq!(ExecutionContext::unmarshal("{}").err(), Some(ContextError::Malformed));
    assert_eq!(ExecutionContext::unmarshal("{\"context\":\"0g\",\"encoding\":0}").err(), Some(ContextError::Malformed));
    assert_eq!(ExecutionContext::unmarshal("{\"context\":\"00\",\"encoding\":0}").err(), Some(ContextError::Malformed));
}

#[test]
fn unmarshal_bad_compressed_payload() {
    assert_eq!(
        ExecutionContext::unmarshal("{\"context\":\"ff\",\"encoding\":2}").err(),
        Some(ContextError::Decompress)
    );
}

#[test]
fn envelope_json_text() {
    let env = CloudEnvironment { context: vec![0x00, 0xab, 0x7f], encoding: Encoding::Lz4 };
    assert_eq!(env.to_json(), "{\"context\":\"00ab7f\",\"encoding\":2}");
    let back = CloudEnvironment::from_json(&env.to_json()).unwrap();
    assert_eq!(back.context, vec![0x00, 0xab, 0x7f]);
    assert_eq!(back.encoding, Encoding::Lz4);
}

#[test]
fn to_bytes_layout() {
    let ctx = inline_context(Plan::from_operators(vec![]).unwrap(), "ab", CloudFunction::Sink(DataSinkType::Print));
    let mut expected = vec![0u8];
    expected.extend_from_slice(&0u64.to_le_bytes());
    expected.extend_from_slice(&2u64.to_le_bytes());
    expected.extend_from_slice(b"ab");
    expected.extend_from_slice(&[2, 2]);
    assert_eq!(ctx.to_bytes(), expected);
    assert_eq!(ExecutionContext::from_bytes(&expected).unwrap(), ctx);
    let mut longer = expected.clone();
    longer.push(0);
    assert_eq!(ExecutionContext::from_bytes(&longer).err(), Some(ContextError::Malformed));
}

#[test]
fn resolve_deferred_plan() {
    let stored = inline_context(join_plan(), "x", CloudFunction::default()).to_bytes();
    // The stored object is the plan's own bytes: everything after the slot tag
    // and before the name.
    let plan_bytes = {
        let name_len = 8 + 1;
        stored[1..stored.len() - name_len - 2].to_vec()
    };
    let mut ctx = ExecutionContext {
        plan: PlanSlot::Deferred(ObjectRef { bucket: "b".to_string(), key: "k".to_string() }),
        name: "q1-00-00".to_string(),
        next: CloudFunction::default(),
    };
    assert_eq!(ctx.feed_one_source(), Err(FeedError::PlanNotLoaded));
    assert_eq!(ctx.plan(&[1, 2, 3]), Err(ContextError::Malformed));
    assert!(ctx.overflow_ref().is_some());
    ctx.plan(&plan_bytes).unwrap();
    assert!(ctx.overflow_ref().is_none());
    ctx.feed_two_source(&names(&["a", "b"]), &names(&["c", "d"])).unwrap();
    assert_eq!(leaf_binding(&ctx, 4), Some(0));
    assert_eq!(leaf_binding(&ctx, 5), Some(1));
    // A second call keeps the resolved plan and its bindings.
    ctx.plan(&[]).unwrap();
    assert_eq!(leaf_binding(&ctx, 4), Some(0));
}

#[test]
fn default_context() {
    let ctx = ExecutionContext::default();
    assert_eq!(ctx.name, "");
    assert!(matches!(ctx.next, CloudFunction::Sink(DataSinkType::Empty)));
    assert!(matches!(CloudFunction::default(), CloudFunction::Sink(DataSinkType::Empty)));
}

#[test]
fn breadth_first_layout_is_checked() {
    let nodes = vec![
        op("hash_join_exec", &["a", "b", "c", "d"], vec![1, 2]),
        op("memory_exec", &["a", "b"], vec![]),
        op("memory_exec", &["c", "d"], vec![]),
    ];
    assert!(Plan::from_operators(nodes).is_some());
    // Node 1 claims node 1 as its own input.
    let cyclic = vec![op("x", &[], vec![]), op("y", &[], vec![1])];
    assert!(Plan::from_operators(cyclic).is_none());
    // Inputs listed out of breadth-first order.
    let swapped = vec![op("j", &[], vec![2, 1]), op("l", &[], vec![]), op("r", &[], vec![])];
    assert!(Plan::from_operators(swapped).is_none());
    // A node that nothing reads.
    let orphan = vec![op("x", &[], vec![]), op("y", &[], vec![])];
    assert!(Plan::from_operators(orphan).is_none());
    // An empty plan has no operator to misnumber.
    assert!(Plan::from_operators(vec![]).is_some());
}

#[test]
fn targets_and_envelopes_compare_by_value() {
    assert_eq!(CloudFunction::Lambda("f".to_string()), CloudFunction::Lambda("f".to_string()));
    assert_ne!(CloudFunction::Lambda("f".to_string()), CloudFunction::Lambda("g".to_string()));
    assert_eq!(CloudFunction::Group(("g".to_string(), 2)), CloudFunction::Group(("g".to_string(), 2)));
    assert_ne!(CloudFunction::Group(("g".to_string(), 2)), CloudFunction::Group(("g".to_string(), 3)));
    assert_ne!(CloudFunction::Sink(DataSinkType::S3), CloudFunction::Sink(DataSinkType::SQS));
    let a = CloudEnvironment { context: vec![1, 2], encoding: Encoding::Plain };
    let b = CloudEnvironment { context: vec![1, 2], encoding: Encoding::Plain };
    let c = CloudEnvironment { context: vec![1, 2], encoding: Encoding::Snappy };
    assert_eq!(a, b);
    assert_ne!(a, c);
}

#[test]
fn unmarshal_rejects_plan_not_breadth_first() {
    // A plan slot with two operators where node 1 reads itself.
    let mut bytes = vec![0u8];
    bytes.extend_from_slice(&2u64.to_le_bytes());
    for children in [vec![], vec![1u64]] {
        bytes.extend_from_slice(&0u64.to_le_bytes()); // descriptor
        bytes.extend_from_slice(&0u64.to_le_bytes()); // schema
        bytes.extend_from_slice(&(children.len() as u64).to_le_bytes());
        for c in children {
            bytes.extend_from_slice(&c.to_le_bytes());
        }
    }
    bytes.extend_from_slice(&0u64.to_le_bytes()); // name
    bytes.extend_from_slice(&[2, 0]); // sink
    assert_eq!(ExecutionContext::from_bytes(&bytes).err(), Some(ContextError::Malformed));
    let env = CloudEnvironment { context: bytes, encoding: Encoding::Plain };
    assert_eq!(ExecutionContext::unmarshal(&env.to_json()).err(), Some(ContextError::Malformed));
}

#[test]
fn unmarshal_snappy_garbage_is_decompress_error() {
    let env = CloudEnvironment { context: vec![0xff, 0xff, 0xff, 0xff, 0xff], encoding: Encoding::Snappy };
    assert_eq!(ExecutionContext::unmarshal(&env.to_json()).err(), Some(ContextError::Decompress));
}

#[test]
fn address_member_contexts() {
    let concurrency = vec![1, 4, 1];
    let fs = flock_context::launch::plan_functions("q9", &concurrency, 2).unwrap();
    for f in &fs {
        let mut ctx = inline_context(coalesce_plan(), "", CloudFunction::default());
        flock_context::launch::address_context(&mut ctx, "q9", &concurrency, f, 2, DataSinkType::SQS);
        assert_eq!(ctx.name, f.name);
        let expected = match f.fragment {
            0 => CloudFunction::Group(("q9-01".to_string(), 2)),
            1 => CloudFunction::Lambda("q9-02-00".to_string()),
            _ => CloudFunction::Sink(DataSinkType::SQS),
        };
        assert_eq!(ctx.next, expected);
    }
}

#[test]
fn marshal_is_repeatable() {
    for e in [Encoding::Plain, Encoding::Snappy, Encoding::Lz4] {
        let a = inline_context(join_plan(), "q7-01-03", CloudFunction::default());
        let b = inline_context(join_plan(), "q7-01-03", CloudFunction::default());
        assert_eq!(a.marshal(e).unwrap(), a.marshal(e).unwrap());
        assert_eq!(a.marshal(e).unwrap(), b.marshal(e).unwrap());
    }
}

#[test]
fn marshal_refuses_plan_not_breadth_first() {
    let plan = Plan {
        nodes: vec![op("x", &[], vec![]), op("y", &[], vec![1])],
        bindings: vec![None, None],
    };
    let ctx = inline_context(plan, "q1-00-00", CloudFunction::default());
    assert_eq!(ctx.marshal(Encoding::Plain).err(), Some(ContextError::Malformed));
}
