//! The execution context: the unit that travels from one compute function to
//! the next, with its plan fragment, its own address and its downstream
//! target, and the byte format it travels in.
use vstd::prelude::*;
use vstd::bytes::lemma_auto_spec_u64_to_from_le_bytes;
use crate::plan::{breadth_first, Operator, Plan, FeedError, names_of, schemas_of, one_source_fed, sources_fed, children_of, breadth_first_children};
use crate::encoding::{Encoding, decoded, tag_of, encoding_of_tag, snappy_encoded, MAX_CONTENT_LEN};
use crate::envelope::{CloudEnvironment, ContextError, envelope_text};
use crate::wire::{
    encodes_at, lemma_encodes_at_concat, read_bytes, read_indices, read_str, read_strs, read_u64,
    ser_bytes, ser_indices, ser_str, ser_strs, ser_u64, write_bytes, write_indices, write_str,
    write_strs, write_u64,
};

verus! {

/// Where a plan too large to travel inline is stored.
#[derive(Debug, Clone)]
pub struct ObjectRef {
    pub bucket: String,
    pub key: String,
}

/// A context's plan: carried inline, or deferred to the overflow store.
#[derive(Debug, Clone)]
pub enum PlanSlot {
    Inline(Plan),
    Deferred(ObjectRef),
}

/// A terminal data sink.
#[derive(Debug, Clone, Copy, PartialEq, Eq, Structural)]
pub enum DataSinkType {
    Empty,
    Blank,
    Print,
    S3,
    DynamoDB,
    SQS,
}

/// The downstream target of a context.
#[derive(Debug)]
pub enum CloudFunction {
    /// One fixed downstream function.
    Lambda(String),
    /// A group of functions named `{name}-{i:02}` for `i` in `0..size`; the
    /// sender picks the member to invoke.
    Group((String, usize)),
    /// No further invocation: the results go to a sink.
    Sink(DataSinkType),
}

/// The unit passed from one invocation to the next.
#[derive(Debug)]
pub struct ExecutionContext {
    /// The plan fragment this function runs.
    pub plan: PlanSlot,
    /// This function's address, `{digest}-{fragment:02}-{replica:02}`.
    pub name: String,
    /// Where the results go.
    pub next: CloudFunction,
}

/// What an operator carries over the wire: its descriptor, its field names
/// and its inputs.
pub type OperatorView = (Seq<u8>, Seq<Seq<char>>, Seq<usize>);

/// A plan slot as it travels.
pub enum SlotView {
    Inline(Seq<OperatorView>),
    Deferred(Seq<char>, Seq<char>),
}

/// A downstream target as it travels.
pub enum NextView {
    Lambda(Seq<char>),
    Group(Seq<char>, usize),
    Sink(DataSinkType),
}

/// An execution context as it travels. Which sources are bound to the
/// plan's leaves stays behind: it belongs to one invocation.
pub type ContextView = (SlotView, Seq<char>, NextView);

pub open spec fn operator_view(o: Operator) -> OperatorView {
    (o.descriptor@, names_of(o.schema@), o.children@)
}

pub open spec fn operators_view(ops: Seq<Operator>) -> Seq<OperatorView> {
    ops.map_values(|o: Operator| operator_view(o))
}

pub open spec fn slot_view(s: PlanSlot) -> SlotView {
    match s {
        PlanSlot::Inline(p) => SlotView::Inline(operators_view(p.nodes@)),
        PlanSlot::Deferred(r) => SlotView::Deferred(r.bucket@, r.key@),
    }
}

pub open spec fn next_view(n: CloudFunction) -> NextView {
    match n {
        CloudFunction::Lambda(s) => NextView::Lambda(s@),
        CloudFunction::Group((s, g)) => NextView::Group(s@, g),
        CloudFunction::Sink(t) => NextView::Sink(t),
    }
}

pub open spec fn context_view(c: ExecutionContext) -> ContextView {
    (slot_view(c.plan), c.name@, next_view(c.next))
}

/// The input lists of the operators as they travel.
pub open spec fn view_children(ops: Seq<OperatorView>) -> Seq<Seq<usize>> {
    ops.map_values(|o: OperatorView| o.2)
}

/// A travelling plan slot that a plan can be rebuilt from: an inline plan's
/// operators are numbered breadth-first.
pub open spec fn slot_valid(s: SlotView) -> bool {
    s matches SlotView::Inline(ops) ==> breadth_first_children(view_children(ops))
}

/// A travelling context that a context can be rebuilt from.
pub open spec fn context_valid(c: ContextView) -> bool {
    slot_valid(c.0)
}

proof fn lemma_view_children(nodes: Seq<Operator>)
    ensures
        view_children(operators_view(nodes)) == children_of(nodes),
{
    assert(view_children(operators_view(nodes)) =~= children_of(nodes));
}

/// The byte that names a sink.
pub open spec fn sink_tag(t: DataSinkType) -> u8 {
    match t {
        DataSinkType::Empty => 0,
        DataSinkType::Blank => 1,
        DataSinkType::Print => 2,
        DataSinkType::S3 => 3,
        DataSinkType::DynamoDB => 4,
        DataSinkType::SQS => 5,
    }
}

pub open spec fn ser_operator(o: OperatorView) -> Seq<u8> {
    ser_bytes(o.0) + ser_strs(o.1) + ser_indices(o.2)
}

pub open spec fn cat_operators(ops: Seq<OperatorView>) -> Seq<u8>
    decreases ops.len(),
{
    if ops.len() == 0 {
        Seq::empty()
    } else {
        ser_operator(ops[0]) + cat_operators(ops.drop_first())
    }
}

/// A plan: its operator count, then each operator in breadth-first order.
pub open spec fn ser_operators(ops: Seq<OperatorView>) -> Seq<u8> {
    ser_u64(ops.len() as u64) + cat_operators(ops)
}

pub open spec fn ser_slot(s: SlotView) -> Seq<u8> {
    match s {
        SlotView::Inline(ops) => seq![0u8] + ser_operators(ops),
        SlotView::Deferred(bucket, key) => seq![1u8] + ser_str(bucket) + ser_str(key),
    }
}

pub open spec fn ser_next(n: NextView) -> Seq<u8> {
    match n {
        NextView::Lambda(s) => seq![0u8] + ser_str(s),
        NextView::Group(s, g) => seq![1u8] + ser_str(s) + ser_u64(g as u64),
        NextView::Sink(t) => seq![2u8, sink_tag(t)],
    }
}

/// The bytes of an execution context: plan slot, name, downstream target.
pub open spec fn ser_context(c: ContextView) -> Seq<u8> {
    ser_slot(c.0) + ser_str(c.1) + ser_next(c.2)
}

pub proof fn lemma_cat_operators_push(ops: Seq<OperatorView>, o: OperatorView)
    ensures
        cat_operators(ops.push(o)) == cat_operators(ops) + ser_operator(o),
    decreases ops.len(),
{
    if ops.len() == 0 {
        assert(ops.push(o).drop_first() =~= Seq::<OperatorView>::empty());
        assert(cat_operators(ops.push(o).drop_first()) == Seq::<u8>::empty());
        assert(cat_operators(ops) == Seq::<u8>::empty());
        assert(cat_operators(ops.push(o)) =~= cat_operators(ops) + ser_operator(o));
    } else {
        lemma_cat_operators_push(ops.drop_first(), o);
        assert(ops.push(o).drop_first() =~= ops.drop_first().push(o));
        assert(cat_operators(ops.push(o)) =~= cat_operators(ops) + ser_operator(o));
    }
}

pub proof fn lemma_cat_operators_len(ops: Seq<OperatorView>)
    ensures
        cat_operators(ops).len() >= ops.len(),
    decreases ops.len(),
{
    lemma_auto_spec_u64_to_from_le_bytes();
    if ops.len() > 0 {
        lemma_cat_operators_len(ops.drop_first());
    }
}

fn write_operator(out: &mut Vec<u8>, o: &Operator)
    ensures
        final(out)@ == old(out)@ + ser_operator(operator_view(*o)),
{
    write_bytes(out, o.descriptor.as_slice());
    write_strs(out, &o.schema);
    write_indices(out, &o.children);
    assert(out@ =~= old(out)@ + ser_operator(operator_view(*o)));
}

fn write_operators(out: &mut Vec<u8>, ops: &Vec<Operator>)
    ensures
        final(out)@ == old(out)@ + ser_operators(operators_view(ops@)),
{
    let ghost views = operators_view(ops@);
    write_u64(out, ops.len() as u64);
    let ghost mid = out@;
    let mut i: usize = 0;
    while i < ops.len()
        invariant
            i <= ops@.len(),
            views == operators_view(ops@),
            out@ == mid + cat_operators(views.subrange(0, i as int)),
        decreases ops@.len() - i,
    {
        write_operator(out, &ops[i]);
        proof {
            lemma_cat_operators_push(views.subrange(0, i as int), views[i as int]);
            assert(views.subrange(0, i as int).push(views[i as int]) =~= views.subrange(0, i + 1));
        }
        i = i + 1;
    }
    assert(views.subrange(0, ops@.len() as int) =~= views);
    assert(out@ =~= old(out)@ + ser_operators(views));
}

fn read_operator(b: &[u8], pos: usize) -> (r: Option<(Operator, usize)>)
    ensures
        r matches Some((o, p)) ==> encodes_at(b@, pos as int, ser_operator(operator_view(o)))
            && p == pos + ser_operator(operator_view(o)).len(),
        forall|x: OperatorView| #[trigger] encodes_at(b@, pos as int, ser_operator(x))
            ==> (r matches Some((o, p)) && operator_view(o) == x && p == pos + ser_operator(x).len()),
{
    proof {
        assert forall|x: OperatorView| #[trigger] encodes_at(b@, pos as int, ser_operator(x))
            implies encodes_at(b@, pos as int, ser_bytes(x.0))
            && encodes_at(b@, pos + ser_bytes(x.0).len(), ser_strs(x.1))
            && encodes_at(b@, pos + ser_bytes(x.0).len() + ser_strs(x.1).len(), ser_indices(x.2)) by {
            lemma_encodes_at_concat(b@, pos as int, ser_bytes(x.0) + ser_strs(x.1), ser_indices(x.2));
            lemma_encodes_at_concat(b@, pos as int, ser_bytes(x.0), ser_strs(x.1));
        }
    }
    let (descriptor, at_a) = match read_bytes(b, pos) {
        Some(r) => r,
        None => return None,
    };
    let (schema, at_b) = match read_strs(b, at_a) {
        Some(r) => r,
        None => return None,
    };
    let (children, at_c) = match read_indices(b, at_b) {
        Some(r) => r,
        None => return None,
    };
    let o = Operator { descriptor, schema, children };
    proof {
        lemma_encodes_at_concat(b@, pos as int, ser_bytes(o.descriptor@), ser_strs(names_of(o.schema@)));
        lemma_encodes_at_concat(b@, pos as int, ser_bytes(o.descriptor@) + ser_strs(names_of(o.schema@)), ser_indices(o.children@));
    }
    Some((o, at_c))
}

/// Reads the operators of a plan at `pos`.
fn read_operators(b: &[u8], pos: usize) -> (r: Option<(Vec<Operator>, usize)>)
    ensures
        r matches Some((ss, p)) ==> encodes_at(b@, pos as int, ser_operators(operators_view(ss@)))
            && p == pos + ser_operators(operators_view(ss@)).len(),
        forall|x: Seq<OperatorView>| #[trigger] encodes_at(b@, pos as int, ser_operators(x))
            ==> (r matches Some((ss, p)) && operators_view(ss@) == x && p == pos + ser_operators(x).len()),
{
    proof {
        lemma_auto_spec_u64_to_from_le_bytes();
        assert forall|x: Seq<OperatorView>| #[trigger] encodes_at(b@, pos as int, ser_operators(x))
            implies encodes_at(b@, pos as int, ser_u64(x.len() as u64)) && encodes_at(b@, pos + 8, cat_operators(x)) by {
            lemma_encodes_at_concat(b@, pos as int, ser_u64(x.len() as u64), cat_operators(x));
        }
    }
    let (n, body_at) = match read_u64(b, pos) {
        Some(r) => r,
        None => return None,
    };
    let blen: usize = b.len();
    let mut out: Vec<Operator> = Vec::new();
    proof {
        assert(operators_view(out@) =~= Seq::<OperatorView>::empty());
        assert(b@.subrange(body_at as int, body_at as int) =~= Seq::<u8>::empty());
        assert forall|x: Seq<OperatorView>| #[trigger] encodes_at(b@, pos as int, ser_operators(x))
            implies x.len() == n && operators_view(out@) == x.subrange(0, 0)
            && encodes_at(b@, body_at as int, cat_operators(x.subrange(0, x.len() as int))) by {
            lemma_cat_operators_len(x);
            assert(encodes_at(b@, pos as int, ser_u64(x.len() as u64)));
            assert(encodes_at(b@, pos + 8, cat_operators(x)));
            assert(x.len() <= b@.len());
            assert(b@.len() == blen);
            assert(x.len() as u64 == n);
            assert(x.subrange(0, x.len() as int) =~= x);
            assert(x.subrange(0, 0) =~= Seq::<OperatorView>::empty());
        }
    }
    let mut p: usize = body_at;
    let mut k: u64 = 0;
    while k < n
        invariant
            body_at == pos + 8,
            k <= n,
            out@.len() == k,
            encodes_at(b@, pos as int, ser_u64(n)),
            encodes_at(b@, body_at as int, cat_operators(operators_view(out@))),
            p == body_at + cat_operators(operators_view(out@)).len(),
            forall|x: Seq<OperatorView>| #[trigger] encodes_at(b@, pos as int, ser_operators(x))
                ==> x.len() == n && operators_view(out@) == x.subrange(0, k as int)
                && encodes_at(b@, p as int, cat_operators(x.subrange(k as int, x.len() as int))),
        decreases n - k,
    {
        let ghost before = operators_view(out@);
        let (s, q) = match read_operator(b, p) {
            Some(r) => r,
            None => {
                proof {
                    assert forall|x: Seq<OperatorView>| #[trigger] encodes_at(b@, pos as int, ser_operators(x)) implies false by {
                        let tail = x.subrange(k as int, x.len() as int);
                        assert(tail.drop_first() =~= x.subrange(k + 1, x.len() as int));
                        lemma_encodes_at_concat(b@, p as int, ser_operator(tail[0]), cat_operators(tail.drop_first()));
                    }
                }
                return None;
            },
        };
        out.push(s);
        proof {
            assert(operators_view(out@) =~= before.push(operator_view(s)));
            lemma_cat_operators_push(before, operator_view(s));
            lemma_encodes_at_concat(b@, body_at as int, cat_operators(before), ser_operator(operator_view(s)));
            assert forall|x: Seq<OperatorView>| #[trigger] encodes_at(b@, pos as int, ser_operators(x))
                implies operators_view(out@) == x.subrange(0, k + 1)
                && encodes_at(b@, q as int, cat_operators(x.subrange(k + 1, x.len() as int))) by {
                let tail = x.subrange(k as int, x.len() as int);
                assert(tail.drop_first() =~= x.subrange(k + 1, x.len() as int));
                lemma_encodes_at_concat(b@, p as int, ser_operator(tail[0]), cat_operators(tail.drop_first()));
                assert(x.subrange(0, k + 1) =~= x.subrange(0, k as int).push(tail[0]));
            }
        }
        p = q;
        k = k + 1;
    }
    proof {
        lemma_encodes_at_concat(b@, pos as int, ser_u64(n), cat_operators(operators_view(out@)));
        assert forall|x: Seq<OperatorView>| #[trigger] encodes_at(b@, pos as int, ser_operators(x))
            implies operators_view(out@) == x by {
            assert(x.subrange(0, k as int) =~= x);
        }
    }
    Some((out, p))
}

fn read_tag(b: &[u8], pos: usize) -> (r: Option<(u8, usize)>)
    ensures
        r matches Some((t, p)) ==> encodes_at(b@, pos as int, seq![t]) && p == pos + 1,
        forall|t: u8| #[trigger] encodes_at(b@, pos as int, seq![t]) ==> r == Some((t, (pos + 1) as usize)),
{
    if pos >= b.len() {
        return None;
    }
    let t = b[pos];
    proof {
        assert(b@.subrange(pos as int, pos + 1) =~= seq![t]);
        assert forall|u: u8| #[trigger] encodes_at(b@, pos as int, seq![u]) implies u == t by {
            assert(b@.subrange(pos as int, pos + 1)[0] == u);
        }
    }
    Some((t, pos + 1))
}

fn sink_of_tag(t: u8) -> (r: Option<DataSinkType>)
    ensures
        r matches Some(s) ==> sink_tag(s) == t,
        forall|s: DataSinkType| #[trigger] sink_tag(s) == t ==> r == Some(s),
{
    if t == 0 {
        Some(DataSinkType::Empty)
    } else if t == 1 {
        Some(DataSinkType::Blank)
    } else if t == 2 {
        Some(DataSinkType::Print)
    } else if t == 3 {
        Some(DataSinkType::S3)
    } else if t == 4 {
        Some(DataSinkType::DynamoDB)
    } else if t == 5 {
        Some(DataSinkType::SQS)
    } else {
        None
    }
}

fn tag_of_sink(s: DataSinkType) -> (r: u8)
    ensures
        r == sink_tag(s),
{
    match s {
        DataSinkType::Empty => 0,
        DataSinkType::Blank => 1,
        DataSinkType::Print => 2,
        DataSinkType::S3 => 3,
        DataSinkType::DynamoDB => 4,
        DataSinkType::SQS => 5,
    }
}

fn write_slot(out: &mut Vec<u8>, s: &PlanSlot)
    ensures
        final(out)@ == old(out)@ + ser_slot(slot_view(*s)),
{
    match s {
        PlanSlot::Inline(p) => {
            out.push(0u8);
            write_operators(out, &p.nodes);
        },
        PlanSlot::Deferred(r) => {
            out.push(1u8);
            write_str(out, &r.bucket);
            write_str(out, &r.key);
        },
    }
    assert(out@ =~= old(out)@ + ser_slot(slot_view(*s)));
}

fn write_next(out: &mut Vec<u8>, n: &CloudFunction)
    ensures
        final(out)@ == old(out)@ + ser_next(next_view(*n)),
{
    match n {
        CloudFunction::Lambda(s) => {
            out.push(0u8);
            write_str(out, s);
        },
        CloudFunction::Group((s, g)) => {
            out.push(1u8);
            write_str(out, s);
            write_u64(out, *g as u64);
        },
        CloudFunction::Sink(t) => {
            out.push(2u8);
            out.push(tag_of_sink(*t));
        },
    }
    assert(out@ =~= old(out)@ + ser_next(next_view(*n)));
}

fn read_slot(b: &[u8], pos: usize) -> (r: Option<(PlanSlot, usize)>)
    ensures
        r matches Some((s, p)) ==> encodes_at(b@, pos as int, ser_slot(slot_view(s)))
            && p == pos + ser_slot(slot_view(s)).len(),
        r matches Some((s, p)) ==> (s matches PlanSlot::Inline(plan) ==> plan.wf()),
        forall|x: SlotView| slot_valid(x) && #[trigger] encodes_at(b@, pos as int, ser_slot(x))
            ==> (r matches Some((s, p)) && slot_view(s) == x && p == pos + ser_slot(x).len()),
{
    proof {
        assert forall|x: SlotView| #[trigger] encodes_at(b@, pos as int, ser_slot(x))
            implies encodes_at(b@, pos as int, seq![if x is Inline { 0u8 } else { 1u8 }]) by {
            match x {
                SlotView::Inline(ops) => {
                    lemma_encodes_at_concat(b@, pos as int, seq![0u8], ser_operators(ops));
                },
                SlotView::Deferred(k1, k2) => {
                    lemma_encodes_at_concat(b@, pos as int, seq![1u8] + ser_str(k1), ser_str(k2));
                    lemma_encodes_at_concat(b@, pos as int, seq![1u8], ser_str(k1));
                },
            }
        }
    }
    let (t, at_a) = match read_tag(b, pos) {
        Some(r) => r,
        None => return None,
    };
    if t == 0 {
        let (nodes, at_b) = match read_operators(b, at_a) {
            Some(r) => r,
            None => {
                proof {
                    assert forall|x: SlotView| #[trigger] encodes_at(b@, pos as int, ser_slot(x)) implies false by {
                        if let SlotView::Inline(ops) = x {
                            lemma_encodes_at_concat(b@, pos as int, seq![0u8], ser_operators(ops));
                        }
                    }
                }
                return None;
            },
        };
        let ghost nv = nodes@;
        let plan = match Plan::from_operators(nodes) {
            Some(plan) => plan,
            None => {
                proof {
                    lemma_view_children(nv);
                    assert forall|x: SlotView| slot_valid(x) && #[trigger] encodes_at(b@, pos as int, ser_slot(x)) implies false by {
                        if let SlotView::Inline(ops) = x {
                            lemma_encodes_at_concat(b@, pos as int, seq![0u8], ser_operators(ops));
                        }
                    }
                }
                return None;
            },
        };
        proof {
            lemma_encodes_at_concat(b@, pos as int, seq![0u8], ser_operators(operators_view(plan.nodes@)));
            assert forall|x: SlotView| #[trigger] encodes_at(b@, pos as int, ser_slot(x))
                implies slot_view(PlanSlot::Inline(plan)) == x && at_b == pos + ser_slot(x).len() by {
                if let SlotView::Inline(ops) = x {
                    lemma_encodes_at_concat(b@, pos as int, seq![0u8], ser_operators(ops));
                }
            }
        }
        Some((PlanSlot::Inline(plan), at_b))
    } else if t == 1 {
        let (bucket, at_b) = match read_str(b, at_a) {
            Some(r) => r,
            None => {
                proof {
                    assert forall|x: SlotView| #[trigger] encodes_at(b@, pos as int, ser_slot(x)) implies false by {
                        if let SlotView::Deferred(k1, k2) = x {
                            lemma_encodes_at_concat(b@, pos as int, seq![1u8] + ser_str(k1), ser_str(k2));
                            lemma_encodes_at_concat(b@, pos as int, seq![1u8], ser_str(k1));
                        }
                    }
                }
                return None;
            },
        };
        let (key, at_c) = match read_str(b, at_b) {
            Some(r) => r,
            None => {
                proof {
                    assert forall|x: SlotView| #[trigger] encodes_at(b@, pos as int, ser_slot(x)) implies false by {
                        if let SlotView::Deferred(k1, k2) = x {
                            lemma_encodes_at_concat(b@, pos as int, seq![1u8] + ser_str(k1), ser_str(k2));
                            lemma_encodes_at_concat(b@, pos as int, seq![1u8], ser_str(k1));
                        }
                    }
                }
                return None;
            },
        };
        let slot = PlanSlot::Deferred(ObjectRef { bucket, key });
        proof {
            lemma_encodes_at_concat(b@, pos as int, seq![1u8] + ser_str(bucket@), ser_str(key@));
            lemma_encodes_at_concat(b@, pos as int, seq![1u8], ser_str(bucket@));
            assert forall|x: SlotView| #[trigger] encodes_at(b@, pos as int, ser_slot(x))
                implies slot_view(slot) == x && at_c == pos + ser_slot(x).len() by {
                if let SlotView::Deferred(k1, k2) = x {
                    lemma_encodes_at_concat(b@, pos as int, seq![1u8] + ser_str(k1), ser_str(k2));
                    lemma_encodes_at_concat(b@, pos as int, seq![1u8], ser_str(k1));
                }
            }
        }
        Some((slot, at_c))
    } else {
        None
    }
}

/// The leading byte of a downstream target's encoding.
pub open spec fn next_tag(n: NextView) -> u8 {
    match n {
        NextView::Lambda(_) => 0,
        NextView::Group(_, _) => 1,
        NextView::Sink(_) => 2,
    }
}

proof fn lemma_next_parts(b: Seq<u8>, pos: int, x: NextView)
    requires
        encodes_at(b, pos, ser_next(x)),
    ensures
        encodes_at(b, pos, seq![next_tag(x)]),
        x matches NextView::Lambda(s) ==> encodes_at(b, pos + 1, ser_str(s)),
        x matches NextView::Group(s, g) ==> encodes_at(b, pos + 1, ser_str(s))
            && encodes_at(b, pos + 1 + ser_str(s).len(), ser_u64(g as u64)),
        x matches NextView::Sink(t) ==> encodes_at(b, pos + 1, seq![sink_tag(t)]),
{
    match x {
        NextView::Lambda(s) => {
            lemma_encodes_at_concat(b, pos, seq![0u8], ser_str(s));
        },
        NextView::Group(s, g) => {
            lemma_encodes_at_concat(b, pos, seq![1u8] + ser_str(s), ser_u64(g as u64));
            lemma_encodes_at_concat(b, pos, seq![1u8], ser_str(s));
        },
        NextView::Sink(t) => {
            assert(seq![2u8, sink_tag(t)] =~= seq![2u8] + seq![sink_tag(t)]);
            lemma_encodes_at_concat(b, pos, seq![2u8], seq![sink_tag(t)]);
        },
    }
}

fn read_next(b: &[u8], pos: usize) -> (r: Option<(CloudFunction, usize)>)
    ensures
        r matches Some((n, p)) ==> encodes_at(b@, pos as int, ser_next(next_view(n)))
            && p == pos + ser_next(next_view(n)).len(),
        forall|x: NextView| #[trigger] encodes_at(b@, pos as int, ser_next(x))
            ==> (r matches Some((n, p)) && next_view(n) == x && p == pos + ser_next(x).len()),
{
    proof {
        lemma_auto_spec_u64_to_from_le_bytes();
        assert forall|x: NextView| #[trigger] encodes_at(b@, pos as int, ser_next(x))
            implies encodes_at(b@, pos as int, seq![next_tag(x)]) by {
            lemma_next_parts(b@, pos as int, x);
        }
    }
    let (t, at_a) = match read_tag(b, pos) {
        Some(r) => r,
        None => return None,
    };
    if t == 0 {
        let (s, at_b) = match read_str(b, at_a) {
            Some(r) => r,
            None => {
                proof {
                    assert forall|x: NextView| #[trigger] encodes_at(b@, pos as int, ser_next(x)) implies false by {
                        lemma_next_parts(b@, pos as int, x);
                    }
                }
                return None;
            },
        };
        let n = CloudFunction::Lambda(s);
        proof {
            lemma_encodes_at_concat(b@, pos as int, seq![0u8], ser_str(s@));
            assert forall|x: NextView| #[trigger] encodes_at(b@, pos as int, ser_next(x))
                implies next_view(n) == x && at_b == pos + ser_next(x).len() by {
                lemma_next_parts(b@, pos as int, x);
            }
        }
        Some((n, at_b))
    } else if t == 1 {
        let (s, at_b) = match read_str(b, at_a) {
            Some(r) => r,
            None => {
                proof {
                    assert forall|x: NextView| #[trigger] encodes_at(b@, pos as int, ser_next(x)) implies false by {
                        lemma_next_parts(b@, pos as int, x);
                    }
                }
                return None;
            },
        };
        let (g, at_c) = match read_u64(b, at_b) {
            Some(r) => r,
            None => {
                proof {
                    assert forall|x: NextView| #[trigger] encodes_at(b@, pos as int, ser_next(x)) implies false by {
                        lemma_next_parts(b@, pos as int, x);
                    }
                }
                return None;
            },
        };
        if g as u128 > usize::MAX as u128 {
            proof {
                assert forall|x: NextView| #[trigger] encodes_at(b@, pos as int, ser_next(x)) implies false by {
                    lemma_next_parts(b@, pos as int, x);
                }
            }
            return None;
        }
        let n = CloudFunction::Group((s, g as usize));
        proof {
            lemma_encodes_at_concat(b@, pos as int, seq![1u8] + ser_str(s@), ser_u64(g));
            lemma_encodes_at_concat(b@, pos as int, seq![1u8], ser_str(s@));
            assert((g as usize) as u64 == g);
            assert forall|x: NextView| #[trigger] encodes_at(b@, pos as int, ser_next(x))
                implies next_view(n) == x && at_c == pos + ser_next(x).len() by {
                lemma_next_parts(b@, pos as int, x);
            }
        }
        Some((n, at_c))
    } else if t == 2 {
        let (st, at_b) = match read_tag(b, at_a) {
            Some(r) => r,
            None => {
                proof {
                    assert forall|x: NextView| #[trigger] encodes_at(b@, pos as int, ser_next(x)) implies false by {
                        lemma_next_parts(b@, pos as int, x);
                    }
                }
                return None;
            },
        };
        let sink = match sink_of_tag(st) {
            Some(s) => s,
            None => {
                proof {
                    assert forall|x: NextView| #[trigger] encodes_at(b@, pos as int, ser_next(x)) implies false by {
                        lemma_next_parts(b@, pos as int, x);
                    }
                }
                return None;
            },
        };
        let n = CloudFunction::Sink(sink);
        proof {
            assert(seq![2u8, sink_tag(sink)] =~= seq![2u8] + seq![sink_tag(sink)]);
            lemma_encodes_at_concat(b@, pos as int, seq![2u8], seq![sink_tag(sink)]);
            assert forall|x: NextView| #[trigger] encodes_at(b@, pos as int, ser_next(x))
                implies next_view(n) == x && at_b == pos + ser_next(x).len() by {
                lemma_next_parts(b@, pos as int, x);
            }
        }
        Some((n, at_b))
    } else {
        proof {
            assert forall|x: NextView| #[trigger] encodes_at(b@, pos as int, ser_next(x)) implies false by {
                lemma_next_parts(b@, pos as int, x);
            }
        }
        None
    }
}

/// The most bytes a context may take before compression. Every codec makes
/// at most `MAX_CONTENT_LEN` bytes of it.
pub const MAX_CONTEXT_LEN: usize = 13_000_000;

/// `s` is an envelope under `e` whose content, of at most `MAX_CONTENT_LEN`
/// bytes, decodes to the bytes of `c`.
pub open spec fn marshals_to(s: Seq<char>, c: ContextView, e: Encoding) -> bool {
    exists|raw: Seq<u8>| #[trigger] envelope_text(raw, tag_of(e)) == s && raw.len() <= MAX_CONTENT_LEN
        && decoded(e, raw) == Some(ser_context(c))
}

fn same_bytes(a: &Vec<u8>, b: &Vec<u8>) -> (r: bool)
    ensures
        r == (a@ == b@),
{
    if a.len() != b.len() {
        return false;
    }
    let mut i: usize = 0;
    while i < a.len()
        invariant
            a@.len() == b@.len(),
            i <= a@.len(),
            forall|k: int| 0 <= k < i ==> a@[k] == b@[k],
        decreases a@.len() - i,
    {
        if a[i] != b[i] {
            return false;
        }
        i = i + 1;
    }
    assert(a@ =~= b@);
    true
}

/// Two contexts are equal when they travel as the same bytes.
impl PartialEq for ExecutionContext {
    fn eq(&self, other: &ExecutionContext) -> (r: bool) {
        same_bytes(&self.to_bytes(), &other.to_bytes())
    }
}

impl vstd::std_specs::cmp::PartialEqSpecImpl for ExecutionContext {
    open spec fn obeys_eq_spec() -> bool {
        true
    }

    open spec fn eq_spec(&self, other: &ExecutionContext) -> bool {
        ser_context(context_view(*self)) == ser_context(context_view(*other))
    }
}

/// Two targets are equal when they name the same functions or sink.
impl PartialEq for CloudFunction {
    fn eq(&self, other: &CloudFunction) -> (r: bool) {
        match (self, other) {
            (CloudFunction::Lambda(a), CloudFunction::Lambda(b)) => *a == *b,
            (CloudFunction::Group((a, m)), CloudFunction::Group((b, n))) => *a == *b && *m == *n,
            (CloudFunction::Sink(s), CloudFunction::Sink(t)) => *s == *t,
            _ => false,
        }
    }
}

impl vstd::std_specs::cmp::PartialEqSpecImpl for CloudFunction {
    open spec fn obeys_eq_spec() -> bool {
        true
    }

    open spec fn eq_spec(&self, other: &CloudFunction) -> bool {
        next_view(*self) == next_view(*other)
    }
}

impl Default for CloudFunction {
    fn default() -> (r: CloudFunction)
        ensures
            r == CloudFunction::Sink(DataSinkType::Empty),
    {
        CloudFunction::Sink(DataSinkType::Empty)
    }
}

impl Default for ExecutionContext {
    fn default() -> (r: ExecutionContext)
        ensures
            r.wf(),
            context_view(r) == (SlotView::Inline(Seq::empty()), Seq::<char>::empty(), NextView::Sink(DataSinkType::Empty)),
    {
        let plan = Plan::unbound(Vec::new());
        assert(operators_view(plan.nodes@) =~= Seq::empty());
        ExecutionContext {
            plan: PlanSlot::Inline(plan),
            name: String::new(),
            next: CloudFunction::Sink(DataSinkType::Empty),
        }
    }
}

impl ExecutionContext {
    /// An inline plan has one binding slot per operator.
    pub open spec fn wf(&self) -> bool {
        self.plan matches PlanSlot::Inline(p) ==> p.wf()
    }

    /// The context's bytes, before compression.
    pub fn to_bytes(&self) -> (r: Vec<u8>)
        ensures
            r@ == ser_context(context_view(*self)),
    {
        let mut out: Vec<u8> = Vec::new();
        write_slot(&mut out, &self.plan);
        write_str(&mut out, &self.name);
        write_next(&mut out, &self.next);
        assert(out@ =~= ser_context(context_view(*self)));
        out
    }

    /// Reads a context from exactly the bytes `to_bytes` makes of one; no
    /// source is bound to its plan yet.
    pub fn from_bytes(b: &[u8]) -> (r: Result<ExecutionContext, ContextError>)
        ensures
            r matches Ok(c) ==> c.wf() && b@ == ser_context(context_view(c)),
            forall|x: ContextView| context_valid(x) && #[trigger] ser_context(x) == b@
                ==> (r matches Ok(c) && context_view(c) == x),
            r is Err ==> r == Err::<ExecutionContext, ContextError>(ContextError::Malformed),
    {
        proof {
            assert forall|x: ContextView| #[trigger] ser_context(x) == b@ implies encodes_at(b@, 0, ser_slot(x.0))
                && encodes_at(b@, ser_slot(x.0).len() as int, ser_str(x.1))
                && encodes_at(b@, (ser_slot(x.0).len() + ser_str(x.1).len()) as int, ser_next(x.2)) by {
                assert(b@.subrange(0, b@.len() as int) =~= b@);
                lemma_encodes_at_concat(b@, 0, ser_slot(x.0) + ser_str(x.1), ser_next(x.2));
                lemma_encodes_at_concat(b@, 0, ser_slot(x.0), ser_str(x.1));
            }
        }
        let (plan, at_a) = match read_slot(b, 0) {
            Some(r) => r,
            None => return Err(ContextError::Malformed),
        };
        let (name, at_b) = match read_str(b, at_a) {
            Some(r) => r,
            None => return Err(ContextError::Malformed),
        };
        let (next, at_c) = match read_next(b, at_b) {
            Some(r) => r,
            None => return Err(ContextError::Malformed),
        };
        if at_c != b.len() {
            proof {
                assert forall|x: ContextView| context_valid(x) && #[trigger] ser_context(x) == b@ implies false by {}
            }
            return Err(ContextError::Malformed);
        }
        let c = ExecutionContext { plan, name, next };
        proof {
            lemma_encodes_at_concat(b@, 0, ser_slot(slot_view(c.plan)), ser_str(c.name@));
            lemma_encodes_at_concat(b@, 0, ser_slot(slot_view(c.plan)) + ser_str(c.name@), ser_next(next_view(c.next)));
            assert(b@.subrange(0, b@.len() as int) =~= b@);
        }
        Ok(c)
    }

    /// Serializes the context, compresses it under `encoding` and wraps it
    /// in its envelope. Fails with `Malformed` on an inline plan that is not
    /// numbered breadth-first, which could not be read back, and with
    /// `TooLarge` on a context of more than `MAX_CONTEXT_LEN` bytes. The text
    /// is fixed by the context for the plain and Snappy codecs.
    pub fn marshal(&self, encoding: Encoding) -> (r: Result<String, ContextError>)
        ensures
            r is Ok <==> context_valid(context_view(*self))
                && ser_context(context_view(*self)).len() <= MAX_CONTEXT_LEN,
            r matches Ok(s) ==> marshals_to(s@, context_view(*self), encoding),
            r matches Ok(s) ==> (encoding == Encoding::Plain
                ==> s@ == envelope_text(ser_context(context_view(*self)), tag_of(encoding))),
            r matches Ok(s) ==> (encoding == Encoding::Snappy
                ==> s@ == envelope_text(snappy_encoded(ser_context(context_view(*self))), tag_of(encoding))),
            !context_valid(context_view(*self)) ==> r == Err::<String, ContextError>(ContextError::Malformed),
            context_valid(context_view(*self)) && r is Err ==> r == Err::<String, ContextError>(ContextError::TooLarge),
    {
        if let PlanSlot::Inline(p) = &self.plan {
            proof {
                lemma_view_children(p.nodes@);
            }
            if !breadth_first(&p.nodes) {
                return Err(ContextError::Malformed);
            }
        }
        let payload = self.to_bytes();
        if payload.len() > MAX_CONTEXT_LEN {
            return Err(ContextError::TooLarge);
        }
        match encoding.compress(payload.as_slice()) {
            Some(context) => {
                let env = CloudEnvironment { context, encoding };
                let s = env.to_json();
                proof {
                    assert(envelope_text(env.context@, tag_of(encoding)) == s@);
                }
                Ok(s)
            },
            None => Err(ContextError::TooLarge),
        }
    }

    /// Unwraps, decompresses and reads a context. It succeeds exactly on the
    /// envelopes whose content decodes to the bytes of a context, and gives
    /// that context back. An envelope naming an unknown codec fails with
    /// `UnsupportedEncoding`, content the codec cannot decode or longer than
    /// `MAX_CONTENT_LEN` with `Decompress`, and anything else with
    /// `Malformed`.
    pub fn unmarshal(s: &str) -> (r: Result<ExecutionContext, ContextError>)
        ensures
            forall|c: ContextView, e: Encoding| context_valid(c) && #[trigger] marshals_to(s@, c, e)
                ==> (r matches Ok(x) && context_view(x) == c),
            r matches Ok(x) ==> x.wf() && exists|e: Encoding| #[trigger] marshals_to(s@, context_view(x), e),
            forall|c: Seq<u8>, t: u8| t < 10 && encoding_of_tag(t) is None && #[trigger] envelope_text(c, t) == s@
                ==> r == Err::<ExecutionContext, ContextError>(ContextError::UnsupportedEncoding(t)),
            r matches Err(ContextError::UnsupportedEncoding(t)) ==> encoding_of_tag(t) is None
                && exists|c: Seq<u8>| #[trigger] envelope_text(c, t) == s@,
            r == Err::<ExecutionContext, ContextError>(ContextError::Decompress) ==> exists|c: Seq<u8>, e: Encoding|
                #[trigger] envelope_text(c, tag_of(e)) == s@ && (c.len() > MAX_CONTENT_LEN || decoded(e, c) is None),
            r is Err ==> r == Err::<ExecutionContext, ContextError>(ContextError::Malformed)
                || r == Err::<ExecutionContext, ContextError>(ContextError::Decompress)
                || r matches Err(ContextError::UnsupportedEncoding(_)),
    {
        let env = match CloudEnvironment::from_json(s) {
            Ok(env) => env,
            Err(e) => {
                proof {
                    assert forall|c: ContextView, e2: Encoding| #[trigger] marshals_to(s@, c, e2) implies false by {
                        let raw = choose|raw: Seq<u8>| #[trigger] envelope_text(raw, tag_of(e2)) == s@
                            && raw.len() <= MAX_CONTENT_LEN && decoded(e2, raw) == Some(ser_context(c));
                    }
                }
                return Err(e);
            },
        };
        proof {
            assert(envelope_text(env.context@, tag_of(env.encoding)) == s@);
        }
        let payload = match env.encoding.decompress(env.context.as_slice()) {
            Some(p) => p,
            None => {
                proof {
                    assert forall|c: ContextView, e2: Encoding| #[trigger] marshals_to(s@, c, e2) implies false by {
                        let raw = choose|raw: Seq<u8>| #[trigger] envelope_text(raw, tag_of(e2)) == s@
                            && raw.len() <= MAX_CONTENT_LEN && decoded(e2, raw) == Some(ser_context(c));
                    }
                }
                return Err(ContextError::Decompress);
            },
        };
        let r = ExecutionContext::from_bytes(payload.as_slice());
        proof {
            assert forall|c: ContextView, e2: Encoding| context_valid(c) && #[trigger] marshals_to(s@, c, e2)
                implies (r matches Ok(x) && context_view(x) == c) by {
                let raw = choose|raw: Seq<u8>| #[trigger] envelope_text(raw, tag_of(e2)) == s@
                    && raw.len() <= MAX_CONTENT_LEN && decoded(e2, raw) == Some(ser_context(c));
                assert(ser_context(c) == payload@);
            }
            if r is Ok {
                assert(marshals_to(s@, context_view(r->Ok_0), env.encoding));
            }
        }
        r
    }

    /// Where the plan is stored, while it is deferred to the overflow store.
    pub fn overflow_ref(&self) -> (r: Option<&ObjectRef>)
        ensures
            r is None <==> self.plan is Inline,
            self.plan matches PlanSlot::Deferred(o) ==> r == Some(&o),
    {
        match &self.plan {
            PlanSlot::Inline(_) => None,
            PlanSlot::Deferred(o) => Some(o),
        }
    }

    /// Installs the plan fetched from the overflow store, given the stored
    /// bytes. An inline plan stays as it is, so that repeated calls are
    /// cheap; stored bytes that encode no plan fail with `Malformed` and
    /// change nothing.
    pub fn plan(&mut self, fetched: &[u8]) -> (r: Result<(), ContextError>)
        requires
            old(self).wf(),
        ensures
            final(self).wf(),
            final(self).name == old(self).name,
            final(self).next == old(self).next,
            old(self).plan is Inline ==> r is Ok && final(self).plan == old(self).plan,
            old(self).plan is Deferred ==> (r is Ok <==> exists|ops: Seq<OperatorView>| #[trigger] ser_operators(ops) == fetched@
                && breadth_first_children(view_children(ops))),
            old(self).plan is Deferred && r is Ok ==> (final(self).plan matches PlanSlot::Inline(p)
                && ser_operators(operators_view(p.nodes@)) == fetched@
                && forall|i: int| 0 <= i < p.bindings@.len() ==> p.bindings@[i] is None),
            r is Err ==> r == Err::<(), ContextError>(ContextError::Malformed) && final(self).plan == old(self).plan,
    {
        if let PlanSlot::Inline(_) = &self.plan {
            return Ok(());
        }
        proof {
            assert forall|ops: Seq<OperatorView>| #[trigger] ser_operators(ops) == fetched@
                implies encodes_at(fetched@, 0, ser_operators(ops)) by {
                assert(fetched@.subrange(0, fetched@.len() as int) =~= fetched@);
            }
        }
        match read_operators(fetched, 0) {
            Some((nodes, p)) => {
                if p != fetched.len() {
                    return Err(ContextError::Malformed);
                }
                proof {
                    assert(fetched@.subrange(0, fetched@.len() as int) =~= fetched@);
                    lemma_view_children(nodes@);
                }
                let ghost nv = nodes@;
                match Plan::from_operators(nodes) {
                    Some(plan) => {
                        self.plan = PlanSlot::Inline(plan);
                        Ok(())
                    },
                    None => {
                        proof {
                            assert forall|ops: Seq<OperatorView>| #[trigger] ser_operators(ops) == fetched@
                                implies !breadth_first_children(view_children(ops)) by {
                                assert(encodes_at(fetched@, 0, ser_operators(ops)));
                            }
                        }
                        Err(ContextError::Malformed)
                    },
                }
            },
            None => Err(ContextError::Malformed),
        }
    }

    /// Binds source `0` to the plan's first leaf scan, as
    /// `Plan::feed_one_source` does; a deferred plan must be resolved first.
    pub fn feed_one_source(&mut self) -> (r: Result<(), FeedError>)
        requires
            old(self).wf(),
        ensures
            final(self).wf(),
            final(self).name == old(self).name,
            final(self).next == old(self).next,
            old(self).plan is Deferred ==> r == Err::<(), FeedError>(FeedError::PlanNotLoaded) && final(self).plan == old(self).plan,
            old(self).plan matches PlanSlot::Inline(p) ==> (final(self).plan matches PlanSlot::Inline(q) && one_source_fed(p, q, r)),
    {
        match &mut self.plan {
            PlanSlot::Inline(p) => p.feed_one_source(),
            PlanSlot::Deferred(_) => Err(FeedError::PlanNotLoaded),
        }
    }

    /// Binds the left (`0`) and right (`1`) sources to the plan's leaf scans
    /// by schema, as `Plan::feed_two_source` does.
    pub fn feed_two_source(&mut self, left: &Vec<String>, right: &Vec<String>) -> (r: Result<(), FeedError>)
        requires
            old(self).wf(),
        ensures
            final(self).wf(),
            final(self).name == old(self).name,
            final(self).next == old(self).next,
            old(self).plan is Deferred ==> r == Err::<(), FeedError>(FeedError::PlanNotLoaded) && final(self).plan == old(self).plan,
            old(self).plan matches PlanSlot::Inline(p) ==> (final(self).plan matches PlanSlot::Inline(q)
                && sources_fed(p, q, seq![left@, right@], r)),
    {
        match &mut self.plan {
            PlanSlot::Inline(p) => p.feed_two_source(left, right),
            PlanSlot::Deferred(_) => Err(FeedError::PlanNotLoaded),
        }
    }

    /// Binds each of `sources` to the plan's leaf scans by schema, as
    /// `Plan::feed_data_sources` does.
    pub fn feed_data_sources(&mut self, sources: &Vec<Vec<String>>) -> (r: Result<(), FeedError>)
        requires
            old(self).wf(),
        ensures
            final(self).wf(),
            final(self).name == old(self).name,
            final(self).next == old(self).next,
            old(self).plan is Deferred ==> r == Err::<(), FeedError>(FeedError::PlanNotLoaded) && final(self).plan == old(self).plan,
            old(self).plan matches PlanSlot::Inline(p) ==> (final(self).plan matches PlanSlot::Inline(q)
                && sources_fed(p, q, schemas_of(sources@), r)),
    {
        match &mut self.plan {
            PlanSlot::Inline(p) => p.feed_data_sources(sources),
            PlanSlot::Deferred(_) => Err(FeedError::PlanNotLoaded),
        }
    }
}

} // verus!
