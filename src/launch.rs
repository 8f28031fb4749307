//! Turning a query's plan graph into the compute functions to register.
use vstd::prelude::*;
use crate::naming::{format_function_name, format_group_name, function_name, group_name};
use crate::context::{CloudFunction, DataSinkType, ExecutionContext, NextView, next_view};

verus! {

/// The two-digit fragment index addresses at most this many plan nodes.
pub const MAX_DAG_NODES: usize = 100;

/// The two-digit replica index addresses at most this many group members.
pub const MAX_GROUP_WIDTH: usize = 100;

/// One compute function to register.
#[derive(Debug, Clone)]
pub struct FunctionSpec {
    /// The index of the plan node the function runs.
    pub fragment: usize,
    /// The function's index within its node's group (`0` when alone).
    pub replica: usize,
    /// The function's address.
    pub name: String,
    /// Whether the platform must run at most one invocation of it at a time.
    pub single_invocation: bool,
}

/// Why a plan graph cannot be deployed.
#[derive(Debug, Clone, Copy, PartialEq, Eq, Structural)]
pub enum LaunchError {
    /// The graph has more nodes than two digits can address.
    TooManyNodes(usize),
    /// The group width is zero or more than two digits can address.
    InvalidGroupWidth(usize),
    /// The node at this index asks for no instance at all.
    ZeroConcurrency(usize),
}

/// What a registered function is: node, replica, and whether its own
/// invocations are limited to one at a time.
pub open spec fn function_view(f: FunctionSpec) -> (nat, nat, bool) {
    (f.fragment as nat, f.replica as nat, f.single_invocation)
}

/// The functions for node `i` of concurrency `c`: one function when `c` is
/// `1`, otherwise a group of `width` members that each run one invocation at
/// a time.
pub open spec fn node_functions(i: nat, c: nat, width: nat) -> Seq<(nat, nat, bool)> {
    if c == 1 {
        seq![(i, 0nat, false)]
    } else {
        Seq::new(width, |j: int| (i, j as nat, true))
    }
}

/// The functions for nodes `i..` of the graph, from the last node back to
/// node `i`: a node is deployed before the nodes that feed it.
pub open spec fn functions_from(concurrency: Seq<usize>, width: nat, i: nat) -> Seq<(nat, nat, bool)>
    decreases concurrency.len() - i,
{
    if i >= concurrency.len() {
        Seq::empty()
    } else {
        functions_from(concurrency, width, i + 1) + node_functions(i, concurrency[i as int] as nat, width)
    }
}

/// Some node asks for no instance.
pub open spec fn has_zero_concurrency(concurrency: Seq<usize>) -> bool {
    exists|i: int| 0 <= i < concurrency.len() && concurrency[i] == 0
}

/// A node gets one function when its concurrency is `1` and exactly `width`
/// single-invocation functions otherwise, whatever that concurrency is.
pub proof fn lemma_node_function_count(i: nat, c: nat, width: nat)
    requires
        c > 0,
    ensures
        c == 1 ==> node_functions(i, c, width).len() == 1 && !node_functions(i, c, width)[0].2,
        c > 1 ==> node_functions(i, c, width).len() == width,
        c > 1 ==> forall|j: int| 0 <= j < width ==> #[trigger] node_functions(i, c, width)[j] == (i, j as nat, true),
        forall|k: nat| c > 1 && k > 1 ==> #[trigger] node_functions(i, k, width) == node_functions(i, c, width),
{
}

/// The entries of `fs` that belong to node `i`, in order.
pub open spec fn of_node(fs: Seq<(nat, nat, bool)>, i: nat) -> Seq<(nat, nat, bool)>
    decreases fs.len(),
{
    if fs.len() == 0 {
        Seq::empty()
    } else {
        (if fs[0].0 == i { seq![fs[0]] } else { Seq::empty() }) + of_node(fs.drop_first(), i)
    }
}

proof fn lemma_of_node_add(a: Seq<(nat, nat, bool)>, b: Seq<(nat, nat, bool)>, i: nat)
    ensures
        of_node(a + b, i) == of_node(a, i) + of_node(b, i),
    decreases a.len(),
{
    if a.len() == 0 {
        assert(a + b =~= b);
        assert(of_node(a, i) + of_node(b, i) =~= of_node(b, i));
    } else {
        lemma_of_node_add(a.drop_first(), b, i);
        assert((a + b).drop_first() =~= a.drop_first() + b);
        assert((a + b)[0] == a[0]);
        assert(of_node(a + b, i) =~= of_node(a, i) + of_node(b, i));
    }
}

proof fn lemma_of_node_uniform(s: Seq<(nat, nat, bool)>, k: nat, i: nat)
    requires
        forall|j: int| 0 <= j < s.len() ==> (#[trigger] s[j]).0 == k,
    ensures
        of_node(s, i) == (if k == i { s } else { Seq::<(nat, nat, bool)>::empty() }),
    decreases s.len(),
{
    if s.len() > 0 {
        assert forall|j: int| 0 <= j < s.drop_first().len() implies (#[trigger] s.drop_first()[j]).0 == k by {
            assert(s.drop_first()[j] == s[j + 1]);
        }
        lemma_of_node_uniform(s.drop_first(), k, i);
        if k == i {
            assert(seq![s[0]] + s.drop_first() =~= s);
        } else {
            assert(Seq::<(nat, nat, bool)>::empty() + Seq::<(nat, nat, bool)>::empty() =~= Seq::<(nat, nat, bool)>::empty());
        }
    }
}

proof fn lemma_of_node_from(concurrency: Seq<usize>, width: nat, s: nat, i: nat)
    ensures
        of_node(functions_from(concurrency, width, s), i) == (if s <= i < concurrency.len() {
            node_functions(i, concurrency[i as int] as nat, width)
        } else {
            Seq::<(nat, nat, bool)>::empty()
        }),
    decreases concurrency.len() - s,
{
    if s < concurrency.len() {
        lemma_of_node_from(concurrency, width, s + 1, i);
        let node = node_functions(s, concurrency[s as int] as nat, width);
        lemma_of_node_add(functions_from(concurrency, width, s + 1), node, i);
        lemma_of_node_uniform(node, s, i);
        if i == s {
            assert(Seq::<(nat, nat, bool)>::empty() + node =~= node);
        } else {
            assert(of_node(functions_from(concurrency, width, s + 1), i) + Seq::<(nat, nat, bool)>::empty()
                =~= of_node(functions_from(concurrency, width, s + 1), i));
        }
    }
}

/// Among the functions that `plan_functions` lists, node `i` has exactly
/// its own: one function when its concurrency is `1`, otherwise `width`
/// members `0..width`, each running one invocation at a time.
pub proof fn lemma_plan_functions_per_node(concurrency: Seq<usize>, width: nat, i: nat)
    requires
        i < concurrency.len(),
        concurrency[i as int] > 0,
    ensures
        of_node(functions_from(concurrency, width, 0), i) == node_functions(i, concurrency[i as int] as nat, width),
        concurrency[i as int] == 1 ==> of_node(functions_from(concurrency, width, 0), i) == seq![(i, 0nat, false)],
        concurrency[i as int] > 1 ==> of_node(functions_from(concurrency, width, 0), i).len() == width
            && forall|j: int| 0 <= j < width ==> #[trigger] of_node(functions_from(concurrency, width, 0), i)[j] == (i, j as nat, true),
{
    lemma_of_node_from(concurrency, width, 0, i);
}

/// The functions to register for a plan graph whose node `i` asks for
/// `concurrency[i]` instances, named after `digest`. Checks the whole graph
/// before anything is planned, so that an error leaves nothing registered.
pub fn plan_functions(digest: &str, concurrency: &Vec<usize>, width: usize) -> (r: Result<Vec<FunctionSpec>, LaunchError>)
    ensures
        concurrency@.len() >= MAX_DAG_NODES ==> r == Err::<Vec<FunctionSpec>, LaunchError>(LaunchError::TooManyNodes(concurrency.len())),
        concurrency@.len() < MAX_DAG_NODES && (width == 0 || width > MAX_GROUP_WIDTH)
            ==> r == Err::<Vec<FunctionSpec>, LaunchError>(LaunchError::InvalidGroupWidth(width)),
        r matches Err(LaunchError::ZeroConcurrency(i)) ==> i < concurrency@.len() && concurrency@[i as int] == 0
            && forall|k: int| 0 <= k < i ==> concurrency@[k] > 0,
        r is Ok <==> concurrency@.len() < MAX_DAG_NODES && 0 < width <= MAX_GROUP_WIDTH
            && !has_zero_concurrency(concurrency@),
        r matches Ok(fs) ==> fs@.map_values(|f: FunctionSpec| function_view(f)) == functions_from(concurrency@, width as nat, 0)
            && forall|k: int| 0 <= k < fs@.len() ==> (#[trigger] fs@[k]).name@ == function_name(digest@, fs@[k].fragment as nat, fs@[k].replica as nat),
{
    let n = concurrency.len();
    if n >= MAX_DAG_NODES {
        return Err(LaunchError::TooManyNodes(n));
    }
    if width == 0 || width > MAX_GROUP_WIDTH {
        return Err(LaunchError::InvalidGroupWidth(width));
    }
    let mut z: usize = 0;
    while z < n
        invariant
            n == concurrency@.len(),
            n < MAX_DAG_NODES,
            0 < width <= MAX_GROUP_WIDTH,
            z <= n,
            forall|k: int| 0 <= k < z ==> concurrency@[k] > 0,
        decreases n - z,
    {
        if concurrency[z] == 0 {
            return Err(LaunchError::ZeroConcurrency(z));
        }
        z = z + 1;
    }
    let mut out: Vec<FunctionSpec> = Vec::new();
    let mut i: usize = n;
    while i > 0
        invariant
            n == concurrency@.len(),
            n < MAX_DAG_NODES,
            0 < width <= MAX_GROUP_WIDTH,
            i <= n,
            out@.map_values(|f: FunctionSpec| function_view(f)) == functions_from(concurrency@, width as nat, i as nat),
            forall|k: int| 0 <= k < out@.len() ==> (#[trigger] out@[k]).name@ == function_name(digest@, out@[k].fragment as nat, out@[k].replica as nat),
        decreases i,
    {
        i = i - 1;
        let ghost before = out@.map_values(|f: FunctionSpec| function_view(f));
        let ghost node = node_functions(i as nat, concurrency@[i as int] as nat, width as nat);
        if concurrency[i] == 1 {
            out.push(FunctionSpec {
                fragment: i,
                replica: 0,
                name: format_function_name(digest, i, 0),
                single_invocation: false,
            });
            assert(out@.map_values(|f: FunctionSpec| function_view(f)) =~= before + node);
        } else {
            let mut j: usize = 0;
            while j < width
                invariant
                    n == concurrency@.len(),
                    i < n < MAX_DAG_NODES,
                    0 < width <= MAX_GROUP_WIDTH,
                    j <= width,
                    concurrency@[i as int] != 1,
                    node == node_functions(i as nat, concurrency@[i as int] as nat, width as nat),
                    out@.map_values(|f: FunctionSpec| function_view(f)) == before + node.subrange(0, j as int),
                    forall|k: int| 0 <= k < out@.len() ==> (#[trigger] out@[k]).name@ == function_name(digest@, out@[k].fragment as nat, out@[k].replica as nat),
                decreases width - j,
            {
                let ghost prev = out@;
                out.push(FunctionSpec {
                    fragment: i,
                    replica: j,
                    name: format_function_name(digest, i, j),
                    single_invocation: true,
                });
                assert(out@.map_values(|f: FunctionSpec| function_view(f)) =~= before + node.subrange(0, j + 1)) by {
                    assert(node[j as int] == (i as nat, j as nat, true));
                    assert(function_view(out@[out@.len() - 1]) == (i as nat, j as nat, true));
                    assert(out@ == prev.push(out@[out@.len() - 1]));
                    assert(out@.map_values(|f: FunctionSpec| function_view(f)) =~= prev.map_values(|f: FunctionSpec| function_view(f)).push(function_view(out@[out@.len() - 1])));
                    assert(node.subrange(0, j + 1) =~= node.subrange(0, j as int).push(node[j as int]));
                }
                j = j + 1;
            }
            assert(node.subrange(0, width as int) =~= node);
        }
    }
    Ok(out)
}

/// Where a node's output goes: nowhere but `sink` for the last node; the
/// single function of a downstream node of concurrency `1`; otherwise the
/// downstream node's group of `width` members.
pub open spec fn target_of(digest: Seq<char>, downstream: Option<(usize, usize)>, width: usize, sink: DataSinkType) -> NextView {
    match downstream {
        None => NextView::Sink(sink),
        Some((j, c)) => if c == 1 {
            NextView::Lambda(function_name(digest, j as nat, 0))
        } else {
            NextView::Group(group_name(digest, j as nat), width)
        },
    }
}

/// The target to write into the context of a node whose output feeds
/// `downstream` (its fragment index and concurrency), or `sink` when it feeds
/// no node.
pub fn next_target(digest: &str, downstream: Option<(usize, usize)>, width: usize, sink: DataSinkType) -> (r: CloudFunction)
    requires
        downstream matches Some((j, _)) ==> j < MAX_DAG_NODES,
    ensures
        next_view(r) == target_of(digest@, downstream, width, sink),
{
    match downstream {
        None => CloudFunction::Sink(sink),
        Some((j, c)) => if c == 1 {
            CloudFunction::Lambda(format_function_name(digest, j, 0))
        } else {
            CloudFunction::Group((format_group_name(digest, j), width))
        },
    }
}

/// The node that node `i` feeds in a chain of nodes: node `i + 1` with its
/// concurrency, or none for the last node.
pub open spec fn downstream_of(concurrency: Seq<usize>, i: int) -> Option<(usize, usize)> {
    if i + 1 < concurrency.len() {
        Some(((i + 1) as usize, concurrency[i + 1]))
    } else {
        None
    }
}

/// Makes `ctx`, the context of `f`'s node in a chain of nodes, the context of
/// function `f`: it takes `f`'s address, and sends its output to the next
/// node (or to `sink` after the last node), as `next_target` says.
pub fn address_context(
    ctx: &mut ExecutionContext,
    digest: &str,
    concurrency: &Vec<usize>,
    f: &FunctionSpec,
    width: usize,
    sink: DataSinkType,
)
    requires
        f.fragment < concurrency@.len() <= MAX_DAG_NODES,
    ensures
        final(ctx).name@ == f.name@,
        next_view(final(ctx).next) == target_of(digest@, downstream_of(concurrency@, f.fragment as int), width, sink),
        final(ctx).plan == old(ctx).plan,
{
    let downstream = if f.fragment + 1 < concurrency.len() {
        Some((f.fragment + 1, concurrency[f.fragment + 1]))
    } else {
        None
    };
    ctx.name = f.name.clone();
    ctx.next = next_target(digest, downstream, width, sink);
}

} // verus!
