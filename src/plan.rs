//! A physical plan fragment held as an arena of operators in breadth-first
//! order, and the binding of delivered sources to its leaf scans.
use vstd::prelude::*;

verus! {

/// One operator of a plan fragment.
#[derive(Debug, Clone)]
pub struct Operator {
    /// The query engine's serialized form of the operator, without its data.
    pub descriptor: Vec<u8>,
    /// The names of the fields of the operator's output schema.
    pub schema: Vec<String>,
    /// Arena indices of the operator's inputs, in order.
    pub children: Vec<usize>,
}

/// A plan fragment. `nodes[0]` is the root and the nodes are numbered
/// breadth-first (`Plan::from_operators` accepts no other numbering), so that
/// visiting them by index is a breadth-first walk. `bindings[i]` is the index
/// of the source bound to leaf `i`, if any.
#[derive(Debug, Clone)]
pub struct Plan {
    pub nodes: Vec<Operator>,
    pub bindings: Vec<Option<usize>>,
}

/// Some field of `fields` is called `name`.
pub open spec fn has_name(fields: Seq<String>, name: Seq<char>) -> bool {
    exists|k: int| 0 <= k < fields.len() && #[trigger] fields[k]@ == name
}

/// Every name of `sub` occurs in `sup`.
pub open spec fn names_within(sub: Seq<String>, sup: Seq<String>) -> bool {
    forall|j: int| 0 <= j < sub.len() ==> has_name(sup, #[trigger] sub[j]@)
}

/// The schema-match rule: the field names of one schema all occur in the
/// other, in either direction. Field types and order are not compared.
pub open spec fn schema_matches(s1: Seq<String>, s2: Seq<String>) -> bool {
    names_within(s2, s1) || names_within(s1, s2)
}

/// `j` is the earliest source whose schema matches `leaf`.
pub open spec fn is_first_match(leaf: Seq<String>, sources: Seq<Seq<String>>, j: int) -> bool {
    &&& 0 <= j < sources.len()
    &&& schema_matches(leaf, sources[j])
    &&& forall|k: int| 0 <= k < j ==> !schema_matches(leaf, #[trigger] sources[k])
}

/// No source's schema matches `leaf`.
pub open spec fn no_match(leaf: Seq<String>, sources: Seq<Seq<String>>) -> bool {
    forall|k: int| 0 <= k < sources.len() ==> !schema_matches(leaf, #[trigger] sources[k])
}

/// Does any name of `sup` equal `name`?
fn contains_name(sup: &Vec<String>, name: &String) -> (r: bool)
    ensures
        r == has_name(sup@, name@),
{
    let mut k: usize = 0;
    while k < sup.len()
        invariant
            k <= sup@.len(),
            forall|m: int| 0 <= m < k ==> #[trigger] sup@[m]@ != name@,
        decreases sup@.len() - k,
    {
        if sup[k] == *name {
            return true;
        }
        k = k + 1;
    }
    false
}

/// Whether every name of `sub` occurs in `sup`.
fn all_names_within(sub: &Vec<String>, sup: &Vec<String>) -> (r: bool)
    ensures
        r == names_within(sub@, sup@),
{
    let mut j: usize = 0;
    while j < sub.len()
        invariant
            j <= sub@.len(),
            forall|m: int| 0 <= m < j ==> has_name(sup@, #[trigger] sub@[m]@),
        decreases sub@.len() - j,
    {
        if !contains_name(sup, &sub[j]) {
            return false;
        }
        j = j + 1;
    }
    true
}

/// Compares two schemas by field names: they match when the names of one
/// all occur in the other. Field types and order are not compared.
pub fn compare_schema(schema1: &Vec<String>, schema2: &Vec<String>) -> (r: bool)
    ensures
        r == schema_matches(schema1@, schema2@),
{
    all_names_within(schema2, schema1) || all_names_within(schema1, schema2)
}

/// The earliest source that matches `leaf`, if any does.
pub open spec fn first_match(leaf: Seq<String>, sources: Seq<Seq<String>>) -> Option<usize> {
    if exists|j: usize| is_first_match(leaf, sources, j as int) {
        Some(choose|j: usize| is_first_match(leaf, sources, j as int))
    } else {
        None
    }
}

/// There is only one earliest match.
proof fn lemma_first_match_unique(leaf: Seq<String>, sources: Seq<Seq<String>>, j: usize)
    requires
        is_first_match(leaf, sources, j as int),
    ensures
        first_match(leaf, sources) == Some(j),
{
    let c = choose|c: usize| is_first_match(leaf, sources, c as int);
    if c < j {
        assert(!schema_matches(leaf, sources[c as int]));
    } else if j < c {
        assert(!schema_matches(leaf, sources[j as int]));
    }
}

/// Without any matching source there is no earliest one.
proof fn lemma_first_match_none(leaf: Seq<String>, sources: Seq<Seq<String>>)
    requires
        no_match(leaf, sources),
    ensures
        first_match(leaf, sources) is None,
{
    if exists|j: usize| is_first_match(leaf, sources, j as int) {
        let c = choose|c: usize| is_first_match(leaf, sources, c as int);
        assert(schema_matches(leaf, sources[c as int]));
    }
}

/// The schemas of a list of sources.
pub open spec fn schemas_of(sources: Seq<Vec<String>>) -> Seq<Seq<String>> {
    sources.map_values(|s: Vec<String>| s@)
}

/// Operator `i` takes no input: it is a leaf scan.
pub open spec fn is_leaf(nodes: Seq<Operator>, i: int) -> bool {
    nodes[i].children@.len() == 0
}

/// Every leaf scan has a matching source.
pub open spec fn all_leaves_match(nodes: Seq<Operator>, sources: Seq<Seq<String>>) -> bool {
    forall|i: int| 0 <= i < nodes.len() && is_leaf(nodes, i) ==> (#[trigger] first_match(nodes[i].schema@, sources)) is Some
}

/// The bindings after each leaf scan is bound to its earliest matching
/// source; other operators keep theirs.
pub open spec fn fed(nodes: Seq<Operator>, bindings: Seq<Option<usize>>, sources: Seq<Seq<String>>) -> Seq<Option<usize>> {
    Seq::new(
        bindings.len(),
        |i: int|
            if is_leaf(nodes, i) {
                first_match(nodes[i].schema@, sources)
            } else {
                bindings[i]
            },
    )
}

/// `i` is the leaf scan that a breadth-first walk meets first.
pub open spec fn is_first_leaf(nodes: Seq<Operator>, i: int) -> bool {
    &&& 0 <= i < nodes.len()
    &&& is_leaf(nodes, i)
    &&& forall|k: int| 0 <= k < i ==> !is_leaf(nodes, k)
}

/// What binding source `0` to the first leaf scan does: `after` is `before`
/// with that leaf bound, or unchanged with `NoLeaf` when there is no leaf.
pub open spec fn one_source_fed(before: Plan, after: Plan, r: Result<(), FeedError>) -> bool {
    &&& after.wf()
    &&& after.nodes == before.nodes
    &&& (r is Err <==> forall|i: int| 0 <= i < before.nodes@.len() ==> !is_leaf(before.nodes@, i))
    &&& (r is Err ==> r == Err::<(), FeedError>(FeedError::NoLeaf) && after.bindings == before.bindings)
    &&& (r is Ok ==> exists|i: int| #[trigger] is_first_leaf(before.nodes@, i)
        && after.bindings@ == before.bindings@.update(i, Some(0usize)))
}

/// What binding `sources` to the leaf scans does: every leaf gets its
/// earliest matching source, or, when some leaf has none, `after` is
/// `before` and the error names such a leaf.
pub open spec fn sources_fed(before: Plan, after: Plan, sources: Seq<Seq<String>>, r: Result<(), FeedError>) -> bool {
    &&& after.wf()
    &&& after.nodes == before.nodes
    &&& (r is Ok <==> all_leaves_match(before.nodes@, sources))
    &&& (r is Ok ==> after.bindings@ == fed(before.nodes@, before.bindings@, sources))
    &&& (r matches Err(e) ==> after.bindings == before.bindings && exists|i: int|
        0 <= i < before.nodes@.len() && #[trigger] is_leaf(before.nodes@, i)
        && first_match(before.nodes@[i].schema@, sources) is None
        && e == FeedError::UnmatchedLeaf(i as usize))
}

/// The input lists of a plan's operators.
pub open spec fn children_of(nodes: Seq<Operator>) -> Seq<Seq<usize>> {
    nodes.map_values(|o: Operator| o.children@)
}

/// How many inputs the operators before `i` have together.
pub open spec fn children_before(cs: Seq<Seq<usize>>, i: int) -> int
    decreases i,
{
    if i <= 0 {
        0
    } else {
        children_before(cs, i - 1) + cs[i - 1].len()
    }
}

/// Input lists of operators numbered breadth-first from the root at `0`:
/// listing them in index order gives `1, 2, ..., n - 1`, and each input
/// comes after the operator that reads it. An empty plan qualifies.
pub open spec fn breadth_first_children(cs: Seq<Seq<usize>>) -> bool {
    cs.len() == 0 || {
        &&& children_before(cs, cs.len() as int) == cs.len() - 1
        &&& forall|i: int, k: int| 0 <= i < cs.len() && 0 <= k < cs[i].len()
            ==> #[trigger] cs[i][k] == children_before(cs, i) + k + 1 && i < cs[i][k] < cs.len()
    }
}

/// The operators are numbered breadth-first.
pub open spec fn is_breadth_first(nodes: Seq<Operator>) -> bool {
    breadth_first_children(children_of(nodes))
}

/// Why delivered data could not be bound to a plan.
#[derive(Debug, Clone, Copy, PartialEq, Eq, Structural)]
pub enum FeedError {
    /// The plan has no leaf scan.
    NoLeaf,
    /// No source's schema matches the leaf scan at this index.
    UnmatchedLeaf(usize),
    /// The plan is still in the overflow store.
    PlanNotLoaded,
}

/// The earliest of `sources` whose schema matches `leaf`.
pub fn first_matching_source(leaf: &Vec<String>, sources: &Vec<Vec<String>>) -> (r: Option<usize>)
    ensures
        r == first_match(leaf@, schemas_of(sources@)),
{
    let ghost views = schemas_of(sources@);
    let mut k: usize = 0;
    while k < sources.len()
        invariant
            k <= sources@.len(),
            views == schemas_of(sources@),
            forall|m: int| 0 <= m < k ==> !schema_matches(leaf@, #[trigger] views[m]),
        decreases sources@.len() - k,
    {
        if compare_schema(leaf, &sources[k]) {
            proof {
                lemma_first_match_unique(leaf@, views, k);
            }
            return Some(k);
        }
        k = k + 1;
    }
    proof {
        lemma_first_match_none(leaf@, views);
    }
    None
}

/// A copy of a list of field names.
fn copy_names(v: &Vec<String>) -> (r: Vec<String>)
    ensures
        r@ == v@,
{
    let mut r: Vec<String> = Vec::new();
    let mut i: usize = 0;
    while i < v.len()
        invariant
            i <= v@.len(),
            r@ == v@.subrange(0, i as int),
        decreases v@.len() - i,
    {
        r.push(v[i].clone());
        i = i + 1;
    }
    assert(r@ =~= v@);
    r
}

/// Whether the operators are numbered breadth-first.
pub fn breadth_first(nodes: &Vec<Operator>) -> (r: bool)
    ensures
        r == is_breadth_first(nodes@),
{
    let ghost cs = children_of(nodes@);
    let n = nodes.len();
    if n == 0 {
        return true;
    }
    let mut next: usize = 1;
    let mut i: usize = 0;
    while i < n
        invariant
            n == nodes@.len(),
            cs == children_of(nodes@),
            i <= n,
            next == children_before(cs, i as int) + 1,
            next <= n,
            forall|a: int, k: int| 0 <= a < i && 0 <= k < cs[a].len()
                ==> #[trigger] cs[a][k] == children_before(cs, a) + k + 1 && a < cs[a][k] < n,
        decreases n - i,
    {
        let children = &nodes[i].children;
        assert(children@ == cs[i as int]);
        let mut k: usize = 0;
        while k < children.len()
            invariant
                n == nodes@.len(),
                cs == children_of(nodes@),
                i < n,
                children@ == cs[i as int],
                k <= children@.len(),
                next == children_before(cs, i as int) + k + 1,
                next <= n,
                forall|m: int| 0 <= m < k ==> #[trigger] cs[i as int][m] == children_before(cs, i as int) + m + 1
                    && i < cs[i as int][m] < n,
            decreases children@.len() - k,
        {
            let c = children[k];
            if c != next || c <= i || c >= n {
                proof {
                    if is_breadth_first(nodes@) {
                        assert(cs[i as int][k as int] == c);
                    }
                }
                return false;
            }
            next = next + 1;
            k = k + 1;
        }
        i = i + 1;
    }
    next == n
}

impl Plan {
    /// The operators are numbered breadth-first, with one binding slot each.
    pub open spec fn wf(&self) -> bool {
        &&& self.bindings@.len() == self.nodes@.len()
        &&& is_breadth_first(self.nodes@)
    }

    /// A plan over `nodes` with no source bound yet.
    pub(crate) fn unbound(nodes: Vec<Operator>) -> (r: Plan)
        requires
            is_breadth_first(nodes@),
        ensures
            r.wf(),
            r.nodes == nodes,
            forall|i: int| 0 <= i < r.bindings@.len() ==> r.bindings@[i] is None,
    {
        let mut bindings: Vec<Option<usize>> = Vec::new();
        let mut i: usize = 0;
        while i < nodes.len()
            invariant
                i <= nodes@.len(),
                bindings@.len() == i,
                forall|k: int| 0 <= k < i ==> bindings@[k] is None,
            decreases nodes@.len() - i,
        {
            bindings.push(None);
            i = i + 1;
        }
        Plan { nodes, bindings }
    }

    /// A plan over `nodes`, provided they are numbered breadth-first.
    pub fn from_operators(nodes: Vec<Operator>) -> (r: Option<Plan>)
        ensures
            r is Some <==> is_breadth_first(nodes@),
            r matches Some(p) ==> p.wf() && p.nodes == nodes
                && forall|i: int| 0 <= i < p.bindings@.len() ==> p.bindings@[i] is None,
    {
        if breadth_first(&nodes) {
            Some(Plan::unbound(nodes))
        } else {
            None
        }
    }

    /// The source bound to operator `i`, if any.
    pub fn binding(&self, i: usize) -> (r: Option<usize>)
        requires
            self.wf(),
            i < self.nodes@.len(),
        ensures
            r == self.bindings@[i as int],
    {
        self.bindings[i]
    }

    /// Binds source `0` to the leaf scan that a breadth-first walk meets
    /// first. Fails, changing nothing, when the plan has no leaf.
    pub fn feed_one_source(&mut self) -> (r: Result<(), FeedError>)
        requires
            old(self).wf(),
        ensures
            one_source_fed(*old(self), *final(self), r),
    {
        let mut i: usize = 0;
        while i < self.nodes.len()
            invariant
                i <= self.nodes@.len(),
                self.nodes == old(self).nodes,
                self.bindings == old(self).bindings,
                self.wf(),
                forall|k: int| 0 <= k < i ==> !is_leaf(self.nodes@, k),
            decreases self.nodes@.len() - i,
        {
            if self.nodes[i].children.len() == 0 {
                self.bindings.set(i, Some(0));
                assert(is_first_leaf(self.nodes@, i as int));
                return Ok(());
            }
            i = i + 1;
        }
        Err(FeedError::NoLeaf)
    }

    /// Binds each leaf scan to the earliest of `sources` whose schema
    /// matches its own. Fails, changing nothing, on the first leaf that no
    /// source matches.
    pub fn feed_data_sources(&mut self, sources: &Vec<Vec<String>>) -> (r: Result<(), FeedError>)
        requires
            old(self).wf(),
        ensures
            sources_fed(*old(self), *final(self), schemas_of(sources@), r),
    {
        let ghost views = schemas_of(sources@);
        let ghost goal = fed(self.nodes@, self.bindings@, views);
        let mut next: Vec<Option<usize>> = Vec::new();
        let mut i: usize = 0;
        while i < self.nodes.len()
            invariant
                self.wf(),
                self.nodes == old(self).nodes,
                self.bindings == old(self).bindings,
                i <= self.nodes@.len(),
                views == schemas_of(sources@),
                goal == fed(self.nodes@, self.bindings@, views),
                next@ == goal.subrange(0, i as int),
                forall|k: int| 0 <= k < i && is_leaf(self.nodes@, k) ==> (#[trigger] first_match(self.nodes@[k].schema@, views)) is Some,
            decreases self.nodes@.len() - i,
        {
            if self.nodes[i].children.len() == 0 {
                match first_matching_source(&self.nodes[i].schema, sources) {
                    Some(j) => next.push(Some(j)),
                    None => {
                        assert(is_leaf(self.nodes@, i as int));
                        return Err(FeedError::UnmatchedLeaf(i));
                    },
                }
            } else {
                next.push(self.bindings[i]);
            }
            i = i + 1;
        }
        assert(next@ =~= goal);
        self.bindings = next;
        Ok(())
    }

    /// Binds each leaf scan to `left` (source `0`) or `right` (source `1`),
    /// whichever matches its schema first, as `feed_data_sources` does.
    pub fn feed_two_source(&mut self, left: &Vec<String>, right: &Vec<String>) -> (r: Result<(), FeedError>)
        requires
            old(self).wf(),
        ensures
            sources_fed(*old(self), *final(self), seq![left@, right@], r),
    {
        let mut sources: Vec<Vec<String>> = Vec::new();
        sources.push(copy_names(left));
        sources.push(copy_names(right));
        assert(schemas_of(sources@) =~= seq![left@, right@]);
        self.feed_data_sources(&sources)
    }
}

/// The field names of a schema, as character sequences.
pub open spec fn names_of(s: Seq<String>) -> Seq<Seq<char>> {
    s.map_values(|f: String| f@)
}

/// The schema-match rule does not depend on the order of its arguments.
pub proof fn lemma_schema_match_symmetric(s1: Seq<String>, s2: Seq<String>)
    ensures
        schema_matches(s1, s2) == schema_matches(s2, s1),
{
}

/// A leaf scan whose schema matches one of two sources and not the other is
/// bound to the one it matches, in whichever order the two are delivered.
pub proof fn lemma_two_sources_not_swapped(
    nodes: Seq<Operator>,
    bindings: Seq<Option<usize>>,
    left: Seq<String>,
    right: Seq<String>,
    i: int,
)
    requires
        bindings.len() == nodes.len(),
        0 <= i < nodes.len(),
        is_leaf(nodes, i),
        schema_matches(nodes[i].schema@, left),
        !schema_matches(nodes[i].schema@, right),
    ensures
        fed(nodes, bindings, seq![left, right])[i] == Some(0usize),
        fed(nodes, bindings, seq![right, left])[i] == Some(1usize),
{
    let leaf = nodes[i].schema@;
    assert(is_first_match(leaf, seq![left, right], 0));
    lemma_first_match_unique(leaf, seq![left, right], 0);
    assert(is_first_match(leaf, seq![right, left], 1));
    lemma_first_match_unique(leaf, seq![right, left], 1);
}

} // verus!
