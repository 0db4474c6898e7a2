//! The CSS that all chunks of a bundle share: whose styles it holds, and in which order.

use vstd::prelude::*;
use crate::codec;
use crate::name_set::contains_name;
use crate::text;
use crate::text::same_text;

verus! {

/// A chunk of the bundle, with its own styles.
#[derive(Debug, Clone, PartialEq, Eq)]
pub struct CssChunkNode {
    pub filename: String,
    pub is_entry: bool,
    pub imports: Vec<String>,
    pub dynamic_imports: Vec<String>,
    pub css: Option<String>,
}

pub ghost struct NodeModel {
    pub filename: Seq<char>,
    pub is_entry: bool,
    pub imports: Seq<Seq<char>>,
    pub dynamic_imports: Seq<Seq<char>>,
    pub css: Option<Seq<char>>,
}

impl View for CssChunkNode {
    type V = NodeModel;

    open spec fn view(&self) -> NodeModel {
        NodeModel {
            filename: self.filename@,
            is_entry: self.is_entry,
            imports: text::texts(self.imports@),
            dynamic_imports: text::texts(self.dynamic_imports@),
            css: codec::opt_text(self.css),
        }
    }
}

pub open spec fn node_models(nodes: Seq<CssChunkNode>) -> Seq<NodeModel> {
    nodes.map_values(|node: CssChunkNode| node@)
}

/// What has been collected so far: the chunks that were visited, the dynamic imports that are
/// still to be followed, and the styles.
#[derive(Debug, Clone, PartialEq, Eq)]
pub struct CssCollection {
    pub visited: Vec<String>,
    pub pending: Vec<String>,
    pub css: String,
}

#[verifier::ext_equal]
pub ghost struct CollectionModel {
    pub visited: Seq<Seq<char>>,
    pub pending: Seq<Seq<char>>,
    pub css: Seq<char>,
}

impl View for CssCollection {
    type V = CollectionModel;

    open spec fn view(&self) -> CollectionModel {
        CollectionModel {
            visited: text::texts(self.visited@),
            pending: text::texts(self.pending@),
            css: self.css@,
        }
    }
}

/// The chunk with a file name; where several have it, the last one.
pub open spec fn node_named(nodes: Seq<NodeModel>, name: Seq<char>) -> Option<int>
    decreases nodes.len(),
{
    if nodes.len() == 0 {
        None
    } else if nodes.last().filename == name {
        Some(nodes.len() - 1)
    } else {
        node_named(nodes.drop_last(), name)
    }
}

/// The list with the names added that it lacks, in order.
pub open spec fn with_names(list: Seq<Seq<char>>, names: Seq<Seq<char>>) -> Seq<Seq<char>>
    decreases names.len(),
{
    if names.len() == 0 {
        list
    } else {
        let before = with_names(list, names.drop_last());
        if before.contains(names.last()) {
            before
        } else {
            before.push(names.last())
        }
    }
}

/// A chunk on the way in.
pub open spec fn entered(state: CollectionModel, node: NodeModel) -> CollectionModel {
    CollectionModel { visited: state.visited.push(node.filename), ..state }
}

/// A chunk on the way out: its dynamic imports wait, and its styles follow those of its imports.
pub open spec fn left(state: CollectionModel, node: NodeModel) -> CollectionModel {
    CollectionModel {
        visited: state.visited,
        pending: with_names(state.pending, node.dynamic_imports),
        css: match node.css {
            Some(css) => state.css + css,
            None => state.css,
        },
    }
}

/// A visit of the chunk at `at`, at most `depth` imports deep.
pub open spec fn visited_to_depth(
    nodes: Seq<NodeModel>,
    at: int,
    state: CollectionModel,
    depth: nat,
) -> CollectionModel
    decreases depth, 0nat,
{
    if state.visited.contains(nodes[at].filename) || depth == 0 {
        state
    } else {
        left(
            named_to_depth(
                nodes,
                nodes[at].imports,
                entered(state, nodes[at]),
                (depth - 1) as nat,
            ),
            nodes[at],
        )
    }
}

/// A visit of the chunks with these names, in order.
pub open spec fn named_to_depth(
    nodes: Seq<NodeModel>,
    names: Seq<Seq<char>>,
    state: CollectionModel,
    depth: nat,
) -> CollectionModel
    decreases depth, names.len() + 1,
{
    if names.len() == 0 {
        state
    } else {
        let before = named_to_depth(nodes, names.drop_last(), state, depth);
        match node_named(nodes, names.last()) {
            Some(at) => visited_to_depth(nodes, at, before, depth),
            None => before,
        }
    }
}

/// A visit of the chunk at `at`: its imports first, then the chunk itself. A chunk is visited
/// once.
pub open spec fn visit(nodes: Seq<NodeModel>, at: int, state: CollectionModel) -> CollectionModel {
    visited_to_depth(nodes, at, state, nodes.len())
}

pub open spec fn visit_named(
    nodes: Seq<NodeModel>,
    names: Seq<Seq<char>>,
    state: CollectionModel,
) -> CollectionModel {
    named_to_depth(nodes, names, state, nodes.len())
}

/// The first `count` chunks, as far as they are entries.
pub open spec fn visit_entries(nodes: Seq<NodeModel>, count: nat) -> CollectionModel
    decreases count,
{
    if count == 0 {
        CollectionModel { visited: Seq::empty(), pending: Seq::empty(), css: Seq::empty() }
    } else {
        let before = visit_entries(nodes, (count - 1) as nat);
        if nodes[count - 1].is_entry {
            visit(nodes, count - 1, before)
        } else {
            before
        }
    }
}

/// One round through the dynamic imports that wait.
pub open spec fn next_round(nodes: Seq<NodeModel>, state: CollectionModel) -> CollectionModel {
    visit_named(nodes, state.pending, CollectionModel { pending: Seq::empty(), ..state })
}

/// Rounds until nothing waits, at most `limit` of them.
pub open spec fn rounds(nodes: Seq<NodeModel>, state: CollectionModel, limit: nat) -> CollectionModel
    decreases limit,
{
    if state.pending.len() == 0 || limit == 0 {
        state
    } else {
        rounds(nodes, next_round(nodes, state), (limit - 1) as nat)
    }
}

/// Everything that can be reached from the entries.
pub open spec fn collected(nodes: Seq<NodeModel>) -> CollectionModel {
    rounds(nodes, visit_entries(nodes, nodes.len()), nodes.len() + 1)
}

// ---------------------------------------------------------------------------------------------
// The limits on depth and rounds are never met

/// The number of chunks that were not visited.
pub open spec fn unvisited(nodes: Seq<NodeModel>, names: Seq<Seq<char>>) -> nat
    decreases nodes.len(),
{
    if nodes.len() == 0 {
        0
    } else {
        unvisited(nodes.drop_last(), names) + if names.contains(nodes.last().filename) {
            0nat
        } else {
            1nat
        }
    }
}

pub open spec fn holds_all(names: Seq<Seq<char>>, others: Seq<Seq<char>>) -> bool {
    forall|name: Seq<char>| others.contains(name) ==> #[trigger] names.contains(name)
}

proof fn lemma_unvisited_shrinks(
    nodes: Seq<NodeModel>,
    fewer: Seq<Seq<char>>,
    more: Seq<Seq<char>>,
)
    requires
        holds_all(more, fewer),
    ensures
        unvisited(nodes, more) <= unvisited(nodes, fewer) <= nodes.len(),
    decreases nodes.len(),
{
    if nodes.len() > 0 {
        lemma_unvisited_shrinks(nodes.drop_last(), fewer, more);
        if fewer.contains(nodes.last().filename) {
            assert(more.contains(nodes.last().filename));
        }
    }
}

proof fn lemma_unvisited_push(nodes: Seq<NodeModel>, names: Seq<Seq<char>>, at: int)
    requires
        0 <= at < nodes.len(),
        !names.contains(nodes[at].filename),
    ensures
        unvisited(nodes, names.push(nodes[at].filename)) < unvisited(nodes, names),
    decreases nodes.len(),
{
    let more = names.push(nodes[at].filename);
    lemma_push_holds_all(names, nodes[at].filename);
    let front = nodes.drop_last();
    if at == nodes.len() - 1 {
        lemma_unvisited_shrinks(front, names, more);
        assert(more.contains(nodes.last().filename)) by {
            assert(more[names.len() as int] == nodes.last().filename);
        }
    } else {
        assert(front[at] == nodes[at]);
        lemma_unvisited_push(front, names, at);
        if names.contains(nodes.last().filename) {
            assert(more.contains(nodes.last().filename));
        }
    }
}

proof fn lemma_push_holds_all(names: Seq<Seq<char>>, name: Seq<char>)
    ensures
        holds_all(names.push(name), names),
{
    assert forall|other: Seq<char>| names.contains(other) implies #[trigger] names.push(
        name,
    ).contains(other) by {
        let i = choose|i: int| 0 <= i < names.len() && names[i] == other;
        assert(names.push(name)[i] == other);
    }
}

proof fn lemma_node_named(nodes: Seq<NodeModel>, name: Seq<char>)
    ensures
        node_named(nodes, name) matches Some(at) ==> 0 <= at < nodes.len() && nodes[at].filename
            == name,
    decreases nodes.len(),
{
    if nodes.len() > 0 {
        lemma_node_named(nodes.drop_last(), name);
    }
}

/// A visit either changes nothing or visits another chunk, and it forgets none.
proof fn lemma_visit_progress(
    nodes: Seq<NodeModel>,
    at: int,
    state: CollectionModel,
    depth: nat,
)
    requires
        0 <= at < nodes.len(),
    ensures
        holds_all(visited_to_depth(nodes, at, state, depth).visited, state.visited),
        visited_to_depth(nodes, at, state, depth) == state || unvisited(
            nodes,
            visited_to_depth(nodes, at, state, depth).visited,
        ) < unvisited(nodes, state.visited),
    decreases depth, 0nat,
{
    if !state.visited.contains(nodes[at].filename) && depth > 0 {
        let inside = entered(state, nodes[at]);
        lemma_push_holds_all(state.visited, nodes[at].filename);
        lemma_unvisited_push(nodes, state.visited, at);
        lemma_named_progress(nodes, nodes[at].imports, inside, (depth - 1) as nat);
        let after = named_to_depth(nodes, nodes[at].imports, inside, (depth - 1) as nat);
        assert(holds_all(after.visited, state.visited)) by {
            assert forall|name: Seq<char>| state.visited.contains(name) implies
                #[trigger] after.visited.contains(name) by {
                assert(inside.visited.contains(name));
            }
        }
        lemma_unvisited_shrinks(nodes, inside.visited, after.visited);
    }
}

proof fn lemma_named_progress(
    nodes: Seq<NodeModel>,
    names: Seq<Seq<char>>,
    state: CollectionModel,
    depth: nat,
)
    ensures
        holds_all(named_to_depth(nodes, names, state, depth).visited, state.visited),
        named_to_depth(nodes, names, state, depth) == state || unvisited(
            nodes,
            named_to_depth(nodes, names, state, depth).visited,
        ) < unvisited(nodes, state.visited),
    decreases depth, names.len() + 1,
{
    if names.len() > 0 {
        lemma_named_progress(nodes, names.drop_last(), state, depth);
        let before = named_to_depth(nodes, names.drop_last(), state, depth);
        lemma_node_named(nodes, names.last());
        match node_named(nodes, names.last()) {
            Some(at) => {
                lemma_visit_progress(nodes, at, before, depth);
                let after = visited_to_depth(nodes, at, before, depth);
                assert forall|name: Seq<char>| state.visited.contains(name) implies
                    #[trigger] after.visited.contains(name) by {
                    assert(before.visited.contains(name));
                }
                lemma_unvisited_shrinks(nodes, state.visited, before.visited);
            },
            None => {},
        }
    }
}

/// A visit that may go as deep as there are chunks left does not change if it may go deeper.
proof fn lemma_visit_depth(
    nodes: Seq<NodeModel>,
    at: int,
    state: CollectionModel,
    depth: nat,
    more: nat,
)
    requires
        0 <= at < nodes.len(),
        unvisited(nodes, state.visited) <= depth <= more,
    ensures
        visited_to_depth(nodes, at, state, depth) == visited_to_depth(nodes, at, state, more),
    decreases depth, 0nat,
{
    if !state.visited.contains(nodes[at].filename) {
        lemma_unvisited_push(nodes, state.visited, at);
        lemma_named_depth(
            nodes,
            nodes[at].imports,
            entered(state, nodes[at]),
            (depth - 1) as nat,
            (more - 1) as nat,
        );
    }
}

proof fn lemma_named_depth(
    nodes: Seq<NodeModel>,
    names: Seq<Seq<char>>,
    state: CollectionModel,
    depth: nat,
    more: nat,
)
    requires
        unvisited(nodes, state.visited) <= depth <= more,
    ensures
        named_to_depth(nodes, names, state, depth) == named_to_depth(nodes, names, state, more),
    decreases depth, names.len() + 1,
{
    if names.len() > 0 {
        lemma_named_depth(nodes, names.drop_last(), state, depth, more);
        lemma_named_progress(nodes, names.drop_last(), state, depth);
        let before = named_to_depth(nodes, names.drop_last(), state, depth);
        lemma_unvisited_shrinks(nodes, state.visited, before.visited);
        lemma_node_named(nodes, names.last());
        match node_named(nodes, names.last()) {
            Some(at) => {
                lemma_visit_depth(nodes, at, before, depth, more);
            },
            None => {},
        }
    }
}

/// A visit of a chunk that was not visited goes through its imports, each with a visit of its own,
/// and then takes the chunk itself: the depth of the imports does not matter.
pub proof fn lemma_visit_goes_through_imports(
    nodes: Seq<NodeModel>,
    at: int,
    state: CollectionModel,
)
    requires
        0 <= at < nodes.len(),
        !state.visited.contains(nodes[at].filename),
    ensures
        visit(nodes, at, state) == left(
            visit_named(nodes, nodes[at].imports, entered(state, nodes[at])),
            nodes[at],
        ),
{
    lemma_unvisited_push(nodes, state.visited, at);
    lemma_unvisited_shrinks(nodes, state.visited, state.visited);
    lemma_named_depth(
        nodes,
        nodes[at].imports,
        entered(state, nodes[at]),
        (nodes.len() - 1) as nat,
        nodes.len(),
    );
}

proof fn lemma_rounds_end(nodes: Seq<NodeModel>, state: CollectionModel, limit: nat)
    requires
        unvisited(nodes, state.visited) < limit,
    ensures
        rounds(nodes, state, limit).pending.len() == 0,
    decreases limit,
{
    if state.pending.len() > 0 {
        let cleared = CollectionModel { pending: Seq::empty(), ..state };
        let next = next_round(nodes, state);
        lemma_named_progress(nodes, state.pending, cleared, nodes.len());
        if next == cleared {
            assert(rounds(nodes, next, (limit - 1) as nat) == next);
        } else {
            lemma_rounds_end(nodes, next, (limit - 1) as nat);
        }
    }
}

/// When the collection ends, no dynamic import waits.
pub proof fn lemma_nothing_waits(nodes: Seq<NodeModel>)
    ensures
        collected(nodes).pending.len() == 0,
{
    let start = visit_entries(nodes, nodes.len());
    lemma_unvisited_shrinks(nodes, start.visited, start.visited);
    lemma_rounds_end(nodes, start, nodes.len() + 1);
}

proof fn lemma_visit_once(nodes: Seq<NodeModel>, at: int, state: CollectionModel, depth: nat)
    requires
        0 <= at < nodes.len(),
        state.visited.no_duplicates(),
    ensures
        visited_to_depth(nodes, at, state, depth).visited.no_duplicates(),
    decreases depth, 0nat,
{
    if !state.visited.contains(nodes[at].filename) && depth > 0 {
        let inside = entered(state, nodes[at]);
        assert(inside.visited.no_duplicates()) by {
            assert forall|i: int, j: int|
                0 <= i < inside.visited.len() && 0 <= j < inside.visited.len() && i
                    != j implies inside.visited[i] != inside.visited[j] by {
                if i < state.visited.len() {
                    assert(state.visited.contains(state.visited[i]));
                }
                if j < state.visited.len() {
                    assert(state.visited.contains(state.visited[j]));
                }
            }
        }
        lemma_named_once(nodes, nodes[at].imports, inside, (depth - 1) as nat);
    }
}

proof fn lemma_named_once(
    nodes: Seq<NodeModel>,
    names: Seq<Seq<char>>,
    state: CollectionModel,
    depth: nat,
)
    requires
        state.visited.no_duplicates(),
    ensures
        named_to_depth(nodes, names, state, depth).visited.no_duplicates(),
    decreases depth, names.len() + 1,
{
    if names.len() > 0 {
        lemma_named_once(nodes, names.drop_last(), state, depth);
        lemma_node_named(nodes, names.last());
        match node_named(nodes, names.last()) {
            Some(at) => {
                lemma_visit_once(
                    nodes,
                    at,
                    named_to_depth(nodes, names.drop_last(), state, depth),
                    depth,
                );
            },
            None => {},
        }
    }
}

proof fn lemma_entries_once(nodes: Seq<NodeModel>, count: nat)
    requires
        count <= nodes.len(),
    ensures
        visit_entries(nodes, count).visited.no_duplicates(),
    decreases count,
{
    if count > 0 {
        lemma_entries_once(nodes, (count - 1) as nat);
        lemma_visit_once(
            nodes,
            count - 1,
            visit_entries(nodes, (count - 1) as nat),
            nodes.len(),
        );
    }
}

proof fn lemma_rounds_once(nodes: Seq<NodeModel>, state: CollectionModel, limit: nat)
    requires
        state.visited.no_duplicates(),
    ensures
        rounds(nodes, state, limit).visited.no_duplicates(),
    decreases limit,
{
    if state.pending.len() > 0 && limit > 0 {
        lemma_named_once(
            nodes,
            state.pending,
            CollectionModel { pending: Seq::empty(), ..state },
            nodes.len(),
        );
        lemma_rounds_once(nodes, next_round(nodes, state), (limit - 1) as nat);
    }
}

/// No chunk adds its styles twice.
pub proof fn lemma_every_chunk_once(nodes: Seq<NodeModel>)
    ensures
        collected(nodes).visited.no_duplicates(),
{
    lemma_entries_once(nodes, nodes.len());
    lemma_rounds_once(nodes, visit_entries(nodes, nodes.len()), nodes.len() + 1);
}

// ---------------------------------------------------------------------------------------------
// Whose styles are collected, and in which order

/// Whether a chunk has this file name.
pub open spec fn names_chunk(nodes: Seq<NodeModel>, name: Seq<char>) -> bool {
    exists|i: int| 0 <= i < nodes.len() && (#[trigger] nodes[i]).filename == name
}

/// Whether one of the chunks at these places has this file name.
pub open spec fn among(nodes: Seq<NodeModel>, order: Seq<int>, name: Seq<char>) -> bool {
    exists|p: int| 0 <= p < order.len() && nodes[#[trigger] order[p]].filename == name
}

/// The styles of the chunks at these places, one behind the other.
pub open spec fn styles_of(nodes: Seq<NodeModel>, order: Seq<int>) -> Seq<char>
    decreases order.len(),
{
    if order.len() == 0 {
        Seq::empty()
    } else {
        match nodes[order.last()].css {
            Some(css) => styles_of(nodes, order.drop_last()) + css,
            None => styles_of(nodes, order.drop_last()),
        }
    }
}

/// Places of chunks with different file names.
pub open spec fn are_places(nodes: Seq<NodeModel>, order: Seq<int>) -> bool {
    &&& forall|p: int| 0 <= p < order.len() ==> 0 <= #[trigger] order[p] < nodes.len()
    &&& forall|p: int, q: int|
        0 <= p < order.len() && 0 <= q < order.len() && p != q
            ==> nodes[#[trigger] order[p]].filename != nodes[#[trigger] order[q]].filename
}

/// Every chunk that one of these chunks imports is one of them.
pub open spec fn follows_imports(nodes: Seq<NodeModel>, order: Seq<int>) -> bool {
    forall|p: int, k: int|
        0 <= p < order.len() && 0 <= k < nodes[#[trigger] order[p]].imports.len() && names_chunk(
            nodes,
            #[trigger] nodes[order[p]].imports[k],
        ) ==> among(nodes, order, nodes[order[p]].imports[k])
}

/// Every chunk that one of these chunks imports dynamically is one of them.
pub open spec fn follows_dynamic_imports(nodes: Seq<NodeModel>, order: Seq<int>) -> bool {
    forall|p: int, k: int|
        0 <= p < order.len() && 0 <= k < nodes[#[trigger] order[p]].dynamic_imports.len()
            && names_chunk(nodes, #[trigger] nodes[order[p]].dynamic_imports[k]) ==> among(
            nodes,
            order,
            nodes[order[p]].dynamic_imports[k],
        )
}

/// Every entry among the first `count` chunks is one of these chunks.
pub open spec fn holds_entries(nodes: Seq<NodeModel>, order: Seq<int>, count: int) -> bool {
    forall|i: int|
        0 <= i < count && (#[trigger] nodes[i]).is_entry ==> among(nodes, order, nodes[i].filename)
}

/// A set of names that has the imports of every chunk that it has.
pub open spec fn is_closed(nodes: Seq<NodeModel>, names: Set<Seq<char>>) -> bool {
    forall|i: int, k: int|
        0 <= i < nodes.len() && names.contains((#[trigger] nodes[i]).filename) && 0 <= k
            < nodes[i].imports.len() && names_chunk(nodes, #[trigger] nodes[i].imports[k])
            ==> names.contains(nodes[i].imports[k])
}

/// A set of names that has the dynamic imports of every chunk that it has.
pub open spec fn is_closed_dynamically(nodes: Seq<NodeModel>, names: Set<Seq<char>>) -> bool {
    forall|i: int, k: int|
        0 <= i < nodes.len() && names.contains((#[trigger] nodes[i]).filename) && 0 <= k
            < nodes[i].dynamic_imports.len() && names_chunk(
            nodes,
            #[trigger] nodes[i].dynamic_imports[k],
        ) ==> names.contains(nodes[i].dynamic_imports[k])
}

pub open spec fn has_entries(nodes: Seq<NodeModel>, names: Set<Seq<char>>, count: int) -> bool {
    forall|i: int|
        0 <= i < count && (#[trigger] nodes[i]).is_entry ==> names.contains(nodes[i].filename)
}

pub open spec fn lie_within(nodes: Seq<NodeModel>, order: Seq<int>, names: Set<Seq<char>>) -> bool {
    forall|p: int|
        0 <= p < order.len() ==> names.contains(nodes[#[trigger] order[p]].filename)
}

/// These chunks are the entries among the first `count` chunks and what they import, directly or
/// not, and no others.
pub open spec fn is_reached_from(nodes: Seq<NodeModel>, order: Seq<int>, count: int) -> bool {
    &&& holds_entries(nodes, order, count)
    &&& follows_imports(nodes, order)
    &&& forall|names: Set<Seq<char>>|
        #![trigger is_closed(nodes, names)]
        is_closed(nodes, names) && has_entries(nodes, names, count) ==> lie_within(
            nodes,
            order,
            names,
        )
}

/// These chunks are all that can be reached from the entries, through imports and dynamic imports,
/// each once and no others. Those that the first entries reach through imports come first, then
/// those that the next entry reaches, and what only dynamic imports reach comes last.
pub open spec fn is_collection(nodes: Seq<NodeModel>, order: Seq<int>) -> bool {
    &&& are_places(nodes, order)
    &&& holds_entries(nodes, order, nodes.len() as int)
    &&& follows_imports(nodes, order)
    &&& follows_dynamic_imports(nodes, order)
    &&& forall|names: Set<Seq<char>>|
        #![trigger is_closed(nodes, names)]
        is_closed(nodes, names) && is_closed_dynamically(nodes, names) && has_entries(
            nodes,
            names,
            nodes.len() as int,
        ) ==> lie_within(nodes, order, names)
    &&& forall|count: int|
        0 <= count <= nodes.len() ==> #[trigger] starts_with_reached(nodes, order, count)
}

pub open spec fn starts_with_reached(nodes: Seq<NodeModel>, order: Seq<int>, count: int) -> bool {
    exists|m: int|
        0 <= m <= order.len() && is_reached_from(nodes, #[trigger] order.take(m), count)
}

/// Whether every import of a chunk ranks below the chunk, so that no chunk imports itself, directly
/// or not.
pub open spec fn is_ranked(nodes: Seq<NodeModel>, rank: spec_fn(Seq<char>) -> nat) -> bool {
    forall|i: int, k: int|
        0 <= i < nodes.len() && 0 <= k < (#[trigger] nodes[i]).imports.len() && names_chunk(
            nodes,
            #[trigger] nodes[i].imports[k],
        ) ==> rank(nodes[i].imports[k]) < rank(nodes[i].filename)
}

/// Every import of a chunk comes before the chunk.
pub open spec fn imports_come_first(nodes: Seq<NodeModel>, order: Seq<int>) -> bool {
    forall|p: int, k: int|
        0 <= p < order.len() && 0 <= k < nodes[#[trigger] order[p]].imports.len() && names_chunk(
            nodes,
            #[trigger] nodes[order[p]].imports[k],
        ) ==> among(nodes, order.take(p), nodes[order[p]].imports[k])
}

/// A state of the collection: the chunks that were left, in order, and those that were entered and
/// not left yet. `waiting` holds names that will still be visited.
spec fn explains(
    nodes: Seq<NodeModel>,
    order: Seq<int>,
    open: Set<Seq<char>>,
    waiting: Seq<Seq<char>>,
    state: CollectionModel,
    rank: spec_fn(Seq<char>) -> nat,
) -> bool {
    &&& are_places(nodes, order)
    &&& forall|name: Seq<char>| #[trigger]
        state.visited.contains(name) <==> among(nodes, order, name) || open.contains(name)
    &&& forall|name: Seq<char>| #[trigger] open.contains(name) ==> !among(nodes, order, name)
    &&& state.css == styles_of(nodes, order)
    &&& forall|p: int, k: int|
        0 <= p < order.len() && 0 <= k < nodes[#[trigger] order[p]].imports.len() && names_chunk(
            nodes,
            #[trigger] nodes[order[p]].imports[k],
        ) ==> state.visited.contains(nodes[order[p]].imports[k])
    &&& forall|p: int, k: int|
        0 <= p < order.len() && 0 <= k < nodes[#[trigger] order[p]].dynamic_imports.len()
            && names_chunk(nodes, #[trigger] nodes[order[p]].dynamic_imports[k])
            ==> state.visited.contains(nodes[order[p]].dynamic_imports[k])
            || state.pending.contains(nodes[order[p]].dynamic_imports[k]) || waiting.contains(
            nodes[order[p]].dynamic_imports[k],
        )
    &&& is_ranked(nodes, rank) ==> imports_come_first(nodes, order)
}

proof fn lemma_among_prefix(
    nodes: Seq<NodeModel>,
    order: Seq<int>,
    more: Seq<int>,
    name: Seq<char>,
)
    requires
        order.is_prefix_of(more),
        among(nodes, order, name),
    ensures
        among(nodes, more, name),
{
    let p = choose|p: int| 0 <= p < order.len() && nodes[#[trigger] order[p]].filename == name;
    assert(more[p] == order[p]);
}

proof fn lemma_among_push(nodes: Seq<NodeModel>, order: Seq<int>, at: int, name: Seq<char>)
    ensures
        among(nodes, order.push(at), name) == (among(nodes, order, name) || nodes[at].filename
            == name),
{
    let more = order.push(at);
    if among(nodes, order, name) {
        let p = choose|p: int| 0 <= p < order.len() && nodes[#[trigger] order[p]].filename == name;
        assert(more[p] == order[p]);
    }
    assert(more[order.len() as int] == at);
    if among(nodes, more, name) {
        let p = choose|p: int| 0 <= p < more.len() && nodes[#[trigger] more[p]].filename == name;
        if p < order.len() {
            assert(order[p] == more[p]);
        }
    }
}

/// Adding names keeps a list as it starts, adds exactly the names that it lacks, and none twice.
pub proof fn lemma_with_names(list: Seq<Seq<char>>, names: Seq<Seq<char>>)
    ensures
        list.is_prefix_of(with_names(list, names)),
        forall|name: Seq<char>| #[trigger]
            with_names(list, names).contains(name) <==> list.contains(name) || names.contains(name),
        list.no_duplicates() ==> with_names(list, names).no_duplicates(),
    decreases names.len(),
{
    let all = with_names(list, names);
    if names.len() == 0 {
        assert(all.subrange(0, list.len() as int) =~= list);
    } else {
        let before = with_names(list, names.drop_last());
        let last = names.last();
        lemma_with_names(list, names.drop_last());
        assert forall|i: int| 0 <= i < list.len() implies all[i] == list[i] by {
            assert(before[i] == list[i]);
        }
        assert(list.is_prefix_of(all)) by {
            assert(before.len() >= list.len());
            assert(all.subrange(0, list.len() as int) =~= list);
        }
        assert(names[names.len() - 1] == last);
        assert forall|name: Seq<char>| #[trigger] all.contains(name) <==> list.contains(name)
            || names.contains(name) by {
            if before.contains(name) {
                let i = choose|i: int| 0 <= i < before.len() && before[i] == name;
                assert(all[i] == name);
            }
            if all.contains(name) && name != last {
                let i = choose|i: int| 0 <= i < all.len() && all[i] == name;
                assert(before[i] == name);
            }
            if !before.contains(last) {
                assert(all[before.len() as int] == last);
            }
            if names.drop_last().contains(name) {
                let i = choose|i: int|
                    0 <= i < names.drop_last().len() && names.drop_last()[i] == name;
                assert(names[i] == name);
            }
            if names.contains(name) && name != last {
                let i = choose|i: int| 0 <= i < names.len() && names[i] == name;
                assert(names.drop_last()[i] == name);
            }
        }
    }
}

proof fn lemma_node_named_finds(nodes: Seq<NodeModel>, name: Seq<char>)
    ensures
        node_named(nodes, name) is Some <==> names_chunk(nodes, name),
    decreases nodes.len(),
{
    lemma_node_named(nodes, name);
    if let Some(at) = node_named(nodes, name) {
        assert(nodes[at].filename == name);
    }
    if nodes.len() > 0 {
        lemma_node_named_finds(nodes.drop_last(), name);
        if names_chunk(nodes, name) && nodes.last().filename != name {
            let i = choose|i: int| 0 <= i < nodes.len() && (#[trigger] nodes[i]).filename == name;
            assert(nodes.drop_last()[i].filename == name);
        }
    }
}

/// Of several chunks with a file name, the last one is found.
pub proof fn lemma_last_of_a_name_is_found(nodes: Seq<NodeModel>, name: Seq<char>)
    ensures
        node_named(nodes, name) is Some <==> names_chunk(nodes, name),
        node_named(nodes, name) matches Some(at) ==> 0 <= at < nodes.len() && nodes[at].filename
            == name && forall|i: int|
            at < i < nodes.len() ==> (#[trigger] nodes[i]).filename != name,
    decreases nodes.len(),
{
    lemma_node_named_finds(nodes, name);
    lemma_node_named(nodes, name);
    if nodes.len() > 0 && nodes.last().filename != name {
        lemma_last_of_a_name_is_found(nodes.drop_last(), name);
        if let Some(at) = node_named(nodes, name) {
            assert forall|i: int| at < i < nodes.len() implies (#[trigger] nodes[i]).filename
                != name by {
                if i < nodes.len() - 1 {
                    assert(nodes.drop_last()[i].filename != name);
                }
            }
        }
    }
}

/// Entering a chunk that was not visited.
proof fn lemma_entered_explained(
    nodes: Seq<NodeModel>,
    at: int,
    state: CollectionModel,
    order: Seq<int>,
    open: Set<Seq<char>>,
    waiting: Seq<Seq<char>>,
    rank: spec_fn(Seq<char>) -> nat,
)
    requires
        0 <= at < nodes.len(),
        !state.visited.contains(nodes[at].filename),
        explains(nodes, order, open, waiting, state, rank),
    ensures
        explains(
            nodes,
            order,
            open.insert(nodes[at].filename),
            waiting,
            entered(state, nodes[at]),
            rank,
        ),
{
    let name = nodes[at].filename;
    let inside = entered(state, nodes[at]);
    let inner = open.insert(name);
    lemma_push_holds_all(state.visited, name);
    assert forall|other: Seq<char>| #[trigger] inside.visited.contains(other) <==> among(
        nodes,
        order,
        other,
    ) || inner.contains(other) by {
        assert(inside.visited[state.visited.len() as int] == name);
        if inside.visited.contains(other) && other != name {
            let i = choose|i: int| 0 <= i < inside.visited.len() && inside.visited[i] == other;
            assert(state.visited[i] == other);
        }
        if among(nodes, order, other) || open.contains(other) {
            assert(state.visited.contains(other));
        }
    }
    assert forall|other: Seq<char>| #[trigger] inner.contains(other) implies !among(
        nodes,
        order,
        other,
    ) by {
        if other == name && among(nodes, order, other) {
            assert(state.visited.contains(name));
        }
    }
}

/// Leaving a chunk whose imports were visited.
#[verifier::spinoff_prover]
#[verifier::rlimit(40)]
proof fn lemma_left_explained(
    nodes: Seq<NodeModel>,
    at: int,
    state: CollectionModel,
    order: Seq<int>,
    open: Set<Seq<char>>,
    waiting: Seq<Seq<char>>,
    rank: spec_fn(Seq<char>) -> nat,
)
    requires
        0 <= at < nodes.len(),
        !open.contains(nodes[at].filename),
        explains(nodes, order, open.insert(nodes[at].filename), waiting, state, rank),
        forall|k: int|
            0 <= k < nodes[at].imports.len() && names_chunk(nodes, #[trigger] nodes[at].imports[k])
                ==> state.visited.contains(nodes[at].imports[k]),
        is_ranked(nodes, rank) ==> forall|name: Seq<char>| #[trigger]
            open.contains(name) ==> rank(nodes[at].filename) < rank(name),
    ensures
        explains(nodes, order.push(at), open, waiting, left(state, nodes[at]), rank),
{
    let name = nodes[at].filename;
    let inner = open.insert(name);
    let more = order.push(at);
    let after = left(state, nodes[at]);
    assert(inner.contains(name));
    assert(!among(nodes, order, name));
    lemma_with_names(state.pending, nodes[at].dynamic_imports);
    assert(are_places(nodes, more)) by {
        assert forall|p: int, q: int|
            0 <= p < more.len() && 0 <= q < more.len() && p != q implies nodes[
            #[trigger] more[p]].filename != nodes[#[trigger] more[q]].filename by {
            if p < order.len() {
                assert(order[p] == more[p]);
            }
            if q < order.len() {
                assert(order[q] == more[q]);
            }
        }
        assert forall|p: int| 0 <= p < more.len() implies 0 <= #[trigger] more[p]
            < nodes.len() by {
            if p < order.len() {
                assert(order[p] == more[p]);
            }
        }
    }
    assert forall|other: Seq<char>| #[trigger] after.visited.contains(other) <==> among(
        nodes,
        more,
        other,
    ) || open.contains(other) by {
        lemma_among_push(nodes, order, at, other);
        assert(state.visited.contains(other) <==> among(nodes, order, other) || inner.contains(
            other,
        ));
    }
    assert forall|other: Seq<char>| #[trigger] open.contains(other) implies !among(
        nodes,
        more,
        other,
    ) by {
        lemma_among_push(nodes, order, at, other);
        assert(inner.contains(other));
    }
    assert(more.drop_last() =~= order);
    assert(more.last() == at);
    assert forall|p: int, k: int|
        0 <= p < more.len() && 0 <= k < nodes[#[trigger] more[p]].imports.len() && names_chunk(
            nodes,
            #[trigger] nodes[more[p]].imports[k],
        ) implies after.visited.contains(nodes[more[p]].imports[k]) by {
        if p < order.len() {
            assert(order[p] == more[p]);
            assert(names_chunk(nodes, nodes[order[p]].imports[k]));
        } else {
            assert(names_chunk(nodes, nodes[at].imports[k]));
        }
    }
    assert forall|p: int, k: int|
        0 <= p < more.len() && 0 <= k < nodes[#[trigger] more[p]].dynamic_imports.len()
            && names_chunk(
            nodes,
            #[trigger] nodes[more[p]].dynamic_imports[k],
        ) implies after.visited.contains(nodes[more[p]].dynamic_imports[k])
        || after.pending.contains(nodes[more[p]].dynamic_imports[k]) || waiting.contains(
        nodes[more[p]].dynamic_imports[k],
    ) by {
        let dynamic = nodes[more[p]].dynamic_imports[k];
        if p < order.len() {
            assert(order[p] == more[p]);
            assert(names_chunk(nodes, nodes[order[p]].dynamic_imports[k]));
            if state.pending.contains(dynamic) {
                assert(after.pending.contains(dynamic));
            }
        } else {
            assert(nodes[at].dynamic_imports.contains(dynamic));
            assert(after.pending.contains(dynamic));
        }
    }
    if is_ranked(nodes, rank) {
        assert forall|p: int, k: int|
            0 <= p < more.len() && 0 <= k < nodes[#[trigger] more[p]].imports.len() && names_chunk(
                nodes,
                #[trigger] nodes[more[p]].imports[k],
            ) implies among(nodes, more.take(p), nodes[more[p]].imports[k]) by {
            if p < order.len() {
                assert(order[p] == more[p]);
                assert(names_chunk(nodes, nodes[order[p]].imports[k]));
                assert(more.take(p) =~= order.take(p));
            } else {
                let import = nodes[at].imports[k];
                assert(names_chunk(nodes, nodes[at].imports[k]));
                assert(rank(nodes[at].imports[k]) < rank(nodes[at].filename));
                assert(state.visited.contains(import));
                assert(!inner.contains(import));
                assert(more.take(p) =~= order);
            }
        }
    }
}

/// A visit leaves a chunk visited, and adds to the order what it visits.
proof fn lemma_visit_explained(
    nodes: Seq<NodeModel>,
    at: int,
    state: CollectionModel,
    depth: nat,
    order: Seq<int>,
    open: Set<Seq<char>>,
    waiting: Seq<Seq<char>>,
    rank: spec_fn(Seq<char>) -> nat,
) -> (more: Seq<int>)
    requires
        0 <= at < nodes.len(),
        unvisited(nodes, state.visited) <= depth,
        explains(nodes, order, open, waiting, state, rank),
        is_ranked(nodes, rank) ==> forall|name: Seq<char>| #[trigger]
            open.contains(name) ==> rank(nodes[at].filename) < rank(name),
    ensures
        order.is_prefix_of(more),
        explains(nodes, more, open, waiting, visited_to_depth(nodes, at, state, depth), rank),
        visited_to_depth(nodes, at, state, depth).visited.contains(nodes[at].filename),
    decreases depth, 0nat,
{
    let name = nodes[at].filename;
    if state.visited.contains(name) {
        assert(order.subrange(0, order.len() as int) =~= order);
        order
    } else {
        lemma_unvisited_push(nodes, state.visited, at);
        lemma_entered_explained(nodes, at, state, order, open, waiting, rank);
        let inside = entered(state, nodes[at]);
        let inner = open.insert(name);
        if is_ranked(nodes, rank) {
            assert forall|k: int, other: Seq<char>|
                0 <= k < nodes[at].imports.len() && names_chunk(
                    nodes,
                    #[trigger] nodes[at].imports[k],
                ) && #[trigger] inner.contains(other) implies rank(nodes[at].imports[k]) < rank(
                other,
            ) by {
                assert(rank(nodes[at].imports[k]) < rank(nodes[at].filename));
                if other != name {
                    assert(open.contains(other));
                }
            }
        }
        let mid = lemma_named_explained(
            nodes,
            nodes[at].imports,
            inside,
            (depth - 1) as nat,
            order,
            inner,
            waiting,
            rank,
        );
        let before = named_to_depth(nodes, nodes[at].imports, inside, (depth - 1) as nat);
        if open.contains(name) {
            assert(state.visited.contains(name));
        }
        lemma_left_explained(nodes, at, before, mid, open, waiting, rank);
        let more = mid.push(at);
        assert(more.subrange(0, order.len() as int) =~= order) by {
            assert(mid.subrange(0, order.len() as int) =~= order);
        }
        assert(inner.contains(name));
        assert(before.visited.contains(name));
        more
    }
}

proof fn lemma_named_explained(
    nodes: Seq<NodeModel>,
    names: Seq<Seq<char>>,
    state: CollectionModel,
    depth: nat,
    order: Seq<int>,
    open: Set<Seq<char>>,
    waiting: Seq<Seq<char>>,
    rank: spec_fn(Seq<char>) -> nat,
) -> (more: Seq<int>)
    requires
        unvisited(nodes, state.visited) <= depth,
        explains(nodes, order, open, waiting, state, rank),
        is_ranked(nodes, rank) ==> forall|k: int, name: Seq<char>|
            0 <= k < names.len() && names_chunk(nodes, #[trigger] names[k])
                && #[trigger] open.contains(name) ==> rank(names[k]) < rank(name),
    ensures
        order.is_prefix_of(more),
        explains(nodes, more, open, waiting, named_to_depth(nodes, names, state, depth), rank),
        forall|k: int|
            0 <= k < names.len() && names_chunk(nodes, #[trigger] names[k]) ==> named_to_depth(
                nodes,
                names,
                state,
                depth,
            ).visited.contains(names[k]),
    decreases depth, names.len() + 1,
{
    if names.len() == 0 {
        assert(order.subrange(0, order.len() as int) =~= order);
        order
    } else {
        let front = names.drop_last();
        assert(forall|k: int| 0 <= k < front.len() ==> #[trigger] front[k] == names[k]);
        let mid = lemma_named_explained(nodes, front, state, depth, order, open, waiting, rank);
        let before = named_to_depth(nodes, front, state, depth);
        lemma_named_progress(nodes, front, state, depth);
        lemma_unvisited_shrinks(nodes, state.visited, before.visited);
        lemma_node_named(nodes, names.last());
        lemma_node_named_finds(nodes, names.last());
        assert(names[names.len() - 1] == names.last());
        let after = named_to_depth(nodes, names, state, depth);
        match node_named(nodes, names.last()) {
            Some(at) => {
                assert(nodes[at].filename == names[names.len() - 1]);
                let more = lemma_visit_explained(
                    nodes,
                    at,
                    before,
                    depth,
                    mid,
                    open,
                    waiting,
                    rank,
                );
                lemma_visit_progress(nodes, at, before, depth);
                assert(more.subrange(0, order.len() as int) =~= order) by {
                    assert(mid.subrange(0, order.len() as int) =~= order);
                    assert(more.subrange(0, mid.len() as int) =~= mid);
                    assert forall|i: int| 0 <= i < order.len() implies more[i] == order[i] by {
                        assert(more.subrange(0, mid.len() as int)[i] == mid[i]);
                        assert(mid.subrange(0, order.len() as int)[i] == order[i]);
                    }
                }
                assert forall|k: int|
                    0 <= k < names.len() && names_chunk(
                        nodes,
                        #[trigger] names[k],
                    ) implies after.visited.contains(names[k]) by {
                    if k < front.len() {
                        assert(front[k] == names[k]);
                        assert(before.visited.contains(names[k]));
                    }
                }
                more
            },
            None => {
                assert forall|k: int|
                    0 <= k < names.len() && names_chunk(
                        nodes,
                        #[trigger] names[k],
                    ) implies after.visited.contains(names[k]) by {
                    if k < front.len() {
                        assert(front[k] == names[k]);
                    }
                }
                mid
            },
        }
    }
}

spec fn all_in(list: Seq<Seq<char>>, names: Set<Seq<char>>) -> bool {
    forall|name: Seq<char>| #[trigger] list.contains(name) ==> names.contains(name)
}

/// A visit goes nowhere but where imports lead, and dynamic imports wait in `later`.
proof fn lemma_visit_stays_within(
    nodes: Seq<NodeModel>,
    at: int,
    state: CollectionModel,
    depth: nat,
    names: Set<Seq<char>>,
    later: Set<Seq<char>>,
)
    requires
        0 <= at < nodes.len(),
        names.contains(nodes[at].filename),
        is_closed(nodes, names),
        forall|i: int, k: int|
            0 <= i < nodes.len() && names.contains((#[trigger] nodes[i]).filename) && 0 <= k
                < nodes[i].dynamic_imports.len() ==> later.contains(
                #[trigger] nodes[i].dynamic_imports[k],
            ),
        all_in(state.visited, names),
        all_in(state.pending, later),
    ensures
        all_in(visited_to_depth(nodes, at, state, depth).visited, names),
        all_in(visited_to_depth(nodes, at, state, depth).pending, later),
    decreases depth, 0nat,
{
    if !state.visited.contains(nodes[at].filename) && depth > 0 {
        let inside = entered(state, nodes[at]);
        assert forall|name: Seq<char>| #[trigger]
            inside.visited.contains(name) implies names.contains(name) by {
            let i = choose|i: int| 0 <= i < inside.visited.len() && inside.visited[i] == name;
            if i < state.visited.len() {
                assert(state.visited[i] == name);
                assert(state.visited.contains(name));
            }
        }
        assert forall|k: int|
            0 <= k < nodes[at].imports.len() && names_chunk(
                nodes,
                #[trigger] nodes[at].imports[k],
            ) implies names.contains(nodes[at].imports[k]) by {}
        lemma_named_stays_within(
            nodes,
            nodes[at].imports,
            inside,
            (depth - 1) as nat,
            names,
            later,
        );
        let before = named_to_depth(nodes, nodes[at].imports, inside, (depth - 1) as nat);
        lemma_with_names(before.pending, nodes[at].dynamic_imports);
        let after = left(before, nodes[at]);
        assert forall|name: Seq<char>| #[trigger]
            after.pending.contains(name) implies later.contains(name) by {
            if nodes[at].dynamic_imports.contains(name) {
                let k = choose|k: int|
                    0 <= k < nodes[at].dynamic_imports.len() && nodes[at].dynamic_imports[k]
                        == name;
                assert(later.contains(nodes[at].dynamic_imports[k]));
            } else {
                assert(before.pending.contains(name));
            }
        }
    }
}

proof fn lemma_named_stays_within(
    nodes: Seq<NodeModel>,
    list: Seq<Seq<char>>,
    state: CollectionModel,
    depth: nat,
    names: Set<Seq<char>>,
    later: Set<Seq<char>>,
)
    requires
        forall|k: int|
            0 <= k < list.len() && names_chunk(nodes, #[trigger] list[k]) ==> names.contains(
                list[k],
            ),
        is_closed(nodes, names),
        forall|i: int, k: int|
            0 <= i < nodes.len() && names.contains((#[trigger] nodes[i]).filename) && 0 <= k
                < nodes[i].dynamic_imports.len() ==> later.contains(
                #[trigger] nodes[i].dynamic_imports[k],
            ),
        all_in(state.visited, names),
        all_in(state.pending, later),
    ensures
        all_in(named_to_depth(nodes, list, state, depth).visited, names),
        all_in(named_to_depth(nodes, list, state, depth).pending, later),
    decreases depth, list.len() + 1,
{
    if list.len() > 0 {
        let front = list.drop_last();
        assert(forall|k: int| 0 <= k < front.len() ==> #[trigger] front[k] == list[k]);
        lemma_named_stays_within(nodes, front, state, depth, names, later);
        lemma_node_named(nodes, list.last());
        lemma_node_named_finds(nodes, list.last());
        assert(list[list.len() - 1] == list.last());
        match node_named(nodes, list.last()) {
            Some(at) => {
                lemma_visit_stays_within(
                    nodes,
                    at,
                    named_to_depth(nodes, front, state, depth),
                    depth,
                    names,
                    later,
                );
            },
            None => {},
        }
    }
}

proof fn lemma_entries_stay_within(nodes: Seq<NodeModel>, count: nat, names: Set<Seq<char>>, later: Set<Seq<char>>)
    requires
        count <= nodes.len(),
        is_closed(nodes, names),
        has_entries(nodes, names, count as int),
        forall|i: int, k: int|
            0 <= i < nodes.len() && names.contains((#[trigger] nodes[i]).filename) && 0 <= k
                < nodes[i].dynamic_imports.len() ==> later.contains(
                #[trigger] nodes[i].dynamic_imports[k],
            ),
    ensures
        all_in(visit_entries(nodes, count).visited, names),
        all_in(visit_entries(nodes, count).pending, later),
    decreases count,
{
    if count > 0 {
        lemma_entries_stay_within(nodes, (count - 1) as nat, names, later);
        let entry = nodes[count - 1];
        if entry.is_entry {
            lemma_visit_stays_within(
                nodes,
                count - 1,
                visit_entries(nodes, (count - 1) as nat),
                nodes.len(),
                names,
                later,
            );
        }
    }
}

proof fn lemma_rounds_stay_within(
    nodes: Seq<NodeModel>,
    state: CollectionModel,
    limit: nat,
    names: Set<Seq<char>>,
)
    requires
        is_closed(nodes, names),
        is_closed_dynamically(nodes, names),
        all_in(state.visited, names),
        all_in(state.pending, allowed_later(nodes, names)),
    ensures
        all_in(rounds(nodes, state, limit).visited, names),
    decreases limit,
{
    if state.pending.len() > 0 && limit > 0 {
        let later = allowed_later(nodes, names);
        let cleared = CollectionModel { pending: Seq::empty(), ..state };
        assert forall|k: int|
            0 <= k < state.pending.len() && names_chunk(
                nodes,
                #[trigger] state.pending[k],
            ) implies names.contains(state.pending[k]) by {
            assert(state.pending.contains(state.pending[k]));
            assert(allowed_later(nodes, names).contains(state.pending[k]));
        }
        assert forall|i: int, k: int|
            0 <= i < nodes.len() && names.contains((#[trigger] nodes[i]).filename) && 0 <= k
                < nodes[i].dynamic_imports.len() implies later.contains(
            #[trigger] nodes[i].dynamic_imports[k],
        ) by {}
        lemma_named_stays_within(nodes, state.pending, cleared, nodes.len(), names, later);
        lemma_rounds_stay_within(nodes, next_round(nodes, state), (limit - 1) as nat, names);
    }
}

/// The names that may wait where only chunks with these names may be visited.
spec fn allowed_later(nodes: Seq<NodeModel>, names: Set<Seq<char>>) -> Set<Seq<char>> {
    Set::new(|name: Seq<char>| names_chunk(nodes, name) ==> names.contains(name))
}

/// A state with nothing entered: what was left is what was visited.
proof fn lemma_reached_from(
    nodes: Seq<NodeModel>,
    count: nat,
    order: Seq<int>,
    rank: spec_fn(Seq<char>) -> nat,
)
    requires
        count <= nodes.len(),
        explains(nodes, order, Set::empty(), Seq::empty(), visit_entries(nodes, count), rank),
        holds_entries(nodes, order, count as int),
    ensures
        is_reached_from(nodes, order, count as int),
{
    let state = visit_entries(nodes, count);
    assert(follows_imports(nodes, order)) by {
        assert forall|p: int, k: int|
            0 <= p < order.len() && 0 <= k < nodes[#[trigger] order[p]].imports.len()
                && names_chunk(nodes, #[trigger] nodes[order[p]].imports[k]) implies among(
            nodes,
            order,
            nodes[order[p]].imports[k],
        ) by {
            assert(state.visited.contains(nodes[order[p]].imports[k]));
        }
    }
    assert forall|names: Set<Seq<char>>|
        #![trigger is_closed(nodes, names)]
        is_closed(nodes, names) && has_entries(nodes, names, count as int) implies lie_within(
        nodes,
        order,
        names,
    ) by {
        lemma_entries_stay_within(nodes, count, names, Set::full());
        assert forall|p: int| 0 <= p < order.len() implies names.contains(
            nodes[#[trigger] order[p]].filename,
        ) by {
            assert(among(nodes, order, nodes[order[p]].filename));
            assert(state.visited.contains(nodes[order[p]].filename));
        }
    }
}

proof fn lemma_entries_explained(
    nodes: Seq<NodeModel>,
    count: nat,
    rank: spec_fn(Seq<char>) -> nat,
) -> (order: Seq<int>)
    requires
        count <= nodes.len(),
    ensures
        explains(nodes, order, Set::empty(), Seq::empty(), visit_entries(nodes, count), rank),
        holds_entries(nodes, order, count as int),
        forall|c: int| 0 <= c <= count ==> #[trigger] starts_with_reached(nodes, order, c),
    decreases count,
{
    if count == 0 {
        let order = Seq::<int>::empty();
        let state = visit_entries(nodes, 0);
        assert forall|name: Seq<char>| #[trigger] state.visited.contains(name) <==> among(
            nodes,
            order,
            name,
        ) || Set::<Seq<char>>::empty().contains(name) by {}
        lemma_reached_from(nodes, 0, order, rank);
        assert(order.take(0) =~= order);
        assert(starts_with_reached(nodes, order, 0));
        order
    } else {
        let before = visit_entries(nodes, (count - 1) as nat);
        let order = lemma_entries_explained(nodes, (count - 1) as nat, rank);
        let entry = nodes[count - 1];
        let more = if entry.is_entry {
            lemma_unvisited_shrinks(nodes, before.visited, before.visited);
            lemma_visit_explained(
                nodes,
                count - 1,
                before,
                nodes.len(),
                order,
                Set::empty(),
                Seq::empty(),
                rank,
            )
        } else {
            order
        };
        assert(order.is_prefix_of(more)) by {
            assert(order.subrange(0, order.len() as int) =~= order);
        }
        let state = visit_entries(nodes, count);
        assert(holds_entries(nodes, more, count as int)) by {
            assert forall|i: int| 0 <= i < count && (#[trigger] nodes[i]).is_entry implies among(
                nodes,
                more,
                nodes[i].filename,
            ) by {
                if i < count - 1 {
                    lemma_among_prefix(nodes, order, more, nodes[i].filename);
                } else {
                    assert(state.visited.contains(nodes[i].filename));
                }
            }
        }
        lemma_reached_from(nodes, count, more, rank);
        assert forall|c: int| 0 <= c <= count implies #[trigger] starts_with_reached(
            nodes,
            more,
            c,
        ) by {
            if c < count {
                assert(starts_with_reached(nodes, order, c));
                let m = choose|m: int|
                    0 <= m <= order.len() && is_reached_from(nodes, #[trigger] order.take(m), c);
                assert(more.take(m) =~= order.take(m)) by {
                    assert forall|i: int| 0 <= i < m implies more[i] == order[i] by {
                        assert(more.subrange(0, order.len() as int)[i] == order[i]);
                    }
                }
            } else {
                assert(more.take(more.len() as int) =~= more);
            }
        }
        more
    }
}

proof fn lemma_rounds_explained(
    nodes: Seq<NodeModel>,
    state: CollectionModel,
    limit: nat,
    order: Seq<int>,
    rank: spec_fn(Seq<char>) -> nat,
) -> (more: Seq<int>)
    requires
        explains(nodes, order, Set::empty(), Seq::empty(), state, rank),
    ensures
        order.is_prefix_of(more),
        explains(nodes, more, Set::empty(), Seq::empty(), rounds(nodes, state, limit), rank),
    decreases limit,
{
    assert(order.subrange(0, order.len() as int) =~= order);
    if state.pending.len() == 0 || limit == 0 {
        order
    } else {
        let cleared = CollectionModel { pending: Seq::empty(), ..state };
        let none = Seq::<Seq<char>>::empty();
        assert(explains(nodes, order, Set::empty(), state.pending, cleared, rank));
        lemma_unvisited_shrinks(nodes, cleared.visited, cleared.visited);
        let mid = lemma_named_explained(
            nodes,
            state.pending,
            cleared,
            nodes.len(),
            order,
            Set::empty(),
            state.pending,
            rank,
        );
        let next = next_round(nodes, state);
        assert(explains(nodes, mid, Set::empty(), none, next, rank)) by {
            assert forall|p: int, k: int|
                0 <= p < mid.len() && 0 <= k < nodes[#[trigger] mid[p]].dynamic_imports.len()
                    && names_chunk(
                    nodes,
                    #[trigger] nodes[mid[p]].dynamic_imports[k],
                ) implies next.visited.contains(nodes[mid[p]].dynamic_imports[k])
                || next.pending.contains(nodes[mid[p]].dynamic_imports[k]) || none.contains(
                nodes[mid[p]].dynamic_imports[k],
            ) by {
                let dynamic = nodes[mid[p]].dynamic_imports[k];
                if state.pending.contains(dynamic) {
                    let j = choose|j: int|
                        0 <= j < state.pending.len() && state.pending[j] == dynamic;
                    assert(names_chunk(nodes, state.pending[j]));
                }
            }
        }
        let more = lemma_rounds_explained(nodes, next, (limit - 1) as nat, mid, rank);
        assert(more.subrange(0, order.len() as int) =~= order) by {
            assert forall|i: int| 0 <= i < order.len() implies more[i] == order[i] by {
                assert(more.subrange(0, mid.len() as int)[i] == mid[i]);
                assert(mid.subrange(0, order.len() as int)[i] == order[i]);
            }
        }
        more
    }
}

/// The collection holds the styles of every entry and of every chunk that a chunk in it imports,
/// statically or dynamically, and of no others, each once: what the first entries reach comes first,
/// what only dynamic imports reach comes last, and where no chunk imports itself, the styles of a
/// chunk come behind those of all its imports.
pub proof fn lemma_collection(nodes: Seq<NodeModel>, rank: spec_fn(Seq<char>) -> nat) -> (order: Seq<
    int,
>)
    ensures
        is_collection(nodes, order),
        collected(nodes).css == styles_of(nodes, order),
        forall|name: Seq<char>| #[trigger]
            collected(nodes).visited.contains(name) <==> among(nodes, order, name),
        is_ranked(nodes, rank) ==> imports_come_first(nodes, order),
{
    let start = visit_entries(nodes, nodes.len());
    let first = lemma_entries_explained(nodes, nodes.len(), rank);
    let order = lemma_rounds_explained(nodes, start, nodes.len() + 1, first, rank);
    let state = collected(nodes);
    lemma_nothing_waits(nodes);
    assert(holds_entries(nodes, order, nodes.len() as int)) by {
        assert forall|i: int| 0 <= i < nodes.len() && (#[trigger] nodes[i]).is_entry implies among(
            nodes,
            order,
            nodes[i].filename,
        ) by {
            lemma_among_prefix(nodes, first, order, nodes[i].filename);
        }
    }
    assert(follows_imports(nodes, order)) by {
        assert forall|p: int, k: int|
            0 <= p < order.len() && 0 <= k < nodes[#[trigger] order[p]].imports.len()
                && names_chunk(nodes, #[trigger] nodes[order[p]].imports[k]) implies among(
            nodes,
            order,
            nodes[order[p]].imports[k],
        ) by {
            assert(state.visited.contains(nodes[order[p]].imports[k]));
        }
    }
    assert(follows_dynamic_imports(nodes, order)) by {
        assert forall|p: int, k: int|
            0 <= p < order.len() && 0 <= k < nodes[#[trigger] order[p]].dynamic_imports.len()
                && names_chunk(
                nodes,
                #[trigger] nodes[order[p]].dynamic_imports[k],
            ) implies among(nodes, order, nodes[order[p]].dynamic_imports[k]) by {
            assert(state.visited.contains(nodes[order[p]].dynamic_imports[k]));
        }
    }
    assert forall|names: Set<Seq<char>>|
        #![trigger is_closed(nodes, names)]
        is_closed(nodes, names) && is_closed_dynamically(nodes, names) && has_entries(
            nodes,
            names,
            nodes.len() as int,
        ) implies lie_within(nodes, order, names) by {
        let later = allowed_later(nodes, names);
        assert forall|i: int, k: int|
            0 <= i < nodes.len() && names.contains((#[trigger] nodes[i]).filename) && 0 <= k
                < nodes[i].dynamic_imports.len() implies later.contains(
            #[trigger] nodes[i].dynamic_imports[k],
        ) by {}
        lemma_entries_stay_within(nodes, nodes.len(), names, later);
        lemma_rounds_stay_within(nodes, start, nodes.len() + 1, names);
        assert forall|p: int| 0 <= p < order.len() implies names.contains(
            nodes[#[trigger] order[p]].filename,
        ) by {
            assert(among(nodes, order, nodes[order[p]].filename));
            assert(state.visited.contains(nodes[order[p]].filename));
        }
    }
    assert forall|count: int| 0 <= count <= nodes.len() implies #[trigger] starts_with_reached(
        nodes,
        order,
        count,
    ) by {
        assert(starts_with_reached(nodes, first, count));
        let m = choose|m: int|
            0 <= m <= first.len() && is_reached_from(nodes, #[trigger] first.take(m), count);
        assert(order.take(m) =~= first.take(m)) by {
            assert forall|i: int| 0 <= i < m implies order[i] == first[i] by {
                assert(order.subrange(0, first.len() as int)[i] == first[i]);
            }
        }
    }
    order
}

/// Visits of one list of names and then of another are a visit of both lists in a row.
pub proof fn lemma_names_are_visited_in_turn(
    nodes: Seq<NodeModel>,
    left: Seq<Seq<char>>,
    right: Seq<Seq<char>>,
    state: CollectionModel,
)
    ensures
        visit_named(nodes, left + right, state) == visit_named(
            nodes,
            right,
            visit_named(nodes, left, state),
        ),
    decreases right.len(),
{
    if right.len() == 0 {
        assert(left + right =~= left);
    } else {
        lemma_names_are_visited_in_turn(nodes, left, right.drop_last(), state);
        assert((left + right).drop_last() =~= left + right.drop_last());
        assert((left + right).last() == right.last());
    }
}

// ---------------------------------------------------------------------------------------------
// The collection

fn find_node(nodes: &Vec<CssChunkNode>, name: &str) -> (r: Option<usize>)
    ensures
        match r {
            Some(at) => at < nodes@.len() && node_named(node_models(nodes@), name@) == Some(
                at as int,
            ),
            None => node_named(node_models(nodes@), name@) is None,
        },
{
    let mut left: usize = nodes.len();
    let ghost models = node_models(nodes@);
    assert(models.take(models.len() as int) =~= models);
    while left > 0
        invariant
            left <= nodes@.len(),
            models == node_models(nodes@),
            node_named(models, name@) == node_named(models.take(left as int), name@),
        decreases left,
    {
        proof {
            let front = models.take(left as int);
            assert(front.last() == nodes@[left - 1]@);
            assert(front.drop_last() =~= models.take(left - 1));
        }
        if same_text(nodes[left - 1].filename.as_str(), name) {
            return Some(left - 1);
        }
        left = left - 1;
    }
    None
}

/// Adds the names that a list lacks.
pub fn add_names(list: &mut Vec<String>, names: &Vec<String>)
    ensures
        text::texts(final(list)@) == with_names(text::texts(old(list)@), text::texts(names@)),
        text::texts(old(list)@).is_prefix_of(text::texts(final(list)@)),
        forall|name: Seq<char>| #[trigger]
            text::texts(final(list)@).contains(name) <==> text::texts(old(list)@).contains(name)
                || text::texts(names@).contains(name),
{
    proof {
        lemma_with_names(text::texts(list@), text::texts(names@));
    }
    let ghost all = text::texts(names@);
    let mut i: usize = 0;
    assert(all.take(0) =~= Seq::empty());
    while i < names.len()
        invariant
            i <= names@.len(),
            all == text::texts(names@),
            text::texts(list@) == with_names(text::texts(old(list)@), all.take(i as int)),
        decreases names@.len() - i,
    {
        proof {
            assert(all.take(i + 1).drop_last() =~= all.take(i as int));
            assert(all.take(i + 1).last() == names@[i as int]@);
        }
        if !contains_name(list, names[i].as_str()) {
            let ghost before = list@;
            list.push(names[i].clone());
            assert(text::texts(list@) =~= text::texts(before).push(names@[i as int]@));
        }
        i = i + 1;
    }
    assert(all.take(i as int) =~= all);
}

fn visit_chunk(nodes: &Vec<CssChunkNode>, at: usize, state: &mut CssCollection, depth: usize)
    requires
        at < nodes@.len(),
    ensures
        final(state)@ == visited_to_depth(
            node_models(nodes@),
            at as int,
            old(state)@,
            depth as nat,
        ),
    decreases depth,
{
    let ghost models = node_models(nodes@);
    let ghost node = nodes@[at as int]@;
    assert(models[at as int] == node);
    if contains_name(&state.visited, nodes[at].filename.as_str()) || depth == 0 {
        return;
    }
    let ghost before = state.visited@;
    state.visited.push(nodes[at].filename.clone());
    assert(text::texts(state.visited@) =~= text::texts(before).push(node.filename));
    let ghost inside = entered(old(state)@, node);
    assert(state@ == inside);
    let mut i: usize = 0;
    let ghost names = node.imports;
    assert(names.take(0) =~= Seq::empty());
    while i < nodes[at].imports.len()
        invariant
            at < nodes@.len(),
            models == node_models(nodes@),
            names == text::texts(nodes@[at as int].imports@),
            i <= nodes@[at as int].imports@.len(),
            0 < depth,
            state@ == named_to_depth(models, names.take(i as int), inside, (depth - 1) as nat),
        decreases nodes@[at as int].imports@.len() - i,
    {
        proof {
            assert(names.take(i + 1).drop_last() =~= names.take(i as int));
            assert(names.take(i + 1).last() == nodes@[at as int].imports@[i as int]@);
        }
        match find_node(nodes, nodes[at].imports[i].as_str()) {
            Some(next) => {
                visit_chunk(nodes, next, state, depth - 1);
            },
            None => {},
        }
        i = i + 1;
    }
    assert(names.take(i as int) =~= names);
    let ghost after = state@;
    add_names(&mut state.pending, &nodes[at].dynamic_imports);
    match &nodes[at].css {
        Some(css) => {
            state.css.push_str(css.as_str());
        },
        None => {},
    }
    assert(state@ =~= left(after, node));
}

fn visit_names(
    nodes: &Vec<CssChunkNode>,
    names: &Vec<String>,
    state: &mut CssCollection,
)
    ensures
        final(state)@ == visit_named(node_models(nodes@), text::texts(names@), old(state)@),
{
    let ghost models = node_models(nodes@);
    let ghost all = text::texts(names@);
    let mut i: usize = 0;
    assert(all.take(0) =~= Seq::empty());
    while i < names.len()
        invariant
            i <= names@.len(),
            models == node_models(nodes@),
            all == text::texts(names@),
            state@ == visit_named(models, all.take(i as int), old(state)@),
        decreases names@.len() - i,
    {
        proof {
            assert(all.take(i + 1).drop_last() =~= all.take(i as int));
            assert(all.take(i + 1).last() == names@[i as int]@);
            assert(models.len() == nodes@.len());
        }
        match find_node(nodes, names[i].as_str()) {
            Some(at) => {
                visit_chunk(nodes, at, state, nodes.len());
            },
            None => {},
        }
        i = i + 1;
    }
    assert(all.take(i as int) =~= all);
}

/// Collects the styles of every chunk that can be reached: from the entries through imports
/// first, then round by round through the dynamic imports, whose styles come last.
pub fn collect_css_bundle(nodes: &Vec<CssChunkNode>) -> (state: CssCollection)
    ensures
        state@ == collected(node_models(nodes@)),
        exists|order: Seq<int>| #[trigger]
            is_collection(node_models(nodes@), order) && state.css@ == styles_of(
                node_models(nodes@),
                order,
            ),
{
    let ghost models = node_models(nodes@);
    let mut state: CssCollection = CssCollection {
        visited: Vec::new(),
        pending: Vec::new(),
        css: String::new(),
    };
    let mut i: usize = 0;
    assert(state@ =~= visit_entries(models, 0));
    while i < nodes.len()
        invariant
            i <= nodes@.len(),
            models == node_models(nodes@),
            state@ == visit_entries(models, i as nat),
        decreases nodes@.len() - i,
    {
        proof {
            assert(models[i as int] == nodes@[i as int]@);
            assert(models.len() == nodes@.len());
        }
        if nodes[i].is_entry {
            visit_chunk(nodes, i, &mut state, nodes.len());
        }
        i = i + 1;
    }
    let ghost start = state@;
    let ghost mut limit: nat = models.len() + 1;
    proof {
        assert(models.len() == nodes@.len());
        lemma_unvisited_shrinks(models, start.visited, start.visited);
    }
    while state.pending.len() > 0
        invariant
            models == node_models(nodes@),
            state@.pending.len() > 0 ==> unvisited(models, state@.visited) < limit,
            rounds(models, state@, limit) == rounds(models, start, models.len() + 1),
        decreases limit,
    {
        let ghost before = state@;
        let names: Vec<String> = state.pending;
        state.pending = Vec::new();
        let ghost cleared = state@;
        proof {
            assert(before.pending == text::texts(names@));
            assert(before.pending.len() > 0);
            assert(cleared =~= (CollectionModel { pending: Seq::empty(), ..before }));
        }
        visit_names(nodes, &names, &mut state);
        proof {
            lemma_named_progress(models, before.pending, cleared, models.len());
            limit = (limit - 1) as nat;
        }
    }
    proof {
        let order = lemma_collection(models, |name: Seq<char>| 0nat);
        assert(is_collection(models, order));
    }
    state
}

/// The CSS of the bundle that is emitted now: only where the chunks share one, it was not emitted
/// before, and it holds anything.
pub fn non_codesplit_css_bundle(
    css_code_split: bool,
    has_emitted: bool,
    nodes: &Vec<CssChunkNode>,
) -> (r: Option<String>)
    ensures
        r is Some == (!css_code_split && !has_emitted && collected(node_models(nodes@)).css.len()
            > 0),
        r matches Some(css) ==> css@ == collected(node_models(nodes@)).css,
        css_code_split || has_emitted ==> r is None,
        !css_code_split && !has_emitted ==> exists|order: Seq<int>| #[trigger]
            is_collection(node_models(nodes@), order) && match r {
                Some(css) => css@ == styles_of(node_models(nodes@), order) && css@.len() > 0,
                None => styles_of(node_models(nodes@), order).len() == 0,
            },
{
    if css_code_split || has_emitted {
        return None;
    }
    let state: CssCollection = collect_css_bundle(nodes);
    if state.css.as_str().is_empty() {
        None
    } else {
        Some(state.css)
    }
}

} // verus!
