//! Which base table column a column resolves to.

use vstd::prelude::*;

use crate::dataflow;
use crate::dataflow::{operator, Flow, FlowGraph};
use crate::operator::Source;
use crate::sharding::{Column, NodeIndex};

verus! {

/// The column of the smallest operator, the first such column where there are several.
pub open spec fn min_column(columns: Seq<Column>) -> Option<Column>
    decreases columns.len(),
{
    if columns.len() == 0 {
        None
    } else {
        let column = columns.last();
        match min_column(columns.drop_last()) {
            Some(least) => if column.0 < least.0 {
                Some(column)
            } else {
                Some(least)
            },
            None => Some(column),
        }
    }
}

/// The ancestor column that a source stands for, where the ancestor has it.
pub open spec fn source_column(source: Source) -> Option<Column> {
    match source.1 {
        Some(column) => Some((source.0, column)),
        None => None,
    }
}

/// The ancestor columns that sources stand for.
pub open spec fn source_columns(sources: Seq<Source>) -> Seq<Column> {
    sources.filter_map(|source: Source| source_column(source))
}

impl Flow {
    /// The places that a column of a node comes from.
    pub open spec fn source_of(self, node: NodeIndex, column: usize) -> Seq<Source> {
        self.nodes[node as int].source_of(column)
    }

    /// The base table column that a column resolves to, by way of the smallest ancestor that has
    /// the column. A column that no ancestor has must be that of a base table.
    pub open spec fn resolve(self, node: NodeIndex, column: usize) -> Option<Column>
        decreases node,
    {
        if node >= self.nodes.len() {
            None
        } else {
            match min_column(source_columns(self.source_of(node, column))) {
                Some((ancestor, ancestor_column)) => if ancestor < node {
                    self.resolve(ancestor, ancestor_column)
                } else {
                    None
                },
                None => if self.nodes[node as int].base {
                    Some((node, column))
                } else {
                    None
                },
            }
        }
    }
}

/// The least column is one of the columns, none is of a smaller operator, and none before it is of
/// the same.
pub proof fn lemma_min_column(columns: Seq<Column>)
    ensures
        min_column(columns) is None <==> columns.len() == 0,
        min_column(columns) matches Some(least) ==> exists|i: int|
            #![trigger columns[i]]
            0 <= i < columns.len() && columns[i] == least && (forall|j: int|
                #![trigger columns[j]]
                0 <= j < columns.len() ==> least.0 <= columns[j].0 && (j < i ==> least.0
                    < columns[j].0)),
    decreases columns.len(),
{
    if columns.len() > 0 {
        let rest = columns.drop_last();
        lemma_min_column(rest);
        let least = min_column(columns)->0;
        if rest.len() == 0 {
            assert(columns[0] == least);
        } else {
            let before = min_column(rest)->0;
            let k = choose|i: int|
                #![trigger rest[i]]
                0 <= i < rest.len() && rest[i] == before && (forall|j: int|
                    #![trigger rest[j]]
                    0 <= j < rest.len() ==> before.0 <= rest[j].0 && (j < i ==> before.0
                        < rest[j].0));
            let i = if columns.last().0 < before.0 {
                columns.len() - 1
            } else {
                k
            };
            assert(columns[i] == least);
            assert forall|j: int| #![trigger columns[j]] 0 <= j < columns.len() implies least.0
                <= columns[j].0 && (j < i ==> least.0 < columns[j].0) by {
                if j < rest.len() {
                    assert(rest[j] == columns[j]);
                }
            }
        }
    }
}

/// Every ancestor column comes from a source.
pub proof fn lemma_source_columns(sources: Seq<Source>, i: int)
    requires
        0 <= i < source_columns(sources).len(),
    ensures
        exists|j: int|
            #![trigger sources[j]]
            0 <= j < sources.len() && source_column(sources[j]) == Some(source_columns(sources)[i]),
    decreases sources.len(),
{
    let f = |source: Source| source_column(source);
    let rest = sources.drop_last();
    if i < source_columns(rest).len() {
        lemma_source_columns(rest, i);
        let j = choose|j: int|
            #![trigger rest[j]]
            0 <= j < rest.len() && source_column(rest[j]) == Some(source_columns(rest)[i]);
        assert(sources[j] == rest[j]);
    } else {
        assert(sources[sources.len() - 1] == sources.last());
    }
}

/// The column of the smallest operator, the first such column where there are several.
pub fn least_column(columns: &Vec<Column>) -> (least: Option<Column>)
    ensures
        least == min_column(columns@),
        least is None <==> columns@.len() == 0,
        least matches Some(least) ==> exists|i: int|
            #![trigger columns@[i]]
            0 <= i < columns@.len() && columns@[i] == least && (forall|j: int|
                #![trigger columns@[j]]
                0 <= j < columns@.len() ==> least.0 <= columns@[j].0 && (j < i ==> least.0
                    < columns@[j].0)),
{
    let mut least: Option<Column> = None;
    for i in 0..columns.len()
        invariant
            least == min_column(columns@.take(i as int)),
    {
        let column = columns[i];
        assert(columns@.take(i + 1).drop_last() =~= columns@.take(i as int));
        least = match least {
            Some(kept) => if column.0 < kept.0 {
                Some(column)
            } else {
                Some(kept)
            },
            None => Some(column),
        };
    }
    assert(columns@.take(columns@.len() as int) =~= columns@);
    proof {
        lemma_min_column(columns@);
    }
    least
}

/// The ancestor columns that sources stand for.
fn columns_of(sources: &Vec<Source>) -> (columns: Vec<Column>)
    ensures
        columns@ == source_columns(sources@),
{
    let ghost f = |source: Source| source_column(source);
    let mut columns: Vec<Column> = Vec::new();
    for i in 0..sources.len()
        invariant
            f == (|source: Source| source_column(source)),
            columns@ == sources@.take(i as int).filter_map(f),
    {
        proof {
            sources@.lemma_filter_map_take_succ(f, i as int);
        }
        if let Some(column) = sources[i].1 {
            columns.push((sources[i].0, column));
        }
    }
    assert(sources@.take(sources@.len() as int) =~= sources@);
    columns
}

/// Follows a column to the base table column that it resolves to, always by way of the smallest
/// ancestor. Returns `None` for a column that does not exist.
pub fn resolve_column(graph: &FlowGraph, node: NodeIndex, column: usize) -> (resolved: Option<
    Column,
>)
    requires
        dataflow::flow(*graph).sources_precede(),
        node < dataflow::flow(*graph).nodes.len(),
    ensures
        resolved == dataflow::flow(*graph).resolve(node, column),
{
    let ghost flow = dataflow::flow(*graph);
    let mut at: NodeIndex = node;
    let mut at_column: usize = column;
    loop
        invariant
            flow == dataflow::flow(*graph),
            flow.sources_precede(),
            at < flow.nodes.len(),
            flow.resolve(at, at_column) == flow.resolve(node, column),
        decreases at,
    {
        let sources = operator(graph, at).source_of(at_column);
        let columns = columns_of(&sources);
        match least_column(&columns) {
            Some((ancestor, ancestor_column)) => {
                proof {
                    lemma_min_column(columns@);
                    let i = choose|i: int|
                        #![trigger columns@[i]]
                        0 <= i < columns.len() && columns@[i] == (ancestor, ancestor_column);
                    lemma_source_columns(sources@, i);
                    let j = choose|j: int|
                        #![trigger sources@[j]]
                        0 <= j < sources.len() && source_column(sources@[j]) == Some(columns@[i]);
                    assert(flow.nodes[at as int].sources[at_column as int][j].0 < at);
                }
                at = ancestor;
                at_column = ancestor_column;
            },
            None => {
                if operator(graph, at).is_base() {
                    return Some((at, at_column));
                } else {
                    return None;
                }
            },
        }
    }
}

/// What a column resolves to is a column of a base table, and no ancestor has that column. It
/// resolves to itself.
pub proof fn law_resolves_to_base(flow: Flow, node: NodeIndex, column: usize)
    ensures
        flow.resolve(node, column) matches Some((base, base_column)) ==> {
            &&& base <= node
            &&& base < flow.nodes.len()
            &&& flow.nodes[base as int].base
            &&& source_columns(flow.source_of(base, base_column)).len() == 0
            &&& flow.resolve(base, base_column) == Some((base, base_column))
        },
    decreases node,
{
    if node < flow.nodes.len() {
        let columns = source_columns(flow.source_of(node, column));
        lemma_min_column(columns);
        if let Some((ancestor, ancestor_column)) = min_column(columns) {
            if ancestor < node {
                law_resolves_to_base(flow, ancestor, ancestor_column);
            }
        }
    }
}

/// The source of the smallest operator, the first such where there are several, is the least.
proof fn lemma_smallest_source(sources: Seq<Source>, i: int)
    requires
        0 <= i < sources.len(),
        sources[i].1 is Some,
        forall|j: int|
            #![trigger sources[j]]
            0 <= j < sources.len() && sources[j].1 is Some ==> sources[i].0 <= sources[j].0 && (j
                < i ==> sources[i].0 < sources[j].0),
    ensures
        min_column(source_columns(sources)) == Some((sources[i].0, sources[i].1->0)),
    decreases sources.len(),
{
    let f = |source: Source| source_column(source);
    let rest = sources.drop_last();
    let before = source_columns(rest);
    let last = sources.last();
    sources.lemma_filter_map_take_succ(f, sources.len() - 1);
    assert(sources.take(sources.len() as int) =~= sources);
    assert(sources.take(sources.len() - 1) =~= rest);
    assert(sources[sources.len() - 1] == last);
    assert forall|j: int| 0 <= j < rest.len() implies #[trigger] rest[j] == sources[j] by {}
    if last.1 is Some {
        assert(source_columns(sources) =~= before.push((last.0, last.1->0)));
        assert(source_columns(sources).drop_last() =~= before);
    } else {
        assert(source_columns(sources) =~= before);
    }
    if i < rest.len() {
        lemma_smallest_source(rest, i);
    } else {
        lemma_min_column(before);
        if before.len() > 0 {
            let least = min_column(before)->0;
            let k = choose|k: int|
                #![trigger before[k]]
                0 <= k < before.len() && before[k] == least;
            lemma_source_columns(rest, k);
            let j = choose|j: int|
                #![trigger rest[j]]
                0 <= j < rest.len() && source_column(rest[j]) == Some(before[k]);
            assert(sources[j] == rest[j]);
        }
    }
}

/// A column resolves to what the column of the smallest operator that supplies it resolves to, the
/// one that is listed first where that operator supplies it more than once.
pub proof fn law_resolves_by_smallest(flow: Flow, node: NodeIndex, column: usize, i: int)
    requires
        node < flow.nodes.len(),
        column < flow.nodes[node as int].sources.len(),
        0 <= i < flow.nodes[node as int].sources[column as int].len(),
        flow.nodes[node as int].sources[column as int][i].1 is Some,
        flow.nodes[node as int].sources[column as int][i].0 < node,
        forall|j: int|
            #![trigger flow.nodes[node as int].sources[column as int][j]]
            0 <= j < flow.nodes[node as int].sources[column as int].len()
                && flow.nodes[node as int].sources[column as int][j].1 is Some ==> {
                let least = flow.nodes[node as int].sources[column as int][i].0;
                let other = flow.nodes[node as int].sources[column as int][j].0;
                least <= other && (j < i ==> least < other)
            },
    ensures
        ({
            let (ancestor, above) = flow.nodes[node as int].sources[column as int][i];
            flow.resolve(node, column) == flow.resolve(ancestor, above->0)
        }),
{
    let sources = flow.nodes[node as int].sources[column as int];
    assert(flow.source_of(node, column) == sources);
    lemma_smallest_source(sources, i);
}

/// A column that no operator supplies resolves to itself at a base table, and to nothing elsewhere.
pub proof fn law_unsupplied_resolves_at_base(flow: Flow, node: NodeIndex, column: usize)
    requires
        node < flow.nodes.len(),
        column < flow.nodes[node as int].sources.len() ==> forall|j: int|
            0 <= j < flow.nodes[node as int].sources[column as int].len()
                ==> (#[trigger] flow.nodes[node as int].sources[column as int][j]).1 is None,
    ensures
        flow.resolve(node, column) == if flow.nodes[node as int].base {
            Some((node, column))
        } else {
            None
        },
{
    let sources = flow.source_of(node, column);
    let columns = source_columns(sources);
    lemma_min_column(columns);
    if columns.len() > 0 {
        lemma_source_columns(sources, 0);
        let j = choose|j: int|
            #![trigger sources[j]]
            0 <= j < sources.len() && source_column(sources[j]) == Some(columns[0]);
        assert(flow.nodes[node as int].sources[column as int][j].1 is None);
    }
}

} // verus!
