//! What the planner knows of the operators in the graph.

use vstd::prelude::*;

use crate::sharding::{Column, NodeIndex};

verus! {

/// Where an output column of an operator comes from: an ancestor, and the column of the ancestor
/// that it is taken from, or `None` where the ancestor cannot supply it.
pub type Source = (NodeIndex, Option<usize>);

/// What is observable of an operator.
#[verifier::ext_equal]
pub struct OperatorView {
    /// The columns of other operators, or of itself, that it looks up by, in order.
    pub lookups: Seq<Column>,
    /// For each of its output columns the places that the column comes from.
    pub sources: Seq<Seq<Source>>,
    /// Whether it is a base table.
    pub base: bool,
}

impl OperatorView {
    /// The places that a column comes from. A column that the operator does not have comes from
    /// nowhere.
    pub open spec fn source_of(self, column: usize) -> Seq<Source> {
        if column < self.sources.len() {
            self.sources[column as int]
        } else {
            Seq::empty()
        }
    }
}

/// An operator of the data-flow graph. The default is a placeholder that does no lookups, resolves
/// no columns and is no base table.
#[derive(Debug)]
pub struct Tmp {
    /// The columns that the operator looks up by.
    pub lookups: Vec<Column>,
    /// For each output column the places that it comes from.
    pub sources: Vec<Vec<Source>>,
    /// Whether the operator is a base table.
    pub base: bool,
}

impl View for Tmp {
    type V = OperatorView;

    open spec fn view(&self) -> OperatorView {
        OperatorView {
            lookups: self.lookups@,
            sources: self.sources@.map_values(|column: Vec<Source>| column@),
            base: self.base,
        }
    }
}

impl Default for Tmp {
    fn default() -> (operator: Self)
        ensures
            operator@ == (OperatorView {
                lookups: Seq::empty(),
                sources: Seq::empty(),
                base: false,
            }),
            operator.lookups@.len() == 0,
            operator.sources@.len() == 0,
            !operator.base,
    {
        Tmp { lookups: Vec::new(), sources: Vec::new(), base: false }
    }
}

/// A copy of a list of columns.
pub(crate) fn copy_columns(columns: &Vec<Column>) -> (copy: Vec<Column>)
    ensures
        copy@ == columns@,
{
    let mut copy: Vec<Column> = Vec::new();
    for i in 0..columns.len()
        invariant
            copy@ == columns@.take(i as int),
    {
        copy.push(columns[i]);
    }
    copy
}

/// A copy of a list of sources.
fn copy_sources(sources: &Vec<Source>) -> (copy: Vec<Source>)
    ensures
        copy@ == sources@,
{
    let mut copy: Vec<Source> = Vec::new();
    for i in 0..sources.len()
        invariant
            copy@ == sources@.take(i as int),
    {
        copy.push(sources[i]);
    }
    copy
}

impl Clone for Tmp {
    fn clone(&self) -> (copy: Self)
        ensures
            copy@ == self@,
            copy.lookups@ == self.lookups@,
            copy.sources@.len() == self.sources@.len(),
            forall|column: int|
                0 <= column < self.sources@.len() ==> #[trigger] copy.sources@[column]@
                    == self.sources@[column]@,
            copy.base == self.base,
    {
        let mut sources: Vec<Vec<Source>> = Vec::new();
        for i in 0..self.sources.len()
            invariant
                sources.len() == i,
                forall|j: int| 0 <= j < i ==> #[trigger] sources@[j]@ == self.sources@[j]@,
        {
            sources.push(copy_sources(&self.sources[i]));
        }
        let copy = Tmp { lookups: copy_columns(&self.lookups), sources, base: self.base };
        assert(copy@.sources =~= self@.sources);
        copy
    }
}

impl Tmp {
    /// The columns that the operator looks up by, each with the operator whose state it looks into.
    pub fn lookup_in(&self) -> (lookups: Vec<Column>)
        ensures
            lookups@ == self@.lookups,
            lookups@ == self.lookups@,
    {
        copy_columns(&self.lookups)
    }

    /// The ancestors that a column comes from, each with the column of the ancestor that supplies
    /// it.
    pub fn source_of(&self, column: usize) -> (sources: Vec<Source>)
        ensures
            sources@ == self@.source_of(column),
            column < self.sources@.len() ==> sources@ == self.sources@[column as int]@,
            column >= self.sources@.len() ==> sources@.len() == 0,
    {
        if column < self.sources.len() {
            copy_sources(&self.sources[column])
        } else {
            Vec::new()
        }
    }

    /// An operator with the same output.
    pub fn mirror(&self) -> (mirror: Self)
        ensures
            mirror@ == self@,
            mirror.lookups@ == self.lookups@,
            mirror.sources@.len() == self.sources@.len(),
            forall|column: int|
                0 <= column < self.sources@.len() ==> #[trigger] mirror.sources@[column]@
                    == self.sources@[column]@,
            mirror.base == self.base,
    {
        self.clone()
    }

    /// Tells the operator that it gets from `to` what it used to get from `ancestor`. Lookups and
    /// sources go on naming the operator that was mirrored.
    pub fn rewire(&mut self, ancestor: NodeIndex, to: NodeIndex)
        ensures
            *final(self) == *old(self),
    {
    }

    /// Whether the operator is a base table.
    pub fn is_base(&self) -> (base: bool)
        ensures
            base == self@.base,
            base == self.base,
    {
        self.base
    }
}

/// What is observable of an operator is all that it holds.
pub proof fn law_operator_observed(operator: Tmp)
    ensures
        operator@.lookups == operator.lookups@,
        operator@.sources.len() == operator.sources@.len(),
        forall|column: int|
            0 <= column < operator.sources@.len() ==> #[trigger] operator@.sources[column]
                == operator.sources@[column]@,
        operator@.base == operator.base,
{
}

} // verus!
