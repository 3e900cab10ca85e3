use vstd::prelude::*;

use crate::value::Value;

verus! {

/// One (column name, value) pair of a row.
#[derive(Debug, Clone, PartialEq)]
pub struct Cell {
    pub column: String,
    pub value: Value,
}

/// A row: a mapping from column name to value. Later entries for the same
/// name shadow earlier ones, so `insert` replaces.
#[derive(Debug, Clone, PartialEq)]
pub struct Row {
    pub cells: Vec<Cell>,
}

/// The value bound to `name` in `cells`, the last binding winning.
pub open spec fn lookup(cells: Seq<Cell>, name: Seq<char>) -> Option<Value>
    decreases cells.len(),
{
    if cells.len() == 0 {
        None
    } else if cells.last().column@ == name {
        Some(cells.last().value)
    } else {
        lookup(cells.drop_last(), name)
    }
}

impl Row {
    /// The row as a partial map from column name to value.
    pub open spec fn get_spec(&self, name: Seq<char>) -> Option<Value> {
        lookup(self.cells@, name)
    }

    /// An empty row.
    pub fn new() -> (r: Row)
        ensures
            r.cells@.len() == 0,
            forall|n: Seq<char>| r.get_spec(n) is None,
    {
        Row { cells: Vec::new() }
    }

    /// Binds `column` to `value`, replacing any earlier binding.
    pub fn insert(&mut self, column: String, value: Value)
        ensures
            final(self).get_spec(column@) == Some(value),
            forall|n: Seq<char>| n != column@ ==> final(self).get_spec(n) == old(self).get_spec(n),
            final(self).cells@ == old(self).cells@.push(Cell { column, value }),
    {
        self.cells.push(Cell { column, value });
        assert(self.cells@.drop_last() == old(self).cells@);
    }

    /// The value bound to `name`, if any.
    pub fn get(&self, name: &str) -> (r: Option<&Value>)
        ensures
            r matches Some(v) ==> self.get_spec(name@) == Some(*v),
            r is None ==> self.get_spec(name@) is None,
    {
        let key = name.to_owned();
        let mut i: usize = self.cells.len();
        assert(self.cells@.take(i as int) == self.cells@);
        while i > 0
            invariant
                i <= self.cells@.len(),
                key@ == name@,
                lookup(self.cells@, name@) == lookup(self.cells@.take(i as int), name@),
            decreases i,
        {
            let ghost pre = self.cells@.take(i as int);
            assert(pre.drop_last() == self.cells@.take(i - 1));
            if self.cells[i - 1].column == key {
                return Some(&self.cells[i - 1].value);
            }
            i = i - 1;
        }
        None
    }
}

} // verus!
