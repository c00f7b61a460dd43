//! Table templates: an ordered column schema, a row expression producing one
//! value per column, and derived edges giving per-parent-row fan-out into
//! child templates. Templates live in a flat, index-addressed collection;
//! derived edges reference templates by index. An edge must point to a
//! strictly larger index, which rules out cycles by construction.

use vstd::prelude::*;
use crate::eval::{Expr, ExprV};

verus! {

/// An immutable description of one generation unit.
#[derive(Debug)]
pub struct Table {
    /// The table's name, used to qualify column names.
    pub name: String,
    /// The ordered column names.
    pub columns: Vec<String>,
    /// The row expression: one expression per column, evaluated in order.
    pub row: Vec<Expr>,
    /// Derived edges: child template index and per-parent-row count expression.
    pub derived: Vec<(usize, Expr)>,
}

/// The mathematical view of a [`Table`].
#[verifier::ext_equal]
pub struct TableT {
    /// The table's name.
    pub name: Seq<char>,
    /// The ordered column names.
    pub columns: Seq<Seq<char>>,
    /// The row expression, one node per column.
    pub row: Seq<ExprV>,
    /// Derived edges: child template index and count expression.
    pub derived: Seq<(int, ExprV)>,
}

impl View for Table {
    type V = TableT;

    open spec fn view(&self) -> TableT {
        TableT {
            name: self.name@,
            columns: self.columns@.map_values(|c: String| c@),
            row: self.row@.map_values(|e: Expr| e@),
            derived: self.derived@.map_values(|p: (usize, Expr)| (p.0 as int, p.1@)),
        }
    }
}

/// The schema a table presents to its sink: its column names, each prefixed
/// with the table name when qualification is chosen.
pub open spec fn spec_schema(t: TableT, qualified: bool) -> Seq<Seq<char>> {
    if qualified {
        t.columns.map_values(|c: Seq<char>| t.name + "."@ + c)
    } else {
        t.columns
    }
}

impl Table {
    /// An exact copy of this template.
    pub fn duplicate(&self) -> (r: Table)
        ensures
            r@ == self@,
    {
        let mut columns: Vec<String> = Vec::new();
        let mut i: usize = 0;
        while i < self.columns.len()
            invariant
                i <= self.columns.len(),
                columns@.len() == i,
                forall|j: int| 0 <= j < i ==> columns@[j]@ == self.columns@[j]@,
            decreases self.columns.len() - i,
        {
            columns.push(self.columns[i].clone());
            i = i + 1;
        }
        let mut row: Vec<Expr> = Vec::new();
        let mut j: usize = 0;
        while j < self.row.len()
            invariant
                j <= self.row.len(),
                row@.len() == j,
                forall|m: int| 0 <= m < j ==> row@[m]@ == self.row@[m]@,
            decreases self.row.len() - j,
        {
            row.push(self.row[j].duplicate());
            j = j + 1;
        }
        let mut derived: Vec<(usize, Expr)> = Vec::new();
        let mut k: usize = 0;
        while k < self.derived.len()
            invariant
                k <= self.derived.len(),
                derived@.len() == k,
                forall|m: int| 0 <= m < k ==> derived@[m].0 == self.derived@[m].0
                    && derived@[m].1@ == self.derived@[m].1@,
            decreases self.derived.len() - k,
        {
            let child: usize = self.derived[k].0;
            let expr = self.derived[k].1.duplicate();
            derived.push((child, expr));
            k = k + 1;
        }
        let r = Table { name: self.name.clone(), columns, row, derived };
        proof {
            assert(r@.columns =~= self@.columns);
            assert(r@.row =~= self@.row);
            assert(r@.derived =~= self@.derived);
            assert(r@ =~= self@);
        }
        r
    }

    /// The schema this table presents, with column names optionally
    /// qualified by the table name.
    pub fn schema(&self, qualified: bool) -> (r: Vec<String>)
        ensures
            r@.map_values(|c: String| c@) == spec_schema(self@, qualified),
    {
        if !qualified {
            let mut out: Vec<String> = Vec::new();
            let mut i: usize = 0;
            while i < self.columns.len()
                invariant
                    i <= self.columns.len(),
                    out@.len() == i,
                    forall|j: int| 0 <= j < i ==> out@[j]@ == self.columns@[j]@,
                decreases self.columns.len() - i,
            {
                out.push(self.columns[i].clone());
                i = i + 1;
            }
            proof {
                assert(out@.map_values(|c: String| c@) =~= spec_schema(self@, false));
            }
            out
        } else {
            let mut out: Vec<String> = Vec::new();
            let mut i: usize = 0;
            while i < self.columns.len()
                invariant
                    i <= self.columns.len(),
                    out@.len() == i,
                    forall|j: int| 0 <= j < i ==> out@[j]@ == self.name@ + "."@ + self.columns@[j]@,
                decreases self.columns.len() - i,
            {
                let mut q = self.name.clone();
                q.append(".");
                q.append(self.columns[i].as_str());
                out.push(q);
                i = i + 1;
            }
            proof {
                assert(out@.map_values(|c: String| c@) =~= spec_schema(self@, true));
            }
            out
        }
    }
}

} // verus!
