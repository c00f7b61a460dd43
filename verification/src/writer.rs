//! The row-generation engine: a forest of table templates, each paired with
//! one output sink, driven one logical row event at a time. The exact effect
//! of every engine operation on the generation state and on each sink's
//! event sequence is given by the interpreter spec functions in this module;
//! the executable engine is proved to follow them step for step.

use vstd::prelude::*;
use crate::error::{Error, ErrorKind, Span};
use crate::eval::{spec_eval, exprv_span, ExprV, State};
use crate::table::{spec_schema, Table, TableT};
use crate::value::{Value, ValueV};

verus! {

/// One call a sink receives, with the data handed to it.
pub enum SinkEvent {
    /// The once-per-sink file header, carrying the schema.
    FileHeader(Seq<Seq<char>>),
    /// The header opening a non-empty batch, carrying the schema.
    Header(Seq<Seq<char>>),
    /// The column name written immediately before its value.
    ValueHeader(Seq<char>),
    /// One generated value.
    Value(ValueV),
    /// The separator between two values of one row.
    ValueSep,
    /// The separator between two rows of one batch.
    RowSep,
    /// The trailer closing a non-empty batch.
    Trailer,
}

/// The contract every output sink satisfies. A sink's whole observable
/// behaviour is the sequence of events it has accepted; each operation
/// either appends exactly its event, or fails with a sink error and appends
/// nothing.
pub trait Writer: Sized {
    /// The events this sink has accepted so far, in order.
    spec fn events(&self) -> Seq<SinkEvent>;

    /// Whether this sink implementation can fail at all. An implementation
    /// for which this holds promises that every operation returns `Ok`;
    /// driven through such a sink, the engine owes success whenever the
    /// interpreter spec succeeds.
    spec fn infallible() -> bool;

    /// Writes the content at the beginning of the sink's file.
    fn write_file_header(&mut self, schema: &Vec<String>) -> (r: Result<(), Error>)
        ensures
            (match r {
                Ok(()) => final(self).events() == old(self).events().push(
                    SinkEvent::FileHeader(schema@.map_values(|c: String| c@)),
                ),
                Err(e) => final(self).events() == old(self).events() && e.kind == ErrorKind::Sink,
            }),
            Self::infallible() ==> r is Ok;

    /// Writes the content opening a batch, before its first row.
    fn write_header(&mut self, schema: &Vec<String>) -> (r: Result<(), Error>)
        ensures
            (match r {
                Ok(()) => final(self).events() == old(self).events().push(
                    SinkEvent::Header(schema@.map_values(|c: String| c@)),
                ),
                Err(e) => final(self).events() == old(self).events() && e.kind == ErrorKind::Sink,
            }),
            Self::infallible() ==> r is Ok;

    /// Writes the column name immediately before its value.
    fn write_value_header(&mut self, column: &String) -> (r: Result<(), Error>)
        ensures
            (match r {
                Ok(()) => final(self).events() == old(self).events().push(
                    SinkEvent::ValueHeader(column@),
                ),
                Err(e) => final(self).events() == old(self).events() && e.kind == ErrorKind::Sink,
            }),
            Self::infallible() ==> r is Ok;

    /// Writes a single value.
    fn write_value(&mut self, value: &Value) -> (r: Result<(), Error>)
        ensures
            (match r {
                Ok(()) => final(self).events() == old(self).events().push(SinkEvent::Value(value@)),
                Err(e) => final(self).events() == old(self).events() && e.kind == ErrorKind::Sink,
            }),
            Self::infallible() ==> r is Ok;

    /// Writes the separator between two values of one row.
    fn write_value_separator(&mut self) -> (r: Result<(), Error>)
        ensures
            (match r {
                Ok(()) => final(self).events() == old(self).events().push(SinkEvent::ValueSep),
                Err(e) => final(self).events() == old(self).events() && e.kind == ErrorKind::Sink,
            }),
            Self::infallible() ==> r is Ok;

    /// Writes the separator between two rows of one batch.
    fn write_row_separator(&mut self) -> (r: Result<(), Error>)
        ensures
            (match r {
                Ok(()) => final(self).events() == old(self).events().push(SinkEvent::RowSep),
                Err(e) => final(self).events() == old(self).events() && e.kind == ErrorKind::Sink,
            }),
            Self::infallible() ==> r is Ok;

    /// Writes the content closing a non-empty batch.
    fn write_trailer(&mut self) -> (r: Result<(), Error>)
        ensures
            (match r {
                Ok(()) => final(self).events() == old(self).events().push(SinkEvent::Trailer),
                Err(e) => final(self).events() == old(self).events() && e.kind == ErrorKind::Sink,
            }),
            Self::infallible() ==> r is Ok;
}

/// The immutable part of an engine: the templates and the schema each
/// table presents to its sink.
#[verifier::ext_equal]
pub struct Plan {
    /// The template of each table, in index order.
    pub tables: Seq<TableT>,
    /// The schema each table presents, in the same order.
    pub schemas: Seq<Seq<Seq<char>>>,
}

/// The mutable part of an engine: the generation state, the per-table
/// flags, and the events each sink has accepted.
#[verifier::ext_equal]
pub struct Trace {
    /// The shared generation state.
    pub state: State,
    /// Per table: is it still this table's turn to act as an independent
    /// root in the current row event?
    pub fresh: Seq<bool>,
    /// Per table: has nothing been written to its current batch yet?
    pub empty: Seq<bool>,
    /// Per table: the events its sink has accepted.
    pub logs: Seq<Seq<SinkEvent>>,
}

/// Well-formedness of a template set: every table's schema length equals
/// its row expression arity, and every derived edge points to a strictly
/// larger, in-bounds index, which makes the derivation graph acyclic.
pub open spec fn wf_plan(p: Plan) -> bool {
    &&& p.schemas.len() == p.tables.len()
    &&& forall|i: int| 0 <= i < p.tables.len() ==> (#[trigger] p.tables[i]).row.len()
        == p.tables[i].columns.len()
    &&& forall|i: int| 0 <= i < p.tables.len() ==> (#[trigger] p.schemas[i]).len()
        == p.tables[i].columns.len()
    &&& forall|i: int, e: int| 0 <= i < p.tables.len() && 0 <= e
        < p.tables[i].derived.len() ==> i < (#[trigger] p.tables[i].derived[e]).0
        < p.tables.len()
}

/// Validity of a template set as the constructor checks it: every table's
/// row expression arity equals its schema length, and every derived edge
/// points to a strictly larger, in-bounds index.
pub open spec fn templates_wf(ts: Seq<TableT>) -> bool {
    &&& forall|i: int| 0 <= i < ts.len() ==> (#[trigger] ts[i]).row.len() == ts[i].columns.len()
    &&& forall|i: int, e: int| 0 <= i < ts.len() && 0 <= e < ts[i].derived.len()
        ==> i < (#[trigger] ts[i].derived[e]).0 < ts.len()
}

/// Tracks whether a trace has the right shape for a plan.
pub open spec fn wf_trace(p: Plan, d: Trace) -> bool {
    &&& d.fresh.len() == p.tables.len()
    &&& d.empty.len() == p.tables.len()
    &&& d.logs.len() == p.tables.len()
}

/// Appends one event to table `i`'s log.
pub open spec fn emit(d: Trace, i: int, ev: SinkEvent) -> Trace {
    Trace { logs: d.logs.update(i, d.logs[i].push(ev)), ..d }
}

/// Appends a run of events to table `i`'s log.
pub open spec fn emit_all(d: Trace, i: int, evs: Seq<SinkEvent>) -> Trace {
    Trace { logs: d.logs.update(i, d.logs[i] + evs), ..d }
}

/// The events one row occurrence sends for its first `j` columns: before
/// every column but the first a value separator, then the column's value
/// header, then its value.
pub open spec fn row_events_upto(cols: Seq<Seq<char>>, vals: Seq<ValueV>, j: int) -> Seq<SinkEvent>
    decreases j,
{
    if j <= 0 {
        Seq::empty()
    } else {
        row_events_upto(cols, vals, j - 1) + (if j - 1 > 0 {
            seq![SinkEvent::ValueSep]
        } else {
            Seq::empty()
        }) + seq![SinkEvent::ValueHeader(cols[j - 1]), SinkEvent::Value(vals[j - 1])]
    }
}

/// Evaluating the first `j` expressions of a row in order: the values
/// produced, or the first error, together with the state evaluation has
/// advanced to.
pub open spec fn eval_row_upto(row: Seq<ExprV>, s: State, j: int) -> (Result<Seq<ValueV>, Error>, State)
    decreases j,
{
    if j <= 0 {
        (Ok(Seq::empty()), s)
    } else {
        let (r0, s0) = eval_row_upto(row, s, j - 1);
        match r0 {
            Err(e) => (Err(e), s0),
            Ok(vs) => {
                let (r1, s1) = spec_eval(row[j - 1], s0);
                match r1 {
                    Err(e) => (Err(e), s1),
                    Ok(v) => (Ok(vs.push(v)), s1),
                }
            },
        }
    }
}

/// The non-negative occurrence count a fan-out expression's value converts
/// to, if it converts at all.
pub open spec fn spec_count(v: ValueV) -> Option<int> {
    match v {
        ValueV::Int(x) => if x >= 0 {
            Some(x)
        } else {
            None
        },
        _ => None,
    }
}

/// Whether table `j` is reachable from table `i` over derived edges,
/// `i` itself included.
pub open spec fn spec_reach(p: Plan, i: int, j: int) -> bool
    decreases p.tables.len() - i,
        when wf_plan(p) && 0 <= i < p.tables.len()
{
    i == j || exists|e: int|
        0 <= e < p.tables[i].derived.len() && spec_reach(p, p.tables[i].derived[e].0, j)
}

/// The row part of one occurrence of table `i`: open or continue its
/// batch, evaluate the row expression, and send the column events.
pub open spec fn spec_open_row(p: Plan, d: Trace, i: int) -> (Result<(), Error>, Trace) {
    let d1 = if d.empty[i] {
        emit(Trace { empty: d.empty.update(i, false), ..d }, i, SinkEvent::Header(p.schemas[i]))
    } else {
        emit(Trace { empty: d.empty.update(i, false), ..d }, i, SinkEvent::RowSep)
    };
    let arity = p.tables[i].row.len() as int;
    let (rv, s2) = eval_row_upto(p.tables[i].row, d1.state, arity);
    let d2 = Trace { state: s2, ..d1 };
    match rv {
        Err(e) => (Err(e), d2),
        Ok(vals) => (
            Ok(()),
            emit_all(d2, i, row_events_upto(p.schemas[i], vals, p.schemas[i].len() as int)),
        ),
    }
}

/// One occurrence of table `i`: the row part, then every derived edge in
/// declaration order.
pub open spec fn spec_write_one(p: Plan, d: Trace, i: int) -> (Result<(), Error>, Trace)
    decreases p.tables.len() - i, 2int, 0int,
        when wf_plan(p) && 0 <= i < p.tables.len()
{
    let (r0, dx) = spec_open_row(p, d, i);
    match r0 {
        Err(e) => (Err(e), dx),
        Ok(()) => spec_edges(p, dx, i, 0),
    }
}

/// The derived edges of table `i` from edge `e` on: evaluate each count
/// expression, convert it, and generate that many child occurrences with
/// `sub_row_num` running from 1, strictly in declaration order.
pub open spec fn spec_edges(p: Plan, d: Trace, i: int, e: int) -> (Result<(), Error>, Trace)
    decreases p.tables.len() - i, 1int, p.tables[i].derived.len() - e,
        when wf_plan(p) && 0 <= i < p.tables.len() && 0 <= e <= p.tables[i].derived.len()
{
    if e >= p.tables[i].derived.len() {
        (Ok(()), d)
    } else {
        let edge = p.tables[i].derived[e];
        let (rc, s2) = spec_eval(edge.1, d.state);
        let d2 = Trace { state: s2, ..d };
        match rc {
            Err(err) => (Err(err), d2),
            Ok(cv) => match spec_count(cv) {
                None => (
                    Err(Error { kind: ErrorKind::InvalidCount, span: exprv_span(edge.1) }),
                    d2,
                ),
                Some(k) => {
                    let (rk, d3) = spec_children(p, d2, edge.0, k, 1);
                    match rk {
                        Err(e2) => (Err(e2), d3),
                        Ok(()) => spec_edges(p, d3, i, e + 1),
                    }
                },
            },
        }
    }
}

/// Occurrences `r` through `k` of child table `c`, each generated with
/// `sub_row_num` set to its position.
pub open spec fn spec_children(p: Plan, d: Trace, c: int, k: int, r: int) -> (Result<(), Error>, Trace)
    decreases p.tables.len() - c, 3int, k - r + 1,
        when wf_plan(p) && 0 <= c < p.tables.len() && 1 <= r && r <= k + 1
{
    if r > k {
        (Ok(()), d)
    } else {
        let d1 = Trace { state: State { sub_row_num: r as u64, ..d.state }, ..d };
        let (r1, d2) = spec_write_one(p, d1, c);
        match r1 {
            Err(e2) => (Err(e2), d2),
            Ok(()) => spec_children(p, d2, c, k, r + 1),
        }
    }
}

/// The root scan of one row event from index `i` on: every table still
/// fresh when the scan reaches it becomes an independent root; first all
/// tables reachable from it are marked not fresh, then it is generated
/// with `sub_row_num` reset to 1.
pub open spec fn spec_row_loop(p: Plan, d: Trace, i: int) -> (Result<(), Error>, Trace)
    decreases p.tables.len() + 1, 0int, p.tables.len() - i,
        when wf_plan(p) && 0 <= i
{
    if i >= p.tables.len() {
        (Ok(()), d)
    } else if d.fresh[i] {
        let d1 = Trace {
            fresh: Seq::new(d.fresh.len(), |j: int| d.fresh[j] && !spec_reach(p, i, j)),
            state: State { sub_row_num: 1, ..d.state },
            ..d
        };
        let (r1, d2) = spec_write_one(p, d1, i);
        match r1 {
            Err(e) => (Err(e), d2),
            Ok(()) => spec_row_loop(p, d2, i + 1),
        }
    } else {
        spec_row_loop(p, d, i + 1)
    }
}

/// One logical row event: mark every table fresh, run the root scan, and
/// finally advance the shared row counter once.
pub open spec fn spec_write_row(p: Plan, d: Trace) -> (Result<(), Error>, Trace) {
    let d0 = Trace { fresh: Seq::new(d.fresh.len(), |j: int| true), ..d };
    let (r1, d1) = spec_row_loop(p, d0, 0);
    match r1 {
        Err(e) => (Err(e), d1),
        Ok(()) => (
            Ok(()),
            Trace { state: State { row_num: u64::wrapping_add(d1.state.row_num, 1), ..d1.state }, ..d1 },
        ),
    }
}

/// A whole generation stream: the given number of row events in order,
/// stopping at the first failure.
pub open spec fn spec_run(p: Plan, d: Trace, rows: nat) -> (Result<(), Error>, Trace)
    decreases rows,
{
    if rows == 0 {
        (Ok(()), d)
    } else {
        let (r1, d1) = spec_write_row(p, d);
        match r1 {
            Err(e) => (Err(e), d1),
            Ok(()) => spec_run(p, d1, (rows - 1) as nat),
        }
    }
}

/// Closing the current batch: every table with something written receives
/// exactly one trailer; a table with nothing written receives nothing. All
/// tables start the next batch empty.
pub open spec fn spec_write_trailer(d: Trace) -> Trace {
    Trace {
        empty: Seq::new(d.empty.len(), |i: int| true),
        logs: Seq::new(
            d.logs.len(),
            |i: int| if d.empty[i] {
                d.logs[i]
            } else {
                d.logs[i].push(SinkEvent::Trailer)
            },
        ),
        ..d
    }
}

/// The per-table bookkeeping of an engine: the template, the schema it
/// presents, its sink, and the two per-batch flags.
pub struct TableState<W: Writer> {
    /// The table's template.
    pub table: Table,
    /// The schema presented to this table's sink.
    pub schema: Vec<String>,
    /// The sink owned by this table for the stream's duration.
    pub writer: W,
    /// Is it still this table's turn to act as a root in the current event?
    pub fresh: bool,
    /// Has nothing been written to this table's current batch yet?
    pub empty: bool,
}

/// An environment for writing rows from multiple tables generated from a
/// single template set.
pub struct Env<W: Writer> {
    tables: Vec<TableState<W>>,
    state: State,
}

impl<W: Writer> Env<W> {
    /// The immutable part of this engine.
    pub closed spec fn plan(&self) -> Plan {
        Plan {
            tables: self.tables@.map_values(|t: TableState<W>| t.table@),
            schemas: self.tables@.map_values(
                |t: TableState<W>| t.schema@.map_values(|c: String| c@),
            ),
        }
    }

    /// The mutable part of this engine: state, flags, and sink logs.
    pub closed spec fn trace(&self) -> Trace {
        Trace {
            state: self.state,
            fresh: self.tables@.map_values(|t: TableState<W>| t.fresh),
            empty: self.tables@.map_values(|t: TableState<W>| t.empty),
            logs: self.tables@.map_values(|t: TableState<W>| t.writer.events()),
        }
    }

    /// Well-formedness: the template set is well formed and the engine's
    /// shape matches it.
    pub open spec fn wf(&self) -> bool {
        wf_plan(self.plan()) && wf_trace(self.plan(), self.trace())
    }

    /// Sets one table's `fresh` flag.
    fn set_fresh(&mut self, ti: usize, b: bool)
        requires
            ti < old(self).plan().tables.len(),
        ensures
            final(self).plan() == old(self).plan(),
            final(self).trace() == (Trace {
                fresh: old(self).trace().fresh.update(ti as int, b),
                ..old(self).trace()
            }),
    {
        let ts = &mut self.tables[ti];
        ts.fresh = b;
        proof {
            assert(self.plan() =~~= old(self).plan());
            assert(self.trace() =~~= (Trace {
                fresh: old(self).trace().fresh.update(ti as int, b),
                ..old(self).trace()
            }));
        }
    }

    /// Sets one table's `empty` flag.
    fn set_empty(&mut self, ti: usize, b: bool)
        requires
            ti < old(self).plan().tables.len(),
        ensures
            final(self).plan() == old(self).plan(),
            final(self).trace() == (Trace {
                empty: old(self).trace().empty.update(ti as int, b),
                ..old(self).trace()
            }),
    {
        let ts = &mut self.tables[ti];
        ts.empty = b;
        proof {
            assert(self.plan() =~~= old(self).plan());
            assert(self.trace() =~~= (Trace {
                empty: old(self).trace().empty.update(ti as int, b),
                ..old(self).trace()
            }));
        }
    }

    /// Sends one table's batch header to its sink.
    fn sink_header(&mut self, ti: usize) -> (r: Result<(), Error>)
        requires
            ti < old(self).plan().tables.len(),
        ensures
            final(self).plan() == old(self).plan(),
            (match r {
                Ok(()) => final(self).trace() == emit(
                    old(self).trace(),
                    ti as int,
                    SinkEvent::Header(old(self).plan().schemas[ti as int]),
                ),
                Err(e) => final(self).trace() == old(self).trace() && e.kind == ErrorKind::Sink,
            }),
            W::infallible() ==> r is Ok,
    {
        let ts = &mut self.tables[ti];
        let r = ts.writer.write_header(&ts.schema);
        proof {
            assert(self.plan() =~~= old(self).plan());
            if r is Ok {
                assert(self.trace() =~~= emit(
                    old(self).trace(),
                    ti as int,
                    SinkEvent::Header(old(self).plan().schemas[ti as int]),
                ));
            } else {
                assert(self.trace() =~~= old(self).trace());
            }
        }
        r
    }

    /// Sends one table's row separator to its sink.
    fn sink_row_sep(&mut self, ti: usize) -> (r: Result<(), Error>)
        requires
            ti < old(self).plan().tables.len(),
        ensures
            final(self).plan() == old(self).plan(),
            (match r {
                Ok(()) => final(self).trace() == emit(
                    old(self).trace(),
                    ti as int,
                    SinkEvent::RowSep,
                ),
                Err(e) => final(self).trace() == old(self).trace() && e.kind == ErrorKind::Sink,
            }),
            W::infallible() ==> r is Ok,
    {
        let ts = &mut self.tables[ti];
        let r = ts.writer.write_row_separator();
        proof {
            assert(self.plan() =~~= old(self).plan());
            if r is Ok {
                assert(self.trace() =~~= emit(old(self).trace(), ti as int, SinkEvent::RowSep));
            } else {
                assert(self.trace() =~~= old(self).trace());
            }
        }
        r
    }

    /// Sends one column's value header to a table's sink.
    fn sink_value_header(&mut self, ti: usize, c: usize) -> (r: Result<(), Error>)
        requires
            ti < old(self).plan().tables.len(),
            c < old(self).plan().schemas[ti as int].len(),
        ensures
            final(self).plan() == old(self).plan(),
            (match r {
                Ok(()) => final(self).trace() == emit(
                    old(self).trace(),
                    ti as int,
                    SinkEvent::ValueHeader(old(self).plan().schemas[ti as int][c as int]),
                ),
                Err(e) => final(self).trace() == old(self).trace() && e.kind == ErrorKind::Sink,
            }),
            W::infallible() ==> r is Ok,
    {
        let ts = &mut self.tables[ti];
        let r = ts.writer.write_value_header(&ts.schema[c]);
        proof {
            assert(self.plan() =~~= old(self).plan());
            if r is Ok {
                assert(self.trace() =~~= emit(
                    old(self).trace(),
                    ti as int,
                    SinkEvent::ValueHeader(old(self).plan().schemas[ti as int][c as int]),
                ));
            } else {
                assert(self.trace() =~~= old(self).trace());
            }
        }
        r
    }

    /// Sends one value to a table's sink.
    fn sink_value(&mut self, ti: usize, v: &Value) -> (r: Result<(), Error>)
        requires
            ti < old(self).plan().tables.len(),
        ensures
            final(self).plan() == old(self).plan(),
            (match r {
                Ok(()) => final(self).trace() == emit(
                    old(self).trace(),
                    ti as int,
                    SinkEvent::Value(v@),
                ),
                Err(e) => final(self).trace() == old(self).trace() && e.kind == ErrorKind::Sink,
            }),
            W::infallible() ==> r is Ok,
    {
        let ts = &mut self.tables[ti];
        let r = ts.writer.write_value(v);
        proof {
            assert(self.plan() =~~= old(self).plan());
            if r is Ok {
                assert(self.trace() =~~= emit(old(self).trace(), ti as int, SinkEvent::Value(v@)));
            } else {
                assert(self.trace() =~~= old(self).trace());
            }
        }
        r
    }

    /// Sends one value separator to a table's sink.
    fn sink_value_sep(&mut self, ti: usize) -> (r: Result<(), Error>)
        requires
            ti < old(self).plan().tables.len(),
        ensures
            final(self).plan() == old(self).plan(),
            (match r {
                Ok(()) => final(self).trace() == emit(
                    old(self).trace(),
                    ti as int,
                    SinkEvent::ValueSep,
                ),
                Err(e) => final(self).trace() == old(self).trace() && e.kind == ErrorKind::Sink,
            }),
            W::infallible() ==> r is Ok,
    {
        let ts = &mut self.tables[ti];
        let r = ts.writer.write_value_separator();
        proof {
            assert(self.plan() =~~= old(self).plan());
            if r is Ok {
                assert(self.trace() =~~= emit(old(self).trace(), ti as int, SinkEvent::ValueSep));
            } else {
                assert(self.trace() =~~= old(self).trace());
            }
        }
        r
    }

    /// Whether table `j` is reachable from table `i` over derived edges.
    fn reaches(&self, i: usize, j: usize) -> (b: bool)
        requires
            self.wf(),
            i < self.plan().tables.len(),
        ensures
            b == spec_reach(self.plan(), i as int, j as int),
        decreases self.plan().tables.len() - i,
    {
        if i == j {
            return true;
        }
        let dn = self.tables[i].table.derived.len();
        let mut e: usize = 0;
        while e < dn
            invariant
                self.wf(),
                i < self.plan().tables.len(),
                i != j,
                dn == self.plan().tables[i as int].derived.len(),
                e <= dn,
                forall|m: int| 0 <= m < e ==> !spec_reach(
                    self.plan(),
                    (#[trigger] self.plan().tables[i as int].derived[m]).0,
                    j as int,
                ),
            decreases dn - e,
        {
            let child = self.tables[i].table.derived[e].0;
            proof {
                assert(self.plan().tables[i as int].derived[e as int].0 == child as int);
            }
            if self.reaches(child, j) {
                proof {
                    assert(spec_reach(self.plan(), i as int, j as int));
                }
                return true;
            }
            e = e + 1;
        }
        proof {
            assert(!spec_reach(self.plan(), i as int, j as int));
        }
        false
    }

    /// Marks every table reachable from `root` as no longer fresh, so that
    /// a table reached as someone's derived child is not also treated as an
    /// independent root later in the same row event.
    fn mark_descendant_visited(&mut self, root: usize)
        requires
            old(self).wf(),
            root < old(self).plan().tables.len(),
        ensures
            final(self).wf(),
            final(self).plan() == old(self).plan(),
            final(self).trace() == (Trace {
                fresh: Seq::new(
                    old(self).trace().fresh.len(),
                    |j: int| old(self).trace().fresh[j] && !spec_reach(
                        old(self).plan(),
                        root as int,
                        j,
                    ),
                ),
                ..old(self).trace()
            }),
    {
        let n = self.tables.len();
        proof {
            assert(n == old(self).plan().tables.len());
        }
        let mut j: usize = 0;
        while j < n
            invariant
                self.wf(),
                self.plan() == old(self).plan(),
                n == old(self).plan().tables.len(),
                j <= n,
                root < n,
                self.trace().state == old(self).trace().state,
                self.trace().empty == old(self).trace().empty,
                self.trace().logs == old(self).trace().logs,
                self.trace().fresh.len() == n,
                old(self).trace().fresh.len() == n,
                forall|m: int| 0 <= m < j ==> self.trace().fresh[m] == (old(self).trace().fresh[m]
                    && !spec_reach(old(self).plan(), root as int, m)),
                forall|m: int| j <= m < n ==> self.trace().fresh[m] == old(self).trace().fresh[m],
            decreases n - j,
        {
            let hit = self.reaches(root, j);
            if hit {
                self.set_fresh(j, false);
            }
            j = j + 1;
        }
        proof {
            assert(self.trace() =~~= (Trace {
                fresh: Seq::new(
                    old(self).trace().fresh.len(),
                    |m: int| old(self).trace().fresh[m] && !spec_reach(
                        old(self).plan(),
                        root as int,
                        m,
                    ),
                ),
                ..old(self).trace()
            }));
        }
    }

    /// Sends one trailer to a table's sink.
    fn sink_trailer(&mut self, ti: usize) -> (r: Result<(), Error>)
        requires
            ti < old(self).plan().tables.len(),
        ensures
            final(self).plan() == old(self).plan(),
            (match r {
                Ok(()) => final(self).trace() == emit(
                    old(self).trace(),
                    ti as int,
                    SinkEvent::Trailer,
                ),
                Err(e) => final(self).trace() == old(self).trace() && e.kind == ErrorKind::Sink,
            }),
            W::infallible() ==> r is Ok,
    {
        let ts = &mut self.tables[ti];
        let r = ts.writer.write_trailer();
        proof {
            assert(self.plan() =~~= old(self).plan());
            if r is Ok {
                assert(self.trace() =~~= emit(old(self).trace(), ti as int, SinkEvent::Trailer));
            } else {
                assert(self.trace() =~~= old(self).trace());
            }
        }
        r
    }
    /// The row part of one occurrence: open or continue the batch, evaluate
    /// the row expression, and send the column events, exactly as
    /// [`spec_open_row`] describes.
    #[verifier::loop_isolation(false)]
    #[verifier::rlimit(100)]
    fn open_row(&mut self, table_index: usize) -> (r: Result<(), Error>)
        requires
            old(self).wf(),
            table_index < old(self).plan().tables.len(),
        ensures
            final(self).wf(),
            final(self).plan() == old(self).plan(),
            (match r {
                Ok(()) => spec_open_row(old(self).plan(), old(self).trace(), table_index as int)
                    == (Ok::<(), Error>(()), final(self).trace()),
                Err(e) => e.kind == ErrorKind::Sink || spec_open_row(
                    old(self).plan(),
                    old(self).trace(),
                    table_index as int,
                ) == (Err::<(), Error>(e), final(self).trace()),
            }),
            W::infallible() ==> (match r {
                Ok(()) => true,
                Err(e) => spec_open_row(old(self).plan(), old(self).trace(), table_index as int)
                    == (Err::<(), Error>(e), final(self).trace()),
            }),
    {
        let ghost p = self.plan();
        let ghost d = self.trace();
        let ghost i = table_index as int;

        // Step 1: open the batch or separate from the previous row.
        let was_empty = self.tables[table_index].empty;
        proof {
            assert(was_empty == d.empty[i]);
        }
        self.set_empty(table_index, false);
        let head_r = if was_empty {
            self.sink_header(table_index)
        } else {
            self.sink_row_sep(table_index)
        };
        match head_r {
            Ok(()) => {},
            Err(e) => {
                return Err(e);
            },
        }
        let ghost d1 = if d.empty[i] {
            emit(Trace { empty: d.empty.update(i, false), ..d }, i, SinkEvent::Header(p.schemas[i]))
        } else {
            emit(Trace { empty: d.empty.update(i, false), ..d }, i, SinkEvent::RowSep)
        };
        proof {
            assert(self.trace() =~~= d1);
        }

        // Step 2: evaluate the row expression, one value per column.
        let row_len = self.tables[table_index].table.row.len();
        proof {
            assert(row_len == p.tables[i].row.len());
        }
        let mut vals: Vec<Value> = Vec::new();
        proof {
            assert(vals@.map_values(|v: Value| v@) =~= Seq::<ValueV>::empty());
        }
        let mut j: usize = 0;
        while j < row_len
            invariant
                self.wf(),
                self.plan() == p,
                wf_plan(p),
                i == table_index as int,
                0 <= i < p.tables.len(),
                row_len == p.tables[i].row.len(),
                j <= row_len,
                vals@.len() == j,
                self.trace().fresh == d1.fresh,
                self.trace().empty == d1.empty,
                self.trace().logs == d1.logs,
                eval_row_upto(p.tables[i].row, d1.state, j as int) == (
                    Ok::<Seq<ValueV>, Error>(vals@.map_values(|v: Value| v@)),
                    self.trace().state,
                ),
            decreases row_len - j,
        {
            let er = self.tables[table_index].table.row[j].eval(&mut self.state);
            proof {
                assert(self.tables@[i].table@.row[j as int] == p.tables[i].row[j as int]);
            }
            match er {
                Ok(v) => {
                    vals.push(v);
                    proof {
                        assert(vals@.map_values(|v: Value| v@) =~= eval_row_upto(
                            p.tables[i].row,
                            d1.state,
                            j as int + 1,
                        ).0.unwrap());
                    }
                },
                Err(err) => {
                    proof {
                        lemma_eval_row_err(p.tables[i].row, d1.state, j as int + 1, row_len as int);
                        assert(self.trace() =~~= (Trace {
                            state: eval_row_upto(p.tables[i].row, d1.state, row_len as int).1,
                            ..d1
                        }));
                    }
                    return Err(err);
                },
            }
            j = j + 1;
        }
        let ghost rowres = eval_row_upto(p.tables[i].row, d1.state, p.tables[i].row.len() as int);
        let ghost valsv = vals@.map_values(|v: Value| v@);
        let ghost d2 = Trace { state: rowres.1, ..d1 };
        proof {
            assert(rowres.0 == Ok::<Seq<ValueV>, Error>(valsv));
            assert(self.trace() =~~= d2);
        }

        // Step 3: send the column events in schema order.
        let cols_len = self.tables[table_index].schema.len();
        proof {
            assert(cols_len == p.schemas[i].len());
            assert(cols_len == vals@.len());
        }
        let mut c: usize = 0;
        while c < cols_len
            invariant
                self.wf(),
                self.plan() == p,
                wf_plan(p),
                i == table_index as int,
                0 <= i < p.tables.len(),
                cols_len == p.schemas[i].len(),
                cols_len == vals@.len(),
                valsv == vals@.map_values(|v: Value| v@),
                c <= cols_len,
                d2.logs.len() == p.tables.len(),
                self.trace() == emit_all(d2, i, row_events_upto(p.schemas[i], valsv, c as int)),
            decreases cols_len - c,
        {
            if c != 0 {
                match self.sink_value_sep(table_index) {
                    Ok(()) => {},
                    Err(e) => {
                        return Err(e);
                    },
                }
            }
            match self.sink_value_header(table_index, c) {
                Ok(()) => {},
                Err(e) => {
                    return Err(e);
                },
            }
            match self.sink_value(table_index, &vals[c]) {
                Ok(()) => {},
                Err(e) => {
                    return Err(e);
                },
            }
            proof {
                assert(vals@[c as int]@ == valsv[c as int]);
                assert(self.trace().logs[i] =~= emit_all(
                    d2,
                    i,
                    row_events_upto(p.schemas[i], valsv, c as int + 1),
                ).logs[i]);
                assert(self.trace() =~~= emit_all(
                    d2,
                    i,
                    row_events_upto(p.schemas[i], valsv, c as int + 1),
                ));
            }
            c = c + 1;
        }
        let ghost d3 = emit_all(d2, i, row_events_upto(p.schemas[i], valsv, p.schemas[i].len() as int));
        proof {
            assert(self.trace() =~~= d3);
        }
        Ok(())
    }

    /// Occurrences 1 through `k` of child table `child`, each generated
    /// with `sub_row_num` set to its position, exactly as [`spec_children`]
    /// describes.
    #[verifier::loop_isolation(false)]
    #[verifier::rlimit(100)]
    fn run_children(&mut self, child: usize, k: i64) -> (r: Result<(), Error>)
        requires
            old(self).wf(),
            child < old(self).plan().tables.len(),
            k >= 0,
        ensures
            final(self).wf(),
            final(self).plan() == old(self).plan(),
            (match r {
                Ok(()) => spec_children(old(self).plan(), old(self).trace(), child as int, k as int, 1)
                    == (Ok::<(), Error>(()), final(self).trace()),
                Err(e) => e.kind == ErrorKind::Sink || spec_children(
                    old(self).plan(),
                    old(self).trace(),
                    child as int,
                    k as int,
                    1,
                ) == (Err::<(), Error>(e), final(self).trace()),
            }),
            W::infallible() ==> (match r {
                Ok(()) => true,
                Err(e) => spec_children(old(self).plan(), old(self).trace(), child as int, k as int, 1)
                    == (Err::<(), Error>(e), final(self).trace()),
            }),
        decreases old(self).plan().tables.len() - child, 3int,
    {
        let ghost p = self.plan();
        let ghost dv2 = self.trace();
        let mut occ: u64 = 1;
        while occ <= k as u64
            invariant
                self.wf(),
                self.plan() == p,
                1 <= occ,
                occ <= k as u64 + 1,
                spec_children(p, dv2, child as int, k as int, 1) == spec_children(
                    p,
                    self.trace(),
                    child as int,
                    k as int,
                    occ as int,
                ),
            decreases k as u64 + 1 - occ,
        {
            let ghost dbefore = self.trace();
            self.state.sub_row_num = occ;
            proof {
                assert(self.trace() =~~= (Trace {
                    state: State { sub_row_num: occ, ..dbefore.state },
                    ..dbefore
                }));
            }
            let rr = self.write_one_row(child);
            match rr {
                Ok(()) => {},
                Err(err) => {
                    return Err(err);
                },
            }
            occ = occ + 1;
        }
        proof {
            assert(spec_children(p, self.trace(), child as int, k as int, (k + 1) as int)
                == (Ok::<(), Error>(()), self.trace()));
        }
        Ok(())
    }

    /// Runs every derived edge of table `table_index` in declaration order,
    /// exactly as [`spec_edges`] describes.
    #[verifier::loop_isolation(false)]
    #[verifier::rlimit(100)]
    fn run_edges(&mut self, table_index: usize) -> (r: Result<(), Error>)
        requires
            old(self).wf(),
            table_index < old(self).plan().tables.len(),
        ensures
            final(self).wf(),
            final(self).plan() == old(self).plan(),
            (match r {
                Ok(()) => spec_edges(old(self).plan(), old(self).trace(), table_index as int, 0)
                    == (Ok::<(), Error>(()), final(self).trace()),
                Err(e) => e.kind == ErrorKind::Sink || spec_edges(
                    old(self).plan(),
                    old(self).trace(),
                    table_index as int,
                    0,
                ) == (Err::<(), Error>(e), final(self).trace()),
            }),
            W::infallible() ==> (match r {
                Ok(()) => true,
                Err(e) => spec_edges(old(self).plan(), old(self).trace(), table_index as int, 0)
                    == (Err::<(), Error>(e), final(self).trace()),
            }),
        decreases old(self).plan().tables.len() - table_index, 1int,
    {
        let ghost p = self.plan();
        let ghost d3 = self.trace();
        let ghost i = table_index as int;
        let edge_count = self.tables[table_index].table.derived.len();
        proof {
            assert(edge_count == p.tables[i].derived.len());
        }
        let mut e: usize = 0;
        while e < edge_count
            invariant
                self.wf(),
                self.plan() == p,
                wf_plan(p),
                i == table_index as int,
                0 <= i < p.tables.len(),
                edge_count == p.tables[i].derived.len(),
                e <= edge_count,
                spec_edges(p, d3, i, 0) == spec_edges(p, self.trace(), i, e as int),
            decreases edge_count - e,
        {
            let ghost dcur = self.trace();
            let ghost edge = p.tables[i].derived[e as int];
            let child = self.tables[table_index].table.derived[e].0;
            proof {
                assert(edge.0 == child as int);
                assert(i < child < p.tables.len());
            }
            let er = self.tables[table_index].table.derived[e].1.eval(&mut self.state);
            proof {
                assert(self.tables@[i].table@.derived[e as int].1 == edge.1);
                assert(self.trace() =~~= (Trace { state: spec_eval(edge.1, dcur.state).1, ..dcur }));
            }
            let ghost dv2 = Trace { state: spec_eval(edge.1, dcur.state).1, ..dcur };
            let cv = match er {
                Ok(v) => v,
                Err(err) => {
                    return Err(err);
                },
            };
            let k: i64 = match cv {
                Value::Int(x) => {
                    if x >= 0 {
                        x
                    } else {
                        return Err(Error { kind: ErrorKind::InvalidCount, span: self.tables[table_index].table.derived[e].1.span() });
                    }
                },
                _ => {
                    return Err(Error { kind: ErrorKind::InvalidCount, span: self.tables[table_index].table.derived[e].1.span() });
                },
            };
            proof {
                assert(spec_count(cv@) == Some(k as int));
            }
            let rr = self.run_children(child, k);
            match rr {
                Ok(()) => {},
                Err(err) => {
                    return Err(err);
                },
            }
            proof {
                assert(spec_edges(p, dcur, i, e as int) == spec_edges(p, self.trace(), i, e as int + 1));
            }
            e = e + 1;
        }
        proof {
            assert(spec_edges(p, self.trace(), i, edge_count as int) == (Ok::<(), Error>(()), self.trace()));
        }
        Ok(())
    }

    /// Generates one occurrence of the given table and, recursively, of all
    /// its derived children, exactly as [`spec_write_one`] describes.
    fn write_one_row(&mut self, table_index: usize) -> (r: Result<(), Error>)
        requires
            old(self).wf(),
            table_index < old(self).plan().tables.len(),
        ensures
            final(self).wf(),
            final(self).plan() == old(self).plan(),
            (match r {
                Ok(()) => spec_write_one(old(self).plan(), old(self).trace(), table_index as int)
                    == (Ok::<(), Error>(()), final(self).trace()),
                Err(e) => e.kind == ErrorKind::Sink || spec_write_one(
                    old(self).plan(),
                    old(self).trace(),
                    table_index as int,
                ) == (Err::<(), Error>(e), final(self).trace()),
            }),
            W::infallible() ==> (match r {
                Ok(()) => true,
                Err(e) => spec_write_one(old(self).plan(), old(self).trace(), table_index as int)
                    == (Err::<(), Error>(e), final(self).trace()),
            }),
        decreases old(self).plan().tables.len() - table_index, 2int,
    {
        match self.open_row(table_index) {
            Ok(()) => {},
            Err(e) => {
                return Err(e);
            },
        }
        self.run_edges(table_index)
    }

    /// Writes one row event: each table still fresh when the scan reaches
    /// it is generated once as an independent root, its reachable
    /// descendants having been excluded from the scan; afterwards the
    /// shared row counter advances once. The exact effect is
    /// [`spec_write_row`].
    #[verifier::loop_isolation(false)]
    #[verifier::rlimit(100)]
    pub fn write_row(&mut self) -> (r: Result<(), Error>)
        requires
            old(self).wf(),
        ensures
            final(self).wf(),
            final(self).plan() == old(self).plan(),
            (match r {
                Ok(()) => spec_write_row(old(self).plan(), old(self).trace())
                    == (Ok::<(), Error>(()), final(self).trace()),
                Err(e) => e.kind == ErrorKind::Sink || spec_write_row(
                    old(self).plan(),
                    old(self).trace(),
                ) == (Err::<(), Error>(e), final(self).trace()),
            }),
            W::infallible() ==> (match r {
                Ok(()) => true,
                Err(e) => spec_write_row(old(self).plan(), old(self).trace())
                    == (Err::<(), Error>(e), final(self).trace()),
            }),
    {
        let ghost p = self.plan();
        let ghost dd = self.trace();
        let n = self.tables.len();
        proof {
            assert(n == p.tables.len());
        }
        let mut j: usize = 0;
        while j < n
            invariant
                self.wf(),
                self.plan() == p,
                j <= n,
                self.trace().state == dd.state,
                self.trace().empty == dd.empty,
                self.trace().logs == dd.logs,
                self.trace().fresh.len() == n,
                forall|m: int| 0 <= m < j ==> self.trace().fresh[m] == true,
                forall|m: int| j <= m < n ==> self.trace().fresh[m] == dd.fresh[m],
            decreases n - j,
        {
            self.set_fresh(j, true);
            j = j + 1;
        }
        let ghost d0 = Trace { fresh: Seq::new(dd.fresh.len(), |q: int| true), ..dd };
        proof {
            assert(self.trace() =~~= d0);
        }
        let mut i: usize = 0;
        while i < n
            invariant
                self.wf(),
                self.plan() == p,
                i <= n,
                spec_row_loop(p, d0, 0) == spec_row_loop(p, self.trace(), i as int),
            decreases n - i,
        {
            let is_fresh = self.tables[i].fresh;
            proof {
                assert(is_fresh == self.trace().fresh[i as int]);
            }
            if is_fresh {
                let ghost dcur = self.trace();
                self.mark_descendant_visited(i);
                self.state.sub_row_num = 1;
                let ghost d1 = Trace {
                    fresh: Seq::new(
                        dcur.fresh.len(),
                        |q: int| dcur.fresh[q] && !spec_reach(p, i as int, q),
                    ),
                    state: State { sub_row_num: 1, ..dcur.state },
                    ..dcur
                };
                proof {
                    assert(self.trace() =~~= d1);
                }
                let rr = self.write_one_row(i);
                match rr {
                    Ok(()) => {},
                    Err(e) => {
                        return Err(e);
                    },
                }
            }
            i = i + 1;
        }
        proof {
            assert(spec_row_loop(p, self.trace(), n as int) == (Ok::<(), Error>(()), self.trace()));
        }
        let ghost dfin = self.trace();
        self.state.increase_row_num();
        proof {
            assert(self.trace() =~~= (Trace {
                state: State { row_num: u64::wrapping_add(dfin.state.row_num, 1), ..dfin.state },
                ..dfin
            }));
        }
        Ok(())
    }

    /// Concludes the current batch: every table with rows written since
    /// the last trailer receives exactly one trailer, every other table
    /// receives nothing, and all tables start the next batch empty. The
    /// exact effect is [`spec_write_trailer`].
    #[verifier::loop_isolation(false)]
    #[verifier::rlimit(100)]
    pub fn write_trailer(&mut self) -> (r: Result<(), Error>)
        requires
            old(self).wf(),
        ensures
            final(self).wf(),
            final(self).plan() == old(self).plan(),
            (match r {
                Ok(()) => final(self).trace() == spec_write_trailer(old(self).trace()),
                Err(e) => {
                    &&& e.kind == ErrorKind::Sink
                    &&& final(self).trace().state == old(self).trace().state
                    &&& final(self).trace().fresh == old(self).trace().fresh
                    &&& exists|j: int|
                        0 <= j < old(self).plan().tables.len()
                        && !old(self).trace().empty[j]
                        && (#[trigger] final(self).trace().empty[j]) == true
                        && (forall|m: int| 0 <= m <= j ==> final(self).trace().empty[m] == true)
                        && (forall|m: int| j < m < old(self).plan().tables.len()
                            ==> final(self).trace().empty[m] == old(self).trace().empty[m]
                            && final(self).trace().logs[m] == old(self).trace().logs[m])
                        && (forall|m: int| 0 <= m < j ==> final(self).trace().logs[m]
                            == spec_write_trailer(old(self).trace()).logs[m])
                        && final(self).trace().logs[j] == old(self).trace().logs[j]
                },
            }),
            W::infallible() ==> r is Ok,
            (forall|j: int| 0 <= j < old(self).plan().tables.len() ==> old(
                self,
            ).trace().empty[j]) ==> r is Ok,
    {
        let ghost p = self.plan();
        let ghost dd = self.trace();
        let n = self.tables.len();
        let mut i: usize = 0;
        while i < n
            invariant
                self.wf(),
                self.plan() == p,
                i <= n,
                n == p.tables.len(),
                self.trace().state == dd.state,
                self.trace().fresh == dd.fresh,
                self.trace().empty.len() == n,
                self.trace().logs.len() == n,
                forall|m: int| 0 <= m < i ==> self.trace().empty[m] == true,
                forall|m: int| i <= m < n ==> self.trace().empty[m] == dd.empty[m],
                forall|m: int| 0 <= m < i ==> self.trace().logs[m]
                    == spec_write_trailer(dd).logs[m],
                forall|m: int| i <= m < n ==> self.trace().logs[m] == dd.logs[m],
            decreases n - i,
        {
            let was_empty = self.tables[i].empty;
            proof {
                assert(was_empty == self.trace().empty[i as int]);
            }
            self.set_empty(i, true);
            if !was_empty {
                match self.sink_trailer(i) {
                    Ok(()) => {},
                    Err(e) => {
                        proof {
                            let jw = i as int;
                            assert(self.trace().empty[jw] == true);
                            assert(forall|m: int| 0 <= m <= jw ==> self.trace().empty[m] == true);
                            assert(exists|j: int|
                                0 <= j < p.tables.len()
                                && !dd.empty[j]
                                && (#[trigger] self.trace().empty[j]) == true
                                && (forall|m: int| 0 <= m <= j ==> self.trace().empty[m] == true)
                                && (forall|m: int| j < m < p.tables.len()
                                    ==> self.trace().empty[m] == dd.empty[m]
                                    && self.trace().logs[m] == dd.logs[m])
                                && (forall|m: int| 0 <= m < j ==> self.trace().logs[m]
                                    == spec_write_trailer(dd).logs[m])
                                && self.trace().logs[j] == dd.logs[j]);
                        }
                        return Err(e);
                    },
                }
            }
            i = i + 1;
        }
        proof {
            assert(self.trace() =~~= spec_write_trailer(dd));
        }
        Ok(())
    }

    /// Constructs a new row-writing environment over a template set, an
    /// initial generation state, and one fresh sink per table. The template
    /// set is validated here, once: arity mismatches and edges that are out
    /// of bounds or not strictly forward are construction-time errors.
    /// Every sink receives its file header exactly once, here.
    #[verifier::loop_isolation(false)]
    #[verifier::rlimit(100)]
    pub fn new(tables: Vec<Table>, state: State, qualified: bool, sinks: Vec<W>) -> (r: Result<
        Env<W>,
        Error,
    >)
        requires
            forall|i: int| 0 <= i < sinks@.len() ==> (#[trigger] sinks@[i]).events()
                == Seq::<SinkEvent>::empty(),
        ensures
            (match r {
                Ok(env) => {
                    &&& env.wf()
                    &&& sinks@.len() == tables@.len()
                    &&& templates_wf(tables@.map_values(|t: Table| t@))
                    &&& env.plan().tables == tables@.map_values(|t: Table| t@)
                    &&& env.plan().schemas == tables@.map_values(
                        |t: Table| spec_schema(t@, qualified),
                    )
                    &&& env.trace() == (Trace {
                        state: state,
                        fresh: Seq::new(tables@.len(), |j: int| true),
                        empty: Seq::new(tables@.len(), |j: int| true),
                        logs: Seq::new(
                            tables@.len(),
                            |j: int| seq![SinkEvent::FileHeader(spec_schema(tables@[j]@, qualified))],
                        ),
                    })
                },
                Err(e) => {
                    &&& (e.kind == ErrorKind::SinkMismatch || e.kind == ErrorKind::ArityMismatch
                        || e.kind == ErrorKind::InvalidChildIndex
                        || e.kind == ErrorKind::CyclicDerivation || e.kind == ErrorKind::Sink)
                    &&& (e.kind == ErrorKind::SinkMismatch ==> sinks@.len() != tables@.len())
                    &&& (e.kind != ErrorKind::Sink ==> !(sinks@.len() == tables@.len()
                        && templates_wf(tables@.map_values(|t: Table| t@))))
                },
            }),
            (W::infallible() && sinks@.len() == tables@.len() && templates_wf(
                tables@.map_values(|t: Table| t@),
            )) ==> r is Ok,
    {
        let n = tables.len();
        if sinks.len() != n {
            return Err(Error { kind: ErrorKind::SinkMismatch, span: Span { pos: 0 } });
        }
        let ghost tviews = tables@.map_values(|t: Table| t@);
        let mut i: usize = 0;
        while i < n
            invariant
                i <= n,
                n == tables@.len(),
                forall|m: int| 0 <= m < i ==> (#[trigger] tviews[m]).row.len()
                    == tviews[m].columns.len(),
                forall|m: int, e: int| 0 <= m < i && 0 <= e < tviews[m].derived.len()
                    ==> m < (#[trigger] tviews[m].derived[e]).0 < n,
            decreases n - i,
        {
            if tables[i].row.len() != tables[i].columns.len() {
                return Err(Error { kind: ErrorKind::ArityMismatch, span: Span { pos: i as u64 } });
            }
            let dn = tables[i].derived.len();
            let mut e: usize = 0;
            while e < dn
                invariant
                    i < n,
                    n == tables@.len(),
                    e <= dn,
                    dn == tviews[i as int].derived.len(),
                    forall|q: int| 0 <= q < e ==> i < (#[trigger] tviews[i as int].derived[q]).0 < n,
                decreases dn - e,
            {
                let c = tables[i].derived[e].0;
                proof {
                    assert(tviews[i as int].derived[e as int].0 == c as int);
                }
                if c >= n {
                    return Err(Error {
                        kind: ErrorKind::InvalidChildIndex,
                        span: Span { pos: i as u64 },
                    });
                }
                if c <= i {
                    return Err(Error {
                        kind: ErrorKind::CyclicDerivation,
                        span: Span { pos: i as u64 },
                    });
                }
                e = e + 1;
            }
            i = i + 1;
        }
        proof {
            assert(templates_wf(tviews));
        }
        let mut tv = tables;
        let mut sv = sinks;
        let ghost tab0 = tv@;
        let ghost s0 = sv@;
        let mut built: Vec<TableState<W>> = Vec::new();
        while tv.len() > 0
            invariant
                built@.len() + tv@.len() == tab0.len(),
                sv@.len() == tv@.len(),
                tv@ == tab0.skip(built@.len() as int),
                sv@ == s0.skip(built@.len() as int),
                forall|m: int| 0 <= m < built@.len() ==> {
                    &&& (#[trigger] built@[m]).table@ == tab0[m]@
                    &&& built@[m].schema@.map_values(|c: String| c@) == spec_schema(
                        tab0[m]@,
                        qualified,
                    )
                    &&& built@[m].writer.events() == seq![
                        SinkEvent::FileHeader(spec_schema(tab0[m]@, qualified)),
                    ]
                    &&& built@[m].fresh == true
                    &&& built@[m].empty == true
                },
            decreases tv.len(),
        {
            let ghost done = built@.len() as int;
            let t = tv.remove(0);
            let mut w = sv.remove(0);
            proof {
                assert(t == tab0[done]);
                assert(w == s0[done]);
                assert(w.events() == Seq::<SinkEvent>::empty());
                assert(tv@ =~= tab0.skip(done + 1));
                assert(sv@ =~= s0.skip(done + 1));
            }
            let schema = t.schema(qualified);
            match w.write_file_header(&schema) {
                Ok(()) => {},
                Err(err) => {
                    return Err(err);
                },
            }
            built.push(TableState { table: t, schema, writer: w, fresh: true, empty: true });
        }
        let env = Env { tables: built, state };
        proof {
            assert(env.plan().tables =~~= tab0.map_values(|t: Table| t@));
            assert(env.plan().schemas =~~= tab0.map_values(|t: Table| spec_schema(t@, qualified)));
            assert(env.trace() =~~= (Trace {
                state: state,
                fresh: Seq::new(tab0.len(), |j: int| true),
                empty: Seq::new(tab0.len(), |j: int| true),
                logs: Seq::new(
                    tab0.len(),
                    |j: int| seq![SinkEvent::FileHeader(spec_schema(tab0[j]@, qualified))],
                ),
            }));
            assert(wf_plan(env.plan()));
        }
        Ok(env)
    }

    /// Read access to the per-table bookkeeping, in template order.
    pub fn tables(&self) -> (r: &Vec<TableState<W>>)
        ensures
            r@.len() == self.plan().tables.len(),
            forall|i: int| 0 <= i < r@.len() ==> (#[trigger] r@[i]).table@ == self.plan().tables[i],
            forall|i: int| 0 <= i < r@.len() ==> (#[trigger] r@[i]).writer.events()
                == self.trace().logs[i],
    {
        &self.tables
    }
}

/// A class of sink events, for counting what a batch received.
pub enum EvClass {
    /// Events that open one row occurrence: a batch header or a row
    /// separator.
    Opening,
    /// Batch headers alone.
    Header,
    /// Row separators alone.
    RowSep,
    /// Batch trailers alone.
    Trailer,
}

/// Whether an event belongs to a class.
pub open spec fn ev_in_class(ev: SinkEvent, c: EvClass) -> bool {
    match c {
        EvClass::Opening => ev is Header || ev is RowSep,
        EvClass::Header => ev is Header,
        EvClass::RowSep => ev is RowSep,
        EvClass::Trailer => ev is Trailer,
    }
}

/// How many events of a class a sink has accepted.
pub open spec fn count_class(log: Seq<SinkEvent>, c: EvClass) -> int
    decreases log.len(),
{
    if log.len() == 0 {
        0
    } else {
        count_class(log.drop_last(), c) + if ev_in_class(log.last(), c) {
            1int
        } else {
            0int
        }
    }
}

/// Counting distributes over concatenation.
proof fn lemma_count_class_concat(a: Seq<SinkEvent>, b: Seq<SinkEvent>, c: EvClass)
    ensures
        count_class(a + b, c) == count_class(a, c) + count_class(b, c),
    decreases b.len(),
{
    if b.len() == 0 {
        assert(a + b =~= a);
    } else {
        assert((a + b).drop_last() =~= a + b.drop_last());
        assert((a + b).last() == b.last());
        lemma_count_class_concat(a, b.drop_last(), c);
    }
}

/// Counting one appended event.
proof fn lemma_count_class_push(a: Seq<SinkEvent>, ev: SinkEvent, c: EvClass)
    ensures
        count_class(a.push(ev), c) == count_class(a, c) + if ev_in_class(ev, c) {
            1int
        } else {
            0int
        },
{
    assert(a.push(ev).drop_last() =~= a);
    assert(a.push(ev).last() == ev);
}

/// Column events open no occurrence and close no batch.
proof fn lemma_row_events_counts(cols: Seq<Seq<char>>, vals: Seq<ValueV>, j: int, c: EvClass)
    requires
        c != EvClass::Opening ==> (c is Header || c is RowSep || c is Trailer),
    ensures
        count_class(row_events_upto(cols, vals, j), c) == 0,
    decreases j,
{
    reveal_with_fuel(count_class, 4);
    if j > 0 {
        lemma_row_events_counts(cols, vals, j - 1, c);
        let sep: Seq<SinkEvent> = if j - 1 > 0 {
            seq![SinkEvent::ValueSep]
        } else {
            Seq::empty()
        };
        let tail = seq![SinkEvent::ValueHeader(cols[j - 1]), SinkEvent::Value(vals[j - 1])];
        lemma_count_class_concat(row_events_upto(cols, vals, j - 1), sep, c);
        lemma_count_class_concat(row_events_upto(cols, vals, j - 1) + sep, tail, c);
        assert(count_class(sep, c) == 0) by {
            if j - 1 > 0 {
                assert(sep.drop_last() =~= Seq::<SinkEvent>::empty());
                assert(sep.last() == SinkEvent::ValueSep);
            }
        }
        assert(count_class(tail, c) == 0) by {
            let th = seq![SinkEvent::ValueHeader(cols[j - 1])];
            assert(tail.drop_last() =~= th);
            assert(tail.last() == SinkEvent::Value(vals[j - 1]));
            assert(th.drop_last() =~= Seq::<SinkEvent>::empty());
            assert(th.last() == SinkEvent::ValueHeader(cols[j - 1]));
        }
    }
}

/// What one occurrence of table `i` does to the counted classes: exactly
/// one opening event on `i`'s own sink — a header when its batch was
/// empty, a row separator otherwise — no trailer anywhere, no change to
/// any table before `i`, and no change to the fresh flags.
proof fn lemma_write_one_counts(p: Plan, d: Trace, i: int)
    requires
        wf_plan(p),
        wf_trace(p, d),
        0 <= i < p.tables.len(),
    ensures
        ({
            let (r, d2) = spec_write_one(p, d, i);
            &&& wf_trace(p, d2)
            &&& d2.fresh == d.fresh
            &&& forall|u: int| 0 <= u < i ==> d2.logs[u] == d.logs[u] && d2.empty[u] == d.empty[u]
            &&& forall|u: int| 0 <= u < p.tables.len() ==> count_class(
                #[trigger] d2.logs[u],
                EvClass::Trailer,
            ) == count_class(d.logs[u], EvClass::Trailer)
            &&& count_class(d2.logs[i], EvClass::Opening) == count_class(d.logs[i], EvClass::Opening) + 1
            &&& count_class(d2.logs[i], EvClass::Header) == count_class(d.logs[i], EvClass::Header)
                + (if d.empty[i] { 1int } else { 0int })
            &&& count_class(d2.logs[i], EvClass::RowSep) == count_class(d.logs[i], EvClass::RowSep)
                + (if d.empty[i] { 0int } else { 1int })
            &&& d2.empty[i] == false
        }),
    decreases p.tables.len() - i, 2int, 0int,
{
    let ev = if d.empty[i] {
        SinkEvent::Header(p.schemas[i])
    } else {
        SinkEvent::RowSep
    };
    let d1 = emit(Trace { empty: d.empty.update(i, false), ..d }, i, ev);
    lemma_count_class_push(d.logs[i], ev, EvClass::Opening);
    lemma_count_class_push(d.logs[i], ev, EvClass::Header);
    lemma_count_class_push(d.logs[i], ev, EvClass::RowSep);
    assert forall|u: int| 0 <= u < p.tables.len() implies count_class(
        #[trigger] d1.logs[u],
        EvClass::Trailer,
    ) == count_class(d.logs[u], EvClass::Trailer) by {
        if u == i {
            lemma_count_class_push(d.logs[i], ev, EvClass::Trailer);
        }
    }
    let arity = p.tables[i].row.len() as int;
    let (rv, s2) = eval_row_upto(p.tables[i].row, d1.state, arity);
    let d2 = Trace { state: s2, ..d1 };
    match rv {
        Err(_) => {},
        Ok(vals) => {
            let evs = row_events_upto(p.schemas[i], vals, p.schemas[i].len() as int);
            let d3 = emit_all(d2, i, evs);
            lemma_count_class_concat(d2.logs[i], evs, EvClass::Opening);
            lemma_count_class_concat(d2.logs[i], evs, EvClass::Header);
            lemma_count_class_concat(d2.logs[i], evs, EvClass::RowSep);
            lemma_row_events_counts(p.schemas[i], vals, p.schemas[i].len() as int, EvClass::Opening);
            lemma_row_events_counts(p.schemas[i], vals, p.schemas[i].len() as int, EvClass::Header);
            lemma_row_events_counts(p.schemas[i], vals, p.schemas[i].len() as int, EvClass::RowSep);
            assert forall|u: int| 0 <= u < p.tables.len() implies count_class(
                #[trigger] d3.logs[u],
                EvClass::Trailer,
            ) == count_class(d2.logs[u], EvClass::Trailer) by {
                if u == i {
                    lemma_count_class_concat(d2.logs[i], evs, EvClass::Trailer);
                    lemma_row_events_counts(
                        p.schemas[i],
                        vals,
                        p.schemas[i].len() as int,
                        EvClass::Trailer,
                    );
                }
            }
            lemma_edges_counts(p, d3, i, 0);
        },
    }
}

/// Running the derived edges of table `i` touches no sink at or before
/// index `i`, appends no trailer anywhere, and keeps the fresh flags.
proof fn lemma_edges_counts(p: Plan, d: Trace, i: int, e: int)
    requires
        wf_plan(p),
        wf_trace(p, d),
        0 <= i < p.tables.len(),
        0 <= e <= p.tables[i].derived.len(),
    ensures
        ({
            let (r, d2) = spec_edges(p, d, i, e);
            &&& wf_trace(p, d2)
            &&& d2.fresh == d.fresh
            &&& forall|u: int| 0 <= u <= i ==> d2.logs[u] == d.logs[u] && d2.empty[u] == d.empty[u]
            &&& forall|u: int| 0 <= u < p.tables.len() ==> count_class(
                #[trigger] d2.logs[u],
                EvClass::Trailer,
            ) == count_class(d.logs[u], EvClass::Trailer)
        }),
    decreases p.tables.len() - i, 1int, p.tables[i].derived.len() - e,
{
    if e < p.tables[i].derived.len() {
        let edge = p.tables[i].derived[e];
        let (rc, s2) = spec_eval(edge.1, d.state);
        let d2 = Trace { state: s2, ..d };
        match rc {
            Err(_) => {},
            Ok(cv) => match spec_count(cv) {
                None => {},
                Some(k) => {
                    lemma_children_counts(p, d2, edge.0, k, 1);
                    let (rk, d3) = spec_children(p, d2, edge.0, k, 1);
                    match rk {
                        Err(_) => {},
                        Ok(()) => {
                            lemma_edges_counts(p, d3, i, e + 1);
                        },
                    }
                },
            },
        }
    }
}

/// Occurrences `r` through `k` of child `c` open exactly `k − r + 1`
/// occurrences on `c`'s sink when they all succeed, touch no sink before
/// `c`, append no trailer anywhere, and keep the fresh flags.
proof fn lemma_children_counts(p: Plan, d: Trace, c: int, k: int, r: int)
    requires
        wf_plan(p),
        wf_trace(p, d),
        0 <= c < p.tables.len(),
        1 <= r,
        r <= k + 1,
    ensures
        ({
            let (res, d2) = spec_children(p, d, c, k, r);
            &&& wf_trace(p, d2)
            &&& d2.fresh == d.fresh
            &&& forall|u: int| 0 <= u < c ==> d2.logs[u] == d.logs[u] && d2.empty[u] == d.empty[u]
            &&& forall|u: int| 0 <= u < p.tables.len() ==> count_class(
                #[trigger] d2.logs[u],
                EvClass::Trailer,
            ) == count_class(d.logs[u], EvClass::Trailer)
            &&& (res is Ok ==> count_class(d2.logs[c], EvClass::Opening) == count_class(
                d.logs[c],
                EvClass::Opening,
            ) + (k - r + 1))
            &&& (res is Ok && r <= k ==> d2.empty[c] == false)
            &&& (res is Ok && r <= k && !d.empty[c] ==> count_class(d2.logs[c], EvClass::Header)
                == count_class(d.logs[c], EvClass::Header) && count_class(
                d2.logs[c],
                EvClass::RowSep,
            ) == count_class(d.logs[c], EvClass::RowSep) + (k - r + 1))
            &&& (res is Ok && r <= k && d.empty[c] ==> count_class(d2.logs[c], EvClass::Header)
                == count_class(d.logs[c], EvClass::Header) + 1 && count_class(
                d2.logs[c],
                EvClass::RowSep,
            ) == count_class(d.logs[c], EvClass::RowSep) + (k - r))
        }),
    decreases p.tables.len() - c, 3int, k - r + 1,
{
    if r <= k {
        let d1 = Trace { state: State { sub_row_num: r as u64, ..d.state }, ..d };
        lemma_write_one_counts(p, d1, c);
        let (r1, d2) = spec_write_one(p, d1, c);
        match r1 {
            Err(_) => {},
            Ok(()) => {
                lemma_children_counts(p, d2, c, k, r + 1);
            },
        }
    }
}

/// Fan-out correctness: when a derived edge's count expression converts
/// to `k`, exactly `k` occurrences of the child are generated — the
/// child's sink accepts exactly `k` occurrence-opening events — and each
/// occurrence runs with `sub_row_num` set to its position, 1 through `k`,
/// as [`spec_children`] sets it. A count of zero generates nothing: no
/// sink receives any event and the whole engine state is unchanged.
pub proof fn lemma_fan_out_correctness(p: Plan, d: Trace, c: int, k: int)
    requires
        wf_plan(p),
        wf_trace(p, d),
        0 <= c < p.tables.len(),
        0 <= k,
    ensures
        ({
            let (res, d2) = spec_children(p, d, c, k, 1);
            &&& (res is Ok ==> count_class(d2.logs[c], EvClass::Opening) == count_class(
                d.logs[c],
                EvClass::Opening,
            ) + k)
            &&& (k == 0 ==> res == Ok::<(), Error>(()) && d2 == d)
        }),
{
    lemma_children_counts(p, d, c, k, 1);
}

/// Batch framing: a table receiving `m ≥ 1` occurrences between two batch
/// closings has exactly one header and `m − 1` row separators appended,
/// and the closing then appends exactly one trailer; a table with no
/// occurrences is skipped by the closing — no header, no trailer.
pub proof fn lemma_batch_framing(p: Plan, d: Trace, t: int, m: int)
    requires
        wf_plan(p),
        wf_trace(p, d),
        0 <= t < p.tables.len(),
        1 <= m,
        d.empty[t],
    ensures
        ({
            let (res, d2) = spec_children(p, d, t, m, 1);
            res is Ok ==> {
                &&& count_class(d2.logs[t], EvClass::Header) == count_class(
                    d.logs[t],
                    EvClass::Header,
                ) + 1
                &&& count_class(d2.logs[t], EvClass::RowSep) == count_class(
                    d.logs[t],
                    EvClass::RowSep,
                ) + (m - 1)
                &&& count_class(spec_write_trailer(d2).logs[t], EvClass::Trailer) == count_class(
                    d.logs[t],
                    EvClass::Trailer,
                ) + 1
            }
        }),
        spec_write_trailer(d).logs[t] == d.logs[t],
{
    lemma_children_counts(p, d, t, m, 1);
    let (res, d2) = spec_children(p, d, t, m, 1);
    if res is Ok {
        lemma_count_class_push(d2.logs[t], SinkEvent::Trailer, EvClass::Trailer);
    }
}

/// The per-event root selection as a pure fold: every table starts fresh;
/// each table still fresh at its turn becomes a root and unmarks
/// everything it reaches.
pub open spec fn fresh_after(p: Plan, i: int) -> Seq<bool>
    decreases i,
{
    if i <= 0 {
        Seq::new(p.tables.len(), |j: int| true)
    } else {
        let f = fresh_after(p, i - 1);
        if f[i - 1] {
            Seq::new(f.len(), |j: int| f[j] && !spec_reach(p, i - 1, j))
        } else {
            f
        }
    }
}

/// Whether table `i` acts as an independent root in one row event.
pub open spec fn is_root(p: Plan, i: int) -> bool {
    fresh_after(p, i)[i]
}

/// A table is still fresh at step `i` exactly when no root chosen before
/// `i` reaches it.
proof fn lemma_fresh_after_char(p: Plan, i: int, j: int)
    requires
        wf_plan(p),
        0 <= i <= p.tables.len(),
        0 <= j < p.tables.len(),
    ensures
        fresh_after(p, i).len() == p.tables.len(),
        fresh_after(p, i)[j] <==> (forall|r: int| 0 <= r < i ==> !(#[trigger] is_root(p, r)
            && spec_reach(p, r, j))),
    decreases i,
{
    if i > 0 {
        lemma_fresh_after_char(p, i - 1, j);
        let f = fresh_after(p, i - 1);
        if f[i - 1] {
            assert(fresh_after(p, i)[j] == (f[j] && !spec_reach(p, i - 1, j)));
            if fresh_after(p, i)[j] {
                assert forall|r: int| 0 <= r < i implies !(#[trigger] is_root(p, r)
                    && spec_reach(p, r, j)) by {
                    if r < i - 1 {
                        assert(f[j]);
                    }
                }
            } else {
                if !f[j] {
                    let r0 = choose|r: int|
                        0 <= r < i - 1 && #[trigger] is_root(p, r) && spec_reach(p, r, j);
                    assert(is_root(p, r0) && spec_reach(p, r0, j) && 0 <= r0 < i);
                } else {
                    assert(is_root(p, i - 1) && spec_reach(p, i - 1, j));
                }
            }
        } else {
            assert(fresh_after(p, i) == f);
            assert(!is_root(p, i - 1));
            if f[j] {
                assert forall|r: int| 0 <= r < i implies !(#[trigger] is_root(p, r)
                    && spec_reach(p, r, j)) by {
                }
            } else {
                let r0 = choose|r: int|
                    0 <= r < i - 1 && #[trigger] is_root(p, r) && spec_reach(p, r, j);
                assert(is_root(p, r0) && spec_reach(p, r0, j) && 0 <= r0 < i);
            }
        }
    }
}

/// Reachability over derived edges only runs toward larger indices.
proof fn lemma_reach_forward(p: Plan, i: int, j: int)
    requires
        wf_plan(p),
        0 <= i < p.tables.len(),
        spec_reach(p, i, j),
        i != j,
    ensures
        j > i,
    decreases p.tables.len() - i,
{
    let e = choose|e: int|
        0 <= e < p.tables[i].derived.len() && spec_reach(p, p.tables[i].derived[e].0, j);
    let c = p.tables[i].derived[e].0;
    if c != j {
        lemma_reach_forward(p, c, j);
    }
}

/// Visitation completeness and uniqueness: in one row event, over any
/// template forest the constructor accepts, every table is handled through
/// exactly one role — it is a root, or some root strictly before it
/// reaches it as a derived descendant, never neither; and no root is
/// reachable from any other root, so no table is generated both as a root
/// and as another root's descendant.
pub proof fn lemma_visitation(p: Plan, j: int)
    requires
        wf_plan(p),
        0 <= j < p.tables.len(),
    ensures
        is_root(p, j) || exists|r: int|
            0 <= r < j && #[trigger] is_root(p, r) && spec_reach(p, r, j),
        is_root(p, j) ==> forall|r: int| 0 <= r < p.tables.len() && #[trigger] is_root(p, r)
            && r != j ==> !spec_reach(p, r, j),
{
    lemma_fresh_after_char(p, j, j);
    if is_root(p, j) {
        assert forall|r: int| 0 <= r < p.tables.len() && #[trigger] is_root(p, r) && r != j
            implies !spec_reach(p, r, j) by {
            if r > j {
                if spec_reach(p, r, j) {
                    lemma_reach_forward(p, r, j);
                }
            }
        }
    }
}

/// The engine's root scan follows the pure fold exactly: entering the scan
/// at table `i` with the fresh flags at `fresh_after(p, i)`, each later
/// table is generated as a root precisely when `is_root` holds of it, and
/// the scan leaves the fresh flags at `fresh_after` of the end.
pub proof fn lemma_row_loop_roots(p: Plan, d: Trace, i: int)
    requires
        wf_plan(p),
        wf_trace(p, d),
        0 <= i <= p.tables.len(),
        d.fresh == fresh_after(p, i),
    ensures
        ({
            let (r, d2) = spec_row_loop(p, d, i);
            r is Ok ==> d2.fresh == fresh_after(p, p.tables.len() as int)
        }),
    decreases p.tables.len() + 1, 0int, p.tables.len() - i,
{
    let n = p.tables.len() as int;
    if i < n {
        lemma_fresh_after_char(p, i, i);
        if d.fresh[i] {
            let d1 = Trace {
                fresh: Seq::new(d.fresh.len(), |q: int| d.fresh[q] && !spec_reach(p, i, q)),
                state: State { sub_row_num: 1, ..d.state },
                ..d
            };
            assert(d1.fresh =~= fresh_after(p, i + 1));
            lemma_write_one_counts(p, d1, i);
            let (r1, d2) = spec_write_one(p, d1, i);
            match r1 {
                Err(_) => {},
                Ok(()) => {
                    lemma_row_loop_roots(p, d2, i + 1);
                },
            }
        } else {
            assert(fresh_after(p, i + 1) =~= fresh_after(p, i));
            lemma_row_loop_roots(p, d, i + 1);
        }
    }
}

/// Determinism: for identical table templates and identical initial
/// generation state, two full generation runs produce identical event
/// sequences on every sink — the same values, the same header, separator
/// and trailer placement — and so, through any sink whose bytes are a
/// function of its events, byte-identical output.
pub proof fn lemma_determinism(p1: Plan, d1: Trace, p2: Plan, d2: Trace, rows: nat)
    requires
        p1 == p2,
        d1 == d2,
    ensures
        spec_run(p1, d1, rows) == spec_run(p2, d2, rows),
        spec_write_trailer(spec_run(p1, d1, rows).1) == spec_write_trailer(spec_run(p2, d2, rows).1),
{
}

/// Evaluation of a row stops at its first error: every longer prefix
/// produces the same error and the same state.
proof fn lemma_eval_row_err(row: Seq<ExprV>, s: State, j: int, m: int)
    requires
        0 <= j <= m,
        eval_row_upto(row, s, j).0 is Err,
    ensures
        eval_row_upto(row, s, m) == eval_row_upto(row, s, j),
    decreases m - j,
{
    if j < m {
        lemma_eval_row_err(row, s, j, m - 1);
    }
}

} // verus!
