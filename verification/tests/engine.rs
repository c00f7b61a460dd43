use dbgen::error::{ErrorKind, Span};
use dbgen::eval::{Expr, State};
use dbgen::sink::ByteSink;
use dbgen::table::Table;
use dbgen::value::Value;
use dbgen::writer::Env;

fn sp() -> Span {
    Span { pos: 0 }
}

fn orders_forest() -> Vec<Table> {
    let orders = Table {
        name: "orders".to_owned(),
        columns: vec!["a".to_owned(), "b".to_owned()],
        row: vec![
            Expr::Constant(sp(), Value::Int(7)),
            Expr::Constant(sp(), Value::Text("x".to_owned())),
        ],
        derived: vec![(1, Expr::Constant(sp(), Value::Int(2)))],
    };
    let order_items = Table {
        name: "order_items".to_owned(),
        columns: vec!["c".to_owned()],
        row: vec![Expr::SubRowNum(sp())],
        derived: vec![],
    };
    vec![orders, order_items]
}

fn run_once(tables: Vec<Table>, rows: usize) -> Vec<Vec<u8>> {
    let n = tables.len();
    let mut sinks = Vec::new();
    for _ in 0..n {
        sinks.push(ByteSink::new());
    }
    let mut env = Env::new(tables, State::new(42), false, sinks).unwrap();
    for _ in 0..rows {
        env.write_row().unwrap();
    }
    env.write_trailer().unwrap();
    let mut out = Vec::new();
    for ts in env.tables().iter() {
        out.push(ts.writer.to_bytes());
    }
    out
}

#[test]
fn fan_out_two_items_per_order() {
    let out = run_once(orders_forest(), 1);
    assert_eq!(out[0], b"a,b\n[\na=7,b=x]\n".to_vec());
    assert_eq!(out[1], b"c\n[\nc=1\nc=2]\n".to_vec());
}

#[test]
fn batch_framing_two_rows_one_trailer() {
    let out = run_once(orders_forest(), 2);
    assert_eq!(out[0], b"a,b\n[\na=7,b=x\na=7,b=x]\n".to_vec());
    assert_eq!(out[1], b"c\n[\nc=1\nc=2\nc=1\nc=2]\n".to_vec());
}

#[test]
fn zero_fan_out_writes_nothing_for_child() {
    let parent = Table {
        name: "p".to_owned(),
        columns: vec!["a".to_owned()],
        row: vec![Expr::Constant(sp(), Value::Int(1))],
        derived: vec![(1, Expr::Constant(sp(), Value::Int(0)))],
    };
    let child = Table {
        name: "q".to_owned(),
        columns: vec!["c".to_owned()],
        row: vec![Expr::SubRowNum(sp())],
        derived: vec![],
    };
    let out = run_once(vec![parent, child], 1);
    assert_eq!(out[0], b"a\n[\na=1]\n".to_vec());
    // Only the file header: no batch was opened, so no trailer either.
    assert_eq!(out[1], b"c\n".to_vec());
}

#[test]
fn determinism_two_runs_byte_identical() {
    let a = run_once(orders_forest(), 3);
    let b = run_once(orders_forest(), 3);
    assert_eq!(a, b);
}

#[test]
fn qualified_schema_prefixes_table_name() {
    let t = Table {
        name: "t".to_owned(),
        columns: vec!["a".to_owned(), "b".to_owned()],
        row: vec![
            Expr::Constant(sp(), Value::Int(1)),
            Expr::Constant(sp(), Value::Int(2)),
        ],
        derived: vec![],
    };
    let mut env = Env::new(vec![t], State::new(0), true, vec![ByteSink::new()]).unwrap();
    env.write_row().unwrap();
    env.write_trailer().unwrap();
    let bytes = env.tables()[0].writer.to_bytes();
    assert_eq!(bytes, b"t.a,t.b\n[\nt.a=1,t.b=2]\n".to_vec());
}

#[test]
fn row_num_advances_once_per_event() {
    let t = Table {
        name: "t".to_owned(),
        columns: vec!["r".to_owned()],
        row: vec![Expr::RowNum(sp())],
        derived: vec![],
    };
    let out = run_once(vec![t], 3);
    assert_eq!(out[0], b"r\n[\nr=0\nr=1\nr=2]\n".to_vec());
}

#[test]
fn lex_counter_is_sortable_and_monotone() {
    let t = Table {
        name: "t".to_owned(),
        columns: vec!["k".to_owned()],
        row: vec![Expr::LexCounter(sp())],
        derived: vec![],
    };
    let out = run_once(vec![t], 2);
    assert_eq!(
        out[0],
        b"k\n[\nk=0000000000000000\nk=0000000000000001]\n".to_vec()
    );
}

#[test]
fn negative_fan_out_count_is_fatal() {
    let parent = Table {
        name: "p".to_owned(),
        columns: vec!["a".to_owned()],
        row: vec![Expr::Constant(sp(), Value::Int(1))],
        derived: vec![(1, Expr::Constant(Span { pos: 9 }, Value::Int(-1)))],
    };
    let child = Table {
        name: "q".to_owned(),
        columns: vec!["c".to_owned()],
        row: vec![Expr::SubRowNum(sp())],
        derived: vec![],
    };
    let mut env = Env::new(
        vec![parent, child],
        State::new(0),
        false,
        vec![ByteSink::new(), ByteSink::new()],
    )
    .unwrap();
    let err = env.write_row().unwrap_err();
    assert_eq!(err.kind, ErrorKind::InvalidCount);
    assert_eq!(err.span.pos, 9);
}

#[test]
fn backward_edge_is_a_construction_error() {
    let first = Table {
        name: "a".to_owned(),
        columns: vec!["x".to_owned()],
        row: vec![Expr::Constant(sp(), Value::Int(1))],
        derived: vec![],
    };
    let second = Table {
        name: "b".to_owned(),
        columns: vec!["y".to_owned()],
        row: vec![Expr::Constant(sp(), Value::Int(2))],
        derived: vec![(0, Expr::Constant(sp(), Value::Int(1)))],
    };
    let err = match Env::new(
        vec![first, second],
        State::new(0),
        false,
        vec![ByteSink::new(), ByteSink::new()],
    ) {
        Ok(_) => panic!("expected a construction error"),
        Err(e) => e,
    };
    assert_eq!(err.kind, ErrorKind::CyclicDerivation);
}

#[test]
fn arity_mismatch_is_a_construction_error() {
    let t = Table {
        name: "t".to_owned(),
        columns: vec!["a".to_owned(), "b".to_owned()],
        row: vec![Expr::Constant(sp(), Value::Int(1))],
        derived: vec![],
    };
    let err = match Env::new(vec![t], State::new(0), false, vec![ByteSink::new()]) {
        Ok(_) => panic!("expected a construction error"),
        Err(e) => e,
    };
    assert_eq!(err.kind, ErrorKind::ArityMismatch);
}

#[test]
fn out_of_bounds_edge_is_a_construction_error() {
    let t = Table {
        name: "t".to_owned(),
        columns: vec!["a".to_owned()],
        row: vec![Expr::Constant(sp(), Value::Int(1))],
        derived: vec![(5, Expr::Constant(sp(), Value::Int(1)))],
    };
    let err = match Env::new(vec![t], State::new(0), false, vec![ByteSink::new()]) {
        Ok(_) => panic!("expected a construction error"),
        Err(e) => e,
    };
    assert_eq!(err.kind, ErrorKind::InvalidChildIndex);
}

#[test]
fn evaluator_add_and_overflow() {
    let mut state = State::new(0);
    let e = Expr::Add(
        sp(),
        Box::new(Expr::Constant(sp(), Value::Int(40))),
        Box::new(Expr::Constant(sp(), Value::Int(2))),
    );
    match e.eval(&mut state).unwrap() {
        Value::Int(v) => assert_eq!(v, 42),
        _ => panic!("expected an integer"),
    }
    let big = Expr::Add(
        Span { pos: 3 },
        Box::new(Expr::Constant(sp(), Value::Int(i64::MAX))),
        Box::new(Expr::Constant(sp(), Value::Int(1))),
    );
    let err = big.eval(&mut state).unwrap_err();
    assert_eq!(err.kind, ErrorKind::IntegerOverflow);
    assert_eq!(err.span.pos, 3);
}

#[test]
fn evaluator_rand_int_is_deterministic_and_in_range() {
    let mut s1 = State::new(7);
    let mut s2 = State::new(7);
    let e = Expr::RandInt(sp(), 10, 20);
    let v1 = e.eval(&mut s1).unwrap();
    let v2 = e.eval(&mut s2).unwrap();
    match (v1, v2) {
        (Value::Int(a), Value::Int(b)) => {
            assert_eq!(a, b);
            assert!((10..=20).contains(&a));
        }
        _ => panic!("expected integers"),
    }
    let bad = Expr::RandInt(sp(), 20, 10);
    assert_eq!(
        bad.eval(&mut s1).unwrap_err().kind,
        ErrorKind::InvalidArguments
    );
}

#[test]
fn evaluator_concat_type_mismatch() {
    let mut state = State::new(0);
    let e = Expr::Concat(
        sp(),
        Box::new(Expr::Constant(sp(), Value::Text("ab".to_owned()))),
        Box::new(Expr::Constant(sp(), Value::Int(1))),
    );
    assert_eq!(e.eval(&mut state).unwrap_err().kind, ErrorKind::TypeMismatch);
}

#[test]
fn sink_count_mismatch_is_a_construction_error() {
    let t = Table {
        name: "t".to_owned(),
        columns: vec!["a".to_owned()],
        row: vec![Expr::Constant(sp(), Value::Int(1))],
        derived: vec![],
    };
    let err = match Env::<ByteSink>::new(vec![t], State::new(0), false, vec![]) {
        Ok(_) => panic!("expected a construction error"),
        Err(e) => e,
    };
    assert_eq!(err.kind, ErrorKind::SinkMismatch);
}
