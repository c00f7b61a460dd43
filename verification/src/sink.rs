//! A sink that serializes row output into an in-memory byte buffer. It is
//! the sink the virtual object store drives when it regenerates an object's
//! content on demand: the bytes it produces are a pure function of the
//! events it accepts, which makes regeneration byte-identical on every run.

use vstd::prelude::*;
use vstd::utf8::encode_utf8;
use crate::error::Error;
use crate::value::{Value, ValueV};
use crate::writer::{SinkEvent, Writer};

verus! {

/// The decimal digits of a number, most significant first.
pub open spec fn dec_bytes(n: nat) -> Seq<u8>
    decreases n,
{
    if n < 10 {
        seq![(48 + n) as u8]
    } else {
        dec_bytes(n / 10).push((48 + n % 10) as u8)
    }
}

/// The decimal rendering of a signed number: a minus sign, if negative,
/// then its digits.
pub open spec fn dec_bytes_int(v: int) -> Seq<u8> {
    if v < 0 {
        seq![45u8] + dec_bytes((-v) as nat)
    } else {
        dec_bytes(v as nat)
    }
}

/// The byte rendering of one value: `NULL` for the absent value, decimal
/// digits for numbers, UTF-8 for text, raw bytes for byte sequences.
pub open spec fn render_value(v: ValueV) -> Seq<u8> {
    match v {
        ValueV::Null => seq![78u8, 85u8, 76u8, 76u8],
        ValueV::Int(i) => dec_bytes_int(i),
        ValueV::Text(s) => encode_utf8(s),
        ValueV::Bytes(b) => b,
        ValueV::Timestamp(t) => dec_bytes_int(t),
    }
}

/// The first `j` column names joined with commas.
pub open spec fn join_names(cols: Seq<Seq<char>>, j: int) -> Seq<u8>
    decreases j,
{
    if j <= 0 {
        Seq::empty()
    } else {
        join_names(cols, j - 1) + (if j - 1 > 0 {
            seq![44u8]
        } else {
            Seq::empty()
        }) + encode_utf8(cols[j - 1])
    }
}

/// The bytes this sink appends for one event.
pub open spec fn render_event(ev: SinkEvent) -> Seq<u8> {
    match ev {
        SinkEvent::FileHeader(schema) => join_names(schema, schema.len() as int) + seq![10u8],
        SinkEvent::Header(_) => seq![91u8, 10u8],
        SinkEvent::ValueHeader(c) => encode_utf8(c) + seq![61u8],
        SinkEvent::Value(v) => render_value(v),
        SinkEvent::ValueSep => seq![44u8],
        SinkEvent::RowSep => seq![10u8],
        SinkEvent::Trailer => seq![93u8, 10u8],
    }
}

/// The bytes this sink holds after accepting a sequence of events.
pub open spec fn render_log(evs: Seq<SinkEvent>) -> Seq<u8>
    decreases evs.len(),
{
    if evs.len() == 0 {
        Seq::empty()
    } else {
        render_log(evs.drop_last()) + render_event(evs.last())
    }
}

/// Appends the decimal digits of `n` to a byte buffer.
fn push_dec(n: u64, out: &mut Vec<u8>)
    ensures
        final(out)@ == old(out)@ + dec_bytes(n as nat),
    decreases n,
{
    if n < 10 {
        out.push(48 + n as u8);
        proof {
            assert(final(out)@ =~= old(out)@ + dec_bytes(n as nat));
        }
    } else {
        push_dec(n / 10, out);
        out.push(48 + (n % 10) as u8);
        proof {
            assert(final(out)@ =~= old(out)@ + dec_bytes(n as nat));
        }
    }
}

/// Appends the decimal rendering of a signed number to a byte buffer.
fn push_i64(v: i64, out: &mut Vec<u8>)
    ensures
        final(out)@ == old(out)@ + dec_bytes_int(v as int),
{
    if v < 0 {
        out.push(45);
        let mag: u64 = if v == i64::MIN {
            9223372036854775808u64
        } else {
            (-v) as u64
        };
        push_dec(mag, out);
        proof {
            assert(final(out)@ =~= old(out)@ + dec_bytes_int(v as int));
        }
    } else {
        push_dec(v as u64, out);
    }
}

/// A sink that renders every event into an owned byte buffer.
pub struct ByteSink {
    buf: Vec<u8>,
    log: Ghost<Seq<SinkEvent>>,
}

impl ByteSink {
    /// The bytes rendered so far.
    pub closed spec fn bytes(&self) -> Seq<u8> {
        self.buf@
    }

    /// The buffer always holds exactly the rendering of the accepted events.
    #[verifier::type_invariant]
    pub closed spec fn inv(&self) -> bool {
        self.buf@ == render_log(self.log@)
    }

    /// A fresh sink with no events accepted and no bytes rendered.
    pub fn new() -> (r: ByteSink)
        ensures
            r.events() == Seq::<SinkEvent>::empty(),
            r.bytes() == Seq::<u8>::empty(),
    {
        let r = ByteSink { buf: Vec::new(), log: Ghost(Seq::empty()) };
        proof {
            assert(render_log(Seq::<SinkEvent>::empty()) =~= Seq::<u8>::empty());
        }
        r
    }

    /// The rendered bytes, as a copy of the buffer.
    pub fn to_bytes(&self) -> (r: Vec<u8>)
        ensures
            r@ == self.bytes(),
            self.bytes() == render_log(self.events()),
    {
        proof {
            use_type_invariant(self);
        }
        let mut out: Vec<u8> = Vec::new();
        push_all(&mut out, self.buf.as_slice());
        proof {
            assert(out@ =~= self.buf@);
        }
        out
    }

    /// Appends one event's rendering and records the event.
    fn accept(&mut self, ev: Ghost<SinkEvent>, bytes: &[u8])
        requires
            bytes@ == render_event(ev@),
        ensures
            final(self).events() == old(self).events().push(ev@),
            final(self).bytes() == old(self).bytes() + bytes@,
    {
        proof {
            use_type_invariant(&*self);
        }
        let mut tmp = ByteSink::new();
        core::mem::swap(self, &mut tmp);
        let ByteSink { mut buf, log } = tmp;
        push_all(&mut buf, bytes);
        let ghost newlog = log@.push(ev@);
        proof {
            assert(newlog.drop_last() =~= log@);
            assert(buf@ =~= render_log(newlog));
        }
        *self = ByteSink { buf, log: Ghost(newlog) };
    }
}

/// Appends every byte of a slice to a buffer.
fn push_all(out: &mut Vec<u8>, bytes: &[u8])
    ensures
        final(out)@ == old(out)@ + bytes@,
{
    let mut i: usize = 0;
    while i < bytes.len()
        invariant
            i <= bytes@.len(),
            out@ == old(out)@ + bytes@.take(i as int),
        decreases bytes@.len() - i,
    {
        out.push(bytes[i]);
        proof {
            assert(out@ =~= old(out)@ + bytes@.take(i as int + 1));
        }
        i = i + 1;
    }
    proof {
        assert(old(out)@ + bytes@.take(bytes@.len() as int) =~= old(out)@ + bytes@);
    }
}

/// Appends the UTF-8 bytes of a string slice to a buffer.
pub fn push_str_bytes(out: &mut Vec<u8>, s: &str)
    ensures
        final(out)@ == old(out)@ + encode_utf8(s@),
{
    push_all(out, s.as_bytes());
}

impl Writer for ByteSink {
    closed spec fn events(&self) -> Seq<SinkEvent> {
        self.log@
    }

    open spec fn infallible() -> bool {
        true
    }

    fn write_file_header(&mut self, schema: &Vec<String>) -> (r: Result<(), Error>) {
        let ghost cols = schema@.map_values(|c: String| c@);
        let mut tmp: Vec<u8> = Vec::new();
        let mut i: usize = 0;
        proof {
            assert(tmp@ =~= join_names(cols, 0));
        }
        while i < schema.len()
            invariant
                i <= schema@.len(),
                cols == schema@.map_values(|c: String| c@),
                tmp@ == join_names(cols, i as int),
            decreases schema@.len() - i,
        {
            if i != 0 {
                tmp.push(44);
            }
            push_str_bytes(&mut tmp, schema[i].as_str());
            proof {
                assert(tmp@ =~= join_names(cols, i as int + 1));
            }
            i = i + 1;
        }
        tmp.push(10);
        proof {
            assert(tmp@ =~= render_event(SinkEvent::FileHeader(cols)));
        }
        self.accept(Ghost(SinkEvent::FileHeader(cols)), tmp.as_slice());
        Ok(())
    }

    fn write_header(&mut self, schema: &Vec<String>) -> (r: Result<(), Error>) {
        let ghost cols = schema@.map_values(|c: String| c@);
        let mut tmp: Vec<u8> = Vec::new();
        tmp.push(91);
        tmp.push(10);
        proof {
            assert(tmp@ =~= render_event(SinkEvent::Header(cols)));
        }
        self.accept(Ghost(SinkEvent::Header(cols)), tmp.as_slice());
        Ok(())
    }

    fn write_value_header(&mut self, column: &String) -> (r: Result<(), Error>) {
        let mut tmp: Vec<u8> = Vec::new();
        push_str_bytes(&mut tmp, column.as_str());
        tmp.push(61);
        proof {
            assert(tmp@ =~= render_event(SinkEvent::ValueHeader(column@)));
        }
        self.accept(Ghost(SinkEvent::ValueHeader(column@)), tmp.as_slice());
        Ok(())
    }

    fn write_value(&mut self, value: &Value) -> (r: Result<(), Error>) {
        let mut tmp: Vec<u8> = Vec::new();
        match value {
            Value::Null => {
                tmp.push(78);
                tmp.push(85);
                tmp.push(76);
                tmp.push(76);
            },
            Value::Int(i) => {
                push_i64(*i, &mut tmp);
            },
            Value::Text(s) => {
                push_str_bytes(&mut tmp, s.as_str());
            },
            Value::Bytes(b) => {
                push_all(&mut tmp, b.as_slice());
            },
            Value::Timestamp(t) => {
                push_i64(*t, &mut tmp);
            },
        }
        proof {
            assert(tmp@ =~= render_event(SinkEvent::Value(value@)));
        }
        self.accept(Ghost(SinkEvent::Value(value@)), tmp.as_slice());
        Ok(())
    }

    fn write_value_separator(&mut self) -> (r: Result<(), Error>) {
        let mut tmp: Vec<u8> = Vec::new();
        tmp.push(44);
        proof {
            assert(tmp@ =~= render_event(SinkEvent::ValueSep));
        }
        self.accept(Ghost(SinkEvent::ValueSep), tmp.as_slice());
        Ok(())
    }

    fn write_row_separator(&mut self) -> (r: Result<(), Error>) {
        let mut tmp: Vec<u8> = Vec::new();
        tmp.push(10);
        proof {
            assert(tmp@ =~= render_event(SinkEvent::RowSep));
        }
        self.accept(Ghost(SinkEvent::RowSep), tmp.as_slice());
        Ok(())
    }

    fn write_trailer(&mut self) -> (r: Result<(), Error>) {
        let mut tmp: Vec<u8> = Vec::new();
        tmp.push(93);
        tmp.push(10);
        proof {
            assert(tmp@ =~= render_event(SinkEvent::Trailer));
        }
        self.accept(Ghost(SinkEvent::Trailer), tmp.as_slice());
        Ok(())
    }
}

} // verus!
