//! The virtual object store: a read-only catalog of named objects served
//! over a storage-style protocol surface. Static objects hold schema text;
//! data objects hold a template descriptor and a captured generation state
//! and are regenerated, byte-identically, on every retrieval.

use vstd::prelude::*;
use vstd::utf8::encode_utf8;
use crate::eval::State;
use crate::sink::{render_log, ByteSink};
use crate::table::{spec_schema, Table, TableT};
use crate::writer::{
    spec_write_row, spec_write_trailer, templates_wf, Env, Plan, SinkEvent, Trace, Writer,
};

verus! {

/// Lexicographic order on byte sequences: the order object names are
/// catalogued in, applied to their UTF-8 encodings.
pub open spec fn bytes_lt(a: Seq<u8>, b: Seq<u8>) -> bool
    decreases a.len(),
{
    if b.len() == 0 {
        false
    } else if a.len() == 0 {
        true
    } else if a[0] < b[0] {
        true
    } else if a[0] > b[0] {
        false
    } else {
        bytes_lt(a.skip(1), b.skip(1))
    }
}

/// Non-strict lexicographic order on byte sequences.
pub open spec fn bytes_le(a: Seq<u8>, b: Seq<u8>) -> bool {
    bytes_lt(a, b) || a == b
}

/// The strict order is irreflexive.
pub proof fn lemma_bytes_lt_irrefl(a: Seq<u8>)
    ensures
        !bytes_lt(a, a),
    decreases a.len(),
{
    if a.len() > 0 {
        lemma_bytes_lt_irrefl(a.skip(1));
    }
}

/// Exactly one of `a < b`, `a == b`, `b < a` holds.
pub proof fn lemma_bytes_trichotomy(a: Seq<u8>, b: Seq<u8>)
    ensures
        bytes_lt(a, b) || a == b || bytes_lt(b, a),
        bytes_lt(a, b) ==> a != b && !bytes_lt(b, a),
        a == b ==> !bytes_lt(a, b) && !bytes_lt(b, a),
    decreases a.len(),
{
    lemma_bytes_lt_irrefl(a);
    lemma_bytes_lt_irrefl(b);
    if a.len() > 0 && b.len() > 0 && a[0] == b[0] {
        lemma_bytes_trichotomy(a.skip(1), b.skip(1));
        if a.skip(1) == b.skip(1) {
            assert(a.len() == b.len());
            assert forall|j: int| 0 <= j < a.len() implies a[j] == b[j] by {
                if j > 0 {
                    assert(a[j] == a.skip(1)[j - 1]);
                    assert(b[j] == b.skip(1)[j - 1]);
                }
            }
            assert(a =~= b);
        }
    } else if b.len() == 0 && a.len() == 0 {
        assert(a =~= b);
    }
}

/// The non-strict order is transitive.
pub proof fn lemma_bytes_le_trans(a: Seq<u8>, b: Seq<u8>, c: Seq<u8>)
    requires
        bytes_le(a, b),
        bytes_le(b, c),
    ensures
        bytes_le(a, c),
{
    if bytes_lt(a, b) && bytes_lt(b, c) {
        lemma_bytes_lt_trans(a, b, c);
    }
}

/// The strict order is transitive.
pub proof fn lemma_bytes_lt_trans(a: Seq<u8>, b: Seq<u8>, c: Seq<u8>)
    requires
        bytes_lt(a, b),
        bytes_lt(b, c),
    ensures
        bytes_lt(a, c),
    decreases a.len(),
{
    if c.len() == 0 {
    } else if b.len() == 0 {
    } else if a.len() == 0 {
    } else {
        if a[0] == b[0] && b[0] == c[0] {
            lemma_bytes_lt_trans(a.skip(1), b.skip(1), c.skip(1));
        }
    }
}

/// A common prefix does not affect the order of what follows it.
proof fn lemma_bytes_lt_common(a: Seq<u8>, b: Seq<u8>, i: int)
    requires
        0 <= i <= a.len(),
        i <= b.len(),
        a.take(i) == b.take(i),
    ensures
        bytes_lt(a, b) == bytes_lt(a.skip(i), b.skip(i)),
    decreases i,
{
    if i > 0 {
        assert forall|j: int| 0 <= j < i implies a[j] == b[j] by {
            assert(a.take(i)[j] == b.take(i)[j]);
            assert(a.take(i)[j] == a[j]);
            assert(b.take(i)[j] == b[j]);
        }
        assert(a[0] == b[0]);
        assert(a.skip(1).take(i - 1) =~= b.skip(1).take(i - 1)) by {
            assert forall|j: int| 0 <= j < i - 1 implies a.skip(1)[j] == b.skip(1)[j] by {
                assert(a.skip(1)[j] == a[j + 1]);
                assert(b.skip(1)[j] == b[j + 1]);
            }
        }
        lemma_bytes_lt_common(a.skip(1), b.skip(1), i - 1);
        assert(a.skip(1).skip(i - 1) =~= a.skip(i));
        assert(b.skip(1).skip(i - 1) =~= b.skip(i));
    } else {
        assert(a.skip(0) =~= a);
        assert(b.skip(0) =~= b);
    }
}

/// Three-way comparison of two byte strings.
#[verifier::loop_isolation(false)]
fn bytes_cmp(a: &[u8], b: &[u8]) -> (r: i8)
    ensures
        (r == -1) <==> bytes_lt(a@, b@),
        (r == 0) <==> a@ == b@,
        (r == 1) <==> bytes_lt(b@, a@),
{
    proof {
        lemma_bytes_trichotomy(a@, b@);
    }
    let alen = a.len();
    let blen = b.len();
    let min: usize = if alen < blen {
        alen
    } else {
        blen
    };
    let mut i: usize = 0;
    while i < min
        invariant
            i <= min,
            min <= a@.len(),
            min <= b@.len(),
            a@.take(i as int) =~= b@.take(i as int),
        decreases min - i,
    {
        if a[i] < b[i] {
            proof {
                lemma_bytes_lt_common(a@, b@, i as int);
                assert(a@.skip(i as int)[0] == a@[i as int]);
                assert(b@.skip(i as int)[0] == b@[i as int]);
                assert(bytes_lt(a@.skip(i as int), b@.skip(i as int)));
                lemma_bytes_trichotomy(a@, b@);
            }
            return -1;
        }
        if a[i] > b[i] {
            proof {
                lemma_bytes_lt_common(b@, a@, i as int);
                assert(a@.skip(i as int)[0] == a@[i as int]);
                assert(b@.skip(i as int)[0] == b@[i as int]);
                assert(bytes_lt(b@.skip(i as int), a@.skip(i as int)));
                lemma_bytes_trichotomy(a@, b@);
            }
            return 1;
        }
        proof {
            assert(a@.take(i as int + 1) =~= b@.take(i as int + 1));
        }
        i = i + 1;
    }
    proof {
        lemma_bytes_lt_common(a@, b@, min as int);
        lemma_bytes_lt_common(b@, a@, min as int);
    }
    if alen == blen {
        proof {
            assert(a@ =~= b@);
        }
        0
    } else if alen < blen {
        -1
    } else {
        1
    }
}

/// A descriptor identifying which table's generated file a data object
/// corresponds to, and how many row events it holds.
#[derive(Clone, Copy, Debug, PartialEq, Eq, Structural)]
pub struct FileInfo {
    /// Index of the table in the template set.
    pub table_index: usize,
    /// Number of row events the object's content holds.
    pub num_rows: usize,
}

/// The content of an object.
#[derive(Debug)]
pub enum ObjectContent {
    /// A schema object. The string is the schema content.
    Schema(String),
    /// A data object. The content is regenerated on demand from the
    /// descriptor and the captured generation state.
    Data(FileInfo, State),
}

/// A object in storage.
#[derive(Debug)]
pub struct Object {
    /// The name of the object.
    pub name: String,
    /// The size of the object.
    pub size: usize,
    /// The content of the object.
    pub content: ObjectContent,
}

/// The mathematical view of an object's content.
pub enum ObjectContentV {
    /// A schema object, as its character sequence.
    Schema(Seq<char>),
    /// A data object: descriptor and captured state.
    Data(FileInfo, State),
}

/// The mathematical view of an [`Object`].
#[verifier::ext_equal]
pub struct ObjectV {
    /// The object's name.
    pub name: Seq<char>,
    /// The object's reported size.
    pub size: int,
    /// The object's content.
    pub content: ObjectContentV,
}

impl View for Object {
    type V = ObjectV;

    open spec fn view(&self) -> ObjectV {
        ObjectV {
            name: self.name@,
            size: self.size as int,
            content: match &self.content {
                ObjectContent::Schema(s) => ObjectContentV::Schema(s@),
                ObjectContent::Data(fi, st) => ObjectContentV::Data(*fi, *st),
            },
        }
    }
}

/// The UTF-8 encoding of an object's name: the key it is catalogued under.
pub open spec fn name_bytes(o: ObjectV) -> Seq<u8> {
    encode_utf8(o.name)
}

/// Whether some object in the catalog has the given encoded name.
pub open spec fn has_name(objs: Seq<ObjectV>, nb: Seq<u8>) -> bool {
    exists|i: int| 0 <= i < objs.len() && name_bytes(#[trigger] objs[i]) == nb
}

/// The catalog order: object names never decrease.
pub open spec fn sorted_by_name(objs: Seq<ObjectV>) -> bool {
    forall|i: int, j: int| 0 <= i < j < objs.len() ==> bytes_le(
        name_bytes(#[trigger] objs[i]),
        name_bytes(#[trigger] objs[j]),
    )
}

/// The catalog order, strictly: names increase, so each name pins exactly
/// one object.
pub open spec fn strictly_sorted_by_name(objs: Seq<ObjectV>) -> bool {
    forall|i: int, j: int| 0 <= i < j < objs.len() ==> bytes_lt(
        name_bytes(#[trigger] objs[i]),
        name_bytes(#[trigger] objs[j]),
    )
}

/// A strictly ordered catalog is in particular ordered.
pub proof fn lemma_strict_implies_sorted(objs: Seq<ObjectV>)
    requires
        strictly_sorted_by_name(objs),
    ensures
        sorted_by_name(objs),
{
}

/// In a strictly ordered catalog a name pins exactly one entry.
pub proof fn lemma_name_pins_entry(objs: Seq<ObjectV>, i: int, j: int)
    requires
        strictly_sorted_by_name(objs),
        0 <= i < objs.len(),
        0 <= j < objs.len(),
        name_bytes(objs[i]) == name_bytes(objs[j]),
    ensures
        i == j,
{
    lemma_bytes_lt_irrefl(name_bytes(objs[i]));
}

/// The error codes of the protocol boundary.
#[derive(Clone, Copy, Debug, PartialEq, Eq, Structural)]
pub enum StoreError {
    /// The requested bucket is not the single configured bucket.
    NoSuchBucket,
    /// The requested key is absent from the catalog.
    NoSuchKey,
    /// The operation is permanently unsupported: the store is read-only.
    NotSupported,
    /// Generation failed while materializing a data object.
    Internal,
}

/// The date an object reports, rendered in the protocol's long date form.
pub uninterp spec fn http_date_chars(t: int) -> Seq<char>;

/// The date an object reports, rendered in the protocol's ISO form.
pub uninterp spec fn iso_date_chars(t: int) -> Seq<char>;

/// Relies on chrono's DateTime::from_timestamp and DateTime::format: the
/// rendering of a timestamp in the long date form depends on the timestamp
/// alone. A timestamp outside chrono's range renders as the empty string.
#[verifier::external_body]
fn format_http_date(secs: i64) -> (r: String)
    ensures
        r@ == http_date_chars(secs as int),
{
    match chrono::DateTime::from_timestamp(secs, 0) {
        Some(dt) => dt.naive_utc().format("%a, %d %b %Y %T GMT").to_string(),
        None => String::new(),
    }
}

/// Relies on chrono's DateTime::from_timestamp and DateTime::format: the
/// rendering of a timestamp in the ISO form depends on the timestamp alone.
/// A timestamp outside chrono's range renders as the empty string.
#[verifier::external_body]
fn format_iso_date(secs: i64) -> (r: String)
    ensures
        r@ == iso_date_chars(secs as int),
{
    match chrono::DateTime::from_timestamp(secs, 0) {
        Some(dt) => dt.naive_utc().format("%Y-%m-%dT%H:%M:%S.000Z").to_string(),
        None => String::new(),
    }
}

/// The immutable part of the engine a storage's data objects regenerate
/// through: its templates and the schemas they present.
pub open spec fn storage_plan(ts: Seq<TableT>, qualified: bool) -> Plan {
    Plan { tables: ts, schemas: ts.map_values(|t: TableT| spec_schema(t, qualified)) }
}

/// The trace a fresh engine starts from: every flag set, and every sink
/// holding exactly its file header.
pub open spec fn initial_trace(ts: Seq<TableT>, qualified: bool, st: State) -> Trace {
    Trace {
        state: st,
        fresh: Seq::new(ts.len(), |j: int| true),
        empty: Seq::new(ts.len(), |j: int| true),
        logs: Seq::new(ts.len(), |j: int| seq![SinkEvent::FileHeader(spec_schema(ts[j], qualified))]),
    }
}

/// The bytes a data object's content regenerates to: the rendering of the
/// named table's sink log after the captured number of row events and one
/// closing trailer, or nothing if the templates are invalid or generation
/// fails.
pub open spec fn spec_object_bytes(ts: Seq<TableT>, qualified: bool, fi: FileInfo, st: State) -> Option<Seq<u8>> {
    if fi.table_index < ts.len() && templates_wf(ts) {
        let p = storage_plan(ts, qualified);
        let (r1, d1) = crate::writer::spec_run(p, initial_trace(ts, qualified, st), fi.num_rows as nat);
        match r1 {
            Err(_) => None,
            Ok(()) => Some(render_log(spec_write_trailer(d1).logs[fi.table_index as int])),
        }
    } else {
        None
    }
}

/// A storage implementation serving the read-only protocol surface.
pub struct Storage {
    tables: Vec<Table>,
    qualified: bool,
    objects: Vec<Object>,
    bucket_name: String,
    current_timestamp: i64,
}

impl Storage {
    /// The template set whose generated files this storage serves.
    pub closed spec fn templates(&self) -> Seq<TableT> {
        self.tables@.map_values(|t: Table| t@)
    }

    /// Whether schemas are presented with qualified column names.
    pub closed spec fn qualified_names(&self) -> bool {
        self.qualified
    }

    /// The catalog of objects, in name order.
    pub closed spec fn catalog(&self) -> Seq<ObjectV> {
        self.objects@.map_values(|o: Object| o@)
    }

    /// The single configured bucket's name.
    pub closed spec fn bucket(&self) -> Seq<char> {
        self.bucket_name@
    }

    /// The fixed catalog-build timestamp every object reports.
    pub closed spec fn timestamp(&self) -> int {
        self.current_timestamp as int
    }

    /// The catalog is always kept strictly sorted by name: the catalog
    /// holds a set of names, each pinning one object.
    pub open spec fn wf(&self) -> bool {
        strictly_sorted_by_name(self.catalog())
    }

    /// Create a new storage. The catalog is sorted here, once, whatever
    /// order the objects arrive in; reads never mutate it again.
    #[verifier::loop_isolation(false)]
    #[verifier::rlimit(100)]
    pub fn new(
        tables: Vec<Table>,
        qualified: bool,
        bucket_name: String,
        objects: Vec<Object>,
        current_timestamp: i64,
    ) -> (r: Storage)
        ensures
            r.wf(),
            r.templates() == tables@.map_values(|t: Table| t@),
            r.qualified_names() == qualified,
            r.bucket() == bucket_name@,
            r.timestamp() == current_timestamp as int,
            r.catalog().len() <= objects@.len(),
            forall|nb: Seq<u8>| has_name(r.catalog(), nb) == has_name(
                objects@.map_values(|o: Object| o@),
                nb,
            ),
    {
        let ghost origv = objects@.map_values(|o: Object| o@);
        let mut rest = objects;
        let mut sorted: Vec<Object> = Vec::new();
        while rest.len() > 0
            invariant
                sorted@.len() + rest@.len() <= origv.len(),
                strictly_sorted_by_name(sorted@.map_values(|o: Object| o@)),
                forall|nb: Seq<u8>| has_name(origv, nb) == (has_name(
                    sorted@.map_values(|o: Object| o@),
                    nb,
                ) || has_name(rest@.map_values(|o: Object| o@), nb)),
            decreases rest.len(),
        {
            let ghost sortedv = sorted@.map_values(|o: Object| o@);
            let ghost restv = rest@.map_values(|o: Object| o@);
            let o = rest.remove(0);
            proof {
                assert(o@ == restv[0]);
                assert(rest@.map_values(|x: Object| x@) =~= restv.skip(1));
                assert forall|nb: Seq<u8>| has_name(restv, nb) == (name_bytes(o@) == nb
                    || has_name(restv.skip(1), nb)) by {
                    if has_name(restv, nb) {
                        let i = choose|i: int| 0 <= i < restv.len() && name_bytes(#[trigger] restv[i]) == nb;
                        if i > 0 {
                            assert(restv.skip(1)[i - 1] == restv[i]);
                        }
                    }
                    if has_name(restv.skip(1), nb) {
                        let i = choose|i: int| 0 <= i < restv.skip(1).len() && name_bytes(
                            #[trigger] restv.skip(1)[i],
                        ) == nb;
                        assert(restv[i + 1] == restv.skip(1)[i]);
                    }
                    if name_bytes(o@) == nb {
                        assert(name_bytes(restv[0]) == nb);
                    }
                }
            }
            let ghost ob = name_bytes(o@);
            let mut pos: usize = 0;
            let mut scanning = true;
            let mut dup = false;
            while scanning && pos < sorted.len()
                invariant
                    pos <= sorted@.len(),
                    forall|m: int| 0 <= m < pos ==> bytes_lt(name_bytes(#[trigger] sortedv[m]), ob),
                    scanning ==> !dup,
                    !scanning ==> pos < sorted@.len() && !bytes_lt(
                        name_bytes(sortedv[pos as int]),
                        ob,
                    ) && (dup <==> name_bytes(sortedv[pos as int]) == ob),
                decreases sorted.len() - pos, (if scanning { 1int } else { 0int }),
            {
                let c = bytes_cmp(
                    sorted[pos].name.as_str().as_bytes(),
                    o.name.as_str().as_bytes(),
                );
                proof {
                    assert(sortedv[pos as int] == sorted@[pos as int]@);
                    assert(name_bytes(sortedv[pos as int]) == encode_utf8(
                        sorted@[pos as int].name@,
                    ));
                }
                if c == 0 {
                    dup = true;
                    scanning = false;
                } else if c != -1 {
                    scanning = false;
                } else {
                    pos = pos + 1;
                }
            }
            if dup {
                // The name is already catalogued: the first object of a
                // name stays, later ones are dropped, keeping names unique.
                proof {
                    assert(has_name(sortedv, ob));
                }
            } else {
                sorted.insert(pos, o);
                proof {
                    let newv = sorted@.map_values(|x: Object| x@);
                    assert(newv =~= sortedv.insert(pos as int, o@));
                    if (pos as int) < sortedv.len() {
                        lemma_bytes_trichotomy(name_bytes(sortedv[pos as int]), ob);
                        assert(bytes_lt(ob, name_bytes(sortedv[pos as int])));
                    }
                    assert forall|i: int, j: int| 0 <= i < j < newv.len() implies bytes_lt(
                        name_bytes(#[trigger] newv[i]),
                        name_bytes(#[trigger] newv[j]),
                    ) by {
                        if i < pos as int {
                            assert(newv[i] == sortedv[i]);
                        } else if i > pos as int {
                            assert(newv[i] == sortedv[i - 1]);
                        } else {
                            assert(newv[i] == o@);
                        }
                        if j < pos as int {
                            assert(newv[j] == sortedv[j]);
                        } else if j > pos as int {
                            assert(newv[j] == sortedv[j - 1]);
                        } else {
                            assert(newv[j] == o@);
                        }
                        if j == pos as int {
                            assert(bytes_lt(name_bytes(sortedv[i]), ob));
                        }
                        if i == pos as int && j > pos as int {
                            if j - 1 > pos as int {
                                lemma_bytes_lt_trans(
                                    ob,
                                    name_bytes(sortedv[pos as int]),
                                    name_bytes(sortedv[j - 1]),
                                );
                            }
                        }
                    }
                    assert forall|nb: Seq<u8>| has_name(newv, nb) == (has_name(sortedv, nb)
                        || name_bytes(o@) == nb) by {
                        if has_name(newv, nb) {
                            let i = choose|i: int| 0 <= i < newv.len() && name_bytes(#[trigger] newv[i]) == nb;
                            if i < pos as int {
                                assert(newv[i] == sortedv[i]);
                            } else if i > pos as int {
                                assert(newv[i] == sortedv[i - 1]);
                            }
                        }
                        if has_name(sortedv, nb) {
                            let i = choose|i: int| 0 <= i < sortedv.len() && name_bytes(
                                #[trigger] sortedv[i],
                            ) == nb;
                            if i < pos as int {
                                assert(newv[i] == sortedv[i]);
                            } else {
                                assert(newv[i + 1] == sortedv[i]);
                            }
                        }
                        if name_bytes(o@) == nb {
                            assert(newv[pos as int] == o@);
                        }
                    }
                }
            }
        }
        let r = Storage { tables, qualified, bucket_name, objects: sorted, current_timestamp };
        proof {
            assert(r.templates() =~= tables@.map_values(|t: Table| t@));
        }
        r
    }

    /// Binary search for a key in the sorted catalog.
    #[verifier::loop_isolation(false)]
    #[verifier::rlimit(50)]
    fn find(&self, key: &str) -> (r: Option<usize>)
        requires
            self.wf(),
        ensures
            (match r {
                Some(i) => i < self.catalog().len() && name_bytes(self.catalog()[i as int])
                    == encode_utf8(key@),
                None => !has_name(self.catalog(), encode_utf8(key@)),
            }),
    {
        let ghost cat = self.catalog();
        let ghost kb = encode_utf8(key@);
        let mut lo: usize = 0;
        let mut hi: usize = self.objects.len();
        while lo < hi
            invariant
                lo <= hi <= cat.len(),
                forall|m: int| 0 <= m < lo ==> bytes_lt(name_bytes(#[trigger] cat[m]), kb),
                forall|m: int| hi <= m < cat.len() ==> bytes_lt(kb, name_bytes(#[trigger] cat[m])),
            decreases hi - lo,
        {
            let mid = lo + (hi - lo) / 2;
            let c = bytes_cmp(self.objects[mid].name.as_str().as_bytes(), key.as_bytes());
            proof {
                assert(cat[mid as int] == self.objects@[mid as int]@);
                lemma_bytes_trichotomy(name_bytes(cat[mid as int]), kb);
            }
            if c == 0 {
                return Some(mid);
            } else if c == -1 {
                proof {
                    assert forall|m: int| 0 <= m < mid + 1 implies bytes_lt(
                        name_bytes(#[trigger] cat[m]),
                        kb,
                    ) by {
                        if m < mid {
                            lemma_bytes_le_trans2(
                                name_bytes(cat[m]),
                                name_bytes(cat[mid as int]),
                                kb,
                            );
                        }
                    }
                }
                lo = mid + 1;
            } else {
                proof {
                    assert forall|m: int| mid <= m < cat.len() implies bytes_lt(
                        kb,
                        name_bytes(#[trigger] cat[m]),
                    ) by {
                        if m > mid {
                            lemma_bytes_lt_le_trans(
                                kb,
                                name_bytes(cat[mid as int]),
                                name_bytes(cat[m]),
                            );
                        }
                    }
                }
                hi = mid;
            }
        }
        proof {
            assert forall|m: int| 0 <= m < cat.len() implies name_bytes(#[trigger] cat[m]) != kb by {
                lemma_bytes_trichotomy(name_bytes(cat[m]), kb);
            }
        }
        None
    }

    /// Succeeds exactly when the requested name is the configured bucket.
    pub fn head_bucket(&self, bucket: &str) -> (r: Result<(), StoreError>)
        ensures
            r is Ok <==> encode_utf8(bucket@) == encode_utf8(self.bucket()),
            r is Err ==> r == Err::<(), StoreError>(StoreError::NoSuchBucket),
    {
        let c = bytes_cmp(bucket.as_bytes(), self.bucket_name.as_str().as_bytes());
        if c == 0 {
            Ok(())
        } else {
            Err(StoreError::NoSuchBucket)
        }
    }

    /// The single configured bucket and the fixed catalog-build date.
    pub fn list_buckets(&self) -> (r: BucketEntry)
        ensures
            r.name@ == self.bucket(),
            r.creation_date@ == iso_date_chars(self.timestamp()),
    {
        BucketEntry {
            name: self.bucket_name.clone(),
            creation_date: format_iso_date(self.current_timestamp),
        }
    }

    /// Reports an object's metadata without materializing its content:
    /// size, the fixed content type, and the fixed catalog-build date.
    pub fn head_object(&self, bucket: &str, key: &str) -> (r: Result<HeadOutput, StoreError>)
        requires
            self.wf(),
        ensures
            (encode_utf8(bucket@) != encode_utf8(self.bucket())) <==> r == Err::<
                HeadOutput,
                StoreError,
            >(StoreError::NoSuchBucket),
            (encode_utf8(bucket@) == encode_utf8(self.bucket()) && !has_name(
                self.catalog(),
                encode_utf8(key@),
            )) <==> r == Err::<HeadOutput, StoreError>(StoreError::NoSuchKey),
            r is Ok <==> (encode_utf8(bucket@) == encode_utf8(self.bucket()) && has_name(
                self.catalog(),
                encode_utf8(key@),
            )),
            (match r {
                Ok(out) => {
                    &&& exists|i: int| 0 <= i < self.catalog().len() && name_bytes(
                        #[trigger] self.catalog()[i],
                    ) == encode_utf8(key@) && out.content_length == self.catalog()[i].size
                    &&& out.content_type@ == "application/octet-stream"@
                    &&& out.last_modified@ == http_date_chars(self.timestamp())
                },
                Err(_) => true,
            }),
    {
        match self.head_bucket(bucket) {
            Ok(()) => {},
            Err(_) => {
                return Err(StoreError::NoSuchBucket);
            },
        }
        let idx = match self.find(key) {
            Some(i) => i,
            None => {
                return Err(StoreError::NoSuchKey);
            },
        };
        proof {
            assert(has_name(self.catalog(), encode_utf8(key@)));
        }
        Ok(HeadOutput {
            content_length: self.objects[idx].size,
            content_type: "application/octet-stream".to_owned(),
            last_modified: format_http_date(self.current_timestamp),
        })
    }

    /// Materializes an object's content: static objects return their stored
    /// payload, data objects are regenerated from their descriptor and
    /// captured state, byte-identically on every retrieval.
    pub fn get_object(&self, bucket: &str, key: &str) -> (r: Result<Vec<u8>, StoreError>)
        requires
            self.wf(),
        ensures
            (encode_utf8(bucket@) != encode_utf8(self.bucket())) <==> r == Err::<
                Vec<u8>,
                StoreError,
            >(StoreError::NoSuchBucket),
            (encode_utf8(bucket@) == encode_utf8(self.bucket()) && !has_name(
                self.catalog(),
                encode_utf8(key@),
            )) <==> r == Err::<Vec<u8>, StoreError>(StoreError::NoSuchKey),
            (match r {
                Ok(out) => exists|i: int| 0 <= i < self.catalog().len() && name_bytes(
                    #[trigger] self.catalog()[i],
                ) == encode_utf8(key@) && (match self.catalog()[i].content {
                    ObjectContentV::Schema(s) => out@ == encode_utf8(s),
                    ObjectContentV::Data(fi, st) => Some(out@) == spec_object_bytes(
                        self.templates(),
                        self.qualified_names(),
                        fi,
                        st,
                    ),
                }),
                Err(e) => e == StoreError::NoSuchBucket || e == StoreError::NoSuchKey || e
                    == StoreError::Internal,
            }),
            (encode_utf8(bucket@) == encode_utf8(self.bucket())) ==> forall|i: int|
                0 <= i < self.catalog().len() && name_bytes(#[trigger] self.catalog()[i])
                    == encode_utf8(key@) ==> (r is Ok <==> (match self.catalog()[i].content {
                    ObjectContentV::Schema(_) => true,
                    ObjectContentV::Data(fi, st) => spec_object_bytes(
                        self.templates(),
                        self.qualified_names(),
                        fi,
                        st,
                    ) is Some,
                })),
    {
        match self.head_bucket(bucket) {
            Ok(()) => {},
            Err(_) => {
                return Err(StoreError::NoSuchBucket);
            },
        }
        let idx = match self.find(key) {
            Some(i) => i,
            None => {
                return Err(StoreError::NoSuchKey);
            },
        };
        proof {
            assert(has_name(self.catalog(), encode_utf8(key@)));
            assert forall|i: int| 0 <= i < self.catalog().len() && name_bytes(
                #[trigger] self.catalog()[i],
            ) == encode_utf8(key@) implies i == idx as int by {
                lemma_name_pins_entry(self.catalog(), i, idx as int);
            }
            assert(self.catalog()[idx as int] == self.objects@[idx as int]@);
        }
        match &self.objects[idx].content {
            ObjectContent::Schema(s) => {
                let mut out: Vec<u8> = Vec::new();
                crate::sink::push_str_bytes(&mut out, s.as_str());
                Ok(out)
            },
            ObjectContent::Data(fi, st) => {
                let fi2 = *fi;
                let st2 = *st;
                match self.generate(fi2, st2) {
                    Ok(bytes) => {
                        proof {
                            assert(self.catalog()[idx as int] == self.objects@[idx as int]@);
                        }
                        Ok(bytes)
                    },
                    Err(e) => Err(e),
                }
            },
        }
    }

    /// Regenerates one data object's bytes by driving the engine over a
    /// copy of the template set with the captured state, through byte
    /// sinks, and taking the named table's buffer.
    #[verifier::loop_isolation(false)]
    #[verifier::rlimit(100)]
    fn generate(&self, fi: FileInfo, st: State) -> (r: Result<Vec<u8>, StoreError>)
        ensures
            (match r {
                Ok(out) => Some(out@) == spec_object_bytes(
                    self.templates(),
                    self.qualified_names(),
                    fi,
                    st,
                ),
                Err(e) => e == StoreError::Internal,
            }),
            r is Ok <==> spec_object_bytes(self.templates(), self.qualified_names(), fi, st)
                is Some,
    {
        let ghost ts = self.templates();
        let ghost p = storage_plan(ts, self.qualified);
        let n = self.tables.len();
        if fi.table_index >= n {
            return Err(StoreError::Internal);
        }
        let mut tcopy: Vec<Table> = Vec::new();
        let mut i: usize = 0;
        while i < n
            invariant
                i <= n,
                tcopy@.len() == i,
                forall|m: int| 0 <= m < i ==> (#[trigger] tcopy@[m])@ == ts[m],
            decreases n - i,
        {
            tcopy.push(self.tables[i].duplicate());
            i = i + 1;
        }
        let mut sinks: Vec<ByteSink> = Vec::new();
        let mut j: usize = 0;
        while j < n
            invariant
                j <= n,
                sinks@.len() == j,
                forall|m: int| 0 <= m < j ==> (#[trigger] sinks@[m]).events()
                    == Seq::<SinkEvent>::empty(),
            decreases n - j,
        {
            sinks.push(ByteSink::new());
            j = j + 1;
        }
        proof {
            assert(tcopy@.map_values(|t: Table| t@) =~= ts);
        }
        let mut env = match Env::<ByteSink>::new(tcopy, st, self.qualified, sinks) {
            Ok(env) => env,
            Err(_) => {
                return Err(StoreError::Internal);
            },
        };
        proof {
            assert(env.plan().tables =~= ts);
            assert(env.plan().schemas =~= storage_plan(ts, self.qualified).schemas);
            assert(env.plan() =~~= p);
            assert(env.trace() =~~= initial_trace(ts, self.qualified, st));
        }
        let ghost d0 = initial_trace(ts, self.qualified, st);
        let rows = fi.num_rows;
        let mut row: usize = 0;
        while row < rows
            invariant
                row <= rows,
                env.wf(),
                env.plan() == p,
                crate::writer::spec_run(p, d0, rows as nat) == crate::writer::spec_run(
                    p,
                    env.trace(),
                    (rows - row) as nat,
                ),
            decreases rows - row,
        {
            match env.write_row() {
                Ok(()) => {},
                Err(_) => {
                    return Err(StoreError::Internal);
                },
            }
            row = row + 1;
        }
        match env.write_trailer() {
            Ok(()) => {},
            Err(_) => {
                return Err(StoreError::Internal);
            },
        }
        let table_states = env.tables();
        let bytes = table_states[fi.table_index].writer.to_bytes();
        proof {
            assert(crate::writer::spec_run(p, env.trace(), 0) == (
                Ok::<(), crate::error::Error>(()),
                env.trace(),
            ));
        }
        Ok(bytes)
    }

    /// A linear scan over the sorted catalog: objects after the exclusive
    /// `marker` cursor that carry the name prefix, up to `max_keys` of
    /// them, each with the fixed date and storage class. When the cap cut
    /// the result short, the truncation flag is set and the continuation
    /// cursor is the last returned name.
    #[verifier::loop_isolation(false)]
    #[verifier::rlimit(100)]
    pub fn list_objects(
        &self,
        bucket: &str,
        marker: Option<&str>,
        prefix: Option<&str>,
        max_keys: Option<usize>,
    ) -> (r: Result<ListOutput, StoreError>)
        ensures
            (encode_utf8(bucket@) != encode_utf8(self.bucket())) <==> r == Err::<
                ListOutput,
                StoreError,
            >(StoreError::NoSuchBucket),
            (match r {
                Ok(out) => list_output_ok(
                    out.contents@,
                    out.is_truncated,
                    self.catalog(),
                    opt_bytes(marker),
                    opt_bytes(prefix),
                    max_keys,
                    self.timestamp(),
                ) && (match out.next_marker {
                    Some(nm) => out.is_truncated && out.contents@.len() > 0 && nm@
                        == out.contents@[out.contents@.len() - 1].key@,
                    None => !out.is_truncated || out.contents@.len() == 0,
                }),
                Err(_) => true,
            }),
            r is Ok <==> encode_utf8(bucket@) == encode_utf8(self.bucket()),
    {
        match self.head_bucket(bucket) {
            Ok(()) => {},
            Err(_) => {
                return Err(StoreError::NoSuchBucket);
            },
        }
        let contents = self.scan(marker, prefix, max_keys);
        let ghost all = spec_matches(
            self.catalog(),
            opt_bytes(marker),
            opt_bytes(prefix),
            self.catalog().len() as int,
        );
        let truncated = match max_keys {
            Some(k) => contents.len() == k && self.more_matches(marker, prefix, k),
            None => false,
        };
        let next_marker = if truncated && contents.len() > 0 {
            Some(contents[contents.len() - 1].key.clone())
        } else {
            None
        };
        proof {
            if max_keys is Some && all.len() > max_keys.unwrap() {
                assert(contents@.len() == max_keys.unwrap());
            }
        }
        Ok(ListOutput { contents, next_marker, is_truncated: truncated })
    }

    /// The second listing form: an exclusive `start_after` cursor, the same
    /// prefix filter and result cap, and a key count in the reply.
    pub fn list_objects_v2(
        &self,
        bucket: &str,
        start_after: Option<&str>,
        prefix: Option<&str>,
        max_keys: Option<usize>,
    ) -> (r: Result<ListV2Output, StoreError>)
        ensures
            (encode_utf8(bucket@) != encode_utf8(self.bucket())) <==> r == Err::<
                ListV2Output,
                StoreError,
            >(StoreError::NoSuchBucket),
            (match r {
                Ok(out) => list_output_ok(
                    out.contents@,
                    out.is_truncated,
                    self.catalog(),
                    opt_bytes(start_after),
                    opt_bytes(prefix),
                    max_keys,
                    self.timestamp(),
                ) && out.key_count == out.contents@.len(),
                Err(_) => true,
            }),
            r is Ok <==> encode_utf8(bucket@) == encode_utf8(self.bucket()),
    {
        match self.head_bucket(bucket) {
            Ok(()) => {},
            Err(_) => {
                return Err(StoreError::NoSuchBucket);
            },
        }
        let contents = self.scan(start_after, prefix, max_keys);
        let truncated = match max_keys {
            Some(k) => contents.len() == k && self.more_matches(start_after, prefix, k),
            None => false,
        };
        let key_count = contents.len();
        Ok(ListV2Output { contents, key_count, is_truncated: truncated })
    }

    /// Collects the summaries of the first `max_keys` objects that pass
    /// the cursor and prefix filters, in catalog order.
    #[verifier::loop_isolation(false)]
    #[verifier::rlimit(100)]
    fn scan(
        &self,
        marker: Option<&str>,
        prefix: Option<&str>,
        max_keys: Option<usize>,
    ) -> (contents: Vec<ObjectSummary>)
        ensures
            list_contents_ok(
                contents@,
                self.catalog(),
                opt_bytes(marker),
                opt_bytes(prefix),
                max_keys,
                self.timestamp(),
            ),
    {
        let ghost mb = opt_bytes(marker);
        let ghost pb = opt_bytes(prefix);
        let date = format_iso_date(self.current_timestamp);
        let mut contents: Vec<ObjectSummary> = Vec::new();
        let n = self.objects.len();
        let mut i: usize = 0;
        while i < n
            invariant
                i <= n,
                n == self.catalog().len(),
                contents@.len() == capped_len(
                    spec_matches(self.catalog(), mb, pb, i as int).len() as int,
                    max_keys,
                ),
                forall|q: int| 0 <= q < contents@.len() ==> summary_ok(
                    #[trigger] contents@[q],
                    spec_matches(self.catalog(), mb, pb, i as int)[q],
                    self.timestamp(),
                ),
            decreases n - i,
        {
            let ghost prev = spec_matches(self.catalog(), mb, pb, i as int);
            let passes = self.object_passes(i, marker, prefix);
            if passes {
                let under_cap = match max_keys {
                    Some(k) => contents.len() < k,
                    None => true,
                };
                if under_cap {
                    contents.push(ObjectSummary {
                        key: self.objects[i].name.clone(),
                        size: self.objects[i].size,
                        last_modified: date.clone(),
                        storage_class: "STANDARD".to_owned(),
                    });
                }
            }
            proof {
                let cur = spec_matches(self.catalog(), mb, pb, i as int + 1);
                if passes {
                    assert(cur == prev.push(self.catalog()[i as int]));
                    assert(self.catalog()[i as int] == self.objects@[i as int]@);
                } else {
                    assert(cur == prev);
                }
                assert forall|q: int| 0 <= q < contents@.len() implies summary_ok(
                    #[trigger] contents@[q],
                    cur[q],
                    self.timestamp(),
                ) by {
                    if q < prev.len() {
                        assert(cur[q] == prev[q]);
                    }
                }
            }
            i = i + 1;
        }
        contents
    }

    /// Whether catalog entry `i` passes the cursor and prefix filters.
    fn object_passes(&self, i: usize, marker: Option<&str>, prefix: Option<&str>) -> (b: bool)
        requires
            i < self.catalog().len(),
        ensures
            b == passes_filters(self.catalog()[i as int], opt_bytes(marker), opt_bytes(prefix)),
    {
        proof {
            assert(self.catalog()[i as int] == self.objects@[i as int]@);
        }
        let name = self.objects[i].name.as_str().as_bytes();
        let marker_ok = match marker {
            Some(m) => {
                let c = bytes_cmp(m.as_bytes(), name);
                c == -1
            },
            None => true,
        };
        let prefix_ok = match prefix {
            Some(pf) => is_prefix(pf.as_bytes(), name),
            None => true,
        };
        marker_ok && prefix_ok
    }

    /// Whether more than `k` objects pass the filters.
    #[verifier::loop_isolation(false)]
    fn more_matches(&self, marker: Option<&str>, prefix: Option<&str>, k: usize) -> (b: bool)
        ensures
            b == (spec_matches(
                self.catalog(),
                opt_bytes(marker),
                opt_bytes(prefix),
                self.catalog().len() as int,
            ).len() > k),
    {
        let ghost mb = opt_bytes(marker);
        let ghost pb = opt_bytes(prefix);
        let n = self.objects.len();
        let mut count: usize = 0;
        let mut i: usize = 0;
        while i < n
            invariant
                i <= n,
                n == self.catalog().len(),
                count <= i,
                count == spec_matches(self.catalog(), mb, pb, i as int).len(),
            decreases n - i,
        {
            if self.object_passes(i, marker, prefix) {
                count = count + 1;
            }
            i = i + 1;
        }
        count > k
    }
}

/// The cursor or prefix as the byte string it filters by.
pub open spec fn opt_bytes(s: Option<&str>) -> Option<Seq<u8>> {
    match s {
        Some(x) => Some(encode_utf8(x@)),
        None => None,
    }
}

/// Whether an object passes the listing filters: its name strictly after
/// the cursor, and carrying the prefix.
pub open spec fn passes_filters(o: ObjectV, marker: Option<Seq<u8>>, prefix: Option<Seq<u8>>) -> bool {
    &&& (match marker {
        Some(m) => bytes_lt(m, name_bytes(o)),
        None => true,
    })
    &&& (match prefix {
        Some(pf) => name_bytes(o).len() >= pf.len() && name_bytes(o).take(pf.len() as int) == pf,
        None => true,
    })
}

/// The objects among the first `j` catalog entries that pass the filters,
/// in catalog order, with no result cap.
pub open spec fn spec_matches(
    objs: Seq<ObjectV>,
    marker: Option<Seq<u8>>,
    prefix: Option<Seq<u8>>,
    j: int,
) -> Seq<ObjectV>
    decreases j,
{
    if j <= 0 {
        Seq::empty()
    } else {
        let prev = spec_matches(objs, marker, prefix, j - 1);
        if passes_filters(objs[j - 1], marker, prefix) {
            prev.push(objs[j - 1])
        } else {
            prev
        }
    }
}

/// A match count cut down to the result cap.
pub open spec fn capped_len(matches: int, max_keys: Option<usize>) -> int {
    match max_keys {
        Some(k) => if matches > k {
            k as int
        } else {
            matches
        },
        None => matches,
    }
}

/// One listed summary reports its object's name and size, the fixed date,
/// and the fixed storage class.
pub open spec fn summary_ok(s: ObjectSummary, o: ObjectV, ts: int) -> bool {
    &&& encode_utf8(s.key@) == name_bytes(o)
    &&& s.size as int == o.size
    &&& s.last_modified@ == iso_date_chars(ts)
    &&& s.storage_class@ == "STANDARD"@
}

/// The contents of a listing reply: the first `max_keys` objects passing
/// the filters, in catalog order, each reported as [`summary_ok`] says.
pub open spec fn list_contents_ok(
    contents: Seq<ObjectSummary>,
    objs: Seq<ObjectV>,
    marker: Option<Seq<u8>>,
    prefix: Option<Seq<u8>>,
    max_keys: Option<usize>,
    ts: int,
) -> bool {
    let all = spec_matches(objs, marker, prefix, objs.len() as int);
    &&& contents.len() == capped_len(all.len() as int, max_keys)
    &&& forall|q: int| 0 <= q < contents.len() ==> summary_ok(#[trigger] contents[q], all[q], ts)
}

/// A whole listing reply: correct contents, and the truncation flag set
/// exactly when the result cap cut the match list short.
pub open spec fn list_output_ok(
    contents: Seq<ObjectSummary>,
    is_truncated: bool,
    objs: Seq<ObjectV>,
    marker: Option<Seq<u8>>,
    prefix: Option<Seq<u8>>,
    max_keys: Option<usize>,
    ts: int,
) -> bool {
    let all = spec_matches(objs, marker, prefix, objs.len() as int);
    &&& list_contents_ok(contents, objs, marker, prefix, max_keys, ts)
    &&& is_truncated == (match max_keys {
        Some(k) => all.len() > k,
        None => false,
    })
}

/// Whether two byte strings are equal, prefix-style.
fn is_prefix(p: &[u8], s: &[u8]) -> (b: bool)
    ensures
        b == (s@.len() >= p@.len() && s@.take(p@.len() as int) == p@),
{
    if p.len() > s.len() {
        return false;
    }
    let mut i: usize = 0;
    while i < p.len()
        invariant
            i <= p@.len(),
            p@.len() <= s@.len(),
            forall|m: int| 0 <= m < i ==> s@[m] == p@[m],
        decreases p@.len() - i,
    {
        if s[i] != p[i] {
            proof {
                assert(s@.take(p@.len() as int)[i as int] == s@[i as int]);
            }
            return false;
        }
        i = i + 1;
    }
    proof {
        assert(s@.take(p@.len() as int) =~= p@);
    }
    true
}

/// The single bucket as listed: its name and creation date.
pub struct BucketEntry {
    /// The bucket's name.
    pub name: String,
    /// The bucket's reported creation date.
    pub creation_date: String,
}

/// One object as a listing reports it.
pub struct ObjectSummary {
    /// The object's name.
    pub key: String,
    /// The object's size in bytes.
    pub size: usize,
    /// The fixed catalog-build date.
    pub last_modified: String,
    /// The fixed storage-class label.
    pub storage_class: String,
}

/// The reply to the first listing form.
pub struct ListOutput {
    /// The objects listed, in catalog order.
    pub contents: Vec<ObjectSummary>,
    /// The continuation cursor, when the result cap cut the list short.
    pub next_marker: Option<String>,
    /// Whether the result cap cut the list short.
    pub is_truncated: bool,
}

/// The reply to the second listing form.
pub struct ListV2Output {
    /// The objects listed, in catalog order.
    pub contents: Vec<ObjectSummary>,
    /// How many objects are listed.
    pub key_count: usize,
    /// Whether the result cap cut the list short.
    pub is_truncated: bool,
}

impl Storage {
    /// The store is read-only: storing an object is always refused.
    pub fn put_object(&self) -> (r: Result<(), StoreError>)
        ensures
            r == Err::<(), StoreError>(StoreError::NotSupported),
    {
        Err(StoreError::NotSupported)
    }

    /// The store is read-only: copying an object is always refused.
    pub fn copy_object(&self) -> (r: Result<(), StoreError>)
        ensures
            r == Err::<(), StoreError>(StoreError::NotSupported),
    {
        Err(StoreError::NotSupported)
    }

    /// The store is read-only: deleting an object is always refused.
    pub fn delete_object(&self) -> (r: Result<(), StoreError>)
        ensures
            r == Err::<(), StoreError>(StoreError::NotSupported),
    {
        Err(StoreError::NotSupported)
    }

    /// The store is read-only: deleting objects is always refused.
    pub fn delete_objects(&self) -> (r: Result<(), StoreError>)
        ensures
            r == Err::<(), StoreError>(StoreError::NotSupported),
    {
        Err(StoreError::NotSupported)
    }

    /// The catalog is fixed: creating a bucket is always refused.
    pub fn create_bucket(&self) -> (r: Result<(), StoreError>)
        ensures
            r == Err::<(), StoreError>(StoreError::NotSupported),
    {
        Err(StoreError::NotSupported)
    }

    /// The catalog is fixed: deleting a bucket is always refused.
    pub fn delete_bucket(&self) -> (r: Result<(), StoreError>)
        ensures
            r == Err::<(), StoreError>(StoreError::NotSupported),
    {
        Err(StoreError::NotSupported)
    }

    /// Bucket locations are not served.
    pub fn get_bucket_location(&self) -> (r: Result<(), StoreError>)
        ensures
            r == Err::<(), StoreError>(StoreError::NotSupported),
    {
        Err(StoreError::NotSupported)
    }

    /// Multipart uploads are always refused.
    pub fn create_multipart_upload(&self) -> (r: Result<(), StoreError>)
        ensures
            r == Err::<(), StoreError>(StoreError::NotSupported),
    {
        Err(StoreError::NotSupported)
    }

    /// Multipart uploads are always refused.
    pub fn complete_multipart_upload(&self) -> (r: Result<(), StoreError>)
        ensures
            r == Err::<(), StoreError>(StoreError::NotSupported),
    {
        Err(StoreError::NotSupported)
    }

    /// Multipart uploads are always refused.
    pub fn upload_part(&self) -> (r: Result<(), StoreError>)
        ensures
            r == Err::<(), StoreError>(StoreError::NotSupported),
    {
        Err(StoreError::NotSupported)
    }
}

/// Point lookups succeed exactly when the name is in the catalog, and a
/// listing returns only names strictly after the cursor, in the catalog's
/// ascending order, every one of them drawn from the catalog.
pub proof fn lemma_catalog_ordering(
    objs: Seq<ObjectV>,
    marker: Option<Seq<u8>>,
    prefix: Option<Seq<u8>>,
    j: int,
)
    requires
        sorted_by_name(objs),
        0 <= j <= objs.len(),
    ensures
        (forall|q: int| 0 <= q < spec_matches(objs, marker, prefix, j).len() && marker is Some
            ==> bytes_lt(
            marker.unwrap(),
            name_bytes(#[trigger] spec_matches(objs, marker, prefix, j)[q]),
        )),
        sorted_by_name(spec_matches(objs, marker, prefix, j)),
        (forall|q: int| 0 <= q < spec_matches(objs, marker, prefix, j).len() ==> exists|m: int|
            0 <= m < j && #[trigger] spec_matches(objs, marker, prefix, j)[q] == objs[m]),
    decreases j,
{
    if j > 0 {
        lemma_catalog_ordering(objs, marker, prefix, j - 1);
        let prev = spec_matches(objs, marker, prefix, j - 1);
        let cur = spec_matches(objs, marker, prefix, j);
        if passes_filters(objs[j - 1], marker, prefix) {
            assert forall|q1: int, q2: int| 0 <= q1 < q2 < cur.len() implies bytes_le(
                name_bytes(#[trigger] cur[q1]),
                name_bytes(#[trigger] cur[q2]),
            ) by {
                if q2 == cur.len() - 1 {
                    let m = choose|m: int| 0 <= m < j - 1 && prev[q1] == objs[m];
                    assert(bytes_le(name_bytes(objs[m]), name_bytes(objs[j - 1])));
                } else {
                    assert(cur[q1] == prev[q1]);
                    assert(cur[q2] == prev[q2]);
                }
            }
            assert forall|q: int| 0 <= q < cur.len() implies exists|m: int|
                0 <= m < j && #[trigger] cur[q] == objs[m] by {
                if q < prev.len() {
                    let m = choose|m: int| 0 <= m < j - 1 && prev[q] == objs[m];
                    assert(cur[q] == objs[m]);
                } else {
                    assert(cur[q] == objs[j - 1]);
                }
            }
        }
    }
}

/// Regenerating a data object is idempotent: two retrievals computed from
/// the same descriptor and captured state hold identical bytes.
pub proof fn lemma_regeneration_idempotent(
    ts: Seq<TableT>,
    qualified: bool,
    fi: FileInfo,
    st: State,
    b1: Seq<u8>,
    b2: Seq<u8>,
)
    requires
        Some(b1) == spec_object_bytes(ts, qualified, fi, st),
        Some(b2) == spec_object_bytes(ts, qualified, fi, st),
    ensures
        b1 == b2,
{
}

/// Object metadata as reported without materializing content.
pub struct HeadOutput {
    /// The object's size in bytes.
    pub content_length: usize,
    /// The fixed generic content type.
    pub content_type: String,
    /// The fixed catalog-build date.
    pub last_modified: String,
}

/// With equal order, the non-strict then strict steps compose strictly.
pub proof fn lemma_bytes_le_trans2(a: Seq<u8>, b: Seq<u8>, c: Seq<u8>)
    requires
        bytes_le(a, b),
        bytes_lt(b, c),
    ensures
        bytes_lt(a, c),
{
    if bytes_lt(a, b) {
        lemma_bytes_lt_trans(a, b, c);
    }
}

/// A strict step followed by a non-strict one stays strict.
pub proof fn lemma_bytes_lt_le_trans(a: Seq<u8>, b: Seq<u8>, c: Seq<u8>)
    requires
        bytes_lt(a, b),
        bytes_le(b, c),
    ensures
        bytes_lt(a, c),
{
    if bytes_lt(b, c) {
        lemma_bytes_lt_trans(a, b, c);
    }
}

} // verus!
