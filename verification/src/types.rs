use vstd::prelude::*;

verus! {

/// Logical write timestamp: a process-wide monotonically increasing counter,
/// incremented once per write, shared across all keys.
pub type Timestamp = u64;

/// Transaction identifier supplied by the caller of a write.
pub type TxnId = u64;

/// Fixed-point scale for vector components and similarity scores:
/// the integer `SCALE` stands for the real number 1.0.
pub const SCALE: i64 = 1_000_000;

/// Largest dimensionality a vector index accepts; keeps all similarity
/// arithmetic comfortably inside 128-bit integers.
pub const DIM_MAX: usize = 65536;

/// Opaque string identifier of a row; all versions of a row share one key.
pub struct RowKey(pub String);

impl View for RowKey {
    type V = Seq<char>;

    open spec fn view(&self) -> Seq<char> {
        self.0@
    }
}

impl Clone for RowKey {
    fn clone(&self) -> (r: Self)
        ensures
            r@ == self@,
    {
        RowKey(self.0.clone())
    }
}

/// A document payload: an open list of named string fields.
/// The engine recognizes one reserved field (`text`) as the embedding source.
pub struct Payload(pub Vec<(String, String)>);

/// First value bound to `name` in `fields` at position `i` or later.
pub open spec fn field_lookup_from(
    fields: Seq<(Seq<char>, Seq<char>)>,
    name: Seq<char>,
    i: int,
) -> Option<Seq<char>>
    decreases fields.len() - i,
{
    if i < 0 || i >= fields.len() {
        None
    } else if fields[i].0 == name {
        Some(fields[i].1)
    } else {
        field_lookup_from(fields, name, i + 1)
    }
}

/// First value bound to `name` in a field list, scanning left to right.
pub open spec fn field_lookup(fields: Seq<(Seq<char>, Seq<char>)>, name: Seq<char>) -> Option<
    Seq<char>,
> {
    field_lookup_from(fields, name, 0)
}

impl View for Payload {
    type V = Seq<(Seq<char>, Seq<char>)>;

    open spec fn view(&self) -> Seq<(Seq<char>, Seq<char>)> {
        self.0@.map_values(|p: (String, String)| (p.0@, p.1@))
    }
}

impl Payload {
    /// Payload with no fields.
    pub fn new() -> (r: Self)
        ensures
            r@ == Seq::<(Seq<char>, Seq<char>)>::empty(),
    {
        let v: Vec<(String, String)> = Vec::new();
        let r = Payload(v);
        proof {
            assert(r@ =~= Seq::<(Seq<char>, Seq<char>)>::empty());
        }
        r
    }

    /// Append a named field.
    pub fn push_field(&mut self, name: String, value: String)
        ensures
            final(self)@ == old(self)@.push((name@, value@)),
    {
        let ghost n = name@;
        let ghost v = value@;
        self.0.push((name, value));
        proof {
            assert(self@ =~= old(self)@.push((n, v)));
        }
    }

    /// Value of the first field named `name`, if any.
    pub fn get(&self, name: &String) -> (r: Option<&String>)
        ensures
            match r {
                Some(v) => field_lookup(self@, name@) == Some(v@),
                None => field_lookup(self@, name@) is None,
            },
    {
        let mut i: usize = 0;
        while i < self.0.len()
            invariant
                i <= self.0.len(),
                field_lookup(self@, name@) == field_lookup_from(self@, name@, i as int),
            decreases self.0.len() - i,
        {
            proof {
                assert(self@[i as int] == (self.0@[i as int].0@, self.0@[i as int].1@));
            }
            if self.0[i].0.eq(name) {
                return Some(&self.0[i].1);
            }
            i = i + 1;
        }
        None
    }

    pub fn clone_payload(&self) -> (r: Self)
        ensures
            r@ == self@,
    {
        let mut v: Vec<(String, String)> = Vec::new();
        let mut i: usize = 0;
        while i < self.0.len()
            invariant
                i <= self.0.len(),
                v@.len() == i,
                forall|j: int| 0 <= j < i ==> #[trigger] v@[j] == self.0@[j],
            decreases self.0.len() - i,
        {
            v.push((self.0[i].0.clone(), self.0[i].1.clone()));
            i = i + 1;
        }
        let r = Payload(v);
        proof {
            assert(v@ =~= self.0@);
        }
        r
    }
}

impl Clone for Payload {
    fn clone(&self) -> (r: Self)
        ensures
            r@ == self@,
    {
        self.clone_payload()
    }
}

/// A keyed document: the unit the engine ingests.
pub struct Row {
    pub key: RowKey,
    pub payload: Payload,
}

/// Ghost image of a `Row`: its key and field list as mathematical sequences.
pub struct RowV {
    pub key: Seq<char>,
    pub payload: Seq<(Seq<char>, Seq<char>)>,
}

impl View for Row {
    type V = RowV;

    open spec fn view(&self) -> RowV {
        RowV { key: self.key@, payload: self.payload@ }
    }
}

impl Clone for Row {
    fn clone(&self) -> (r: Self)
        ensures
            r@ == self@,
    {
        let r = Row { key: self.key.clone(), payload: self.payload.clone() };
        proof {
            assert(r@ =~= self@) by {
                assert(r@.key == self@.key);
                assert(r@.payload == self@.payload);
            }
        }
        r
    }
}

/// One version of a row: the write that created it and its validity window.
/// `end_ts == None` denotes an open (not yet superseded) version.
pub struct VersionedRow {
    pub begin_ts: Timestamp,
    pub end_ts: Option<Timestamp>,
    pub txn_id: TxnId,
    pub row: Row,
}

/// Ghost image of a `VersionedRow`.
pub struct VersionedRowV {
    pub begin_ts: Timestamp,
    pub end_ts: Option<Timestamp>,
    pub txn_id: TxnId,
    pub row: RowV,
}

impl View for VersionedRow {
    type V = VersionedRowV;

    open spec fn view(&self) -> VersionedRowV {
        VersionedRowV {
            begin_ts: self.begin_ts,
            end_ts: self.end_ts,
            txn_id: self.txn_id,
            row: self.row@,
        }
    }
}

impl Clone for VersionedRow {
    fn clone(&self) -> (r: Self)
        ensures
            r@ == self@,
    {
        let r = VersionedRow {
            begin_ts: self.begin_ts,
            end_ts: self.end_ts,
            txn_id: self.txn_id,
            row: self.row.clone(),
        };
        proof {
            assert(r@ =~= self@);
        }
        r
    }
}

/// A vector in the engine's similarity space, components in fixed point
/// (`SCALE` stands for 1.0).
pub struct Vector(pub Vec<i64>);

impl View for Vector {
    type V = Seq<i64>;

    open spec fn view(&self) -> Seq<i64> {
        self.0@
    }
}

/// Every component within the fixed-point range `[-SCALE, SCALE]`.
pub open spec fn wf_components(s: Seq<i64>) -> bool {
    forall|i: int| 0 <= i < s.len() ==> -SCALE <= #[trigger] s[i] <= SCALE
}

impl Vector {
    /// Well-formed for an index of dimensionality `dims`.
    pub open spec fn wf(&self, dims: usize) -> bool {
        self@.len() == dims && dims <= DIM_MAX && wf_components(self@)
    }
}

impl Clone for Vector {
    fn clone(&self) -> (r: Self)
        ensures
            r@ == self@,
    {
        let mut v: Vec<i64> = Vec::new();
        let mut i: usize = 0;
        while i < self.0.len()
            invariant
                i <= self.0.len(),
                v@ =~= self.0@.subrange(0, i as int),
            decreases self.0.len() - i,
        {
            v.push(self.0[i]);
            i = i + 1;
        }
        proof {
            assert(v@ =~= self.0@);
        }
        Vector(v)
    }
}

/// Description of the embedding model a vector space was built with.
pub struct EmbeddingMeta {
    pub model_id: String,
    pub dims: usize,
    pub created_ts: Timestamp,
}

} // verus!
