//! Core data model: points, payload values, schema tags, and the filter tree.
//!
//! Scalars are modelled as plain values: numbers are `i64` (callers using
//! fractional or floating-point attributes supply a fixed-point encoding),
//! keywords are `String`s, and geo points carry integer micro-degree
//! coordinates. The ghost view [`ValueV`] abstracts a payload value for use
//! in contracts.

use vstd::prelude::*;

verus! {

/// Compact non-negative id internal to a segment; dense in `0..total_points`.
pub type PointOffsetType = u32;

/// Name of a payload attribute (an opaque JSON path).
pub type PayloadKeyType = String;

/// Schema tag declared by the operator when marking a field indexed.
#[derive(Clone, Copy, PartialEq, Eq, Structural, Debug)]
pub enum PayloadSchemaType {
    Integer,
    Float,
    Keyword,
    Geo,
}

/// Geographic coordinate in integer micro-degrees
/// (`lat = 12_345_678` means 12.345678 degrees north).
#[derive(Clone, Copy, PartialEq, Eq, Structural, Debug)]
pub struct GeoPoint {
    pub lat: i64,
    pub lon: i64,
}

impl GeoPoint {
    /// Coordinates bounded to the globe; keeps squared distances inside `i64`.
    pub open spec fn wf(self) -> bool {
        -90_000_000 <= self.lat <= 90_000_000 && -180_000_000 <= self.lon <= 180_000_000
    }
}

/// One stored payload value.
pub enum Value {
    Number(i64),
    Keyword(String),
    Geo(GeoPoint),
}

/// Ghost view of a [`Value`]: keywords become character sequences so that
/// equality in contracts is equality of contents.
pub enum ValueV {
    Num(int),
    Kw(Seq<char>),
    GeoPt(int, int),
}

/// Ghost view of one payload value.
pub open spec fn vview(v: Value) -> ValueV {
    match v {
        Value::Number(n) => ValueV::Num(n as int),
        Value::Keyword(s) => ValueV::Kw(s@),
        Value::Geo(g) => ValueV::GeoPt(g.lat as int, g.lon as int),
    }
}

/// Ghost view of a list of payload values.
pub open spec fn vviews(s: Seq<Value>) -> Seq<ValueV> {
    s.map_values(|v: Value| vview(v))
}

/// Well-formedness of a stored value: geo coordinates stay on the globe.
pub open spec fn value_wf(v: ValueV) -> bool {
    match v {
        ValueV::GeoPt(lat, lon) => -90_000_000 <= lat <= 90_000_000
            && -180_000_000 <= lon <= 180_000_000,
        _ => true,
    }
}

impl Value {
    /// Copy that provably preserves the value's content.
    pub fn duplicate(&self) -> (r: Value)
        ensures
            vview(r) == vview(*self),
    {
        match self {
            Value::Number(n) => Value::Number(*n),
            Value::Keyword(s) => Value::Keyword(s.clone()),
            Value::Geo(g) => Value::Geo(*g),
        }
    }
}

/// The values a payload holds under one key.
pub struct PayloadEntry {
    pub key: PayloadKeyType,
    pub values: Vec<Value>,
}

/// Typed attribute map attached to a point, as an association list;
/// lookups take the first entry carrying the key.
pub struct Payload {
    pub entries: Vec<PayloadEntry>,
}

/// First entry value list for `key` among `entries`, if any.
pub open spec fn entries_value(entries: Seq<PayloadEntry>, key: Seq<char>) -> Option<Seq<ValueV>>
    decreases entries.len(),
{
    if entries.len() == 0 {
        None
    } else if entries[0].key@ == key {
        Some(vviews(entries[0].values@))
    } else {
        entries_value(entries.drop_first(), key)
    }
}

impl Payload {
    /// The value list stored under `key`, or `None` when the key is absent.
    pub open spec fn spec_value(self, key: Seq<char>) -> Option<Seq<ValueV>> {
        entries_value(self.entries@, key)
    }

    /// All stored values are well formed.
    pub open spec fn wf(self) -> bool {
        forall|i: int, j: int|
            0 <= i < self.entries@.len() && 0 <= j < self.entries@[i].values@.len()
                ==> value_wf(#[trigger] vview(self.entries@[i].values@[j]))
    }

    pub fn new() -> (r: Payload)
        ensures
            r.entries@.len() == 0,
            r.wf(),
    {
        Payload { entries: Vec::new() }
    }

    /// Looks the key up, returning a borrow of the stored value list.
    pub fn get_value(&self, key: &PayloadKeyType) -> (r: Option<&Vec<Value>>)
        ensures
            match r {
                Some(vs) => self.spec_value(key@) == Some(vviews(vs@)),
                None => self.spec_value(key@) is None,
            },
    {
        proof {
            assert(self.entries@.skip(0) =~= self.entries@);
        }
        let mut i: usize = 0;
        while i < self.entries.len()
            invariant
                i <= self.entries@.len(),
                entries_value(self.entries@, key@) == entries_value(
                    self.entries@.skip(i as int),
                    key@,
                ),
            decreases self.entries@.len() - i,
        {
            proof {
                assert(self.entries@.skip(i as int).drop_first() =~= self.entries@.skip(
                    i as int + 1,
                ));
                assert(self.entries@.skip(i as int)[0] == self.entries@[i as int]);
            }
            if self.entries[i].key == *key {
                return Some(&self.entries[i].values);
            }
            i += 1;
        }
        None
    }
}

/// One point of the segment: its external id and its payload.
/// The internal offset of a point is its position in the storage.
pub struct PointRecord {
    pub external_id: u64,
    pub payload: Payload,
}

/// In-memory snapshot of the collaborating storages: supplies the total
/// point count, payload lookup, and the external-to-internal id mapping
/// (the internal id of a point is its index).
pub struct PointStorage {
    pub points: Vec<PointRecord>,
}

impl PointStorage {
    /// Unique external ids, well-formed payloads, and a bounded size.
    pub open spec fn wf(self) -> bool {
        &&& forall|i: int, j: int|
            0 <= i < j < self.points@.len()
                ==> self.points@[i].external_id != self.points@[j].external_id
        &&& forall|i: int| 0 <= i < self.points@.len() ==> (#[trigger] self.points@[i]).payload.wf()
        &&& self.points@.len() < 0x1_0000_0000
    }

    /// Payload of the point at internal offset `id`.
    pub open spec fn spec_payload(self, id: int) -> Payload {
        self.points@[id].payload
    }

    /// Number of points in the segment.
    pub fn total_count(&self) -> (r: usize)
        ensures
            r == self.points@.len(),
    {
        self.points.len()
    }

    /// Runtime check of [`PointStorage::wf`], for callers that assemble
    /// storages from unchecked input.
    #[verifier::loop_isolation(false)]
    pub fn check_wf(&self) -> (r: bool)
        ensures
            r == self.wf(),
    {
        if (self.points.len() as u64) >= 0x1_0000_0000u64 {
            return false;
        }
        let n = self.points.len();
        let mut i: usize = 0;
        while i < n
            invariant
                i <= n,
                forall|a: int, b: int|
                    0 <= a < b < i ==> self.points@[a].external_id != self.points@[b].external_id,
                forall|a: int| 0 <= a < i ==> (#[trigger] self.points@[a]).payload.wf(),
            decreases n - i,
        {
            let mut j: usize = 0;
            while j < i
                invariant
                    j <= i,
                    forall|b: int|
                        0 <= b < j ==> self.points@[b].external_id != self.points@[
                            i as int
                        ].external_id,
                decreases i - j,
            {
                if self.points[j].external_id == self.points[i].external_id {
                    return false;
                }
                j += 1;
            }
            let entries = &self.points[i].payload.entries;
            let mut e: usize = 0;
            while e < entries.len()
                invariant
                    e <= entries@.len(),
                    entries == &self.points@[i as int].payload.entries,
                    forall|a: int, b: int|
                        0 <= a < e && 0 <= b < entries@[a].values@.len() ==> value_wf(
                            #[trigger] vview(entries@[a].values@[b]),
                        ),
                decreases entries@.len() - e,
            {
                let vals = &entries[e].values;
                let mut t: usize = 0;
                while t < vals.len()
                    invariant
                        t <= vals@.len(),
                        vals == &self.points@[i as int].payload.entries@[e as int].values,
                        forall|b: int| 0 <= b < t ==> value_wf(#[trigger] vview(vals@[b])),
                    decreases vals@.len() - t,
                {
                    let ok = match &vals[t] {
                        Value::Geo(g) => g.lat >= -90_000_000 && g.lat <= 90_000_000 && g.lon
                            >= -180_000_000 && g.lon <= 180_000_000,
                        _ => true,
                    };
                    if !ok {
                        proof {
                            assert(!self.points@[i as int].payload.wf()) by {
                                if self.points@[i as int].payload.wf() {
                                    assert(value_wf(vview(
                                        self.points@[i as int].payload.entries@[e as int].values@[
                                            t as int
                                        ],
                                    )));
                                }
                            }
                        }
                        return false;
                    }
                    t += 1;
                }
                e += 1;
            }
            i += 1;
        }
        true
    }

    /// Internal offset of the point with external id `ext`, if present.
    pub fn internal_id(&self, ext: u64) -> (r: Option<PointOffsetType>)
        requires
            self.wf(),
        ensures
            match r {
                Some(id) => 0 <= id < self.points@.len() && self.points@[id as int].external_id
                    == ext,
                None => forall|i: int|
                    0 <= i < self.points@.len()
                        ==> (#[trigger] self.points@[i]).external_id != ext,
            },
    {
        let mut i: usize = 0;
        while i < self.points.len()
            invariant
                self.wf(),
                i <= self.points@.len(),
                forall|j: int|
                    0 <= j < i ==> (#[trigger] self.points@[j]).external_id != ext,
            decreases self.points@.len() - i,
        {
            if self.points[i].external_id == ext {
                return Some(i as u32);
            }
            i += 1;
        }
        None
    }
}

} // verus!
