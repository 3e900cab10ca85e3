use vstd::prelude::*;
use vstd::bytes::{
    lemma_auto_spec_u128_to_from_le_bytes, lemma_auto_spec_u32_to_from_le_bytes,
    lemma_auto_spec_u64_to_from_le_bytes, spec_u128_from_le_bytes, spec_u128_to_le_bytes,
    spec_u32_from_le_bytes, spec_u32_to_le_bytes, spec_u64_from_le_bytes, spec_u64_to_le_bytes,
    u128_from_le_bytes, u128_to_le_bytes, u32_from_le_bytes, u32_to_le_bytes, u64_from_le_bytes,
    u64_to_le_bytes,
};
use vstd::slice::slice_subrange;
use vstd::string::StringSliceAdditionalSpecFns;
use vstd::utf8::{decode_utf8, encode_utf8, encode_utf8_decode_utf8, encode_utf8_valid_utf8, valid_utf8};

use crate::error::DbError;
use crate::row::{Cell, Row};
use crate::schema::ColumnDef;
use crate::validate::{field, lemma_valid_row, row_violation, validate_row};
use crate::value::{ColumnType, DecimalValue, Value};

verus! {

/// The one-byte tag that records a column's type, and so its encoding, on disk.
pub open spec fn tag_of(t: ColumnType) -> u8 {
    match t {
        ColumnType::Int => 1,
        ColumnType::Float => 2,
        ColumnType::String => 3,
        ColumnType::Bool => 4,
        ColumnType::Timestamp => 5,
        ColumnType::Decimal => 6,
        ColumnType::Text => 7,
        ColumnType::Json => 8,
    }
}

/// The encoding tag of `t`.
pub fn type_tag(t: ColumnType) -> (r: u8)
    ensures
        r == tag_of(t),
{
    match t {
        ColumnType::Int => 1,
        ColumnType::Float => 2,
        ColumnType::String => 3,
        ColumnType::Bool => 4,
        ColumnType::Timestamp => 5,
        ColumnType::Decimal => 6,
        ColumnType::Text => 7,
        ColumnType::Json => 8,
    }
}

/// The column type an encoding tag stands for; `None` for an unknown tag.
pub fn type_of_tag(b: u8) -> (r: Option<ColumnType>)
    ensures
        r matches Some(t) ==> tag_of(t) == b,
        forall|t: ColumnType| tag_of(t) == b ==> r == Some(t),
{
    match b {
        1 => Some(ColumnType::Int),
        2 => Some(ColumnType::Float),
        3 => Some(ColumnType::String),
        4 => Some(ColumnType::Bool),
        5 => Some(ColumnType::Timestamp),
        6 => Some(ColumnType::Decimal),
        7 => Some(ColumnType::Text),
        8 => Some(ColumnType::Json),
        _ => None,
    }
}

/// The bytes a non-null value occupies in its column store: eight little-endian
/// bytes for `Int`, `Float` and `Timestamp`, one byte for `Bool`, the unscaled
/// integer (sixteen bytes) then the scale (four bytes) for `Decimal`, and the
/// UTF-8 length (eight bytes) then the UTF-8 bytes for `String`, `Text` and
/// `Json`. `Null` occupies nothing: the presence list records it.
pub open spec fn encode_value(v: Value) -> Seq<u8> {
    match v {
        Value::Int(i) => spec_u64_to_le_bytes(i as u64),
        Value::Float(b) => spec_u64_to_le_bytes(b),
        Value::Timestamp(t) => spec_u64_to_le_bytes(t as u64),
        Value::Bool(b) => seq![if b { 1u8 } else { 0u8 }],
        Value::Decimal(d) => spec_u128_to_le_bytes(d.mantissa as u128) + spec_u32_to_le_bytes(d.scale),
        Value::String(s) => text_bytes(s@),
        Value::Text(s) => text_bytes(s@),
        Value::Json(s) => text_bytes(s@),
        Value::Null => Seq::empty(),
    }
}

/// Length-prefixed UTF-8 form of a string.
pub open spec fn text_bytes(s: Seq<char>) -> Seq<u8> {
    spec_u64_to_le_bytes(encode_utf8(s).len() as u64) + encode_utf8(s)
}

/// Relies on `String::from_utf8`: it succeeds exactly on well-formed UTF-8 and
/// then holds the characters those bytes encode.
#[verifier::external_body]
fn string_from_utf8(bytes: Vec<u8>) -> (r: Option<String>)
    ensures
        r is Some <==> valid_utf8(bytes@),
        r matches Some(s) ==> s@ == decode_utf8(bytes@),
{
    String::from_utf8(bytes).ok()
}

/// Appends the encoding of `v` to `out`.
pub fn encode_into(v: &Value, out: &mut Vec<u8>)
    ensures
        final(out)@ == old(out)@ + encode_value(*v),
{
    let mut bytes: Vec<u8> = match v {
        Value::Int(i) => u64_to_le_bytes(#[verifier::truncate] (*i as u64)),
        Value::Float(b) => u64_to_le_bytes(*b),
        Value::Timestamp(t) => u64_to_le_bytes(#[verifier::truncate] (*t as u64)),
        Value::Bool(b) => if *b { vec![1u8] } else { vec![0u8] },
        Value::Decimal(d) => {
            let mut m = u128_to_le_bytes(d.mantissa as u128);
            let mut s = u32_to_le_bytes(d.scale);
            m.append(&mut s);
            m
        },
        Value::String(s) => text_to_bytes(s),
        Value::Text(s) => text_to_bytes(s),
        Value::Json(s) => text_to_bytes(s),
        Value::Null => Vec::new(),
    };
    out.append(&mut bytes);
}

fn text_to_bytes(s: &String) -> (r: Vec<u8>)
    ensures
        r@ == text_bytes(s@),
{
    let b = s.as_str().as_bytes();
    let mut r = u64_to_le_bytes(b.len() as u64);
    let mut i: usize = 0;
    let ghost head = r@;
    while i < b.len()
        invariant
            i <= b@.len(),
            b@ == encode_utf8(s@),
            head == spec_u64_to_le_bytes(b@.len() as u64),
            r@ == head + b@.take(i as int),
        decreases b@.len() - i,
    {
        r.push(b[i]);
        i = i + 1;
        assert(r@ =~= head + b@.take(i as int));
    }
    assert(b@.take(i as int) =~= b@);
    r
}

/// Copies `bytes[lo..hi]`.
fn copy_range(bytes: &Vec<u8>, lo: usize, hi: usize) -> (r: Vec<u8>)
    requires
        lo <= hi <= bytes@.len(),
    ensures
        r@ == bytes@.subrange(lo as int, hi as int),
{
    let mut r: Vec<u8> = Vec::new();
    let mut i: usize = lo;
    while i < hi
        invariant
            lo <= i <= hi <= bytes@.len(),
            r@ == bytes@.subrange(lo as int, i as int),
        decreases hi - i,
    {
        r.push(bytes[i]);
        i = i + 1;
        assert(r@ =~= bytes@.subrange(lo as int, i as int));
    }
    r
}

/// Reads one non-null value of type `t` at `pos`. Where the bytes there are
/// the encoding of such a value, that value comes back with the position
/// after it; whatever comes back was encoded there.
pub fn decode_value(t: ColumnType, bytes: &Vec<u8>, pos: usize) -> (r: Option<(Value, usize)>)
    ensures
        r matches Some((v, q)) ==> pos <= q <= bytes@.len() && bytes@.subrange(pos as int, q as int) == encode_value(v)
            && v.fits(t) && !(v is Null),
        forall|v: Value| #![trigger encode_value(v)] !(v is Null) && v.fits(t)
            && pos + encode_value(v).len() <= bytes@.len()
            && bytes@.subrange(pos as int, pos + encode_value(v).len()) == encode_value(v)
            ==> (r matches Some((w, q)) && q == pos + encode_value(v).len() && w.same_value(v)),
{
    proof {
        lemma_auto_spec_u64_to_from_le_bytes();
        lemma_auto_spec_u32_to_from_le_bytes();
        lemma_auto_spec_u128_to_from_le_bytes();
    }
    let n = bytes.len();
    match t {
        ColumnType::Int | ColumnType::Float | ColumnType::Timestamp => {
            if pos > n || n - pos < 8 {
                return None;
            }
            let x = u64_from_le_bytes(slice_subrange(bytes.as_slice(), pos, pos + 8));
            let v = match t {
                ColumnType::Int => Value::Int(#[verifier::truncate] (x as i64)),
                ColumnType::Float => Value::Float(x),
                _ => Value::Timestamp(#[verifier::truncate] (x as i64)),
            };
            proof {
                let w = bytes@.subrange(pos as int, pos + 8);
                assert(spec_u64_to_le_bytes(spec_u64_from_le_bytes(w)) == w);
                assert(((x as i64) as u64) == x) by (bit_vector);
                assert forall|u: Value| #![trigger encode_value(u)] !(u is Null) && u.fits(t)
                    && pos + encode_value(u).len() <= bytes@.len()
                    && bytes@.subrange(pos as int, pos + encode_value(u).len()) == encode_value(u)
                    implies pos + 8 == pos + encode_value(u).len() && v.same_value(u) by {
                    match u {
                        Value::Int(i) => {
                            assert(spec_u64_to_le_bytes(i as u64).len() == 8);
                            assert(spec_u64_from_le_bytes(w) == i as u64);
                            assert(((i as u64) as i64) == i) by (bit_vector);
                        },
                        Value::Timestamp(i) => {
                            assert(spec_u64_to_le_bytes(i as u64).len() == 8);
                            assert(spec_u64_from_le_bytes(w) == i as u64);
                            assert(((i as u64) as i64) == i) by (bit_vector);
                        },
                        Value::Float(b) => {
                            assert(spec_u64_to_le_bytes(b).len() == 8);
                            assert(spec_u64_from_le_bytes(w) == b);
                        },
                        _ => {},
                    }
                }
            }
            Some((v, pos + 8))
        },
        ColumnType::Bool => {
            if pos >= n || bytes[pos] > 1 {
                proof {
                    assert forall|u: Value| #![trigger encode_value(u)] !(u is Null) && u.fits(t)
                        && pos + encode_value(u).len() <= bytes@.len()
                        && bytes@.subrange(pos as int, pos + encode_value(u).len()) == encode_value(u)
                        implies false by {
                        assert(bytes@.subrange(pos as int, pos + encode_value(u).len())[0] == bytes@[pos as int]);
                    }
                }
                return None;
            }
            let v = Value::Bool(bytes[pos] == 1);
            proof {
                assert(bytes@.subrange(pos as int, pos + 1) =~= encode_value(v));
                assert forall|u: Value| #![trigger encode_value(u)] !(u is Null) && u.fits(t)
                    && pos + encode_value(u).len() <= bytes@.len()
                    && bytes@.subrange(pos as int, pos + encode_value(u).len()) == encode_value(u)
                    implies pos + 1 == pos + encode_value(u).len() && v.same_value(u) by {
                    assert(bytes@.subrange(pos as int, pos + encode_value(u).len())[0] == bytes@[pos as int]);
                }
            }
            Some((v, pos + 1))
        },
        ColumnType::Decimal => {
            if pos > n || n - pos < 20 {
                return None;
            }
            let m = u128_from_le_bytes(slice_subrange(bytes.as_slice(), pos, pos + 16));
            let s = u32_from_le_bytes(slice_subrange(bytes.as_slice(), pos + 16, pos + 20));
            let v = Value::Decimal(DecimalValue { mantissa: m as i128, scale: s });
            proof {
                let w1 = bytes@.subrange(pos as int, pos + 16);
                let w2 = bytes@.subrange(pos + 16, pos + 20);
                assert(spec_u128_to_le_bytes(spec_u128_from_le_bytes(w1)) == w1);
                assert(spec_u32_to_le_bytes(spec_u32_from_le_bytes(w2)) == w2);
                assert(bytes@.subrange(pos as int, pos + 20) =~= w1 + w2);
                assert(((m as i128) as u128) == m) by (bit_vector);
                assert forall|u: Value| #![trigger encode_value(u)] !(u is Null) && u.fits(t)
                    && pos + encode_value(u).len() <= bytes@.len()
                    && bytes@.subrange(pos as int, pos + encode_value(u).len()) == encode_value(u)
                    implies pos + 20 == pos + encode_value(u).len() && v.same_value(u) by {
                    if let Value::Decimal(d) = u {
                        let e = encode_value(u);
                        assert(e.subrange(0, 16) =~= spec_u128_to_le_bytes(d.mantissa as u128));
                        assert(e.subrange(16, 20) =~= spec_u32_to_le_bytes(d.scale));
                        assert(w1 == e.subrange(0, 16));
                        assert(w2 == e.subrange(16, 20));
                        let dm = d.mantissa;
                        assert(((dm as u128) as i128) == dm) by (bit_vector);
                    }
                }
            }
            let d = DecimalValue { mantissa: m as i128, scale: s };
            if !d.is_in_range() {
                return None;
            }
            Some((v, pos + 20))
        },
        ColumnType::String | ColumnType::Text | ColumnType::Json => {
            if pos > n || n - pos < 8 {
                return None;
            }
            let len = u64_from_le_bytes(slice_subrange(bytes.as_slice(), pos, pos + 8));
            proof {
                let w = bytes@.subrange(pos as int, pos + 8);
                assert forall|u: Value| #![trigger encode_value(u)] !(u is Null) && u.fits(t)
                    && pos + encode_value(u).len() <= bytes@.len()
                    && bytes@.subrange(pos as int, pos + encode_value(u).len()) == encode_value(u)
                    implies len as int == encode_utf8(text_of(u)).len()
                        && pos + 8 + len <= bytes@.len()
                        && bytes@.subrange(pos + 8, pos + 8 + len) == encode_utf8(text_of(u)) by {
                    let us = text_of(u);
                    let ub = encode_utf8(us);
                    let e = encode_value(u);
                    assert(e == text_bytes(us));
                    assert(e.subrange(0, 8) =~= spec_u64_to_le_bytes(ub.len() as u64));
                    assert(w =~= bytes@.subrange(pos as int, pos + e.len()).subrange(0, 8));
                    assert(ub.len() < 0x1_0000_0000_0000_0000);
                    assert(len == ub.len());
                    assert(bytes@.subrange(pos + 8, pos + 8 + len) =~= e.subrange(8, e.len() as int));
                    assert(e.subrange(8, e.len() as int) =~= ub);
                }
            }
            if len as u128 > (n - pos - 8) as u128 {
                return None;
            }
            let end = pos + 8 + len as usize;
            let body = copy_range(bytes, pos + 8, end);
            let s = match string_from_utf8(body) {
                None => {
                    proof {
                        assert forall|u: Value| #![trigger encode_value(u)] !(u is Null) && u.fits(t)
                            && pos + encode_value(u).len() <= bytes@.len()
                            && bytes@.subrange(pos as int, pos + encode_value(u).len()) == encode_value(u)
                            implies false by {
                            encode_utf8_valid_utf8(text_of(u));
                        }
                    }
                    return None;
                },
                Some(s) => s,
            };
            let ghost bb = bytes@.subrange(pos + 8, end as int);
            let v = match t {
                ColumnType::String => Value::String(s),
                ColumnType::Text => Value::Text(s),
                _ => Value::Json(s),
            };
            proof {
                let w = bytes@.subrange(pos as int, pos + 8);
                assert(spec_u64_to_le_bytes(spec_u64_from_le_bytes(w)) == w);
                lemma_decode_encode_bytes(bb);
                assert(encode_utf8(s@) == bb);
                assert(bytes@.subrange(pos as int, end as int) =~= w + bb);
                assert forall|u: Value| #![trigger encode_value(u)] !(u is Null) && u.fits(t)
                    && pos + encode_value(u).len() <= bytes@.len()
                    && bytes@.subrange(pos as int, pos + encode_value(u).len()) == encode_value(u)
                    implies end == pos + encode_value(u).len() && v.same_value(u) by {
                    let us = text_of(u);
                    let e = encode_value(u);
                    assert(e == text_bytes(us));
                    assert(bb == encode_utf8(us));
                    encode_utf8_decode_utf8(us);
                    assert(s@ == us);
                    match u {
                        Value::String(x) => { assert(x@ == s@); },
                        Value::Text(x) => { assert(x@ == s@); },
                        Value::Json(x) => { assert(x@ == s@); },
                        _ => {},
                    }
                }
            }
            Some((v, end))
        },
    }
}

/// The bytes of a column holding `vals`, in order; a `Null` adds nothing.
pub open spec fn encode_all(vals: Seq<Value>) -> Seq<u8>
    decreases vals.len(),
{
    if vals.len() == 0 {
        Seq::empty()
    } else {
        encode_all(vals.drop_last()) + encode_value(vals.last())
    }
}

/// The presence list of a column holding `vals`.
pub open spec fn presence(vals: Seq<Value>) -> Seq<bool> {
    vals.map_values(|v: Value| !(v is Null))
}

/// The physical store of one column: the encodings of its non-null values
/// appended back to back, and one presence flag per row.
#[derive(Debug)]
pub struct ColumnStore {
    pub bytes: Vec<u8>,
    pub present: Vec<bool>,
}

impl ColumnStore {
    /// Whether this store holds exactly `vals`.
    pub open spec fn holds(&self, vals: Seq<Value>) -> bool {
        &&& self.bytes@ == encode_all(vals)
        &&& self.present@ == presence(vals)
    }

    /// An empty column.
    pub fn new() -> (r: ColumnStore)
        ensures
            r.holds(Seq::empty()),
    {
        let r = ColumnStore { bytes: Vec::new(), present: Vec::new() };
        assert(r.present@ =~= presence(Seq::empty()));
        r
    }

    /// Appends one value (possibly `Null`) as the next row.
    pub fn push_value(&mut self, v: &Value)
        ensures
            forall|vals: Seq<Value>| old(self).holds(vals) ==> final(self).holds(vals.push(*v)),
    {
        let p = !v.is_null();
        self.present.push(p);
        encode_into(v, &mut self.bytes);
        proof {
            assert forall|vals: Seq<Value>| old(self).holds(vals) implies self.holds(vals.push(*v)) by {
                assert(vals.push(*v).drop_last() == vals);
                assert(self.present@ =~= presence(vals.push(*v)));
            }
        }
    }

    /// Decodes the whole column as values of type `t`. `None` where the bytes
    /// are not a well-formed column of that type.
    pub fn read_all(&self, t: ColumnType) -> (r: Option<Vec<Value>>)
        ensures
            forall|vals: Seq<Value>| self.holds(vals)
                && (forall|k: int| 0 <= k < vals.len() ==> (#[trigger] vals[k]).fits(t))
                ==> (r matches Some(out) && out@.len() == vals.len()
                    && forall|k: int| 0 <= k < vals.len() ==> (#[trigger] out@[k]).same_value(vals[k])),
    {
        let mut out: Vec<Value> = Vec::new();
        let mut pos: usize = 0;
        let mut k: usize = 0;
        while k < self.present.len()
            invariant
                k <= self.present@.len(),
                pos <= self.bytes@.len(),
                out@.len() == k,
                forall|vals: Seq<Value>| self.holds(vals)
                    && (forall|i: int| 0 <= i < vals.len() ==> (#[trigger] vals[i]).fits(t))
                    ==> pos == encode_all(vals.take(k as int)).len()
                    && forall|i: int| 0 <= i < k ==> (#[trigger] out@[i]).same_value(vals[i]),
            decreases self.present@.len() - k,
        {
            let ghost prev = out@;
            let ghost ppos = pos;
            if !self.present[k] {
                out.push(Value::Null);
            } else {
                match decode_value(t, &self.bytes, pos) {
                    None => {
                        proof {
                            assert forall|vals: Seq<Value>| self.holds(vals)
                                && (forall|i: int| 0 <= i < vals.len() ==> (#[trigger] vals[i]).fits(t))
                                implies false by {
                                lemma_encode_all_split(vals, k as int);
                                assert(presence(vals)[k as int] == !(vals[k as int] is Null));
                                assert(vals[k as int].fits(t));
                            }
                        }
                        return None;
                    },
                    Some((v, q)) => {
                        out.push(v);
                        pos = q;
                    },
                }
            }
            proof {
                assert forall|vals: Seq<Value>| self.holds(vals)
                    && (forall|i: int| 0 <= i < vals.len() ==> (#[trigger] vals[i]).fits(t))
                    implies pos == encode_all(vals.take(k + 1)).len()
                    && forall|i: int| 0 <= i < k + 1 ==> (#[trigger] out@[i]).same_value(vals[i]) by {
                    lemma_encode_all_split(vals, k as int);
                    assert(vals.take(k + 1).drop_last() == vals.take(k as int));
                    assert(presence(vals)[k as int] == !(vals[k as int] is Null));
                    assert(vals[k as int].fits(t));
                    assert forall|i: int| 0 <= i < k + 1 implies (#[trigger] out@[i]).same_value(vals[i]) by {
                        if i < k {
                            assert(out@[i] == prev[i]);
                        }
                    }
                }
            }
            k = k + 1;
        }
        proof {
            assert forall|vals: Seq<Value>| self.holds(vals)
                && (forall|i: int| 0 <= i < vals.len() ==> (#[trigger] vals[i]).fits(t))
                implies out@.len() == vals.len() by {
                assert(presence(vals).len() == vals.len());
            }
        }
        Some(out)
    }
}

/// The values of column `c` over `rows`, `Null` where a row leaves it out.
pub open spec fn column_values(rows: Seq<Row>, c: ColumnDef) -> Seq<Value> {
    Seq::new(rows.len(), |k: int| field(rows[k], c))
}

/// One table laid out by column: a store per declared column, read back by
/// row position. Identifiers are row positions.
#[derive(Debug)]
pub struct ColumnFileTable {
    pub row_count: usize,
    pub columns: Vec<ColumnStore>,
}

impl ColumnFileTable {
    /// Whether the stores hold exactly `rows` under the columns `cols`.
    pub open spec fn holds(&self, cols: Seq<ColumnDef>, rows: Seq<Row>) -> bool {
        &&& self.columns@.len() == cols.len()
        &&& self.row_count == rows.len()
        &&& forall|j: int| 0 <= j < cols.len() ==> (#[trigger] self.columns@[j]).holds(column_values(rows, cols[j]))
    }

    /// An empty table for the columns `cols`.
    pub fn new(cols: &Vec<ColumnDef>) -> (r: ColumnFileTable)
        ensures
            r.holds(cols@, Seq::empty()),
    {
        let mut columns: Vec<ColumnStore> = Vec::new();
        let mut j: usize = 0;
        while j < cols.len()
            invariant
                j <= cols@.len(),
                columns@.len() == j,
                forall|i: int| 0 <= i < j ==> (#[trigger] columns@[i]).holds(Seq::empty()),
            decreases cols@.len() - j,
        {
            columns.push(ColumnStore::new());
            j = j + 1;
        }
        let r = ColumnFileTable { row_count: 0, columns };
        assert forall|i: int| 0 <= i < cols@.len() implies (#[trigger] r.columns@[i]).holds(
            column_values(Seq::empty(), cols@[i])) by {
            assert(column_values(Seq::empty(), cols@[i]) =~= Seq::<Value>::empty());
        }
        r
    }

    /// Validates `row` against `cols` as the in-memory engine does, then
    /// appends it to every column store. Returns its identifier, the row's position.
    pub fn append_row(&mut self, cols: &Vec<ColumnDef>, row: &Row) -> (r: Result<u64, DbError>)
        requires
            old(self).columns@.len() == cols@.len(),
        ensures
            match row_violation(cols@, *row) {
                Some((n, why)) => r matches Err(DbError::SchemaMismatch { column, reason })
                    && column@ == n && reason == why,
                None => if old(self).row_count == usize::MAX {
                    r == Err::<u64, DbError>(DbError::StorageFailure)
                } else {
                    r == Ok::<u64, DbError>(old(self).row_count as u64)
                },
            },
            r is Err ==> *final(self) == *old(self),
            r is Ok ==> forall|rows: Seq<Row>| old(self).holds(cols@, rows) ==> final(self).holds(cols@, rows.push(*row)),
            r is Ok ==> final(self).row_count == old(self).row_count + 1,
            r is Ok ==> forall|j: int| 0 <= j < cols@.len() ==> forall|vals: Seq<Value>|
                (#[trigger] old(self).columns@[j]).holds(vals)
                ==> final(self).columns@[j].holds(vals.push(field(*row, cols@[j]))),
            final(self).columns@.len() == cols@.len(),
    {
        match validate_row(cols, row) {
            Err(e) => { return Err(e); },
            Ok(()) => {},
        }
        if self.row_count == usize::MAX {
            return Err(DbError::StorageFailure);
        }
        let id = self.row_count;
        let ghost pre = *self;
        let mut j: usize = 0;
        while j < cols.len()
            invariant
                j <= cols@.len(),
                self.columns@.len() == cols@.len(),
                pre.columns@.len() == cols@.len(),
                forall|i: int| j <= i < cols@.len() ==> self.columns@[i] == pre.columns@[i],
                forall|i: int| 0 <= i < j ==> forall|vals: Seq<Value>| (#[trigger] pre.columns@[i]).holds(vals)
                    ==> self.columns@[i].holds(vals.push(field(*row, cols@[i]))),
            decreases cols@.len() - j,
        {
            let v = match row.get(cols[j].name.as_str()) {
                Some(x) => x.duplicate(),
                None => Value::Null,
            };
            let mut store = self.columns.remove(j);
            store.push_value(&v);
            self.columns.insert(j, store);
            j = j + 1;
        }
        self.row_count = id + 1;
        proof {
            assert forall|rows: Seq<Row>| pre.holds(cols@, rows) implies self.holds(cols@, rows.push(*row)) by {
                assert forall|i: int| 0 <= i < cols@.len() implies (#[trigger] self.columns@[i]).holds(
                    column_values(rows.push(*row), cols@[i])) by {
                    assert(pre.columns@[i].holds(column_values(rows, cols@[i])));
                    assert(column_values(rows.push(*row), cols@[i]) =~= column_values(rows, cols@[i]).push(field(*row, cols@[i])));
                }
            }
        }
        Ok(id as u64)
    }

    /// Whether store `j` holds `vs[j]` for every column, each with one value
    /// per row and every value of its column's type.
    pub open spec fn holds_values(&self, cols: Seq<ColumnDef>, vs: Seq<Seq<Value>>) -> bool {
        &&& self.columns@.len() == cols.len()
        &&& vs.len() == cols.len()
        &&& forall|j: int| 0 <= j < cols.len() ==> {
            &&& (#[trigger] self.columns@[j]).holds(vs[j])
            &&& vs[j].len() == self.row_count
            &&& forall|k: int| 0 <= k < vs[j].len() ==> (#[trigger] vs[j][k]).fits(cols[j].data_type)
        }
    }

    /// Rebuilds every row from the column stores: one cell per column of
    /// `cols`, in declared order. `StorageFailure` where a store is not
    /// well formed.
    pub fn scan(&self, cols: &Vec<ColumnDef>) -> (r: Result<Vec<Row>, DbError>)
        requires
            self.columns@.len() == cols@.len(),
        ensures
            forall|vs: Seq<Seq<Value>>| self.holds_values(cols@, vs)
                ==> (r matches Ok(out) && out@.len() == self.row_count
                    && forall|k: int| 0 <= k < self.row_count ==> {
                        &&& (#[trigger] out@[k]).cells@.len() == cols@.len()
                        &&& forall|j: int| 0 <= j < cols@.len() ==> {
                            &&& (#[trigger] out@[k].cells@[j]).column@ == cols@[j].name@
                            &&& out@[k].cells@[j].value.same_value(vs[j][k])
                        }
                    }),
    {
        let mut decoded: Vec<Vec<Value>> = Vec::new();
        let mut j: usize = 0;
        while j < cols.len()
            invariant
                j <= cols@.len(),
                self.columns@.len() == cols@.len(),
                decoded@.len() == j,
                forall|vs: Seq<Seq<Value>>| self.holds_values(cols@, vs)
                    ==> forall|i: int| 0 <= i < j ==> {
                        &&& (#[trigger] decoded@[i])@.len() == self.row_count
                        &&& forall|k: int| 0 <= k < self.row_count ==> (#[trigger] decoded@[i]@[k]).same_value(vs[i][k])
                    },
            decreases cols@.len() - j,
        {
            let ghost prev = decoded@;
            match self.columns[j].read_all(cols[j].data_type) {
                None => {
                    proof {
                        assert forall|vs: Seq<Seq<Value>>| self.holds_values(cols@, vs) implies false by {
                            assert(self.columns@[j as int].holds(vs[j as int]));
                        }
                    }
                    return Err(DbError::StorageFailure);
                },
                Some(vals) => {
                    decoded.push(vals);
                },
            }
            proof {
                assert forall|vs: Seq<Seq<Value>>| self.holds_values(cols@, vs)
                    implies forall|i: int| 0 <= i < j + 1 ==> {
                        &&& (#[trigger] decoded@[i])@.len() == self.row_count
                        &&& forall|k: int| 0 <= k < self.row_count ==> (#[trigger] decoded@[i]@[k]).same_value(vs[i][k])
                    } by {
                    assert(self.columns@[j as int].holds(vs[j as int]));
                    assert forall|i: int| 0 <= i < j + 1 implies {
                        &&& (#[trigger] decoded@[i])@.len() == self.row_count
                        &&& forall|k: int| 0 <= k < self.row_count ==> (#[trigger] decoded@[i]@[k]).same_value(vs[i][k])
                    } by {
                        if i < j {
                            assert(decoded@[i] == prev[i]);
                        }
                    }
                }
            }
            j = j + 1;
        }
        let mut out: Vec<Row> = Vec::new();
        let mut k: usize = 0;
        while k < self.row_count
            invariant
                k <= self.row_count,
                decoded@.len() == cols@.len(),
                self.columns@.len() == cols@.len(),
                out@.len() == k,
                forall|vs: Seq<Seq<Value>>| self.holds_values(cols@, vs)
                    ==> forall|i: int| 0 <= i < cols@.len() ==> {
                        &&& (#[trigger] decoded@[i])@.len() == self.row_count
                        &&& forall|m: int| 0 <= m < self.row_count ==> (#[trigger] decoded@[i]@[m]).same_value(vs[i][m])
                    },
                forall|m: int| 0 <= m < k ==> (#[trigger] out@[m]).cells@.len() == cols@.len()
                    && forall|j: int| 0 <= j < cols@.len() ==> (#[trigger] out@[m].cells@[j]).column@ == cols@[j].name@
                        && (out@[m].cells@[j].value == decoded@[j]@[m]),
            decreases self.row_count - k,
        {
            let mut cells: Vec<Cell> = Vec::new();
            let mut j: usize = 0;
            while j < cols.len()
                invariant
                    j <= cols@.len(),
                    decoded@.len() == cols@.len(),
                    cells@.len() == j,
                    k < self.row_count,
                    self.columns@.len() == cols@.len(),
                    forall|vs: Seq<Seq<Value>>| self.holds_values(cols@, vs)
                        ==> forall|i: int| 0 <= i < cols@.len() ==> (#[trigger] decoded@[i])@.len() == self.row_count,
                    forall|i: int| 0 <= i < j ==> (#[trigger] cells@[i]).column@ == cols@[i].name@
                        && k < decoded@[i]@.len() && cells@[i].value == decoded@[i]@[k as int],
                decreases cols@.len() - j,
            {
                if k >= decoded[j].len() {
                    proof {
                        assert forall|vs: Seq<Seq<Value>>| self.holds_values(cols@, vs) implies false by {
                            assert(decoded@[j as int]@.len() == self.row_count);
                        }
                    }
                    return Err(DbError::StorageFailure);
                }
                let v = decoded[j][k].duplicate();
                cells.push(Cell { column: cols[j].name.clone(), value: v });
                j = j + 1;
            }
            let ghost before = out@;
            out.push(Row { cells });
            proof {
                assert forall|m: int| 0 <= m < k + 1 implies (#[trigger] out@[m]).cells@.len() == cols@.len()
                    && forall|j: int| 0 <= j < cols@.len() ==> (#[trigger] out@[m].cells@[j]).column@ == cols@[j].name@
                        && (out@[m].cells@[j].value == decoded@[j]@[m]) by {
                    if m < k {
                        assert(out@[m] == before[m]);
                    }
                }
            }
            k = k + 1;
        }
        proof {
            assert forall|vs: Seq<Seq<Value>>| self.holds_values(cols@, vs)
                implies forall|m: int| 0 <= m < self.row_count ==> {
                    &&& (#[trigger] out@[m]).cells@.len() == cols@.len()
                    &&& forall|j: int| 0 <= j < cols@.len() ==> {
                        &&& (#[trigger] out@[m].cells@[j]).column@ == cols@[j].name@
                        &&& out@[m].cells@[j].value.same_value(vs[j][m])
                    }
                } by {
                assert forall|m: int| 0 <= m < self.row_count implies {
                    &&& (#[trigger] out@[m]).cells@.len() == cols@.len()
                    &&& forall|j: int| 0 <= j < cols@.len() ==> {
                        &&& (#[trigger] out@[m].cells@[j]).column@ == cols@[j].name@
                        &&& out@[m].cells@[j].value.same_value(vs[j][m])
                    }
                } by {
                    assert forall|j: int| 0 <= j < cols@.len() implies {
                        &&& (#[trigger] out@[m].cells@[j]).column@ == cols@[j].name@
                        &&& out@[m].cells@[j].value.same_value(vs[j][m])
                    } by {
                        assert(decoded@[j]@[m].same_value(vs[j][m]));
                    }
                }
            }
        }
        Ok(out)
    }
}

/// The column values of valid `rows`, as `holds_values` takes them.
pub open spec fn columns_of_rows(cols: Seq<ColumnDef>, rows: Seq<Row>) -> Seq<Seq<Value>> {
    Seq::new(cols.len(), |j: int| column_values(rows, cols[j]))
}

/// A table holding valid `rows` holds their column values in the form
/// `scan` takes: each a value of its column's type or `Null`.
pub proof fn lemma_rows_give_values(t: ColumnFileTable, cols: Seq<ColumnDef>, rows: Seq<Row>)
    requires
        t.holds(cols, rows),
        forall|k: int| 0 <= k < rows.len() ==> row_violation(cols, #[trigger] rows[k]) is None,
    ensures
        t.holds_values(cols, columns_of_rows(cols, rows)),
{
    let vs = columns_of_rows(cols, rows);
    assert forall|j: int| 0 <= j < cols.len() implies {
        &&& (#[trigger] t.columns@[j]).holds(vs[j])
        &&& vs[j].len() == t.row_count
        &&& forall|k: int| 0 <= k < vs[j].len() ==> (#[trigger] vs[j][k]).fits(cols[j].data_type)
    } by {
        lemma_column_fits(cols, rows, j);
        assert(vs[j] == column_values(rows, cols[j]));
    }
}

proof fn lemma_column_fits(cols: Seq<ColumnDef>, rows: Seq<Row>, j: int)
    requires
        0 <= j < cols.len(),
        forall|k: int| 0 <= k < rows.len() ==> row_violation(cols, #[trigger] rows[k]) is None,
    ensures
        forall|k: int| 0 <= k < rows.len() ==> (#[trigger] column_values(rows, cols[j])[k]).fits(cols[j].data_type),
{
    assert forall|k: int| 0 <= k < rows.len() implies (#[trigger] column_values(rows, cols[j])[k]).fits(cols[j].data_type) by {
        lemma_valid_row(cols, rows[k]);
        assert(field(rows[k], cols[j]).fits(cols[j].data_type));
    }
}

/// A column of `n` rows, all `Null`.
pub open spec fn nulls(n: nat) -> Seq<Value> {
    Seq::new(n, |k: int| Value::Null)
}

proof fn lemma_encode_nulls(n: nat)
    ensures
        encode_all(nulls(n)) == Seq::<u8>::empty(),
    decreases n,
{
    if n > 0 {
        assert(nulls(n).drop_last() =~= nulls((n - 1) as nat));
        lemma_encode_nulls((n - 1) as nat);
    }
}

impl ColumnStore {
    /// A column of `n` rows, all `Null`.
    pub fn null_column(n: usize) -> (r: ColumnStore)
        ensures
            r.holds(nulls(n as nat)),
    {
        let mut present: Vec<bool> = Vec::new();
        let mut i: usize = 0;
        while i < n
            invariant
                i <= n,
                present@ == presence(nulls(i as nat)),
            decreases n - i,
        {
            present.push(false);
            i = i + 1;
            assert(present@ =~= presence(nulls(i as nat)));
        }
        proof { lemma_encode_nulls(n as nat); }
        ColumnStore { bytes: Vec::new(), present }
    }

    /// A copy holding the same values.
    pub fn copy(&self) -> (r: ColumnStore)
        ensures
            r.bytes@ == self.bytes@,
            r.present@ == self.present@,
    {
        let mut bytes: Vec<u8> = Vec::new();
        let mut i: usize = 0;
        while i < self.bytes.len()
            invariant
                i <= self.bytes@.len(),
                bytes@ == self.bytes@.take(i as int),
            decreases self.bytes@.len() - i,
        {
            bytes.push(self.bytes[i]);
            i = i + 1;
            assert(bytes@ =~= self.bytes@.take(i as int));
        }
        let mut present: Vec<bool> = Vec::new();
        let mut k: usize = 0;
        while k < self.present.len()
            invariant
                k <= self.present@.len(),
                present@ == self.present@.take(k as int),
            decreases self.present@.len() - k,
        {
            present.push(self.present[k]);
            k = k + 1;
            assert(present@ =~= self.present@.take(k as int));
        }
        assert(bytes@ =~= self.bytes@);
        assert(present@ =~= self.present@);
        ColumnStore { bytes, present }
    }
}

/// Splits the bytes of a column at row `k`: the rows before it, row `k`
/// itself, and the rest.
pub proof fn lemma_encode_all_split(vals: Seq<Value>, k: int)
    requires
        0 <= k < vals.len(),
    ensures
        encode_all(vals.take(k + 1)) == encode_all(vals.take(k)) + encode_value(vals[k]),
        encode_all(vals) == encode_all(vals.take(k + 1)) + encode_all(vals.skip(k + 1)),
        encode_all(vals).subrange(encode_all(vals.take(k)).len() as int,
            (encode_all(vals.take(k)).len() + encode_value(vals[k]).len()) as int) == encode_value(vals[k]),
{
    assert(vals.take(k + 1).drop_last() == vals.take(k));
    lemma_encode_all_concat(vals.take(k + 1), vals.skip(k + 1));
    assert(vals.take(k + 1) + vals.skip(k + 1) == vals);
    let a = encode_all(vals.take(k));
    let e = encode_value(vals[k]);
    let b = encode_all(vals.skip(k + 1));
    assert(encode_all(vals) == a + e + b);
    assert((a + e + b).subrange(a.len() as int, (a.len() + e.len()) as int) =~= e);
}

/// The bytes of two runs of rows are the bytes of each, one after the other.
pub proof fn lemma_encode_all_concat(a: Seq<Value>, b: Seq<Value>)
    ensures
        encode_all(a + b) == encode_all(a) + encode_all(b),
    decreases b.len(),
{
    if b.len() == 0 {
        assert(a + b == a);
        assert(encode_all(a) + encode_all(b) =~= encode_all(a));
    } else {
        lemma_encode_all_concat(a, b.drop_last());
        assert((a + b).drop_last() == a + b.drop_last());
        assert((a + b).last() == b.last());
        assert(encode_all(a) + encode_all(b) =~= encode_all(a) + encode_all(b.drop_last()) + encode_value(b.last()));
    }
}

/// The characters of a string-like value.
pub open spec fn text_of(v: Value) -> Seq<char> {
    match v {
        Value::String(x) => x@,
        Value::Text(x) => x@,
        Value::Json(x) => x@,
        _ => Seq::empty(),
    }
}

/// Well-formed UTF-8 bytes are the encoding of what they decode to.
proof fn lemma_decode_encode_bytes(b: Seq<u8>)
    requires
        valid_utf8(b),
    ensures
        encode_utf8(decode_utf8(b)) == b,
{
    vstd::utf8::decode_utf8_encode_utf8(b);
}

} // verus!
