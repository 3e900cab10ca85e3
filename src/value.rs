use vstd::prelude::*;

verus! {

/// Logical type of a column.
#[derive(Debug, Clone, Copy, PartialEq, Eq, Structural)]
pub enum ColumnType {
    Int,
    Float,
    String,
    Bool,
    Timestamp,
    Decimal,
    Text,
    Json,
}

/// Fixed-point decimal: `mantissa * 10^(-scale)`, scale kept as given.
#[derive(Debug, Clone, Copy, PartialEq, Eq, Structural)]
pub struct DecimalValue {
    pub mantissa: i128,
    pub scale: u32,
}

/// Largest magnitude (exclusive) of a decimal's unscaled integer: 2^96.
pub const DECIMAL_MANTISSA_LIMIT: i128 = 79228162514264337593543950336;

/// Largest decimal scale.
pub const DECIMAL_MAX_SCALE: u32 = 28;

impl DecimalValue {
    /// The unscaled integer fits in 96 bits and the scale is at most 28.
    pub open spec fn in_range(&self) -> bool {
        &&& -DECIMAL_MANTISSA_LIMIT < self.mantissa < DECIMAL_MANTISSA_LIMIT
        &&& self.scale <= DECIMAL_MAX_SCALE
    }

    pub fn is_in_range(&self) -> (r: bool)
        ensures
            r == self.in_range(),
    {
        -DECIMAL_MANTISSA_LIMIT < self.mantissa && self.mantissa < DECIMAL_MANTISSA_LIMIT
            && self.scale <= DECIMAL_MAX_SCALE
    }
}

/// One cell value. Floats are carried as their IEEE-754 bit pattern,
/// timestamps as milliseconds since the Unix epoch, JSON documents as text.
#[derive(Debug, Clone, PartialEq)]
pub enum Value {
    Int(i64),
    Float(u64),
    Bool(bool),
    String(String),
    Timestamp(i64),
    Decimal(DecimalValue),
    Text(String),
    Json(String),
    Null,
}

impl Value {
    /// Whether this value may occupy a column of type `t` (nullability aside).
    pub open spec fn fits(&self, t: ColumnType) -> bool {
        match self {
            Value::Int(_) => t == ColumnType::Int,
            Value::Float(_) => t == ColumnType::Float,
            Value::Bool(_) => t == ColumnType::Bool,
            Value::String(_) => t == ColumnType::String,
            Value::Timestamp(_) => t == ColumnType::Timestamp,
            Value::Decimal(d) => t == ColumnType::Decimal && d.in_range(),
            Value::Text(_) => t == ColumnType::Text,
            Value::Json(_) => t == ColumnType::Json,
            Value::Null => true,
        }
    }

    /// Equality of values with strings compared by their characters.
    pub open spec fn same_value(&self, other: Value) -> bool {
        match (*self, other) {
            (Value::String(a), Value::String(b)) => a@ == b@,
            (Value::Text(a), Value::Text(b)) => a@ == b@,
            (Value::Json(a), Value::Json(b)) => a@ == b@,
            (Value::String(_), _) | (Value::Text(_), _) | (Value::Json(_), _) => false,
            _ => *self == other,
        }
    }

    pub open spec fn is_null_spec(&self) -> bool {
        self is Null
    }

    pub fn is_null(&self) -> (r: bool)
        ensures
            r == self.is_null_spec(),
    {
        match self {
            Value::Null => true,
            _ => false,
        }
    }

    /// Tag check of a value against a column type; `Null` fits every type.
    pub fn fits_type(&self, t: ColumnType) -> (r: bool)
        ensures
            r == self.fits(t),
    {
        match self {
            Value::Int(_) => t == ColumnType::Int,
            Value::Float(_) => t == ColumnType::Float,
            Value::Bool(_) => t == ColumnType::Bool,
            Value::String(_) => t == ColumnType::String,
            Value::Timestamp(_) => t == ColumnType::Timestamp,
            Value::Decimal(d) => t == ColumnType::Decimal && d.is_in_range(),
            Value::Text(_) => t == ColumnType::Text,
            Value::Json(_) => t == ColumnType::Json,
            Value::Null => true,
        }
    }

    /// A copy equal to `self`.
    pub fn duplicate(&self) -> (r: Value)
        ensures
            r == *self,
    {
        match self {
            Value::Int(i) => Value::Int(*i),
            Value::Float(b) => Value::Float(*b),
            Value::Bool(b) => Value::Bool(*b),
            Value::String(s) => Value::String(s.clone()),
            Value::Timestamp(t) => Value::Timestamp(*t),
            Value::Decimal(d) => Value::Decimal(*d),
            Value::Text(s) => Value::Text(s.clone()),
            Value::Json(s) => Value::Json(s.clone()),
            Value::Null => Value::Null,
        }
    }
}

} // verus!
