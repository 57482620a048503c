//! Typed field values, records, schemas and change operations.

use vstd::prelude::*;

verus! {

/// The type of a column.
#[derive(Clone, Copy, Debug, PartialEq, Eq, Structural)]
pub enum FieldType {
    Boolean,
    Int,
    UInt,
    Float,
    String,
    Binary,
    Timestamp,
    Decimal,
    Date,
    Json,
}

/// A tagged value.
///
/// `Float` holds the IEEE 754 binary64 bit pattern of the number, `Timestamp`
/// milliseconds since the Unix epoch, `Decimal` a mantissa and a scale (the
/// value is `mantissa / 10^scale`), `Date` days since the Unix epoch.
#[derive(Debug, PartialEq, Eq)]
pub enum Field {
    Null,
    Boolean(bool),
    Int(i64),
    UInt(u64),
    Float(u64),
    String(String),
    Binary(Vec<u8>),
    Timestamp(i64),
    Decimal(i128, u32),
    Date(i32),
    Json(String),
}

/// The mathematical value of a [`Field`].
pub enum FieldValue {
    Null,
    Boolean(bool),
    Int(i64),
    UInt(u64),
    Float(u64),
    String(Seq<char>),
    Binary(Seq<u8>),
    Timestamp(i64),
    Decimal(i128, u32),
    Date(i32),
    Json(Seq<char>),
}

impl View for Field {
    type V = FieldValue;

    open spec fn view(&self) -> FieldValue {
        match self {
            Field::Null => FieldValue::Null,
            Field::Boolean(b) => FieldValue::Boolean(*b),
            Field::Int(i) => FieldValue::Int(*i),
            Field::UInt(u) => FieldValue::UInt(*u),
            Field::Float(bits) => FieldValue::Float(*bits),
            Field::String(s) => FieldValue::String(s@),
            Field::Binary(b) => FieldValue::Binary(b@),
            Field::Timestamp(t) => FieldValue::Timestamp(*t),
            Field::Decimal(m, s) => FieldValue::Decimal(*m, *s),
            Field::Date(d) => FieldValue::Date(*d),
            Field::Json(s) => FieldValue::Json(s@),
        }
    }
}

impl Clone for Field {
    fn clone(&self) -> (res: Self)
        ensures
            res@ == self@,
    {
        match self {
            Field::Null => Field::Null,
            Field::Boolean(b) => Field::Boolean(*b),
            Field::Int(i) => Field::Int(*i),
            Field::UInt(u) => Field::UInt(*u),
            Field::Float(bits) => Field::Float(*bits),
            Field::String(s) => Field::String(s.clone()),
            Field::Binary(b) => {
                let c = b.clone();
                assert(c@ =~= b@);
                Field::Binary(c)
            },
            Field::Timestamp(t) => Field::Timestamp(*t),
            Field::Decimal(m, s) => Field::Decimal(*m, *s),
            Field::Date(d) => Field::Date(*d),
            Field::Json(s) => Field::Json(s.clone()),
        }
    }
}

/// Whether two byte strings hold the same bytes.
pub fn bytes_equal(a: &Vec<u8>, b: &Vec<u8>) -> (res: bool)
    ensures
        res == (a@ == b@),
{
    if a.len() != b.len() {
        return false;
    }
    let mut i: usize = 0;
    while i < a.len()
        invariant
            a.len() == b.len(),
            i <= a.len(),
            forall|j: int| 0 <= j < i ==> a@[j] == b@[j],
        decreases a.len() - i,
    {
        if a[i] != b[i] {
            return false;
        }
        i += 1;
    }
    assert(a@ =~= b@);
    true
}

impl Field {
    /// Whether two fields hold the same value.
    pub fn equals(&self, other: &Field) -> (res: bool)
        ensures
            res == (self@ == other@),
    {
        match (self, other) {
            (Field::Null, Field::Null) => true,
            (Field::Boolean(a), Field::Boolean(b)) => *a == *b,
            (Field::Int(a), Field::Int(b)) => *a == *b,
            (Field::UInt(a), Field::UInt(b)) => *a == *b,
            (Field::Float(a), Field::Float(b)) => *a == *b,
            (Field::String(a), Field::String(b)) => *a == *b,
            (Field::Binary(a), Field::Binary(b)) => bytes_equal(a, b),
            (Field::Timestamp(a), Field::Timestamp(b)) => *a == *b,
            (Field::Decimal(am, asc), Field::Decimal(bm, bsc)) => *am == *bm && *asc == *bsc,
            (Field::Date(a), Field::Date(b)) => *a == *b,
            (Field::Json(a), Field::Json(b)) => *a == *b,
            _ => false,
        }
    }
}

/// The views of a sequence of fields.
pub open spec fn field_values(fields: Seq<Field>) -> Seq<FieldValue> {
    Seq::new(fields.len(), |i: int| fields[i]@)
}

/// A column: name, type and whether `Null` is allowed in it.
#[derive(Debug, PartialEq, Eq)]
pub struct FieldDefinition {
    pub name: String,
    pub typ: FieldType,
    pub nullable: bool,
}

/// The mathematical value of a [`FieldDefinition`].
pub struct FieldDefinitionValue {
    pub name: Seq<char>,
    pub typ: FieldType,
    pub nullable: bool,
}

impl View for FieldDefinition {
    type V = FieldDefinitionValue;

    open spec fn view(&self) -> FieldDefinitionValue {
        FieldDefinitionValue { name: self.name@, typ: self.typ, nullable: self.nullable }
    }
}

impl Clone for FieldDefinition {
    fn clone(&self) -> (res: Self)
        ensures
            res@ == self@,
    {
        FieldDefinition { name: self.name.clone(), typ: self.typ, nullable: self.nullable }
    }
}

impl FieldDefinition {
    pub fn new(name: String, typ: FieldType, nullable: bool) -> (res: Self)
        ensures
            res.name == name,
            res.typ == typ,
            res.nullable == nullable,
    {
        FieldDefinition { name, typ, nullable }
    }
}

/// Names a schema and its revision.
#[derive(Clone, Copy, Debug, PartialEq, Eq, Structural)]
pub struct SchemaIdentifier {
    pub id: u32,
    pub version: u16,
}

/// A record: one value per column, and optionally the schema it follows and
/// a version counter.
#[derive(Debug, PartialEq, Eq)]
pub struct Record {
    pub schema_id: Option<SchemaIdentifier>,
    pub values: Vec<Field>,
    pub version: Option<u32>,
}

/// The mathematical value of a [`Record`].
pub struct RecordValue {
    pub schema_id: Option<SchemaIdentifier>,
    pub values: Seq<FieldValue>,
    pub version: Option<u32>,
}

impl View for Record {
    type V = RecordValue;

    open spec fn view(&self) -> RecordValue {
        RecordValue {
            schema_id: self.schema_id,
            values: field_values(self.values@),
            version: self.version,
        }
    }
}

/// A copy of a list of fields.
pub fn clone_fields(fields: &Vec<Field>) -> (res: Vec<Field>)
    ensures
        field_values(res@) == field_values(fields@),
{
    let mut out: Vec<Field> = Vec::new();
    let mut i: usize = 0;
    while i < fields.len()
        invariant
            i <= fields.len(),
            out.len() == i,
            forall|j: int| 0 <= j < i ==> out@[j]@ == fields@[j]@,
        decreases fields.len() - i,
    {
        out.push(fields[i].clone());
        i += 1;
    }
    assert(field_values(out@) =~= field_values(fields@));
    out
}

impl Clone for Record {
    fn clone(&self) -> (res: Self)
        ensures
            res@ == self@,
    {
        Record {
            schema_id: self.schema_id,
            values: clone_fields(&self.values),
            version: self.version,
        }
    }
}

impl Record {
    pub fn new(schema_id: Option<SchemaIdentifier>, values: Vec<Field>, version: Option<u32>) -> (res:
        Self)
        ensures
            res.schema_id == schema_id,
            res.values == values,
            res.version == version,
    {
        Record { schema_id, values, version }
    }

    /// A record of `size` columns, each `Null`.
    pub fn nulls(schema_id: Option<SchemaIdentifier>, size: usize, version: Option<u32>) -> (res:
        Self)
        ensures
            res@.schema_id == schema_id,
            res@.version == version,
            res@.values == Seq::new(size as nat, |i: int| FieldValue::Null),
            res.values@.len() == size,
    {
        let mut values: Vec<Field> = Vec::new();
        let mut i: usize = 0;
        while i < size
            invariant
                i <= size,
                values.len() == i,
                forall|j: int| 0 <= j < i ==> values@[j]@ == FieldValue::Null,
            decreases size - i,
        {
            values.push(Field::Null);
            i += 1;
        }
        assert(field_values(values@) =~= Seq::new(size as nat, |i: int| FieldValue::Null));
        Record { schema_id, values, version }
    }

    /// Puts `value` in column `idx`.
    pub fn set_value(&mut self, idx: usize, value: Field)
        requires
            idx < old(self).values.len(),
        ensures
            final(self)@.schema_id == old(self)@.schema_id,
            final(self)@.version == old(self)@.version,
            final(self)@.values == old(self)@.values.update(idx as int, value@),
            final(self).values@.len() == old(self).values@.len(),
    {
        self.values.set(idx, value);
        assert(field_values(self.values@) =~= field_values(old(self).values@).update(
            idx as int,
            value@,
        ));
    }
}

/// A change to a relation.
#[derive(Debug, PartialEq, Eq)]
pub enum Operation {
    Delete { old: Record },
    Insert { new: Record },
    Update { old: Record, new: Record },
}

/// The mathematical value of an [`Operation`].
pub enum OperationValue {
    Delete { old: RecordValue },
    Insert { new: RecordValue },
    Update { old: RecordValue, new: RecordValue },
}

impl View for Operation {
    type V = OperationValue;

    open spec fn view(&self) -> OperationValue {
        match self {
            Operation::Delete { old } => OperationValue::Delete { old: old@ },
            Operation::Insert { new } => OperationValue::Insert { new: new@ },
            Operation::Update { old, new } => OperationValue::Update { old: old@, new: new@ },
        }
    }
}

impl Clone for Operation {
    fn clone(&self) -> (res: Self)
        ensures
            res@ == self@,
    {
        match self {
            Operation::Delete { old } => Operation::Delete { old: old.clone() },
            Operation::Insert { new } => Operation::Insert { new: new.clone() },
            Operation::Update { old, new } => Operation::Update {
                old: old.clone(),
                new: new.clone(),
            },
        }
    }
}

/// The views of a sequence of operations.
pub open spec fn operation_values(ops: Seq<Operation>) -> Seq<OperationValue> {
    Seq::new(ops.len(), |i: int| ops[i]@)
}

/// The columns of a relation, and which of them are stored and which make
/// up the primary key.
#[derive(Debug, PartialEq, Eq)]
pub struct Schema {
    pub identifier: Option<SchemaIdentifier>,
    pub fields: Vec<FieldDefinition>,
    pub values: Vec<usize>,
    pub primary_index: Vec<usize>,
}

/// The mathematical value of a [`Schema`].
pub struct SchemaValue {
    pub identifier: Option<SchemaIdentifier>,
    pub fields: Seq<FieldDefinitionValue>,
    pub values: Seq<usize>,
    pub primary_index: Seq<usize>,
}

impl View for Schema {
    type V = SchemaValue;

    open spec fn view(&self) -> SchemaValue {
        SchemaValue {
            identifier: self.identifier,
            fields: Seq::new(self.fields@.len(), |i: int| self.fields@[i]@),
            values: self.values@,
            primary_index: self.primary_index@,
        }
    }
}

impl Clone for Schema {
    fn clone(&self) -> (res: Self)
        ensures
            res@ == self@,
    {
        let mut fields: Vec<FieldDefinition> = Vec::new();
        let mut i: usize = 0;
        while i < self.fields.len()
            invariant
                i <= self.fields.len(),
                fields.len() == i,
                forall|j: int| 0 <= j < i ==> fields@[j]@ == self.fields@[j]@,
            decreases self.fields.len() - i,
        {
            fields.push(self.fields[i].clone());
            i += 1;
        }
        let values = self.values.clone();
        let primary_index = self.primary_index.clone();
        assert(values@ =~= self.values@);
        assert(primary_index@ =~= self.primary_index@);
        let res = Schema { identifier: self.identifier, fields, values, primary_index };
        assert(res@.fields =~= self@.fields);
        res
    }
}

impl Schema {
    /// A schema without columns.
    pub fn empty() -> (res: Self)
        ensures
            res@.identifier is None,
            res@.fields.len() == 0,
            res@.values.len() == 0,
            res@.primary_index.len() == 0,
    {
        Schema {
            identifier: None,
            fields: Vec::new(),
            values: Vec::new(),
            primary_index: Vec::new(),
        }
    }

    /// Adds a column at the end. With `value` it is listed among the stored
    /// columns, with `pk` among those of the primary key.
    pub fn field(&mut self, f: FieldDefinition, value: bool, pk: bool)
        ensures
            final(self)@.identifier == old(self)@.identifier,
            final(self)@.fields == old(self)@.fields.push(f@),
            final(self)@.values == if value {
                old(self)@.values.push(old(self)@.fields.len() as usize)
            } else {
                old(self)@.values
            },
            final(self)@.primary_index == if pk {
                old(self)@.primary_index.push(old(self)@.fields.len() as usize)
            } else {
                old(self)@.primary_index
            },
    {
        let idx = self.fields.len();
        self.fields.push(f);
        if value {
            self.values.push(idx);
        }
        if pk {
            self.primary_index.push(idx);
        }
        assert(self@.fields =~= old(self)@.fields.push(f@));
    }
}

} // verus!
