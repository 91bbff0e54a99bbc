//! The transport-neutral envelope exchanged with the remote server.
use vstd::prelude::*;

verus! {

/// The three synchronized tables, in parent-to-child order.
#[derive(Clone, Copy, Debug, PartialEq, Eq, Structural)]
pub enum TableKind {
    Portfolio,
    Entry,
    CouponPayment,
}

/// Position of a table when upserts are replayed: parents first.
pub open spec fn upsert_rank(k: TableKind) -> int {
    match k {
        TableKind::Portfolio => 0,
        TableKind::Entry => 1,
        TableKind::CouponPayment => 2,
    }
}

/// Position of a table when tombstones are replayed: children first.
pub open spec fn delete_rank(k: TableKind) -> int {
    2 - upsert_rank(k)
}

/// Local (storage) name of each table.
pub open spec fn spec_local_name(k: TableKind) -> Seq<char> {
    match k {
        TableKind::Portfolio => "portfolios"@,
        TableKind::Entry => "portfolio_entries"@,
        TableKind::CouponPayment => "bond_coupon_payments"@,
    }
}

/// Key under which a child row's parent id travels in the envelope payload.
pub open spec fn spec_parent_key(k: TableKind) -> Seq<char> {
    match k {
        TableKind::Portfolio => ""@,
        TableKind::Entry => "portfolioSyncUuid"@,
        TableKind::CouponPayment => "entrySyncUuid"@,
    }
}

/// A domain value carried in a payload.  Real numbers travel as the raw
/// IEEE-754 bit pattern so that they round-trip exactly.
#[derive(Clone, Debug, PartialEq, Eq)]
pub enum FieldValue {
    Text(String),
    Integer(i64),
    Real(u64),
    Boolean(bool),
}

/// One key/value pair of a payload.  A field whose value is null is simply
/// absent from a payload.
#[derive(Clone, Debug, PartialEq, Eq)]
pub struct Field {
    pub key: String,
    pub value: FieldValue,
}

/// The wire envelope: one changed row of one table.
#[derive(Clone, Debug)]
pub struct SyncRecord {
    pub table_name: String,
    pub row_id: String,
    pub data: Vec<Field>,
    pub version: i64,
    pub deleted: bool,
}

/// The opaque cursor marking how far remote changes have been pulled.
#[derive(Clone, Debug, PartialEq, Eq)]
pub struct Checkpoint {
    pub updated_at: String,
    pub id: String,
}

impl TableKind {
    /// The local storage name of the table.
    pub fn local_name(&self) -> (r: &'static str)
        ensures
            r@ == spec_local_name(*self),
    {
        match self {
            TableKind::Portfolio => "portfolios",
            TableKind::Entry => "portfolio_entries",
            TableKind::CouponPayment => "bond_coupon_payments",
        }
    }
}

/// Copies a field value.
pub fn copy_value(v: &FieldValue) -> (r: FieldValue)
    ensures
        r == *v,
{
    match v {
        FieldValue::Text(s) => FieldValue::Text(s.clone()),
        FieldValue::Integer(i) => FieldValue::Integer(*i),
        FieldValue::Real(b) => FieldValue::Real(*b),
        FieldValue::Boolean(b) => FieldValue::Boolean(*b),
    }
}

/// Copies a payload field by field.
pub fn copy_fields(fields: &Vec<Field>) -> (r: Vec<Field>)
    ensures
        r@ == fields@,
{
    let mut out: Vec<Field> = Vec::new();
    let mut i: usize = 0;
    while i < fields.len()
        invariant
            i <= fields.len(),
            out@ == fields@.subrange(0, i as int),
        decreases fields.len() - i,
    {
        let f = Field { key: fields[i].key.clone(), value: copy_value(&fields[i].value) };
        out.push(f);
        i = i + 1;
        assert(out@ =~= fields@.subrange(0, i as int));
    }
    assert(fields@.subrange(0, fields.len() as int) =~= fields@);
    out
}

} // verus!
