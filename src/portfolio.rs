//! The portfolio entity with typed fields, and its conversion to and from
//! a payload.  A field that is `None` is absent from the payload.
use vstd::prelude::*;

use crate::apply::{find_text, lookup, text_of};
use crate::record::{Field, FieldValue};
use crate::store::{opt_view, Row};
use crate::table_map::str_eq;

verus! {

/// A portfolio.
#[derive(Debug)]
pub struct Portfolio {
    pub id: String,
    pub name: String,
    pub description: Option<String>,
    pub base_currency: Option<String>,
    /// Unix timestamp of creation.
    pub created_at: i64,
    pub sync_version: i64,
    pub synced_at: Option<i64>,
}

/// The integer of a field value, if it is an integer.
pub open spec fn integer_of(v: Option<FieldValue>) -> Option<i64> {
    match v {
        Some(FieldValue::Integer(i)) => Some(i),
        _ => None,
    }
}

/// The payload of a portfolio: name, then description and base currency
/// when set, then the creation time.
pub open spec fn portfolio_payload(p: Portfolio) -> Seq<(Seq<char>, FieldValue)> {
    seq![("name"@, FieldValue::Text(p.name))]
        + match p.description {
        Some(d) => seq![("description"@, FieldValue::Text(d))],
        None => Seq::empty(),
    } + match p.base_currency {
        Some(c) => seq![("baseCurrency"@, FieldValue::Text(c))],
        None => Seq::empty(),
    } + seq![("createdAt"@, FieldValue::Integer(p.created_at))]
}

/// The integer of the first field with the given key, if it is an integer.
pub fn find_integer(data: &Vec<Field>, key: &str) -> (r: Option<i64>)
    ensures
        r == integer_of(lookup(data@, key@)),
{
    let mut i: usize = 0;
    proof {
        assert(data@.subrange(0, data@.len() as int) =~= data@);
    }
    while i < data.len()
        invariant
            i <= data@.len(),
            lookup(data@, key@) == lookup(data@.subrange(i as int, data@.len() as int), key@),
        decreases data.len() - i,
    {
        let ghost rest = data@.subrange(i as int, data@.len() as int);
        proof {
            assert(rest[0] == data@[i as int]);
            assert(rest.drop_first() =~= data@.subrange(i + 1, data@.len() as int));
        }
        if str_eq(data[i].key.as_str(), key) {
            return match &data[i].value {
                FieldValue::Integer(n) => Some(*n),
                _ => None,
            };
        }
        i = i + 1;
    }
    None
}

impl Portfolio {
    /// The payload of this portfolio, with unset fields left out.
    pub fn to_fields(&self) -> (r: Vec<Field>)
        ensures
            r@.len() == portfolio_payload(*self).len(),
            forall|i: int|
                0 <= i < r@.len() ==> (#[trigger] r@[i]).key@ == portfolio_payload(*self)[i].0 && r@[i].value
                    == portfolio_payload(*self)[i].1,
    {
        let mut out: Vec<Field> = Vec::new();
        out.push(Field { key: "name".to_owned(), value: FieldValue::Text(self.name.clone()) });
        match &self.description {
            Some(d) => out.push(Field { key: "description".to_owned(), value: FieldValue::Text(d.clone()) }),
            None => {},
        }
        match &self.base_currency {
            Some(c) => out.push(Field { key: "baseCurrency".to_owned(), value: FieldValue::Text(c.clone()) }),
            None => {},
        }
        out.push(Field { key: "createdAt".to_owned(), value: FieldValue::Integer(self.created_at) });
        out
    }

    /// Reads a portfolio back from a stored row: a missing name is empty, a
    /// missing creation time is zero.
    pub fn from_row(row: &Row) -> (p: Portfolio)
        ensures
            p.id@ == row.id@,
            p.name@ == match text_of(lookup(row.fields@, "name"@)) {
                Some(n) => n,
                None => Seq::empty(),
            },
            opt_view(p.description) == text_of(lookup(row.fields@, "description"@)),
            opt_view(p.base_currency) == text_of(lookup(row.fields@, "baseCurrency"@)),
            p.created_at == match integer_of(lookup(row.fields@, "createdAt"@)) {
                Some(t) => t,
                None => 0,
            },
            p.sync_version == row.sync_version,
            p.synced_at == row.synced_at,
    {
        let name = match find_text(&row.fields, "name") {
            Some(n) => n,
            None => String::new(),
        };
        let created_at = match find_integer(&row.fields, "createdAt") {
            Some(t) => t,
            None => 0,
        };
        Portfolio {
            id: row.id.clone(),
            name,
            description: find_text(&row.fields, "description"),
            base_currency: find_text(&row.fields, "baseCurrency"),
            created_at,
            sync_version: row.sync_version,
            synced_at: row.synced_at,
        }
    }
}

} // verus!
