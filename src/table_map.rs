//! Translation between the wire protocol's table names (camelCase) and the
//! local store's table names (snake_case).  A name with no explicit mapping
//! is the same on both sides.
use vstd::prelude::*;

verus! {

/// Wire name of a local table name.
pub open spec fn spec_db_to_sync(db_name: Seq<char>) -> Seq<char> {
    if db_name == "portfolio_entries"@ {
        "portfolioEntries"@
    } else if db_name == "bond_coupon_payments"@ {
        "bondCouponPayments"@
    } else {
        db_name
    }
}

/// Local name of a wire table name.
pub open spec fn spec_sync_to_db(sync_name: Seq<char>) -> Seq<char> {
    if sync_name == "portfolioEntries"@ {
        "portfolio_entries"@
    } else if sync_name == "bondCouponPayments"@ {
        "bond_coupon_payments"@
    } else {
        sync_name
    }
}

/// Character-wise equality of two string slices.
pub fn str_eq(a: &str, b: &str) -> (r: bool)
    ensures
        r == (a@ == b@),
{
    let x: String = a.to_owned();
    let y: String = b.to_owned();
    x == y
}

/// Converts a wire table name to the local table name.
pub fn sync_to_db(sync_name: &str) -> (r: &str)
    ensures
        r@ == spec_sync_to_db(sync_name@),
{
    if str_eq(sync_name, "portfolioEntries") {
        "portfolio_entries"
    } else if str_eq(sync_name, "bondCouponPayments") {
        "bond_coupon_payments"
    } else {
        sync_name
    }
}

/// Converts a local table name to the wire table name.
pub fn db_to_sync(db_name: &str) -> (r: &str)
    ensures
        r@ == spec_db_to_sync(db_name@),
{
    if str_eq(db_name, "portfolio_entries") {
        "portfolioEntries"
    } else if str_eq(db_name, "bond_coupon_payments") {
        "bondCouponPayments"
    } else {
        db_name
    }
}

/// Mapping a local name to the wire and back gives the local name again,
/// except for a local name that is itself one of the two wire spellings.
pub proof fn lemma_db_round_trip(db_name: Seq<char>)
    requires
        db_name != "portfolioEntries"@,
        db_name != "bondCouponPayments"@,
    ensures
        spec_sync_to_db(spec_db_to_sync(db_name)) == db_name,
{
    reveal_strlit("portfolioEntries");
    reveal_strlit("bondCouponPayments");
    reveal_strlit("portfolio_entries");
    reveal_strlit("bond_coupon_payments");
    assert("portfolioEntries"@.len() == 16);
    assert("portfolio_entries"@.len() == 17);
    assert("bondCouponPayments"@.len() == 18);
    assert("bond_coupon_payments"@.len() == 20);
}

} // verus!
