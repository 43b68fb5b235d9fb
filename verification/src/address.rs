//! The address record and the acceptance filter of the insertion pipeline.

use vstd::prelude::*;

verus! {

/// An address at the specification level: each text field as its sequence of
/// characters.
pub struct AddressView {
    pub lat: Seq<char>,
    pub lon: Seq<char>,
    pub number: Option<Seq<char>>,
    pub street: Option<Seq<char>>,
    pub unit: Option<Seq<char>>,
    pub city: Option<Seq<char>>,
    pub district: Option<Seq<char>>,
    pub region: Option<Seq<char>>,
    pub postcode: Option<Seq<char>>,
}

/// A geocoded postal address, immutable once accepted.
///
/// The coordinates are carried as the decimal text they were read with; the
/// deduplication logic never interprets them numerically, so nothing is lost
/// by keeping them textual, and the dump emits them unchanged.
pub struct Address {
    pub lat: String,
    pub lon: String,
    pub number: Option<String>,
    pub street: Option<String>,
    pub unit: Option<String>,
    pub city: Option<String>,
    pub district: Option<String>,
    pub region: Option<String>,
    pub postcode: Option<String>,
}

impl View for Address {
    type V = AddressView;

    open spec fn view(&self) -> AddressView {
        AddressView {
            lat: self.lat@,
            lon: self.lon@,
            number: self.number.deep_view(),
            street: self.street.deep_view(),
            unit: self.unit.deep_view(),
            city: self.city.deep_view(),
            district: self.district.deep_view(),
            region: self.region.deep_view(),
            postcode: self.postcode.deep_view(),
        }
    }
}

impl Clone for Address {
    fn clone(&self) -> (r: Self)
        ensures
            r@ == self@,
    {
        Address {
            lat: self.lat.clone(),
            lon: self.lon.clone(),
            number: clone_opt(&self.number),
            street: clone_opt(&self.street),
            unit: clone_opt(&self.unit),
            city: clone_opt(&self.city),
            district: clone_opt(&self.district),
            region: clone_opt(&self.region),
            postcode: clone_opt(&self.postcode),
        }
    }
}

fn clone_opt(o: &Option<String>) -> (r: Option<String>)
    ensures
        r.deep_view() == o.deep_view(),
{
    match o {
        Some(s) => Some(s.clone()),
        None => None,
    }
}

/// The sentinel in the `number` field that means "no number assigned".
pub open spec fn spec_sentinel() -> Seq<char> {
    "S/N"@
}

/// The default acceptance filter: an address enters the store only if its
/// number is present and is not the sentinel, and its street is present and
/// non-empty.
pub open spec fn spec_accepts(a: AddressView) -> bool {
    &&& a.number matches Some(n) && n != spec_sentinel()
    &&& a.street matches Some(s) && s.len() > 0
}

/// Decides whether an address passes the default acceptance filter.
pub fn accepts(a: &Address) -> (r: bool)
    ensures
        r == spec_accepts(a@),
{
    match (&a.number, &a.street) {
        (Some(number), Some(street)) => {
            let sentinel: String = "S/N".to_owned();
            *number != sentinel && !street.as_str().is_empty()
        },
        _ => false,
    }
}

} // verus!
