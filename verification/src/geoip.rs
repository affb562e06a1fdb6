//! Locations of IP addresses: how a decoded city record becomes a country, city and region.
use vstd::prelude::*;
use crate::text::owned;

verus! {

/// Where an IP address is.
#[derive(Debug, Clone)]
pub struct GeoLocation {
    pub country: String,
    pub city: String,
    pub region: String,
}

impl Default for GeoLocation {
    fn default() -> (r: GeoLocation)
        ensures
            r.country@ == Seq::<char>::empty(),
            r.city@ == Seq::<char>::empty(),
            r.region@ == Seq::<char>::empty(),
    {
        GeoLocation { country: String::new(), city: String::new(), region: String::new() }
    }
}

/// The names a decoded city record offers, each in simplified Chinese and in English where
/// the record has them; the region is that of the first subdivision.
pub struct CityRecord {
    pub country_zh: Option<String>,
    pub country_en: Option<String>,
    pub city_zh: Option<String>,
    pub city_en: Option<String>,
    pub region_zh: Option<String>,
    pub region_en: Option<String>,
}

/// How a lookup of an address ended.
pub enum GeoLookup {
    /// No location database is loaded.
    NoDatabase,
    /// The text is not an IP address.
    InvalidIp,
    /// The database holds a record for the address.
    Found(CityRecord),
    /// The database holds nothing for the address.
    NotFound,
    /// The lookup or the decoding failed.
    Failed,
}

/// The name shown for a place: the Chinese name, else the English one, else `unknown`.
pub open spec fn chosen_name(zh: Option<String>, en: Option<String>) -> Seq<char> {
    match zh {
        Some(s) => s@,
        None => match en {
            Some(s) => s@,
            None => seq!['u', 'n', 'k', 'n', 'o', 'w', 'n'],
        },
    }
}

/// The text `unknown`.
pub fn unknown_text() -> (r: String)
    ensures
        r@ == seq!['u', 'n', 'k', 'n', 'o', 'w', 'n'],
{
    let s = "unknown";
    proof { reveal_strlit("unknown"); }
    owned(s)
}

/// The name shown for a place: the Chinese name, else the English one, else `unknown`.
pub fn pick_name(zh: Option<String>, en: Option<String>) -> (r: String)
    ensures
        r@ == chosen_name(zh, en),
{
    match zh {
        Some(s) => s,
        None => match en {
            Some(s) => s,
            None => unknown_text(),
        },
    }
}

/// The location whose three names are all `unknown`.
pub fn unknown_location() -> (r: GeoLocation)
    ensures
        r.country@ == seq!['u', 'n', 'k', 'n', 'o', 'w', 'n'],
        r.city@ == seq!['u', 'n', 'k', 'n', 'o', 'w', 'n'],
        r.region@ == seq!['u', 'n', 'k', 'n', 'o', 'w', 'n'],
{
    GeoLocation { country: unknown_text(), city: unknown_text(), region: unknown_text() }
}

/// The location a lookup gives: all `unknown` without a database or for text that is no IP
/// address; the chosen names of a found record; empty names when the database holds nothing
/// for the address or the lookup failed.
pub fn location_from(outcome: GeoLookup) -> (r: GeoLocation)
    ensures
        match outcome {
            GeoLookup::NoDatabase | GeoLookup::InvalidIp => r.country@ == seq!['u', 'n', 'k', 'n', 'o', 'w', 'n']
                && r.city@ == seq!['u', 'n', 'k', 'n', 'o', 'w', 'n']
                && r.region@ == seq!['u', 'n', 'k', 'n', 'o', 'w', 'n'],
            GeoLookup::Found(rec) => r.country@ == chosen_name(rec.country_zh, rec.country_en)
                && r.city@ == chosen_name(rec.city_zh, rec.city_en)
                && r.region@ == chosen_name(rec.region_zh, rec.region_en),
            GeoLookup::NotFound | GeoLookup::Failed => r.country@ == Seq::<char>::empty()
                && r.city@ == Seq::<char>::empty() && r.region@ == Seq::<char>::empty(),
        },
{
    match outcome {
        GeoLookup::NoDatabase => unknown_location(),
        GeoLookup::InvalidIp => unknown_location(),
        GeoLookup::Found(rec) => GeoLocation {
            country: pick_name(rec.country_zh, rec.country_en),
            city: pick_name(rec.city_zh, rec.city_en),
            region: pick_name(rec.region_zh, rec.region_en),
        },
        GeoLookup::NotFound => GeoLocation::default(),
        GeoLookup::Failed => GeoLocation::default(),
    }
}

} // verus!
