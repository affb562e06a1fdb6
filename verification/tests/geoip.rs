use rustblog_core::geoip::{location_from, pick_name, unknown_location, CityRecord, GeoLocation, GeoLookup};

fn s(x: &str) -> Option<String> {
    Some(x.to_string())
}

#[test]
fn names_prefer_chinese_then_english_then_unknown() {
    assert_eq!(pick_name(s("美国"), s("United States")), "美国");
    assert_eq!(pick_name(None, s("United States")), "United States");
    assert_eq!(pick_name(None, None), "unknown");
    assert_eq!(pick_name(s(""), s("x")), "");
}

#[test]
fn unparsable_addresses_and_missing_database_give_unknown() {
    for outcome in [GeoLookup::InvalidIp, GeoLookup::NoDatabase] {
        let geo = location_from(outcome);
        assert_eq!(geo.country, "unknown");
        assert_eq!(geo.city, "unknown");
        assert_eq!(geo.region, "unknown");
    }
    let u = unknown_location();
    assert_eq!((u.country.as_str(), u.city.as_str(), u.region.as_str()), ("unknown", "unknown", "unknown"));
}

#[test]
fn found_records_use_the_chosen_names() {
    let rec = CityRecord {
        country_zh: s("美国"),
        country_en: s("United States"),
        city_zh: None,
        city_en: s("Mountain View"),
        region_zh: None,
        region_en: None,
    };
    let geo = location_from(GeoLookup::Found(rec));
    assert_eq!(geo.country, "美国");
    assert_eq!(geo.city, "Mountain View");
    assert_eq!(geo.region, "unknown");
}

#[test]
fn empty_or_failed_lookups_give_empty_names() {
    for outcome in [GeoLookup::NotFound, GeoLookup::Failed] {
        let geo = location_from(outcome);
        assert_eq!(geo.country, "");
        assert_eq!(geo.city, "");
        assert_eq!(geo.region, "");
    }
    let d = GeoLocation::default();
    assert!(d.country.is_empty() && d.city.is_empty() && d.region.is_empty());
}
