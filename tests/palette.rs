use supply_layout::palette::{get_activity_color, get_supply_color, ActivityLevel, ColorString, SupplyLevel};

#[test]
fn activity_colors() {
    assert_eq!(get_activity_color(&ActivityLevel::Strong).as_str(), "#22c55e");
    assert_eq!(get_activity_color(&ActivityLevel::Growing).as_str(), "#86efac");
    assert_eq!(get_activity_color(&ActivityLevel::Weak).as_str(), "#eab308");
    assert_eq!(get_activity_color(&ActivityLevel::Restricted).as_str(), "#ef4444");
}

#[test]
fn supply_colors() {
    assert_eq!(get_supply_color(&SupplyLevel::Abundant).as_str(), "#22c55e");
    assert_eq!(get_supply_color(&SupplyLevel::High).as_str(), "#86efac");
    assert_eq!(get_supply_color(&SupplyLevel::Moderate).as_str(), "#fde047");
    assert_eq!(get_supply_color(&SupplyLevel::Limited).as_str(), "#f97316");
    assert_eq!(get_supply_color(&SupplyLevel::Scarce).as_str(), "#ef4444");
}

#[test]
fn color_string_round_trip() {
    let c = ColorString::new("#666");
    assert_eq!(c.as_str(), "#666");
    assert_eq!(ColorString::from(String::from("#eee")), ColorString::new("#eee"));
}

#[test]
fn color_string_from_literal() {
    assert_eq!(ColorString::from("#eee").as_str(), "#eee");
    assert_eq!(ColorString::from("#eee"), ColorString::new("#eee"));
}
