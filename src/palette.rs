use vstd::prelude::*;

verus! {

/// How much of a good a market holds.
#[derive(Clone, Copy, Debug, PartialEq, Eq, Structural, Hash, PartialOrd, Ord)]
pub enum SupplyLevel {
    Abundant,
    High,
    Moderate,
    Limited,
    Scarce,
}

/// How busy a market's trade in a good is.
#[derive(Clone, Copy, Debug, PartialEq, Eq, Structural, Hash, PartialOrd, Ord)]
pub enum ActivityLevel {
    Weak,
    Growing,
    Strong,
    Restricted,
}

/// A color as the renderer writes it, such as `#22c55e`.
#[derive(Clone, Debug, PartialEq, Eq, Hash)]
pub struct ColorString(pub String);

impl ColorString {
    pub fn new(color: &str) -> (c: ColorString)
        ensures
            c.0@ == color@,
    {
        ColorString(color.to_owned())
    }

    pub fn as_str(&self) -> (s: &str)
        ensures
            s@ == self.0@,
    {
        self.0.as_str()
    }
}

impl From<String> for ColorString {
    fn from(value: String) -> (c: ColorString) {
        ColorString(value)
    }
}

impl vstd::std_specs::convert::FromSpecImpl<String> for ColorString {
    open spec fn obeys_from_spec() -> bool {
        true
    }

    open spec fn from_spec(v: String) -> ColorString {
        ColorString(v)
    }
}

/// Makes an owned copy of a color literal, as `ColorString::new` does. The
/// standard `From` contract asks for equality with one chosen `ColorString`
/// of the same characters, and two `String`s with the same characters are
/// not known to be equal, so `obeys_from_spec` is false: use
/// `ColorString::new` where the characters must be known.
impl From<&'static str> for ColorString {
    fn from(value: &'static str) -> (c: ColorString) {
        ColorString(value.to_owned())
    }
}

impl vstd::std_specs::convert::FromSpecImpl<&'static str> for ColorString {
    open spec fn obeys_from_spec() -> bool {
        false
    }

    open spec fn from_spec(v: &'static str) -> ColorString {
        choose|c: ColorString| c.0@ == v@
    }
}

/// The color that stands for an activity level.
pub open spec fn activity_color(a: ActivityLevel) -> Seq<char> {
    match a {
        ActivityLevel::Strong => "#22c55e"@,
        ActivityLevel::Growing => "#86efac"@,
        ActivityLevel::Weak => "#eab308"@,
        ActivityLevel::Restricted => "#ef4444"@,
    }
}

/// The color that stands for a supply level.
pub open spec fn supply_color(s: SupplyLevel) -> Seq<char> {
    match s {
        SupplyLevel::Abundant => "#22c55e"@,
        SupplyLevel::High => "#86efac"@,
        SupplyLevel::Moderate => "#fde047"@,
        SupplyLevel::Limited => "#f97316"@,
        SupplyLevel::Scarce => "#ef4444"@,
    }
}

/// Green for strong trade, through yellow, to red where it is restricted.
pub fn get_activity_color(activity: &ActivityLevel) -> (c: ColorString)
    ensures
        c.0@ == activity_color(*activity),
{
    let s = match activity {
        ActivityLevel::Strong => "#22c55e",
        ActivityLevel::Growing => "#86efac",
        ActivityLevel::Weak => "#eab308",
        ActivityLevel::Restricted => "#ef4444",
    };
    ColorString(s.to_owned())
}

/// Green for abundant supply, through yellow and orange, to red where it is
/// scarce.
pub fn get_supply_color(supply: &SupplyLevel) -> (c: ColorString)
    ensures
        c.0@ == supply_color(*supply),
{
    let s = match supply {
        SupplyLevel::Abundant => "#22c55e",
        SupplyLevel::High => "#86efac",
        SupplyLevel::Moderate => "#fde047",
        SupplyLevel::Limited => "#f97316",
        SupplyLevel::Scarce => "#ef4444",
    };
    ColorString(s.to_owned())
}

} // verus!
