use vstd::prelude::*;

verus! {

/// The `place` values geolite interprets.
#[derive(Clone, Copy, PartialEq, Eq, Debug, Structural)]
pub enum place_value {
    neighbourhood,
    suburb,
}

impl place_value {
    /// The osm literal of the value.
    pub open spec fn text(self) -> Seq<char> {
        match self {
            place_value::neighbourhood => "neighbourhood"@,
            place_value::suburb => "suburb"@,
        }
    }

    /// The osm literal of the value.
    pub fn value(self) -> (v: &'static str)
        ensures
            v@ == self.text(),
    {
        match self {
            place_value::neighbourhood => "neighbourhood",
            place_value::suburb => "suburb",
        }
    }
}

/// The `highway` values geolite interprets.
#[derive(Clone, Copy, PartialEq, Eq, Debug, Structural)]
pub enum highway_value {
    residential,
    primary,
    secondary,
    tertiary,
    unclassified,
    living_street,
}

impl highway_value {
    /// The osm literal of the value.
    pub open spec fn text(self) -> Seq<char> {
        match self {
            highway_value::residential => "residential"@,
            highway_value::primary => "primary"@,
            highway_value::secondary => "secondary"@,
            highway_value::tertiary => "tertiary"@,
            highway_value::unclassified => "unclassified"@,
            highway_value::living_street => "living_street"@,
        }
    }

    /// The osm literal of the value.
    pub fn value(self) -> (v: &'static str)
        ensures
            v@ == self.text(),
    {
        match self {
            highway_value::residential => "residential",
            highway_value::primary => "primary",
            highway_value::secondary => "secondary",
            highway_value::tertiary => "tertiary",
            highway_value::unclassified => "unclassified",
            highway_value::living_street => "living_street",
        }
    }
}

/// The `leisure` values geolite interprets.
#[derive(Clone, Copy, PartialEq, Eq, Debug, Structural)]
pub enum leisure_value {
    park,
}

impl leisure_value {
    /// The osm literal of the value.
    pub open spec fn text(self) -> Seq<char> {
        match self {
            leisure_value::park => "park"@,
        }
    }

    /// The osm literal of the value.
    pub fn value(self) -> (v: &'static str)
        ensures
            v@ == self.text(),
    {
        match self {
            leisure_value::park => "park",
        }
    }
}

} // verus!
