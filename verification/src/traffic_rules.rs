//! Traffic rules: who may use a lanelet, and where a lane change is allowed.

use vstd::prelude::*;
use crate::text::{is_prefix, str_eq, starts_with, decimal, push_decimal};
use crate::attributes::{AttributeMap, lookup, as_bool, parse_bool};

verus! {

/// The only registered location: Germany.
pub const GERMANY: &'static str = "de";

pub const VEHICLE: &'static str = "vehicle";
pub const VEHICLE_BUS: &'static str = "vehicle:bus";
pub const VEHICLE_CAR: &'static str = "vehicle:car";
pub const VEHICLE_CAR_ELECTRIC: &'static str = "vehicle:car:electric";
pub const VEHICLE_CAR_COMBUSTION: &'static str = "vehicle:car:combustion";
pub const VEHICLE_TRUCK: &'static str = "vehicle:truck";
pub const VEHICLE_MOTORCYCLE: &'static str = "vehicle:motorcycle";
pub const VEHICLE_TAXI: &'static str = "vehicle:taxi";
pub const VEHICLE_EMERGENCY: &'static str = "vehicle:emergency";
pub const PEDESTRIAN: &'static str = "pedestrian";
pub const BICYCLE: &'static str = "bicycle";
pub const TRAIN: &'static str = "train";

/// Where a lane change is permitted across a boundary.
#[derive(Clone, Copy, Debug, PartialEq, Eq, Structural)]
pub enum LaneChangeType {
    Both,
    ToLeft,
    ToRight,
    NoChange,
}

impl LaneChangeType {
    pub open spec fn spec_allows_left(self) -> bool {
        self == LaneChangeType::Both || self == LaneChangeType::ToLeft
    }

    pub open spec fn spec_allows_right(self) -> bool {
        self == LaneChangeType::Both || self == LaneChangeType::ToRight
    }

    pub fn allows_left(self) -> (r: bool)
        ensures
            r == self.spec_allows_left(),
    {
        match self {
            LaneChangeType::Both | LaneChangeType::ToLeft => true,
            _ => false,
        }
    }

    pub fn allows_right(self) -> (r: bool)
        ensures
            r == self.spec_allows_right(),
    {
        match self {
            LaneChangeType::Both | LaneChangeType::ToRight => true,
            _ => false,
        }
    }

    /// The same permission seen from the other side: left and right swap.
    pub open spec fn spec_mirrored(self) -> LaneChangeType {
        match self {
            LaneChangeType::ToLeft => LaneChangeType::ToRight,
            LaneChangeType::ToRight => LaneChangeType::ToLeft,
            other => other,
        }
    }

    pub fn mirrored(self) -> (r: LaneChangeType)
        ensures
            r == self.spec_mirrored(),
    {
        match self {
            LaneChangeType::ToLeft => LaneChangeType::ToRight,
            LaneChangeType::ToRight => LaneChangeType::ToLeft,
            other => other,
        }
    }
}

/// The attribute key that overrides a rule for one participant.
pub fn tag(participant: &str) -> (r: String)
    ensures
        r@ == "participant:"@ + participant@,
{
    let r = String::from_str("participant:");
    r.concat(participant)
}

/// The participants a way subtype admits; an entry admits every participant
/// it is a prefix of.
pub open spec fn admitted(subtype: Seq<char>) -> Seq<Seq<char>> {
    if subtype == ""@ {
        seq![VEHICLE@]
    } else if subtype == "road"@ {
        seq![VEHICLE@, BICYCLE@]
    } else if subtype == "bus_lane"@ {
        seq![VEHICLE_BUS@, VEHICLE_EMERGENCY@, VEHICLE_TAXI@]
    } else if subtype == "highway"@ {
        seq![VEHICLE@]
    } else if subtype == "bicycle_lane"@ {
        seq![BICYCLE@]
    } else if subtype == "play_street"@ || subtype == "exit"@ {
        seq![PEDESTRIAN@, BICYCLE@, VEHICLE@]
    } else if subtype == "emergency_lane"@ {
        seq![VEHICLE_EMERGENCY@]
    } else if subtype == "walkway"@ || subtype == "crosswalk"@ || subtype == "stairs"@ {
        seq![PEDESTRIAN@]
    } else if subtype == "shared_walkway"@ {
        seq![PEDESTRIAN@, BICYCLE@]
    } else {
        seq![]
    }
}

/// The participant entries a subtype admits, as strings.
fn admitted_entries(subtype: &str) -> (r: Vec<&'static str>)
    ensures
        r@.map_values(|x: &str| x@) == admitted(subtype@),
{
    let r = if str_eq(subtype, "") {
        vec![VEHICLE]
    } else if str_eq(subtype, "road") {
        vec![VEHICLE, BICYCLE]
    } else if str_eq(subtype, "bus_lane") {
        vec![VEHICLE_BUS, VEHICLE_EMERGENCY, VEHICLE_TAXI]
    } else if str_eq(subtype, "highway") {
        vec![VEHICLE]
    } else if str_eq(subtype, "bicycle_lane") {
        vec![BICYCLE]
    } else if str_eq(subtype, "play_street") || str_eq(subtype, "exit") {
        vec![PEDESTRIAN, BICYCLE, VEHICLE]
    } else if str_eq(subtype, "emergency_lane") {
        vec![VEHICLE_EMERGENCY]
    } else if str_eq(subtype, "walkway") || str_eq(subtype, "crosswalk") || str_eq(subtype, "stairs") {
        vec![PEDESTRIAN]
    } else if str_eq(subtype, "shared_walkway") {
        vec![PEDESTRIAN, BICYCLE]
    } else {
        vec![]
    };
    assert(r@.map_values(|x: &str| x@) =~= admitted(subtype@));
    r
}

/// Which participants a way subtype admits, matching entries by prefix: a
/// `vehicle` entry admits `vehicle:car`, but a `vehicle:emergency` entry does
/// not admit a plain `vehicle`. An unlisted subtype admits nobody.
pub fn subtype_allows(subtype: &str, participant: &str) -> (r: bool)
    ensures
        r == exists|i: int| 0 <= i < admitted(subtype@).len() && is_prefix(#[trigger] admitted(subtype@)[i], participant@),
{
    let entries = admitted_entries(subtype);
    let ghost views = entries@.map_values(|x: &str| x@);
    let mut i: usize = 0;
    while i < entries.len()
        invariant
            i <= entries@.len(),
            views == entries@.map_values(|x: &str| x@),
            views == admitted(subtype@),
            forall|j: int| 0 <= j < i ==> !is_prefix(#[trigger] views[j], participant@),
        decreases entries@.len() - i,
    {
        if starts_with(participant, entries[i]) {
            assert(views[i as int] == entries@[i as int]@);
            return true;
        }
        assert(views[i as int] == entries@[i as int]@);
        i = i + 1;
    }
    false
}

/// Lane changes a vehicle may make across a boundary of this type.
pub open spec fn vehicle_change(kind: Seq<char>, subtype: Seq<char>) -> LaneChangeType {
    if kind == "line_thin"@ || kind == "line_thick"@ {
        if subtype == "dashed"@ {
            LaneChangeType::Both
        } else if subtype == "dashed_solid"@ {
            LaneChangeType::ToRight
        } else if subtype == "solid_dashed"@ {
            LaneChangeType::ToLeft
        } else {
            LaneChangeType::NoChange
        }
    } else {
        LaneChangeType::NoChange
    }
}

/// Lane changes a pedestrian may make across a boundary of this type.
pub open spec fn pedestrian_change(kind: Seq<char>, subtype: Seq<char>) -> LaneChangeType {
    if kind == "curbstone"@ && subtype == "low"@ { LaneChangeType::Both } else { LaneChangeType::NoChange }
}

/// Lane changes a participant may make across a boundary of this type: a
/// bicycle gets the vehicle rules first and falls back to the pedestrian ones.
pub open spec fn participant_change(kind: Seq<char>, subtype: Seq<char>, participant: Seq<char>) -> LaneChangeType {
    if is_prefix(VEHICLE@, participant) {
        vehicle_change(kind, subtype)
    } else if participant == PEDESTRIAN@ {
        pedestrian_change(kind, subtype)
    } else if participant == BICYCLE@ {
        if vehicle_change(kind, subtype) != LaneChangeType::NoChange {
            vehicle_change(kind, subtype)
        } else {
            pedestrian_change(kind, subtype)
        }
    } else {
        LaneChangeType::NoChange
    }
}

pub fn vehicle_change_type(kind: &str, subtype: &str) -> (r: LaneChangeType)
    ensures
        r == vehicle_change(kind@, subtype@),
{
    if str_eq(kind, "line_thin") || str_eq(kind, "line_thick") {
        if str_eq(subtype, "dashed") {
            LaneChangeType::Both
        } else if str_eq(subtype, "dashed_solid") {
            LaneChangeType::ToRight
        } else if str_eq(subtype, "solid_dashed") {
            LaneChangeType::ToLeft
        } else {
            LaneChangeType::NoChange
        }
    } else {
        LaneChangeType::NoChange
    }
}

pub fn pedestrian_change_type(kind: &str, subtype: &str) -> (r: LaneChangeType)
    ensures
        r == pedestrian_change(kind@, subtype@),
{
    if str_eq(kind, "curbstone") && str_eq(subtype, "low") {
        LaneChangeType::Both
    } else {
        LaneChangeType::NoChange
    }
}

/// Where a lane change is allowed across a boundary of this type.
pub fn change_type(kind: &str, subtype: &str, participant: &str) -> (r: LaneChangeType)
    ensures
        r == participant_change(kind@, subtype@, participant@),
{
    if starts_with(participant, VEHICLE) {
        return vehicle_change_type(kind, subtype);
    }
    if str_eq(participant, PEDESTRIAN) {
        return pedestrian_change_type(kind, subtype);
    }
    if str_eq(participant, BICYCLE) {
        let vehicle = vehicle_change_type(kind, subtype);
        if vehicle != LaneChangeType::NoChange {
            return vehicle;
        }
        return pedestrian_change_type(kind, subtype);
    }
    LaneChangeType::NoChange
}

/// No rules are registered for this combination; the text says which.
#[derive(Debug)]
pub struct NoSuchRules(pub String);

/// Whether rules exist for the combination: only Germany, for the three
/// registered participants and anything under `vehicle`.
pub open spec fn registered(location: Seq<char>, participant: Seq<char>) -> bool {
    location == GERMANY@ && (participant == VEHICLE@ || participant == PEDESTRIAN@ || participant == BICYCLE@
        || is_prefix(VEHICLE@, participant))
}

/// Some key of the map begins with `prefix`.
pub open spec fn has_key_prefixed(es: Seq<(Seq<char>, Seq<char>)>, prefix: Seq<char>) -> bool {
    exists|i: int| 0 <= i < es.len() && is_prefix(prefix, #[trigger] es[i].0)
}

/// A per-participant override: the first entry, in key order, whose key is at
/// least as long as `prefix`, is a prefix of `qualified`, and holds a yes/no
/// answer decides; with no such entry, `fallback`.
pub open spec fn resolve_flag(es: Seq<(Seq<char>, Seq<char>)>, prefix: Seq<char>, qualified: Seq<char>, fallback: bool) -> bool
    decreases es.len(),
{
    if es.len() == 0 {
        fallback
    } else if es[0].0.len() >= prefix.len() && is_prefix(es[0].0, qualified) && as_bool(es[0].1) is Some {
        as_bool(es[0].1).unwrap()
    } else {
        resolve_flag(es.drop_first(), prefix, qualified, fallback)
    }
}

/// The value under `key`, or the empty string.
pub open spec fn tag_or_empty(es: Seq<(Seq<char>, Seq<char>)>, key: Seq<char>) -> Seq<char> {
    match lookup(es, key) {
        Some(v) => v,
        None => ""@,
    }
}

/// The value under `key` reads as yes.
pub open spec fn truthy(es: Seq<(Seq<char>, Seq<char>)>, key: Seq<char>) -> bool {
    match lookup(es, key) {
        Some(v) => as_bool(v) == Some(true),
        None => false,
    }
}

/// Whether some entry's key begins with `prefix`.
pub fn has_override(map: &AttributeMap, prefix: &str) -> (r: bool)
    ensures
        r == has_key_prefixed(map.spec_entries(), prefix@),
{
    let ghost es = map.spec_entries();
    let mut i: usize = 0;
    while i < map.len()
        invariant
            i <= es.len(),
            es == map.spec_entries(),
            forall|j: int| 0 <= j < i ==> !is_prefix(prefix@, #[trigger] es[j].0),
        decreases es.len() - i,
    {
        let (key, _) = map.entry(i);
        if starts_with(key, prefix) {
            return true;
        }
        i = i + 1;
    }
    false
}

/// Resolves a yes/no override for one participant.
pub fn resolve_override(map: &AttributeMap, prefix: &str, qualified: &str, fallback: bool) -> (r: bool)
    ensures
        r == resolve_flag(map.spec_entries(), prefix@, qualified@, fallback),
{
    let ghost es = map.spec_entries();
    let n = map.len();
    let plen = prefix.unicode_len();
    assert(es.subrange(0, es.len() as int) =~= es);
    let mut i: usize = 0;
    while i < n
        invariant
            n == es.len(),
            plen == prefix@.len(),
            i <= n,
            es == map.spec_entries(),
            resolve_flag(es, prefix@, qualified@, fallback) == resolve_flag(es.subrange(i as int, n as int), prefix@, qualified@, fallback),
        decreases n - i,
    {
        let (key, value) = map.entry(i);
        assert(es.subrange(i as int, n as int)[0] == es[i as int]);
        assert(es.subrange(i as int, n as int).drop_first() =~= es.subrange(i + 1, n as int));
        if key.unicode_len() >= plen && starts_with(qualified, key) {
            match parse_bool(value) {
                Some(b) => {
                    return b;
                },
                None => {},
            }
        }
        i = i + 1;
    }
    fallback
}

/// The value under `key`, or the empty string.
pub fn tag_value<'a>(map: &'a AttributeMap, key: &str) -> (r: &'a str)
    ensures
        r@ == tag_or_empty(map.spec_entries(), key@),
{
    match map.get(key) {
        Some(v) => v,
        None => "",
    }
}

fn is_truthy(map: &AttributeMap, key: &str) -> (r: bool)
    ensures
        r == truthy(map.spec_entries(), key@),
{
    match map.get(key) {
        Some(v) => parse_bool(v) == Some(true),
        None => false,
    }
}

/// What the rules read of a linestring: its tags, and whether it is walked
/// against its stored direction.
pub struct LineTags {
    pub attributes: AttributeMap,
    pub inverted: bool,
}

/// What the rules read of a lanelet: its tags, its direction of travel, and
/// its two bounds as seen in that direction.
pub struct LaneletTags {
    pub attributes: AttributeMap,
    pub inverted: bool,
    pub left: LineTags,
    pub right: LineTags,
}

/// Where one lanelet lies relative to another, as the map's geometry says.
#[derive(Clone, Copy, Debug, PartialEq, Eq, Structural)]
pub enum Side {
    /// The first lies to the left of the second.
    LeftOf,
    /// The first lies to the right of the second.
    RightOf,
    /// Neither.
    Apart,
}

/// A speed limit in whole kilometres per hour, and whether it is binding.
#[derive(Clone, Copy, Debug, PartialEq, Eq, Structural)]
pub struct SpeedLimit {
    pub kmh: u32,
    pub is_mandatory: bool,
}

impl SpeedLimit {
    /// The text form, `speedLimit: <kmh>km/h, mandatory: yes|no`.
    pub fn describe(&self) -> (r: String)
        ensures
            r@ == "speedLimit: "@ + decimal(self.kmh as nat) + "km/h, mandatory: "@ + (if self.is_mandatory {
                "yes"@
            } else {
                "no"@
            }),
    {
        let mut text = String::from_str("speedLimit: ");
        push_decimal(&mut text, self.kmh as u64);
        let text = text.concat("km/h, mandatory: ");
        if self.is_mandatory {
            text.concat("yes")
        } else {
            text.concat("no")
        }
    }
}

/// The speed limits a country defines for each kind of way.
#[derive(Clone, Copy, Debug, PartialEq, Eq, Structural)]
pub struct CountrySpeedLimits {
    pub vehicle_urban_road: SpeedLimit,
    pub vehicle_nonurban_road: SpeedLimit,
    pub vehicle_urban_highway: SpeedLimit,
    pub vehicle_nonurban_highway: SpeedLimit,
    pub play_street: SpeedLimit,
    pub pedestrian: SpeedLimit,
    pub bicycle: SpeedLimit,
}

/// Germany's limits. The motorway figures are advisory, not binding.
pub open spec fn german_limits() -> CountrySpeedLimits {
    CountrySpeedLimits {
        vehicle_urban_road: SpeedLimit { kmh: 50, is_mandatory: true },
        vehicle_nonurban_road: SpeedLimit { kmh: 100, is_mandatory: true },
        vehicle_urban_highway: SpeedLimit { kmh: 130, is_mandatory: false },
        vehicle_nonurban_highway: SpeedLimit { kmh: 130, is_mandatory: false },
        play_street: SpeedLimit { kmh: 7, is_mandatory: true },
        pedestrian: SpeedLimit { kmh: 5, is_mandatory: true },
        bicycle: SpeedLimit { kmh: 20, is_mandatory: true },
    }
}

pub fn speed_limits() -> (r: CountrySpeedLimits)
    ensures
        r == german_limits(),
{
    CountrySpeedLimits {
        vehicle_urban_road: SpeedLimit { kmh: 50, is_mandatory: true },
        vehicle_nonurban_road: SpeedLimit { kmh: 100, is_mandatory: true },
        vehicle_urban_highway: SpeedLimit { kmh: 130, is_mandatory: false },
        vehicle_nonurban_highway: SpeedLimit { kmh: 130, is_mandatory: false },
        play_street: SpeedLimit { kmh: 7, is_mandatory: true },
        pedestrian: SpeedLimit { kmh: 5, is_mandatory: true },
        bicycle: SpeedLimit { kmh: 20, is_mandatory: true },
    }
}

/// The limit for a vehicle by location and way subtype; unlisted pairs have
/// none.
pub open spec fn spec_vehicle_limit(limits: CountrySpeedLimits, location: Seq<char>, subtype: Seq<char>) -> Option<SpeedLimit> {
    if location == "urban"@ && (subtype == "road"@ || subtype == "bus_lane"@ || subtype == "exit"@) {
        Some(limits.vehicle_urban_road)
    } else if location == "nonurban"@ && (subtype == "road"@ || subtype == "bus_lane"@) {
        Some(limits.vehicle_nonurban_road)
    } else if location == "urban"@ && subtype == "highway"@ {
        Some(limits.vehicle_urban_highway)
    } else if location == "nonurban"@ && subtype == "highway"@ {
        Some(limits.vehicle_nonurban_highway)
    } else if (location == "urban"@ || location == "nonurban"@) && subtype == "play_street"@ {
        Some(limits.play_street)
    } else {
        None
    }
}

pub fn vehicle_speed_limit(limits: &CountrySpeedLimits, location: &str, subtype: &str) -> (r: Option<SpeedLimit>)
    ensures
        r == spec_vehicle_limit(*limits, location@, subtype@),
{
    let urban = str_eq(location, "urban");
    let nonurban = str_eq(location, "nonurban");
    if urban && (str_eq(subtype, "road") || str_eq(subtype, "bus_lane") || str_eq(subtype, "exit")) {
        Some(limits.vehicle_urban_road)
    } else if nonurban && (str_eq(subtype, "road") || str_eq(subtype, "bus_lane")) {
        Some(limits.vehicle_nonurban_road)
    } else if urban && str_eq(subtype, "highway") {
        Some(limits.vehicle_urban_highway)
    } else if nonurban && str_eq(subtype, "highway") {
        Some(limits.vehicle_nonurban_highway)
    } else if (urban || nonurban) && str_eq(subtype, "play_street") {
        Some(limits.play_street)
    } else {
        None
    }
}

/// Where a lanelet's speed limit comes from.
#[derive(Clone, Debug, PartialEq, Eq)]
pub enum LimitSource {
    /// The lanelet carries `speed_limit` tags. The speed is the first of
    /// `candidates` that reads as a speed, else `plain` read as a speed, else
    /// zero; reading a speed is left to the caller. Whether it binds is
    /// decided here.
    Tagged { candidates: Vec<String>, plain: Option<String>, is_mandatory: bool },
    /// The tables give this limit.
    Known(SpeedLimit),
    /// Nothing applies: zero and mandatory stands for unknown.
    Unknown,
}

/// What a `LimitSource` says, with its texts as character sequences.
pub enum LimitView {
    Tagged { candidates: Seq<Seq<char>>, plain: Option<Seq<char>>, is_mandatory: bool },
    Known(SpeedLimit),
    Unknown,
}

impl View for LimitSource {
    type V = LimitView;

    open spec fn view(&self) -> LimitView {
        match self {
            LimitSource::Tagged { candidates, plain, is_mandatory } => LimitView::Tagged {
                candidates: candidates@.map_values(|t: String| t@),
                plain: match plain {
                    Some(t) => Some(t@),
                    None => None,
                },
                is_mandatory: *is_mandatory,
            },
            LimitSource::Known(limit) => LimitView::Known(*limit),
            LimitSource::Unknown => LimitView::Unknown,
        }
    }
}

/// The values of the override entries for one participant, in key order:
/// those whose key is at least as long as `prefix` and a prefix of
/// `qualified`.
pub open spec fn override_values(es: Seq<(Seq<char>, Seq<char>)>, prefix: Seq<char>, qualified: Seq<char>) -> Seq<Seq<char>>
    decreases es.len(),
{
    if es.len() == 0 {
        seq![]
    } else if es[0].0.len() >= prefix.len() && is_prefix(es[0].0, qualified) {
        seq![es[0].1] + override_values(es.drop_first(), prefix, qualified)
    } else {
        override_values(es.drop_first(), prefix, qualified)
    }
}

/// The values of the override entries for one participant, in key order.
pub fn override_texts(map: &AttributeMap, prefix: &str, qualified: &str) -> (r: Vec<String>)
    ensures
        r@.map_values(|t: String| t@) == override_values(map.spec_entries(), prefix@, qualified@),
{
    let ghost es = map.spec_entries();
    let n = map.len();
    let plen = prefix.unicode_len();
    let mut out: Vec<String> = Vec::new();
    let mut i: usize = n;
    assert(es.subrange(n as int, n as int) =~= Seq::<(Seq<char>, Seq<char>)>::empty());
    while i > 0
        invariant
            n == es.len(),
            plen == prefix@.len(),
            i <= n,
            es == map.spec_entries(),
            out@.map_values(|t: String| t@) == override_values(es.subrange(i as int, n as int), prefix@, qualified@),
        decreases i,
    {
        i = i - 1;
        let (key, value) = map.entry(i);
        let ghost tail = es.subrange(i as int, n as int);
        assert(tail[0] == es[i as int]);
        assert(tail.drop_first() =~= es.subrange(i + 1, n as int));
        if key.unicode_len() >= plen && starts_with(qualified, key) {
            let ghost before = out@;
            out.insert(0, String::from_str(value));
            assert(out@.map_values(|t: String| t@) =~= seq![value@] + before.map_values(|t: String| t@));
        }
    }
    assert(es.subrange(0, n as int) =~= es);
    out
}

/// The traffic rules for one location and participant.
pub struct TrafficRules {
    location: String,
    participant: String,
}

impl TrafficRules {
    pub closed spec fn spec_location(&self) -> Seq<char> {
        self.location@
    }

    pub closed spec fn spec_participant(&self) -> Seq<char> {
        self.participant@
    }

    /// Builds the rules for a location and participant.
    ///
    /// A participant under `vehicle` that has no rules of its own falls back to
    /// the plain `vehicle` rules, but keeps its own name, so that overrides
    /// written for the specific participant still match.
    pub fn create(location: &str, participant: &str) -> (r: Result<TrafficRules, NoSuchRules>)
        ensures
            r is Ok <==> registered(location@, participant@),
            r matches Ok(rules) ==> rules.spec_location() == location@ && rules.spec_participant() == participant@,
            r matches Err(e) ==> e.0@ == "No matching traffic rules found for location "@ + location@ + ", participant "@
                + participant@,
    {
        let known = str_eq(location, GERMANY) && (str_eq(participant, VEHICLE) || str_eq(participant, PEDESTRIAN)
            || str_eq(participant, BICYCLE) || starts_with(participant, VEHICLE));
        if !known {
            let message = String::from_str("No matching traffic rules found for location ");
            let message = message.concat(location);
            let message = message.concat(", participant ");
            let message = message.concat(participant);
            return Err(NoSuchRules(message));
        }
        Ok(TrafficRules { location: location.to_owned(), participant: participant.to_owned() })
    }

    pub fn location(&self) -> (r: &str)
        ensures
            r@ == self.spec_location(),
    {
        self.location.as_str()
    }

    pub fn participant(&self) -> (r: &str)
        ensures
            r@ == self.spec_participant(),
    {
        self.participant.as_str()
    }

    /// Whether the participant is some kind of vehicle.
    pub fn is_vehicle(&self) -> (r: bool)
        ensures
            r == is_prefix(VEHICLE@, self.spec_participant()),
    {
        starts_with(self.participant.as_str(), VEHICLE)
    }

    /// Whether the participant may travel this lanelet in its direction at all.
    ///
    /// A lanelet is one-way by default for everything but pedestrians, so the
    /// inverted view of a road is not passable unless it says otherwise.
    pub open spec fn spec_driving_direction(&self, es: Seq<(Seq<char>, Seq<char>)>, inverted: bool) -> bool {
        if !inverted {
            true
        } else {
            match lookup(es, "one_way"@) {
                Some(v) => !(match as_bool(v) {
                    Some(b) => b,
                    None => true,
                }),
                None => if has_key_prefixed(es, "one_way"@) {
                    !resolve_flag(es, "one_way"@, "one_way:"@ + self.spec_participant(), true)
                } else {
                    self.spec_participant() == PEDESTRIAN@
                },
            }
        }
    }

    /// Whether the participant may use a lanelet with these tags, in the given
    /// direction.
    pub open spec fn spec_can_pass(&self, es: Seq<(Seq<char>, Seq<char>)>, inverted: bool) -> bool {
        if !self.spec_driving_direction(es, inverted) {
            false
        } else if has_key_prefixed(es, "participant"@) {
            resolve_flag(es, "participant"@, "participant:"@ + self.spec_participant(), false)
        } else {
            let subtype = tag_or_empty(es, "subtype"@);
            exists|i: int| 0 <= i < admitted(subtype).len() && is_prefix(#[trigger] admitted(subtype)[i], self.spec_participant())
        }
    }

    fn driving_direction(&self, attributes: &AttributeMap, inverted: bool) -> (r: bool)
        ensures
            r == self.spec_driving_direction(attributes.spec_entries(), inverted),
    {
        if !inverted {
            return true;
        }
        match attributes.get("one_way") {
            Some(v) => {
                let one_way = match parse_bool(v) {
                    Some(b) => b,
                    None => true,
                };
                !one_way
            },
            None => {
                if has_override(attributes, "one_way") {
                    let qualified = String::from_str("one_way:").concat(self.participant.as_str());
                    !resolve_override(attributes, "one_way", qualified.as_str(), true)
                } else {
                    str_eq(self.participant.as_str(), PEDESTRIAN)
                }
            },
        }
    }

    /// Whether the participant may use this lanelet, in this direction.
    pub fn can_pass(&self, lanelet: &LaneletTags) -> (r: bool)
        ensures
            r == self.spec_can_pass(lanelet.attributes.spec_entries(), lanelet.inverted),
    {
        let attributes = &lanelet.attributes;
        if !self.driving_direction(attributes, lanelet.inverted) {
            return false;
        }
        if has_override(attributes, "participant") {
            let qualified = tag(self.participant.as_str());
            return resolve_override(attributes, "participant", qualified.as_str(), false);
        }
        let subtype = tag_value(attributes, "subtype");
        subtype_allows(subtype, self.participant.as_str())
    }

    /// Whether the lanelet may be travelled one way only.
    pub fn is_one_way(&self, lanelet: &LaneletTags) -> (r: bool)
        ensures
            r == !self.spec_driving_direction(lanelet.attributes.spec_entries(), true),
    {
        let forwards = self.driving_direction(&lanelet.attributes, false);
        let backwards = self.driving_direction(&lanelet.attributes, true);
        forwards != backwards
    }

    /// Whether any attached regulatory element says it varies with time or
    /// conditions.
    pub fn has_dynamic_rules(&self, regulatory_elements: &[AttributeMap]) -> (r: bool)
        ensures
            r == exists|i: int|
                0 <= i < regulatory_elements@.len() && truthy((#[trigger] regulatory_elements@[i]).spec_entries(), "dynamic"@),
    {
        let mut i: usize = 0;
        while i < regulatory_elements.len()
            invariant
                i <= regulatory_elements@.len(),
                forall|j: int| 0 <= j < i ==> !truthy((#[trigger] regulatory_elements@[j]).spec_entries(), "dynamic"@),
            decreases regulatory_elements@.len() - i,
        {
            if is_truthy(&regulatory_elements[i], "dynamic") {
                return true;
            }
            i = i + 1;
        }
        false
    }

    /// Where the lane change across a boundary with these tags is allowed, the
    /// boundary read as stored.
    pub open spec fn spec_change_across(&self, es: Seq<(Seq<char>, Seq<char>)>, virtual_is_passable: bool) -> LaneChangeType {
        if lookup(es, "lane_change"@) is Some {
            if truthy(es, "lane_change"@) { LaneChangeType::Both } else { LaneChangeType::NoChange }
        } else if lookup(es, "lane_change:left"@) is Some && truthy(es, "lane_change:left"@) {
            if truthy(es, "lane_change:right"@) { LaneChangeType::Both } else { LaneChangeType::ToLeft }
        } else if lookup(es, "lane_change:right"@) is Some {
            if truthy(es, "lane_change:right"@) { LaneChangeType::ToRight } else { LaneChangeType::NoChange }
        } else if virtual_is_passable && tag_or_empty(es, "type"@) == "virtual"@ {
            LaneChangeType::Both
        } else {
            participant_change(tag_or_empty(es, "type"@), tag_or_empty(es, "subtype"@), self.spec_participant())
        }
    }

    /// Where a lane change across this boundary is allowed.
    ///
    /// Explicit `lane_change` tags win over the boundary's type. A boundary
    /// read backwards has left and right swapped, except for a freely crossable
    /// virtual boundary.
    pub open spec fn spec_lane_change_type(&self, es: Seq<(Seq<char>, Seq<char>)>, inverted: bool, virtual_is_passable: bool) -> LaneChangeType {
        let explicit = lookup(es, "lane_change"@) is Some || (lookup(es, "lane_change:left"@) is Some && truthy(es, "lane_change:left"@))
            || lookup(es, "lane_change:right"@) is Some;
        let base = self.spec_change_across(es, virtual_is_passable);
        if !explicit && virtual_is_passable && tag_or_empty(es, "type"@) == "virtual"@ {
            base
        } else if inverted {
            base.spec_mirrored()
        } else {
            base
        }
    }

    pub fn lane_change_type(&self, boundary: &LineTags, virtual_is_passable: bool) -> (r: LaneChangeType)
        ensures
            r == self.spec_lane_change_type(boundary.attributes.spec_entries(), boundary.inverted, virtual_is_passable),
    {
        let attributes = &boundary.attributes;
        let hardcoded = if attributes.get("lane_change").is_some() {
            Some(if is_truthy(attributes, "lane_change") { LaneChangeType::Both } else { LaneChangeType::NoChange })
        } else if attributes.get("lane_change:left").is_some() && is_truthy(attributes, "lane_change:left") {
            Some(if is_truthy(attributes, "lane_change:right") { LaneChangeType::Both } else { LaneChangeType::ToLeft })
        } else if attributes.get("lane_change:right").is_some() {
            Some(if is_truthy(attributes, "lane_change:right") { LaneChangeType::ToRight } else { LaneChangeType::NoChange })
        } else {
            None
        };
        let kind = tag_value(attributes, "type");
        let subtype = tag_value(attributes, "subtype");
        let base = match hardcoded {
            Some(k) => k,
            None => {
                if virtual_is_passable && str_eq(kind, "virtual") {
                    return LaneChangeType::Both;
                }
                change_type(kind, subtype, self.participant.as_str())
            },
        };
        if boundary.inverted {
            base.mirrored()
        } else {
            base
        }
    }

    /// Whether a lane change from one lanelet to a neighbour is allowed:
    /// both must be passable, they must lie side by side, and the boundary
    /// between them must permit crossing in that direction.
    pub open spec fn spec_can_change_lane(&self, from: &LaneletTags, to: &LaneletTags, side: Side) -> bool {
        &&& self.spec_can_pass(from.attributes.spec_entries(), from.inverted)
        &&& self.spec_can_pass(to.attributes.spec_entries(), to.inverted)
        &&& match side {
            Side::LeftOf => self.spec_lane_change_type(from.right.attributes.spec_entries(), from.right.inverted, false).spec_allows_right(),
            Side::RightOf => self.spec_lane_change_type(from.left.attributes.spec_entries(), from.left.inverted, false).spec_allows_left(),
            Side::Apart => false,
        }
    }

    /// `side` is where `from` lies relative to `to`.
    pub fn can_change_lane(&self, from: &LaneletTags, to: &LaneletTags, side: Side) -> (r: bool)
        ensures
            r == self.spec_can_change_lane(from, to, side),
    {
        if !self.can_pass(from) || !self.can_pass(to) {
            return false;
        }
        match side {
            Side::LeftOf => self.lane_change_type(&from.right, false).allows_right(),
            Side::RightOf => self.lane_change_type(&from.left, false).allows_left(),
            Side::Apart => false,
        }
    }

    /// Whether a participant may drive straight from one lanelet into the
    /// next; `follows` is whether the second continues the first.
    pub fn can_pass_between(&self, from: &LaneletTags, to: &LaneletTags, follows: bool) -> (r: bool)
        ensures
            r == (follows && self.spec_can_pass(from.attributes.spec_entries(), from.inverted) && self.spec_can_pass(
                to.attributes.spec_entries(),
                to.inverted,
            )),
    {
        follows && self.can_pass(from) && self.can_pass(to)
    }

    /// Where the speed limit of a lanelet with these tags comes from.
    pub open spec fn spec_speed_limit(&self, es: Seq<(Seq<char>, Seq<char>)>) -> LimitView {
        if has_key_prefixed(es, "speed_limit"@) {
            LimitView::Tagged {
                candidates: override_values(es, "speed_limit:"@, "speed_limit:"@ + self.spec_participant()),
                plain: lookup(es, "speed_limit"@),
                is_mandatory: resolve_flag(
                    es,
                    "speed_limit_mandatory"@,
                    "speed_limit_mandatory:"@ + self.spec_participant(),
                    true,
                ),
            }
        } else if self.spec_participant() == PEDESTRIAN@ {
            LimitView::Known(german_limits().pedestrian)
        } else if self.spec_participant() == BICYCLE@ {
            LimitView::Known(german_limits().bicycle)
        } else if !is_prefix(VEHICLE@, self.spec_participant()) {
            LimitView::Unknown
        } else {
            let location = match lookup(es, "location"@) {
                Some(v) => v,
                None => "urban"@,
            };
            let subtype = match lookup(es, "subtype"@) {
                Some(v) => v,
                None => "road"@,
            };
            match spec_vehicle_limit(german_limits(), location, subtype) {
                Some(limit) => LimitView::Known(limit),
                None => LimitView::Unknown,
            }
        }
    }

    pub fn speed_limit(&self, lanelet: &LaneletTags) -> (r: LimitSource)
        ensures
            r@ == self.spec_speed_limit(lanelet.attributes.spec_entries()),
    {
        let attributes = &lanelet.attributes;
        if has_override(attributes, "speed_limit") {
            let qualified = String::from_str("speed_limit_mandatory:").concat(self.participant.as_str());
            let is_mandatory = resolve_override(attributes, "speed_limit_mandatory", qualified.as_str(), true);
            let speed_key = String::from_str("speed_limit:").concat(self.participant.as_str());
            let candidates = override_texts(attributes, "speed_limit:", speed_key.as_str());
            let plain = match attributes.get("speed_limit") {
                Some(v) => Some(String::from_str(v)),
                None => None,
            };
            return LimitSource::Tagged { candidates, plain, is_mandatory };
        }
        let limits = speed_limits();
        if str_eq(self.participant.as_str(), PEDESTRIAN) {
            return LimitSource::Known(limits.pedestrian);
        }
        if str_eq(self.participant.as_str(), BICYCLE) {
            return LimitSource::Known(limits.bicycle);
        }
        if !self.is_vehicle() {
            return LimitSource::Unknown;
        }
        let location = match attributes.get("location") {
            Some(v) => v,
            None => "urban",
        };
        let subtype = match attributes.get("subtype") {
            Some(v) => v,
            None => "road",
        };
        match vehicle_speed_limit(&limits, location, subtype) {
            Some(limit) => LimitSource::Known(limit),
            None => LimitSource::Unknown,
        }
    }

    /// Whether an area may be entered from a lanelet or another area, given
    /// whether each side is passable: both must be. With `upstream_guard`, the
    /// guard reads `from || !to` instead.
    pub fn can_pass_area(&self, from_passable: bool, to_passable: bool, upstream_guard: bool) -> (r: bool)
        ensures
            r == (if upstream_guard { from_passable || !to_passable } else { from_passable && to_passable }),
    {
        if upstream_guard {
            from_passable || !to_passable
        } else {
            from_passable && to_passable
        }
    }

    /// The text form, `location: <location>, participant: <participant>`.
    pub fn describe(&self) -> (r: String)
        ensures
            r@ == "location: "@ + self.spec_location() + ", participant: "@ + self.spec_participant(),
    {
        let text = String::from_str("location: ");
        let text = text.concat(self.location.as_str());
        let text = text.concat(", participant: ");
        text.concat(self.participant.as_str())
    }
}

/// Seen from the other side, a permission has left and right swapped; seen
/// from the other side twice, it is what it was.
pub proof fn lemma_mirrored(t: LaneChangeType)
    ensures
        t.spec_mirrored().spec_mirrored() == t,
        t.spec_mirrored().spec_allows_left() == t.spec_allows_right(),
        t.spec_mirrored().spec_allows_right() == t.spec_allows_left(),
{
}

/// A boundary read backwards allows the lane changes it allows forwards,
/// with left and right swapped.
pub proof fn lemma_inverted_boundary_mirrors(rules: TrafficRules, es: Seq<(Seq<char>, Seq<char>)>, virtual_is_passable: bool)
    ensures
        rules.spec_lane_change_type(es, true, virtual_is_passable) == rules.spec_lane_change_type(es, false, virtual_is_passable).spec_mirrored(),
{
}

/// An explicit `lane_change` tag decides for both sides at once: a yes
/// allows changes both ways, anything else allows none, whatever the line
/// looks like and whichever way it is read.
pub proof fn lemma_lane_change_tag(rules: TrafficRules, es: Seq<(Seq<char>, Seq<char>)>, v: Seq<char>, inverted: bool, virtual_is_passable: bool)
    requires
        lookup(es, "lane_change"@) == Some(v),
    ensures
        rules.spec_lane_change_type(es, inverted, virtual_is_passable).spec_allows_left() == (as_bool(v) == Some(true)),
        rules.spec_lane_change_type(es, inverted, virtual_is_passable).spec_allows_right() == (as_bool(v) == Some(true)),
{
}

/// `lane_change:left=yes`, with no `lane_change` tag and no
/// `lane_change:right=yes`, allows a change to the left and not to the
/// right, whatever the line looks like; read backwards, the other way round.
pub proof fn lemma_left_change_tag(rules: TrafficRules, es: Seq<(Seq<char>, Seq<char>)>, v: Seq<char>, virtual_is_passable: bool)
    requires
        lookup(es, "lane_change"@) is None,
        lookup(es, "lane_change:left"@) == Some(v),
        as_bool(v) == Some(true),
        lookup(es, "lane_change:right"@) matches Some(w) ==> as_bool(w) != Some(true),
    ensures
        rules.spec_lane_change_type(es, false, virtual_is_passable).spec_allows_left(),
        !rules.spec_lane_change_type(es, false, virtual_is_passable).spec_allows_right(),
        rules.spec_lane_change_type(es, true, virtual_is_passable).spec_allows_right(),
        !rules.spec_lane_change_type(es, true, virtual_is_passable).spec_allows_left(),
{
}

/// `lane_change:right=yes`, with no `lane_change` tag and no
/// `lane_change:left=yes`, allows a change to the right and not to the
/// left, whatever the line looks like; read backwards, the other way round.
pub proof fn lemma_right_change_tag(rules: TrafficRules, es: Seq<(Seq<char>, Seq<char>)>, v: Seq<char>, virtual_is_passable: bool)
    requires
        lookup(es, "lane_change"@) is None,
        lookup(es, "lane_change:right"@) == Some(v),
        as_bool(v) == Some(true),
        lookup(es, "lane_change:left"@) matches Some(w) ==> as_bool(w) != Some(true),
    ensures
        rules.spec_lane_change_type(es, false, virtual_is_passable).spec_allows_right(),
        !rules.spec_lane_change_type(es, false, virtual_is_passable).spec_allows_left(),
        rules.spec_lane_change_type(es, true, virtual_is_passable).spec_allows_left(),
        !rules.spec_lane_change_type(es, true, virtual_is_passable).spec_allows_right(),
{
}

/// The way subtypes the tables name, told apart by length and first letter.
proof fn lemma_subtype_names()
    ensures
        ""@.len() == 0,
        "road"@.len() == 4 && "road"@[0] == 'r',
        "bus_lane"@.len() == 8 && "bus_lane"@[0] == 'b',
        "highway"@.len() == 7 && "highway"@[0] == 'h',
        "bicycle_lane"@.len() == 12 && "bicycle_lane"@[0] == 'b',
        "play_street"@.len() == 11 && "play_street"@[0] == 'p',
        "exit"@.len() == 4 && "exit"@[0] == 'e',
        "emergency_lane"@.len() == 14 && "emergency_lane"@[0] == 'e',
        "walkway"@.len() == 7 && "walkway"@[0] == 'w',
        "crosswalk"@.len() == 9 && "crosswalk"@[0] == 'c',
        "stairs"@.len() == 6 && "stairs"@[0] == 's',
        "shared_walkway"@.len() == 14 && "shared_walkway"@[0] == 's',
{
    reveal_strlit("");
    reveal_strlit("road");
    reveal_strlit("bus_lane");
    reveal_strlit("highway");
    reveal_strlit("bicycle_lane");
    reveal_strlit("play_street");
    reveal_strlit("exit");
    reveal_strlit("emergency_lane");
    reveal_strlit("walkway");
    reveal_strlit("crosswalk");
    reveal_strlit("stairs");
    reveal_strlit("shared_walkway");
}

/// Footways are for pedestrians: with no participant tag, a walkway, a
/// crosswalk or stairs may be used in its own direction exactly by the
/// participants under `pedestrian`.
pub proof fn lemma_footways_for_pedestrians(rules: TrafficRules, es: Seq<(Seq<char>, Seq<char>)>)
    requires
        !has_key_prefixed(es, "participant"@),
        lookup(es, "subtype"@) == Some("walkway"@) || lookup(es, "subtype"@) == Some("crosswalk"@)
            || lookup(es, "subtype"@) == Some("stairs"@),
    ensures
        rules.spec_can_pass(es, false) <==> is_prefix("pedestrian"@, rules.spec_participant()),
{
    lemma_subtype_names();
    reveal_strlit("pedestrian");
    let sub = tag_or_empty(es, "subtype"@);
    assert(sub == "walkway"@ || sub == "crosswalk"@ || sub == "stairs"@);
    assert(admitted(sub) =~= seq![PEDESTRIAN@]);
    let p = rules.spec_participant();
    if is_prefix("pedestrian"@, p) {
        assert(is_prefix(admitted(sub)[0], p));
    }
}

/// A road is for vehicles and bicycles: with no participant tag, it may be
/// used in its own direction exactly by the participants under `vehicle`
/// or under `bicycle`.
pub proof fn lemma_roads_for_vehicles_and_bicycles(rules: TrafficRules, es: Seq<(Seq<char>, Seq<char>)>)
    requires
        !has_key_prefixed(es, "participant"@),
        lookup(es, "subtype"@) == Some("road"@),
    ensures
        rules.spec_can_pass(es, false) <==> (is_prefix("vehicle"@, rules.spec_participant()) || is_prefix(
            "bicycle"@,
            rules.spec_participant(),
        )),
{
    lemma_subtype_names();
    reveal_strlit("vehicle");
    reveal_strlit("bicycle");
}

/// A highway is for vehicles only.
pub proof fn lemma_highways_for_vehicles(rules: TrafficRules, es: Seq<(Seq<char>, Seq<char>)>)
    requires
        !has_key_prefixed(es, "participant"@),
        lookup(es, "subtype"@) == Some("highway"@),
    ensures
        rules.spec_can_pass(es, false) <==> is_prefix("vehicle"@, rules.spec_participant()),
{
    lemma_subtype_names();
    reveal_strlit("vehicle");
    let sub = tag_or_empty(es, "subtype"@);
    assert(admitted(sub) =~= seq![VEHICLE@]);
    if is_prefix("vehicle"@, rules.spec_participant()) {
        assert(is_prefix(admitted(sub)[0], rules.spec_participant()));
    }
}

/// A bicycle lane is for bicycles only; a shared walkway is for pedestrians
/// and bicycles.
pub proof fn lemma_cycle_ways(rules: TrafficRules, es: Seq<(Seq<char>, Seq<char>)>)
    requires
        !has_key_prefixed(es, "participant"@),
    ensures
        lookup(es, "subtype"@) == Some("bicycle_lane"@) ==> (rules.spec_can_pass(es, false) <==> is_prefix(
            "bicycle"@,
            rules.spec_participant(),
        )),
        lookup(es, "subtype"@) == Some("shared_walkway"@) ==> (rules.spec_can_pass(es, false) <==> (is_prefix(
            "pedestrian"@,
            rules.spec_participant(),
        ) || is_prefix("bicycle"@, rules.spec_participant()))),
{
    lemma_subtype_names();
    reveal_strlit("pedestrian");
    reveal_strlit("bicycle");
    let sub = tag_or_empty(es, "subtype"@);
    let p = rules.spec_participant();
    if lookup(es, "subtype"@) == Some("bicycle_lane"@) {
        assert(admitted(sub) =~= seq![BICYCLE@]);
        if is_prefix("bicycle"@, p) {
            assert(is_prefix(admitted(sub)[0], p));
        }
    }
    if lookup(es, "subtype"@) == Some("shared_walkway"@) {
        assert(admitted(sub) =~= seq![PEDESTRIAN@, BICYCLE@]);
        if is_prefix("pedestrian"@, p) {
            assert(is_prefix(admitted(sub)[0], p));
        }
        if is_prefix("bicycle"@, p) {
            assert(is_prefix(admitted(sub)[1], p));
        }
    }
}


/// The other ways: a bus lane is for buses, emergency vehicles and taxis; an
/// emergency lane for emergency vehicles; a play street or an exit for
/// pedestrians, bicycles and vehicles; a lanelet with no subtype for
/// vehicles. In each case exactly those, with no participant tag.
pub proof fn lemma_other_ways(rules: TrafficRules, es: Seq<(Seq<char>, Seq<char>)>)
    requires
        !has_key_prefixed(es, "participant"@),
    ensures
        lookup(es, "subtype"@) == Some("bus_lane"@) ==> (rules.spec_can_pass(es, false) <==> (is_prefix(
            "vehicle:bus"@,
            rules.spec_participant(),
        ) || is_prefix("vehicle:emergency"@, rules.spec_participant()) || is_prefix("vehicle:taxi"@, rules.spec_participant()))),
        lookup(es, "subtype"@) == Some("emergency_lane"@) ==> (rules.spec_can_pass(es, false) <==> is_prefix(
            "vehicle:emergency"@,
            rules.spec_participant(),
        )),
        lookup(es, "subtype"@) == Some("play_street"@) || lookup(es, "subtype"@) == Some("exit"@) ==> (rules.spec_can_pass(
            es,
            false,
        ) <==> (is_prefix("pedestrian"@, rules.spec_participant()) || is_prefix("bicycle"@, rules.spec_participant())
            || is_prefix("vehicle"@, rules.spec_participant()))),
        lookup(es, "subtype"@) is None ==> (rules.spec_can_pass(es, false) <==> is_prefix("vehicle"@, rules.spec_participant())),
{
    lemma_subtype_names();
    reveal_strlit("pedestrian");
    reveal_strlit("bicycle");
    reveal_strlit("vehicle");
    reveal_strlit("vehicle:bus");
    reveal_strlit("vehicle:emergency");
    reveal_strlit("vehicle:taxi");
    let sub = tag_or_empty(es, "subtype"@);
    let p = rules.spec_participant();
    if lookup(es, "subtype"@) == Some("bus_lane"@) {
        assert(admitted(sub) =~= seq![VEHICLE_BUS@, VEHICLE_EMERGENCY@, VEHICLE_TAXI@]);
        if is_prefix("vehicle:bus"@, p) {
            assert(is_prefix(admitted(sub)[0], p));
        }
        if is_prefix("vehicle:emergency"@, p) {
            assert(is_prefix(admitted(sub)[1], p));
        }
        if is_prefix("vehicle:taxi"@, p) {
            assert(is_prefix(admitted(sub)[2], p));
        }
    }
    if lookup(es, "subtype"@) == Some("emergency_lane"@) {
        assert(admitted(sub) =~= seq![VEHICLE_EMERGENCY@]);
        if is_prefix("vehicle:emergency"@, p) {
            assert(is_prefix(admitted(sub)[0], p));
        }
    }
    if lookup(es, "subtype"@) == Some("play_street"@) || lookup(es, "subtype"@) == Some("exit"@) {
        assert(admitted(sub) =~= seq![PEDESTRIAN@, BICYCLE@, VEHICLE@]);
        if is_prefix("pedestrian"@, p) {
            assert(is_prefix(admitted(sub)[0], p));
        }
        if is_prefix("bicycle"@, p) {
            assert(is_prefix(admitted(sub)[1], p));
        }
        if is_prefix("vehicle"@, p) {
            assert(is_prefix(admitted(sub)[2], p));
        }
    }
    if lookup(es, "subtype"@) is None {
        assert(sub == ""@);
        assert(admitted(sub) =~= seq![VEHICLE@]);
        if is_prefix("vehicle"@, p) {
            assert(is_prefix(admitted(sub)[0], p));
        }
    }
}

/// For a vehicle, the markings of a line with no lane-change tags decide,
/// read as stored: on a thin or thick line the left is open where it is
/// `dashed` or `solid_dashed`, the right where it is `dashed` or
/// `dashed_solid`; any other line but a passable virtual one closes both.
pub proof fn lemma_markings_for_vehicles(rules: TrafficRules, es: Seq<(Seq<char>, Seq<char>)>, virtual_is_passable: bool)
    requires
        lookup(es, "lane_change"@) is None,
        lookup(es, "lane_change:left"@) is None,
        lookup(es, "lane_change:right"@) is None,
        is_prefix("vehicle"@, rules.spec_participant()),
        !(virtual_is_passable && tag_or_empty(es, "type"@) == "virtual"@),
    ensures
        ({
            let kind = tag_or_empty(es, "type"@);
            let sub = tag_or_empty(es, "subtype"@);
            let t = rules.spec_lane_change_type(es, false, virtual_is_passable);
            &&& (kind == "line_thin"@ || kind == "line_thick"@) ==> (t.spec_allows_left() <==> (sub == "dashed"@ || sub == "solid_dashed"@))
            &&& (kind == "line_thin"@ || kind == "line_thick"@) ==> (t.spec_allows_right() <==> (sub == "dashed"@ || sub == "dashed_solid"@))
            &&& !(kind == "line_thin"@ || kind == "line_thick"@) ==> !t.spec_allows_left() && !t.spec_allows_right()
        }),
{
    reveal_strlit("vehicle");
    reveal_strlit("dashed");
    reveal_strlit("dashed_solid");
    reveal_strlit("solid_dashed");
    assert("dashed"@.len() == 6);
    assert("dashed_solid"@[0] == 'd' && "solid_dashed"@[0] == 's');
}

/// A beginning of a beginning is a beginning.
pub proof fn lemma_prefix_trans(a: Seq<char>, b: Seq<char>, c: Seq<char>)
    requires
        is_prefix(a, b),
        is_prefix(b, c),
    ensures
        is_prefix(a, c),
{
    assert(c.subrange(0, a.len() as int) =~= c.subrange(0, b.len() as int).subrange(0, a.len() as int));
}

/// What a way admits for a participant it admits for every participant
/// under it: a subtype that admits `vehicle` admits `vehicle:car`.
pub proof fn lemma_admission_inherited(subtype: Seq<char>, general: Seq<char>, specific: Seq<char>)
    requires
        exists|i: int| 0 <= i < admitted(subtype).len() && is_prefix(#[trigger] admitted(subtype)[i], general),
        is_prefix(general, specific),
    ensures
        exists|i: int| 0 <= i < admitted(subtype).len() && is_prefix(#[trigger] admitted(subtype)[i], specific),
{
    let i = choose|i: int| 0 <= i < admitted(subtype).len() && is_prefix(#[trigger] admitted(subtype)[i], general);
    lemma_prefix_trans(admitted(subtype)[i], general, specific);
}

/// Every participant under `vehicle` has rules in Germany, under its own
/// name.
pub proof fn lemma_vehicles_registered(participant: Seq<char>)
    requires
        is_prefix(VEHICLE@, participant),
    ensures
        registered(GERMANY@, participant),
{
}

/// What a German traffic-sign code says of the speed it prescribes.
#[derive(Clone, Copy, Debug, PartialEq, Eq)]
pub enum SignSpeed<'a> {
    /// A sign named outright, with its speed in km/h.
    Named(u32),
    /// A `de274-<n>` sign: the text after the dash carries the speed.
    Coded(&'a str),
    /// Not a speed sign.
    Unknown,
}

/// The prefix of a speed sign that carries its limit in the code.
pub open spec fn coded_prefix() -> Seq<char> {
    "de274-"@
}

/// The speed a German traffic-sign code prescribes: `de274` and `de274_1`
/// are 30 km/h, `de310` is 50, `de274_1-20` is 20, and `de274-<n>` carries
/// it in its code.
pub fn sign_speed<'a>(sign: &'a str) -> (r: SignSpeed<'a>)
    ensures
        (sign@ == "de274"@ || sign@ == "de274_1"@) ==> r == SignSpeed::Named(30),
        sign@ == "de310"@ ==> r == SignSpeed::Named(50),
        sign@ == "de274_1-20"@ ==> r == SignSpeed::Named(20),
        !(sign@ == "de274"@ || sign@ == "de274_1"@ || sign@ == "de310"@ || sign@ == "de274_1-20"@) ==> match r {
            SignSpeed::Coded(rest) => is_prefix(coded_prefix(), sign@) && rest@ == sign@.subrange(
                coded_prefix().len() as int,
                sign@.len() as int,
            ),
            SignSpeed::Unknown => !is_prefix(coded_prefix(), sign@),
            SignSpeed::Named(_) => false,
        },
{
    proof {
        reveal_strlit("de274");
        reveal_strlit("de274_1");
        reveal_strlit("de310");
        reveal_strlit("de274_1-20");
        assert("de274"@.len() == 5 && "de310"@.len() == 5 && "de274_1"@.len() == 7 && "de274_1-20"@.len() == 10);
        assert("de274"@[2] == '2' && "de310"@[2] == '3');
        assert("de274"@ != "de310"@);
    }
    if str_eq(sign, "de274") || str_eq(sign, "de274_1") {
        return SignSpeed::Named(30);
    }
    if str_eq(sign, "de310") {
        return SignSpeed::Named(50);
    }
    if str_eq(sign, "de274_1-20") {
        return SignSpeed::Named(20);
    }
    if starts_with(sign, "de274-") {
        let n = sign.unicode_len();
        let skip = "de274-".unicode_len();
        return SignSpeed::Coded(sign.substring_char(skip, n));
    }
    SignSpeed::Unknown
}

} // verus!
