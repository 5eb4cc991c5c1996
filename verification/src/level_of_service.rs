//! Rule-based level-of-service classifier: a deterministic function of
//! infrastructure type, posted speed and daily traffic volume, plus the
//! speed-limit derivation from raw tag values.
use vstd::prelude::*;
use crate::{InfraType, MapModel};

verus! {

/// Derived service grade for a road; never stored, always recomputed from
/// its inputs.
#[derive(Clone, Copy, PartialEq, Eq, Structural, Debug)]
pub enum LevelOfService {
    High,
    Medium,
    Low,
    ShouldNotBeUsed,
}

/// The ordered threshold table for roads without dedicated infrastructure
/// (mixed traffic or unknown); the first matching row wins.
pub open spec fn spec_mixed_traffic_los(speed: u64, traffic: u64) -> LevelOfService {
    if speed <= 20 && traffic < 2000 {
        LevelOfService::High
    } else if speed == 30 && traffic < 1000 {
        LevelOfService::High
    } else if speed <= 20 && traffic < 4000 {
        LevelOfService::Medium
    } else if speed == 30 && traffic < 2000 {
        LevelOfService::Medium
    } else if speed == 40 && traffic < 1000 {
        LevelOfService::Medium
    } else if speed <= 30 {
        LevelOfService::Low
    } else if speed == 40 && traffic < 2000 {
        LevelOfService::Low
    } else if speed == 60 && traffic < 1000 {
        LevelOfService::Low
    } else {
        LevelOfService::ShouldNotBeUsed
    }
}

/// Level of service as a function of infrastructure type, speed and traffic.
pub open spec fn spec_level_of_service(infra: InfraType, speed: u64, traffic: u64) -> LevelOfService {
    match infra {
        InfraType::SegregatedWide => LevelOfService::High,
        InfraType::OffRoad => LevelOfService::High,
        InfraType::SegregatedNarrow => LevelOfService::Medium,
        InfraType::SharedFootway => LevelOfService::Medium,
        InfraType::CycleLane => LevelOfService::Low,
        InfraType::MixedTraffic => spec_mixed_traffic_los(speed, traffic),
        InfraType::Unknown => spec_mixed_traffic_los(speed, traffic),
    }
}

/// The upgrade recommended for an unclaimed road, keyed by its current
/// level of service: a fixed one-level upgrade, deliberately not
/// context-sensitive.
pub open spec fn spec_best_infra_type(los: LevelOfService) -> Option<InfraType> {
    match los {
        LevelOfService::High => None,
        LevelOfService::Medium => Some(InfraType::SegregatedNarrow),
        LevelOfService::Low => Some(InfraType::SegregatedWide),
        LevelOfService::ShouldNotBeUsed => Some(InfraType::SegregatedWide),
    }
}

pub open spec fn spec_is_digit(c: char) -> bool {
    48 <= c as u32 <= 57
}

pub open spec fn spec_all_digits(s: Seq<char>) -> bool {
    forall|i: int| 0 <= i < s.len() ==> spec_is_digit(#[trigger] s[i])
}

/// The number a string of decimal digits denotes.
pub open spec fn spec_digits_value(s: Seq<char>) -> int
    decreases s.len(),
{
    if s.len() == 0 {
        0
    } else {
        spec_digits_value(s.drop_last()) * 10 + (s.last() as u32 - 48)
    }
}

/// Whether the string ends in `" mph"` with at least one character before.
pub open spec fn spec_mph_suffix(s: Seq<char>) -> bool {
    &&& s.len() >= 5
    &&& s[s.len() - 4] == ' '
    &&& s[s.len() - 3] == 'm'
    &&& s[s.len() - 2] == 'p'
    &&& s[s.len() - 1] == 'h'
}

/// The digit run of a `"<n> mph"` tag value: everything before the
/// suffix, past an optional leading plus sign, as a standard integer parse
/// reads it.
pub open spec fn spec_mph_digits(s: Seq<char>) -> Seq<char> {
    let prefix = s.subrange(0, s.len() - 4);
    if prefix.len() > 0 && prefix[0] == '+' {
        prefix.drop_first()
    } else {
        prefix
    }
}

/// A literal `"<n> mph"` tag value: the digits before the suffix, read as
/// a number, when they are digits (an optional leading plus sign allowed)
/// and the number is representable.
pub open spec fn spec_parse_mph(s: Seq<char>) -> Option<u64> {
    if spec_mph_suffix(s) && spec_mph_digits(s).len() > 0 && spec_all_digits(spec_mph_digits(s))
        && spec_digits_value(spec_mph_digits(s)) <= u64::MAX {
        Some(spec_digits_value(spec_mph_digits(s)) as u64)
    } else {
        None
    }
}

/// Fallback speed by road class, with a conservative default for classes
/// the table does not know.
pub open spec fn spec_highway_speed(h: Seq<char>) -> u64 {
    if h == "residential"@ || h == "service"@ || h == "unclassified"@ {
        20
    } else if h == "tertiary"@ || h == "tertiary_link"@ || h == "secondary"@ || h
        == "secondary_link"@ {
        30
    } else if h == "primary"@ || h == "primary_link"@ {
        40
    } else if h == "trunk"@ || h == "trunk_link"@ {
        60
    } else {
        30
    }
}

/// Speed limit in mph from the raw tag values: a "national" limit resolves
/// by motorway class, an explicit `"<n> mph"` value is parsed literally,
/// and anything else falls back to the road-class table.
pub open spec fn spec_speed_mph(maxspeed: Option<Seq<char>>, highway: Seq<char>) -> u64 {
    match maxspeed {
        Some(ms) => if ms == "national"@ {
            if highway == "motorway"@ || highway == "motorway_link"@ {
                70
            } else {
                60
            }
        } else if spec_parse_mph(ms) is Some {
            spec_parse_mph(ms)->0
        } else {
            spec_highway_speed(highway)
        },
        None => spec_highway_speed(highway),
    }
}

/// A longer digit string denotes at least as large a number.
proof fn lemma_digits_value_monotone(s: Seq<char>, i: int, j: int)
    requires
        spec_all_digits(s),
        0 <= i <= j <= s.len(),
    ensures
        0 <= spec_digits_value(s.subrange(0, i)) <= spec_digits_value(s.subrange(0, j)),
    decreases j - i,
{
    if i == j {
        lemma_digits_value_nonneg(s.subrange(0, i));
    } else {
        lemma_digits_value_monotone(s, i, j - 1);
        assert(s.subrange(0, j).drop_last() =~= s.subrange(0, j - 1));
        assert(spec_is_digit(s.subrange(0, j).last()));
    }
}

proof fn lemma_digits_value_nonneg(s: Seq<char>)
    requires
        spec_all_digits(s),
    ensures
        spec_digits_value(s) >= 0,
    decreases s.len(),
{
    if s.len() > 0 {
        assert(spec_all_digits(s.drop_last()));
        lemma_digits_value_nonneg(s.drop_last());
        assert(spec_is_digit(s.last()));
    }
}

/// Parses a `"<n> mph"` tag value; anything else, digits too large to
/// represent included, is reported unparseable.
fn parse_mph(s: &String) -> (result: Option<u64>)
    ensures
        result == spec_parse_mph(s@),
{
    let st: &str = s.as_str();
    let n = st.unicode_len();
    if n < 5 {
        return None;
    }
    if st.get_char(n - 4) != ' ' || st.get_char(n - 3) != 'm' || st.get_char(n - 2) != 'p'
        || st.get_char(n - 1) != 'h' {
        return None;
    }
    let start: usize = if st.get_char(0) == '+' {
        1
    } else {
        0
    };
    let ghost digits = s@.subrange(start as int, n - 4);
    proof {
        assert(s@.subrange(0, n - 4)[0] == s@[0]);
        if s@[0] == '+' {
            assert(digits =~= s@.subrange(0, n - 4).drop_first());
        }
        assert(digits == spec_mph_digits(s@));
    }
    if n - 4 == start {
        // A bare plus sign before the suffix: no digits at all.
        return None;
    }
    let mut value: u64 = 0;
    let mut i: usize = start;
    while i < n - 4
        invariant
            5 <= n == s@.len(),
            spec_mph_suffix(s@),
            start <= 1,
            start < n - 4,
            digits == s@.subrange(start as int, n - 4),
            digits == spec_mph_digits(s@),
            start <= i <= n - 4,
            spec_all_digits(s@.subrange(start as int, i as int)),
            value == spec_digits_value(s@.subrange(start as int, i as int)),
            st@ == s@,
        decreases n - 4 - i,
    {
        let c = st.get_char(i);
        let d = c as u32;
        if d < 48 || d > 57 {
            proof {
                assert(digits[i - start] == s@[i as int]);
                assert(!spec_is_digit(digits[i - start]));
            }
            return None;
        }
        proof {
            assert(s@.subrange(start as int, i + 1).drop_last() =~= s@.subrange(
                start as int,
                i as int,
            ));
            assert(s@.subrange(start as int, i + 1).last() == s@[i as int]);
            assert(spec_all_digits(s@.subrange(start as int, i + 1)));
        }
        let step = match value.checked_mul(10) {
            Some(v10) => v10.checked_add((d - 48) as u64),
            None => None,
        };
        match step {
            Some(v) => {
                value = v;
            },
            None => {
                // The digits denote a number too large to represent; any
                // remaining characters can only make it larger.
                proof {
                    assert(spec_digits_value(s@.subrange(start as int, i + 1)) > u64::MAX);
                    if spec_all_digits(digits) {
                        lemma_digits_value_monotone(digits, i + 1 - start, n - 4 - start);
                        assert(digits.subrange(0, i + 1 - start) =~= s@.subrange(
                            start as int,
                            i + 1,
                        ));
                        assert(digits.subrange(0, n - 4 - start) =~= digits);
                    }
                }
                return None;
            },
        }
        i += 1;
    }
    proof {
        assert(s@.subrange(start as int, i as int) =~= digits);
    }
    Some(value)
}

/// The view of an optional borrowed tag value.
pub open spec fn view_opt(s: Option<&String>) -> Option<Seq<char>> {
    match s {
        Some(v) => Some(v@),
        None => None,
    }
}

/// Derives a speed limit in mph from a road's `maxspeed` and `highway` tag
/// values; never fails, falling back to a conservative default.
pub fn get_speed_mph(maxspeed: Option<&String>, highway: &String) -> (result: u64)
    ensures
        result == spec_speed_mph(view_opt(maxspeed), highway@),
{
    if let Some(ms) = maxspeed {
        let national: String = "national".to_owned();
        if *ms == national {
            let motorway: String = "motorway".to_owned();
            let motorway_link: String = "motorway_link".to_owned();
            if *highway == motorway || *highway == motorway_link {
                return 70;
            }
            return 60;
        }
        if let Some(mph) = parse_mph(ms) {
            return mph;
        }
    }
    highway_class_speed(highway)
}

/// The road-class fallback table.
fn highway_class_speed(highway: &String) -> (result: u64)
    ensures
        result == spec_highway_speed(highway@),
{
    if *highway == "residential".to_owned() || *highway == "service".to_owned() || *highway
        == "unclassified".to_owned() {
        20
    } else if *highway == "tertiary".to_owned() || *highway == "tertiary_link".to_owned()
        || *highway == "secondary".to_owned() || *highway == "secondary_link".to_owned() {
        30
    } else if *highway == "primary".to_owned() || *highway == "primary_link".to_owned() {
        40
    } else if *highway == "trunk".to_owned() || *highway == "trunk_link".to_owned() {
        60
    } else {
        // An unrecognized road class: default conservatively rather than
        // fail; classification must always produce a result.
        30
    }
}

impl MapModel {
    /// Level of service of road `r` under the current edits.
    pub fn calculate_level_of_service(&self, r: usize) -> (result: LevelOfService)
        requires
            self.wf(),
            r < self.num_roads,
        ensures
            result == spec_level_of_service(
                crate::infra_or_unknown(self.routes_seq(), r),
                self.speeds@[r as int],
                self.traffic_volumes@[r as int],
            ),
    {
        let infra_type = self.get_infra_type(r);
        let speed = self.speeds[r];
        let traffic = self.traffic_volumes[r];
        match infra_type {
            InfraType::SegregatedWide => LevelOfService::High,
            InfraType::OffRoad => LevelOfService::High,
            InfraType::SegregatedNarrow => LevelOfService::Medium,
            InfraType::SharedFootway => LevelOfService::Medium,
            InfraType::CycleLane => LevelOfService::Low,
            InfraType::MixedTraffic | InfraType::Unknown => {
                if speed <= 20 && traffic < 2000 {
                    LevelOfService::High
                } else if speed == 30 && traffic < 1000 {
                    LevelOfService::High
                } else if speed <= 20 && traffic < 4000 {
                    LevelOfService::Medium
                } else if speed == 30 && traffic < 2000 {
                    LevelOfService::Medium
                } else if speed == 40 && traffic < 1000 {
                    LevelOfService::Medium
                } else if speed <= 30 {
                    LevelOfService::Low
                } else if speed == 40 && traffic < 2000 {
                    LevelOfService::Low
                } else if speed == 60 && traffic < 1000 {
                    LevelOfService::Low
                } else {
                    LevelOfService::ShouldNotBeUsed
                }
            },
        }
    }

    /// Per-road classification record for rendering: the service grade, the
    /// claimed infrastructure, and the inputs that produced them.
    pub fn render_level_of_service(&self) -> (result: Vec<(InfraType, LevelOfService, u64, u64)>)
        requires
            self.wf(),
        ensures
            result@.len() == self.num_roads,
            forall|r: int|
                0 <= r < self.num_roads ==> #[trigger] result@[r] == (
                crate::infra_or_unknown(self.routes_seq(), r as usize),
                spec_level_of_service(
                    crate::infra_or_unknown(self.routes_seq(), r as usize),
                    self.speeds@[r],
                    self.traffic_volumes@[r],
                ),
                self.traffic_volumes@[r],
                self.speeds@[r],
            ),
    {
        let mut result: Vec<(InfraType, LevelOfService, u64, u64)> = Vec::new();
        let mut r: usize = 0;
        while r < self.num_roads
            invariant
                self.wf(),
                r <= self.num_roads,
                result@.len() == r,
                forall|k: int|
                    0 <= k < r ==> #[trigger] result@[k] == (
                    crate::infra_or_unknown(self.routes_seq(), k as usize),
                    spec_level_of_service(
                        crate::infra_or_unknown(self.routes_seq(), k as usize),
                        self.speeds@[k],
                        self.traffic_volumes@[k],
                    ),
                    self.traffic_volumes@[k],
                    self.speeds@[k],
                ),
            decreases self.num_roads - r,
        {
            let infra = self.get_infra_type(r);
            let los = self.calculate_level_of_service(r);
            result.push((infra, los, self.traffic_volumes[r], self.speeds[r]));
            r += 1;
        }
        result
    }
}

} // verus!
