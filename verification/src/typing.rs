//! What a typing pass over a zone collection comes to: the type of every zone and the
//! failures counted on the way.

use crate::cosmogony::CosmogonyStats;
use crate::country_finder::first_country;
use crate::hierarchy_builder::candidates_at;
use crate::zone::{admin_levels, zone_types, Zone, ZoneIndex, ZoneType};
use crate::zone_typer::{classify, Classification, CountryRules};
use vstd::prelude::*;

verus! {

/// What a typing pass works with besides the zones: the rule table, the indexed
/// countries, the country given for the whole run, if any, and the candidate lists.
pub struct TypingInput {
    pub table: Seq<CountryRules>,
    pub countries: Seq<(i64, Seq<char>)>,
    pub country_code: Option<Seq<char>>,
    pub inclusions: Seq<Seq<ZoneIndex>>,
}

/// What the pass does with one zone.
pub enum Outcome {
    /// No country was found for the zone.
    NoCountry,
    /// The zone got this type.
    Typed(ZoneType),
    /// The country of the zone has no rules.
    InvalidCountry(Seq<char>),
    /// The rules of the country give no type for the level of the zone; a zone
    /// without level stands under level 0.
    UnknownLevel(Seq<char>, u32),
}

/// The country of a zone: the one given for the run or else the first indexed country
/// that the zone lies in.
pub open spec fn resolved_country(input: TypingInput, z: Zone) -> Option<Seq<char>> {
    match input.country_code {
        Some(c) => Some(c),
        None => first_country(input.countries, z.osm_id, z.boundary, 0),
    }
}

/// What the pass does with zone `i` when the zones have the types `types`.
pub open spec fn outcome_at(
    input: TypingInput,
    zones: Seq<Zone>,
    types: Seq<Option<ZoneType>>,
    i: int,
) -> Outcome {
    match resolved_country(input, zones[i]) {
        None => Outcome::NoCountry,
        Some(c) => match classify(
            input.table,
            zones[i].admin_level,
            zones[i].tags,
            c,
            candidates_at(input.inclusions, i),
            types,
            admin_levels(zones),
        ) {
            Classification::Typed(t) => Outcome::Typed(t),
            Classification::InvalidCountry => Outcome::InvalidCountry(c),
            Classification::UnknownLevel => Outcome::UnknownLevel(
                c,
                match zones[i].admin_level {
                    Some(l) => l,
                    None => 0,
                },
            ),
        },
    }
}

/// The types of the zones once the pass has dealt with the first `k` of them. The pass
/// takes the zones in order, and each zone is classified against the types that the
/// zones before it have been given.
pub open spec fn types_after(input: TypingInput, zones: Seq<Zone>, k: nat) -> Seq<Option<ZoneType>>
    decreases k,
{
    if k == 0 {
        zone_types(zones)
    } else {
        let before = types_after(input, zones, (k - 1) as nat);
        match outcome_at(input, zones, before, k - 1) {
            Outcome::Typed(t) => before.update(k - 1, Some(t)),
            _ => before,
        }
    }
}

/// What the pass does with zone `i`.
pub open spec fn outcome(input: TypingInput, zones: Seq<Zone>, i: int) -> Outcome {
    outcome_at(input, zones, types_after(input, zones, i as nat), i)
}

/// How many of the first `k` zones are left without country.
pub open spec fn without_country(input: TypingInput, zones: Seq<Zone>, k: nat) -> nat
    decreases k,
{
    if k == 0 {
        0
    } else {
        without_country(input, zones, (k - 1) as nat) + if outcome(input, zones, k - 1)
            == Outcome::NoCountry {
            1nat
        } else {
            0nat
        }
    }
}

/// How many of the first `k` zones belong to `country` and find no rules for it.
pub open spec fn invalid_country(
    input: TypingInput,
    zones: Seq<Zone>,
    k: nat,
    country: Seq<char>,
) -> nat
    decreases k,
{
    if k == 0 {
        0
    } else {
        invalid_country(input, zones, (k - 1) as nat, country) + if outcome(input, zones, k - 1)
            == Outcome::InvalidCountry(country) {
            1nat
        } else {
            0nat
        }
    }
}

/// How many of the first `k` zones belong to `country` and find no type for `level`.
pub open spec fn unhandled_level(
    input: TypingInput,
    zones: Seq<Zone>,
    k: nat,
    country: Seq<char>,
    level: u32,
) -> nat
    decreases k,
{
    if k == 0 {
        0
    } else {
        unhandled_level(input, zones, (k - 1) as nat, country, level) + if outcome(
            input,
            zones,
            k - 1,
        ) == Outcome::UnknownLevel(country, level) {
            1nat
        } else {
            0nat
        }
    }
}

/// The country code that zone `before` carries after the pass: the country found for
/// it, or what it carried before where none was found.
pub open spec fn records_country(input: TypingInput, before: Zone, after: Zone) -> bool {
    match resolved_country(input, before) {
        Some(c) => after.country_code matches Some(code) && code@ == c,
        None => after.country_code == before.country_code,
    }
}

/// `after` is what the pass over the first `k` zones makes of `before`: those zones
/// have their types and country codes, and nothing else has changed.
pub open spec fn typed_upto(input: TypingInput, before: Seq<Zone>, after: Seq<Zone>, k: nat) -> bool {
    &&& after.len() == before.len()
    &&& zone_types(after) == types_after(input, before, k)
    &&& forall|j: int|
        0 <= j < before.len() ==> #[trigger] after[j] == (Zone {
            zone_type: after[j].zone_type,
            country_code: after[j].country_code,
            ..before[j]
        })
    &&& forall|j: int| 0 <= j < k && j < before.len() ==> records_country(input, before[j], #[trigger] after[j])
    &&& forall|j: int|
        k <= j < before.len() ==> (#[trigger] after[j]).country_code == before[j].country_code
}

/// `after` is `before` with the failures of the first `k` zones counted in.
pub open spec fn tallied_upto(
    input: TypingInput,
    zones: Seq<Zone>,
    before: CosmogonyStats,
    after: CosmogonyStats,
    k: nat,
) -> bool {
    &&& after.zone_without_country == before.zone_without_country + without_country(
        input,
        zones,
        k,
    )
    &&& forall|c: Seq<char>| #[trigger]
        after.unknown_country_rules(c) == before.unknown_country_rules(c) + invalid_country(
            input,
            zones,
            k,
            c,
        )
    &&& forall|c: Seq<char>, l: u32| #[trigger]
        after.unhandled(c, l) == before.unhandled(c, l) + unhandled_level(input, zones, k, c, l)
    &&& after.zone_type_counts == before.zone_type_counts
}

/// Among the first `k` zones no kind of failure is counted more than `k` times.
pub proof fn lemma_failures_bounded(input: TypingInput, zones: Seq<Zone>, k: nat)
    ensures
        without_country(input, zones, k) <= k,
        forall|c: Seq<char>| #[trigger] invalid_country(input, zones, k, c) <= k,
        forall|c: Seq<char>, l: u32| #[trigger] unhandled_level(input, zones, k, c, l) <= k,
    decreases k,
{
    if k > 0 {
        lemma_failures_bounded(input, zones, (k - 1) as nat);
        assert forall|c: Seq<char>| #[trigger] invalid_country(input, zones, k, c) <= k by {
            assert(invalid_country(input, zones, (k - 1) as nat, c) <= k - 1);
        }
        assert forall|c: Seq<char>, l: u32| #[trigger]
            unhandled_level(input, zones, k, c, l) <= k by {
            assert(unhandled_level(input, zones, (k - 1) as nat, c, l) <= k - 1);
        }
    }
}

/// The pass keeps as many types as there are zones, and the type of zone `k` is
/// settled once the pass has dealt with it: it is what step `k` made of it.
pub proof fn lemma_type_settles(input: TypingInput, zones: Seq<Zone>, k: int, upto: nat)
    requires
        0 <= k < zones.len(),
        upto <= zones.len(),
    ensures
        types_after(input, zones, upto).len() == zones.len(),
        upto <= k ==> types_after(input, zones, upto)[k] == zones[k].zone_type,
        upto > k ==> types_after(input, zones, upto)[k] == types_after(
            input,
            zones,
            (k + 1) as nat,
        )[k],
    decreases upto,
{
    if upto > 0 {
        lemma_type_settles(input, zones, k, (upto - 1) as nat);
    }
}

/// The counters never go down as the pass goes on.
pub proof fn lemma_failures_grow(input: TypingInput, zones: Seq<Zone>, from: nat, upto: nat)
    requires
        from <= upto,
    ensures
        without_country(input, zones, from) <= without_country(input, zones, upto),
        forall|c: Seq<char>|
            invalid_country(input, zones, from, c) <= #[trigger] invalid_country(
                input,
                zones,
                upto,
                c,
            ),
        forall|c: Seq<char>, l: u32|
            unhandled_level(input, zones, from, c, l) <= #[trigger] unhandled_level(
                input,
                zones,
                upto,
                c,
                l,
            ),
    decreases upto,
{
    if from < upto {
        lemma_failures_grow(input, zones, from, (upto - 1) as nat);
        assert forall|c: Seq<char>|
            invalid_country(input, zones, from, c) <= #[trigger] invalid_country(
                input,
                zones,
                upto,
                c,
            ) by {
            assert(invalid_country(input, zones, from, c) <= invalid_country(
                input,
                zones,
                (upto - 1) as nat,
                c,
            ));
        }
        assert forall|c: Seq<char>, l: u32|
            unhandled_level(input, zones, from, c, l) <= #[trigger] unhandled_level(
                input,
                zones,
                upto,
                c,
                l,
            ) by {
            assert(unhandled_level(input, zones, from, c, l) <= unhandled_level(
                input,
                zones,
                (upto - 1) as nat,
                c,
                l,
            ));
        }
    }
}

/// A zone that came without type leaves the pass without type exactly when the pass
/// failed on it, and every such failure is in the counters: under no country, under
/// its country, or under its country and level.
pub proof fn lemma_untyped_zone_is_counted(input: TypingInput, zones: Seq<Zone>, k: int)
    requires
        0 <= k < zones.len(),
        zones[k].zone_type is None,
    ensures
        types_after(input, zones, zones.len())[k] is None <==> !(outcome(input, zones, k) is Typed),
        match outcome(input, zones, k) {
            Outcome::NoCountry => without_country(input, zones, zones.len()) >= 1,
            Outcome::InvalidCountry(c) => invalid_country(input, zones, zones.len(), c) >= 1,
            Outcome::UnknownLevel(c, l) => unhandled_level(input, zones, zones.len(), c, l) >= 1,
            Outcome::Typed(_) => true,
        },
{
    lemma_type_settles(input, zones, k, zones.len());
    lemma_type_settles(input, zones, k, k as nat);
    lemma_failures_grow(input, zones, (k + 1) as nat, zones.len());
    match outcome(input, zones, k) {
        Outcome::InvalidCountry(c) => {
            assert(invalid_country(input, zones, (k + 1) as nat, c) >= 1);
        },
        Outcome::UnknownLevel(c, l) => {
            assert(unhandled_level(input, zones, (k + 1) as nat, c, l) >= 1);
        },
        _ => {},
    }
}

} // verus!
