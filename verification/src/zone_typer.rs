//! Classifies zones by the rules of their country.

use crate::tags::{tags_contain, tags_map};
use crate::zone::{admin_levels, zone_types, Zone, ZoneIndex, ZoneType};
use osmpbfreader::Tags;
use vstd::prelude::*;

verus! {

/// In one country, relations of administrative level `level` are zones of type
/// `zone_type`.
pub struct LevelRule {
    pub level: u32,
    pub zone_type: ZoneType,
}

/// A relation that carries the tag `key` = `value` is recognisable as a boundary even
/// without an administrative level.
pub struct TagRule {
    pub key: String,
    pub value: String,
}

/// The rules of one country. Where two level rules name the same level, the first
/// counts.
pub struct CountryRules {
    pub country: String,
    pub levels: Vec<LevelRule>,
    pub fallback: Vec<TagRule>,
}

/// The rule table. Where two entries name the same country, the first counts.
pub struct ZoneTyper {
    pub countries_rules: Vec<CountryRules>,
}

/// Why a zone could not be classified.
#[derive(Debug)]
pub enum ZoneTyperError {
    /// The table has no rules for this country.
    InvalidCountry(String),
    /// The rules of this country give no type for a relation of this level.
    UnknownLevel(Option<u32>, String),
}

/// What classifying a zone comes to.
pub enum Classification {
    Typed(ZoneType),
    InvalidCountry,
    UnknownLevel,
}

/// Position of the first entry for `country`, from position `from` on.
pub open spec fn find_rules(table: Seq<CountryRules>, country: Seq<char>, from: int) -> Option<int>
    decreases table.len() - from,
{
    if from < 0 || from >= table.len() {
        None
    } else if table[from].country@ == country {
        Some(from)
    } else {
        find_rules(table, country, from + 1)
    }
}

/// The type that the first rule for `level` gives, from position `from` on.
pub open spec fn level_rule(levels: Seq<LevelRule>, level: u32, from: int) -> Option<ZoneType>
    decreases levels.len() - from,
{
    if from < 0 || from >= levels.len() {
        None
    } else if levels[from].level == level {
        Some(levels[from].zone_type)
    } else {
        level_rule(levels, level, from + 1)
    }
}

/// Some fallback rule names a tag that the collection holds.
pub open spec fn recognised(fallback: Seq<TagRule>, tags: Tags) -> bool {
    exists|k: int|
        0 <= k < fallback.len() && tags_map(tags).contains_key((#[trigger] fallback[k]).key@)
            && tags_map(tags)[fallback[k].key@] == fallback[k].value@
}

/// The type of candidate `k`, if it is a zone of the collection that has one.
pub open spec fn resolved_type(
    candidates: Seq<ZoneIndex>,
    types: Seq<Option<ZoneType>>,
    k: int,
) -> Option<ZoneType> {
    if 0 <= k < candidates.len() && candidates[k].index < types.len() {
        types[candidates[k].index as int]
    } else {
        None
    }
}

/// Position of the first candidate with a type, from position `from` on.
pub open spec fn nearest_resolved(
    candidates: Seq<ZoneIndex>,
    types: Seq<Option<ZoneType>>,
    from: int,
) -> Option<int>
    decreases candidates.len() - from,
{
    if from < 0 || from >= candidates.len() {
        None
    } else if resolved_type(candidates, types, from) is Some {
        Some(from)
    } else {
        nearest_resolved(candidates, types, from + 1)
    }
}

/// No candidate after position `k` has a type that ranks finer than `depth`.
pub open spec fn none_finer_beyond(
    candidates: Seq<ZoneIndex>,
    types: Seq<Option<ZoneType>>,
    k: int,
    depth: nat,
) -> bool {
    forall|j: int|
        k < j < candidates.len() ==> (#[trigger] resolved_type(candidates, types, j) matches Some(
            t,
        ) ==> (t.depth() matches Some(d) ==> d <= depth))
}

/// The administrative level of candidate `k`, if it is known.
pub open spec fn candidate_level(
    candidates: Seq<ZoneIndex>,
    levels: Seq<Option<u32>>,
    k: int,
) -> Option<u32> {
    if 0 <= k < candidates.len() && candidates[k].index < levels.len() {
        levels[candidates[k].index as int]
    } else {
        None
    }
}

/// The type that the ancestors give to a zone of level `level` for which its country
/// has no rule; `types` and `levels` are those of the zones of the collection.
///
/// Only the nearest candidate with a type is asked, and only when the chain is
/// unambiguous: that candidate has a ranked type with a finer rank below it, its own
/// administrative level is known and lower than `level`, and no candidate further out
/// has a finer type than it. The zone then gets the type one rank finer.
pub open spec fn inferred_type(
    level: u32,
    candidates: Seq<ZoneIndex>,
    types: Seq<Option<ZoneType>>,
    levels: Seq<Option<u32>>,
) -> Option<ZoneType> {
    match nearest_resolved(candidates, types, 0) {
        None => None,
        Some(k) => {
            let t = resolved_type(candidates, types, k)->0;
            let near_level = candidate_level(candidates, levels, k);
            if t.finer_spec() is Some && t.depth() is Some && near_level is Some && near_level->0
                < level && none_finer_beyond(candidates, types, k, t.depth()->0) {
                t.finer_spec()
            } else {
                None
            }
        },
    }
}

/// The classification of a zone of `country` with administrative level `admin_level`
/// and tags `tags`; `candidates` are its candidate ancestors, `types` and `levels`
/// those of the zones of the collection.
///
/// Without rules for the country there is none. A zone with an administrative level
/// gets the type that the country's rules give to the level, else the type inferred
/// from its ancestors. A zone without level is non-administrative when a fallback
/// rule of the country recognises its tags.
pub open spec fn classify(
    table: Seq<CountryRules>,
    admin_level: Option<u32>,
    tags: Tags,
    country: Seq<char>,
    candidates: Seq<ZoneIndex>,
    types: Seq<Option<ZoneType>>,
    levels: Seq<Option<u32>>,
) -> Classification {
    match find_rules(table, country, 0) {
        None => Classification::InvalidCountry,
        Some(r) => match admin_level {
            Some(level) => match level_rule(table[r].levels@, level, 0) {
                Some(t) => Classification::Typed(t),
                None => match inferred_type(level, candidates, types, levels) {
                    Some(t) => Classification::Typed(t),
                    None => Classification::UnknownLevel,
                },
            },
            None => if recognised(table[r].fallback@, tags) {
                Classification::Typed(ZoneType::NonAdministrative)
            } else {
                Classification::UnknownLevel
            },
        },
    }
}

impl CountryRules {
    /// The type that the rules give to a relation of level `level`.
    pub fn type_of_level(&self, level: u32) -> (r: Option<ZoneType>)
        ensures
            r == level_rule(self.levels@, level, 0),
    {
        let mut k: usize = 0;
        while k < self.levels.len()
            invariant
                k <= self.levels.len(),
                level_rule(self.levels@, level, 0) == level_rule(self.levels@, level, k as int),
            decreases self.levels.len() - k,
        {
            if self.levels[k].level == level {
                return Some(self.levels[k].zone_type);
            }
            k += 1;
        }
        None
    }

    /// Whether a fallback rule recognises the tags.
    pub fn recognises(&self, tags: &Tags) -> (r: bool)
        ensures
            r == recognised(self.fallback@, *tags),
    {
        let mut k: usize = 0;
        while k < self.fallback.len()
            invariant
                k <= self.fallback.len(),
                forall|j: int|
                    0 <= j < k ==> !(tags_map(*tags).contains_key((#[trigger] self.fallback@[j]).key@)
                        && tags_map(*tags)[self.fallback@[j].key@] == self.fallback@[j].value@),
            decreases self.fallback.len() - k,
        {
            let rule = &self.fallback[k];
            if tags_contain(tags, rule.key.as_str(), rule.value.as_str()) {
                return true;
            }
            k += 1;
        }
        false
    }
}

/// The type inferred from the ancestors of a zone of level `level`.
pub fn infer_from_ancestors(level: u32, candidates: &Vec<ZoneIndex>, all: &Vec<Zone>) -> (r:
    Option<ZoneType>)
    ensures
        r == inferred_type(level, candidates@, zone_types(all@), admin_levels(all@)),
{
    let mut k: usize = 0;
    while k < candidates.len()
        invariant
            k <= candidates.len(),
            nearest_resolved(candidates@, zone_types(all@), 0) == nearest_resolved(
                candidates@,
                zone_types(all@),
                k as int,
            ),
        decreases candidates.len() - k,
    {
        let c = candidates[k].index;
        if c < all.len() {
            if let Some(t) = all[c].zone_type {
                assert(resolved_type(candidates@, zone_types(all@), k as int) == Some(t));
                let near_level = all[c].admin_level;
                let depth = match t.rank() {
                    Some(d) => d,
                    None => {
                        return None;
                    },
                };
                let finer = t.finer();
                if finer.is_none() || near_level.is_none() || near_level.unwrap() >= level {
                    return None;
                }
                let mut j: usize = k + 1;
                while j < candidates.len()
                    invariant
                        k < j <= candidates.len(),
                        nearest_resolved(candidates@, zone_types(all@), 0) == Some(k as int),
                        c == candidates@[k as int].index,
                        c < all.len(),
                        all@[c as int].zone_type == Some(t),
                        t.depth() == Some(depth as nat),
                        finer == t.finer_spec(),
                        finer is Some,
                        all@[c as int].admin_level is Some,
                        all@[c as int].admin_level->0 < level,
                        forall|m: int|
                            k < m < j ==> (#[trigger] resolved_type(candidates@, zone_types(all@), m) matches Some(
                                u,
                            ) ==> (u.depth() matches Some(d) ==> d <= depth)),
                    decreases candidates.len() - j,
                {
                    let o = candidates[j].index;
                    if o < all.len() {
                        if let Some(u) = all[o].zone_type {
                            assert(resolved_type(candidates@, zone_types(all@), j as int) == Some(u));
                            if let Some(d) = u.rank() {
                                if d > depth {
                                    assert(!none_finer_beyond(
                                        candidates@,
                                        zone_types(all@),
                                        k as int,
                                        depth as nat,
                                    ));
                                    return None;
                                }
                            }
                        }
                    }
                    j += 1;
                }
                return finer;
            }
        }
        assert(resolved_type(candidates@, zone_types(all@), k as int) is None);
        k += 1;
    }
    None
}

impl ZoneTyper {
    /// Position of the rules of `country` in the table.
    pub fn rules_of(&self, country: &str) -> (r: Option<usize>)
        ensures
            r is Some <==> find_rules(self.countries_rules@, country@, 0) is Some,
            r matches Some(k) ==> find_rules(self.countries_rules@, country@, 0) == Some(k as int)
                && k < self.countries_rules.len(),
    {
        let wanted = String::from_str(country);
        let mut k: usize = 0;
        while k < self.countries_rules.len()
            invariant
                k <= self.countries_rules.len(),
                wanted@ == country@,
                find_rules(self.countries_rules@, country@, 0) == find_rules(
                    self.countries_rules@,
                    country@,
                    k as int,
                ),
            decreases self.countries_rules.len() - k,
        {
            if self.countries_rules[k].country == wanted {
                return Some(k);
            }
            k += 1;
        }
        None
    }

    /// Classifies `zone` as a zone of `country_code`; `zone_inclusions` are its
    /// candidate ancestors in `all_zones`, tightest first.
    pub fn get_zone_type(
        &self,
        zone: &Zone,
        country_code: &str,
        zone_inclusions: &Vec<ZoneIndex>,
        all_zones: &Vec<Zone>,
    ) -> (r: Result<ZoneType, ZoneTyperError>)
        ensures
            match classify(
                self.countries_rules@,
                zone.admin_level,
                zone.tags,
                country_code@,
                zone_inclusions@,
                zone_types(all_zones@),
                admin_levels(all_zones@),
            ) {
                Classification::Typed(t) => r == Ok::<ZoneType, ZoneTyperError>(t),
                Classification::InvalidCountry => r matches Err(ZoneTyperError::InvalidCountry(c))
                    && c@ == country_code@,
                Classification::UnknownLevel => r matches Err(ZoneTyperError::UnknownLevel(l, c))
                    && l == zone.admin_level && c@ == country_code@,
            },
    {
        let rules = match self.rules_of(country_code) {
            Some(k) => &self.countries_rules[k],
            None => {
                return Err(ZoneTyperError::InvalidCountry(String::from_str(country_code)));
            },
        };
        let found = match zone.admin_level {
            Some(level) => match rules.type_of_level(level) {
                Some(t) => Some(t),
                None => infer_from_ancestors(level, zone_inclusions, all_zones),
            },
            None => if rules.recognises(&zone.tags) {
                Some(ZoneType::NonAdministrative)
            } else {
                None
            },
        };
        match found {
            Some(t) => Ok(t),
            None => Err(
                ZoneTyperError::UnknownLevel(zone.admin_level, String::from_str(country_code)),
            ),
        }
    }
}

} // verus!
