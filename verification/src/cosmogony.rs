//! The result of a run and its statistics.

use crate::zone::{Zone, ZoneType};
use vstd::prelude::*;

verus! {

/// A number of zones counted against one country.
pub struct CountryCount {
    pub country: String,
    pub count: u64,
}

/// A number of zones counted against one administrative level of one country.
pub struct LevelCount {
    pub country: String,
    pub level: u32,
    pub count: u64,
}

/// How many zones there are of each type.
#[derive(Clone, Copy, Debug, PartialEq, Eq, Structural)]
pub struct TypeCounts {
    pub suburb: u64,
    pub city_district: u64,
    pub city: u64,
    pub state_district: u64,
    pub state: u64,
    pub country_region: u64,
    pub country: u64,
    pub non_administrative: u64,
}

/// What a run counted. A country or level may have several entries in a table: what
/// counts is their total.
pub struct CosmogonyStats {
    /// Zones for which no country was found.
    pub zone_without_country: u64,
    /// By country, zones whose country has no rules.
    pub zone_with_unknown_country_rules: Vec<CountryCount>,
    /// By country and level, zones for whose level the country's rules give no type. A
    /// zone without level is counted under level 0.
    pub unhandled_admin_level: Vec<LevelCount>,
    /// By type, the zones of the result.
    pub zone_type_counts: TypeCounts,
}

pub struct CosmogonyMetadata {
    pub osm_filename: String,
    pub stats: CosmogonyStats,
}

pub struct Cosmogony {
    pub zones: Vec<Zone>,
    pub meta: CosmogonyMetadata,
}

/// Why a run gives no result.
#[derive(Clone, Copy, Debug, PartialEq, Eq, Structural)]
pub enum CosmogonyError {
    /// No country was given for the run and the zones hold no country either, so that
    /// no zone could be classified.
    NoCountryContext,
}

/// What there is to say when a run finds no country to work in.
pub const NO_COUNTRY_CONTEXT: &'static str =
    "no country_code has been provided and no country have been found, we won't be able to make a cosmogony";

impl CosmogonyError {
    /// The words of [`CosmogonyError::message`].
    pub open spec fn text(self) -> Seq<char> {
        match self {
            CosmogonyError::NoCountryContext => NO_COUNTRY_CONTEXT@,
        }
    }

    /// Why the run failed, in words.
    pub fn message(&self) -> (r: String)
        ensures
            r@ == self.text(),
    {
        match self {
            CosmogonyError::NoCountryContext => String::from_str(NO_COUNTRY_CONTEXT),
        }
    }
}

/// Total of the entries for `country`.
pub open spec fn country_total(entries: Seq<CountryCount>, country: Seq<char>) -> nat
    decreases entries.len(),
{
    if entries.len() == 0 {
        0
    } else {
        country_total(entries.drop_last(), country) + if entries.last().country@ == country {
            entries.last().count as nat
        } else {
            0
        }
    }
}

/// Total of the entries for `level` of `country`.
pub open spec fn level_total(entries: Seq<LevelCount>, country: Seq<char>, level: u32) -> nat
    decreases entries.len(),
{
    if entries.len() == 0 {
        0
    } else {
        level_total(entries.drop_last(), country, level) + if entries.last().country@ == country
            && entries.last().level == level {
            entries.last().count as nat
        } else {
            0
        }
    }
}

/// How many of `zones` have type `t`.
pub open spec fn count_of_type(zones: Seq<Zone>, t: ZoneType) -> nat
    decreases zones.len(),
{
    if zones.len() == 0 {
        0
    } else {
        count_of_type(zones.drop_last(), t) + if zones.last().zone_type == Some(t) {
            1nat
        } else {
            0nat
        }
    }
}

proof fn lemma_country_entry_bounded(entries: Seq<CountryCount>, k: int)
    requires
        0 <= k < entries.len(),
    ensures
        entries[k].count <= country_total(entries, entries[k].country@),
    decreases entries.len(),
{
    if k < entries.len() - 1 {
        lemma_country_entry_bounded(entries.drop_last(), k);
    }
}

proof fn lemma_country_entry_raised(
    entries: Seq<CountryCount>,
    raised: Seq<CountryCount>,
    k: int,
    country: Seq<char>,
)
    requires
        0 <= k < entries.len(),
        raised.len() == entries.len(),
        forall|j: int| 0 <= j < entries.len() && j != k ==> raised[j] == entries[j],
        raised[k].country@ == entries[k].country@,
        raised[k].count == entries[k].count + 1,
    ensures
        country_total(raised, country) == country_total(entries, country) + if country
            == entries[k].country@ {
            1nat
        } else {
            0nat
        },
    decreases entries.len(),
{
    if k < entries.len() - 1 {
        lemma_country_entry_raised(entries.drop_last(), raised.drop_last(), k, country);
    } else {
        assert(raised.drop_last() =~= entries.drop_last());
    }
}

proof fn lemma_level_entry_bounded(entries: Seq<LevelCount>, k: int)
    requires
        0 <= k < entries.len(),
    ensures
        entries[k].count <= level_total(entries, entries[k].country@, entries[k].level),
    decreases entries.len(),
{
    if k < entries.len() - 1 {
        lemma_level_entry_bounded(entries.drop_last(), k);
    }
}

proof fn lemma_level_entry_raised(
    entries: Seq<LevelCount>,
    raised: Seq<LevelCount>,
    k: int,
    country: Seq<char>,
    level: u32,
)
    requires
        0 <= k < entries.len(),
        raised.len() == entries.len(),
        forall|j: int| 0 <= j < entries.len() && j != k ==> raised[j] == entries[j],
        raised[k].country@ == entries[k].country@,
        raised[k].level == entries[k].level,
        raised[k].count == entries[k].count + 1,
    ensures
        level_total(raised, country, level) == level_total(entries, country, level) + if country
            == entries[k].country@ && level == entries[k].level {
            1nat
        } else {
            0nat
        },
    decreases entries.len(),
{
    if k < entries.len() - 1 {
        lemma_level_entry_raised(entries.drop_last(), raised.drop_last(), k, country, level);
    } else {
        assert(raised.drop_last() =~= entries.drop_last());
    }
}

impl TypeCounts {
    /// The count kept for type `t`.
    pub open spec fn of(self, t: ZoneType) -> u64 {
        match t {
            ZoneType::Suburb => self.suburb,
            ZoneType::CityDistrict => self.city_district,
            ZoneType::City => self.city,
            ZoneType::StateDistrict => self.state_district,
            ZoneType::State => self.state,
            ZoneType::CountryRegion => self.country_region,
            ZoneType::Country => self.country,
            ZoneType::NonAdministrative => self.non_administrative,
        }
    }

    /// No zone of any type.
    pub fn zero() -> (r: TypeCounts)
        ensures
            forall|t: ZoneType| r.of(t) == 0,
    {
        TypeCounts {
            suburb: 0,
            city_district: 0,
            city: 0,
            state_district: 0,
            state: 0,
            country_region: 0,
            country: 0,
            non_administrative: 0,
        }
    }

    /// The count kept for type `t`.
    pub fn get(&self, t: ZoneType) -> (r: u64)
        ensures
            r == self.of(t),
    {
        match t {
            ZoneType::Suburb => self.suburb,
            ZoneType::CityDistrict => self.city_district,
            ZoneType::City => self.city,
            ZoneType::StateDistrict => self.state_district,
            ZoneType::State => self.state,
            ZoneType::CountryRegion => self.country_region,
            ZoneType::Country => self.country,
            ZoneType::NonAdministrative => self.non_administrative,
        }
    }

    /// Counts one more zone of type `t`.
    pub fn bump(&mut self, t: ZoneType)
        requires
            old(self).of(t) < u64::MAX,
        ensures
            forall|u: ZoneType|
                final(self).of(u) == old(self).of(u) + if u == t {
                    1nat
                } else {
                    0nat
                },
    {
        match t {
            ZoneType::Suburb => self.suburb += 1,
            ZoneType::CityDistrict => self.city_district += 1,
            ZoneType::City => self.city += 1,
            ZoneType::StateDistrict => self.state_district += 1,
            ZoneType::State => self.state += 1,
            ZoneType::CountryRegion => self.country_region += 1,
            ZoneType::Country => self.country += 1,
            ZoneType::NonAdministrative => self.non_administrative += 1,
        }
    }
}

impl Default for CosmogonyStats {
    /// Counters that have counted nothing.
    fn default() -> (r: CosmogonyStats)
        ensures
            r.zone_without_country == 0,
            r.zone_with_unknown_country_rules@.len() == 0,
            r.unhandled_admin_level@.len() == 0,
            forall|t: ZoneType| r.zone_type_counts.of(t) == 0,
    {
        CosmogonyStats {
            zone_without_country: 0,
            zone_with_unknown_country_rules: Vec::new(),
            unhandled_admin_level: Vec::new(),
            zone_type_counts: TypeCounts::zero(),
        }
    }
}

impl CosmogonyStats {
    /// Zones counted against `country` for want of rules.
    pub open spec fn unknown_country_rules(self, country: Seq<char>) -> nat {
        country_total(self.zone_with_unknown_country_rules@, country)
    }

    /// Zones counted against `level` of `country` for want of a rule.
    pub open spec fn unhandled(self, country: Seq<char>, level: u32) -> nat {
        level_total(self.unhandled_admin_level@, country, level)
    }

    /// Every failure counter can take `more` zones without overflowing.
    pub open spec fn has_room_for(self, more: nat) -> bool {
        &&& self.zone_without_country + more <= u64::MAX
        &&& forall|c: Seq<char>| #[trigger] self.unknown_country_rules(c) + more <= u64::MAX
        &&& forall|c: Seq<char>, l: u32| #[trigger] self.unhandled(c, l) + more <= u64::MAX
    }

    /// The total of the entries for `country`, if it fits.
    fn country_sum(&self, country: &String) -> (r: Option<u64>)
        ensures
            match r {
                Some(t) => t == self.unknown_country_rules(country@),
                None => self.unknown_country_rules(country@) > u64::MAX,
            },
    {
        let mut total: u64 = 0;
        let mut k: usize = 0;
        while k < self.zone_with_unknown_country_rules.len()
            invariant
                k <= self.zone_with_unknown_country_rules.len(),
                total == country_total(
                    self.zone_with_unknown_country_rules@.take(k as int),
                    country@,
                ),
            decreases self.zone_with_unknown_country_rules.len() - k,
        {
            proof {
                let all = self.zone_with_unknown_country_rules@;
                assert(all.take(k + 1).drop_last() =~= all.take(k as int));
                lemma_country_total_grows(all, (k + 1) as int, country@);
            }
            if self.zone_with_unknown_country_rules[k].country == *country {
                let count = self.zone_with_unknown_country_rules[k].count;
                if count > u64::MAX - total {
                    return None;
                }
                total = total + count;
            }
            k += 1;
        }
        assert(self.zone_with_unknown_country_rules@.take(k as int)
            =~= self.zone_with_unknown_country_rules@);
        Some(total)
    }

    /// The total of the entries for `level` of `country`, if it fits.
    fn level_sum(&self, country: &String, level: u32) -> (r: Option<u64>)
        ensures
            match r {
                Some(t) => t == self.unhandled(country@, level),
                None => self.unhandled(country@, level) > u64::MAX,
            },
    {
        let mut total: u64 = 0;
        let mut k: usize = 0;
        while k < self.unhandled_admin_level.len()
            invariant
                k <= self.unhandled_admin_level.len(),
                total == level_total(self.unhandled_admin_level@.take(k as int), country@, level),
            decreases self.unhandled_admin_level.len() - k,
        {
            proof {
                let all = self.unhandled_admin_level@;
                assert(all.take(k + 1).drop_last() =~= all.take(k as int));
                lemma_level_total_grows(all, (k + 1) as int, country@, level);
            }
            if self.unhandled_admin_level[k].level == level && self.unhandled_admin_level[k].country
                == *country {
                let count = self.unhandled_admin_level[k].count;
                if count > u64::MAX - total {
                    return None;
                }
                total = total + count;
            }
            k += 1;
        }
        assert(self.unhandled_admin_level@.take(k as int) =~= self.unhandled_admin_level@);
        Some(total)
    }

    /// Whether every failure counter can take `more` zones without overflowing.
    pub fn has_room(&self, more: usize) -> (r: bool)
        ensures
            r == self.has_room_for(more as nat),
    {
        let wanted: u64 = more as u64;
        if wanted > u64::MAX - self.zone_without_country {
            return false;
        }
        let mut k: usize = 0;
        while k < self.zone_with_unknown_country_rules.len()
            invariant
                wanted == more,
                k <= self.zone_with_unknown_country_rules.len(),
                forall|j: int|
                    0 <= j < k ==> self.unknown_country_rules(
                        (#[trigger] self.zone_with_unknown_country_rules@[j]).country@,
                    ) + more <= u64::MAX,
            decreases self.zone_with_unknown_country_rules.len() - k,
        {
            match self.country_sum(&self.zone_with_unknown_country_rules[k].country) {
                Some(t) => {
                    if wanted > u64::MAX - t {
                        return false;
                    }
                },
                None => {
                    return false;
                },
            }
            k += 1;
        }
        let mut k: usize = 0;
        while k < self.unhandled_admin_level.len()
            invariant
                wanted == more,
                k <= self.unhandled_admin_level.len(),
                forall|j: int|
                    0 <= j < k ==> self.unhandled(
                        (#[trigger] self.unhandled_admin_level@[j]).country@,
                        self.unhandled_admin_level@[j].level,
                    ) + more <= u64::MAX,
            decreases self.unhandled_admin_level.len() - k,
        {
            let entry = &self.unhandled_admin_level[k];
            match self.level_sum(&entry.country, entry.level) {
                Some(t) => {
                    if wanted > u64::MAX - t {
                        return false;
                    }
                },
                None => {
                    return false;
                },
            }
            k += 1;
        }
        proof {
            assert forall|c: Seq<char>| #[trigger]
                self.unknown_country_rules(c) + more <= u64::MAX by {
                lemma_country_total_of_absent(self.zone_with_unknown_country_rules@, c);
                if exists|j: int|
                    0 <= j < self.zone_with_unknown_country_rules@.len()
                        && self.zone_with_unknown_country_rules@[j].country@ == c {
                    let j = choose|j: int|
                        0 <= j < self.zone_with_unknown_country_rules@.len()
                            && self.zone_with_unknown_country_rules@[j].country@ == c;
                    assert(self.unknown_country_rules(
                        self.zone_with_unknown_country_rules@[j].country@,
                    ) + more <= u64::MAX);
                }
            }
            assert forall|c: Seq<char>, l: u32| #[trigger]
                self.unhandled(c, l) + more <= u64::MAX by {
                lemma_level_total_of_absent(self.unhandled_admin_level@, c, l);
                if exists|j: int|
                    0 <= j < self.unhandled_admin_level@.len()
                        && self.unhandled_admin_level@[j].country@ == c
                        && self.unhandled_admin_level@[j].level == l {
                    let j = choose|j: int|
                        0 <= j < self.unhandled_admin_level@.len()
                            && self.unhandled_admin_level@[j].country@ == c
                            && self.unhandled_admin_level@[j].level == l;
                    assert(self.unhandled(
                        self.unhandled_admin_level@[j].country@,
                        self.unhandled_admin_level@[j].level,
                    ) + more <= u64::MAX);
                }
            }
        }
        true
    }

    /// Zones counted against `country` for want of rules; the largest number there is
    /// when the total is beyond it.
    pub fn unknown_country_rules_count(&self, country: &str) -> (r: u64)
        ensures
            r == if self.unknown_country_rules(country@) <= u64::MAX {
                self.unknown_country_rules(country@)
            } else {
                u64::MAX as nat
            },
    {
        match self.country_sum(&String::from_str(country)) {
            Some(total) => total,
            None => u64::MAX,
        }
    }

    /// Zones counted against `level` of `country` for want of a rule; the largest
    /// number there is when the total is beyond it.
    pub fn unhandled_count(&self, country: &str, level: u32) -> (r: u64)
        ensures
            r == if self.unhandled(country@, level) <= u64::MAX {
                self.unhandled(country@, level)
            } else {
                u64::MAX as nat
            },
    {
        match self.level_sum(&String::from_str(country), level) {
            Some(total) => total,
            None => u64::MAX,
        }
    }

    /// Counts one more zone without country.
    pub fn count_without_country(&mut self)
        requires
            old(self).zone_without_country < u64::MAX,
        ensures
            *final(self) == (CosmogonyStats {
                zone_without_country: (old(self).zone_without_country + 1) as u64,
                ..*old(self)
            }),
    {
        self.zone_without_country += 1;
    }

    /// Counts one more zone whose country has no rules.
    pub fn count_unknown_country_rules(&mut self, country: String)
        requires
            old(self).unknown_country_rules(country@) < u64::MAX,
        ensures
            forall|c: Seq<char>|
                final(self).unknown_country_rules(c) == old(self).unknown_country_rules(c) + if c
                    == country@ {
                    1nat
                } else {
                    0nat
                },
            *final(self) == (CosmogonyStats {
                zone_with_unknown_country_rules: final(self).zone_with_unknown_country_rules,
                ..*old(self)
            }),
    {
        let mut k: usize = 0;
        while k < self.zone_with_unknown_country_rules.len()
            invariant
                *self == *old(self),
                k <= self.zone_with_unknown_country_rules.len(),
                old(self).unknown_country_rules(country@) < u64::MAX,
            decreases self.zone_with_unknown_country_rules.len() - k,
        {
            if self.zone_with_unknown_country_rules[k].country == country {
                proof {
                    lemma_country_entry_bounded(self.zone_with_unknown_country_rules@, k as int);
                }
                self.zone_with_unknown_country_rules[k].count += 1;
                proof {
                    assert forall|c: Seq<char>|
                        self.unknown_country_rules(c) == old(self).unknown_country_rules(c) + if c
                            == country@ {
                            1nat
                        } else {
                            0nat
                        } by {
                        lemma_country_entry_raised(
                            old(self).zone_with_unknown_country_rules@,
                            self.zone_with_unknown_country_rules@,
                            k as int,
                            c,
                        );
                    }
                }
                return ;
            }
            k += 1;
        }
        self.zone_with_unknown_country_rules.push(CountryCount { country, count: 1 });
        proof {
            assert(self.zone_with_unknown_country_rules@.drop_last() =~= old(
                self,
            ).zone_with_unknown_country_rules@);
        }
    }

    /// Counts one more zone for whose level its country has no rule.
    pub fn count_unhandled_level(&mut self, country: String, level: u32)
        requires
            old(self).unhandled(country@, level) < u64::MAX,
        ensures
            forall|c: Seq<char>, l: u32|
                final(self).unhandled(c, l) == old(self).unhandled(c, l) + if c == country@ && l
                    == level {
                    1nat
                } else {
                    0nat
                },
            *final(self) == (CosmogonyStats {
                unhandled_admin_level: final(self).unhandled_admin_level,
                ..*old(self)
            }),
    {
        let mut k: usize = 0;
        while k < self.unhandled_admin_level.len()
            invariant
                *self == *old(self),
                k <= self.unhandled_admin_level.len(),
                old(self).unhandled(country@, level) < u64::MAX,
            decreases self.unhandled_admin_level.len() - k,
        {
            if self.unhandled_admin_level[k].level == level && self.unhandled_admin_level[k].country
                == country {
                proof {
                    lemma_level_entry_bounded(self.unhandled_admin_level@, k as int);
                }
                self.unhandled_admin_level[k].count += 1;
                proof {
                    assert forall|c: Seq<char>, l: u32|
                        self.unhandled(c, l) == old(self).unhandled(c, l) + if c == country@ && l
                            == level {
                            1nat
                        } else {
                            0nat
                        } by {
                        lemma_level_entry_raised(
                            old(self).unhandled_admin_level@,
                            self.unhandled_admin_level@,
                            k as int,
                            c,
                            l,
                        );
                    }
                }
                return ;
            }
            k += 1;
        }
        self.unhandled_admin_level.push(LevelCount { country, level, count: 1 });
        proof {
            assert(self.unhandled_admin_level@.drop_last() =~= old(self).unhandled_admin_level@);
        }
    }

    /// Sets the type counts to those of `zones`. The failure counters stay.
    pub fn compute(&mut self, zones: &Vec<Zone>)
        ensures
            forall|t: ZoneType| final(self).zone_type_counts.of(t) == count_of_type(zones@, t),
            *final(self) == (CosmogonyStats {
                zone_type_counts: final(self).zone_type_counts,
                ..*old(self)
            }),
    {
        let mut counts = TypeCounts::zero();
        let mut i: usize = 0;
        while i < zones.len()
            invariant
                i <= zones.len(),
                forall|t: ZoneType| counts.of(t) == count_of_type(zones@.take(i as int), t),
                forall|t: ZoneType| counts.of(t) <= i,
            decreases zones.len() - i,
        {
            proof {
                assert(zones@.take(i + 1).drop_last() =~= zones@.take(i as int));
            }
            if let Some(t) = zones[i].zone_type {
                counts.bump(t);
            }
            i += 1;
        }
        assert(zones@.take(zones.len() as int) =~= zones@);
        self.zone_type_counts = counts;
    }
}

/// The total over a prefix of the entries does not exceed the total over all.
proof fn lemma_country_total_grows(entries: Seq<CountryCount>, upto: int, country: Seq<char>)
    requires
        0 <= upto <= entries.len(),
    ensures
        country_total(entries.take(upto), country) <= country_total(entries, country),
    decreases entries.len(),
{
    if upto == entries.len() {
        assert(entries.take(upto) =~= entries);
    } else {
        assert(entries.drop_last().take(upto) =~= entries.take(upto));
        lemma_country_total_grows(entries.drop_last(), upto, country);
    }
}

proof fn lemma_level_total_grows(
    entries: Seq<LevelCount>,
    upto: int,
    country: Seq<char>,
    level: u32,
)
    requires
        0 <= upto <= entries.len(),
    ensures
        level_total(entries.take(upto), country, level) <= level_total(entries, country, level),
    decreases entries.len(),
{
    if upto == entries.len() {
        assert(entries.take(upto) =~= entries);
    } else {
        assert(entries.drop_last().take(upto) =~= entries.take(upto));
        lemma_level_total_grows(entries.drop_last(), upto, country, level);
    }
}

/// A country without entry has the total 0.
proof fn lemma_country_total_of_absent(entries: Seq<CountryCount>, country: Seq<char>)
    ensures
        (forall|j: int| 0 <= j < entries.len() ==> entries[j].country@ != country)
            ==> country_total(entries, country) == 0,
    decreases entries.len(),
{
    if entries.len() > 0 {
        lemma_country_total_of_absent(entries.drop_last(), country);
        if forall|j: int| 0 <= j < entries.len() ==> entries[j].country@ != country {
            assert forall|j: int| 0 <= j < entries.drop_last().len() implies entries.drop_last()[j].country@
                != country by {
                assert(entries.drop_last()[j] == entries[j]);
            }
        }
    }
}

/// A level of a country without entry has the total 0.
proof fn lemma_level_total_of_absent(entries: Seq<LevelCount>, country: Seq<char>, level: u32)
    ensures
        (forall|j: int|
            0 <= j < entries.len() ==> !(entries[j].country@ == country && entries[j].level
                == level)) ==> level_total(entries, country, level) == 0,
    decreases entries.len(),
{
    if entries.len() > 0 {
        lemma_level_total_of_absent(entries.drop_last(), country, level);
        if forall|j: int|
            0 <= j < entries.len() ==> !(entries[j].country@ == country && entries[j].level
                == level) {
            assert forall|j: int| 0 <= j < entries.drop_last().len() implies !(
            entries.drop_last()[j].country@ == country && entries.drop_last()[j].level
                == level) by {
                assert(entries.drop_last()[j] == entries[j]);
            }
        }
    }
}

} // verus!
