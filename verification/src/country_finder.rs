//! Finds the country that a zone lies in.

use crate::tags::{tag_value, tags_map};
use crate::zone::{Boundary, Zone};
use vstd::prelude::*;

verus! {

/// The administrative level at which a relation stands for a country.
pub const COUNTRY_ADMIN_LEVEL: u32 = 2;

/// A country-level zone of the collection: its stable id and its country code.
pub struct CountryEntry {
    pub osm_id: i64,
    pub code: String,
}

/// The country-level zones of a collection, in the order of the collection.
pub struct CountryFinder {
    pub countries: Vec<CountryEntry>,
}

/// Whether a zone is indexed as a country: it stands at the country level, has a
/// boundary and carries its country code in the tag `ISO3166-1:alpha2`.
pub open spec fn is_country_zone(z: Zone) -> bool {
    &&& z.admin_level == Some(COUNTRY_ADMIN_LEVEL)
    &&& z.boundary is Some
    &&& tags_map(z.tags).contains_key("ISO3166-1:alpha2"@)
}

/// Stable id and country code of every country-level zone among `zones`, in order.
pub open spec fn country_index(zones: Seq<Zone>) -> Seq<(i64, Seq<char>)>
    decreases zones.len(),
{
    if zones.len() == 0 {
        Seq::empty()
    } else if is_country_zone(zones.last()) {
        country_index(zones.drop_last()).push(
            (zones.last().osm_id, tags_map(zones.last().tags)["ISO3166-1:alpha2"@]),
        )
    } else {
        country_index(zones.drop_last())
    }
}

/// The index is empty exactly when no zone is a country zone.
pub proof fn lemma_index_is_empty_without_country_zone(zones: Seq<Zone>)
    ensures
        country_index(zones).len() > 0 <==> exists|k: int|
            0 <= k < zones.len() && is_country_zone(#[trigger] zones[k]),
    decreases zones.len(),
{
    if zones.len() > 0 {
        let head = zones.drop_last();
        lemma_index_is_empty_without_country_zone(head);
        if is_country_zone(zones.last()) {
            assert(is_country_zone(zones[zones.len() - 1]));
        } else if exists|k: int| 0 <= k < head.len() && is_country_zone(#[trigger] head[k]) {
            let k = choose|k: int| 0 <= k < head.len() && is_country_zone(#[trigger] head[k]);
            assert(is_country_zone(zones[k]));
        } else {
            assert forall|k: int| 0 <= k < zones.len() implies !is_country_zone(
                #[trigger] zones[k],
            ) by {
                if k < head.len() {
                    assert(zones[k] == head[k]);
                }
            }
        }
    }
}

/// A zone with stable id `osm_id` and boundary `boundary` lies in the country with
/// stable id `country_id`: it is that country, or the country's boundary was found
/// around it.
pub open spec fn lies_in(osm_id: i64, boundary: Option<Boundary>, country_id: i64) -> bool {
    ||| osm_id == country_id
    ||| boundary is Some && boundary->0.enclosed_by@.contains(country_id)
}

/// The code of the first of `countries`, from position `from` on, that such a zone
/// lies in.
pub open spec fn first_country(
    countries: Seq<(i64, Seq<char>)>,
    osm_id: i64,
    boundary: Option<Boundary>,
    from: int,
) -> Option<Seq<char>>
    decreases countries.len() - from,
{
    if from < 0 || from >= countries.len() {
        None
    } else if lies_in(osm_id, boundary, countries[from].0) {
        Some(countries[from].1)
    } else {
        first_country(countries, osm_id, boundary, from + 1)
    }
}

impl CountryFinder {
    /// Stable id and country code of every entry, in order.
    pub open spec fn index(self) -> Seq<(i64, Seq<char>)> {
        Seq::new(self.countries@.len(), |k: int| (self.countries@[k].osm_id, self.countries@[k].code@))
    }

    /// The country that the finder gives for a zone.
    pub open spec fn country_of(self, z: Zone) -> Option<Seq<char>> {
        first_country(self.index(), z.osm_id, z.boundary, 0)
    }

    /// Indexes the country-level zones of `zones`.
    pub fn from_zones(zones: &Vec<Zone>) -> (finder: CountryFinder)
        ensures
            finder.index() == country_index(zones@),
    {
        let mut countries: Vec<CountryEntry> = Vec::new();
        let mut i: usize = 0;
        while i < zones.len()
            invariant
                i <= zones.len(),
                (CountryFinder { countries }).index() == country_index(zones@.take(i as int)),
            decreases zones.len() - i,
        {
            let ghost seen = (CountryFinder { countries }).index();
            proof {
                assert(zones@.take(i + 1).drop_last() =~= zones@.take(i as int));
                assert(zones@.take(i + 1).last() == zones@[i as int]);
            }
            let z = &zones[i];
            if z.admin_level == Some(COUNTRY_ADMIN_LEVEL) && z.boundary.is_some() {
                match tag_value(&z.tags, "ISO3166-1:alpha2") {
                    Some(code) => {
                        countries.push(CountryEntry { osm_id: z.osm_id, code });
                        assert((CountryFinder { countries }).index() =~= seen.push(
                            (z.osm_id, tags_map(z.tags)["ISO3166-1:alpha2"@]),
                        ));
                    },
                    None => {},
                }
            }
            i += 1;
        }
        assert(zones@.take(zones.len() as int) =~= zones@);
        CountryFinder { countries }
    }

    /// Whether no country is indexed.
    pub fn is_empty(&self) -> (r: bool)
        ensures
            r == (self.index().len() == 0),
    {
        self.countries.len() == 0
    }

    /// The code of the first indexed country that the zone lies in.
    pub fn find_zone_country(&self, zone: &Zone) -> (r: Option<String>)
        ensures
            r is Some <==> self.country_of(*zone) is Some,
            r matches Some(code) ==> Some(code@) == self.country_of(*zone),
    {
        let mut k: usize = 0;
        while k < self.countries.len()
            invariant
                k <= self.countries.len(),
                self.country_of(*zone) == first_country(
                    self.index(),
                    zone.osm_id,
                    zone.boundary,
                    k as int,
                ),
            decreases self.countries.len() - k,
        {
            let entry = &self.countries[k];
            let inside = zone.osm_id == entry.osm_id || match &zone.boundary {
                Some(b) => b.is_enclosed_by(entry.osm_id),
                None => false,
            };
            assert(inside == lies_in(zone.osm_id, zone.boundary, self.index()[k as int].0));
            if inside {
                return Some(entry.code.clone());
            }
            k += 1;
        }
        None
    }
}

} // verus!
