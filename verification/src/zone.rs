//! Zones, the records they are made from, and the vocabulary the contracts use to talk
//! about a collection of zones.

use crate::tags::{tag_value, tags_map};
use osmpbfreader::Tags;
use vstd::prelude::*;

verus! {

/// Position of a zone in the collection it lives in. It is only meaningful for the
/// collection it was issued for: pruning re-issues every index.
#[derive(Clone, Copy, Debug, PartialEq, Eq, Structural, Hash)]
pub struct ZoneIndex {
    pub index: usize,
}

/// What kind of administrative area a zone is.
#[derive(Clone, Copy, Debug, PartialEq, Eq, Structural, Hash)]
pub enum ZoneType {
    Suburb,
    CityDistrict,
    City,
    StateDistrict,
    State,
    CountryRegion,
    Country,
    NonAdministrative,
}

impl ZoneType {
    /// Nesting depth of an administrative type: 0 for a country, growing towards the
    /// suburb. `NonAdministrative` is outside the ranking.
    pub open spec fn depth(self) -> Option<nat> {
        match self {
            ZoneType::Country => Some(0),
            ZoneType::CountryRegion => Some(1),
            ZoneType::State => Some(2),
            ZoneType::StateDistrict => Some(3),
            ZoneType::City => Some(4),
            ZoneType::CityDistrict => Some(5),
            ZoneType::Suburb => Some(6),
            ZoneType::NonAdministrative => None,
        }
    }

    /// The type one rank below this one, if there is one.
    pub open spec fn finer_spec(self) -> Option<ZoneType> {
        match self {
            ZoneType::Country => Some(ZoneType::CountryRegion),
            ZoneType::CountryRegion => Some(ZoneType::State),
            ZoneType::State => Some(ZoneType::StateDistrict),
            ZoneType::StateDistrict => Some(ZoneType::City),
            ZoneType::City => Some(ZoneType::CityDistrict),
            ZoneType::CityDistrict => Some(ZoneType::Suburb),
            ZoneType::Suburb => None,
            ZoneType::NonAdministrative => None,
        }
    }

    /// Nesting depth of the type, if it is ranked.
    pub fn rank(self) -> (r: Option<u8>)
        ensures
            r is Some <==> self.depth() is Some,
            r matches Some(d) ==> self.depth() == Some(d as nat),
    {
        match self {
            ZoneType::Country => Some(0),
            ZoneType::CountryRegion => Some(1),
            ZoneType::State => Some(2),
            ZoneType::StateDistrict => Some(3),
            ZoneType::City => Some(4),
            ZoneType::CityDistrict => Some(5),
            ZoneType::Suburb => Some(6),
            ZoneType::NonAdministrative => None,
        }
    }

    /// The type one rank below this one, if there is one.
    pub fn finer(self) -> (r: Option<ZoneType>)
        ensures
            r == self.finer_spec(),
    {
        match self {
            ZoneType::Country => Some(ZoneType::CountryRegion),
            ZoneType::CountryRegion => Some(ZoneType::State),
            ZoneType::State => Some(ZoneType::StateDistrict),
            ZoneType::StateDistrict => Some(ZoneType::City),
            ZoneType::City => Some(ZoneType::CityDistrict),
            ZoneType::CityDistrict => Some(ZoneType::Suburb),
            ZoneType::Suburb => None,
            ZoneType::NonAdministrative => None,
        }
    }
}

/// What the core needs to know about a zone's outline: its bounding box in decimicro
/// degrees, a measure of its surface, and the stable ids of the boundaries that the
/// geometric test found to contain it.
pub struct Boundary {
    pub min_lon: i32,
    pub min_lat: i32,
    pub max_lon: i32,
    pub max_lat: i32,
    pub area: u64,
    pub enclosed_by: Vec<i64>,
}

impl Boundary {
    /// The bounding box is not inside out.
    pub open spec fn well_formed(self) -> bool {
        self.min_lon <= self.max_lon && self.min_lat <= self.max_lat
    }

    /// The boundary with this bounding box, surface and enclosing boundaries; none
    /// when the box is inside out.
    pub fn new(
        min_lon: i32,
        min_lat: i32,
        max_lon: i32,
        max_lat: i32,
        area: u64,
        enclosed_by: Vec<i64>,
    ) -> (r: Option<Boundary>)
        ensures
            r is Some <==> min_lon <= max_lon && min_lat <= max_lat,
            r matches Some(b) ==> b.well_formed() && b == (Boundary {
                min_lon,
                min_lat,
                max_lon,
                max_lat,
                area,
                enclosed_by,
            }),
    {
        if min_lon <= max_lon && min_lat <= max_lat {
            Some(Boundary { min_lon, min_lat, max_lon, max_lat, area, enclosed_by })
        } else {
            None
        }
    }

    /// The bounding box of `self` reaches at least as far as that of `inner` on every
    /// side.
    pub open spec fn box_covers(self, inner: Boundary) -> bool {
        &&& self.min_lon <= inner.min_lon
        &&& self.min_lat <= inner.min_lat
        &&& inner.max_lon <= self.max_lon
        &&& inner.max_lat <= self.max_lat
    }

    /// Whether the bounding box of `self` covers that of `inner`.
    pub fn bbox_covers(&self, inner: &Boundary) -> (r: bool)
        ensures
            r == self.box_covers(*inner),
    {
        self.min_lon <= inner.min_lon && self.min_lat <= inner.min_lat && inner.max_lon
            <= self.max_lon && inner.max_lat <= self.max_lat
    }

    /// Whether the boundary with stable id `osm_id` was found to contain this one.
    pub fn is_enclosed_by(&self, osm_id: i64) -> (r: bool)
        ensures
            r == self.enclosed_by@.contains(osm_id),
    {
        let mut k: usize = 0;
        while k < self.enclosed_by.len()
            invariant
                k <= self.enclosed_by.len(),
                forall|j: int| 0 <= j < k ==> self.enclosed_by@[j] != osm_id,
            decreases self.enclosed_by.len() - k,
        {
            if self.enclosed_by[k] == osm_id {
                return true;
            }
            k += 1;
        }
        false
    }
}

/// The positions of the boundaries, other than the one at `i`, whose bounding box covers
/// that of the boundary at `i`, in ascending order. Only these can contain it, so that
/// the geometric test need be made against no others.
pub fn covering_boxes(boundaries: &Vec<Boundary>, i: usize) -> (r: Vec<usize>)
    ensures
        i >= boundaries.len() ==> r@.len() == 0,
        forall|k: int|
            0 <= k < r@.len() ==> (#[trigger] r@[k]) < boundaries.len() && r@[k] != i
                && boundaries@[r@[k] as int].box_covers(boundaries@[i as int]),
        forall|j: int|
            0 <= j < boundaries.len() && j != i && i < boundaries.len() && (
            #[trigger] boundaries@[j]).box_covers(boundaries@[i as int]) ==> r@.contains(j as usize),
        forall|a: int, b: int| 0 <= a < b < r@.len() ==> #[trigger] r@[a] < #[trigger] r@[b],
{
    let mut r: Vec<usize> = Vec::new();
    if i >= boundaries.len() {
        return r;
    }
    let mut j: usize = 0;
    while j < boundaries.len()
        invariant
            i < boundaries.len(),
            j <= boundaries.len(),
            forall|k: int|
                0 <= k < r@.len() ==> (#[trigger] r@[k]) < j && r@[k] != i
                    && boundaries@[r@[k] as int].box_covers(boundaries@[i as int]),
            forall|c: int|
                0 <= c < j && c != i && (#[trigger] boundaries@[c]).box_covers(
                    boundaries@[i as int],
                ) ==> r@.contains(c as usize),
            forall|a: int, b: int| 0 <= a < b < r@.len() ==> #[trigger] r@[a] < #[trigger] r@[b],
        decreases boundaries.len() - j,
    {
        if j != i && boundaries[j].bbox_covers(&boundaries[i]) {
            let ghost held = r@;
            r.push(j);
            proof {
                assert forall|c: int|
                    0 <= c < j + 1 && c != i && (#[trigger] boundaries@[c]).box_covers(
                        boundaries@[i as int],
                    ) implies r@.contains(c as usize) by {
                    if c == j {
                        assert(r@[held.len() as int] == j);
                    } else {
                        let w = choose|w: int| 0 <= w < held.len() && held[w] == c as usize;
                        assert(r@[w] == held[w]);
                    }
                }
            }
        }
        j += 1;
    }
    r
}

/// The value of a decimal digit; no other character has one.
pub open spec fn digit_of(c: char) -> Option<nat> {
    if '0' <= c && c <= '9' {
        Some((c as nat - '0' as nat) as nat)
    } else {
        None
    }
}

/// The number that a run of decimal digits writes.
pub open spec fn decimal_value(digits: Seq<char>) -> nat
    decreases digits.len(),
{
    if digits.len() == 0 {
        0
    } else {
        decimal_value(digits.drop_last()) * 10 + match digit_of(digits.last()) {
            Some(d) => d,
            None => 0,
        }
    }
}

/// A run of one or more decimal digits.
pub open spec fn is_number(digits: Seq<char>) -> bool {
    &&& digits.len() > 0
    &&& forall|k: int| 0 <= k < digits.len() ==> digit_of(#[trigger] digits[k]) is Some
}

/// The text without the `+` that may stand before a number.
pub open spec fn unsigned_part(text: Seq<char>) -> Seq<char> {
    if text.len() > 0 && text[0] == '+' {
        text.subrange(1, text.len() as int)
    } else {
        text
    }
}

/// The administrative level that a tag value writes: one or more decimal digits, with
/// or without a `+` before them, that make a number a `u32` can hold. Anything else
/// writes no level.
pub open spec fn level_of(text: Seq<char>) -> Option<u32> {
    let digits = unsigned_part(text);
    if is_number(digits) && decimal_value(digits) <= u32::MAX {
        Some(decimal_value(digits) as u32)
    } else {
        None
    }
}

/// More digits never write a smaller number.
proof fn lemma_decimal_value_grows(digits: Seq<char>, upto: int)
    requires
        0 <= upto <= digits.len(),
    ensures
        decimal_value(digits.take(upto)) <= decimal_value(digits),
    decreases digits.len(),
{
    if upto == digits.len() {
        assert(digits.take(upto) =~= digits);
    } else {
        assert(digits.drop_last().take(upto) =~= digits.take(upto));
        lemma_decimal_value_grows(digits.drop_last(), upto);
    }
}

/// Reads an administrative level from the value of an `admin_level` tag.
pub fn parse_level(text: &str) -> (r: Option<u32>)
    ensures
        r == level_of(text@),
{
    let len = text.unicode_len();
    let start: usize = if len > 0 && text.get_char(0) == '+' {
        1
    } else {
        0
    };
    let ghost digits = text@.subrange(start as int, len as int);
    assert(digits =~= unsigned_part(text@));
    if start == len {
        return None;
    }
    let mut value: u64 = 0;
    let mut k: usize = start;
    while k < len
        invariant
            start <= k <= len,
            len == text@.len(),
            digits == text@.subrange(start as int, len as int),
            digits == unsigned_part(text@),
            forall|j: int| 0 <= j < k - start ==> digit_of(#[trigger] digits[j]) is Some,
            value == decimal_value(digits.take(k - start)),
            value <= u32::MAX,
        decreases len - k,
    {
        let c = text.get_char(k);
        assert(c == digits[k - start]);
        if c < '0' || c > '9' {
            return None;
        }
        let d: u64 = (c as u32 - '0' as u32) as u64;
        proof {
            assert(digits.take(k - start + 1).drop_last() =~= digits.take(k - start));
            assert(digits.take(k - start + 1).last() == c);
            assert(digit_of(c) == Some(d as nat));
        }
        value = value * 10 + d;
        if value > 0xffff_ffff {
            proof {
                lemma_decimal_value_grows(digits, k - start + 1);
            }
            return None;
        }
        k += 1;
    }
    assert(digits.take(len - start) =~= digits);
    Some(value as u32)
}

/// A relation as the ingestion stage hands it over.
pub struct SourceRelation {
    pub id: i64,
    pub tags: Tags,
    pub boundary: Option<Boundary>,
}

/// The administrative level that the tags of a relation give it: what its
/// `admin_level` tag writes, if it has one.
pub open spec fn tagged_level(tags: Tags) -> Option<u32> {
    if tags_map(tags).contains_key("admin_level"@) {
        level_of(tags_map(tags)["admin_level"@])
    } else {
        None
    }
}

/// Reads the administrative level of a relation from its tags.
pub fn level_from_tags(tags: &Tags) -> (r: Option<u32>)
    ensures
        r == tagged_level(*tags),
{
    match tag_value(tags, "admin_level") {
        Some(text) => parse_level(text.as_str()),
        None => None,
    }
}

/// An object of the source extract. Only relations carry what a zone is made from.
pub enum SourceObject {
    Node,
    Way,
    Relation(SourceRelation),
}

/// An administrative area. A zone starts with what its relation gives it; country,
/// type, parent, children and label are filled in by the stages of a run, in that
/// order.
pub struct Zone {
    /// Where the zone stands in its collection.
    pub id: ZoneIndex,
    /// The id of the relation, which stays what it is across runs and collections.
    pub osm_id: i64,
    pub admin_level: Option<u32>,
    pub zone_type: Option<ZoneType>,
    pub name: String,
    pub label: Option<String>,
    pub country_code: Option<String>,
    pub parent: Option<ZoneIndex>,
    /// The zones that have this one for parent, in ascending position.
    pub children: Vec<ZoneIndex>,
    pub boundary: Option<Boundary>,
    pub tags: Tags,
}

/// The type of every zone, by position.
pub open spec fn zone_types(zones: Seq<Zone>) -> Seq<Option<ZoneType>> {
    Seq::new(zones.len(), |k: int| zones[k].zone_type)
}

/// The administrative level of every zone, by position.
pub open spec fn admin_levels(zones: Seq<Zone>) -> Seq<Option<u32>> {
    Seq::new(zones.len(), |k: int| zones[k].admin_level)
}

impl Zone {
    /// `outer` contains `self` as far as the core can tell: both have a boundary, the
    /// bounding box of `outer` covers that of `self`, and the geometric test listed
    /// `outer` among the boundaries around `self`.
    pub open spec fn within(self, outer: Zone) -> bool {
        &&& self.boundary matches Some(inner)
        &&& outer.boundary matches Some(around)
        &&& around.box_covers(inner)
        &&& inner.enclosed_by@.contains(outer.osm_id)
    }

    /// Whether `self` contains `other`. The bounding boxes are compared first; the list
    /// of enclosing boundaries is only searched when they agree.
    pub fn contains(&self, other: &Zone) -> (r: bool)
        ensures
            r == other.within(*self),
    {
        match (&self.boundary, &other.boundary) {
            (Some(around), Some(inner)) => around.bbox_covers(inner) && inner.is_enclosed_by(
                self.osm_id,
            ),
            _ => false,
        }
    }

    /// A fresh zone for `relation`: named by its `name` tag, with the level that its
    /// `admin_level` tag writes, untyped, without parent, children, label or country.
    /// A relation without a `name` tag gives no zone.
    pub fn from_osm(relation: SourceRelation, index: ZoneIndex) -> (r: Option<Zone>)
        ensures
            r is Some <==> tags_map(relation.tags).contains_key("name"@),
            r matches Some(z) ==> {
                &&& z.name@ == tags_map(relation.tags)["name"@]
                &&& z == (Zone {
                    id: index,
                    osm_id: relation.id,
                    admin_level: tagged_level(relation.tags),
                    zone_type: None,
                    name: z.name,
                    label: None,
                    country_code: None,
                    parent: None,
                    children: z.children,
                    boundary: None,
                    tags: relation.tags,
                })
                &&& z.children@.len() == 0
            },
    {
        let admin_level = level_from_tags(&relation.tags);
        match tag_value(&relation.tags, "name") {
            None => None,
            Some(name) => Some(
                Zone {
                    id: index,
                    osm_id: relation.id,
                    admin_level,
                    zone_type: None,
                    name,
                    label: None,
                    country_code: None,
                    parent: None,
                    children: Vec::new(),
                    boundary: None,
                    tags: relation.tags,
                },
            ),
        }
    }

    /// As [`Zone::from_osm`], and the zone keeps the relation's boundary.
    pub fn from_osm_with_geom(relation: SourceRelation, index: ZoneIndex) -> (r: Option<Zone>)
        ensures
            r is Some <==> tags_map(relation.tags).contains_key("name"@),
            r matches Some(z) ==> {
                &&& z.name@ == tags_map(relation.tags)["name"@]
                &&& z == (Zone {
                    id: index,
                    osm_id: relation.id,
                    admin_level: tagged_level(relation.tags),
                    zone_type: None,
                    name: z.name,
                    label: None,
                    country_code: None,
                    parent: None,
                    children: z.children,
                    boundary: relation.boundary,
                    tags: relation.tags,
                })
                &&& z.children@.len() == 0
            },
    {
        let admin_level = level_from_tags(&relation.tags);
        match tag_value(&relation.tags, "name") {
            None => None,
            Some(name) => Some(
                Zone {
                    id: index,
                    osm_id: relation.id,
                    admin_level,
                    zone_type: None,
                    name,
                    label: None,
                    country_code: None,
                    parent: None,
                    children: Vec::new(),
                    boundary: relation.boundary,
                    tags: relation.tags,
                },
            ),
        }
    }
}

} // verus!
