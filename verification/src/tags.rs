//! The tag collection of a source object, as the verified code sees it.
//!
//! Tags are kept in `osmpbfreader::Tags`. That type is opaque to the verifier: its
//! contents are named by [`tags_map`], and the two lookups below are believed, not
//! proved, to behave as their contracts say.

use osmpbfreader::Tags;
use vstd::prelude::*;

verus! {

/// `osmpbfreader::Tags`, declared so that zones and relations can carry it. Nothing
/// is known of a value of it but what the lookups below tell.
#[verifier::external_type_specification]
#[verifier::external_body]
pub struct ExTags(Tags);

/// The key/value pairs that a tag collection holds.
pub uninterp spec fn tags_map(tags: Tags) -> Map<Seq<char>, Seq<char>>;

/// `FlatMap::get`, reached through `Tags`' `Deref`: the value stored under `key`, copied
/// into an owned `String`, or `None` when the collection has no such key.
#[verifier::external_body]
pub(crate) fn tag_value(tags: &Tags, key: &str) -> (r: Option<String>)
    ensures
        r is Some <==> tags_map(*tags).contains_key(key@),
        r matches Some(v) ==> v@ == tags_map(*tags)[key@],
{
    tags.get(key).map(|v| v.to_string())
}

/// `Tags::contains`: whether the collection holds `key` with exactly the value `value`.
#[verifier::external_body]
pub(crate) fn tags_contain(tags: &Tags, key: &str, value: &str) -> (r: bool)
    ensures
        r == (tags_map(*tags).contains_key(key@) && tags_map(*tags)[key@] == value@),
{
    tags.contains(key, value)
}

} // verus!
