//! Which records of the source data make up the network.

use vstd::prelude::*;

verus! {

/// Whether a tag says that its bearer is a river, a stream or a canal: its
/// key is `waterway` and its value is `river`, `stream` or `canal`.
pub open spec fn names_waterway(tag: (String, String)) -> bool {
    tag.0@ == "waterway"@ && (tag.1@ == "river"@ || tag.1@ == "stream"@ || tag.1@ == "canal"@)
}

/// Whether a record of the source data belongs to the network of waterways:
/// it is a way, and its tag `waterway` has the value `river`, `stream` or
/// `canal`.
pub open spec fn is_waterway(is_way: bool, tags: Seq<(String, String)>) -> bool {
    is_way && exists|i: int| 0 <= i < tags.len() && names_waterway(#[trigger] tags[i])
}

/// Whether a record of the source data, given by its kind and its tags,
/// belongs to the network of waterways.
pub fn filter_object(is_way: bool, tags: &Vec<(String, String)>) -> (keep: bool)
    ensures
        keep == is_waterway(is_way, tags@),
{
    if !is_way {
        return false;
    }
    let waterway = "waterway".to_owned();
    let river = "river".to_owned();
    let stream = "stream".to_owned();
    let canal = "canal".to_owned();
    let mut i: usize = 0;
    while i < tags.len()
        invariant
            is_way,
            i <= tags@.len(),
            waterway@ == "waterway"@,
            river@ == "river"@,
            stream@ == "stream"@,
            canal@ == "canal"@,
            forall|j: int| 0 <= j < i ==> !names_waterway(#[trigger] tags@[j]),
        decreases tags@.len() - i,
    {
        if tags[i].0 == waterway && (tags[i].1 == river || tags[i].1 == stream || tags[i].1
            == canal) {
            assert(names_waterway(tags@[i as int]));
            return true;
        }
        i = i + 1;
    }
    false
}

} // verus!
