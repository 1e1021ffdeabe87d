//! The metadata of an object: texts by name, kept as a JSON object.
use vstd::prelude::*;

verus! {

/// What `serde_json::from_str` reads from a text as a map of texts by name;
/// nothing where the text is no JSON object of texts.
pub uninterp spec fn json_map(text: Seq<char>) -> Option<Map<Seq<char>, Seq<char>>>;

/// The values by name; of two with one name the later counts.
pub open spec fn map_of(pairs: Seq<(String, String)>) -> Map<Seq<char>, Seq<char>>
    decreases pairs.len(),
{
    if pairs.len() == 0 {
        Map::empty()
    } else {
        map_of(pairs.drop_last()).insert(pairs.last().0@, pairs.last().1@)
    }
}

/// No name occurs twice.
pub open spec fn distinct_names(pairs: Seq<(String, String)>) -> bool {
    forall|i: int, j: int|
        #![trigger pairs[i], pairs[j]]
        0 <= i < j < pairs.len() ==> pairs[i].0@ != pairs[j].0@
}

/// `serde_json::from_str` reads a map of texts; it depends on the text alone.
/// The entries of a map have different names.
#[verifier::external_body]
fn json_pairs(text: &str) -> (pairs: Option<Vec<(String, String)>>)
    ensures
        match pairs {
            Some(p) => json_map(text@) == Some(map_of(p@)) && distinct_names(p@),
            None => json_map(text@) is None,
        },
{
    let map: std::collections::BTreeMap<String, String> = serde_json::from_str(text).ok()?;
    Some(map.into_iter().collect())
}

/// `serde_json::to_string` writes a map of texts, and `serde_json::from_str`
/// reads the same map back. Nothing is said of the order and the spacing of
/// what it writes.
#[verifier::external_body]
fn json_text(pairs: &Vec<(String, String)>) -> (text: String)
    requires
        distinct_names(pairs@),
    ensures
        json_map(text@) == Some(map_of(pairs@)),
{
    let map: std::collections::BTreeMap<&String, &String> =
        pairs.iter().map(|pair| (&pair.0, &pair.1)).collect();
    serde_json::to_string(&map).unwrap()
}

/// The metadata that were read, or none where there were none to read.
pub fn metadata_or_none(read: Option<Vec<(String, String)>>) -> (metadata: Vec<(String, String)>)
    ensures
        metadata@ == match read {
            Some(pairs) => pairs@,
            None => Seq::empty(),
        },
{
    match read {
        Some(pairs) => pairs,
        None => Vec::new(),
    }
}

/// The metadata that a stored text holds; none where it cannot be read.
pub fn stored_metadata(text: &str) -> (metadata: Vec<(String, String)>)
    ensures
        distinct_names(metadata@),
        map_of(metadata@) == match json_map(text@) {
            Some(map) => map,
            None => Map::empty(),
        },
{
    metadata_or_none(json_pairs(text))
}

/// The text that keeps the metadata: reading it gives them back.
pub fn metadata_text(metadata: &Vec<(String, String)>) -> (text: String)
    requires
        distinct_names(metadata@),
    ensures
        json_map(text@) == Some(map_of(metadata@)),
{
    json_text(metadata)
}

/// A pair that is added sets the value of its name and of no other.
pub proof fn law_a_pair_sets_its_name(pairs: Seq<(String, String)>, pair: (String, String))
    ensures
        map_of(Seq::empty()) == Map::<Seq<char>, Seq<char>>::empty(),
        map_of(pairs.push(pair)).dom() == map_of(pairs).dom().insert(pair.0@),
        map_of(pairs.push(pair))[pair.0@] == pair.1@,
        forall|name: Seq<char>|
            name != pair.0@ && map_of(pairs).dom().contains(name) ==> #[trigger] map_of(
                pairs.push(pair),
            )[name] == map_of(pairs)[name],
{
    assert(pairs.push(pair).drop_last() =~= pairs);
}

/// Where no name occurs twice, every pair is found under its name, and nothing else is
/// found.
pub proof fn law_named_values_are_found(pairs: Seq<(String, String)>)
    requires
        forall|i: int, j: int|
            #![trigger pairs[i], pairs[j]]
            0 <= i < j < pairs.len() ==> pairs[i].0@ != pairs[j].0@,
    ensures
        distinct_names(pairs),
        forall|i: int|
            0 <= i < pairs.len() ==> {
                &&& map_of(pairs).dom().contains((#[trigger] pairs[i]).0@)
                &&& map_of(pairs)[pairs[i].0@] == pairs[i].1@
            },
        forall|name: Seq<char>| #[trigger]
            map_of(pairs).dom().contains(name) ==> is_named(pairs, name),
    decreases pairs.len(),
{
    if pairs.len() > 0 {
        let shorter = pairs.drop_last();
        let last = pairs[pairs.len() - 1];
        assert forall|i: int, j: int|
            #![trigger shorter[i], shorter[j]]
            0 <= i < j < shorter.len() implies shorter[i].0@ != shorter[j].0@ by {
            assert(shorter[i] == pairs[i] && shorter[j] == pairs[j]);
        }
        law_named_values_are_found(shorter);
        assert forall|i: int| 0 <= i < pairs.len() implies {
            &&& map_of(pairs).dom().contains((#[trigger] pairs[i]).0@)
            &&& map_of(pairs)[pairs[i].0@] == pairs[i].1@
        } by {
            if i < shorter.len() {
                assert(shorter[i] == pairs[i]);
                assert(pairs[i].0@ != last.0@);
            }
        }
        assert forall|name: Seq<char>| #[trigger]
            map_of(pairs).dom().contains(name) implies is_named(pairs, name) by {
            if name == last.0@ {
                assert(pairs[pairs.len() - 1].0@ == name);
            } else {
                assert(map_of(shorter).dom().contains(name));
                let i = choose|i: int|
                    #![trigger shorter[i]]
                    0 <= i < shorter.len() && shorter[i].0@ == name;
                assert(pairs[i].0@ == name);
            }
        }
    }
}

/// Whether some pair has the name.
pub open spec fn is_named(pairs: Seq<(String, String)>, name: Seq<char>) -> bool {
    exists|i: int| #![trigger pairs[i]] 0 <= i < pairs.len() && pairs[i].0@ == name
}

} // verus!
