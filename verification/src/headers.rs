//! The framework's header map, as the transports read and fill it.

use ruststream::HeaderMap;
use vstd::prelude::*;
use vstd::utf8::*;

verus! {

/// The framework's header map: named byte values in the order their names were first inserted.
#[verifier::external_type_specification]
#[verifier::external_body]
pub struct ExHeaderMap(ruststream::HeaderMap);

/// What a header map holds: its entries in iteration order, each a name and the value's bytes.
pub uninterp spec fn header_entries(headers: HeaderMap) -> Seq<(Seq<char>, Seq<u8>)>;

/// `name` with the ASCII capitals in it made small.
pub open spec fn lower(name: Seq<char>) -> Seq<char> {
    name.map_values(
        |c: char|
            if 'A' <= c <= 'Z' {
                (c as u32 + 32) as char
            } else {
                c
            },
    )
}

/// Where the entry called `name` stands in `entries`, or their number when there is none.
pub open spec fn entry_place(entries: Seq<(Seq<char>, Seq<u8>)>, name: Seq<char>) -> int
    decreases entries.len(),
{
    if entries.len() == 0 || entries[0].0 == name {
        0
    } else {
        1 + entry_place(entries.drop_first(), name)
    }
}

/// `entries` with `value` under `name`: in the place of the entry that has the name already, or
/// behind the last one.
pub open spec fn put(
    entries: Seq<(Seq<char>, Seq<u8>)>,
    name: Seq<char>,
    value: Seq<u8>,
) -> Seq<(Seq<char>, Seq<u8>)> {
    let place = entry_place(entries, name);
    if place < entries.len() {
        entries.update(place, (name, value))
    } else {
        entries.push((name, value))
    }
}

/// How a header map names its entries: without ASCII capitals, and no two alike.
pub open spec fn well_named(entries: Seq<(Seq<char>, Seq<u8>)>) -> bool {
    &&& forall|i: int| 0 <= i < entries.len() ==> lower((#[trigger] entries[i]).0) == entries[i].0
    &&& forall|i: int, j: int|
        0 <= i < j < entries.len() ==> (#[trigger] entries[i]).0 != (#[trigger] entries[j]).0
}

/// `HeaderMap::new`: a map with no entries.
#[verifier::external_body]
pub(crate) fn no_headers() -> (headers: HeaderMap)
    ensures
        header_entries(headers) == Seq::<(Seq<char>, Seq<u8>)>::empty(),
{
    HeaderMap::new()
}

/// `HeaderMap::is_empty`: whether the map has no entries.
#[verifier::external_body]
pub(crate) fn lacks_headers(headers: &HeaderMap) -> (empty: bool)
    ensures
        empty == (header_entries(*headers).len() == 0),
{
    headers.is_empty()
}

/// `HeaderMap::iter`: every entry, in order. The map holds its names in lower case and each of
/// them once.
#[verifier::external_body]
pub(crate) fn list_headers(headers: &HeaderMap) -> (list: Vec<(String, Vec<u8>)>)
    ensures
        list@.len() == header_entries(*headers).len(),
        forall|i: int|
            0 <= i < list@.len() ==> (#[trigger] list@[i]).0@ == header_entries(*headers)[i].0,
        forall|i: int|
            0 <= i < list@.len() ==> (#[trigger] list@[i]).1@ == header_entries(*headers)[i].1,
        well_named(list@.map_values(|entry: (String, Vec<u8>)| (entry.0@, entry.1@))),
{
    headers.iter().map(|(name, value)| (name.to_owned(), value.to_vec())).collect()
}

/// `HeaderMap::insert` of text: the value goes under the name in lower case, in the place of the
/// value that name had.
#[verifier::external_body]
pub(crate) fn insert_header(headers: &mut HeaderMap, name: &str, value: &str)
    ensures
        header_entries(*final(headers)) == put(
            header_entries(*old(headers)),
            lower(name@),
            encode_utf8(value@),
        ),
{
    headers.insert(name.to_owned(), value.to_owned());
}

/// `HeaderMap::clone`: a map with the same entries.
#[verifier::external_body]
pub(crate) fn copy_headers(headers: &HeaderMap) -> (copy: HeaderMap)
    ensures
        header_entries(copy) == header_entries(*headers),
{
    headers.clone()
}

/// What was put under a name is found there.
pub proof fn lemma_put_is_found(
    entries: Seq<(Seq<char>, Seq<u8>)>,
    name: Seq<char>,
    value: Seq<u8>,
)
    ensures
        0 <= entry_place(put(entries, name, value), name) < put(entries, name, value).len(),
        put(entries, name, value)[entry_place(put(entries, name, value), name)] == (name, value),
{
    let place = entry_place(entries, name);
    let after = put(entries, name, value);
    lemma_place_of_entry(entries, name);
    assert forall|i: int| 0 <= i < place implies (#[trigger] after[i]).0 != name by {
        assert(after[i] == entries[i]);
    }
    lemma_entry_place(after, name, place);
}

/// No entry before the place of a name has it.
proof fn lemma_place_of_entry(entries: Seq<(Seq<char>, Seq<u8>)>, name: Seq<char>)
    ensures
        0 <= entry_place(entries, name) <= entries.len(),
        forall|i: int|
            0 <= i < entry_place(entries, name) ==> (#[trigger] entries[i]).0 != name,
    decreases entries.len(),
{
    if entries.len() > 0 && entries[0].0 != name {
        let rest = entries.drop_first();
        lemma_place_of_entry(rest, name);
        assert forall|i: int| 0 <= i < entry_place(entries, name) implies (
        #[trigger] entries[i]).0 != name by {
            if i > 0 {
                assert(rest[i - 1] == entries[i]);
            }
        }
    }
}

/// The place of a name: the entry there has it, and no earlier entry does.
pub proof fn lemma_entry_place(
    entries: Seq<(Seq<char>, Seq<u8>)>,
    name: Seq<char>,
    place: int,
)
    requires
        0 <= place <= entries.len(),
        forall|i: int| 0 <= i < place ==> (#[trigger] entries[i]).0 != name,
        place < entries.len() ==> entries[place].0 == name,
    ensures
        entry_place(entries, name) == place,
    decreases entries.len(),
{
    if place > 0 {
        assert forall|i: int| 0 <= i < place - 1 implies (
        #[trigger] entries.drop_first()[i]).0 != name by {
            assert(entries.drop_first()[i] == entries[i + 1]);
        }
        lemma_entry_place(entries.drop_first(), name, place - 1);
    }
}

/// A name in lower case differs from it in the ASCII capitals alone, each of which is made small.
pub proof fn law_only_capitals_are_made_small(name: Seq<char>)
    ensures
        lower(name).len() == name.len(),
        forall|i: int|
            0 <= i < name.len() ==> (#[trigger] lower(name)[i]) as u32 == name[i] as u32 + (if 'A'
                <= name[i] <= 'Z' {
                0x20int
            } else {
                0
            }),
{
}

/// Putting a value under a name changes the entry of that name and no other, or adds one behind
/// the last where there is none.
pub proof fn law_a_value_is_put_under_its_name_alone(
    entries: Seq<(Seq<char>, Seq<u8>)>,
    name: Seq<char>,
    value: Seq<u8>,
)
    ensures
        exists|place: int|
            0 <= place <= entries.len() && (#[trigger] put(entries, name, value)[place]) == (
                name,
                value,
            ) && put(entries, name, value).len() == (if place < entries.len() {
                entries.len()
            } else {
                entries.len() + 1
            }) && (place < entries.len() ==> entries[place].0 == name) && (forall|i: int|
                0 <= i < place ==> (#[trigger] entries[i]).0 != name) && (forall|i: int|
                0 <= i < entries.len() && i != place ==> put(entries, name, value)[i]
                    == #[trigger] entries[i]),
{
    let place = entry_place(entries, name);
    lemma_place_of_entry(entries, name);
    lemma_entry_there(entries, name);
    let after = put(entries, name, value);
    assert(after[place] == (name, value));
}

/// The entry at the place of a name has it.
proof fn lemma_entry_there(entries: Seq<(Seq<char>, Seq<u8>)>, name: Seq<char>)
    ensures
        0 <= entry_place(entries, name) < entries.len() ==> entries[entry_place(
            entries,
            name,
        )].0 == name,
    decreases entries.len(),
{
    if entries.len() > 0 && entries[0].0 != name {
        lemma_place_of_entry(entries.drop_first(), name);
        lemma_entry_there(entries.drop_first(), name);
    }
}

} // verus!
