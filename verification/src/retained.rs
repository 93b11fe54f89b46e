//! What a transport retains: one list of items per stream key, in the order they were written.

use vstd::hash_map::StringHashMap;
use vstd::prelude::*;
use vstd::string::*;

use crate::queue::{self, Duplicate, Numbered};

verus! {

/// The list of items of each stream key, and where the list of a key stands.
struct Streams<T> {
    places: StringHashMap<usize>,
    lists: Vec<Vec<T>>,
}

impl<T> Streams<T> {
    /// Whether every key has a list of its own.
    spec fn apart(&self) -> bool {
        &&& forall|key: Seq<char>|
            self.places@.contains_key(key) ==> (#[trigger] self.places@[key]) < self.lists@.len()
        &&& forall|key: Seq<char>, other: Seq<char>|
            self.places@.contains_key(key) && self.places@.contains_key(other) && key != other
                ==> (#[trigger] self.places@[key]) != (#[trigger] self.places@[other])
    }

    fn new() -> (streams: Self)
        ensures
            streams.places@ == Map::<Seq<char>, usize>::empty(),
            streams.lists@.len() == 0,
    {
        Streams { places: StringHashMap::new(), lists: Vec::new() }
    }
}

/// The items retained under each stream key.
pub struct Retained<T> {
    streams: Streams<T>,
}

/// The views of some items.
pub open spec fn item_views<T: View>(items: Seq<T>) -> Seq<T::V> {
    items.map_values(|item: T| item@)
}

/// The items from place `from` on, numbered by their place and `base`.
pub open spec fn numbered_from<V>(
    items: Seq<V>,
    from: int,
    base: nat,
) -> Seq<queue::NumberedView<V>> {
    if 0 <= from <= items.len() {
        Seq::new(
            (items.len() - from) as nat,
            |i: int|
                queue::NumberedView { sequence: (from + i + base) as nat, item: items[from + i] },
        )
    } else {
        Seq::empty()
    }
}

impl<T> Retained<T> {
    /// What holds of everything retained: every key has a list of its own.
    #[verifier::type_invariant]
    spec fn well_kept(&self) -> bool {
        self.streams.apart()
    }
}

impl<T: View> Retained<T> {
    /// The items retained under `key`.
    pub closed spec fn list(&self, key: Seq<char>) -> Seq<T::V> {
        if self.streams.places@.contains_key(key) {
            item_views(self.streams.lists@[self.streams.places@[key] as int]@)
        } else {
            Seq::empty()
        }
    }

    /// Nothing retained under any key.
    pub fn new() -> (retained: Self)
        ensures
            forall|key: Seq<char>| (#[trigger] retained.list(key)) == Seq::<T::V>::empty(),
    {
        Retained { streams: Streams::new() }
    }

    /// The items retained under `key`, in the order they were written.
    pub fn get(&self, key: &str) -> (items: Option<&Vec<T>>)
        ensures
            match items {
                Some(items) => item_views(items@) == self.list(key@),
                None => self.list(key@).len() == 0,
            },
    {
        proof {
            use_type_invariant(self);
        }
        match self.streams.places.get(key) {
            Some(place) => Some(&self.streams.lists[*place]),
            None => None,
        }
    }

    /// How many items are retained under `key`.
    pub fn count(&self, key: &str) -> (count: usize)
        ensures
            count == self.list(key@).len(),
    {
        match self.get(key) {
            Some(items) => items.len(),
            None => 0,
        }
    }

    /// Retains `item` under `key`, behind what is retained there; how many items that makes.
    pub fn push(&mut self, key: &str, item: T) -> (count: usize)
        ensures
            count == final(self).list(key@).len(),
            final(self).list(key@) == old(self).list(key@).push(item@),
            forall|other: Seq<char>|
                other != key@ ==> (#[trigger] final(self).list(other)) == old(self).list(other),
    {
        proof {
            use_type_invariant(&*self);
        }
        let ghost before = self.streams;
        let mut streams = Streams::new();
        std::mem::swap(&mut streams, &mut self.streams);
        let count = match streams.places.get(key) {
            Some(place) => {
                let place = *place;
                streams.lists[place].push(item);
                proof {
                    assert(item_views(streams.lists@[place as int]@) =~= item_views(
                        before.lists@[place as int]@,
                    ).push(item@));
                }
                streams.lists[place].len()
            },
            None => {
                let mut items: Vec<T> = Vec::new();
                items.push(item);
                proof {
                    assert(item_views(items@) =~= Seq::empty().push(item@));
                }
                streams.places.insert(key.to_owned(), streams.lists.len());
                streams.lists.push(items);
                1
            },
        };
        self.streams = streams;
        count
    }

    /// Lets go of everything retained.
    pub fn clear(&mut self)
        ensures
            forall|key: Seq<char>| (#[trigger] final(self).list(key)) == Seq::<T::V>::empty(),
    {
        self.streams = Streams::new();
    }
}

impl<T: Duplicate> Retained<T> {
    /// Copies of the items under `key` from place `from` on, numbered by their place and `base`.
    pub fn numbered(&self, key: &str, from: usize, base: u64) -> (items: Vec<Numbered<T>>)
        requires
            self.list(key@).len() + base <= u64::MAX + 1,
        ensures
            queue::numbered_views(items@) == numbered_from(
                self.list(key@),
                from as int,
                base as nat,
            ),
    {
        let mut items: Vec<Numbered<T>> = Vec::new();
        if let Some(list) = self.get(key) {
            let mut i: usize = from;
            while i < list.len()
                invariant
                    self.list(key@).len() + base <= u64::MAX + 1,
                    item_views(list@) == self.list(key@),
                    from <= i,
                    i <= list.len() || i == from,
                    items@.len() == i - from,
                    forall|j: int|
                        0 <= j < items@.len() ==> (#[trigger] items@[j])@ == (queue::NumberedView {
                            sequence: (from + j + base) as nat,
                            item: self.list(key@)[from + j],
                        }),
                decreases list.len() - i,
            {
                items.push(Numbered { sequence: i as u64 + base, item: list[i].duplicate() });
                i = i + 1;
            }
        }
        proof {
            assert(queue::numbered_views(items@) =~= numbered_from(
                self.list(key@),
                from as int,
                base as nat,
            ));
        }
        items
    }
}

} // verus!
