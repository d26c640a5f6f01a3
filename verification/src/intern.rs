//! Interning names: each name once, in the order in which the names first come.

use vstd::hash_map::StringHashMap;
use vstd::prelude::*;

verus! {

/// The texts of a row of strings.
pub open spec fn texts(strings: Seq<String>) -> Seq<Seq<char>> {
    strings.map_values(|s: String| s@)
}

/// The table of names with one name more, where it is not there yet.
pub open spec fn with_name(table: Seq<Seq<char>>, name: Seq<char>) -> Seq<Seq<char>> {
    if table.contains(name) {
        table
    } else {
        table.push(name)
    }
}

/// Each name once, in the order in which the names first come.
pub open spec fn interned(names: Seq<Seq<char>>) -> Seq<Seq<char>>
    decreases names.len(),
{
    if names.len() == 0 {
        Seq::empty()
    } else {
        with_name(interned(names.drop_last()), names.last())
    }
}

/// A place in the table as a 32-bit number; the largest number stands for all places behind it.
pub open spec fn clamped(i: int) -> int {
    if i <= u32::MAX {
        i
    } else {
        u32::MAX as int
    }
}

/// Whether `index` is the place of a name in the table.
pub open spec fn is_place_of(table: Seq<Seq<char>>, name: Seq<char>, index: u32) -> bool {
    exists|i: int| 0 <= i < table.len() && #[trigger] table[i] == name && index == clamped(i)
}

/// The place of a name in the table.
pub open spec fn place_of(table: Seq<Seq<char>>, name: Seq<char>) -> u32 {
    clamped(table.index_of(name)) as u32
}

/// A table of names, and the place of each.
pub struct Interner {
    places: StringHashMap<u32>,
    names: Vec<String>,
}

impl Interner {
    /// The names of the table.
    pub closed spec fn table(self) -> Seq<Seq<char>> {
        texts(self.names@)
    }

    /// Whether the places are those of the names, and no name is there twice.
    pub closed spec fn wf(self) -> bool {
        &&& self.table().no_duplicates()
        &&& forall|name: Seq<char>| #[trigger]
            self.places@.contains_key(name) <==> self.table().contains(name)
        &&& forall|i: int|
            0 <= i < self.table().len() ==> self.places@[#[trigger] self.table()[i]] == clamped(i)
    }

    /// An empty table.
    pub fn new() -> (interner: Self)
        ensures
            interner.wf(),
            interner.table() == Seq::<Seq<char>>::empty(),
    {
        let interner = Interner { places: StringHashMap::new(), names: Vec::new() };
        assert(interner.table() =~= Seq::<Seq<char>>::empty());
        interner
    }

    /// The place of a name, which is added behind the others where it is not there yet.
    pub fn intern(&mut self, name: &String) -> (index: u32)
        requires
            old(self).wf(),
        ensures
            final(self).wf(),
            final(self).table() == with_name(old(self).table(), name@),
            is_place_of(final(self).table(), name@, index),
    {
        let ghost before = self.table();
        if let Some(index) = self.places.get(name.as_str()) {
            proof {
                let i = choose|i: int| 0 <= i < before.len() && before[i] == name@;
                assert(before[i] == name@);
            }
            return *index;
        }
        let n: usize = self.names.len();
        let index: u32 = if n as u64 <= u32::MAX as u64 {
            n as u32
        } else {
            u32::MAX
        };
        self.places.insert(name.clone(), index);
        self.names.push(name.clone());
        proof {
            let after = self.table();
            assert(after =~= before.push(name@));
            assert(after[n as int] == name@);
            assert forall|other: Seq<char>| #[trigger]
                self.places@.contains_key(other) <==> after.contains(other) by {
                if before.contains(other) {
                    let i = choose|i: int| 0 <= i < before.len() && before[i] == other;
                    assert(after[i] == other);
                }
                if after.contains(other) && other != name@ {
                    let i = choose|i: int| 0 <= i < after.len() && after[i] == other;
                    assert(before[i] == other);
                }
            }
            assert forall|i: int| 0 <= i < after.len() implies self.places@[#[trigger] after[i]]
                == clamped(i) by {
                if i < n {
                    assert(after[i] == before[i]);
                    assert(before.contains(before[i]));
                }
            }
        }
        index
    }

    /// The table.
    pub fn into_names(self) -> (names: Vec<String>)
        ensures
            texts(names@) == self.table(),
    {
        self.names
    }
}

/// A place of a name stays its place when names are added behind.
pub proof fn lemma_place_stays(
    table: Seq<Seq<char>>,
    longer: Seq<Seq<char>>,
    name: Seq<char>,
    index: u32,
)
    requires
        table.is_prefix_of(longer),
        is_place_of(table, name, index),
    ensures
        is_place_of(longer, name, index),
{
    let i = choose|i: int|
        0 <= i < table.len() && #[trigger] table[i] == name && index == clamped(i);
    assert(longer[i] == name);
}

/// In a table that holds no name twice a name has one place.
pub proof fn lemma_one_place(table: Seq<Seq<char>>, name: Seq<char>, index: u32)
    requires
        table.no_duplicates(),
        is_place_of(table, name, index),
    ensures
        index == place_of(table, name),
{
    let i = choose|i: int|
        0 <= i < table.len() && #[trigger] table[i] == name && index == clamped(i);
    let j = table.index_of(name);
    assert(0 <= i < table.len() && table[i] == name);
    assert(0 <= j < table.len() && table[j] == name);
}

/// The table holds every name, no other, and none twice.
pub proof fn law_interned(names: Seq<Seq<char>>)
    ensures
        interned(names).no_duplicates(),
        forall|name: Seq<char>| #[trigger] interned(names).contains(name) <==> names.contains(name),
    decreases names.len(),
{
    if names.len() > 0 {
        let front = names.drop_last();
        let last = names.last();
        law_interned(front);
        let table = interned(front);
        assert forall|name: Seq<char>| #[trigger]
            interned(names).contains(name) <==> names.contains(name) by {
            if table.contains(name) {
                let i = choose|i: int| 0 <= i < table.len() && table[i] == name;
                assert(with_name(table, last)[i] == name);
                assert(front.contains(name));
                let k = choose|k: int| 0 <= k < front.len() && front[k] == name;
                assert(names[k] == name);
            }
            if name == last {
                assert(names[names.len() - 1] == name);
                if !table.contains(last) {
                    assert(interned(names)[table.len() as int] == name);
                }
            }
            if names.contains(name) && name != last {
                let k = choose|k: int| 0 <= k < names.len() && names[k] == name;
                assert(front[k] == name);
                assert(front.contains(name));
                assert(table.contains(name));
            }
        }
    }
}

/// The texts of strings, one for one.
pub proof fn law_texts(strings: Seq<String>, i: int)
    requires
        0 <= i < strings.len(),
    ensures
        texts(strings).len() == strings.len(),
        texts(strings)[i] == strings[i]@,
{
}

/// The table holds the names in the order in which they first come: of two names in it, the earlier
/// one came at `k`, and up to there the later one had not come.
pub proof fn law_interned_by_first(names: Seq<Seq<char>>, a: int, b: int) -> (k: int)
    requires
        0 <= a < b < interned(names).len(),
    ensures
        0 <= k < names.len(),
        names[k] == interned(names)[a],
        forall|j: int| 0 <= j <= k ==> #[trigger] names[j] != interned(names)[b],
    decreases names.len(),
{
    let front = names.drop_last();
    let table = interned(front);
    law_interned(front);
    if b < table.len() {
        let k = law_interned_by_first(front, a, b);
        assert forall|j: int| 0 <= j <= k implies #[trigger] names[j] != interned(names)[b] by {
            assert(names[j] == front[j]);
        }
        k
    } else {
        assert(table.contains(table[a]));
        assert(front.contains(table[a]));
        let k = choose|k: int| 0 <= k < front.len() && front[k] == table[a];
        assert forall|j: int| 0 <= j <= k implies #[trigger] names[j] != interned(names)[b] by {
            assert(names[j] == front[j]);
            assert(front.contains(front[j]));
        }
        k
    }
}

/// The place of a name that the table holds once is the number of names before it, or the largest
/// 32-bit number where there are more.
pub proof fn law_place_of(table: Seq<Seq<char>>, i: int)
    requires
        table.no_duplicates(),
        0 <= i < table.len(),
    ensures
        i <= 0xffff_ffff ==> place_of(table, table[i]) == i,
        i > 0xffff_ffff ==> place_of(table, table[i]) == 0xffff_ffff,
{
    let j = table.index_of(table[i]);
    assert(0 <= j < table.len() && table[j] == table[i]);
}

} // verus!
