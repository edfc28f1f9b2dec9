//! Typed model of the raw item catalog.
//!
//! Keyed collections are held as vectors of pairs in document order; a lookup
//! answers with the first pair whose key matches. Stat modifiers are held as
//! fixed-point numbers in millionths.

use vstd::prelude::*;
use crate::text::same_text;

verus! {

/// Prices of one catalog item.
#[derive(Clone, Copy, Debug, PartialEq, Eq, Structural)]
pub struct Gold {
    pub base: i64,
    pub total: i64,
    pub sell: i64,
    pub purchasable: bool,
}

/// Free-form effect amounts of an item; informational only.
#[derive(Clone, Debug, PartialEq, Eq)]
pub struct Effect {
    pub effect1_amount: String,
    pub effect2_amount: Option<String>,
    pub effect3_amount: Option<String>,
    pub effect4_amount: Option<String>,
    pub effect5_amount: Option<String>,
    pub effect6_amount: Option<String>,
    pub effect7_amount: Option<String>,
    pub effect8_amount: Option<String>,
    pub effect9_amount: Option<String>,
    pub effect10_amount: Option<String>,
    pub effect11_amount: Option<String>,
    pub effect12_amount: Option<String>,
    pub effect13_amount: Option<String>,
    pub effect14_amount: Option<String>,
    pub effect15_amount: Option<String>,
    pub effect16_amount: Option<String>,
    pub effect17_amount: Option<String>,
    pub effect18_amount: Option<String>,
}

/// An ownership group: a cap on how many items sharing the group a build may
/// hold. The cap is kept as the catalog writes it, a decimal string; `"-1"`
/// stands for "no cap".
#[derive(Clone, Debug, PartialEq, Eq)]
pub struct Group {
    pub id: String,
    pub max_group_ownable: String,
}

/// One node of the category tree; unused by the optimizer.
#[derive(Clone, Debug, PartialEq, Eq)]
pub struct Tree {
    pub header: String,
    pub tags: Vec<String>,
}

/// A stat modifier as a fixed-point number: `micros` millionths.
#[derive(Clone, Copy, Debug, PartialEq, Eq, Structural)]
pub struct StatValue {
    pub micros: i64,
}

/// One entry of an item's sparse stat mapping.
#[derive(Clone, Debug, PartialEq, Eq)]
pub struct Stat {
    pub name: String,
    pub value: StatValue,
}

/// One entry of an item's map-availability mapping.
#[derive(Clone, Debug, PartialEq, Eq)]
pub struct MapFlag {
    pub map: String,
    pub enabled: bool,
}

/// One item of the catalog, with its optional members left optional.
#[derive(Clone, Debug, PartialEq, Eq)]
pub struct Item {
    pub name: String,
    pub description: String,
    pub colloq: String,
    pub plaintext: String,
    pub into: Vec<String>,
    pub gold: Gold,
    pub tags: Vec<String>,
    pub maps: Vec<MapFlag>,
    pub stats: Vec<Stat>,
    pub in_store: Option<bool>,
    pub from: Option<Vec<String>>,
    pub effect: Option<Effect>,
    pub depth: Option<i64>,
    pub consumed: Option<bool>,
    pub stacks: Option<i64>,
    pub hide_from_all: Option<bool>,
    pub consume_on_full: Option<bool>,
    pub required_champion: Option<String>,
    pub required_ally: Option<String>,
    pub special_recipe: Option<i64>,
}

/// A catalog item under its identifier.
#[derive(Clone, Debug, PartialEq, Eq)]
pub struct Entry {
    pub id: String,
    pub item: Item,
}

/// The whole catalog of one game version.
#[derive(Clone, Debug, PartialEq, Eq)]
pub struct Items {
    pub version: String,
    pub basic: Item,
    pub data: Vec<Entry>,
    pub groups: Vec<Group>,
    pub tree: Vec<Tree>,
}

/// Index of the first group at or after `from` whose id is `id`, or the
/// number of groups where there is none.
pub open spec fn group_index_from(groups: Seq<Group>, id: Seq<char>, from: int) -> int
    decreases groups.len() - from,
{
    if from < 0 || from >= groups.len() {
        groups.len() as int
    } else if groups[from].id@ == id {
        from
    } else {
        group_index_from(groups, id, from + 1)
    }
}

/// The first group whose id is `id`.
pub open spec fn group_for(groups: Seq<Group>, id: Seq<char>) -> Option<Group> {
    let at = group_index_from(groups, id, 0);
    if at < groups.len() {
        Some(groups[at])
    } else {
        None
    }
}

/// The value that the first stat named `name` at or after `from` carries;
/// zero where no stat has that name.
pub open spec fn stat_from(stats: Seq<Stat>, name: Seq<char>, from: int) -> StatValue
    decreases stats.len() - from,
{
    if from < 0 || from >= stats.len() {
        StatValue { micros: 0 }
    } else if stats[from].name@ == name {
        stats[from].value
    } else {
        stat_from(stats, name, from + 1)
    }
}

/// The flag that the first entry for map `map` at or after `from` carries.
pub open spec fn map_flag_from(maps: Seq<MapFlag>, map: Seq<char>, from: int) -> Option<bool>
    decreases maps.len() - from,
{
    if from < 0 || from >= maps.len() {
        None
    } else if maps[from].map@ == map {
        Some(maps[from].enabled)
    } else {
        map_flag_from(maps, map, from + 1)
    }
}

/// No name occurs twice among the stats.
pub open spec fn unique_stats(stats: Seq<Stat>) -> bool {
    forall|i: int, j: int|
        0 <= i < j < stats.len() ==> (#[trigger] stats[i]).name@ != (#[trigger] stats[j]).name@
}

/// Whether `stats` lists the name of `stat` with its value.
pub open spec fn lists_stat(stats: Seq<Stat>, stat: Stat) -> bool {
    exists|j: int|
        0 <= j < stats.len() && (#[trigger] stats[j]).name@ == stat.name@ && stats[j].value
            == stat.value
}

/// Among stats of unique names, a name reads the value listed with it.
pub proof fn lemma_stat_found(stats: Seq<Stat>, name: Seq<char>, from: int, at: int)
    requires
        unique_stats(stats),
        0 <= from <= at < stats.len(),
        stats[at].name@ == name,
    ensures
        stat_from(stats, name, from) == stats[at].value,
    decreases at - from,
{
    if from < at {
        lemma_stat_found(stats, name, from + 1, at);
    }
}

/// A name that no stat carries reads zero.
pub proof fn lemma_stat_absent(stats: Seq<Stat>, name: Seq<char>, from: int)
    requires
        0 <= from,
        forall|i: int| from <= i < stats.len() ==> (#[trigger] stats[i]).name@ != name,
    ensures
        stat_from(stats, name, from) == (StatValue { micros: 0 }),
    decreases stats.len() - from,
{
    if from < stats.len() {
        lemma_stat_absent(stats, name, from + 1);
    }
}

/// Stats of unique names read the same in any order: two lists that list the
/// same names with the same values give every name the same value.
pub proof fn lemma_stats_in_any_order(a: Seq<Stat>, b: Seq<Stat>, name: Seq<char>)
    requires
        unique_stats(a),
        unique_stats(b),
        forall|i: int| 0 <= i < a.len() ==> lists_stat(b, #[trigger] a[i]),
        forall|j: int| 0 <= j < b.len() ==> lists_stat(a, #[trigger] b[j]),
    ensures
        stat_from(a, name, 0) == stat_from(b, name, 0),
{
    if exists|i: int| 0 <= i < a.len() && (#[trigger] a[i]).name@ == name {
        let i = choose|i: int| 0 <= i < a.len() && (#[trigger] a[i]).name@ == name;
        assert(lists_stat(b, a[i]));
        let j = choose|j: int|
            0 <= j < b.len() && (#[trigger] b[j]).name@ == a[i].name@ && b[j].value == a[i].value;
        lemma_stat_found(a, name, 0, i);
        lemma_stat_found(b, name, 0, j);
    } else {
        assert forall|j: int| 0 <= j < b.len() implies (#[trigger] b[j]).name@ != name by {
            assert(lists_stat(a, b[j]));
        }
        lemma_stat_absent(a, name, 0);
        lemma_stat_absent(b, name, 0);
    }
}

/// No map occurs twice among the flags.
pub open spec fn unique_flags(maps: Seq<MapFlag>) -> bool {
    forall|i: int, j: int|
        0 <= i < j < maps.len() ==> (#[trigger] maps[i]).map@ != (#[trigger] maps[j]).map@
}

/// Whether `maps` lists the map of `flag` with its value.
pub open spec fn lists_flag(maps: Seq<MapFlag>, flag: MapFlag) -> bool {
    exists|j: int|
        0 <= j < maps.len() && (#[trigger] maps[j]).map@ == flag.map@ && maps[j].enabled
            == flag.enabled
}

/// Among flags of unique maps, a map reads the flag listed with it.
pub proof fn lemma_flag_found(maps: Seq<MapFlag>, map: Seq<char>, from: int, at: int)
    requires
        unique_flags(maps),
        0 <= from <= at < maps.len(),
        maps[at].map@ == map,
    ensures
        map_flag_from(maps, map, from) == Some(maps[at].enabled),
    decreases at - from,
{
    if from < at {
        lemma_flag_found(maps, map, from + 1, at);
    }
}

/// A map that no flag names reads nothing.
pub proof fn lemma_flag_absent(maps: Seq<MapFlag>, map: Seq<char>, from: int)
    requires
        0 <= from,
        forall|i: int| from <= i < maps.len() ==> (#[trigger] maps[i]).map@ != map,
    ensures
        map_flag_from(maps, map, from).is_none(),
    decreases maps.len() - from,
{
    if from < maps.len() {
        lemma_flag_absent(maps, map, from + 1);
    }
}

/// Flags of unique maps read the same in any order.
pub proof fn lemma_flags_in_any_order(a: Seq<MapFlag>, b: Seq<MapFlag>, map: Seq<char>)
    requires
        unique_flags(a),
        unique_flags(b),
        forall|i: int| 0 <= i < a.len() ==> lists_flag(b, #[trigger] a[i]),
        forall|j: int| 0 <= j < b.len() ==> lists_flag(a, #[trigger] b[j]),
    ensures
        map_flag_from(a, map, 0) == map_flag_from(b, map, 0),
{
    if exists|i: int| 0 <= i < a.len() && (#[trigger] a[i]).map@ == map {
        let i = choose|i: int| 0 <= i < a.len() && (#[trigger] a[i]).map@ == map;
        assert(lists_flag(b, a[i]));
        let j = choose|j: int|
            0 <= j < b.len() && (#[trigger] b[j]).map@ == a[i].map@ && b[j].enabled
                == a[i].enabled;
        lemma_flag_found(a, map, 0, i);
        lemma_flag_found(b, map, 0, j);
    } else {
        assert forall|j: int| 0 <= j < b.len() implies (#[trigger] b[j]).map@ != map by {
            assert(lists_flag(a, b[j]));
        }
        lemma_flag_absent(a, map, 0);
        lemma_flag_absent(b, map, 0);
    }
}

impl Item {
    /// The modifier of the stat called `name`; zero where the item has none.
    pub fn stat(&self, name: &str) -> (r: StatValue)
        ensures
            r == stat_from(self.stats@, name@, 0),
    {
        let mut i: usize = 0;
        while i < self.stats.len()
            invariant
                i <= self.stats.len(),
                stat_from(self.stats@, name@, 0) == stat_from(self.stats@, name@, i as int),
            decreases self.stats.len() - i,
        {
            if same_text(self.stats[i].name.as_str(), name) {
                return self.stats[i].value;
            }
            i += 1;
        }
        StatValue { micros: 0 }
    }

    /// Whether the item is flagged for map `map`; `None` where the item says
    /// nothing of that map.
    pub fn map_flag(&self, map: &str) -> (r: Option<bool>)
        ensures
            r == map_flag_from(self.maps@, map@, 0),
    {
        let mut i: usize = 0;
        while i < self.maps.len()
            invariant
                i <= self.maps.len(),
                map_flag_from(self.maps@, map@, 0) == map_flag_from(self.maps@, map@, i as int),
            decreases self.maps.len() - i,
        {
            if same_text(self.maps[i].map.as_str(), map) {
                return Some(self.maps[i].enabled);
            }
            i += 1;
        }
        None
    }
}

impl Items {
    /// The ownership group of the item with identifier `id`: the first group
    /// whose id is `id`.
    pub fn find_group_for_item(&self, id: &str, _item: &Item) -> (r: Option<&Group>)
        ensures
            match r {
                Some(group) => group_for(self.groups@, id@) == Some(*group),
                None => group_for(self.groups@, id@).is_none(),
            },
    {
        let mut i: usize = 0;
        while i < self.groups.len()
            invariant
                i <= self.groups.len(),
                group_index_from(self.groups@, id@, 0) == group_index_from(
                    self.groups@,
                    id@,
                    i as int,
                ),
            decreases self.groups.len() - i,
        {
            if same_text(self.groups[i].id.as_str(), id) {
                return Some(&self.groups[i]);
            }
            i += 1;
        }
        None
    }
}

} // verus!
