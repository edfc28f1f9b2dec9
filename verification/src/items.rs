//! Eligibility filter and projection: from the catalog to the records that the
//! optimizer decides over.

use vstd::prelude::*;
use vstd::utf8::encode_utf8;
use crate::ddragon::{Entry, Group, Items, StatValue, group_for, map_flag_from, stat_from};
use crate::text::{
    bytes_before, comes_before, id_before, lemma_before_asymmetric, lemma_before_transitive,
    lemma_id_order_total, parse_integer, parsed_integer,
};

verus! {

/// What the optimizer knows of one purchasable item.
#[derive(Clone, Debug)]
pub struct Item {
    pub name: String,
    pub id: String,
    pub cost: u64,
    pub ad: u64,
    pub ap: u64,
    pub asp: u64,
    pub ms: u64,
    pub limit: u64,
}

/// Why a catalog cannot be projected.
#[derive(Clone, Copy, Debug, PartialEq, Eq, Structural)]
pub enum CatalogError {
    /// An identifier is empty or occurs twice, or a price is negative.
    MalformedCatalog,
}

/// Whole points of a flat stat: the value cut off toward zero, and zero for a
/// negative value.
pub open spec fn flat_points(value: StatValue) -> int {
    if value.micros <= 0 {
        0
    } else {
        value.micros / 1_000_000
    }
}

/// Whole percent of a fractional stat: the floor of a hundred times the value,
/// and zero for a negative value.
pub open spec fn percent_points(value: StatValue) -> int {
    if value.micros <= 0 {
        0
    } else {
        (value.micros * 100) / 1_000_000
    }
}

/// The purchase limit of an item: the cap of its ownership group where that
/// is a number other than -1, else five plus its stacks (one where unset). A
/// negative limit admits no copy.
pub open spec fn copies_allowed(stacks: Option<i64>, group_cap: Option<i64>) -> int {
    let ceiling = 5 + match stacks {
        Some(s) => s as int,
        None => 1,
    };
    let chosen = match group_cap {
        Some(cap) => if cap == -1 {
            ceiling
        } else {
            cap as int
        },
        None => ceiling,
    };
    if chosen < 0 {
        0
    } else {
        chosen
    }
}

/// The numeric cap of the ownership group of the item `id`, if it has a
/// group and the group's cap is a number.
pub open spec fn group_cap(groups: Seq<Group>, id: Seq<char>) -> Option<i64> {
    match group_for(groups, id) {
        Some(group) => parsed_integer(group.max_group_ownable@),
        None => None,
    }
}

/// Whether the store offers the item: its own flag, else the catalog's
/// default, else no.
pub open spec fn offered(catalog: Items, item: crate::ddragon::Item) -> bool {
    match item.in_store {
        Some(flag) => flag,
        None => match catalog.basic.in_store {
            Some(flag) => flag,
            None => false,
        },
    }
}

/// Whether the item is available on the primary map: its flag for map "11",
/// and yes where it has none.
pub open spec fn on_primary_map(item: crate::ddragon::Item) -> bool {
    match map_flag_from(item.maps@, "11"@, 0) {
        Some(flag) => flag,
        None => true,
    }
}

/// The attack damage that an item adds, in whole points.
pub open spec fn ad_of(item: crate::ddragon::Item) -> int {
    flat_points(stat_from(item.stats@, "FlatPhysicalDamageMod"@, 0))
}

/// The ability power that an item adds, in whole points.
pub open spec fn ap_of(item: crate::ddragon::Item) -> int {
    flat_points(stat_from(item.stats@, "FlatMagicDamageMod"@, 0))
}

/// The attack speed that an item adds, in whole percent.
pub open spec fn asp_of(item: crate::ddragon::Item) -> int {
    percent_points(stat_from(item.stats@, "PercentAttackSpeedMod"@, 0))
}

/// The movement speed that an item adds, in whole percent.
pub open spec fn ms_of(item: crate::ddragon::Item) -> int {
    percent_points(stat_from(item.stats@, "PercentMovementSpeedMod"@, 0))
}

/// An item is eligible when the store offers it, it can be purchased, the
/// primary map has it, and it adds to attack damage, ability power or attack
/// speed. Movement speed alone does not qualify it.
pub open spec fn eligible(catalog: Items, item: crate::ddragon::Item) -> bool {
    &&& offered(catalog, item)
    &&& item.gold.purchasable
    &&& on_primary_map(item)
    &&& (ad_of(item) > 0 || ap_of(item) > 0 || asp_of(item) > 0)
}

/// The record that stands for an eligible entry.
pub open spec fn projected(catalog: Items, entry: Entry) -> Item {
    Item {
        name: entry.item.name,
        id: entry.id,
        cost: entry.item.gold.total as u64,
        ad: ad_of(entry.item) as u64,
        ap: ap_of(entry.item) as u64,
        asp: asp_of(entry.item) as u64,
        ms: ms_of(entry.item) as u64,
        limit: copies_allowed(entry.item.stacks, group_cap(catalog.groups@, entry.id@)) as u64,
    }
}

/// A catalog is well formed when every identifier is non-empty and occurs
/// once, and no price is negative.
pub open spec fn well_formed(catalog: Items) -> bool {
    &&& forall|k: int|
        0 <= k < catalog.data@.len() ==> (#[trigger] catalog.data@[k]).id@.len() > 0
            && catalog.data@[k].item.gold.total >= 0
    &&& forall|j: int, k: int|
        0 <= j < k < catalog.data@.len() ==> (#[trigger] catalog.data@[j]).id@ != (
        #[trigger] catalog.data@[k]).id@
}

/// Index of the first record at or after `from` whose identifier comes after
/// `id`, or the number of records where there is none.
pub open spec fn first_after(records: Seq<Item>, id: Seq<char>, from: int) -> int
    decreases records.len() - from,
{
    if from < 0 || from >= records.len() {
        records.len() as int
    } else if id_before(id, records[from].id@) {
        from
    } else {
        first_after(records, id, from + 1)
    }
}

/// The records of the eligible entries among the first `n`, in ascending
/// order of identifier.
pub open spec fn projection_upto(catalog: Items, n: int) -> Seq<Item>
    decreases n,
{
    if n <= 0 || n > catalog.data@.len() {
        Seq::empty()
    } else {
        let before = projection_upto(catalog, n - 1);
        let entry = catalog.data@[n - 1];
        if eligible(catalog, entry.item) {
            before.insert(first_after(before, entry.id@, 0), projected(catalog, entry))
        } else {
            before
        }
    }
}

/// The records of all eligible entries, in ascending order of identifier.
pub open spec fn projection(catalog: Items) -> Seq<Item> {
    projection_upto(catalog, catalog.data@.len() as int)
}

/// Whole points of a flat stat.
pub fn flat_stat(value: StatValue) -> (r: u64)
    ensures
        r == flat_points(value),
{
    if value.micros <= 0 {
        0
    } else {
        (value.micros / 1_000_000) as u64
    }
}

/// Whole percent of a fractional stat, rounded down.
pub fn percent_stat(value: StatValue) -> (r: u64)
    ensures
        r == percent_points(value),
{
    if value.micros <= 0 {
        0
    } else {
        let scaled: i128 = (value.micros as i128) * 100;
        (scaled / 1_000_000) as u64
    }
}

/// The purchase limit of an item from its stacks and the numeric cap of its
/// ownership group.
pub fn max_copies(stacks: Option<i64>, group_cap: Option<i64>) -> (r: u64)
    ensures
        r == copies_allowed(stacks, group_cap),
{
    let ceiling: i128 = 5 + match stacks {
        Some(s) => s as i128,
        None => 1,
    };
    let chosen: i128 = match group_cap {
        Some(cap) => if cap == -1 {
            ceiling
        } else {
            cap as i128
        },
        None => ceiling,
    };
    if chosen < 0 {
        0
    } else {
        chosen as u64
    }
}

/// Whether an item passes the filter.
pub fn is_eligible(catalog: &Items, item: &crate::ddragon::Item) -> (r: bool)
    ensures
        r == eligible(*catalog, *item),
{
    let in_store = match item.in_store {
        Some(flag) => flag,
        None => match catalog.basic.in_store {
            Some(flag) => flag,
            None => false,
        },
    };
    let in_rift = match item.map_flag("11") {
        Some(flag) => flag,
        None => true,
    };
    if !in_store || !item.gold.purchasable || !in_rift {
        return false;
    }
    let ad = flat_stat(item.stat("FlatPhysicalDamageMod"));
    let ap = flat_stat(item.stat("FlatMagicDamageMod"));
    let asp = percent_stat(item.stat("PercentAttackSpeedMod"));
    ad > 0 || ap > 0 || asp > 0
}

/// The record of one entry whose price is not negative.
pub fn project(catalog: &Items, entry: &Entry) -> (r: Item)
    requires
        entry.item.gold.total >= 0,
    ensures
        r == projected(*catalog, *entry),
{
    let cap = match catalog.find_group_for_item(entry.id.as_str(), &entry.item) {
        Some(group) => parse_integer(group.max_group_ownable.as_str()),
        None => None,
    };
    Item {
        name: entry.item.name.clone(),
        id: entry.id.clone(),
        cost: entry.item.gold.total as u64,
        ad: flat_stat(entry.item.stat("FlatPhysicalDamageMod")),
        ap: flat_stat(entry.item.stat("FlatMagicDamageMod")),
        asp: percent_stat(entry.item.stat("PercentAttackSpeedMod")),
        ms: percent_stat(entry.item.stat("PercentMovementSpeedMod")),
        limit: max_copies(entry.item.stacks, cap),
    }
}

/// Whether the catalog is well formed.
pub fn validate(catalog: &Items) -> (r: bool)
    ensures
        r == well_formed(*catalog),
{
    let n = catalog.data.len();
    let mut k: usize = 0;
    while k < n
        invariant
            n == catalog.data@.len(),
            k <= n,
            forall|i: int|
                0 <= i < k ==> (#[trigger] catalog.data@[i]).id@.len() > 0
                    && catalog.data@[i].item.gold.total >= 0,
            forall|i: int, j: int|
                0 <= i < j < k ==> (#[trigger] catalog.data@[i]).id@ != (
                #[trigger] catalog.data@[j]).id@,
        decreases n - k,
    {
        let entry = &catalog.data[k];
        if entry.id.as_str().is_empty() || entry.item.gold.total < 0 {
            return false;
        }
        let mut j: usize = 0;
        while j < k
            invariant
                n == catalog.data@.len(),
                j <= k < n,
                entry == &catalog.data@[k as int],
                forall|i: int| 0 <= i < j ==> (#[trigger] catalog.data@[i]).id@ != entry.id@,
            decreases k - j,
        {
            if catalog.data[j].id == entry.id {
                return false;
            }
            j += 1;
        }
        k += 1;
    }
    true
}

/// Where a record with identifier `id` goes among `records`.
fn insertion_point(records: &Vec<Item>, id: &str) -> (r: usize)
    ensures
        r == first_after(records@, id@, 0),
        r <= records.len(),
{
    let mut i: usize = 0;
    while i < records.len()
        invariant
            i <= records.len(),
            first_after(records@, id@, 0) == first_after(records@, id@, i as int),
        decreases records.len() - i,
    {
        if comes_before(id, records[i].id.as_str()) {
            return i;
        }
        i += 1;
    }
    i
}

/// The decision records of a catalog: one for each eligible entry, in
/// ascending order of identifier. A catalog that is not well formed is
/// refused.
pub fn ddragon_to_items(items: &Items) -> (r: Result<Vec<Item>, CatalogError>)
    ensures
        match r {
            Ok(records) => well_formed(*items) && records@ == projection(*items),
            Err(e) => !well_formed(*items) && e == CatalogError::MalformedCatalog,
        },
{
    if !validate(items) {
        return Err(CatalogError::MalformedCatalog);
    }
    let mut result: Vec<Item> = Vec::new();
    let mut i: usize = 0;
    while i < items.data.len()
        invariant
            well_formed(*items),
            i <= items.data.len(),
            result@ == projection_upto(*items, i as int),
        decreases items.data.len() - i,
    {
        let entry = &items.data[i];
        if is_eligible(items, &entry.item) {
            let record = project(items, entry);
            let at = insertion_point(&result, entry.id.as_str());
            result.insert(at, record);
        }
        i += 1;
    }
    Ok(result)
}

/// The number of eligible entries among the first `n`.
pub open spec fn eligible_count(catalog: Items, n: int) -> int
    decreases n,
{
    if n <= 0 {
        0
    } else {
        eligible_count(catalog, n - 1) + if eligible(catalog, catalog.data@[n - 1].item) {
            1int
        } else {
            0int
        }
    }
}

/// The insertion point lies between the start of the search and the end, no
/// record from the start up to it comes after `id`, and the record at it does.
pub proof fn lemma_first_after(records: Seq<Item>, id: Seq<char>, from: int)
    requires
        0 <= from <= records.len(),
    ensures
        from <= first_after(records, id, from) <= records.len(),
        forall|i: int|
            from <= i < first_after(records, id, from) ==> !id_before(
                id,
                (#[trigger] records[i]).id@,
            ),
        first_after(records, id, from) < records.len() ==> id_before(
            id,
            records[first_after(records, id, from)].id@,
        ),
    decreases records.len() - from,
{
    if from < records.len() && !id_before(id, records[from].id@) {
        lemma_first_after(records, id, from + 1);
    }
}

/// Whether `record` stands for an eligible entry among the first `n`.
pub open spec fn stands_for_eligible(catalog: Items, n: int, record: Item) -> bool {
    exists|k: int|
        0 <= k < n && eligible(catalog, (#[trigger] catalog.data@[k]).item) && record == projected(
            catalog,
            catalog.data@[k],
        )
}

/// The records are sorted: none comes before an earlier one.
pub open spec fn ascending(records: Seq<Item>) -> bool {
    forall|i: int, j: int|
        0 <= i < j < records.len() ==> !id_before(
            (#[trigger] records[j]).id@,
            (#[trigger] records[i]).id@,
        )
}

/// There are as many records as eligible entries.
pub proof fn lemma_projection_count(catalog: Items, n: int)
    requires
        0 <= n <= catalog.data@.len(),
    ensures
        projection_upto(catalog, n).len() == eligible_count(catalog, n),
    decreases n,
{
    if n > 0 {
        lemma_projection_count(catalog, n - 1);
        lemma_first_after(projection_upto(catalog, n - 1), catalog.data@[n - 1].id@, 0);
    }
}

/// Every record of the projection stands for an eligible entry, every
/// eligible entry has its record, and the records ascend by identifier.
#[verifier::rlimit(40)]
pub proof fn lemma_projection_upto(catalog: Items, n: int)
    requires
        0 <= n <= catalog.data@.len(),
    ensures
        forall|j: int|
            0 <= j < projection_upto(catalog, n).len() ==> stands_for_eligible(
                catalog,
                n,
                #[trigger] projection_upto(catalog, n)[j],
            ),
        forall|k: int|
            0 <= k < n && eligible(catalog, (#[trigger] catalog.data@[k]).item)
                ==> projection_upto(catalog, n).contains(projected(catalog, catalog.data@[k])),
        ascending(projection_upto(catalog, n)),
    decreases n,
{
    if n > 0 {
        lemma_projection_upto(catalog, n - 1);
        let before = projection_upto(catalog, n - 1);
        let after = projection_upto(catalog, n);
        let entry = catalog.data@[n - 1];
        if eligible(catalog, entry.item) {
            let record = projected(catalog, entry);
            let at = first_after(before, entry.id@, 0);
            lemma_first_after(before, entry.id@, 0);
            assert(after == before.insert(at, record));
            assert(after[at] == record);
            assert forall|j: int| 0 <= j < after.len() implies stands_for_eligible(
                catalog,
                n,
                #[trigger] after[j],
            ) by {
                if j < at {
                    assert(after[j] == before[j]);
                    assert(stands_for_eligible(catalog, n - 1, before[j]));
                } else if j == at {
                    assert(catalog.data@[n - 1] == entry);
                } else {
                    assert(after[j] == before[j - 1]);
                    assert(stands_for_eligible(catalog, n - 1, before[j - 1]));
                }
            }
            assert forall|k: int|
                0 <= k < n && eligible(
                    catalog,
                    (#[trigger] catalog.data@[k]).item,
                ) implies after.contains(projected(catalog, catalog.data@[k])) by {
                if k < n - 1 {
                    let wanted = projected(catalog, catalog.data@[k]);
                    assert(before.contains(wanted));
                    let j = choose|j: int| 0 <= j < before.len() && before[j] == wanted;
                    if j < at {
                        assert(after[j] == wanted);
                    } else {
                        assert(after[j + 1] == wanted);
                    }
                }
            }
            assert forall|i: int, j: int| 0 <= i < j < after.len() implies !id_before(
                (#[trigger] after[j]).id@,
                (#[trigger] after[i]).id@,
            ) by {
                let x = encode_utf8(entry.id@);
                if j == at {
                    assert(after[i] == before[i]);
                } else if i == at {
                    assert(after[j] == before[j - 1]);
                    let y = encode_utf8(before[at].id@);
                    let z = encode_utf8(before[j - 1].id@);
                    if bytes_before(z, x, 0) {
                        lemma_before_transitive(z, x, y, 0);
                        if j - 1 == at {
                            lemma_before_asymmetric(z, x, 0);
                        }
                    }
                } else {
                    let bi = if i < at { i } else { i - 1 };
                    let bj = if j < at { j } else { j - 1 };
                    assert(after[i] == before[bi]);
                    assert(after[j] == before[bj]);
                }
            }
        } else {
            assert forall|j: int| 0 <= j < after.len() implies stands_for_eligible(
                catalog,
                n,
                #[trigger] after[j],
            ) by {
                assert(stands_for_eligible(catalog, n - 1, before[j]));
            }
        }
    }
}

/// An entry that is not eligible has no record: in a well-formed catalog no
/// record of the projection carries its identifier.
pub proof fn lemma_ineligible_not_listed(catalog: Items, k: int, j: int)
    requires
        well_formed(catalog),
        0 <= k < catalog.data@.len(),
        !eligible(catalog, catalog.data@[k].item),
        0 <= j < projection(catalog).len(),
    ensures
        projection(catalog)[j].id@ != catalog.data@[k].id@,
{
    lemma_projection_upto(catalog, catalog.data@.len() as int);
    let record = projection(catalog)[j];
    assert(stands_for_eligible(catalog, catalog.data@.len() as int, record));
    let source = choose|s: int|
        0 <= s < catalog.data@.len() && eligible(catalog, (#[trigger] catalog.data@[s]).item)
            && record == projected(catalog, catalog.data@[s]);
    assert(source != k);
    assert(catalog.data@[source].id@ != catalog.data@[k].id@);
}

/// An item that cannot be purchased never appears among the records.
pub proof fn lemma_unpurchasable_not_listed(catalog: Items, k: int, j: int)
    requires
        well_formed(catalog),
        0 <= k < catalog.data@.len(),
        !catalog.data@[k].item.gold.purchasable,
        0 <= j < projection(catalog).len(),
    ensures
        projection(catalog)[j].id@ != catalog.data@[k].id@,
{
    lemma_ineligible_not_listed(catalog, k, j);
}

/// An item that adds to none of attack damage, ability power and attack speed
/// never appears among the records, whatever it adds to movement speed.
pub proof fn lemma_movement_speed_alone_not_listed(catalog: Items, k: int, j: int)
    requires
        well_formed(catalog),
        0 <= k < catalog.data@.len(),
        ad_of(catalog.data@[k].item) == 0,
        ap_of(catalog.data@[k].item) == 0,
        asp_of(catalog.data@[k].item) == 0,
        0 <= j < projection(catalog).len(),
    ensures
        projection(catalog)[j].id@ != catalog.data@[k].id@,
{
    lemma_ineligible_not_listed(catalog, k, j);
}

/// No identifier occurs twice among the records.
pub open spec fn distinct_ids(records: Seq<Item>) -> bool {
    forall|i: int, j: int|
        0 <= i < j < records.len() ==> (#[trigger] records[i]).id@ != (#[trigger] records[j]).id@
}

/// A record with a new identifier keeps the identifiers distinct.
pub proof fn lemma_insert_keeps_distinct(records: Seq<Item>, at: int, record: Item)
    requires
        0 <= at <= records.len(),
        distinct_ids(records),
        forall|i: int| 0 <= i < records.len() ==> (#[trigger] records[i]).id@ != record.id@,
    ensures
        distinct_ids(records.insert(at, record)),
{
    let after = records.insert(at, record);
    assert forall|i: int, j: int| 0 <= i < j < after.len() implies (#[trigger] after[i]).id@ != (
    #[trigger] after[j]).id@ by {
        let bi = if i < at { i } else { i - 1 };
        let bj = if j < at { j } else { j - 1 };
        if i != at {
            assert(after[i] == records[bi]);
        }
        if j != at {
            assert(after[j] == records[bj]);
        }
    }
}

/// In a well-formed catalog, no record of the first `n` entries carries the
/// identifier of a later entry.
pub proof fn lemma_records_are_of_earlier_entries(catalog: Items, n: int, later: int, i: int)
    requires
        well_formed(catalog),
        0 <= n <= later < catalog.data@.len(),
        0 <= i < projection_upto(catalog, n).len(),
    ensures
        projection_upto(catalog, n)[i].id@ != catalog.data@[later].id@,
{
    lemma_projection_upto(catalog, n);
    let record = projection_upto(catalog, n)[i];
    assert(stands_for_eligible(catalog, n, record));
    let source = choose|s: int|
        0 <= s < n && eligible(catalog, (#[trigger] catalog.data@[s]).item) && record == projected(
            catalog,
            catalog.data@[s],
        );
    assert(catalog.data@[source].id@ != catalog.data@[later].id@);
}

/// In a well-formed catalog no identifier occurs twice among the records.
pub proof fn lemma_projection_distinct(catalog: Items, n: int)
    requires
        well_formed(catalog),
        0 <= n <= catalog.data@.len(),
    ensures
        distinct_ids(projection_upto(catalog, n)),
    decreases n,
{
    if n > 0 {
        lemma_projection_distinct(catalog, n - 1);
        let before = projection_upto(catalog, n - 1);
        let entry = catalog.data@[n - 1];
        if eligible(catalog, entry.item) {
            let record = projected(catalog, entry);
            lemma_first_after(before, entry.id@, 0);
            assert forall|i: int| 0 <= i < before.len() implies (#[trigger] before[i]).id@
                != record.id@ by {
                lemma_records_are_of_earlier_entries(catalog, n - 1, n - 1, i);
            }
            lemma_insert_keeps_distinct(before, first_after(before, entry.id@, 0), record);
        }
    }
}

/// In a well-formed catalog the records ascend strictly: each identifier
/// comes before every later one.
pub proof fn lemma_projection_strictly_ascending(catalog: Items)
    requires
        well_formed(catalog),
    ensures
        strictly_ascending(projection(catalog)),
{
    let records = projection(catalog);
    lemma_projection_upto(catalog, catalog.data@.len() as int);
    lemma_projection_distinct(catalog, catalog.data@.len() as int);
    assert forall|i: int, j: int| 0 <= i < j < records.len() implies id_before(
        (#[trigger] records[i]).id@,
        (#[trigger] records[j]).id@,
    ) by {
        lemma_id_order_total(records[i].id@, records[j].id@);
    }
}

/// Two lists of stats that read the same under every name.
pub open spec fn same_stats(a: Seq<crate::ddragon::Stat>, b: Seq<crate::ddragon::Stat>) -> bool {
    forall|name: Seq<char>| #[trigger] stat_from(a, name, 0) == stat_from(b, name, 0)
}

/// Two lists of map flags that read the same for every map.
pub open spec fn same_flags(
    a: Seq<crate::ddragon::MapFlag>,
    b: Seq<crate::ddragon::MapFlag>,
) -> bool {
    forall|map: Seq<char>| #[trigger] map_flag_from(a, map, 0) == map_flag_from(b, map, 0)
}

/// Two entries that say the same of an item: its identifier, name, prices,
/// store flag and stacks, and the same stats and map flags in any order.
pub open spec fn same_entry(a: Entry, b: Entry) -> bool {
    &&& a.id == b.id
    &&& a.item.name == b.item.name
    &&& a.item.gold == b.item.gold
    &&& a.item.in_store == b.item.in_store
    &&& a.item.stacks == b.item.stacks
    &&& same_stats(a.item.stats@, b.item.stats@)
    &&& same_flags(a.item.maps@, b.item.maps@)
}

/// Whether `entries` holds an entry that says the same as `entry`.
pub open spec fn holds_entry(entries: Seq<Entry>, entry: Entry) -> bool {
    exists|j: int| 0 <= j < entries.len() && same_entry(entry, #[trigger] entries[j])
}

/// Two catalogs that differ in order only: the same default store flag, the
/// same groups, and the same entries, in any order.
pub open spec fn same_catalog(a: Items, b: Items) -> bool {
    &&& a.basic.in_store == b.basic.in_store
    &&& a.groups@ == b.groups@
    &&& forall|i: int| 0 <= i < a.data@.len() ==> holds_entry(b.data@, #[trigger] a.data@[i])
    &&& forall|j: int| 0 <= j < b.data@.len() ==> holds_entry(a.data@, #[trigger] b.data@[j])
}

/// Entries that say the same are eligible together and have the same record.
pub proof fn lemma_same_entry_same_record(a: Items, b: Items, x: Entry, y: Entry)
    requires
        a.basic.in_store == b.basic.in_store,
        a.groups@ == b.groups@,
        same_entry(x, y),
    ensures
        eligible(a, x.item) == eligible(b, y.item),
        projected(a, x) == projected(b, y),
{
    assert(stat_from(x.item.stats@, "FlatPhysicalDamageMod"@, 0) == stat_from(
        y.item.stats@,
        "FlatPhysicalDamageMod"@,
        0,
    ));
    assert(stat_from(x.item.stats@, "FlatMagicDamageMod"@, 0) == stat_from(
        y.item.stats@,
        "FlatMagicDamageMod"@,
        0,
    ));
    assert(stat_from(x.item.stats@, "PercentAttackSpeedMod"@, 0) == stat_from(
        y.item.stats@,
        "PercentAttackSpeedMod"@,
        0,
    ));
    assert(stat_from(x.item.stats@, "PercentMovementSpeedMod"@, 0) == stat_from(
        y.item.stats@,
        "PercentMovementSpeedMod"@,
        0,
    ));
    assert(map_flag_from(x.item.maps@, "11"@, 0) == map_flag_from(y.item.maps@, "11"@, 0));
}

/// Every record of the first catalog is a record of the second.
proof fn lemma_records_carry_over(a: Items, b: Items, record: Item)
    requires
        same_catalog(a, b),
        projection(a).contains(record),
    ensures
        projection(b).contains(record),
{
    let n = a.data@.len() as int;
    lemma_projection_upto(a, n);
    lemma_projection_upto(b, b.data@.len() as int);
    let at = choose|i: int| 0 <= i < projection(a).len() && projection(a)[i] == record;
    assert(stands_for_eligible(a, n, projection_upto(a, n)[at]));
    let k = choose|k: int|
        0 <= k < n && eligible(a, (#[trigger] a.data@[k]).item) && record == projected(
            a,
            a.data@[k],
        );
    assert(holds_entry(b.data@, a.data@[k]));
    let j = choose|j: int| 0 <= j < b.data@.len() && same_entry(a.data@[k], #[trigger] b.data@[j]);
    lemma_same_entry_same_record(a, b, a.data@[k], b.data@[j]);
    assert(eligible(b, b.data@[j].item));
}

/// Whether each identifier comes before every later one.
pub open spec fn strictly_ascending(records: Seq<Item>) -> bool {
    forall|i: int, j: int|
        0 <= i < j < records.len() ==> id_before(
            (#[trigger] records[i]).id@,
            (#[trigger] records[j]).id@,
        )
}

/// Two strictly ascending sequences of the same records are the same sequence.
pub proof fn lemma_ascending_is_unique(s: Seq<Item>, t: Seq<Item>)
    requires
        strictly_ascending(s),
        strictly_ascending(t),
        forall|r: Item| s.contains(r) ==> t.contains(r),
        forall|r: Item| t.contains(r) ==> s.contains(r),
    ensures
        s == t,
    decreases s.len(),
{
    if s.len() == 0 {
        if t.len() > 0 {
            assert(t.contains(t[0]));
        }
        assert(s =~= t);
    } else {
        let x = s.last();
        assert(s.contains(x));
        assert(t.contains(x));
        let j = choose|j: int| 0 <= j < t.len() && t[j] == x;
        let y = t.last();
        assert(t.contains(y));
        assert(s.contains(y));
        let i = choose|i: int| 0 <= i < s.len() && s[i] == y;
        if j < t.len() - 1 {
            assert(id_before(t[j].id@, t[t.len() - 1].id@));
            if i < s.len() - 1 {
                assert(id_before(s[i].id@, s[s.len() - 1].id@));
            }
            lemma_before_asymmetric(encode_utf8(x.id@), encode_utf8(y.id@), 0);
        }
        assert(x == y);
        let s0 = s.drop_last();
        let t0 = t.drop_last();
        assert forall|r: Item| s0.contains(r) implies t0.contains(r) by {
            let m = choose|m: int| 0 <= m < s0.len() && s0[m] == r;
            assert(s[m] == r);
            assert(s.contains(r));
            assert(t.contains(r));
            let k = choose|k: int| 0 <= k < t.len() && t[k] == r;
            if k == t.len() - 1 {
                assert(id_before(s[m].id@, s[s.len() - 1].id@));
                lemma_before_asymmetric(encode_utf8(r.id@), encode_utf8(x.id@), 0);
            }
            assert(t0[k] == r);
        }
        assert forall|r: Item| t0.contains(r) implies s0.contains(r) by {
            let m = choose|m: int| 0 <= m < t0.len() && t0[m] == r;
            assert(t[m] == r);
            assert(t.contains(r));
            assert(s.contains(r));
            let k = choose|k: int| 0 <= k < s.len() && s[k] == r;
            if k == s.len() - 1 {
                assert(id_before(t[m].id@, t[t.len() - 1].id@));
                lemma_before_asymmetric(encode_utf8(r.id@), encode_utf8(y.id@), 0);
            }
            assert(s0[k] == r);
        }
        assert forall|a: int, b: int| 0 <= a < b < s0.len() implies id_before(
            (#[trigger] s0[a]).id@,
            (#[trigger] s0[b]).id@,
        ) by {
            assert(s0[a] == s[a] && s0[b] == s[b]);
        }
        assert forall|a: int, b: int| 0 <= a < b < t0.len() implies id_before(
            (#[trigger] t0[a]).id@,
            (#[trigger] t0[b]).id@,
        ) by {
            assert(t0[a] == t[a] && t0[b] == t[b]);
        }
        lemma_ascending_is_unique(s0, t0);
        assert(s =~= s0.push(x));
        assert(t =~= t0.push(y));
    }
}

/// The records do not depend on the order in which a catalog lists its
/// entries, nor on the order of an item's stats and map flags: two
/// well-formed catalogs that differ in order only have the same records.
pub proof fn lemma_projection_ignores_order(a: Items, b: Items)
    requires
        well_formed(a),
        well_formed(b),
        same_catalog(a, b),
    ensures
        projection(a) == projection(b),
{
    lemma_projection_strictly_ascending(a);
    lemma_projection_strictly_ascending(b);
    assert forall|r: Item| projection(a).contains(r) implies projection(b).contains(r) by {
        lemma_records_carry_over(a, b, r);
    }
    assert forall|r: Item| projection(b).contains(r) implies projection(a).contains(r) by {
        assert(same_catalog(b, a)) by {
            assert forall|i: int| 0 <= i < b.data@.len() implies holds_entry(
                a.data@,
                #[trigger] b.data@[i],
            ) by {}
        }
        lemma_records_carry_over(b, a, r);
    }
    lemma_ascending_is_unique(projection(a), projection(b));
}

/// The records of a catalog ascend by identifier, each eligible entry has its
/// record among them, and there is one record for each eligible entry.
pub proof fn lemma_projection_ordered_and_complete(catalog: Items)
    ensures
        ascending(projection(catalog)),
        projection(catalog).len() == eligible_count(catalog, catalog.data@.len() as int),
        forall|k: int|
            0 <= k < catalog.data@.len() && eligible(catalog, (#[trigger] catalog.data@[k]).item)
                ==> projection(catalog).contains(projected(catalog, catalog.data@[k])),
{
    lemma_projection_upto(catalog, catalog.data@.len() as int);
    lemma_projection_count(catalog, catalog.data@.len() as int);
}

} // verus!
