//! A subsystem of the configuration file system in which users make counters.

use vstd::prelude::*;

use crate::fs::configfs::{
    AttrOps, ConfigAttr, ConfigFS, ConfigItem, ConfigItemType, ConfigSubsystem, Group, Item, Tree,
};
use crate::text::parses_as_i64;

verus! {

/// The value of a counter: any whole number that fits in 64 bits, zero at first.
pub struct CounterValue;

/// What a counter shows.
pub open spec fn counter_text(item: Item) -> Seq<char> {
    if item.data.contains_key("value"@) {
        item.data["value"@]
    } else {
        "0"@
    }
}

impl AttrOps for CounterValue {
    open spec fn shown(&self, item: Item) -> Seq<char> {
        counter_text(item)
    }

    open spec fn stored(&self, item: Item, s: Seq<char>) -> (
        Result<(), &'static str>,
        Map<Seq<char>, Seq<char>>,
    ) {
        if crate::text::is_i64_text(s) {
            (Ok(()), item.data.insert("value"@, s))
        } else {
            (Err("einval"), item.data)
        }
    }

    fn show(&self, item: &ConfigItem) -> (r: String) {
        match item.data.get("value") {
            Some(s) => s.clone(),
            None => "0".to_owned(),
        }
    }

    fn store(&self, item: &mut ConfigItem, s: &str) -> (r: Result<(), &'static str>) {
        if !parses_as_i64(s) {
            return Err("einval");
        }
        item.data.insert("value", s.to_owned());
        assert(item@.data =~= old(item)@.data.insert("value"@, s@));
        Ok(())
    }
}

/// The type of counters: items with the attribute "value", made directly in the subsystem.
pub open spec fn is_counter_type(t: ConfigItemType) -> bool {
    &&& t.name@ == "counter"@
    &&& t.attrs@.len() == 1
    &&& t.attrs@[0].name@ == "value"@
    &&& t.attrs@[0].mode == 0o644
    &&& forall|item: Item| #[trigger] t.attrs@[0].ops.shown(item) == counter_text(item)
    &&& forall|item: Item, s: Seq<char>| #[trigger]
        t.attrs@[0].ops.stored(item, s) == CounterValue.stored(item, s)
    &&& t.can_make_item
    &&& !t.can_make_group
    &&& !t.can_link
}

/// The attribute of counters.
fn counter_attr() -> (r: ConfigAttr)
    ensures
        r.name@ == "value"@,
        r.mode == 0o644,
        forall|item: Item| #[trigger] r.ops.shown(item) == counter_text(item),
        forall|item: Item, s: Seq<char>| #[trigger]
            r.ops.stored(item, s) == CounterValue.stored(item, s),
{
    ConfigAttr { name: "value".to_owned(), mode: 0o644, ops: Box::new(CounterValue) }
}

/// Adds the subsystem of counters to a configuration file system. It is found once it is
/// registered.
pub fn demo_config_subsystem(fs: &mut ConfigFS) -> (r: ConfigSubsystem)
    requires
        old(fs).wf(),
    ensures
        final(fs).wf(),
        r.name@ == "demo"@,
        r.root == old(fs)@.groups.len(),
        r.root < final(fs).groups@.len(),
        final(fs)@.types.len() == old(fs)@.types.len() + 1,
        is_counter_type(final(fs)@.types.last()),
        final(fs)@ == (Tree {
            types: old(fs)@.types.push(final(fs)@.types.last()),
            groups: old(fs)@.groups.push(Group::fresh("demo"@, old(fs)@.types.len() as usize)),
            ..old(fs)@
        }),
{
    let mut attrs: Vec<ConfigAttr> = Vec::new();
    attrs.push(counter_attr());
    let t = ConfigItemType {
        name: "counter".to_owned(),
        attrs,
        can_make_item: true,
        can_make_group: false,
        can_link: false,
    };
    let r = ConfigSubsystem::new(fs, "demo", t);
    proof {
        assert(fs@.types.last() == t);
        assert(fs@.groups.len() == fs.groups@.len());
    }
    r
}

/// A counter shows what was last stored in it, and keeps its value where something else
/// than a number is stored.
pub proof fn law_counter_keeps_numbers(item: Item, s: Seq<char>)
    ensures
        ({
            let (r, data) = CounterValue.stored(item, s);
            let after = Item { data, ..item };
            if crate::text::is_i64_text(s) {
                r is Ok && counter_text(after) == s
            } else {
                r == Err::<(), &'static str>("einval") && after == item
            }
        }),
{
}

/// A counter that nobody has set shows zero, and one that was set shows what it was set to.
pub proof fn law_counter_starts_at_zero(item: Item, s: Seq<char>)
    ensures
        item.data == Map::<Seq<char>, Seq<char>>::empty() ==> counter_text(item) == "0"@,
        counter_text(Item { data: item.data.insert("value"@, s), ..item }) == s,
        CounterValue.shown(item) == counter_text(item),
        forall|key: Seq<char>|
            key != "value"@ && item.data.contains_key(key) ==> #[trigger] CounterValue.stored(
                item,
                s,
            ).1[key] == item.data[key],
{
}

} // verus!
