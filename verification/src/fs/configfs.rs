//! A file system whose directories are made by its users and whose files are the
//! attributes of what they make.
//!
//! ```text
//! <subsystem>/<group or item>/.../<attribute>
//! ```
//!
//! Items and groups are numbered in the order in which they are made, and keep their
//! numbers: an open attribute outlives the directory that it was found in.
use crate::bytes::copy_out;
use crate::strmap::StrMap;
use crate::text::{same_text, split_path, text_of_bytes, trim};
use vstd::prelude::*;

verus! {

/// An item seen from outside.
#[verifier::ext_equal]
pub struct Item {
    pub name: Seq<char>,
    pub item_type: usize,
    pub data: Map<Seq<char>, Seq<char>>,
}

/// How an attribute is shown and stored.
pub trait AttrOps: Send {
    /// The text that a read of the attribute gives.
    spec fn shown(&self, item: Item) -> Seq<char>;

    /// The outcome of a write of `s`, and the data of the item after it.
    spec fn stored(&self, item: Item, s: Seq<char>) -> (
        Result<(), &'static str>,
        Map<Seq<char>, Seq<char>>,
    );

    /// The text that a read of the attribute gives.
    fn show(&self, item: &ConfigItem) -> (r: String)
        requires
            item.wf(),
        ensures
            r@ == self.shown(item@),
    ;

    /// Stores `s`, or says why not.
    fn store(&self, item: &mut ConfigItem, s: &str) -> (r: Result<(), &'static str>)
        requires
            old(item).wf(),
        ensures
            final(item).wf(),
            final(item)@.name == old(item)@.name,
            final(item)@.item_type == old(item)@.item_type,
            (r, final(item)@.data) == self.stored(old(item)@, s@),
    ;
}

/// An attribute of the items of a type.
pub struct ConfigAttr {
    pub name: String,
    pub mode: u16,
    pub ops: Box<dyn AttrOps>,
}

/// A type of items: their attributes, and what may be made in a group of the type.
pub struct ConfigItemType {
    pub name: String,
    pub attrs: Vec<ConfigAttr>,
    pub can_make_item: bool,
    pub can_make_group: bool,
    pub can_link: bool,
}

impl ConfigItemType {
    /// The number of the first attribute with the name, or how many there are.
    pub open spec fn attr_pos(self, name: Seq<char>) -> int {
        attr_pos_in(self.attrs@, name)
    }

    /// The type has an attribute with the name.
    pub open spec fn has_attr(self, name: Seq<char>) -> bool {
        self.attr_pos(name) < self.attrs@.len()
    }

    /// The number of the first attribute with the name.
    fn find_attr(&self, name: &str) -> (r: Option<usize>)
        ensures
            match r {
                Some(i) => self.has_attr(name@) && i == self.attr_pos(name@),
                None => !self.has_attr(name@),
            },
    {
        let mut i: usize = 0;
        proof {
            assert(self.attrs@.skip(0) =~= self.attrs@);
        }
        while i < self.attrs.len()
            invariant
                i <= self.attrs@.len(),
                attr_pos_in(self.attrs@, name@) == i + attr_pos_in(
                    self.attrs@.skip(i as int),
                    name@,
                ),
            decreases self.attrs@.len() - i,
        {
            proof {
                assert(self.attrs@.skip(i as int).skip(1) =~= self.attrs@.skip(i + 1));
            }
            if same_text(self.attrs[i].name.as_str(), name) {
                return Some(i);
            }
            i = i + 1;
        }
        None
    }
}

/// The number of the first of `attrs` with the name, or how many there are.
pub open spec fn attr_pos_in(attrs: Seq<ConfigAttr>, name: Seq<char>) -> int
    decreases attrs.len(),
{
    if attrs.len() == 0 || attrs[0].name@ == name {
        0
    } else {
        1 + attr_pos_in(attrs.skip(1), name)
    }
}

/// An attribute position lies within the attributes or right behind them.
proof fn lemma_attr_pos(attrs: Seq<ConfigAttr>, name: Seq<char>)
    ensures
        0 <= attr_pos_in(attrs, name) <= attrs.len(),
    decreases attrs.len(),
{
    if attrs.len() > 0 && attrs[0].name@ != name {
        lemma_attr_pos(attrs.skip(1), name);
    }
}

/// An object of a type, with the data behind its attributes.
pub struct ConfigItem {
    pub name: String,
    pub item_type: usize,
    pub data: StrMap<String>,
}

impl View for ConfigItem {
    type V = Item;

    open spec fn view(&self) -> Item {
        Item {
            name: self.name@,
            item_type: self.item_type,
            data: self.data@.map_values(|s: String| s@),
        }
    }
}

impl ConfigItem {
    /// The data is a sound map.
    pub open spec fn wf(self) -> bool {
        self.data.wf()
    }

    /// An object of the type with the number, without data.
    pub fn new(name: &str, item_type: usize) -> (r: Self)
        ensures
            r.wf(),
            r@ == (Item { name: name@, item_type, data: Map::empty() }),
    {
        let r = ConfigItem { name: name.to_owned(), item_type, data: StrMap::new() };
        proof {
            assert(r@.data =~= Map::empty());
        }
        r
    }
}

/// What a name in a group stands for.
#[derive(Clone, Copy, PartialEq, Eq, Structural, Debug)]
pub enum ConfigChild {
    Item(usize),
    Group(usize),
}

/// A directory of items and groups.
pub struct ConfigGroup {
    pub item: ConfigItem,
    pub children: StrMap<ConfigChild>,
}

/// A group seen from outside.
#[verifier::ext_equal]
pub struct Group {
    pub item: Item,
    pub children: Map<Seq<char>, ConfigChild>,
}

impl View for ConfigGroup {
    type V = Group;

    open spec fn view(&self) -> Group {
        Group { item: self.item@, children: self.children@ }
    }
}

impl ConfigGroup {
    /// The maps are sound.
    pub open spec fn wf(self) -> bool {
        self.item.wf() && self.children.wf()
    }

    /// An empty group of the type with the number.
    pub fn new(name: &str, item_type: usize) -> (r: Self)
        ensures
            r.wf(),
            r@ == Group::fresh(name@, item_type),
    {
        ConfigGroup { item: ConfigItem::new(name, item_type), children: StrMap::new() }
    }
}

impl Group {
    /// An empty group of the type with the number.
    pub open spec fn fresh(name: Seq<char>, item_type: usize) -> Group {
        Group { item: Item { name, item_type, data: Map::empty() }, children: Map::empty() }
    }
}

/// A tree of directories under its root group.
pub struct ConfigSubsystem {
    pub name: String,
    pub root: usize,
}

impl ConfigSubsystem {
    /// Adds an empty root group of a new type to `fs`. The subsystem is found once it
    /// is registered.
    pub fn new(fs: &mut ConfigFS, name: &str, root_type: ConfigItemType) -> (r: Self)
        requires
            old(fs).wf(),
        ensures
            final(fs).wf(),
            r.name@ == name@,
            r.root == old(fs)@.groups.len(),
            final(fs)@ == (Tree {
                types: old(fs)@.types.push(root_type),
                groups: old(fs)@.groups.push(
                    Group::fresh(name@, old(fs)@.types.len() as usize),
                ),
                ..old(fs)@
            }),
    {
        let t: usize = fs.types.len();
        let root: usize = fs.groups.len();
        fs.types.push(root_type);
        fs.groups.push(ConfigGroup::new(name, t));
        proof {
            assert(fs@.groups =~= old(fs)@.groups.push(Group::fresh(name@, t)));
            assert(fs@.items =~= old(fs)@.items);
            assert forall|g: int| 0 <= g < fs.groups@.len() implies fs.group_ok(g) by {
                if g < root {
                    assert(old(fs).group_ok(g));
                    assert(fs.groups@[g] == old(fs).groups@[g]);
                }
            }
            assert forall|i: int| 0 <= i < fs.items@.len() implies fs.item_ok(i) by {
                assert(old(fs).item_ok(i));
            }
        }
        ConfigSubsystem { name: name.to_owned(), root }
    }
}

/// The whole file system seen from outside.
#[verifier::ext_equal]
pub struct Tree {
    pub types: Seq<ConfigItemType>,
    pub items: Seq<Item>,
    pub groups: Seq<Group>,
    pub subsystems: Map<Seq<char>, usize>,
}

/// What a path leads to, seen from outside.
pub enum Found {
    Group(usize),
    Item(usize),
    Attr(usize, Seq<char>),
}

impl Tree {
    /// What the names lead to from the group on. A name in a group leads to one of its
    /// children; one behind an item names an attribute and ends the path.
    pub open spec fn walk(self, group: usize, parts: Seq<Seq<char>>) -> Result<Found, &'static str>
        decreases parts.len(),
    {
        if parts.len() == 0 {
            Ok(Found::Group(group))
        } else if !self.groups[group as int].children.contains_key(parts[0]) {
            Err("enoent")
        } else {
            match self.groups[group as int].children[parts[0]] {
                ConfigChild::Group(g) => self.walk(g, parts.skip(1)),
                ConfigChild::Item(i) => {
                    if parts.len() == 1 {
                        Ok(Found::Item(i))
                    } else if parts.len() == 2
                        && self.types[self.items[i as int].item_type as int].has_attr(parts[1]) {
                        Ok(Found::Attr(i, parts[1]))
                    } else {
                        Err("enoent")
                    }
                },
            }
        }
    }

    /// What the path leads to.
    pub open spec fn lookup(self, path: Seq<char>) -> Result<Found, &'static str> {
        let parts = crate::text::path_parts(path);
        if parts.len() == 0 || !self.subsystems.contains_key(parts[0]) {
            Err("enoent")
        } else {
            self.walk(self.subsystems[parts[0]], parts.skip(1))
        }
    }

    /// The group that the path leads to.
    pub open spec fn group_at(self, path: Seq<char>) -> Result<usize, &'static str> {
        match self.lookup(path) {
            Ok(Found::Group(g)) => Ok(g),
            Ok(_) => Err("notdir"),
            Err(e) => Err(e),
        }
    }

    /// The tree with `child` under `name` in the group.
    pub open spec fn with_child(self, g: usize, name: Seq<char>, child: ConfigChild) -> Tree {
        let group = self.groups[g as int];
        Tree {
            groups: self.groups.update(
                g as int,
                Group { children: group.children.insert(name, child), ..group },
            ),
            ..self
        }
    }

    /// The outcome of making `name` in the group that the path leads to, and the tree
    /// after it.
    pub open spec fn mkdir(self, path: Seq<char>, name: Seq<char>) -> (
        Result<(), &'static str>,
        Tree,
    ) {
        match self.group_at(path) {
            Err(e) => (Err(e), self),
            Ok(g) => {
                let t = self.groups[g as int].item.item_type;
                if self.types[t as int].can_make_group {
                    let made = self.with_child(
                        g,
                        name,
                        ConfigChild::Group(self.groups.len() as usize),
                    );
                    (Ok(()), Tree { groups: made.groups.push(Group::fresh(name, t)), ..made })
                } else if self.types[t as int].can_make_item {
                    let made = self.with_child(
                        g,
                        name,
                        ConfigChild::Item(self.items.len() as usize),
                    );
                    let item = Item { name, item_type: t, data: Map::empty() };
                    (Ok(()), Tree { items: made.items.push(item), ..made })
                } else {
                    (Err("eperm"), self)
                }
            },
        }
    }

    /// The outcome of taking `name` away from the group that the path leads to, and the
    /// tree after it.
    pub open spec fn rmdir(self, path: Seq<char>, name: Seq<char>) -> (
        Result<(), &'static str>,
        Tree,
    ) {
        match self.group_at(path) {
            Err(e) => (Err(e), self),
            Ok(g) => {
                let group = self.groups[g as int];
                if group.children.contains_key(name) {
                    let less = Group { children: group.children.remove(name), ..group };
                    (Ok(()), Tree { groups: self.groups.update(g as int, less), ..self })
                } else {
                    (Err("enoent"), self)
                }
            },
        }
    }

    /// The bytes that the attribute of the item shows, if its type has that attribute.
    pub open spec fn attr_bytes(self, item: usize, name: Seq<char>) -> Seq<u8> {
        let it = self.items[item as int];
        let t = self.types[it.item_type as int];
        vstd::utf8::encode_utf8(t.attrs@[t.attr_pos(name)].ops.shown(it))
    }

    /// The item's type has the attribute.
    pub open spec fn item_has_attr(self, item: usize, name: Seq<char>) -> bool {
        self.types[self.items[item as int].item_type as int].has_attr(name)
    }

    /// The outcome of writing the bytes to the attribute of the item, and the tree after
    /// it: the bytes are read as text, which is stored without the white space at its
    /// ends.
    pub open spec fn write_attr(self, item: usize, name: Seq<char>, bytes: Seq<u8>) -> (
        Result<usize, &'static str>,
        Tree,
    ) {
        if !vstd::utf8::valid_utf8(bytes) {
            (Err("utf8"), self)
        } else if !self.item_has_attr(item, name) {
            (Err("enoent"), self)
        } else {
            let it = self.items[item as int];
            let t = self.types[it.item_type as int];
            let text = crate::text::trimmed(vstd::utf8::decode_utf8(bytes));
            let (r, data) = t.attrs@[t.attr_pos(name)].ops.stored(it, text);
            let post = Tree {
                items: self.items.update(item as int, Item { data, ..it }),
                ..self
            };
            match r {
                Ok(_) => (Ok(bytes.len() as usize), post),
                Err(e) => (Err(e), post),
            }
        }
    }
}

/// The configuration file system.
pub struct ConfigFS {
    pub types: Vec<ConfigItemType>,
    pub items: Vec<ConfigItem>,
    pub groups: Vec<ConfigGroup>,
    pub subsystems: StrMap<usize>,
}

impl View for ConfigFS {
    type V = Tree;

    open spec fn view(&self) -> Tree {
        Tree {
            types: self.types@,
            items: self.items@.map_values(|i: ConfigItem| i@),
            groups: self.groups@.map_values(|g: ConfigGroup| g@),
            subsystems: self.subsystems@,
        }
    }
}

impl ConfigFS {
    /// The item is sound and has a type.
    pub open spec fn item_ok(self, i: int) -> bool {
        self.items@[i].wf() && self.items@[i].item_type < self.types@.len()
    }

    /// The group is sound and has a type; its children exist, and groups among them
    /// are younger than it is.
    pub open spec fn group_ok(self, g: int) -> bool {
        let group = self.groups@[g];
        &&& group.wf()
        &&& group.item.item_type < self.types@.len()
        &&& forall|k: Seq<char>| #[trigger]
            group.children@.contains_key(k) ==> match group.children@[k] {
                ConfigChild::Item(i) => i < self.items@.len(),
                ConfigChild::Group(c) => g < c < self.groups@.len(),
            }
    }

    /// Everything that is referred to exists, and the groups form trees.
    pub open spec fn wf(self) -> bool {
        &&& self.subsystems.wf()
        &&& forall|i: int| 0 <= i < self.items@.len() ==> #[trigger] self.item_ok(i)
        &&& forall|g: int| 0 <= g < self.groups@.len() ==> #[trigger] self.group_ok(g)
        &&& forall|k: Seq<char>| #[trigger]
            self.subsystems@.contains_key(k) ==> self.subsystems@[k] < self.groups@.len()
    }

    /// An empty file system.
    pub fn new() -> (r: Self)
        ensures
            r.wf(),
            r@ == (Tree {
                types: Seq::empty(),
                items: Seq::empty(),
                groups: Seq::empty(),
                subsystems: Map::empty(),
            }),
    {
        let r = ConfigFS {
            types: Vec::new(),
            items: Vec::new(),
            groups: Vec::new(),
            subsystems: StrMap::new(),
        };
        proof {
            assert(r@.items =~= Seq::empty());
            assert(r@.groups =~= Seq::empty());
        }
        r
    }

    /// Lets the subsystem be found under its name.
    pub fn register_subsystem(&mut self, subsys: ConfigSubsystem)
        requires
            old(self).wf(),
            subsys.root < old(self).groups@.len(),
        ensures
            final(self).wf(),
            final(self)@ == (Tree {
                subsystems: old(self)@.subsystems.insert(subsys.name@, subsys.root),
                ..old(self)@
            }),
    {
        self.subsystems.insert(subsys.name.as_str(), subsys.root);
        proof {
            assert forall|i: int| 0 <= i < self.items@.len() implies self.item_ok(i) by {
                assert(old(self).item_ok(i));
            }
            assert forall|g: int| 0 <= g < self.groups@.len() implies self.group_ok(g) by {
                assert(old(self).group_ok(g));
            }
        }
    }

    /// Finds what the path leads to.
    pub fn lookup(&self, path: &str) -> (r: Result<ConfigLookup, &'static str>)
        requires
            self.wf(),
        ensures
            found_view(r) == self@.lookup(path@),
            match r {
                Ok(ConfigLookup::Group(g)) => g < self.groups@.len(),
                Ok(ConfigLookup::Item(i)) => i < self.items@.len(),
                Ok(ConfigLookup::Attr(i, name)) => i < self.items@.len() && self@.item_has_attr(
                    i,
                    name@,
                ),
                Err(_) => true,
            },
    {
        let parts = split_path(path);
        let ghost names = crate::text::path_parts(path@);
        if parts.len() == 0 {
            return Err("enoent");
        }
        let mut current: usize = match self.subsystems.get(parts[0].as_str()) {
            None => {
                return Err("enoent");
            },
            Some(root) => *root,
        };
        let mut i: usize = 1;
        proof {
            assert(names.skip(1) =~= names.skip(i as int));
        }
        while i < parts.len()
            invariant
                self.wf(),
                1 <= i <= parts@.len(),
                parts@.len() == names.len(),
                forall|k: int| 0 <= k < parts@.len() ==> (#[trigger] parts@[k])@ == names[k],
                current < self.groups@.len(),
                self@.lookup(path@) == self@.walk(current, names.skip(i as int)),
            decreases parts@.len() - i,
        {
            let ghost rest = names.skip(i as int);
            proof {
                assert(self.group_ok(current as int));
                assert(rest[0] == parts@[i as int]@);
                assert(rest.skip(1) =~= names.skip(i + 1));
                assert(self@.groups[current as int] == self.groups@[current as int]@);
            }
            match self.groups[current].children.get(parts[i].as_str()) {
                None => {
                    return Err("enoent");
                },
                Some(ConfigChild::Group(g)) => {
                    current = *g;
                },
                Some(ConfigChild::Item(item)) => {
                    if i + 1 == parts.len() {
                        return Ok(ConfigLookup::Item(*item));
                    }
                    if i + 1 < parts.len() - 1 {
                        return Err("enoent");
                    }
                    proof {
                        assert(self.item_ok(*item as int));
                        assert(self@.items[*item as int] == self.items@[*item as int]@);
                        assert(rest[1] == parts@[i + 1]@);
                        lemma_attr_pos(
                            self.types@[self.items@[*item as int].item_type as int].attrs@,
                            rest[1],
                        );
                    }
                    let t: usize = self.items[*item].item_type;
                    let known = self.types[t].find_attr(parts[i + 1].as_str()).is_some();
                    if known {
                        return Ok(ConfigLookup::Attr(*item, parts[i + 1].clone()));
                    }
                    return Err("enoent");
                },
            }
            i = i + 1;
        }
        Ok(ConfigLookup::Group(current))
    }

    /// Finds the group that the path leads to.
    fn resolve_group(&self, path: &str) -> (r: Result<usize, &'static str>)
        requires
            self.wf(),
        ensures
            r == self@.group_at(path@),
            r is Ok ==> r->Ok_0 < self.groups@.len(),
    {
        match self.lookup(path) {
            Ok(ConfigLookup::Group(g)) => Ok(g),
            Ok(_) => Err("notdir"),
            Err(e) => Err(e),
        }
    }

    /// Makes `name` in the group that the path leads to: a group if the type of the
    /// group allows that, an item if it allows that, and else nothing.
    pub fn mkdir(&mut self, path: &str, name: &str) -> (r: Result<(), &'static str>)
        requires
            old(self).wf(),
        ensures
            final(self).wf(),
            (r, final(self)@) == old(self)@.mkdir(path@, name@),
    {
        let g: usize = match self.resolve_group(path) {
            Ok(g) => g,
            Err(e) => {
                return Err(e);
            },
        };
        proof {
            assert(self.group_ok(g as int));
            assert(self@.groups[g as int] == self.groups@[g as int]@);
        }
        let t: usize = self.groups[g].item.item_type;
        if self.types[t].can_make_group {
            let n: usize = self.groups.len();
            self.groups[g].children.insert(name, ConfigChild::Group(n));
            self.groups.push(ConfigGroup::new(name, t));
            proof {
                let want = old(self)@.mkdir(path@, name@).1;
                assert(self@.groups =~= want.groups);
                assert(self@.items =~= want.items);
                self.lemma_grown(*old(self), g as int);
            }
            Ok(())
        } else if self.types[t].can_make_item {
            let n: usize = self.items.len();
            self.groups[g].children.insert(name, ConfigChild::Item(n));
            self.items.push(ConfigItem::new(name, t));
            proof {
                let want = old(self)@.mkdir(path@, name@).1;
                assert(self@.groups =~= want.groups);
                assert(self@.items =~= want.items);
                self.lemma_grown(*old(self), g as int);
            }
            Ok(())
        } else {
            Err("eperm")
        }
    }

    /// A file system that grew by sound parts is sound.
    proof fn lemma_grown(self, pre: ConfigFS, changed: int)
        requires
            pre.wf(),
            0 <= changed < pre.groups@.len(),
            self.types@ == pre.types@,
            self.subsystems == pre.subsystems,
            self.items@.len() >= pre.items@.len(),
            self.groups@.len() >= pre.groups@.len(),
            forall|i: int| 0 <= i < pre.items@.len() ==> self.items@[i] == pre.items@[i],
            forall|i: int| pre.items@.len() <= i < self.items@.len() ==> self.item_ok(i),
            forall|g: int|
                0 <= g < pre.groups@.len() && g != changed ==> self.groups@[g] == pre.groups@[g],
            forall|g: int| pre.groups@.len() <= g < self.groups@.len() ==> self.group_ok(g),
            self.group_ok(changed),
        ensures
            self.wf(),
    {
        assert forall|i: int| 0 <= i < self.items@.len() implies self.item_ok(i) by {
            if i < pre.items@.len() {
                assert(pre.item_ok(i));
            }
        }
        assert forall|g: int| 0 <= g < self.groups@.len() implies self.group_ok(g) by {
            if g < pre.groups@.len() && g != changed {
                assert(pre.group_ok(g));
            }
        }
    }

    /// Takes `name` away from the group that the path leads to.
    pub fn rmdir(&mut self, path: &str, name: &str) -> (r: Result<(), &'static str>)
        requires
            old(self).wf(),
        ensures
            final(self).wf(),
            (r, final(self)@) == old(self)@.rmdir(path@, name@),
    {
        let g: usize = match self.resolve_group(path) {
            Ok(g) => g,
            Err(e) => {
                return Err(e);
            },
        };
        proof {
            assert(self.group_ok(g as int));
            assert(self@.groups[g as int] == self.groups@[g as int]@);
        }
        let gone = self.groups[g].children.remove(name);
        proof {
            let want = old(self)@.rmdir(path@, name@).1;
            if gone {
                assert(self@.groups =~= want.groups);
                self.lemma_grown(*old(self), g as int);
            } else {
                assert(self.groups@ =~= old(self).groups@);
                assert(self@.groups =~= old(self)@.groups);
                self.lemma_grown(*old(self), g as int);
            }
        }
        if gone {
            Ok(())
        } else {
            Err("enoent")
        }
    }

    /// Puts a value under a key of the item's data.
    pub fn set_data(&mut self, item: usize, key: &str, value: &str)
        requires
            old(self).wf(),
            item < old(self).items@.len(),
        ensures
            final(self).wf(),
            final(self)@ == (Tree {
                items: old(self)@.items.update(
                    item as int,
                    Item {
                        data: old(self)@.items[item as int].data.insert(key@, value@),
                        ..old(self)@.items[item as int]
                    },
                ),
                ..old(self)@
            }),
    {
        proof {
            assert(self.item_ok(item as int));
        }
        self.items[item].data.insert(key, value.to_owned());
        proof {
            let it = old(self).items@[item as int]@;
            assert(self.items@[item as int]@.data =~= it.data.insert(key@, value@));
            assert(self@.items =~= old(self)@.items.update(
                item as int,
                Item { data: it.data.insert(key@, value@), ..it },
            ));
            self.lemma_item_changed(*old(self), item as int);
        }
    }

    /// A file system in which one item changed and stayed sound is sound.
    proof fn lemma_item_changed(self, pre: ConfigFS, item: int)
        requires
            pre.wf(),
            0 <= item < pre.items@.len(),
            self.types@ == pre.types@,
            self.subsystems == pre.subsystems,
            self.groups@ == pre.groups@,
            self.items@.len() == pre.items@.len(),
            forall|i: int|
                0 <= i < pre.items@.len() && i != item ==> self.items@[i] == pre.items@[i],
            self.item_ok(item),
        ensures
            self.wf(),
    {
        assert forall|i: int| 0 <= i < self.items@.len() implies self.item_ok(i) by {
            if i != item {
                assert(pre.item_ok(i));
            }
        }
        assert forall|g: int| 0 <= g < self.groups@.len() implies self.group_ok(g) by {
            assert(pre.group_ok(g));
        }
    }
}

/// What a path leads to.
pub enum ConfigLookup {
    Group(usize),
    Item(usize),
    Attr(usize, String),
}

/// The outcome of a lookup seen from outside.
pub open spec fn found_view(r: Result<ConfigLookup, &'static str>) -> Result<Found, &'static str> {
    match r {
        Ok(ConfigLookup::Group(g)) => Ok(Found::Group(g)),
        Ok(ConfigLookup::Item(i)) => Ok(Found::Item(i)),
        Ok(ConfigLookup::Attr(i, name)) => Ok(Found::Attr(i, name@)),
        Err(e) => Err(e),
    }
}

/// An open attribute with a read position.
pub struct ConfigNode {
    pub item: usize,
    pub attr_name: String,
    pub offset: usize,
}

impl ConfigNode {
    /// An open attribute, read from its start.
    pub fn new(item: usize, attr_name: &str) -> (r: Self)
        ensures
            r.item == item,
            r.attr_name@ == attr_name@,
            r.offset == 0,
    {
        ConfigNode { item, attr_name: attr_name.to_owned(), offset: 0 }
    }

    /// Reads on from the position: what the attribute shows now, as far as it fits in
    /// `buf`. Nothing is left when the position is at its end or beyond.
    pub fn read(&mut self, fs: &ConfigFS, buf: &mut [u8]) -> (r: Result<usize, &'static str>)
        requires
            fs.wf(),
            old(self).item < fs.items@.len(),
        ensures
            final(self).item == old(self).item,
            final(self).attr_name == old(self).attr_name,
            !fs@.item_has_attr(old(self).item, old(self).attr_name@) ==> r == Err::<
                usize,
                &'static str,
            >("enoent") && final(self).offset == old(self).offset && final(buf)@ == old(buf)@,
            fs@.item_has_attr(old(self).item, old(self).attr_name@) ==> {
                let out = crate::bytes::read_slice(
                    fs@.attr_bytes(old(self).item, old(self).attr_name@),
                    old(self).offset as int,
                    old(buf)@.len() as int,
                );
                &&& r == Ok::<usize, &'static str>(out.len() as usize)
                &&& out.len() <= old(buf)@.len()
                &&& final(buf)@ == out + old(buf)@.skip(out.len() as int)
                &&& final(self).offset == old(self).offset + out.len()
            },
    {
        proof {
            assert(fs.item_ok(self.item as int));
            assert(fs@.items[self.item as int] == fs.items@[self.item as int]@);
        }
        let t: usize = fs.items[self.item].item_type;
        match fs.types[t].find_attr(self.attr_name.as_str()) {
            None => Err("enoent"),
            Some(a) => {
                proof {
                    lemma_attr_pos(fs.types@[t as int].attrs@, self.attr_name@);
                }
                let content = fs.types[t].attrs[a].ops.show(&fs.items[self.item]);
                let bytes = content.as_str().as_bytes();
                let n: usize = copy_out(bytes, self.offset, buf);
                if n > 0 {
                    self.offset = self.offset + n;
                }
                Ok(n)
            },
        }
    }

    /// Stores the bytes, read as text without the white space at its ends. The read
    /// position stays.
    pub fn write(&mut self, fs: &mut ConfigFS, buf: &[u8]) -> (r: Result<usize, &'static str>)
        requires
            old(fs).wf(),
            old(self).item < old(fs).items@.len(),
        ensures
            final(fs).wf(),
            *final(self) == *old(self),
            (r, final(fs)@) == old(fs)@.write_attr(old(self).item, old(self).attr_name@, buf@),
    {
        fs.write_attr(self.item, self.attr_name.as_str(), buf)
    }

    /// An attribute can always be read and written.
    pub fn poll(&self) -> (r: (bool, bool, bool))
        ensures
            r == (true, true, false),
    {
        (true, true, false)
    }
}

impl ConfigFS {
    /// Writes the bytes to the attribute of the item.
    fn write_attr(&mut self, item: usize, name: &str, buf: &[u8]) -> (r: Result<
        usize,
        &'static str,
    >)
        requires
            old(self).wf(),
            item < old(self).items@.len(),
        ensures
            final(self).wf(),
            (r, final(self)@) == old(self)@.write_attr(item, name@, buf@),
    {
        let text = match text_of_bytes(buf) {
            None => {
                return Err("utf8");
            },
            Some(s) => trim(s),
        };
        proof {
            assert(self.item_ok(item as int));
            assert(self@.items[item as int] == self.items@[item as int]@);
        }
        let t: usize = self.items[item].item_type;
        match self.types[t].find_attr(name) {
            None => Err("enoent"),
            Some(a) => {
                proof {
                    lemma_attr_pos(self.types@[t as int].attrs@, name@);
                }
                let r = self.types[t].attrs[a].ops.store(&mut self.items[item], text.as_str());
                proof {
                    let it = old(self).items@[item as int]@;
                    let post = self.items@[item as int]@;
                    assert(post =~= Item { data: post.data, ..it });
                    assert(self@.items =~= old(self)@.items.update(item as int, post));
                    self.lemma_item_changed(*old(self), item as int);
                }
                match r {
                    Ok(_) => Ok(buf.len()),
                    Err(e) => Err(e),
                }
            },
        }
    }
}

/// A path into a group leads down to younger groups.
proof fn lemma_walk_descends(fs: ConfigFS, from: usize, parts: Seq<Seq<char>>, to: usize)
    requires
        fs.wf(),
        from < fs.groups@.len(),
        fs@.walk(from, parts) == Ok::<Found, &'static str>(Found::Group(to)),
    ensures
        from <= to < fs.groups@.len(),
        parts.len() > 0 ==> from < to,
    decreases parts.len(),
{
    if parts.len() > 0 {
        assert(fs.group_ok(from as int));
        assert(fs@.groups[from as int] == fs.groups@[from as int]@);
        match fs@.groups[from as int].children[parts[0]] {
            ConfigChild::Group(c) => {
                lemma_walk_descends(fs, c, parts.skip(1), to);
            },
            ConfigChild::Item(i) => {},
        }
    }
}

/// A tree that has the same groups above `to` leads there by the same path, and on from
/// there.
proof fn lemma_walk_extends(
    fs: ConfigFS,
    post: Tree,
    from: usize,
    parts: Seq<Seq<char>>,
    to: usize,
    more: Seq<Seq<char>>,
)
    requires
        fs.wf(),
        from < fs.groups@.len(),
        fs@.walk(from, parts) == Ok::<Found, &'static str>(Found::Group(to)),
        forall|g: int| 0 <= g < to ==> #[trigger] post.groups[g] == fs@.groups[g],
    ensures
        post.walk(from, parts + more) == post.walk(to, more),
    decreases parts.len(),
{
    if parts.len() == 0 {
        assert(parts + more =~= more);
    } else {
        lemma_walk_descends(fs, from, parts, to);
        assert(fs.group_ok(from as int));
        assert(fs@.groups[from as int] == fs.groups@[from as int]@);
        match fs@.groups[from as int].children[parts[0]] {
            ConfigChild::Group(c) => {
                lemma_walk_extends(fs, post, c, parts.skip(1), to, more);
                assert((parts + more).skip(1) =~= parts.skip(1) + more);
                assert((parts + more)[0] == parts[0]);
            },
            ConfigChild::Item(i) => {},
        }
    }
}

/// What was made is found under its name, and its attributes under theirs.
pub proof fn law_mkdir_then_lookup(fs: ConfigFS, path: Seq<char>, name: Seq<char>)
    requires
        fs.wf(),
        fs.items@.len() <= usize::MAX,
        fs@.mkdir(path, name).0 is Ok,
        name.len() > 0,
        forall|i: int| 0 <= i < name.len() ==> name[i] != '/',
    ensures
        ({
            let post = fs@.mkdir(path, name).1;
            let made = path.push('/') + name;
            let t = fs@.types[fs@.groups[fs@.group_at(path)->Ok_0 as int].item.item_type as int];
            if t.can_make_group {
                post.lookup(made) == Ok::<Found, &'static str>(
                    Found::Group(fs@.groups.len() as usize),
                )
            } else {
                &&& post.lookup(made) == Ok::<Found, &'static str>(
                    Found::Item(fs@.items.len() as usize),
                )
                &&& forall|a: Seq<char>|
                    a.len() > 0 && (forall|i: int|
                        0 <= i < a.len() ==> a[i] != '/') && t.has_attr(a)
                        ==> #[trigger] post.lookup(made.push('/') + a) == Ok::<
                        Found,
                        &'static str,
                    >(Found::Attr(fs@.items.len() as usize, a))
            }
        }),
{
    let post = fs@.mkdir(path, name).1;
    let made = path.push('/') + name;
    let parts = crate::text::path_parts(path);
    let root = fs@.subsystems[parts[0]];
    let g = fs@.group_at(path)->Ok_0;
    let t = fs@.types[fs@.groups[g as int].item.item_type as int];
    crate::text::law_join_adds_a_part(path, name);
    lemma_walk_descends(fs, root, parts.skip(1), g);
    lemma_walk_extends(fs, post, root, parts.skip(1), g, seq![name]);
    assert(parts.push(name).skip(1) =~= parts.skip(1) + seq![name]);
    assert(parts.push(name)[0] == parts[0]);
    assert(post.groups[g as int].children.contains_key(name));
    assert(seq![name].skip(1).len() == 0);
    assert(post.lookup(made) == post.walk(root, parts.push(name).skip(1)));
    if t.can_make_group {
        assert(post.groups[g as int].children[name] == ConfigChild::Group(
            fs@.groups.len() as usize,
        ));
        assert(post.walk(g, seq![name]) == post.walk(
            fs@.groups.len() as usize,
            seq![name].skip(1),
        ));
    } else {
        assert(post.groups[g as int].children[name] == ConfigChild::Item(
            fs@.items.len() as usize,
        ));
        assert(post.walk(g, seq![name]) == Ok::<Found, &'static str>(
            Found::Item(fs@.items.len() as usize),
        ));
    }
    if !t.can_make_group {
        assert forall|a: Seq<char>|
            a.len() > 0 && (forall|i: int|
                0 <= i < a.len() ==> a[i] != '/') && t.has_attr(a) implies #[trigger] post.lookup(
            made.push('/') + a,
        ) == Ok::<Found, &'static str>(Found::Attr(fs@.items.len() as usize, a)) by {
            crate::text::law_join_adds_a_part(made, a);
            lemma_walk_extends(fs, post, root, parts.skip(1), g, seq![name, a]);
            assert(parts.push(name).push(a).skip(1) =~= parts.skip(1) + seq![name, a]);
            assert(parts.push(name).push(a)[0] == parts[0]);
        }
    }
}

/// What was taken away is found no more, nor anything under it.
pub proof fn law_rmdir_then_lookup(
    fs: ConfigFS,
    path: Seq<char>,
    name: Seq<char>,
    under: Seq<char>,
)
    requires
        fs.wf(),
        fs@.rmdir(path, name).0 is Ok,
        crate::text::path_parts(under).len() > crate::text::path_parts(path).len(),
        crate::text::path_parts(under).take(crate::text::path_parts(path).len() as int + 1)
            == crate::text::path_parts(path).push(name),
    ensures
        fs@.rmdir(path, name).1.lookup(under) == Err::<Found, &'static str>("enoent"),
{
    let post = fs@.rmdir(path, name).1;
    let parts = crate::text::path_parts(path);
    let all = crate::text::path_parts(under);
    let more = all.skip(parts.len() as int);
    let root = fs@.subsystems[parts[0]];
    let g = fs@.group_at(path)->Ok_0;
    assert(all =~= parts + more) by {
        assert forall|i: int| 0 <= i < parts.len() implies all[i] == parts[i] by {
            assert(all.take(parts.len() as int + 1)[i] == parts.push(name)[i]);
        }
    }
    assert(more[0] == name) by {
        assert(all.take(parts.len() as int + 1)[parts.len() as int] == parts.push(
            name,
        )[parts.len() as int]);
    }
    lemma_walk_descends(fs, root, parts.skip(1), g);
    lemma_walk_extends(fs, post, root, parts.skip(1), g, more);
    assert(all.skip(1) =~= parts.skip(1) + more);
}

/// Making or taking away touches no item: an attribute that is open shows what it
/// showed.
pub proof fn law_open_attribute_outlives_its_directory(
    fs: ConfigFS,
    path: Seq<char>,
    name: Seq<char>,
    item: usize,
    attr: Seq<char>,
)
    requires
        fs.wf(),
        item < fs.items@.len(),
    ensures
        fs@.rmdir(path, name).1.attr_bytes(item, attr) == fs@.attr_bytes(item, attr),
        fs@.mkdir(path, name).1.attr_bytes(item, attr) == fs@.attr_bytes(item, attr),
{
}

/// The attribute of a name is the first one that has it; there is none where no attribute
/// does.
pub proof fn law_attribute_goes_by_its_name(t: ConfigItemType, name: Seq<char>)
    ensures
        t.has_attr(name) <==> exists|i: int|
            0 <= i < t.attrs@.len() && (#[trigger] t.attrs@[i]).name@ == name,
        t.has_attr(name) ==> t.attrs@[t.attr_pos(name)].name@ == name,
        forall|i: int| 0 <= i < t.attr_pos(name) ==> (#[trigger] t.attrs@[i]).name@ != name,
        t.attr_pos(name) >= 0,
{
    lemma_attr_first(t.attrs@, name);
}

/// An attribute position is the first place that has the name.
proof fn lemma_attr_first(attrs: Seq<ConfigAttr>, name: Seq<char>)
    ensures
        0 <= attr_pos_in(attrs, name) <= attrs.len(),
        attr_pos_in(attrs, name) < attrs.len() ==> attrs[attr_pos_in(attrs, name)].name@ == name,
        forall|i: int| 0 <= i < attr_pos_in(attrs, name) ==> (#[trigger] attrs[i]).name@ != name,
    decreases attrs.len(),
{
    if attrs.len() > 0 && attrs[0].name@ != name {
        lemma_attr_first(attrs.skip(1), name);
        assert forall|i: int| 0 <= i < attr_pos_in(attrs, name) implies (#[trigger] attrs[i]).name@
            != name by {
            if i > 0 {
                assert(attrs.skip(1)[i - 1] == attrs[i]);
            }
        }
    }
}

/// A path of one part names the root of a subsystem; a path of none, or of a subsystem that
/// there is not, names nothing.
pub proof fn law_path_starts_at_a_subsystem(t: Tree, path: Seq<char>)
    ensures
        ({
            let parts = crate::text::path_parts(path);
            &&& parts.len() == 0 ==> t.lookup(path) == Err::<Found, &'static str>("enoent")
            &&& parts.len() > 0 && !t.subsystems.contains_key(parts[0]) ==> t.lookup(path) == Err::<
                Found,
                &'static str,
            >("enoent")
            &&& parts.len() == 1 && t.subsystems.contains_key(parts[0]) ==> t.lookup(path) == Ok::<
                Found,
                &'static str,
            >(Found::Group(t.subsystems[parts[0]]))
        }),
{
}

/// A path goes on from a group to its child of the next name. It ends at an item, or at an
/// attribute of that item, and goes no further.
pub proof fn law_path_goes_from_child_to_child(t: Tree, g: usize, parts: Seq<Seq<char>>)
    requires
        parts.len() > 0,
    ensures
        !t.groups[g as int].children.contains_key(parts[0]) ==> t.walk(g, parts) == Err::<
            Found,
            &'static str,
        >("enoent"),
        t.groups[g as int].children.contains_key(parts[0]) ==> match t.groups[g as int].children[parts[0]] {
            ConfigChild::Group(c) => {
                &&& parts.len() == 1 ==> t.walk(g, parts) == Ok::<Found, &'static str>(
                    Found::Group(c),
                )
                &&& t.walk(g, parts) == t.walk(c, parts.skip(1))
            },
            ConfigChild::Item(i) => {
                let known = parts.len() == 2 && exists|a: int|
                    0 <= a < t.types[t.items[i as int].item_type as int].attrs@.len() && (
                    #[trigger] t.types[t.items[i as int].item_type as int].attrs@[a]).name@
                        == parts[1];
                &&& parts.len() == 1 ==> t.walk(g, parts) == Ok::<Found, &'static str>(
                    Found::Item(i),
                )
                &&& known ==> t.walk(g, parts) == Ok::<Found, &'static str>(
                    Found::Attr(i, parts[1]),
                )
                &&& parts.len() > 1 && !known ==> t.walk(g, parts) == Err::<Found, &'static str>(
                    "enoent",
                )
            },
        },
{
    reveal_with_fuel(Tree::walk, 2);
    if t.groups[g as int].children.contains_key(parts[0]) {
        if let ConfigChild::Item(i) = t.groups[g as int].children[parts[0]] {
            if parts.len() > 1 {
                law_attribute_goes_by_its_name(
                    t.types[t.items[i as int].item_type as int],
                    parts[1],
                );
            }
        }
    }
}

/// A directory is made as a group where the type of the group it is made in can make groups,
/// else as an item where it can make items; what is made is empty, has the name and that
/// type, and takes the name in that group alone.
pub proof fn law_directory_is_made_in_its_group(t: Tree, path: Seq<char>, name: Seq<char>, g: usize)
    requires
        t.lookup(path) == Ok::<Found, &'static str>(Found::Group(g)),
        g < t.groups.len() <= usize::MAX,
        t.items.len() <= usize::MAX,
    ensures
        ({
            let ty = t.groups[g as int].item.item_type;
            let (r, post) = t.mkdir(path, name);
            &&& r is Ok <==> t.types[ty as int].can_make_group || t.types[ty as int].can_make_item
            &&& r is Err ==> r == Err::<(), &'static str>("eperm") && post == t
            &&& post.types == t.types && post.subsystems == t.subsystems
            &&& r is Ok ==> {
                &&& post.groups[g as int].children.contains_key(name)
                &&& post.groups[g as int].item == t.groups[g as int].item
                &&& forall|other: Seq<char>|
                    other != name ==> (#[trigger] post.groups[g as int].children.contains_key(other)
                        <==> t.groups[g as int].children.contains_key(other))
                &&& forall|other: Seq<char>|
                    other != name && t.groups[g as int].children.contains_key(other)
                        ==> #[trigger] post.groups[g as int].children[other]
                        == t.groups[g as int].children[other]
                &&& forall|x: int|
                    0 <= x < t.groups.len() && x != g ==> #[trigger] post.groups[x] == t.groups[x]
                &&& forall|x: int| 0 <= x < t.items.len() ==> #[trigger] post.items[x] == t.items[x]
                &&& if t.types[ty as int].can_make_group {
                    &&& post.groups[g as int].children[name] == ConfigChild::Group(
                        t.groups.len() as usize,
                    )
                    &&& post.groups.len() == t.groups.len() + 1
                    &&& post.items.len() == t.items.len()
                    &&& post.groups.last().item.name == name
                    &&& post.groups.last().item.item_type == ty
                    &&& post.groups.last().item.data == Map::<Seq<char>, Seq<char>>::empty()
                    &&& post.groups.last().children == Map::<Seq<char>, ConfigChild>::empty()
                } else {
                    &&& post.groups[g as int].children[name] == ConfigChild::Item(
                        t.items.len() as usize,
                    )
                    &&& post.items.len() == t.items.len() + 1
                    &&& post.groups.len() == t.groups.len()
                    &&& post.items.last().name == name
                    &&& post.items.last().item_type == ty
                    &&& post.items.last().data == Map::<Seq<char>, Seq<char>>::empty()
                }
            }
        }),
{
}

/// A directory is removed from its group alone: the other names, groups and items stay.
pub proof fn law_directory_is_removed_from_its_group(
    t: Tree,
    path: Seq<char>,
    name: Seq<char>,
    g: usize,
)
    requires
        t.lookup(path) == Ok::<Found, &'static str>(Found::Group(g)),
        g < t.groups.len(),
    ensures
        ({
            let (r, post) = t.rmdir(path, name);
            &&& r is Ok <==> t.groups[g as int].children.contains_key(name)
            &&& r is Err ==> r == Err::<(), &'static str>("enoent") && post == t
            &&& !post.groups[g as int].children.contains_key(name)
            &&& post.groups[g as int].item == t.groups[g as int].item
            &&& forall|other: Seq<char>|
                other != name ==> (#[trigger] post.groups[g as int].children.contains_key(other)
                    <==> t.groups[g as int].children.contains_key(other))
            &&& forall|other: Seq<char>|
                other != name && t.groups[g as int].children.contains_key(other)
                    ==> #[trigger] post.groups[g as int].children[other]
                    == t.groups[g as int].children[other]
            &&& post.groups.len() == t.groups.len()
            &&& forall|x: int|
                0 <= x < t.groups.len() && x != g ==> #[trigger] post.groups[x] == t.groups[x]
            &&& post.items == t.items && post.types == t.types && post.subsystems == t.subsystems
        }),
{
}

/// Directories are made and removed in groups only.
pub proof fn law_directories_lie_in_groups(t: Tree, path: Seq<char>, name: Seq<char>)
    ensures
        match t.lookup(path) {
            Ok(Found::Group(_)) => true,
            Ok(_) => t.mkdir(path, name) == (Err::<(), &'static str>("notdir"), t) && t.rmdir(
                path,
                name,
            ) == (Err::<(), &'static str>("notdir"), t),
            Err(e) => t.mkdir(path, name) == (Err::<(), &'static str>(e), t) && t.rmdir(path, name)
                == (Err::<(), &'static str>(e), t),
        },
{
}

/// A write to an attribute stores the trimmed text in the item and in nothing else, and a
/// write that is stored took every byte. A text that is no text, or an attribute that there
/// is not, changes nothing.
pub proof fn law_attribute_takes_trimmed_text(
    t: Tree,
    item: usize,
    name: Seq<char>,
    bytes: Seq<u8>,
    i: int,
)
    requires
        item < t.items.len(),
        0 <= i < t.types[t.items[item as int].item_type as int].attrs@.len(),
        t.types[t.items[item as int].item_type as int].attrs@[i].name@ == name,
        forall|j: int|
            0 <= j < i ==> (#[trigger] t.types[t.items[item as int].item_type as int].attrs@[j]).name@
                != name,
        bytes.len() <= usize::MAX,
    ensures
        ({
            let ops = t.types[t.items[item as int].item_type as int].attrs@[i].ops;
            let (r, post) = t.write_attr(item, name, bytes);
            let (said, data) = ops.stored(
                t.items[item as int],
                crate::text::trimmed(vstd::utf8::decode_utf8(bytes)),
            );
            &&& !vstd::utf8::valid_utf8(bytes) ==> r == Err::<usize, &'static str>("utf8") && post
                == t
            &&& vstd::utf8::valid_utf8(bytes) ==> {
                &&& said is Ok ==> r is Ok && r->Ok_0 == bytes.len()
                &&& said is Err ==> r is Err && r->Err_0 == said->Err_0
                &&& post.items[item as int].data == data
                &&& post.items[item as int].name == t.items[item as int].name
                &&& post.items[item as int].item_type == t.items[item as int].item_type
            }
            &&& post.items.len() == t.items.len()
            &&& forall|x: int|
                0 <= x < t.items.len() && x != item ==> #[trigger] post.items[x] == t.items[x]
            &&& post.groups == t.groups && post.types == t.types && post.subsystems == t.subsystems
            &&& t.attr_bytes(item, name) == vstd::utf8::encode_utf8(
                ops.shown(t.items[item as int]),
            )
        }),
{
    let ty = t.types[t.items[item as int].item_type as int];
    law_attribute_goes_by_its_name(ty, name);
    assert(ty.attrs@[i].name@ == name);
    assert(ty.has_attr(name));
    assert(ty.attr_pos(name) == i);
}

/// An attribute that the item's type does not have is not written.
pub proof fn law_unknown_attribute_is_refused(
    t: Tree,
    item: usize,
    name: Seq<char>,
    bytes: Seq<u8>,
)
    requires
        vstd::utf8::valid_utf8(bytes),
        forall|j: int|
            0 <= j < t.types[t.items[item as int].item_type as int].attrs@.len() ==> (
            #[trigger] t.types[t.items[item as int].item_type as int].attrs@[j]).name@ != name,
    ensures
        t.write_attr(item, name, bytes) == (Err::<usize, &'static str>("enoent"), t),
        !t.item_has_attr(item, name),
{
    law_attribute_goes_by_its_name(t.types[t.items[item as int].item_type as int], name);
}

} // verus!
