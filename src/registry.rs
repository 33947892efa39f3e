//! What a class installs, collected before the class becomes visible: named
//! attribute installers and slot writes in priority order, property
//! descriptors (getter, setter, deleter) and member descriptors.

use vstd::prelude::*;
use vstd::string::{StrSliceExecFns, StringExecFns};

verus! {

/// Why an entry was refused, or what validation found.
#[derive(Debug, PartialEq, Eq)]
pub enum RegistryError {
    /// An entry with the same name and the same guard is already there.
    Duplicate(ItemName),
    /// The accessor of this kind is already given for the property.
    DuplicateAccessor(String),
    /// Only a getter may carry a guard.
    GuardedAccessor(String),
    /// A property or member with a setter or deleter but no getter.
    MissingGetter(String),
    /// A setter or deleter named neither explicitly nor `set_*` / `del_*`.
    NoAccessorPrefix(String),
    /// A setter or deleter named just `set_` or `del_`.
    EmptyAccessorName(String),
    /// A struct-sequence class names a base of its own; its base is the tuple.
    StructSequenceBase(String),
}

/// The operations that a class answers through its slot table.
#[derive(Clone, Copy, Debug, PartialEq, Eq, Structural)]
pub enum SlotId {
    New,
    Init,
    Del,
    Repr,
    Str,
    Hash,
    Call,
    GetAttro,
    SetAttro,
    RichCompare,
    Iter,
    IterNext,
    DescrGet,
    DescrSet,
    AsBuffer,
    AsNumber,
    AsSequence,
    AsMapping,
}

/// How a slot is written during class setup.
#[derive(Clone, Copy, Debug, PartialEq, Eq, Structural)]
pub enum SlotDiscipline {
    /// A single function, stored atomically.
    Atomic,
    /// A pointer to a whole table of related operations, published with
    /// release ordering.
    PointerTable,
    /// A plain write: the buffer slot is always set before the class is seen.
    Plain,
}

pub open spec fn slot_discipline_spec(s: SlotId) -> SlotDiscipline {
    match s {
        SlotId::AsBuffer => SlotDiscipline::Plain,
        SlotId::AsNumber | SlotId::AsSequence | SlotId::AsMapping => SlotDiscipline::PointerTable,
        _ => SlotDiscipline::Atomic,
    }
}

/// How slot `s` is written.
pub fn slot_discipline(s: SlotId) -> (r: SlotDiscipline)
    ensures
        r == slot_discipline_spec(s),
{
    match s {
        SlotId::AsBuffer => SlotDiscipline::Plain,
        SlotId::AsNumber | SlotId::AsSequence | SlotId::AsMapping => SlotDiscipline::PointerTable,
        _ => SlotDiscipline::Atomic,
    }
}

/// What an installer is known by: an attribute name, or a slot.
#[derive(Debug, PartialEq, Eq)]
pub enum ItemName {
    Attr(String),
    Slot(SlotId),
}

/// One installer: its name, the guard it is compiled under (empty when
/// unconditional), what it runs, and its priority (lower runs first).
#[derive(Debug)]
pub struct NurseryItem {
    pub name: ItemName,
    pub guard: Vec<String>,
    pub code: String,
    pub priority: u8,
}

/// The texts of a guard.
pub open spec fn guard_view(g: Seq<String>) -> Seq<Seq<char>> {
    g.map_values(|s: String| s@)
}

pub open spec fn same_name(a: ItemName, b: ItemName) -> bool {
    match (a, b) {
        (ItemName::Attr(x), ItemName::Attr(y)) => x@ == y@,
        (ItemName::Slot(x), ItemName::Slot(y)) => x == y,
        _ => false,
    }
}

/// Two installers clash when they share name and guard.
pub open spec fn same_key(a: NurseryItem, b: NurseryItem) -> bool {
    same_name(a.name, b.name) && guard_view(a.guard@) == guard_view(b.guard@)
}

fn names_equal(a: &ItemName, b: &ItemName) -> (r: bool)
    ensures
        r == same_name(*a, *b),
{
    match (a, b) {
        (ItemName::Attr(x), ItemName::Attr(y)) => *x == *y,
        (ItemName::Slot(x), ItemName::Slot(y)) => *x == *y,
        _ => false,
    }
}

/// The two guards hold the same texts in the same order.
pub fn guards_equal(a: &Vec<String>, b: &Vec<String>) -> (r: bool)
    ensures
        r == (guard_view(a@) == guard_view(b@)),
{
    if a.len() != b.len() {
        proof {
            assert(guard_view(a@).len() != guard_view(b@).len());
        }
        return false;
    }
    let mut i: usize = 0;
    while i < a.len()
        invariant
            a@.len() == b@.len(),
            i <= a@.len(),
            forall|j: int| 0 <= j < i ==> a@[j]@ == b@[j]@,
        decreases a@.len() - i,
    {
        if a[i] != b[i] {
            proof {
                assert(guard_view(a@)[i as int] != guard_view(b@)[i as int]);
            }
            return false;
        }
        i = i + 1;
    }
    proof {
        assert(guard_view(a@) =~= guard_view(b@));
    }
    true
}

/// The installers of one priority, in the order they were added.
pub open spec fn with_priority(items: Seq<NurseryItem>, p: int) -> Seq<NurseryItem>
    decreases items.len(),
{
    if items.len() == 0 {
        Seq::empty()
    } else {
        let r = with_priority(items.drop_last(), p);
        if items.last().priority == p { r.push(items.last()) } else { r }
    }
}

/// The installers of priorities below `p`: by priority, then in the order
/// they were added.
pub open spec fn ordered_below(items: Seq<NurseryItem>, p: int) -> Seq<NurseryItem>
    decreases p,
{
    if p <= 0 { Seq::empty() } else { ordered_below(items, p - 1) + with_priority(items, p - 1) }
}

/// Every installer in the order they run.
pub open spec fn install_order(items: Seq<NurseryItem>) -> Seq<NurseryItem> {
    ordered_below(items, 256)
}

/// Installers keyed by name and guard, replayed by priority.
#[derive(Debug)]
pub struct ItemNursery {
    items: Vec<NurseryItem>,
}

impl View for ItemNursery {
    type V = Seq<NurseryItem>;

    closed spec fn view(&self) -> Seq<NurseryItem> {
        self.items@
    }
}

impl ItemNursery {
    /// No two installers share name and guard.
    pub open spec fn wf(&self) -> bool {
        forall|i: int, j: int| 0 <= i < j < self@.len() ==> !same_key(#[trigger] self@[i], #[trigger] self@[j])
    }

    pub fn new() -> (r: ItemNursery)
        ensures
            r.wf(),
            r@.len() == 0,
    {
        ItemNursery { items: Vec::new() }
    }

    /// Adds an installer; refused when one with the same name and guard is
    /// already there.
    pub fn add_item(&mut self, item: NurseryItem) -> (r: Result<(), RegistryError>)
        requires
            old(self).wf(),
        ensures
            final(self).wf(),
            r is Err <==> exists|i: int| 0 <= i < old(self)@.len() && same_key(#[trigger] old(self)@[i], item),
            r is Ok ==> final(self)@ == old(self)@.push(item),
            r is Err ==> final(self)@ == old(self)@,
            r matches Err(e) ==> e == RegistryError::Duplicate(item.name),
    {
        let mut i: usize = 0;
        while i < self.items.len()
            invariant
                i <= self.items@.len(),
                self.items@ == old(self)@,
                self.wf(),
                forall|j: int| 0 <= j < i ==> !same_key(#[trigger] self.items@[j], item),
            decreases self.items@.len() - i,
        {
            if names_equal(&self.items[i].name, &item.name) && guards_equal(&self.items[i].guard, &item.guard) {
                proof { assert(same_key(self.items@[i as int], item)); }
                return Err(RegistryError::Duplicate(item.name));
            }
            i = i + 1;
        }
        self.items.push(item);
        proof {
            assert forall|a: int, b: int| 0 <= a < b < self@.len() implies !same_key(#[trigger] self@[a], #[trigger] self@[b]) by {
                assert(self@[a] == old(self)@[a]);
                if b == self@.len() - 1 {
                    assert(self@[b] == item);
                    assert(!same_key(old(self)@[a], item));
                } else {
                    assert(self@[b] == old(self)@[b]);
                }
            }
        }
        Ok(())
    }

    /// What the installers run, by priority and then in the order added.
    pub fn render(&self) -> (r: Vec<String>)
        ensures
            r@.len() == install_order(self@).len(),
            forall|k: int| 0 <= k < r@.len() ==> (#[trigger] r@[k])@ == install_order(self@)[k].code@,
    {
        let mut out: Vec<String> = Vec::new();
        let mut p: u16 = 0;
        while p < 256
            invariant
                p <= 256,
                out@.len() == ordered_below(self@, p as int).len(),
                forall|k: int| 0 <= k < out@.len() ==> (#[trigger] out@[k])@ == ordered_below(self@, p as int)[k].code@,
            decreases 256 - p,
        {
            let ghost base = ordered_below(self@, p as int);
            let mut i: usize = 0;
            while i < self.items.len()
                invariant
                    p < 256,
                    i <= self.items@.len(),
                    base == ordered_below(self@, p as int),
                    out@.len() == base.len() + with_priority(self.items@.subrange(0, i as int), p as int).len(),
                    forall|k: int| 0 <= k < out@.len() ==> (#[trigger] out@[k])@ ==
                        (base + with_priority(self.items@.subrange(0, i as int), p as int))[k].code@,
                decreases self.items@.len() - i,
            {
                proof {
                    assert(self.items@.subrange(0, i + 1).drop_last() =~= self.items@.subrange(0, i as int));
                }
                if self.items[i].priority as u16 == p {
                    out.push(self.items[i].code.clone());
                }
                i = i + 1;
            }
            proof {
                assert(self.items@.subrange(0, i as int) =~= self.items@);
                assert(self.items@ == self@);
            }
            p = p + 1;
        }
        out
    }
}

/// A copy of a guard.
fn clone_guard(g: &Vec<String>) -> (r: Vec<String>)
    ensures
        guard_view(r@) == guard_view(g@),
{
    let mut out: Vec<String> = Vec::new();
    let mut i: usize = 0;
    while i < g.len()
        invariant
            i <= g@.len(),
            out@.len() == i,
            forall|j: int| 0 <= j < i ==> (#[trigger] out@[j])@ == g@[j]@,
        decreases g@.len() - i,
    {
        out.push(g[i].clone());
        i = i + 1;
    }
    proof { assert(guard_view(out@) =~= guard_view(g@)); }
    out
}

fn clone_opt(o: &Option<String>) -> (r: Option<String>)
    ensures
        r == *o,
{
    match o {
        Some(s) => Some(s.clone()),
        None => None,
    }
}

/// Which accessor of a property a function provides.
#[derive(Clone, Copy, Debug, PartialEq, Eq, Structural)]
pub enum GetSetItemKind {
    Getter,
    Setter,
    Deleter,
}

/// The accessors gathered for one property.
#[derive(Debug)]
pub struct GetSetEntry {
    pub name: String,
    pub guard: Vec<String>,
    pub getter: Option<String>,
    pub setter: Option<String>,
    pub deleter: Option<String>,
}

/// A complete property, ready to be installed by name.
#[derive(Debug)]
pub struct PropertyDescriptor {
    pub name: String,
    pub guard: Vec<String>,
    pub getter: String,
    pub setter: Option<String>,
    pub deleter: Option<String>,
}

pub open spec fn getset_slot(e: GetSetEntry, kind: GetSetItemKind) -> Option<String> {
    match kind {
        GetSetItemKind::Getter => e.getter,
        GetSetItemKind::Setter => e.setter,
        GetSetItemKind::Deleter => e.deleter,
    }
}

pub open spec fn getset_has_key(e: GetSetEntry, name: Seq<char>, guard: Seq<String>) -> bool {
    e.name@ == name && guard_view(e.guard@) == guard_view(guard)
}

/// The names of the entries that lack a getter, in order.
pub open spec fn getset_missing(entries: Seq<GetSetEntry>) -> Seq<Seq<char>>
    decreases entries.len(),
{
    if entries.len() == 0 {
        Seq::empty()
    } else {
        let r = getset_missing(entries.drop_last());
        if entries.last().getter is None { r.push(entries.last().name@) } else { r }
    }
}

/// What a property nursery holds: its entries, and whether it was validated.
pub struct GetSetModel {
    pub entries: Seq<GetSetEntry>,
    pub validated: bool,
}

/// The nursery after `validate`: the same entries, frozen when none lacks a getter.
pub open spec fn getset_validated(m: GetSetModel) -> GetSetModel {
    GetSetModel { entries: m.entries, validated: m.validated || getset_missing(m.entries).len() == 0 }
}

/// Collects property accessors by name and guard.
#[derive(Debug)]
pub struct GetSetNursery {
    entries: Vec<GetSetEntry>,
    validated: bool,
}

impl View for GetSetNursery {
    type V = GetSetModel;

    closed spec fn view(&self) -> GetSetModel {
        GetSetModel { entries: self.entries@, validated: self.validated }
    }
}

impl GetSetNursery {
    /// Keys are unique; once validated, every entry has a getter.
    pub open spec fn wf(&self) -> bool {
        &&& forall|i: int, j: int| 0 <= i < j < self@.entries.len() ==>
            !getset_has_key(#[trigger] self@.entries[i], self@.entries[j].name@, #[trigger] self@.entries[j].guard@)
        &&& self@.validated ==> getset_missing(self@.entries).len() == 0
    }

    pub fn new() -> (r: GetSetNursery)
        ensures
            r.wf(),
            r@.entries.len() == 0 && !r@.validated,
    {
        GetSetNursery { entries: Vec::new(), validated: false }
    }

    /// Records `func` as the accessor of `kind` for the property `name` under
    /// `guard`. Refused when that accessor is already given, or when a setter
    /// or deleter carries a guard.
    pub fn add_item(&mut self, name: String, guard: Vec<String>, kind: GetSetItemKind, func: String)
        -> (r: Result<(), RegistryError>)
        requires
            old(self).wf(),
            !old(self)@.validated,
        ensures
            final(self).wf(),
            !final(self)@.validated,
            r is Err ==> final(self)@ == old(self)@,
            kind != GetSetItemKind::Getter && guard@.len() > 0 ==> r == Err::<(), RegistryError>(RegistryError::GuardedAccessor(name)),
            !(kind != GetSetItemKind::Getter && guard@.len() > 0) ==> ({
                &&& (forall|i: int| 0 <= i < old(self)@.entries.len() ==> !getset_has_key(#[trigger] old(self)@.entries[i], name@, guard@))
                    ==> r is Ok && final(self)@.entries.len() == old(self)@.entries.len() + 1
                        && final(self)@.entries.drop_last() == old(self)@.entries
                        && getset_has_key(final(self)@.entries.last(), name@, guard@)
                        && getset_slot(final(self)@.entries.last(), kind) == Some(func)
                        && forall|k: GetSetItemKind| k != kind ==> getset_slot(final(self)@.entries.last(), k) is None
                &&& forall|i: int| 0 <= i < old(self)@.entries.len() && getset_has_key(#[trigger] old(self)@.entries[i], name@, guard@)
                    ==> if getset_slot(old(self)@.entries[i], kind) is Some {
                        r == Err::<(), RegistryError>(RegistryError::DuplicateAccessor(name))
                    } else {
                        r is Ok && final(self)@.entries.len() == old(self)@.entries.len()
                            && (forall|j: int| 0 <= j < old(self)@.entries.len() && j != i ==> final(self)@.entries[j] == old(self)@.entries[j])
                            && getset_has_key(final(self)@.entries[i], name@, guard@)
                            && getset_slot(final(self)@.entries[i], kind) == Some(func)
                            && forall|k: GetSetItemKind| k != kind ==> getset_slot(final(self)@.entries[i], k) == getset_slot(old(self)@.entries[i], k)
                    }
            }),
    {
        if kind != GetSetItemKind::Getter && guard.len() > 0 {
            return Err(RegistryError::GuardedAccessor(name));
        }
        let mut i: usize = 0;
        while i < self.entries.len()
            invariant
                i <= self.entries@.len(),
                self.entries@ == old(self)@.entries,
                self.validated == old(self)@.validated,
                !old(self)@.validated,
                !(kind != GetSetItemKind::Getter && guard@.len() > 0),
                self.wf(),
                forall|j: int| 0 <= j < i ==> !getset_has_key(#[trigger] self.entries@[j], name@, guard@),
            decreases self.entries@.len() - i,
        {
            if self.entries[i].name == name && guards_equal(&self.entries[i].guard, &guard) {
                let taken = match kind {
                    GetSetItemKind::Getter => self.entries[i].getter.is_some(),
                    GetSetItemKind::Setter => self.entries[i].setter.is_some(),
                    GetSetItemKind::Deleter => self.entries[i].deleter.is_some(),
                };
                if taken {
                    proof {
                        assert forall|j: int| 0 <= j < old(self)@.entries.len() && getset_has_key(#[trigger] old(self)@.entries[j], name@, guard@)
                            implies j == i by {
                            if j != i {
                                if j < i {
                                    assert(!getset_has_key(old(self)@.entries[j], old(self)@.entries[i as int].name@, old(self)@.entries[i as int].guard@));
                                } else {
                                    assert(!getset_has_key(old(self)@.entries[i as int], old(self)@.entries[j].name@, old(self)@.entries[j].guard@));
                                }
                            }
                        }
                    }
                    return Err(RegistryError::DuplicateAccessor(name));
                }
                let ghost before = self.entries@;
                let mut e = self.entries.remove(i);
                match kind {
                    GetSetItemKind::Getter => e.getter = Some(func),
                    GetSetItemKind::Setter => e.setter = Some(func),
                    GetSetItemKind::Deleter => e.deleter = Some(func),
                }
                self.entries.insert(i, e);
                proof {
                    assert forall|j: int| 0 <= j < before.len() && j != i implies self.entries@[j] == before[j] by {}
                    assert forall|j: int| 0 <= j < old(self)@.entries.len() && getset_has_key(#[trigger] old(self)@.entries[j], name@, guard@)
                        implies j == i by {
                        if j != i {
                            if j < i {
                                assert(!getset_has_key(old(self)@.entries[j], old(self)@.entries[i as int].name@, old(self)@.entries[i as int].guard@));
                            } else {
                                assert(!getset_has_key(old(self)@.entries[i as int], old(self)@.entries[j].name@, old(self)@.entries[j].guard@));
                            }
                        }
                    }
                    assert forall|a: int, b: int| 0 <= a < b < self@.entries.len() implies
                        !getset_has_key(#[trigger] self@.entries[a], self@.entries[b].name@, #[trigger] self@.entries[b].guard@) by {
                        assert(!getset_has_key(before[a], before[b].name@, before[b].guard@));
                    }
                }
                return Ok(());
            }
            i = i + 1;
        }
        let mut e = GetSetEntry { name, guard, getter: None, setter: None, deleter: None };
        match kind {
            GetSetItemKind::Getter => e.getter = Some(func),
            GetSetItemKind::Setter => e.setter = Some(func),
            GetSetItemKind::Deleter => e.deleter = Some(func),
        }
        let ghost before = self.entries@;
        self.entries.push(e);
        proof {
            assert(self@.entries.drop_last() =~= before);
            assert forall|a: int, b: int| 0 <= a < b < self@.entries.len() implies
                !getset_has_key(#[trigger] self@.entries[a], self@.entries[b].name@, #[trigger] self@.entries[b].guard@) by {
                if b == before.len() {
                    assert(self@.entries[a] == before[a]);
                    assert(!getset_has_key(before[a], e.name@, e.guard@));
                } else {
                    assert(self@.entries[a] == before[a]);
                    assert(self@.entries[b] == before[b]);
                }
            }
        }
        Ok(())
    }

    /// Checks that every property has a getter. The errors name each one that
    /// lacks it; with none, the nursery is frozen. Nothing else changes, so a
    /// second call reports the same.
    pub fn validate(&mut self) -> (r: Result<(), Vec<RegistryError>>)
        requires
            old(self).wf(),
        ensures
            final(self).wf(),
            final(self)@ == getset_validated(old(self)@),
            r is Ok <==> getset_missing(old(self)@.entries).len() == 0,
            r matches Err(v) ==> v@.len() == getset_missing(old(self)@.entries).len()
                && forall|k: int| 0 <= k < v@.len() ==> (#[trigger] v@[k] matches RegistryError::MissingGetter(s)
                    && s@ == getset_missing(old(self)@.entries)[k]),
    {
        let mut errors: Vec<RegistryError> = Vec::new();
        let mut i: usize = 0;
        while i < self.entries.len()
            invariant
                i <= self.entries@.len(),
                errors@.len() == getset_missing(self.entries@.subrange(0, i as int)).len(),
                forall|k: int| 0 <= k < errors@.len() ==> (#[trigger] errors@[k] matches RegistryError::MissingGetter(s)
                    && s@ == getset_missing(self.entries@.subrange(0, i as int))[k]),
            decreases self.entries@.len() - i,
        {
            proof {
                assert(self.entries@.subrange(0, i + 1).drop_last() =~= self.entries@.subrange(0, i as int));
            }
            if self.entries[i].getter.is_none() {
                errors.push(RegistryError::MissingGetter(self.entries[i].name.clone()));
            }
            i = i + 1;
        }
        proof { assert(self.entries@.subrange(0, i as int) =~= self.entries@); }
        if errors.len() == 0 {
            self.validated = true;
            Ok(())
        } else {
            Err(errors)
        }
    }

    /// The properties to install, one per entry.
    pub fn render(&self) -> (r: Vec<PropertyDescriptor>)
        requires
            self.wf(),
            self@.validated,
        ensures
            r@.len() == self@.entries.len(),
            forall|k: int| 0 <= k < r@.len() ==> ({
                let e = #[trigger] self@.entries[k];
                &&& e.getter == Some(r@[k].getter)
                &&& r@[k].name == e.name && r@[k].setter == e.setter && r@[k].deleter == e.deleter
                &&& guard_view(r@[k].guard@) == guard_view(e.guard@)
            }),
    {
        let mut out: Vec<PropertyDescriptor> = Vec::new();
        let mut i: usize = 0;
        while i < self.entries.len()
            invariant
                i <= self.entries@.len(),
                getset_missing(self.entries@).len() == 0,
                out@.len() == i,
                forall|k: int| 0 <= k < i ==> ({
                    let e = #[trigger] self@.entries[k];
                    &&& e.getter == Some(out@[k].getter)
                    &&& out@[k].name == e.name && out@[k].setter == e.setter && out@[k].deleter == e.deleter
                    &&& guard_view(out@[k].guard@) == guard_view(e.guard@)
                }),
            decreases self.entries@.len() - i,
        {
            let e = &self.entries[i];
            proof { lemma_getset_complete(self.entries@, i as int); }
            let getter = match &e.getter {
                Some(g) => g.clone(),
                None => String::new(),
            };
            out.push(PropertyDescriptor {
                name: e.name.clone(),
                guard: clone_guard(&e.guard),
                getter,
                setter: clone_opt(&e.setter),
                deleter: clone_opt(&e.deleter),
            });
            i = i + 1;
        }
        out
    }
}

proof fn lemma_getset_complete(entries: Seq<GetSetEntry>, i: int)
    requires
        getset_missing(entries).len() == 0,
        0 <= i < entries.len(),
    ensures
        entries[i].getter is Some,
    decreases entries.len(),
{
    if i < entries.len() - 1 {
        lemma_getset_complete(entries.drop_last(), i);
    }
}

/// Validation is idempotent: validating again reports the same errors and
/// leaves the nursery as the first validation left it, so nothing is
/// installed twice.
pub proof fn lemma_getset_validate_idempotent(m: GetSetModel)
    ensures
        getset_missing(getset_validated(m).entries) == getset_missing(m.entries),
        getset_validated(getset_validated(m)) == getset_validated(m),
{
}

/// Which accessor of a member a function provides.
#[derive(Clone, Copy, Debug, PartialEq, Eq, Structural)]
pub enum MemberItemKind {
    Getter,
    Setter,
}

/// How a member's value is stored: a boolean flag, or a generic object.
#[derive(Clone, Copy, Debug, PartialEq, Eq, Structural)]
pub enum MemberKind {
    Bool,
    ObjectEx,
}

/// The accessors gathered for one member.
#[derive(Debug)]
pub struct MemberEntry {
    pub name: String,
    pub kind: MemberKind,
    pub getter: Option<String>,
    pub setter: Option<String>,
}

/// A complete member, ready to be installed by name.
#[derive(Debug)]
pub struct MemberDescriptor {
    pub name: String,
    pub kind: MemberKind,
    pub getter: String,
    pub setter: Option<String>,
}

pub open spec fn member_slot(e: MemberEntry, kind: MemberItemKind) -> Option<String> {
    match kind {
        MemberItemKind::Getter => e.getter,
        MemberItemKind::Setter => e.setter,
    }
}

pub open spec fn member_has_key(e: MemberEntry, name: Seq<char>, kind: MemberKind) -> bool {
    e.name@ == name && e.kind == kind
}

/// The names of the members that lack a getter, in order.
pub open spec fn member_missing(entries: Seq<MemberEntry>) -> Seq<Seq<char>>
    decreases entries.len(),
{
    if entries.len() == 0 {
        Seq::empty()
    } else {
        let r = member_missing(entries.drop_last());
        if entries.last().getter is None { r.push(entries.last().name@) } else { r }
    }
}

pub struct MemberModel {
    pub entries: Seq<MemberEntry>,
    pub validated: bool,
}

pub open spec fn member_validated(m: MemberModel) -> MemberModel {
    MemberModel { entries: m.entries, validated: m.validated || member_missing(m.entries).len() == 0 }
}

/// Collects member accessors by name and representation.
#[derive(Debug)]
pub struct MemberNursery {
    entries: Vec<MemberEntry>,
    validated: bool,
}

impl View for MemberNursery {
    type V = MemberModel;

    closed spec fn view(&self) -> MemberModel {
        MemberModel { entries: self.entries@, validated: self.validated }
    }
}

impl MemberNursery {
    pub open spec fn wf(&self) -> bool {
        &&& forall|i: int, j: int| 0 <= i < j < self@.entries.len() ==>
            !member_has_key(#[trigger] self@.entries[i], self@.entries[j].name@, #[trigger] self@.entries[j].kind)
        &&& self@.validated ==> member_missing(self@.entries).len() == 0
    }

    pub fn new() -> (r: MemberNursery)
        ensures
            r.wf(),
            r@.entries.len() == 0 && !r@.validated,
    {
        MemberNursery { entries: Vec::new(), validated: false }
    }

    /// Records `func` as the accessor of `kind` for the member `name` stored
    /// as `member_kind`; refused when that accessor is already given.
    pub fn add_item(&mut self, name: String, kind: MemberItemKind, member_kind: MemberKind, func: String)
        -> (r: Result<(), RegistryError>)
        requires
            old(self).wf(),
            !old(self)@.validated,
        ensures
            final(self).wf(),
            !final(self)@.validated,
            r is Err ==> final(self)@ == old(self)@,
            (forall|i: int| 0 <= i < old(self)@.entries.len() ==> !member_has_key(#[trigger] old(self)@.entries[i], name@, member_kind))
                ==> r is Ok && final(self)@.entries.len() == old(self)@.entries.len() + 1
                    && final(self)@.entries.drop_last() == old(self)@.entries
                    && member_has_key(final(self)@.entries.last(), name@, member_kind)
                    && member_slot(final(self)@.entries.last(), kind) == Some(func)
                    && forall|k: MemberItemKind| k != kind ==> member_slot(final(self)@.entries.last(), k) is None,
            forall|i: int| 0 <= i < old(self)@.entries.len() && member_has_key(#[trigger] old(self)@.entries[i], name@, member_kind)
                ==> if member_slot(old(self)@.entries[i], kind) is Some {
                    r == Err::<(), RegistryError>(RegistryError::DuplicateAccessor(name))
                } else {
                    r is Ok && final(self)@.entries.len() == old(self)@.entries.len()
                        && (forall|j: int| 0 <= j < old(self)@.entries.len() && j != i ==> final(self)@.entries[j] == old(self)@.entries[j])
                        && member_has_key(final(self)@.entries[i], name@, member_kind)
                        && member_slot(final(self)@.entries[i], kind) == Some(func)
                        && forall|k: MemberItemKind| k != kind ==> member_slot(final(self)@.entries[i], k) == member_slot(old(self)@.entries[i], k)
                },
    {
        let mut i: usize = 0;
        while i < self.entries.len()
            invariant
                i <= self.entries@.len(),
                self.entries@ == old(self)@.entries,
                self.validated == old(self)@.validated,
                !old(self)@.validated,
                self.wf(),
                forall|j: int| 0 <= j < i ==> !member_has_key(#[trigger] self.entries@[j], name@, member_kind),
            decreases self.entries@.len() - i,
        {
            if self.entries[i].name == name && self.entries[i].kind == member_kind {
                let taken = match kind {
                    MemberItemKind::Getter => self.entries[i].getter.is_some(),
                    MemberItemKind::Setter => self.entries[i].setter.is_some(),
                };
                proof {
                    assert forall|j: int| 0 <= j < old(self)@.entries.len() && member_has_key(#[trigger] old(self)@.entries[j], name@, member_kind)
                        implies j == i by {
                        if j != i {
                            if j < i {
                                assert(!member_has_key(old(self)@.entries[j], old(self)@.entries[i as int].name@, old(self)@.entries[i as int].kind));
                            } else {
                                assert(!member_has_key(old(self)@.entries[i as int], old(self)@.entries[j].name@, old(self)@.entries[j].kind));
                            }
                        }
                    }
                }
                if taken {
                    return Err(RegistryError::DuplicateAccessor(name));
                }
                let ghost before = self.entries@;
                let mut e = self.entries.remove(i);
                match kind {
                    MemberItemKind::Getter => e.getter = Some(func),
                    MemberItemKind::Setter => e.setter = Some(func),
                }
                self.entries.insert(i, e);
                proof {
                    assert forall|a: int, b: int| 0 <= a < b < self@.entries.len() implies
                        !member_has_key(#[trigger] self@.entries[a], self@.entries[b].name@, #[trigger] self@.entries[b].kind) by {
                        assert(!member_has_key(before[a], before[b].name@, before[b].kind));
                    }
                }
                return Ok(());
            }
            i = i + 1;
        }
        let mut e = MemberEntry { name, kind: member_kind, getter: None, setter: None };
        match kind {
            MemberItemKind::Getter => e.getter = Some(func),
            MemberItemKind::Setter => e.setter = Some(func),
        }
        let ghost before = self.entries@;
        self.entries.push(e);
        proof {
            assert(self@.entries.drop_last() =~= before);
            assert forall|a: int, b: int| 0 <= a < b < self@.entries.len() implies
                !member_has_key(#[trigger] self@.entries[a], self@.entries[b].name@, #[trigger] self@.entries[b].kind) by {
                assert(self@.entries[a] == before[a]);
                if b < before.len() {
                    assert(self@.entries[b] == before[b]);
                }
            }
        }
        Ok(())
    }

    /// Checks that every member has a getter; see `GetSetNursery::validate`.
    pub fn validate(&mut self) -> (r: Result<(), Vec<RegistryError>>)
        requires
            old(self).wf(),
        ensures
            final(self).wf(),
            final(self)@ == member_validated(old(self)@),
            r is Ok <==> member_missing(old(self)@.entries).len() == 0,
            r matches Err(v) ==> v@.len() == member_missing(old(self)@.entries).len()
                && forall|k: int| 0 <= k < v@.len() ==> (#[trigger] v@[k] matches RegistryError::MissingGetter(s)
                    && s@ == member_missing(old(self)@.entries)[k]),
    {
        let mut errors: Vec<RegistryError> = Vec::new();
        let mut i: usize = 0;
        while i < self.entries.len()
            invariant
                i <= self.entries@.len(),
                errors@.len() == member_missing(self.entries@.subrange(0, i as int)).len(),
                forall|k: int| 0 <= k < errors@.len() ==> (#[trigger] errors@[k] matches RegistryError::MissingGetter(s)
                    && s@ == member_missing(self.entries@.subrange(0, i as int))[k]),
            decreases self.entries@.len() - i,
        {
            proof {
                assert(self.entries@.subrange(0, i + 1).drop_last() =~= self.entries@.subrange(0, i as int));
            }
            if self.entries[i].getter.is_none() {
                errors.push(RegistryError::MissingGetter(self.entries[i].name.clone()));
            }
            i = i + 1;
        }
        proof { assert(self.entries@.subrange(0, i as int) =~= self.entries@); }
        if errors.len() == 0 {
            self.validated = true;
            Ok(())
        } else {
            Err(errors)
        }
    }

    /// The members to install, one per entry.
    pub fn render(&self) -> (r: Vec<MemberDescriptor>)
        requires
            self.wf(),
            self@.validated,
        ensures
            r@.len() == self@.entries.len(),
            forall|k: int| 0 <= k < r@.len() ==> ({
                let e = #[trigger] self@.entries[k];
                &&& e.getter == Some(r@[k].getter)
                &&& r@[k].name == e.name && r@[k].kind == e.kind && r@[k].setter == e.setter
            }),
    {
        let mut out: Vec<MemberDescriptor> = Vec::new();
        let mut i: usize = 0;
        while i < self.entries.len()
            invariant
                i <= self.entries@.len(),
                member_missing(self.entries@).len() == 0,
                out@.len() == i,
                forall|k: int| 0 <= k < i ==> ({
                    let e = #[trigger] self@.entries[k];
                    &&& e.getter == Some(out@[k].getter)
                    &&& out@[k].name == e.name && out@[k].kind == e.kind && out@[k].setter == e.setter
                }),
            decreases self.entries@.len() - i,
        {
            let e = &self.entries[i];
            proof { lemma_member_complete(self.entries@, i as int); }
            let getter = match &e.getter {
                Some(g) => g.clone(),
                None => String::new(),
            };
            out.push(MemberDescriptor { name: e.name.clone(), kind: e.kind, getter, setter: clone_opt(&e.setter) });
            i = i + 1;
        }
        out
    }
}

proof fn lemma_member_complete(entries: Seq<MemberEntry>, i: int)
    requires
        member_missing(entries).len() == 0,
        0 <= i < entries.len(),
    ensures
        entries[i].getter is Some,
    decreases entries.len(),
{
    if i < entries.len() - 1 {
        lemma_member_complete(entries.drop_last(), i);
    }
}

/// Validating members twice reports the same errors and changes nothing more.
pub proof fn lemma_member_validate_idempotent(m: MemberModel)
    ensures
        member_missing(member_validated(m).entries) == member_missing(m.entries),
        member_validated(member_validated(m)) == member_validated(m),
{
}

/// Priority of constants and attributes: installed first.
pub const ATTRIBUTE_PRIORITY: u8 = 1;
/// Priority of slot installers.
pub const SLOT_PRIORITY: u8 = 2;
/// Priority of methods, class methods and static methods: installed last.
pub const METHOD_PRIORITY: u8 = 5;

/// Everything one class definition installs, gathered before validation.
#[derive(Debug)]
pub struct ClassRegistry {
    pub attributes: ItemNursery,
    pub slots: ItemNursery,
    pub getsets: GetSetNursery,
    pub members: MemberNursery,
    /// Hooks that run after the attribute installers, in the order added.
    pub extensions: Vec<String>,
}

/// The rendered installation of a class, phase by phase: descriptors first,
/// then attribute installers, then extension hooks; slot writes separately.
#[derive(Debug)]
pub struct ClassInstall {
    pub getsets: Vec<PropertyDescriptor>,
    pub members: Vec<MemberDescriptor>,
    pub attributes: Vec<String>,
    pub extensions: Vec<String>,
    pub slots: Vec<(SlotId, String)>,
}

impl ClassRegistry {
    pub open spec fn wf(&self) -> bool {
        self.attributes.wf() && self.slots.wf() && self.getsets.wf() && self.members.wf()
            && all_slots(self.slots@)
    }

    pub open spec fn is_validated(&self) -> bool {
        self.getsets@.validated && self.members@.validated
    }

    pub fn new() -> (r: ClassRegistry)
        ensures
            r.wf(),
            r.attributes@.len() == 0 && r.slots@.len() == 0 && r.extensions@.len() == 0,
            r.getsets@.entries.len() == 0 && r.members@.entries.len() == 0,
            !r.getsets@.validated && !r.members@.validated,
    {
        ClassRegistry {
            attributes: ItemNursery::new(),
            slots: ItemNursery::new(),
            getsets: GetSetNursery::new(),
            members: MemberNursery::new(),
            extensions: Vec::new(),
        }
    }

    /// Registers a hook that runs after the attribute installers.
    pub fn add_extension(&mut self, code: String)
        ensures
            final(self).extensions@ == old(self).extensions@.push(code),
            final(self).attributes == old(self).attributes && final(self).slots == old(self).slots,
            final(self).getsets == old(self).getsets && final(self).members == old(self).members,
    {
        self.extensions.push(code);
    }

    /// Registers a method (or class or static method) installer.
    pub fn add_method(&mut self, name: String, guard: Vec<String>, code: String) -> (r: Result<(), RegistryError>)
        requires
            old(self).wf(),
        ensures
            final(self).wf(),
            final(self).slots == old(self).slots && final(self).getsets == old(self).getsets
                && final(self).members == old(self).members,
            final(self).extensions == old(self).extensions,
            ({
                let item = NurseryItem { name: ItemName::Attr(name), guard, code, priority: METHOD_PRIORITY };
                &&& r is Err <==> exists|i: int| 0 <= i < old(self).attributes@.len() && same_key(#[trigger] old(self).attributes@[i], item)
                &&& r is Ok ==> final(self).attributes@ == old(self).attributes@.push(item)
                &&& r is Err ==> final(self).attributes@ == old(self).attributes@
            }),
    {
        self.attributes.add_item(NurseryItem { name: ItemName::Attr(name), guard, code, priority: METHOD_PRIORITY })
    }

    /// Registers a constant or attribute installer.
    pub fn add_attribute(&mut self, name: String, guard: Vec<String>, code: String) -> (r: Result<(), RegistryError>)
        requires
            old(self).wf(),
        ensures
            final(self).wf(),
            final(self).slots == old(self).slots && final(self).getsets == old(self).getsets
                && final(self).members == old(self).members,
            final(self).extensions == old(self).extensions,
            ({
                let item = NurseryItem { name: ItemName::Attr(name), guard, code, priority: ATTRIBUTE_PRIORITY };
                &&& r is Err <==> exists|i: int| 0 <= i < old(self).attributes@.len() && same_key(#[trigger] old(self).attributes@[i], item)
                &&& r is Ok ==> final(self).attributes@ == old(self).attributes@.push(item)
                &&& r is Err ==> final(self).attributes@ == old(self).attributes@
            }),
    {
        self.attributes.add_item(NurseryItem { name: ItemName::Attr(name), guard, code, priority: ATTRIBUTE_PRIORITY })
    }

    /// Registers the function `func` for `slot`.
    pub fn add_slot(&mut self, slot: SlotId, guard: Vec<String>, func: String) -> (r: Result<(), RegistryError>)
        requires
            old(self).wf(),
        ensures
            final(self).wf(),
            final(self).attributes == old(self).attributes && final(self).getsets == old(self).getsets
                && final(self).members == old(self).members,
            final(self).extensions == old(self).extensions,
            ({
                let item = NurseryItem { name: ItemName::Slot(slot), guard, code: func, priority: SLOT_PRIORITY };
                &&& r is Err <==> exists|i: int| 0 <= i < old(self).slots@.len() && same_key(#[trigger] old(self).slots@[i], item)
                &&& r is Ok ==> final(self).slots@ == old(self).slots@.push(item)
                &&& r is Err ==> final(self).slots@ == old(self).slots@
            }),
    {
        self.slots.add_item(NurseryItem { name: ItemName::Slot(slot), guard, code: func, priority: SLOT_PRIORITY })
    }

    /// Validates properties and members: the errors of both, properties
    /// first. Each part is frozen when it has none.
    pub fn validate(&mut self) -> (r: Result<(), Vec<RegistryError>>)
        requires
            old(self).wf(),
        ensures
            final(self).wf(),
            final(self).attributes == old(self).attributes && final(self).slots == old(self).slots,
            final(self).extensions == old(self).extensions,
            final(self).getsets@ == getset_validated(old(self).getsets@),
            final(self).members@ == member_validated(old(self).members@),
            r is Ok <==> getset_missing(old(self).getsets@.entries).len() == 0
                && member_missing(old(self).members@.entries).len() == 0,
            r matches Err(v) ==> ({
                let g = getset_missing(old(self).getsets@.entries);
                let m = member_missing(old(self).members@.entries);
                &&& v@.len() == g.len() + m.len()
                &&& forall|k: int| 0 <= k < v@.len() ==> (#[trigger] v@[k] matches RegistryError::MissingGetter(s)
                    && s@ == (g + m)[k])
            }),
    {
        let g = self.getsets.validate();
        let m = self.members.validate();
        match (g, m) {
            (Ok(()), Ok(())) => Ok(()),
            (Err(a), Ok(())) => {
                proof { assert(getset_missing(old(self).getsets@.entries) + member_missing(old(self).members@.entries)
                    =~= getset_missing(old(self).getsets@.entries)); }
                Err(a)
            }
            (Ok(()), Err(b)) => {
                proof { assert(getset_missing(old(self).getsets@.entries) + member_missing(old(self).members@.entries)
                    =~= member_missing(old(self).members@.entries)); }
                Err(b)
            }
            (Err(mut a), Err(mut b)) => {
                let ghost (va, vb) = (a@, b@);
                a.append(&mut b);
                proof {
                    assert forall|k: int| 0 <= k < a@.len() implies (#[trigger] a@[k] matches RegistryError::MissingGetter(s)
                        && s@ == (getset_missing(old(self).getsets@.entries) + member_missing(old(self).members@.entries))[k]) by {
                        if k < va.len() {
                            assert(a@[k] == va[k]);
                        } else {
                            assert(a@[k] == vb[k - va.len()]);
                        }
                    }
                }
                Err(a)
            }
        }
    }

    /// The installation, once validated: attributes and slots in the order
    /// they run, then the descriptors.
    pub fn render(&self) -> (r: ClassInstall)
        requires
            self.wf(),
            self.is_validated(),
        ensures
            r.attributes@.len() == install_order(self.attributes@).len(),
            forall|k: int| 0 <= k < r.attributes@.len() ==> (#[trigger] r.attributes@[k])@ == install_order(self.attributes@)[k].code@,
            r.slots@.len() == install_order(self.slots@).len(),
            forall|k: int| 0 <= k < r.slots@.len() ==> ItemName::Slot((#[trigger] r.slots@[k]).0) == install_order(self.slots@)[k].name
                && r.slots@[k].1@ == install_order(self.slots@)[k].code@,
            r.getsets@.len() == self.getsets@.entries.len(),
            forall|k: int| 0 <= k < r.getsets@.len() ==> ({
                let e = #[trigger] self.getsets@.entries[k];
                &&& e.getter == Some(r.getsets@[k].getter)
                &&& r.getsets@[k].name == e.name && r.getsets@[k].setter == e.setter && r.getsets@[k].deleter == e.deleter
                &&& guard_view(r.getsets@[k].guard@) == guard_view(e.guard@)
            }),
            r.members@.len() == self.members@.entries.len(),
            forall|k: int| 0 <= k < r.members@.len() ==> ({
                let e = #[trigger] self.members@.entries[k];
                &&& e.getter == Some(r.members@[k].getter)
                &&& r.members@[k].name == e.name && r.members@[k].kind == e.kind && r.members@[k].setter == e.setter
            }),
            guard_view(r.extensions@) == guard_view(self.extensions@),
    {
        ClassInstall {
            getsets: self.getsets.render(),
            members: self.members.render(),
            attributes: self.attributes.render(),
            extensions: clone_guard(&self.extensions),
            slots: self.slots.render_slots(),
        }
    }
}

impl ClassInstall {
    /// Mixes in a capability set: its attribute installers run after this
    /// class's own, and its slot writes come after this class's, so a slot
    /// both give ends with the capability's function.
    pub fn compose(&mut self, capability: ClassInstall)
        ensures
            final(self).attributes@ == old(self).attributes@ + capability.attributes@,
            final(self).slots@ == old(self).slots@ + capability.slots@,
            final(self).getsets@ == old(self).getsets@ + capability.getsets@,
            final(self).members@ == old(self).members@ + capability.members@,
            final(self).extensions@ == old(self).extensions@ + capability.extensions@,
    {
        let mut c = capability;
        self.extensions.append(&mut c.extensions);
        self.attributes.append(&mut c.attributes);
        self.slots.append(&mut c.slots);
        self.getsets.append(&mut c.getsets);
        self.members.append(&mut c.members);
    }
}

pub open spec fn slot_index(s: SlotId) -> int {
    match s {
        SlotId::New => 0,
        SlotId::Init => 1,
        SlotId::Del => 2,
        SlotId::Repr => 3,
        SlotId::Str => 4,
        SlotId::Hash => 5,
        SlotId::Call => 6,
        SlotId::GetAttro => 7,
        SlotId::SetAttro => 8,
        SlotId::RichCompare => 9,
        SlotId::Iter => 10,
        SlotId::IterNext => 11,
        SlotId::DescrGet => 12,
        SlotId::DescrSet => 13,
        SlotId::AsBuffer => 14,
        SlotId::AsNumber => 15,
        SlotId::AsSequence => 16,
        SlotId::AsMapping => 17,
    }
}

fn slot_index_exec(s: SlotId) -> (r: usize)
    ensures
        r == slot_index(s),
        r < 18,
{
    match s {
        SlotId::New => 0,
        SlotId::Init => 1,
        SlotId::Del => 2,
        SlotId::Repr => 3,
        SlotId::Str => 4,
        SlotId::Hash => 5,
        SlotId::Call => 6,
        SlotId::GetAttro => 7,
        SlotId::SetAttro => 8,
        SlotId::RichCompare => 9,
        SlotId::Iter => 10,
        SlotId::IterNext => 11,
        SlotId::DescrGet => 12,
        SlotId::DescrSet => 13,
        SlotId::AsBuffer => 14,
        SlotId::AsNumber => 15,
        SlotId::AsSequence => 16,
        SlotId::AsMapping => 17,
    }
}

/// A class's slot table: for each slot, the function installed, if any.
#[derive(Debug)]
pub struct SlotTable {
    funcs: Vec<Option<String>>,
}

impl View for SlotTable {
    type V = Seq<Option<String>>;

    closed spec fn view(&self) -> Seq<Option<String>> {
        self.funcs@
    }
}

impl SlotTable {
    pub open spec fn wf(&self) -> bool {
        self@.len() == 18
    }

    pub fn new() -> (r: SlotTable)
        ensures
            r.wf(),
            forall|k: int| 0 <= k < 18 ==> r@[k] is None,
    {
        let mut funcs: Vec<Option<String>> = Vec::new();
        let mut i: usize = 0;
        while i < 18
            invariant
                i <= 18,
                funcs@.len() == i,
                forall|k: int| 0 <= k < i ==> funcs@[k] is None,
            decreases 18 - i,
        {
            funcs.push(None);
            i = i + 1;
        }
        SlotTable { funcs }
    }

    /// Writes `func` into `slot`, replacing what was there: the last write wins.
    pub fn install(&mut self, slot: SlotId, func: String)
        requires
            old(self).wf(),
        ensures
            final(self).wf(),
            final(self)@ == old(self)@.update(slot_index(slot), Some(func)),
    {
        let i = slot_index_exec(slot);
        self.funcs.set(i, Some(func));
    }

    /// The function installed for `slot`.
    pub fn get(&self, slot: SlotId) -> (r: Option<String>)
        requires
            self.wf(),
        ensures
            r == self@[slot_index(slot)],
    {
        clone_opt(&self.funcs[slot_index_exec(slot)])
    }
}

/// Validating a class registry is idempotent: a second validation reports
/// the same errors (none are added or lost) and leaves every part as the
/// first left it, so rendering afterwards installs each entry once.
pub proof fn lemma_registry_validate_idempotent(g: GetSetModel, m: MemberModel)
    ensures
        getset_missing(getset_validated(g).entries) == getset_missing(g.entries),
        member_missing(member_validated(m).entries) == member_missing(m.entries),
        getset_validated(getset_validated(g)) == getset_validated(g),
        member_validated(member_validated(m)) == member_validated(m),
{
    lemma_getset_validate_idempotent(g);
    lemma_member_validate_idempotent(m);
}

/// Ordering installers by priority keeps every one of them.
pub proof fn lemma_install_order_len(items: Seq<NurseryItem>)
    ensures
        install_order(items).len() == items.len(),
{
    lemma_ordered_below_len(items, 256);
}

proof fn lemma_ordered_below_len(items: Seq<NurseryItem>, q: int)
    requires
        0 <= q <= 256,
    ensures
        ordered_below(items, q).len() == count_below(items, q),
        q == 256 ==> count_below(items, q) == items.len(),
    decreases items.len(), q,
{
    if q > 0 {
        lemma_ordered_below_len(items, q - 1);
        lemma_with_priority_len(items, q - 1);
    } else {
        lemma_count_below_zero(items);
    }
    if q == 256 {
        lemma_count_below_all(items);
    }
}

/// How many installers have a priority below `q`.
pub open spec fn count_below(items: Seq<NurseryItem>, q: int) -> int
    decreases items.len(),
{
    if items.len() == 0 {
        0
    } else {
        count_below(items.drop_last(), q) + if (items.last().priority as int) < q { 1int } else { 0int }
    }
}

proof fn lemma_with_priority_len(items: Seq<NurseryItem>, p: int)
    ensures
        with_priority(items, p).len() == count_below(items, p + 1) - count_below(items, p),
    decreases items.len(),
{
    if items.len() > 0 {
        lemma_with_priority_len(items.drop_last(), p);
    }
}

proof fn lemma_count_below_all(items: Seq<NurseryItem>)
    ensures
        count_below(items, 256) == items.len(),
    decreases items.len(),
{
    if items.len() > 0 {
        lemma_count_below_all(items.drop_last());
    }
}

proof fn lemma_count_below_zero(items: Seq<NurseryItem>)
    ensures
        count_below(items, 0) == 0,
    decreases items.len(),
{
    if items.len() > 0 {
        lemma_count_below_zero(items.drop_last());
    }
}

/// When every property has a getter, validation finds nothing missing.
pub proof fn lemma_getset_none_missing(entries: Seq<GetSetEntry>)
    requires
        forall|j: int| 0 <= j < entries.len() ==> (#[trigger] entries[j]).getter is Some,
    ensures
        getset_missing(entries).len() == 0,
    decreases entries.len(),
{
    if entries.len() > 0 {
        lemma_getset_none_missing(entries.drop_last());
    }
}

/// `s` without the leading `p`, if it starts with it.
pub open spec fn strip_prefix(s: Seq<char>, p: Seq<char>) -> Option<Seq<char>> {
    if p.len() <= s.len() && s.subrange(0, p.len() as int) == p {
        Some(s.subrange(p.len() as int, s.len() as int))
    } else {
        None
    }
}

/// `__name__`.
pub open spec fn magic_name(n: Seq<char>) -> Seq<char> {
    seq!['_', '_'] + n + seq!['_', '_']
}

pub open spec fn setter_prefix() -> Seq<char> {
    seq!['s', 'e', 't', '_']
}

pub open spec fn deleter_prefix() -> Seq<char> {
    seq!['d', 'e', 'l', '_']
}

fn strip_prefix_exec(s: &str, p: &str) -> (r: Option<String>)
    ensures
        match strip_prefix(s@, p@) {
            Some(t) => r matches Some(x) && x@ == t,
            None => r is None,
        },
{
    let n = s.unicode_len();
    let m = p.unicode_len();
    if m > n {
        return None;
    }
    let mut i: usize = 0;
    while i < m
        invariant
            m <= n,
            n == s@.len() && m == p@.len(),
            i <= m,
            forall|j: int| 0 <= j < i ==> s@[j] == p@[j],
        decreases m - i,
    {
        if s.get_char(i) != p.get_char(i) {
            proof { assert(s@.subrange(0, m as int)[i as int] != p@[i as int]); }
            return None;
        }
        i = i + 1;
    }
    proof { assert(s@.subrange(0, m as int) =~= p@); }
    Some(s.substring_char(m, n).to_owned())
}

fn magic_exec(n: &str) -> (r: String)
    ensures
        r@ == magic_name(n@),
{
    let r = "__".to_owned().concat(n).concat("__");
    proof {
        reveal_strlit("__");
        assert(r@ =~= magic_name(n@));
    }
    r
}

/// The name a method is installed under: the explicit name if given, else
/// the function's name, wrapped as `__name__` when magic.
pub fn method_name(item_name: &str, name: Option<String>, magic: bool) -> (r: String)
    ensures
        r@ == (match name {
            Some(n) => n@,
            None => if magic { magic_name(item_name@) } else { item_name@ },
        }),
{
    match name {
        Some(n) => n,
        None => if magic { magic_exec(item_name) } else { item_name.to_owned() },
    }
}

/// The accessor name derived from a function's name: the name itself for a
/// getter, what follows `set_` or `del_` for a setter or deleter.
pub open spec fn derived_accessor_name(item_name: Seq<char>, kind: GetSetItemKind) -> Option<Seq<char>> {
    match kind {
        GetSetItemKind::Getter => Some(item_name),
        GetSetItemKind::Setter => strip_prefix(item_name, setter_prefix()),
        GetSetItemKind::Deleter => strip_prefix(item_name, deleter_prefix()),
    }
}

fn derived_accessor_exec(item_name: &str, kind: GetSetItemKind) -> (r: Option<String>)
    ensures
        match derived_accessor_name(item_name@, kind) {
            Some(t) => r matches Some(x) && x@ == t,
            None => r is None,
        },
{
    match kind {
        GetSetItemKind::Getter => Some(item_name.to_owned()),
        GetSetItemKind::Setter => {
            proof { reveal_strlit("set_"); assert("set_"@ =~= setter_prefix()); }
            strip_prefix_exec(item_name, "set_")
        }
        GetSetItemKind::Deleter => {
            proof { reveal_strlit("del_"); assert("del_"@ =~= deleter_prefix()); }
            strip_prefix_exec(item_name, "del_")
        }
    }
}

/// The property name an accessor function is registered under: the explicit
/// name if given; else the derived name (see `derived_accessor_name`),
/// wrapped as `__name__` when magic. A setter or deleter whose function name
/// lacks the prefix, or has nothing after it, is refused.
pub fn getset_name(item_name: &str, name: Option<String>, magic: bool, kind: GetSetItemKind) -> (r: Result<String, RegistryError>)
    ensures
        name matches Some(n) ==> r == Ok::<String, RegistryError>(n),
        name is None ==> match derived_accessor_name(item_name@, kind) {
            None => r matches Err(RegistryError::NoAccessorPrefix(x)) && x@ == item_name@,
            Some(b) => if b.len() == 0 {
                r matches Err(RegistryError::EmptyAccessorName(x)) && x@ == item_name@
            } else {
                r matches Ok(x) && x@ == (if magic { magic_name(b) } else { b })
            },
        },
{
    if let Some(n) = name {
        return Ok(n);
    }
    match derived_accessor_exec(item_name, kind) {
        None => Err(RegistryError::NoAccessorPrefix(item_name.to_owned())),
        Some(b) => {
            if b.as_str().unicode_len() == 0 {
                Err(RegistryError::EmptyAccessorName(item_name.to_owned()))
            } else if magic {
                Ok(magic_exec(b.as_str()))
            } else {
                Ok(b)
            }
        }
    }
}

/// The member name an accessor function is registered under: the function's
/// name for a getter, what follows `set_` for a setter; wrapped as
/// `__name__` when magic.
pub fn member_name(item_name: &str, magic: bool, kind: MemberItemKind) -> (r: Result<String, RegistryError>)
    ensures
        ({
            let gk = if kind == MemberItemKind::Getter { GetSetItemKind::Getter } else { GetSetItemKind::Setter };
            match derived_accessor_name(item_name@, gk) {
                None => r matches Err(RegistryError::NoAccessorPrefix(x)) && x@ == item_name@,
                Some(b) => if b.len() == 0 && kind == MemberItemKind::Setter {
                    r matches Err(RegistryError::EmptyAccessorName(x)) && x@ == item_name@
                } else {
                    r matches Ok(x) && x@ == (if magic { magic_name(b) } else { b })
                },
            }
        }),
{
    let gk = if kind == MemberItemKind::Getter { GetSetItemKind::Getter } else { GetSetItemKind::Setter };
    match derived_accessor_exec(item_name, gk) {
        None => Err(RegistryError::NoAccessorPrefix(item_name.to_owned())),
        Some(b) => {
            if kind == MemberItemKind::Setter && b.as_str().unicode_len() == 0 {
                Err(RegistryError::EmptyAccessorName(item_name.to_owned()))
            } else if magic {
                Ok(magic_exec(b.as_str()))
            } else {
                Ok(b)
            }
        }
    }
}

/// What defines a class before it is created: names, documentation, size,
/// hashability, base and metaclass.
#[derive(Debug)]
pub struct ClassDefinition {
    pub name: String,
    pub module: Option<String>,
    /// `module.name`, or the bare name without a module.
    pub qualified_name: String,
    pub doc: Option<String>,
    pub basicsize: usize,
    pub unhashable: bool,
    pub base: Option<String>,
    pub metaclass: Option<String>,
}

/// `module.name`, or `name` alone.
pub open spec fn qualified(name: Seq<char>, module: Option<Seq<char>>) -> Seq<char> {
    match module {
        Some(m) => m + seq!['.'] + name,
        None => name,
    }
}

pub open spec fn tuple_name() -> Seq<char> {
    seq!['t', 'u', 'p', 'l', 'e']
}

impl ClassDefinition {
    /// Builds a class definition. A struct sequence derives from the tuple
    /// type and may not name another base.
    pub fn new(
        name: String,
        module: Option<String>,
        doc: Option<String>,
        basicsize: usize,
        unhashable: bool,
        base: Option<String>,
        metaclass: Option<String>,
        struct_sequence: bool,
    ) -> (r: Result<ClassDefinition, RegistryError>)
        ensures
            struct_sequence && base is Some ==> (r matches Err(RegistryError::StructSequenceBase(n)) && n@ == name@),
            !(struct_sequence && base is Some) ==> (r matches Ok(d) && ({
                &&& d.name@ == name@ && d.module == module && d.doc == doc
                &&& d.qualified_name@ == qualified(name@, match module { Some(m) => Some(m@), None => None })
                &&& d.basicsize == basicsize && d.unhashable == unhashable && d.metaclass == metaclass
                &&& if struct_sequence { (d.base matches Some(b) && b@ == tuple_name()) } else { d.base == base }
            })),
    {
        if struct_sequence && base.is_some() {
            return Err(RegistryError::StructSequenceBase(name));
        }
        let qualified_name = match &module {
            Some(m) => m.clone().concat(".").concat(name.as_str()),
            None => name.clone(),
        };
        proof {
            reveal_strlit(".");
            if module is Some {
                assert(qualified_name@ =~= qualified(name@, Some(module->Some_0@)));
            }
        }
        let base = if struct_sequence {
            let t = "tuple".to_owned();
            proof {
                reveal_strlit("tuple");
                assert(t@ =~= tuple_name());
            }
            Some(t)
        } else {
            base
        };
        Ok(ClassDefinition { name, module, qualified_name, doc, basicsize, unhashable, base, metaclass })
    }
}

/// Every installer is a slot write.
pub open spec fn all_slots(items: Seq<NurseryItem>) -> bool {
    forall|i: int| 0 <= i < items.len() ==> (#[trigger] items[i]).name is Slot
}

impl ItemNursery {
    /// The slot writes, by priority and then in the order added: each slot
    /// with the function written to it.
    pub fn render_slots(&self) -> (r: Vec<(SlotId, String)>)
        requires
            all_slots(self@),
        ensures
            r@.len() == install_order(self@).len(),
            forall|k: int| 0 <= k < r@.len() ==> ItemName::Slot((#[trigger] r@[k]).0) == install_order(self@)[k].name
                && r@[k].1@ == install_order(self@)[k].code@,
    {
        let mut out: Vec<(SlotId, String)> = Vec::new();
        let mut p: u16 = 0;
        while p < 256
            invariant
                p <= 256,
                all_slots(self@),
                out@.len() == ordered_below(self@, p as int).len(),
                forall|k: int| 0 <= k < out@.len() ==> ItemName::Slot((#[trigger] out@[k]).0) == ordered_below(self@, p as int)[k].name
                    && out@[k].1@ == ordered_below(self@, p as int)[k].code@,
            decreases 256 - p,
        {
            let ghost base = ordered_below(self@, p as int);
            let mut i: usize = 0;
            while i < self.items.len()
                invariant
                    p < 256,
                    i <= self.items@.len(),
                    all_slots(self@),
                    self.items@ == self@,
                    base == ordered_below(self@, p as int),
                    out@.len() == base.len() + with_priority(self.items@.subrange(0, i as int), p as int).len(),
                    forall|k: int| 0 <= k < out@.len() ==> ItemName::Slot((#[trigger] out@[k]).0) ==
                        (base + with_priority(self.items@.subrange(0, i as int), p as int))[k].name
                        && out@[k].1@ == (base + with_priority(self.items@.subrange(0, i as int), p as int))[k].code@,
                decreases self.items@.len() - i,
            {
                proof {
                    assert(self.items@.subrange(0, i + 1).drop_last() =~= self.items@.subrange(0, i as int));
                    assert(self.items@[i as int].name is Slot);
                }
                if self.items[i].priority as u16 == p {
                    let id = match &self.items[i].name {
                        ItemName::Slot(id) => *id,
                        ItemName::Attr(_) => SlotId::New,
                    };
                    out.push((id, self.items[i].code.clone()));
                }
                i = i + 1;
            }
            proof {
                assert(self.items@.subrange(0, i as int) =~= self.items@);
            }
            p = p + 1;
        }
        out
    }
}

/// Which function ends up in slot `s` after the writes `ws`, starting from
/// `before`: the last write to `s`, if any.
pub open spec fn last_write(ws: Seq<(SlotId, String)>, s: SlotId, before: Option<String>) -> Option<String>
    decreases ws.len(),
{
    if ws.len() == 0 {
        before
    } else if ws.last().0 == s {
        Some(ws.last().1)
    } else {
        last_write(ws.drop_last(), s, before)
    }
}

proof fn lemma_slot_index_injective(s: SlotId, t: SlotId)
    ensures
        slot_index(s) == slot_index(t) ==> s == t,
        0 <= slot_index(s) < 18,
{
    match s {
        SlotId::New => {}, SlotId::Init => {}, SlotId::Del => {}, SlotId::Repr => {}, SlotId::Str => {},
        SlotId::Hash => {}, SlotId::Call => {}, SlotId::GetAttro => {}, SlotId::SetAttro => {},
        SlotId::RichCompare => {}, SlotId::Iter => {}, SlotId::IterNext => {}, SlotId::DescrGet => {},
        SlotId::DescrSet => {}, SlotId::AsBuffer => {}, SlotId::AsNumber => {}, SlotId::AsSequence => {},
        SlotId::AsMapping => {},
    }
}

impl SlotTable {
    /// Replays slot writes in order: each slot ends with the last function
    /// written to it, so a capability composed after the class's own slots
    /// wins where both write.
    pub fn apply(&mut self, writes: &Vec<(SlotId, String)>)
        requires
            old(self).wf(),
        ensures
            final(self).wf(),
            forall|s: SlotId| #[trigger] final(self)@[slot_index(s)] == last_write(writes@, s, old(self)@[slot_index(s)]),
    {
        let mut i: usize = 0;
        while i < writes.len()
            invariant
                self.wf(),
                i <= writes@.len(),
                forall|s: SlotId| #[trigger] self@[slot_index(s)] == last_write(writes@.subrange(0, i as int), s, old(self)@[slot_index(s)]),
            decreases writes@.len() - i,
        {
            let (id, f) = &writes[i];
            let ghost prev = self@;
            self.install(*id, f.clone());
            proof {
                let w = writes@.subrange(0, i + 1);
                assert(w.drop_last() =~= writes@.subrange(0, i as int));
                assert(w.last() == writes@[i as int]);
                assert forall|s: SlotId| #[trigger] self@[slot_index(s)] == last_write(w, s, old(self)@[slot_index(s)]) by {
                    lemma_slot_index_injective(s, *id);
                    lemma_slot_index_injective(*id, s);
                }
            }
            i = i + 1;
        }
        proof { assert(writes@.subrange(0, i as int) =~= writes@); }
    }
}

/// Installers that all share one priority run in the order they were added.
pub proof fn lemma_install_order_uniform(items: Seq<NurseryItem>, p: u8)
    requires
        forall|i: int| 0 <= i < items.len() ==> (#[trigger] items[i]).priority == p,
    ensures
        install_order(items) == items,
{
    lemma_ordered_below_uniform(items, p, 256);
}

proof fn lemma_ordered_below_uniform(items: Seq<NurseryItem>, p: u8, q: int)
    requires
        0 <= q <= 256,
        forall|i: int| 0 <= i < items.len() ==> (#[trigger] items[i]).priority == p,
    ensures
        ordered_below(items, q) == (if q <= p { Seq::<NurseryItem>::empty() } else { items }),
    decreases q,
{
    if q > 0 {
        lemma_ordered_below_uniform(items, p, q - 1);
        lemma_with_priority_uniform(items, p, q - 1);
        if q - 1 == p {
            assert(Seq::<NurseryItem>::empty() + items =~= items);
        } else if q - 1 > p {
            assert(items + Seq::<NurseryItem>::empty() =~= items);
        } else {
            assert(Seq::<NurseryItem>::empty() + Seq::<NurseryItem>::empty() =~= Seq::<NurseryItem>::empty());
        }
    }
}

proof fn lemma_with_priority_uniform(items: Seq<NurseryItem>, p: u8, r: int)
    requires
        forall|i: int| 0 <= i < items.len() ==> (#[trigger] items[i]).priority == p,
    ensures
        with_priority(items, r) == (if r == p { items } else { Seq::<NurseryItem>::empty() }),
    decreases items.len(),
{
    if items.len() > 0 {
        let d = items.drop_last();
        assert forall|i: int| 0 <= i < d.len() implies (#[trigger] d[i]).priority == p by {
            assert(d[i] == items[i]);
        }
        lemma_with_priority_uniform(d, p, r);
        assert(items.last() == items[items.len() - 1]);
        if r == p {
            assert(d.push(items.last()) =~= items);
        }
    }
}

} // verus!
