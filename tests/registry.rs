use pynative::registry::{
    ClassDefinition, getset_name, member_name, method_name, slot_discipline, ClassRegistry, GetSetItemKind, GetSetNursery, ItemName, ItemNursery, MemberItemKind,
    MemberKind, MemberNursery, NurseryItem, RegistryError, SlotDiscipline, SlotId, SlotTable,
};

fn s(x: &str) -> String {
    x.to_string()
}

fn item(name: &str, guard: &[&str], code: &str, priority: u8) -> NurseryItem {
    NurseryItem {
        name: ItemName::Attr(s(name)),
        guard: guard.iter().map(|g| s(g)).collect(),
        code: s(code),
        priority,
    }
}

#[test]
fn validate_twice_reports_the_same() {
    let mut n = GetSetNursery::new();
    n.add_item(s("x"), vec![], GetSetItemKind::Setter, s("set_x")).unwrap();
    n.add_item(s("y"), vec![], GetSetItemKind::Getter, s("y")).unwrap();
    n.add_item(s("z"), vec![], GetSetItemKind::Deleter, s("del_z")).unwrap();
    let first = n.validate().unwrap_err();
    let second = n.validate().unwrap_err();
    assert_eq!(first, vec![RegistryError::MissingGetter(s("x")), RegistryError::MissingGetter(s("z"))]);
    assert_eq!(first, second);

    let mut ok = GetSetNursery::new();
    ok.add_item(s("x"), vec![], GetSetItemKind::Getter, s("x")).unwrap();
    ok.add_item(s("x"), vec![], GetSetItemKind::Setter, s("set_x")).unwrap();
    assert_eq!(ok.validate(), Ok(()));
    assert_eq!(ok.validate(), Ok(()));
    let props = ok.render();
    assert_eq!(props.len(), 1);
    assert_eq!((props[0].getter.as_str(), props[0].setter.as_deref()), ("x", Some("set_x")));
}

#[test]
fn accessor_rules() {
    let mut n = GetSetNursery::new();
    n.add_item(s("x"), vec![], GetSetItemKind::Getter, s("x")).unwrap();
    assert_eq!(
        n.add_item(s("x"), vec![], GetSetItemKind::Getter, s("x2")),
        Err(RegistryError::DuplicateAccessor(s("x")))
    );
    assert_eq!(
        n.add_item(s("x"), vec![s("unix")], GetSetItemKind::Setter, s("set_x")),
        Err(RegistryError::GuardedAccessor(s("x")))
    );
    // the same name under another guard is another property
    n.add_item(s("x"), vec![s("unix")], GetSetItemKind::Getter, s("x_unix")).unwrap();
    n.validate().unwrap();
    assert_eq!(n.render().len(), 2);
}

#[test]
fn members_keyed_by_representation() {
    let mut m = MemberNursery::new();
    m.add_item(s("flag"), MemberItemKind::Getter, MemberKind::Bool, s("flag")).unwrap();
    m.add_item(s("flag"), MemberItemKind::Getter, MemberKind::ObjectEx, s("flag_obj")).unwrap();
    m.add_item(s("flag"), MemberItemKind::Setter, MemberKind::Bool, s("set_flag")).unwrap();
    assert_eq!(
        m.add_item(s("flag"), MemberItemKind::Setter, MemberKind::Bool, s("again")),
        Err(RegistryError::DuplicateAccessor(s("flag")))
    );
    m.add_item(s("orphan"), MemberItemKind::Setter, MemberKind::ObjectEx, s("set_orphan")).unwrap();
    assert_eq!(m.validate(), Err(vec![RegistryError::MissingGetter(s("orphan"))]));
    assert_eq!(m.validate(), Err(vec![RegistryError::MissingGetter(s("orphan"))]));

    let mut ok = MemberNursery::new();
    ok.add_item(s("flag"), MemberItemKind::Getter, MemberKind::Bool, s("flag")).unwrap();
    ok.validate().unwrap();
    let r = ok.render();
    assert_eq!((r[0].name.as_str(), r[0].kind, r[0].setter.clone()), ("flag", MemberKind::Bool, None));
}

#[test]
fn installers_run_by_priority_then_insertion() {
    let mut n = ItemNursery::new();
    n.add_item(item("method_a", &[], "A", 5)).unwrap();
    n.add_item(item("CONST", &[], "C", 1)).unwrap();
    n.add_item(item("method_b", &[], "B", 5)).unwrap();
    n.add_item(item("OTHER", &[], "D", 1)).unwrap();
    assert_eq!(n.render(), vec![s("C"), s("D"), s("A"), s("B")]);
}

#[test]
fn duplicate_name_and_guard_refused() {
    let mut n = ItemNursery::new();
    n.add_item(item("f", &["unix"], "1", 5)).unwrap();
    assert_eq!(n.add_item(item("f", &["unix"], "2", 5)), Err(RegistryError::Duplicate(ItemName::Attr(s("f")))));
    n.add_item(item("f", &["windows"], "3", 5)).unwrap();
    n.add_item(item("f", &[], "4", 5)).unwrap();
    assert_eq!(n.render(), vec![s("1"), s("3"), s("4")]);
}

#[test]
fn class_registry_validate_is_idempotent() {
    let mut reg = ClassRegistry::new();
    reg.add_method(s("m"), vec![], s("install m")).unwrap();
    reg.add_attribute(s("K"), vec![], s("install K")).unwrap();
    reg.add_slot(SlotId::Hash, vec![], s("hash")).unwrap();
    assert_eq!(reg.add_slot(SlotId::Hash, vec![], s("hash2")), Err(RegistryError::Duplicate(ItemName::Slot(SlotId::Hash))));
    reg.getsets.add_item(s("p"), vec![], GetSetItemKind::Setter, s("set_p")).unwrap();
    let e1 = reg.validate().unwrap_err();
    let e2 = reg.validate().unwrap_err();
    assert_eq!(e1, e2);
    assert_eq!(e1, vec![RegistryError::MissingGetter(s("p"))]);

    let mut good = ClassRegistry::new();
    good.add_method(s("m"), vec![], s("install m")).unwrap();
    good.add_attribute(s("K"), vec![], s("install K")).unwrap();
    good.add_slot(SlotId::Repr, vec![], s("repr")).unwrap();
    good.validate().unwrap();
    good.validate().unwrap();
    let c = good.render();
    assert_eq!(c.attributes, vec![s("install K"), s("install m")]);
    assert_eq!(c.slots, vec![(SlotId::Repr, s("repr"))]);
}

#[test]
fn composed_capabilities_come_after_and_last_slot_write_wins() {
    let mut primary = ClassRegistry::new();
    primary.add_method(s("own"), vec![], s("own")).unwrap();
    primary.add_slot(SlotId::Hash, vec![], s("own_hash")).unwrap();
    primary.validate().unwrap();
    let mut cap = ClassRegistry::new();
    cap.add_method(s("borrowed"), vec![], s("borrowed")).unwrap();
    cap.add_slot(SlotId::Hash, vec![], s("cap_hash")).unwrap();
    cap.validate().unwrap();
    let mut install = primary.render();
    install.compose(cap.render());
    assert_eq!(install.attributes, vec![s("own"), s("borrowed")]);
    assert_eq!(install.slots, vec![(SlotId::Hash, s("own_hash")), (SlotId::Hash, s("cap_hash"))]);

    let mut table = SlotTable::new();
    table.install(SlotId::Repr, s("old_repr"));
    table.apply(&install.slots);
    assert_eq!(table.get(SlotId::Hash), Some(s("cap_hash")));
    assert_eq!(table.get(SlotId::Repr), Some(s("old_repr")));
    assert_eq!(table.get(SlotId::Iter), None);
}

#[test]
fn slot_write_disciplines() {
    assert_eq!(slot_discipline(SlotId::AsBuffer), SlotDiscipline::Plain);
    assert_eq!(slot_discipline(SlotId::AsSequence), SlotDiscipline::PointerTable);
    assert_eq!(slot_discipline(SlotId::AsMapping), SlotDiscipline::PointerTable);
    assert_eq!(slot_discipline(SlotId::AsNumber), SlotDiscipline::PointerTable);
    assert_eq!(slot_discipline(SlotId::Hash), SlotDiscipline::Atomic);
}

#[test]
fn extension_hooks_follow_attributes() {
    let mut reg = ClassRegistry::new();
    reg.add_extension(s("hook one"));
    reg.add_method(s("m"), vec![], s("m")).unwrap();
    reg.add_extension(s("hook two"));
    reg.validate().unwrap();
    let mut c = reg.render();
    assert_eq!(c.attributes, vec![s("m")]);
    assert_eq!(c.extensions, vec![s("hook one"), s("hook two")]);
    let mut cap = ClassRegistry::new();
    cap.add_extension(s("cap hook"));
    cap.validate().unwrap();
    c.compose(cap.render());
    assert_eq!(c.extensions, vec![s("hook one"), s("hook two"), s("cap hook")]);
}

#[test]
fn names_derived_from_functions() {
    assert_eq!(method_name("len", None, true), "__len__");
    assert_eq!(method_name("append", None, false), "append");
    assert_eq!(method_name("x", Some(s("explicit")), true), "explicit");
    assert_eq!(getset_name("value", None, false, GetSetItemKind::Getter), Ok(s("value")));
    assert_eq!(getset_name("set_value", None, false, GetSetItemKind::Setter), Ok(s("value")));
    assert_eq!(getset_name("del_doc", None, true, GetSetItemKind::Deleter), Ok(s("__doc__")));
    assert_eq!(getset_name("value", None, false, GetSetItemKind::Setter), Err(RegistryError::NoAccessorPrefix(s("value"))));
    assert_eq!(getset_name("set_", None, false, GetSetItemKind::Setter), Err(RegistryError::EmptyAccessorName(s("set_"))));
    assert_eq!(getset_name("whatever", Some(s("n")), true, GetSetItemKind::Setter), Ok(s("n")));
    assert_eq!(member_name("set_flag", false, MemberItemKind::Setter), Ok(s("flag")));
    assert_eq!(member_name("dict", true, MemberItemKind::Getter), Ok(s("__dict__")));
    assert_eq!(member_name("flag", false, MemberItemKind::Setter), Err(RegistryError::NoAccessorPrefix(s("flag"))));
    assert_eq!(member_name("sét_x", false, MemberItemKind::Setter), Err(RegistryError::NoAccessorPrefix(s("sét_x"))));
}

#[test]
fn class_definitions() {
    let d = ClassDefinition::new(s("array"), Some(s("array")), None, 48, false, None, None, false).unwrap();
    assert_eq!(d.qualified_name, "array.array");
    let r = ClassDefinition::new(s("range"), None, Some(s("doc")), 24, false, None, None, false).unwrap();
    assert_eq!((r.qualified_name.as_str(), r.base.clone()), ("range", None));
    let t = ClassDefinition::new(s("struct_time"), Some(s("time")), None, 8, false, None, None, true).unwrap();
    assert_eq!(t.base, Some(s("tuple")));
    let e = ClassDefinition::new(s("x"), None, None, 8, true, Some(s("object")), None, true).unwrap_err();
    assert_eq!(e, RegistryError::StructSequenceBase(s("x")));
}
