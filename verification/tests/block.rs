use block_state::catalog::{compile, BlockType, Catalog, PropName, PropValue};
use block_state::schema::{BlockDef, PropDef, PropKind, SchemaError};
use block_state::state::BlockState;

fn prop(kind: PropKind, name: &str, vals: &[&str]) -> PropDef {
    PropDef {
        kind,
        name: name.to_string(),
        vals: vals.iter().map(|v| v.to_string()).collect(),
    }
}

fn block(name: &str, default: u16, min: u16, max: u16, props: Vec<PropDef>) -> BlockDef {
    BlockDef {
        name: name.to_string(),
        default_state: default,
        min_state_id: min,
        max_state_id: max,
        props,
    }
}

/// A small schema: an empty kind, a numeric filler so the door can start at
/// id 100, the door itself, and a barrel with a boolean property.
fn sample_schema() -> Vec<BlockDef> {
    let mut digits: Vec<String> = Vec::new();
    for i in 0..99u16 {
        digits.push(i.to_string());
    }
    vec![
        block("air", 0, 0, 0, vec![]),
        block(
            "filler",
            1,
            1,
            99,
            vec![PropDef { kind: PropKind::Int, name: "level".to_string(), vals: digits }],
        ),
        block(
            "door",
            100,
            100,
            115,
            vec![
                prop(PropKind::Enum, "facing", &["north", "south", "east", "west"]),
                prop(PropKind::Bool, "open", &[]),
                prop(PropKind::Enum, "hinge", &["left", "right"]),
            ],
        ),
        block(
            "barrel",
            116,
            116,
            117,
            vec![prop(PropKind::Bool, "waterlogged", &[])],
        ),
    ]
}

fn sample_catalog() -> Catalog {
    compile(&sample_schema()).expect("schema compiles")
}

#[test]
fn get_set_consistency() {
    let cat = sample_catalog();
    for kind in BlockType::all(&cat) {
        let block = kind.to_state(&cat);

        for prop in kind.props(&cat) {
            let new_block = block.set(&cat, prop, block.get(&cat, prop).unwrap());
            assert_eq!(new_block, block);
        }
    }
}

#[test]
fn door_stride_scenario() {
    let cat = sample_catalog();
    let facing = PropName::from_str(&cat, "facing").unwrap();
    let open = PropName::from_str(&cat, "open").unwrap();
    let hinge = PropName::from_str(&cat, "hinge").unwrap();
    let east = PropValue::from_str(&cat, "east").unwrap();
    let tru = PropValue::from_str(&cat, "true").unwrap();
    let left = PropValue::from_str(&cat, "left").unwrap();

    let door = BlockType::from_str(&cat, "door").unwrap();
    let s = door
        .to_state(&cat)
        .set(&cat, facing, east)
        .set(&cat, open, tru)
        .set(&cat, hinge, left);
    // facing=east is index 2 with stride 4; open=true and hinge=left are
    // index 0, so the id is 100 + 2*4 = 108.
    assert_eq!(s.to_raw(), 108);
    let s2 = BlockState::from_raw(&cat, 108).unwrap();
    assert_eq!(s2.get(&cat, facing), Some(east));
    assert_eq!(s2.get(&cat, open), Some(tru));
    assert_eq!(s2.get(&cat, hinge), Some(left));
}

#[test]
fn set_get_roundtrip_all_domain_values() {
    let cat = sample_catalog();
    let door = BlockType::from_str(&cat, "door").unwrap();
    let base = door.to_state(&cat);
    for (name, vals) in [
        ("facing", vec!["north", "south", "east", "west"]),
        ("open", vec!["true", "false"]),
        ("hinge", vec!["left", "right"]),
    ] {
        let p = PropName::from_str(&cat, name).unwrap();
        for vs in vals {
            let v = PropValue::from_str(&cat, vs).unwrap();
            assert_eq!(base.set(&cat, p, v).get(&cat, p), Some(v));
        }
    }
}

#[test]
fn set_missing_property_is_noop() {
    let cat = sample_catalog();
    let door = BlockType::from_str(&cat, "door").unwrap();
    let s = door.to_state(&cat);
    let waterlogged = PropName::from_str(&cat, "waterlogged").unwrap();
    let tru = PropValue::from_str(&cat, "true").unwrap();
    // The door has no waterlogged property: the write must silently keep
    // the state unchanged, not fail.
    assert_eq!(s.set(&cat, waterlogged, tru), s);
    // A value outside the property's domain is also a silent no-op.
    let facing = PropName::from_str(&cat, "facing").unwrap();
    let left = PropValue::from_str(&cat, "left").unwrap();
    assert_eq!(s.set(&cat, facing, left), s);
}

#[test]
fn shared_value_identifier_across_types() {
    let cat = sample_catalog();
    let open = PropName::from_str(&cat, "open").unwrap();
    let waterlogged = PropName::from_str(&cat, "waterlogged").unwrap();
    let door = BlockType::from_str(&cat, "door").unwrap();
    let barrel = BlockType::from_str(&cat, "barrel").unwrap();
    let v1 = door.to_state(&cat).get(&cat, open).unwrap();
    let v2 = barrel.to_state(&cat).get(&cat, waterlogged).unwrap();
    // Both default states store "true"; the identifier is one and the same.
    assert_eq!(v1, v2);
    assert_eq!(v1.to_bool(&cat), Some(true));
}

#[test]
fn raw_id_bijection() {
    let cat = sample_catalog();
    for id in 0..=117u16 {
        let s = BlockState::from_raw(&cat, id).unwrap();
        assert_eq!(s.to_raw(), id);
        assert_eq!(BlockState::from_raw(&cat, s.to_raw()), Some(s));
    }
    for id in [118u16, 200, 65535] {
        assert_eq!(BlockState::from_raw(&cat, id), None);
    }
}

#[test]
fn partition_of_ranges() {
    let cat = sample_catalog();
    // Every id up to the maximum belongs to exactly one type, and the
    // ranges tile the space in declaration order with no gaps.
    let mut expected = 0usize;
    for id in 0..=117u16 {
        let t = BlockState::from_raw(&cat, id).unwrap().to_type(&cat);
        let names = ["air", "filler", "door", "barrel"];
        let bounds = [(0u16, 0u16), (1, 99), (100, 115), (116, 117)];
        while id > bounds[expected].1 {
            expected += 1;
        }
        assert_eq!(t, BlockType::from_str(&cat, names[expected]).unwrap());
    }
}

#[test]
fn name_lookups() {
    let cat = sample_catalog();
    assert!(BlockType::from_str(&cat, "door").is_some());
    assert!(BlockType::from_str(&cat, "Door").is_none());
    assert!(BlockType::from_str(&cat, "granite").is_none());
    let door = BlockType::from_str(&cat, "door").unwrap();
    assert_eq!(door.to_str(&cat), "door");
    let facing = PropName::from_str(&cat, "facing").unwrap();
    assert_eq!(facing.to_str(&cat), "facing");
    assert!(PropName::from_str(&cat, "colour").is_none());
    let east = PropValue::from_str(&cat, "east").unwrap();
    assert_eq!(east.to_str(&cat), "east");
    assert!(PropValue::from_str(&cat, "upside_down").is_none());
}

#[test]
fn enumerations_are_in_catalog_order() {
    let cat = sample_catalog();
    let types = BlockType::all(&cat);
    assert_eq!(types.len(), 4);
    assert_eq!(types[0].to_str(&cat), "air");
    assert_eq!(types[2].to_str(&cat), "door");
    let names = PropName::all(&cat);
    let spelled: Vec<String> = names.iter().map(|n| n.to_str(&cat)).collect();
    let mut sorted = spelled.clone();
    sorted.sort();
    assert_eq!(spelled, sorted);
    assert_eq!(names.len(), 5);
    let values = PropValue::all(&cat);
    let spelled: Vec<String> = values.iter().map(|v| v.to_str(&cat)).collect();
    let mut sorted = spelled.clone();
    sorted.sort();
    assert_eq!(spelled, sorted);
}

#[test]
fn numeric_and_boolean_values() {
    let cat = sample_catalog();
    let seven = PropValue::from_u16(&cat, 7).unwrap();
    assert_eq!(seven.to_str(&cat), "7");
    assert_eq!(seven.to_u16(&cat), Some(7));
    assert_eq!(PropValue::from_u16(&cat, 99), None);
    let east = PropValue::from_str(&cat, "east").unwrap();
    assert_eq!(east.to_u16(&cat), None);
    let tru = PropValue::from_bool(&cat, true).unwrap();
    assert_eq!(tru.to_str(&cat), "true");
    assert_eq!(tru.to_bool(&cat), Some(true));
    let fal = PropValue::from_bool(&cat, false).unwrap();
    assert_eq!(fal.to_bool(&cat), Some(false));
    assert_eq!(east.to_bool(&cat), None);
}

#[test]
fn rendering() {
    let cat = sample_catalog();
    let s = BlockState::from_raw(&cat, 108).unwrap();
    assert_eq!(
        block_state::render::fmt_block_state(&cat, s),
        "door[facing=east, open=true, hinge=left]"
    );
    let air = BlockState::from_raw(&cat, 0).unwrap();
    assert_eq!(block_state::render::fmt_block_state(&cat, air), "air");
}

#[test]
fn empty_schema_has_no_states() {
    let cat = compile(&Vec::new()).ok().expect("an empty schema compiles");
    assert!(BlockState::from_raw(&cat, 0).is_none());
    assert!(BlockType::all(&cat).is_empty());
    assert!(BlockType::from_str(&cat, "air").is_none());
}

#[test]
fn rendering_numeric_property() {
    let cat = sample_catalog();
    let s = BlockState::from_raw(&cat, 5).unwrap();
    assert_eq!(block_state::render::fmt_block_state(&cat, s), "filler[level=4]");
}

#[test]
fn schema_rejections() {
    // Range size disagreeing with the domain product.
    let mut s = sample_schema();
    s[2].max_state_id = 110;
    assert_eq!(compile(&s).err(), Some(SchemaError::SizeMismatch { index: 2 }));
    // A gap between consecutive ranges.
    let mut s = sample_schema();
    s[3].min_state_id = 120;
    s[3].max_state_id = 121;
    assert_eq!(compile(&s).err(), Some(SchemaError::NonContiguous { index: 3 }));
    // A default outside the block's own range.
    let mut s = sample_schema();
    s[3].default_state = 2;
    assert_eq!(compile(&s).err(), Some(SchemaError::DefaultOutOfRange { index: 3 }));
    // Two blocks with one name.
    let mut s = sample_schema();
    s[3].name = "door".to_string();
    assert_eq!(compile(&s).err(), Some(SchemaError::DuplicateBlockName { index: 3 }));
    // One block declaring a property name twice.
    let mut s = sample_schema();
    s[2].props[2] = prop(PropKind::Enum, "facing", &["left", "right"]);
    assert_eq!(compile(&s).err(), Some(SchemaError::DuplicatePropName { index: 2 }));
}
