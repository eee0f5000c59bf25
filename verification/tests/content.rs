use rustaria::api::{reload, Carrier, ReloadError};
use rustaria::attribute::{AttributeDescriptor, AttributeType};
use rustaria::chunk::BlockPrototype;
use rustaria::lookup::{RegisterError, Registry};
use rustaria::prototype::{EntityPrototype, HitboxComp, VelocityCompPrototype};
use rustaria::tag::{Tag, TagError};

fn tag(m: &str, o: &str) -> Tag {
    Tag::new(m.to_owned(), o.to_owned())
}

#[test]
fn tag_parse_splits_at_first_colon() {
    let t = Tag::parse("rustaria:dirt").unwrap();
    assert_eq!(t, tag("rustaria", "dirt"));
}

#[test]
fn tag_parse_keeps_later_colons_in_object_id() {
    let t = Tag::parse("a:b:c").unwrap();
    assert_eq!(t, tag("a", "b:c"));
}

#[test]
fn tag_parse_rejects_missing_delimiter() {
    assert_eq!(Tag::parse("no delimiter").err().unwrap(), TagError::MissingDelimiter);
}

#[test]
fn registry_assigns_dense_ids_and_looks_up_both_ways() {
    let mut reg: Registry<BlockPrototype> = Registry::new("block".to_owned());
    let a = reg.register(tag("m", "a"), BlockPrototype { collision: true }).unwrap();
    let b = reg.register(tag("m", "b"), BlockPrototype { collision: false }).unwrap();
    assert_eq!(a.index(), 0);
    assert_eq!(b.index(), 1);
    assert_eq!(reg.get_id(&tag("m", "a")).unwrap().index(), 0);
    assert_eq!(reg.get_id(&tag("m", "b")).unwrap().index(), 1);
    assert!(reg.get_id(&tag("m", "c")).is_none());
    assert_eq!(reg.get_tag(&a).unwrap(), tag("m", "a"));
    assert_eq!(reg.get_tag(&b).unwrap(), tag("m", "b"));
    assert_eq!(reg.get_entry(&a).unwrap().collision, true);
    assert_eq!(reg.get_entry(&b).unwrap().collision, false);
    assert_eq!(reg.entries().len(), 2);
}

#[test]
fn registry_rejects_duplicate_tag() {
    let mut reg: Registry<BlockPrototype> = Registry::new("block".to_owned());
    reg.register(tag("m", "a"), BlockPrototype { collision: true }).unwrap();
    let r = reg.register(tag("m", "a"), BlockPrototype { collision: false });
    assert_eq!(r.err().unwrap(), RegisterError::DuplicateTag);
}

#[test]
fn reload_builds_carrier_in_list_order() {
    let mut carrier: Option<Carrier> = None;
    let blocks = vec![
        (tag("m", "stone"), BlockPrototype { collision: true }),
        (tag("m", "air"), BlockPrototype { collision: false }),
    ];
    let entities = vec![(
        tag("m", "walker"),
        EntityPrototype {
            velocity: Some(VelocityCompPrototype { dx: 1, dy: 0 }),
            hitbox: Some(HitboxComp {}),
        },
    )];
    reload(&mut carrier, blocks, entities).unwrap();
    let c = carrier.unwrap();
    assert_eq!(c.blocks.len(), 2);
    assert_eq!(c.blocks.get(rustaria::registry::Id::new(0)).collision, true);
    assert_eq!(c.blocks.get(rustaria::registry::Id::new(1)).collision, false);
    assert_eq!(c.entities.len(), 1);
    let d = c.entities.get(rustaria::registry::Id::new(0));
    assert_eq!(d.id, 0);
    assert_eq!(d.velocity.unwrap().dx, 1);
    assert!(d.hitbox.is_some());
}

#[test]
fn reload_rejects_duplicate_block_tag_and_keeps_old_carrier() {
    let mut carrier: Option<Carrier> = None;
    let blocks = vec![
        (tag("m", "x"), BlockPrototype { collision: true }),
        (tag("m", "x"), BlockPrototype { collision: false }),
    ];
    let r = reload(&mut carrier, blocks, Vec::new());
    assert_eq!(r.err().unwrap(), ReloadError::DuplicateBlockTag);
    assert!(carrier.is_none());
}

#[test]
fn reload_rejects_duplicate_entity_tag() {
    let mut carrier: Option<Carrier> = None;
    let entities = vec![
        (tag("m", "e"), EntityPrototype { velocity: None, hitbox: None }),
        (tag("m", "e"), EntityPrototype { velocity: None, hitbox: None }),
    ];
    let r = reload(&mut carrier, Vec::new(), entities);
    assert_eq!(r.err().unwrap(), ReloadError::DuplicateEntityTag);
}

#[test]
fn attribute_sizes_and_amounts() {
    let d = AttributeDescriptor::new(3, AttributeType::Float(2));
    assert_eq!(d.index, 3);
    assert_eq!(AttributeType::Float(2).get_size(), 8);
    assert_eq!(AttributeType::Float(2).get_amount(), 2);
    assert_eq!(AttributeType::Double(3).get_size(), 24);
    assert_eq!(AttributeType::Byte(5).get_size(), 5);
    assert_eq!(AttributeType::UnsignedShort(4).get_size(), 8);
    assert_eq!(AttributeType::Int(1).get_size(), 4);
    assert_eq!(AttributeType::UnsignedInt(2).get_amount(), 2);
}
