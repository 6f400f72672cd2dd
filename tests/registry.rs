use rusthypergraph::attributes::Attributes;
use rusthypergraph::entity::Entity;
use rusthypergraph::label_encoder::LabelEncoder;
use rusthypergraph::meta_handler::MetaHandler;

#[test]
fn add_obj_is_idempotent() {
    let mut m = MetaHandler::new();
    let a = m.add_obj(Entity::Node(5), Some("node".to_string()), None);
    let b = m.add_obj(Entity::Node(5), Some("other".to_string()), None);
    assert_eq!(a, 0);
    assert_eq!(b, 0);
    let attrs = m.get_attributes(0).unwrap();
    assert_eq!(attrs.get(&"type".to_string()).unwrap(), "node");
    assert_eq!(attrs.get(&"name".to_string()).unwrap(), "5");
}

#[test]
fn supplied_attributes_override_defaults() {
    let mut m = MetaHandler::new();
    let mut extra = Attributes::new();
    extra.insert("name".to_string(), "five".to_string());
    extra.insert("w".to_string(), "1".to_string());
    let id = m.add_obj(Entity::Edge(vec![1, 20, 300]), None, Some(extra));
    let attrs = m.get_attr(&Entity::Edge(vec![1, 20, 300])).unwrap();
    assert_eq!(attrs.get(&"name".to_string()).unwrap(), "five");
    assert_eq!(attrs.get(&"w".to_string()).unwrap(), "1");
    assert!(attrs.get(&"type".to_string()).is_none());
    assert_eq!(id, 0);
}

#[test]
fn identities_are_never_reused() {
    let mut m = MetaHandler::new();
    m.add_obj(Entity::Node(1), None, None);
    m.add_obj(Entity::Node(2), None, None);
    m.remove_object(&Entity::Node(2)).unwrap();
    assert!(m.get_object_by_id(1).is_none());
    assert!(m.get_attributes(1).is_none());
    let c = m.add_obj(Entity::Node(2), None, None);
    assert_eq!(c, 2);
    assert!(m.remove_object(&Entity::Node(9)).is_err());
}

#[test]
fn lookups_by_object_and_identity() {
    let mut m = MetaHandler::new();
    m.add_obj(Entity::Edge(vec![1, 2]), Some("edge".to_string()), None);
    assert_eq!(m.get_id(&Entity::Edge(vec![1, 2])).unwrap(), 0);
    assert_eq!(m.get_id_by_object(&Entity::Edge(vec![1, 2])), Some(0));
    assert!(m.get_id(&Entity::Edge(vec![2, 1])).is_err());
    assert!(m.get_id(&Entity::Node(1)).is_err());
    assert_eq!(m.get_id(&Entity::Node(1)).unwrap_err(), "No object 1.");
    assert!(m.get_object_by_id(0).unwrap().same(&Entity::Edge(vec![1, 2])));
    assert!(m.get_attr(&Entity::Node(3)).is_err());
}

#[test]
fn set_attr_merges_and_set_attributes_replaces() {
    let mut m = MetaHandler::new();
    m.add_obj(Entity::Node(4), Some("node".to_string()), None);
    let mut more = Attributes::new();
    more.insert("color".to_string(), "blue".to_string());
    m.set_attr(&Entity::Node(4), more.copy()).unwrap();
    let a = m.get_attributes(0).unwrap();
    assert_eq!(a.get(&"color".to_string()).unwrap(), "blue");
    assert_eq!(a.get(&"type".to_string()).unwrap(), "node");
    assert!(m.set_attr(&Entity::Node(8), more.copy()).is_err());
    m.set_attributes_by_id(0, more);
    let b = m.get_attributes(0).unwrap();
    assert!(b.get(&"type".to_string()).is_none());
}

#[test]
fn entity_names() {
    assert_eq!(Entity::Node(0).name(), "0");
    assert_eq!(Entity::Node(1234).name(), "1234");
    assert_eq!(Entity::Edge(vec![3, 10, 7]).name(), "[3, 10, 7]");
    assert_eq!(Entity::Edge(vec![]).name(), "[]");
}

#[test]
fn attribute_map_basics() {
    let mut a = Attributes::new();
    a.insert("k".to_string(), "1".to_string());
    a.insert("k".to_string(), "2".to_string());
    assert_eq!(a.get(&"k".to_string()).unwrap(), "2");
    assert_eq!(a.pairs().len(), 1);
    let mut b = Attributes::new();
    b.insert("k".to_string(), "3".to_string());
    b.insert("j".to_string(), "4".to_string());
    a.extend(&b);
    assert_eq!(a.get(&"k".to_string()).unwrap(), "3");
    assert_eq!(a.get(&"j".to_string()).unwrap(), "4");
    assert!(!a.contains_key(&"z".to_string()));
}

#[test]
fn label_encoder_sorts_before_indexing() {
    let mut e = LabelEncoder::new();
    e.fit(vec![7, 3, 5]);
    assert_eq!(e.transform(3), Some(0));
    assert_eq!(e.transform(5), Some(1));
    assert_eq!(e.transform(7), Some(2));
    assert_eq!(e.inverse_transform(1), Some(5));
    assert_eq!(e.inverse_transform(9), None);
    assert_eq!(e.get_mapping().len(), 3);
}

#[test]
fn label_encoder_repeated_node_keeps_last_index() {
    let mut e = LabelEncoder::new();
    e.fit(vec![2, 1, 2]);
    assert_eq!(e.transform(1), Some(0));
    assert_eq!(e.transform(2), Some(2));
    assert_eq!(e.inverse_transform(1), None);
}
