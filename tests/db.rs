use knowledge_base::db::{ConnectionStep, DbConnection, ObjectTypeTable};
use knowledge_base::object_type::{DataType, ObjectType};

fn book() -> ObjectType {
    let mut ot = ObjectType::new("Book");
    ot.add_attribute("isbn", DataType::String, true).unwrap();
    ot.add_attribute("title", DataType::String, false).unwrap();
    ot
}

#[test]
fn create_then_list_round_trips() {
    let mut table = ObjectTypeTable::new();
    assert!(table.list().is_empty());
    let ot = book();
    assert_eq!(table.create(&ot), Some(ot.clone()));
    let listed = table.list();
    assert_eq!(listed.len(), 1);
    assert_eq!(listed[0], ot);
    assert_eq!(listed[0].id_parts(), &vec!["isbn".to_string()]);
}

#[test]
fn create_overwrites_same_name() {
    let mut table = ObjectTypeTable::new();
    table.create(&ObjectType::new("Book"));
    let ot = book();
    assert_eq!(table.create(&ot), Some(ot.clone()));
    assert_eq!(table.list(), vec![ot]);
}

#[test]
fn update_twice_same_as_once() {
    let mut table = ObjectTypeTable::new();
    table.create(&ObjectType::new("Book"));
    table.create(&ObjectType::new("Author"));
    let ot = book();
    assert_eq!(table.update(&ot), Some(ot.clone()));
    let once = table.list();
    assert_eq!(table.update(&ot), Some(ot.clone()));
    assert_eq!(table.list(), once);
    assert_eq!(once, vec![ot, ObjectType::new("Author")]);
}

#[test]
fn update_missing_is_none() {
    let mut table = ObjectTypeTable::new();
    table.create(&ObjectType::new("Author"));
    assert_eq!(table.update(&book()), None);
    assert_eq!(table.list(), vec![ObjectType::new("Author")]);
}

#[test]
fn delete_then_list_lacks_name() {
    let mut table = ObjectTypeTable::new();
    let ot = book();
    table.create(&ot);
    table.create(&ObjectType::new("Author"));
    assert_eq!(table.delete(&ObjectType::new("Book")), Some(ot));
    let listed = table.list();
    assert!(listed.iter().all(|d| d.name() != "Book"));
    assert_eq!(listed, vec![ObjectType::new("Author")]);
}

#[test]
fn delete_missing_is_none() {
    let mut table = ObjectTypeTable::new();
    assert_eq!(table.delete(&book()), None);
    assert!(table.list().is_empty());
}

#[test]
fn distinct_creates_give_one_document_each() {
    let mut table = ObjectTypeTable::new();
    let n = 25;
    for k in 0..n {
        let mut ot = ObjectType::new(&format!("type{}", k));
        ot.add_attribute(&format!("key{}", k), DataType::Int, true).unwrap();
        table.create(&ot);
    }
    let listed = table.list();
    assert_eq!(listed.len(), n);
    for (k, d) in listed.iter().enumerate() {
        assert_eq!(d.name(), &format!("type{}", k));
        assert_eq!(d.attributes().len(), 1);
        assert_eq!(d.attributes()[0].name(), &format!("key{}", k));
        assert_eq!(d.id_parts(), &vec![format!("key{}", k)]);
    }
}

#[test]
fn handshake_runs_until_first_success_only() {
    let mut conn = DbConnection::new();
    assert!(!conn.is_connected());
    let mut handshakes = 0;
    let outcomes = [false, false, true, false, true, false];
    let mut failures = 0;
    for ok in outcomes {
        if conn.start_operation() == ConnectionStep::Handshake {
            handshakes += 1;
            if conn.handshake_finished(ok) == ConnectionStep::Fail {
                failures += 1;
            }
        }
    }
    assert_eq!(handshakes, 3);
    assert_eq!(failures, 2);
    assert!(conn.is_connected());
    assert_eq!(conn.start_operation(), ConnectionStep::Run);
}

#[test]
fn failed_handshake_stays_disconnected() {
    let mut conn = DbConnection::new();
    assert_eq!(conn.start_operation(), ConnectionStep::Handshake);
    assert_eq!(conn.handshake_finished(false), ConnectionStep::Fail);
    assert!(!conn.is_connected());
    assert_eq!(conn.start_operation(), ConnectionStep::Handshake);
    assert_eq!(conn.handshake_finished(true), ConnectionStep::Run);
    assert!(conn.is_connected());
}
