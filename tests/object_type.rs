use knowledge_base::object_type::{DataType, ObjectType, ObjectTypeAttribute, ObjectTypeError};

#[test]
fn book_isbn_added_then_duplicate_refused() {
    let mut ot = ObjectType::new("Book");
    assert_eq!(ot.name(), "Book");
    assert!(ot.attributes().is_empty());
    assert!(ot.id_parts().is_empty());

    assert!(ot.add_attribute("isbn", DataType::String, true).is_ok());
    assert_eq!(
        ot.attributes(),
        &vec![ObjectTypeAttribute::new("isbn", DataType::String, true)]
    );

    let before = ot.clone();
    let r = ot.add_attribute("isbn", DataType::Int, false);
    assert_eq!(
        r,
        Err(ObjectTypeError::DuplicateAttribute { name: "isbn".to_string() })
    );
    assert_eq!(ot, before);
    assert_eq!(
        ot.attributes(),
        &vec![ObjectTypeAttribute::new("isbn", DataType::String, true)]
    );
}

#[test]
fn attribute_names_are_case_sensitive() {
    let mut ot = ObjectType::new("Book");
    assert!(ot.add_attribute("title", DataType::String, false).is_ok());
    assert!(ot.add_attribute("Title", DataType::String, false).is_ok());
    assert_eq!(ot.attributes().len(), 2);
}

#[test]
fn attributes_keep_insertion_order() {
    let mut ot = ObjectType::new("Person");
    ot.add_attribute("surname", DataType::String, true).unwrap();
    ot.add_attribute("age", DataType::Int, false).unwrap();
    ot.add_attribute("given_name", DataType::String, true).unwrap();
    ot.add_attribute("height", DataType::Float, false).unwrap();
    let names: Vec<&str> = ot.attributes().iter().map(|a| a.name().as_str()).collect();
    assert_eq!(names, vec!["surname", "age", "given_name", "height"]);
    assert_eq!(ot.id_parts(), &vec!["surname".to_string(), "given_name".to_string()]);
}

#[test]
fn refused_attribute_leaves_id_parts() {
    let mut ot = ObjectType::new("Book");
    ot.add_attribute("isbn", DataType::String, false).unwrap();
    assert!(ot.add_attribute("isbn", DataType::String, true).is_err());
    assert!(ot.id_parts().is_empty());
    assert_eq!(ot.attributes().len(), 1);
    assert!(!ot.attributes()[0].is_id_part());
}

#[test]
fn get_attribute_finds_exact_name() {
    let mut ot = ObjectType::new("Book");
    ot.add_attribute("isbn", DataType::String, true).unwrap();
    ot.add_attribute("pages", DataType::Int, false).unwrap();
    let a = ot.get_attribute("pages").unwrap();
    assert_eq!(a.name(), "pages");
    assert_eq!(a.data_type(), DataType::Int);
    assert!(!a.is_id_part());
    assert!(ot.get_attribute("Pages").is_none());
    assert!(ot.get_attribute("").is_none());
}

#[test]
fn attribute_is_absent_reports_absence() {
    let mut ot = ObjectType::new("Book");
    assert!(ot.attribute_is_absent("isbn"));
    ot.add_attribute("isbn", DataType::String, true).unwrap();
    assert!(!ot.attribute_is_absent("isbn"));
    assert!(ot.attribute_is_absent("title"));
}

#[test]
fn attribute_label_names_its_type() {
    let a = ObjectTypeAttribute::new("isbn", DataType::String, true);
    assert_eq!(a.label(), "isbn: String");
    let b = ObjectTypeAttribute::new("done", DataType::Bool, false);
    assert_eq!(b.label(), "done: Bool");
}

#[test]
fn data_type_names_and_order() {
    assert_eq!(
        DataType::all(),
        vec![DataType::Bool, DataType::Int, DataType::Float, DataType::String]
    );
    let names: Vec<&str> = DataType::all().iter().map(|d| d.name()).collect();
    assert_eq!(names, vec!["Bool", "Int", "Float", "String"]);
    assert_eq!(DataType::default(), DataType::Bool);
}

#[test]
fn duplicate_error_message() {
    let e = ObjectTypeError::DuplicateAttribute { name: "isbn".to_string() };
    assert_eq!(e.message(), "Attribute named isbn already exists");
}

#[test]
fn clone_keeps_every_field() {
    let mut ot = ObjectType::new("Book");
    ot.add_attribute("isbn", DataType::String, true).unwrap();
    ot.add_attribute("rating", DataType::Float, false).unwrap();
    let c = ot.clone();
    assert_eq!(c, ot);
    assert_eq!(c.id_parts(), &vec!["isbn".to_string()]);
}
