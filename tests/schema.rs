use apedb::apetypes::{discriminant, Type, TypeTag, S, I, B};
use apedb::dbio::dbfield::Field;
use apedb::dbio::dbstruct::{Requirement, Structure};

// Tests the creation of a Requirement
#[test]
fn test_requirement_new() {
    let disc = discriminant(&Type::S(None));
    let req = Requirement::new("id", disc);
    assert_eq!(req.field_id, "id");
    assert_eq!(req.field_type, disc);
}

// Tests the requirement meets function
#[test]
fn test_requirement_meets() {
    let disc = discriminant(&Type::S(None));
    let req = Requirement::new("id", disc);
    let field = Field::new("id", Type::S(Some(S::new("Test"))));
    assert!(req.meets(&field));
}

// Tests the requirement doesn't meet function, when the type doesn't match
#[test]
fn test_requirement_doesnt_meet_type() {
    let disc = discriminant(&Type::S(None));
    let req = Requirement::new("id", disc);
    let field = Field::new("id", Type::I(Some(I::new(10))));
    assert!(!req.meets(&field)); // Test fails because the field is not the same type
}

// Tests the requirement doesn't meet function, when the ID doesn't match
#[test]
fn test_requirement_doesnt_meet_id() {
    let disc = discriminant(&Type::S(None));
    let req = Requirement::new("id", disc);
    let field = Field::new("id2", Type::S(Some(S::new("Test"))));
    assert!(!req.meets(&field)); // Test fails because the field is not the same ID
}

// Tests the creation of a Structure
#[test]
fn test_structure_new() {
    let disc = discriminant(&Type::S(None));
    let req = Requirement::new("id", disc);
    let mut requirements = Vec::new();
    requirements.push(req);
    let requirements2 = requirements.clone();
    let structure = Structure::new("id", requirements);
    assert_eq!(structure.id, "id");
    assert_eq!(structure.requirements, requirements2);
}

// Tests the structure meets function
#[test]
fn test_structure_meets() {
    let disc = discriminant(&Type::S(None));
    let req = Requirement::new("id", disc);
    let field = Field::new("id", Type::S(Some(S::new("Test"))));
    let mut requirements = Vec::new();
    requirements.push(req);
    let structure = Structure::new("id", requirements);
    let mut fields = Vec::new();
    fields.push(field);
    assert!(structure.meets(&fields));
}

// Tests the structure doesn't meet function, when the type doesn't match
#[test]
fn test_structure_doesnt_meet_type() {
    let disc = discriminant(&Type::S(None));
    let req = Requirement::new("id", disc);
    let field = Field::new("id", Type::I(Some(I::new(10))));
    let mut requirements = Vec::new();
    requirements.push(req);
    let structure = Structure::new("id", requirements);
    let mut fields = Vec::new();
    fields.push(field);
    assert!(!structure.meets(&fields)); // Test fails because the field is not the same type
}

// Tests the structure doesn't meet function, when the ID doesn't match
#[test]
fn test_structure_doesnt_meet_id() {
    let disc = discriminant(&Type::S(None));
    let req = Requirement::new("id", disc);
    let field = Field::new("id2", Type::S(Some(S::new("Test"))));
    let mut requirements = Vec::new();
    requirements.push(req);
    let structure = Structure::new("id", requirements);
    let mut fields = Vec::new();
    fields.push(field);
    assert!(!structure.meets(&fields)); // Test fails because the field is not the same ID
}

#[test]
fn structure_sorts_requirements_by_id() {
    let structure = Structure::new(
        "people",
        vec![
            Requirement::new("name", TypeTag::S),
            Requirement::new("age", TypeTag::I),
            Requirement::new("zeta", TypeTag::B),
            Requirement::new("age", TypeTag::S),
            Requirement::new("id", TypeTag::S),
        ],
    );
    let ids: Vec<&str> = structure.requirements.iter().map(|r| r.field_id.as_str()).collect();
    assert_eq!(ids, vec!["age", "age", "id", "name", "zeta"]);
    // Requirements with equal ids keep their order.
    assert_eq!(structure.requirements[0].field_type, TypeTag::I);
    assert_eq!(structure.requirements[1].field_type, TypeTag::S);
}

#[test]
fn structure_admits_extra_and_duplicate_fields() {
    let structure = Structure::new(
        "s",
        vec![Requirement::new("id", TypeTag::S), Requirement::new("ok", TypeTag::B)],
    );
    // Requirements that no field supplies are allowed.
    assert!(structure.meets(&vec![Field::new("ok", Type::B(Some(B::new(false))))]));
    // Duplicate field ids are each checked.
    assert!(structure.meets(&vec![
        Field::new("id", Type::S(Some(S::new("a")))),
        Field::new("id", Type::S(Some(S::new("b")))),
    ]));
    assert!(!structure.meets(&vec![
        Field::new("id", Type::S(Some(S::new("a")))),
        Field::new("id", Type::I(Some(I::new(1)))),
    ]));
    assert!(structure.meets(&vec![]));
}

#[test]
fn discriminant_names_the_variant() {
    assert_eq!(discriminant(&Type::I(None)), TypeTag::I);
    assert_eq!(discriminant(&Type::S(Some(S::new("x")))), TypeTag::S);
    assert_eq!(discriminant(&Type::B(Some(B::new(true)))), TypeTag::B);
}
