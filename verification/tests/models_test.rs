use wr::models::{Status, Wire, WireError, WireId, WireIdError};

#[test]
fn test_wire_id_valid() {
    let id = WireId::new("a1b2c3d").unwrap();
    assert_eq!(id.as_str(), "a1b2c3d");
}

#[test]
fn test_wire_id_wrong_length() {
    assert!(WireId::new("abc").is_err());
    assert!(WireId::new("a1b2c3d4").is_err());
}

#[test]
fn test_wire_id_non_hex() {
    assert!(WireId::new("a1b2c3g").is_err()); // 'g' is not hex
}

#[test]
fn test_wire_id_lowercases() {
    let id = WireId::new("A1B2C3D").unwrap();
    assert_eq!(id.as_str(), "a1b2c3d");
}

#[test]
fn test_wire_id_error_values() {
    assert_eq!(WireId::new("abc").unwrap_err(), WireIdError::InvalidLength(3));
    assert_eq!(
        WireId::new("a1b2c3g").unwrap_err(),
        WireIdError::InvalidCharacters
    );
}

#[test]
fn test_wire_id_error_messages() {
    assert_eq!(
        WireIdError::InvalidLength(3).message(),
        "Wire ID must be 7 characters, got 3"
    );
    assert_eq!(
        WireIdError::InvalidCharacters.message(),
        "Wire ID must contain only hexadecimal characters"
    );
}

#[test]
fn test_status_as_str() {
    assert_eq!(Status::Todo.as_str(), "TODO");
    assert_eq!(Status::InProgress.as_str(), "IN_PROGRESS");
    assert_eq!(Status::Done.as_str(), "DONE");
    assert_eq!(Status::Cancelled.as_str(), "CANCELLED");
}

#[test]
fn test_status_from_str() {
    assert_eq!("TODO".parse::<Status>().unwrap(), Status::Todo);
    assert_eq!("IN_PROGRESS".parse::<Status>().unwrap(), Status::InProgress);
    assert_eq!("DONE".parse::<Status>().unwrap(), Status::Done);
    assert_eq!("CANCELLED".parse::<Status>().unwrap(), Status::Cancelled);
    assert!("INVALID".parse::<Status>().is_err());
}

#[test]
fn test_status_parse_error_message() {
    let err = "nonsense".parse::<Status>().unwrap_err();
    assert_eq!(err, "Invalid status: nonsense");
}

#[test]
fn test_wire_error_display() {
    assert_eq!(
        WireError::NotARepository.message(),
        "Not a wires repository"
    );
    assert_eq!(
        WireError::AlreadyInitialized("/path/.wires".to_string()).message(),
        "Wires already initialized at /path/.wires"
    );
    assert_eq!(
        WireError::WireNotFound("abc1234".to_string()).message(),
        "Wire not found: abc1234"
    );
    assert_eq!(
        WireError::CircularDependency(vec!["a".to_string(), "b".to_string(), "a".to_string()])
            .message(),
        "Circular dependency detected: a -> b -> a"
    );
}

#[test]
fn test_status_is_blocking() {
    assert!(Status::Todo.is_blocking());
    assert!(Status::InProgress.is_blocking());
    assert!(!Status::Done.is_blocking());
    assert!(!Status::Cancelled.is_blocking());
}

#[test]
fn test_wire_clone_keeps_fields() {
    let wire = Wire {
        id: WireId::new("a1b2c3d").unwrap(),
        title: "Test wire".to_string(),
        description: Some("Details".to_string()),
        status: Status::InProgress,
        created_at: 17,
        updated_at: 18,
        priority: -3,
    };
    let copy = wire.clone();
    assert_eq!(copy.id.as_str(), "a1b2c3d");
    assert_eq!(copy.title, "Test wire");
    assert_eq!(copy.description, Some("Details".to_string()));
    assert_eq!(copy.status, Status::InProgress);
    assert_eq!(copy.created_at, 17);
    assert_eq!(copy.updated_at, 18);
    assert_eq!(copy.priority, -3);
}
