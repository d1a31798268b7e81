use voxel_core::registry::{Registry, RegistryError};

#[test]
fn register_assigns_dense_ids() {
    let mut reg: Registry<u32> = Registry::default();
    assert_eq!(reg.register("stone".to_string(), 10).unwrap(), 0);
    assert_eq!(reg.register("dirt".to_string(), 20).unwrap(), 1);
    assert_eq!(reg.register("grass".to_string(), 30).unwrap(), 2);
}

#[test]
fn get_id_by_name_finds_registered_names() {
    let mut reg: Registry<u32> = Registry::default();
    reg.register("stone".to_string(), 10).unwrap();
    reg.register("dirt".to_string(), 20).unwrap();
    assert_eq!(reg.get_id_by_name(&"stone".to_string()), Some(0));
    assert_eq!(reg.get_id_by_name(&"dirt".to_string()), Some(1));
    assert_eq!(reg.get_id_by_name(&"water".to_string()), None);
}

#[test]
fn register_rejects_duplicate_names() {
    let mut reg: Registry<u32> = Registry::default();
    reg.register("stone".to_string(), 10).unwrap();
    match reg.register("stone".to_string(), 11) {
        Err(RegistryError::KeyAlreadyExists { key }) => assert_eq!(key, "stone"),
        Ok(_) => panic!("duplicate registration was accepted"),
    }
    assert_eq!(reg.get_id_by_name(&"stone".to_string()), Some(0));
}
