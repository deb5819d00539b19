use orbit_wars::artifact::{
    crc32, owner_id, parse_config, parse_model_artifact, parse_tensor_specs, parse_usize_field,
    validate_config, V8ModelError,
};

#[test]
fn parse_config_reads_compact_json_fields() {
    let header = r#"{"config":{"action_slots":8,"amount_classes":16,"d_model":16,"decoder_layers":1,"encoder_layers":1,"heads":4,"max_planets":64,"token_features":14},"tensors":[{"bytes":4,"name":"x","offset":0,"shape":[1]}]}"#;
    let config = parse_config(header).unwrap();
    assert_eq!(config.d_model, 16);
    assert_eq!(config.heads, 4);
    let tensors = parse_tensor_specs(header).unwrap();
    assert_eq!(tensors[0].name, b"x".to_vec());
    assert_eq!(tensors[0].offset, 0);
    assert_eq!(tensors[0].bytes, 4);
}

#[test]
fn model_artifact_rejects_bad_magic() {
    assert!(parse_model_artifact(b"bad").is_err());
    let mut bytes = vec![0u8; 16];
    bytes[..4].copy_from_slice(b"NOPE");
    assert!(parse_model_artifact(&bytes).is_err());
}

fn framed(payload: &[u8], tensor_bytes: &[u8]) -> Vec<u8> {
    let mut checksum_bytes = Vec::new();
    checksum_bytes.extend_from_slice(payload);
    checksum_bytes.extend_from_slice(tensor_bytes);
    let checksum = crc32(&checksum_bytes);
    let mut bytes = Vec::new();
    bytes.extend_from_slice(b"OWV8");
    bytes.extend_from_slice(&1u32.to_le_bytes());
    bytes.extend_from_slice(&(payload.len() as u32).to_le_bytes());
    bytes.extend_from_slice(&checksum.to_le_bytes());
    bytes.extend_from_slice(payload);
    bytes.extend_from_slice(tensor_bytes);
    bytes
}

const PAYLOAD: &[u8] = br#"{"config":{"action_slots":8,"amount_classes":16,"d_model":16,"decoder_layers":1,"encoder_layers":1,"heads":4,"max_planets":64,"token_features":14},"schema":"OWV8","tensors":[{"bytes":4,"name":"x","offset":0,"shape":[1]}]}"#;

#[test]
fn model_artifact_accepts_crc32_payload() {
    let bytes = framed(PAYLOAD, &0.0f32.to_le_bytes());
    assert!(parse_model_artifact(&bytes).is_ok());
}

#[test]
fn model_artifact_decodes_tensor_values() {
    let bytes = framed(PAYLOAD, &1.5f32.to_le_bytes());
    let artifact = parse_model_artifact(&bytes).unwrap();
    assert_eq!(artifact.config.d_model, 16);
    assert_eq!(artifact.tensors.len(), 1);
    assert_eq!(artifact.tensors[0].name, b"x".to_vec());
    assert_eq!(artifact.tensors[0].bits, vec![1.5f32.to_bits()]);
}

#[test]
fn model_artifact_rejects_corrupted_checksum() {
    let mut bytes = framed(PAYLOAD, &0.0f32.to_le_bytes());
    let last = bytes.len() - 1;
    bytes[last] ^= 1;
    assert_eq!(parse_model_artifact(&bytes).err(), Some(V8ModelError::Checksum));
}

#[test]
fn model_artifact_rejects_non_finite_tensor() {
    let bytes = framed(PAYLOAD, &f32::NAN.to_le_bytes());
    assert_eq!(parse_model_artifact(&bytes).err(), Some(V8ModelError::TensorShape));
}

#[test]
fn model_artifact_rejects_short_input() {
    assert_eq!(parse_model_artifact(b"OWV8").err(), Some(V8ModelError::TooShort));
}

#[test]
fn crc32_matches_standard_check_value() {
    assert_eq!(crc32(b"123456789"), 0xCBF4_3926);
    assert_eq!(crc32(b""), 0);
}

#[test]
fn parse_config_rejects_missing_field() {
    let header = r#"{"config":{"action_slots":8,"d_model":16}}"#;
    assert_eq!(parse_config(header).err(), Some(V8ModelError::HeaderParse));
}

#[test]
fn validate_config_rejects_unsupported_width() {
    let header = r#"{"config":{"action_slots":8,"amount_classes":16,"d_model":18,"decoder_layers":1,"encoder_layers":1,"heads":4,"max_planets":64,"token_features":14}}"#;
    let config = parse_config(header).unwrap();
    assert_eq!(validate_config(config), Err(V8ModelError::InvalidConfig));
    let good = r#"{"config":{"action_slots":8,"amount_classes":16,"d_model":16,"decoder_layers":1,"encoder_layers":1,"heads":4,"max_planets":64,"token_features":14}}"#;
    assert_eq!(validate_config(parse_config(good).unwrap()), Ok(()));
}

#[test]
fn owner_id_maps_neutral_players_and_overflow() {
    assert_eq!(owner_id(-1), 0);
    assert_eq!(owner_id(-5), 0);
    assert_eq!(owner_id(2), 3);
    assert_eq!(owner_id(100), 7);
}

#[test]
fn usize_field_needs_digits_then_a_terminator() {
    assert_eq!(parse_usize_field(r#"{"heads":4,"d_model":16}"#, "d_model"), Ok(16));
    assert_eq!(parse_usize_field(r#"{"heads":4,"d_model":16}"#, "heads"), Ok(4));
    assert_eq!(parse_usize_field(r#"{"heads":4}"#, "d_model"), Err(V8ModelError::HeaderParse));
    assert_eq!(parse_usize_field(r#"{"heads":12"#, "heads"), Err(V8ModelError::HeaderParse));
    assert_eq!(parse_usize_field(r#"{"heads":,"#, "heads"), Err(V8ModelError::HeaderParse));
}
