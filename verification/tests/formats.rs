use orbit_wars::checkpoint::{
    adapt_checkpoint_population, decode_trainer_checkpoint, encode_trainer_checkpoint, read_bytes,
    read_magic, read_string, read_u32, read_usize, CheckpointError, GenerationChampion,
};
use orbit_wars::model_file::{
    from_model_bytes, parse_text_model_header, true2d_model_binary_bytes, ModelSource,
    TextModelHeader,
};
use orbit_wars::shapes::{
    ModelError, ModelWidthLimits, True2DConfig, True2DTransformer, True2DTransformerShape,
    TransformerShape, INPUT_PAIR_FEATURE_WEIGHTS, LEGACY_FIVE_FEATURE_INPUT_PAIR_WEIGHTS,
    LEGACY_FOUR_FEATURE_INPUT_PAIR_WEIGHTS, SOURCE_PRODUCTION_WEIGHT_INDEX,
};

const SOURCE_Y_WEIGHT_INDEX: usize = 3;
const SOURCE_VELOCITY_X_WEIGHT_INDEX: usize = 5;
const SOURCE_VELOCITY_Y_WEIGHT_INDEX: usize = 6;
const TARGET_OWNER_WEIGHT_INDEX: usize = 7;
const TARGET_Y_WEIGHT_INDEX: usize = 10;
const TARGET_PRODUCTION_WEIGHT_INDEX: usize = 11;
const TARGET_VELOCITY_X_WEIGHT_INDEX: usize = 12;
const TARGET_VELOCITY_Y_WEIGHT_INDEX: usize = 13;

fn test_config() -> True2DConfig {
    True2DConfig {
        internal_rows: 2,
        matrix_layer_planes: 12,
        attention_heads: 1,
        action_targets_per_source: 2,
    }
}

fn test_shape() -> True2DTransformerShape {
    True2DTransformerShape { layers: 1, row_count: 2 }
}

fn test_model(offset: f32) -> True2DTransformer {
    let count = test_shape().parameter_count(&test_config()).unwrap();
    let weights = (0..count).map(|index| (index as f32 * 0.5 + offset).to_bits()).collect();
    True2DTransformer::from_weights(test_shape(), weights, &test_config()).unwrap()
}

fn limits() -> ModelWidthLimits {
    ModelWidthLimits { d_model_min: 8, d_model_max: 256 }
}

#[test]
fn true2d_parameter_count_of_small_shape() {
    assert_eq!(test_shape().parameter_count(&test_config()), Ok(102));
    assert_eq!(test_shape().cell_count(), Ok(4));
    let bad = True2DTransformerShape { layers: 0, row_count: 2 };
    assert_eq!(bad.parameter_count(&test_config()), Err(ModelError::InvalidParameter));
}

#[test]
fn dense_transformer_shape_validation() {
    let shape = TransformerShape { layers: 2, d_model: 32, heads: 4 };
    assert_eq!(shape.validate(&limits()), Ok(()));
    assert_eq!(shape.parameter_count(&limits()), Ok(2 * 32 + 32 + 2 * 32 + 32 * 2));
    let uneven = TransformerShape { layers: 2, d_model: 30, heads: 4 };
    assert_eq!(uneven.validate(&limits()), Err(ModelError::InvalidParameter));
}

#[test]
fn true_2d_legacy_five_feature_weights_migrate_to_velocity_input() {
    let expected = test_shape().parameter_count(&test_config()).unwrap();
    let legacy_expected = expected - 4;
    let legacy_weights = (0..legacy_expected)
        .map(|index| (index as f32 + 0.25).to_bits())
        .collect::<Vec<_>>();

    let model = True2DTransformer::from_weights(test_shape(), legacy_weights.clone(), &test_config()).unwrap();

    assert_eq!(model.weights.len(), expected);
    assert_eq!(model.weights[0], legacy_weights[0]);
    assert_eq!(model.weights[SOURCE_Y_WEIGHT_INDEX], legacy_weights[3]);
    assert_eq!(model.weights[SOURCE_PRODUCTION_WEIGHT_INDEX], legacy_weights[4]);
    assert_eq!(model.weights[SOURCE_VELOCITY_X_WEIGHT_INDEX], 0);
    assert_eq!(model.weights[SOURCE_VELOCITY_Y_WEIGHT_INDEX], 0);
    assert_eq!(model.weights[TARGET_OWNER_WEIGHT_INDEX], legacy_weights[5]);
    assert_eq!(model.weights[TARGET_Y_WEIGHT_INDEX], legacy_weights[8]);
    assert_eq!(model.weights[TARGET_PRODUCTION_WEIGHT_INDEX], legacy_weights[9]);
    assert_eq!(model.weights[TARGET_VELOCITY_X_WEIGHT_INDEX], 0);
    assert_eq!(model.weights[TARGET_VELOCITY_Y_WEIGHT_INDEX], 0);
    assert_eq!(
        model.weights[INPUT_PAIR_FEATURE_WEIGHTS],
        legacy_weights[LEGACY_FIVE_FEATURE_INPUT_PAIR_WEIGHTS]
    );
}

#[test]
fn true_2d_legacy_four_feature_weights_migrate_to_production_and_velocity_input() {
    let expected = test_shape().parameter_count(&test_config()).unwrap();
    let legacy_expected = expected - 6;
    let legacy_weights = (0..legacy_expected)
        .map(|index| (index as f32 + 0.25).to_bits())
        .collect::<Vec<_>>();

    let model = True2DTransformer::from_weights(test_shape(), legacy_weights.clone(), &test_config()).unwrap();

    assert_eq!(model.weights.len(), expected);
    assert_eq!(model.weights[0], legacy_weights[0]);
    assert_eq!(model.weights[SOURCE_Y_WEIGHT_INDEX], legacy_weights[3]);
    assert_eq!(model.weights[SOURCE_PRODUCTION_WEIGHT_INDEX], 0);
    assert_eq!(model.weights[SOURCE_VELOCITY_X_WEIGHT_INDEX], 0);
    assert_eq!(model.weights[SOURCE_VELOCITY_Y_WEIGHT_INDEX], 0);
    assert_eq!(model.weights[TARGET_OWNER_WEIGHT_INDEX], legacy_weights[4]);
    assert_eq!(model.weights[TARGET_Y_WEIGHT_INDEX], legacy_weights[7]);
    assert_eq!(model.weights[TARGET_PRODUCTION_WEIGHT_INDEX], 0);
    assert_eq!(model.weights[TARGET_VELOCITY_X_WEIGHT_INDEX], 0);
    assert_eq!(model.weights[TARGET_VELOCITY_Y_WEIGHT_INDEX], 0);
    assert_eq!(
        model.weights[INPUT_PAIR_FEATURE_WEIGHTS],
        legacy_weights[LEGACY_FOUR_FEATURE_INPUT_PAIR_WEIGHTS]
    );
}

#[test]
fn from_weights_rejects_non_finite_and_wrong_count() {
    let count = test_shape().parameter_count(&test_config()).unwrap();
    let mut weights = vec![0u32; count];
    weights[3] = f32::INFINITY.to_bits();
    assert_eq!(
        True2DTransformer::from_weights(test_shape(), weights, &test_config()).err(),
        Some(ModelError::InvalidWeightCount)
    );
    assert_eq!(
        True2DTransformer::from_weights(test_shape(), vec![0u32; count + 1], &test_config()).err(),
        Some(ModelError::InvalidWeightCount)
    );
}

#[test]
fn trainer_checkpoint_roundtrip_preserves_population_and_archive() {
    let population = vec![test_model(0.25)];
    let champion_archive = vec![GenerationChampion { generation: 1, model: population[0].clone() }];
    let bytes = encode_trainer_checkpoint("test-run", 2, &population, &champion_archive);
    let loaded = decode_trainer_checkpoint(&bytes, test_shape(), &test_config(), 1).unwrap();
    assert_eq!(loaded.run_id, b"test-run".to_vec());
    assert_eq!(loaded.next_generation, 2);
    assert_eq!(loaded.population.len(), 1);
    assert_eq!(loaded.population[0].weights, population[0].weights);
    assert_eq!(loaded.champion_archive.len(), 1);
    assert_eq!(loaded.champion_archive[0].generation, 1);
    assert_eq!(loaded.champion_archive[0].model.weights, population[0].weights);
}

#[test]
fn checkpoint_rejects_bad_magic_and_truncation() {
    let population = vec![test_model(1.0)];
    let mut bytes = encode_trainer_checkpoint("run", 3, &population, &Vec::new());
    let truncated = bytes[..bytes.len() - 1].to_vec();
    assert!(decode_trainer_checkpoint(&truncated, test_shape(), &test_config(), 1).is_err());
    bytes[0] = b'X';
    assert_eq!(
        decode_trainer_checkpoint(&bytes, test_shape(), &test_config(), 1).err(),
        Some(CheckpointError::MagicMismatch)
    );
}

#[test]
fn checkpoint_population_shrinks_to_requested_size() {
    let population = vec![test_model(0.0); 2];
    let adapted = adapt_checkpoint_population(population, 1).unwrap();
    assert_eq!(adapted.len(), 1);
    assert_eq!(
        adapt_checkpoint_population(vec![test_model(0.0)], 2).err(),
        Some(CheckpointError::PopulationTooSmall { found: 1, expected: 2 })
    );
}

#[test]
fn model_config_parses_text_model() {
    let bytes = b"ORBIT_WARS_MODEL_V1\nmode=true_2d_pair_matrix_transformer\nlayers=61\nd_model=32\nheads=4\nseed=17\n";
    match from_model_bytes(bytes, 61, &limits(), &test_config()).unwrap() {
        ModelSource::Seeded(header) => {
            assert_eq!(header, TextModelHeader { layers: 61, d_model: 32, heads: 4, seed: 17 });
        }
        ModelSource::Trained(_) => panic!("text model read as trained weights"),
    }
}

#[test]
fn text_model_header_rules() {
    let header = parse_text_model_header(
        b"  ORBIT_WARS_MODEL_V1 \r\n\n mode = true_2d_pair_matrix_transformer \r\nseed=+9\n",
        3,
        &limits(),
    );
    assert_eq!(header, Ok(TextModelHeader { layers: 3, d_model: 32, heads: 4, seed: 9 }));
    assert_eq!(
        parse_text_model_header(b"ORBIT_WARS_MODEL_V1\nlayers=2\n", 3, &limits()),
        Err(ModelError::InvalidParameter)
    );
    assert_eq!(
        parse_text_model_header(b"ORBIT_WARS_MODEL_V2\nmode=true_2d_pair_matrix_transformer\n", 3, &limits()),
        Err(ModelError::InvalidMagic)
    );
    assert_eq!(
        parse_text_model_header(b"ORBIT_WARS_MODEL_V1\nmode=true_2d_pair_matrix_transformer\ncolor=red\n", 3, &limits()),
        Err(ModelError::InvalidParameter)
    );
    assert_eq!(
        parse_text_model_header(b"ORBIT_WARS_MODEL_V1\nmode=true_2d_pair_matrix_transformer\nheads=5\n", 3, &limits()),
        Err(ModelError::InvalidParameter)
    );
}

#[test]
fn model_bytes_refusals() {
    assert_eq!(from_model_bytes(b"", 61, &limits(), &test_config()).err(), Some(ModelError::EmptyModel));
    assert_eq!(
        from_model_bytes(&[0xff, 0xfe], 61, &limits(), &test_config()).err(),
        Some(ModelError::InvalidUtf8)
    );
    assert_eq!(
        from_model_bytes(b"hello\n", 61, &limits(), &test_config()).err(),
        Some(ModelError::InvalidMagic)
    );
}

#[test]
fn model_config_parses_binary_true2d_weights() {
    let trained_model = test_model(0.75);
    let bytes = true2d_model_binary_bytes(&trained_model, &test_config()).unwrap();
    match from_model_bytes(&bytes, 61, &limits(), &test_config()).unwrap() {
        ModelSource::Trained(parsed_model) => {
            assert_eq!(parsed_model.shape, test_shape());
            assert_eq!(parsed_model.weights, trained_model.weights);
        }
        ModelSource::Seeded(_) => panic!("binary model read as a text header"),
    }
}

#[test]
fn binary_model_rejects_truncated_weights() {
    let bytes = true2d_model_binary_bytes(&test_model(0.5), &test_config()).unwrap();
    let truncated = &bytes[..bytes.len() - 4];
    assert_eq!(
        from_model_bytes(truncated, 61, &limits(), &test_config()).err(),
        Some(ModelError::InvalidWeightCount)
    );
    assert_eq!(&bytes[..25], b"ORBIT_WARS_TRUE2D_BIN_V1\n");
}

#[test]
fn checkpoint_readers_leave_the_cursor_where_the_original_does() {
    let bytes = [1u8, 2, 3];
    let mut cursor = 1;
    assert_eq!(read_bytes(&bytes, &mut cursor, 5), Err(CheckpointError::UnexpectedEof));
    assert_eq!(cursor, 1);
    let mut cursor = usize::MAX;
    assert_eq!(read_bytes(&bytes, &mut cursor, 2), Err(CheckpointError::CursorOverflow));
    assert_eq!(cursor, usize::MAX);
    let mut cursor = 0;
    assert_eq!(read_u32(&bytes, &mut cursor), Err(CheckpointError::UnexpectedEof));
    assert_eq!(cursor, 0);
    assert_eq!(read_usize(&bytes, &mut cursor), Err(CheckpointError::UnexpectedEof));
    assert_eq!(cursor, 0);
    let wrong_magic = b"OWTRAIN2";
    let mut cursor = 0;
    assert_eq!(read_magic(wrong_magic, &mut cursor), Err(CheckpointError::MagicMismatch));
    assert_eq!(cursor, 8);
    // A string whose length is read but whose bytes are missing leaves the cursor after
    // the length; one whose bytes are not UTF-8 leaves it after the bytes.
    let mut short = 5u64.to_le_bytes().to_vec();
    short.extend_from_slice(b"ab");
    let mut cursor = 0;
    assert_eq!(read_string(&short, &mut cursor), Err(CheckpointError::UnexpectedEof));
    assert_eq!(cursor, 8);
    let mut invalid = 2u64.to_le_bytes().to_vec();
    invalid.extend_from_slice(&[0xff, 0xfe]);
    let mut cursor = 0;
    assert_eq!(read_string(&invalid, &mut cursor), Err(CheckpointError::StringInvalid));
    assert_eq!(cursor, 10);
}
