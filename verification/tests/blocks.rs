use bedrock::blocks::{air, stone, Block, Value};

#[test]
fn a_block_is_its_name() {
    assert_eq!(stone().name(), "minecraft:stone");
    assert!(stone().properties().is_empty());
    assert_ne!(stone(), air());
}

#[test]
fn property_order_does_not_change_identity() {
    let one = Block::with_properties(
        "minecraft:stone_stairs",
        vec![
            ("upside_down_bit".into(), Value::Bool(false)),
            ("weirdo_direction".into(), Value::Int(2)),
        ],
    );
    let other = Block::with_properties(
        "minecraft:stone_stairs",
        vec![
            ("weirdo_direction".into(), Value::Int(2)),
            ("upside_down_bit".into(), Value::Bool(false)),
        ],
    );
    assert_eq!(one, other);
    assert_eq!(one.to_text(), other.to_text());
}

#[test]
fn a_property_can_be_read_back() {
    let block = Block::with_properties(
        "minecraft:torch",
        vec![("torch_facing_direction".into(), Value::Text("east".into()))],
    );
    assert_eq!(
        block.property("torch_facing_direction"),
        Some(&Value::Text("east".into()))
    );
    assert_eq!(block.property("nope"), None);
}

#[test]
fn only_air_is_air() {
    assert!(air().is_air());
    assert!(!stone().is_air());
}

#[test]
fn a_block_prints_as_its_state() {
    assert_eq!(stone().to_text(), "minecraft:stone");
    let stair = Block::with_properties(
        "minecraft:stone_stairs",
        vec![("upside_down_bit".into(), Value::Bool(true))],
    );
    assert_eq!(stair.to_text(), "minecraft:stone_stairs[upside_down_bit=true]");
}

#[test]
fn properties_print_sorted_and_comma_separated() {
    let block = Block::with_properties(
        "minecraft:wall",
        vec![
            ("wall_post_bit".into(), Value::Int(-12)),
            ("wall_block_type".into(), Value::Text("cobblestone".into())),
        ],
    );
    assert_eq!(
        block.to_text(),
        "minecraft:wall[wall_block_type=cobblestone,wall_post_bit=-12]"
    );
    assert_eq!(Value::Int(i32::MIN).to_text(), "-2147483648");
    assert_eq!(Value::Int(0).to_text(), "0");
    assert_eq!(Value::Bool(false).to_text(), "false");
}

#[test]
fn a_name_given_twice_keeps_one_property() {
    let block = Block::with_properties(
        "minecraft:torch",
        vec![
            ("torch_facing_direction".into(), Value::Text("east".into())),
            ("torch_facing_direction".into(), Value::Text("west".into())),
        ],
    );
    assert_eq!(block.properties().len(), 1);
    assert_eq!(block.property("torch_facing_direction"), Some(&Value::Text("east".into())));
    assert_eq!(block.clone(), block);
}
