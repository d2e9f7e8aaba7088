use batatacode::bytecode::{compile, EncodeError};
use batatacode::module::{
    ActionId, GameValueId, Line, LineType, Module, NamedValue, Number, Op, TextParsing, Value,
    VariableScope,
};

fn one_op_module(line_type: LineType, position: u8, action: u16, values: Vec<NamedValue>) -> Module {
    Module {
        handlers: vec![Line {
            line_type,
            position,
            operations: vec![Op { action: ActionId { ordinal: action }, values }],
        }],
    }
}

fn named(value: Value) -> NamedValue {
    NamedValue { name: String::from("arg"), value }
}

#[test]
fn empty_module_is_length_prefix_only() {
    let m = Module { handlers: vec![] };
    let out = compile(m).unwrap();
    assert_eq!(out, vec![0u8; 8]);
}

#[test]
fn no_strings_means_no_table() {
    // A module with only numeric payloads: the output is the raw traversal
    // bits alone, starting with the handler count prefix of 1.
    let m = one_op_module(
        LineType::Process,
        0,
        0,
        vec![named(Value::Number { number: Number::Simple(0) })],
    );
    let out = compile(m).unwrap();
    // 64 + 32 + 8 + 64 + 11 + 64 + 32 + 64 bits = 339 bits -> 43 bytes
    assert_eq!(out.len(), 43);
    assert_eq!(out[0], 1);
    // No table: the stream begins with the handler count, not a 16-bit
    // string length.
    assert_eq!(&out[1..8], &[0, 0, 0, 0, 0, 0, 0]);
}

#[test]
fn text_value_scenario() {
    // One event line at position 0; one operation with action ordinal 5 and
    // a single legacy-parsed text "go".  The output begins with the string
    // table entry for "go" (16-bit length 2, then its two bytes), followed
    // by the bit-packed line tag, position, counts, the 11-bit action tag,
    // the value tag and the parsing tag, with a zero-width index standing at
    // the occurrence point.
    let m = one_op_module(
        LineType::Event,
        0,
        5,
        vec![named(Value::Text { text: String::from("go"), parsing: TextParsing::Legacy })],
    );
    let out = compile(m).unwrap();
    assert_eq!(
        out,
        vec![
            2, 0, 103, 111, 1, 0, 0, 0, 0, 0, 0, 0, 2, 0, 0, 0, 0, 1, 0, 0, 0, 0, 0, 0, 0, 5, 8,
            0, 0, 0, 0, 0, 0, 0, 72, 0, 0, 0, 0, 0, 0, 0, 0,
        ]
    );
}

#[test]
fn single_distinct_string_needs_no_index_bits() {
    // The same string "x" twice: the table holds one entry, the index width
    // is zero, and the body is the raw traversal bits unchanged.
    let m = one_op_module(
        LineType::Event,
        0,
        0,
        vec![
            named(Value::Block { block: String::from("x") }),
            named(Value::Block { block: String::from("x") }),
        ],
    );
    let out = compile(m).unwrap();
    assert_eq!(
        out,
        vec![
            1, 0, 120, 1, 0, 0, 0, 0, 0, 0, 0, 2, 0, 0, 0, 0, 1, 0, 0, 0, 0, 0, 0, 0, 0, 16, 0,
            0, 0, 0, 0, 0, 0, 8, 0, 0, 0, 8, 0, 0, 0, 0,
        ]
    );
}

#[test]
fn table_is_sorted_regardless_of_first_occurrence_order() {
    // Strings met in the order "b", "a", "c" appear in the table in
    // ascending order: "a", "b", "c".
    let m = one_op_module(
        LineType::Process,
        7,
        3,
        vec![
            named(Value::Item { item: String::from("b") }),
            named(Value::Item { item: String::from("a") }),
            named(Value::Item { item: String::from("c") }),
        ],
    );
    let out = compile(m).unwrap();
    // Three entries: [len 1, 'a'], [len 1, 'b'], [len 1, 'c'].
    assert_eq!(&out[0..9], &[1, 0, 97, 1, 0, 98, 1, 0, 99]);
    assert_eq!(
        out,
        vec![
            1, 0, 97, 1, 0, 98, 1, 0, 99, 1, 0, 0, 0, 0, 0, 0, 0, 0, 0, 0, 0, 7, 1, 0, 0, 0, 0,
            0, 0, 0, 3, 24, 0, 0, 0, 0, 0, 0, 0, 24, 0, 0, 0, 104, 0, 0, 0, 128, 1, 0, 0, 0, 1,
        ]
    );
}

#[test]
fn fixed_size_array_still_carries_length_prefix() {
    // An array of three numbers writes a 64-bit length prefix of value 3,
    // although the count is statically known.
    let m = one_op_module(
        LineType::Function,
        1,
        2047,
        vec![named(Value::Array {
            values: vec![
                Value::Number { number: Number::Simple(0x3FF0000000000000) },
                Value::Number { number: Number::Simple(0) },
                Value::Number { number: Number::Simple(0xC000000000000000) },
            ],
        })],
    );
    let out = compile(m).unwrap();
    assert_eq!(
        out,
        vec![
            1, 0, 0, 0, 0, 0, 0, 0, 1, 0, 0, 0, 1, 1, 0, 0, 0, 0, 0, 0, 0, 255, 15, 0, 0, 0, 0,
            0, 0, 0, 0, 0, 0, 0, 24, 0, 0, 0, 0, 0, 0, 0, 40, 0, 0, 0, 0, 0, 0, 0, 0, 0, 128,
            255, 41, 0, 0, 0, 0, 0, 0, 0, 0, 0, 0, 0, 40, 0, 0, 0, 0, 0, 0, 0, 0, 0, 0, 0, 6,
        ]
    );
}

#[test]
fn every_value_shape_round_trips_through_the_stream() {
    let m = one_op_module(
        LineType::Process,
        255,
        5,
        vec![
            named(Value::Potion {
                potion: String::from("swift"),
                amplifier: -1,
                duration: 300,
            }),
            named(Value::Location { x: 1, y: 2, z: 3, yaw: 4, pitch: 5 }),
            named(Value::Vector { x: 6, y: 7, z: 8 }),
            named(Value::Variable {
                variable: String::from("v"),
                scope: VariableScope::Save,
            }),
            named(Value::GameValue {
                game_value: GameValueId { ordinal: 9 },
                selection: String::from("sel"),
            }),
            named(Value::Sound {
                sound: String::from("s"),
                pitch: 0x3F800000,
                volume: 0x40000000,
                variaton: String::from("var"),
                source: String::from("src"),
            }),
            named(Value::Enum { value: String::from("Val") }),
        ],
    );
    let out = compile(m).unwrap();
    assert_eq!(
        out,
        vec![
            3, 0, 86, 97, 108, 1, 0, 115, 3, 0, 115, 101, 108, 3, 0, 115, 114, 99, 5, 0, 115,
            119, 105, 102, 116, 1, 0, 118, 3, 0, 118, 97, 114, 1, 0, 0, 0, 0, 0, 0, 0, 0, 0, 0,
            0, 255, 1, 0, 0, 0, 0, 0, 0, 0, 5, 56, 0, 0, 0, 0, 0, 0, 0, 56, 0, 0, 0, 224, 255,
            63, 75, 0, 1, 0, 0, 64, 0, 0, 0, 0, 0, 0, 0, 128, 0, 0, 0, 0, 0, 0, 0, 192, 0, 0, 0,
            0, 0, 0, 0, 0, 1, 0, 0, 0, 0, 0, 0, 64, 1, 0, 0, 0, 0, 0, 0, 192, 2, 0, 0, 128, 1,
            0, 0, 0, 0, 0, 0, 192, 1, 0, 0, 0, 0, 0, 0, 0, 2, 0, 0, 0, 0, 0, 0, 128, 2, 0, 0,
            64, 5, 0, 0, 0, 24, 0, 0, 0, 18, 0, 0, 0, 132, 0, 0, 0, 16, 0, 0, 192, 31, 0, 0, 0,
            32, 79, 0, 0, 0, 0,
        ]
    );
}

#[test]
fn particle_and_error_values_are_tag_only() {
    let m = one_op_module(
        LineType::Event,
        0,
        0,
        vec![named(Value::Particle), named(Value::Error)],
    );
    let out = compile(m).unwrap();
    // 64 + 32 + 8 + 64 + 11 + 64 + 32 + 32 = 307 bits -> 39 bytes, no table.
    assert_eq!(out.len(), 39);
}

#[test]
fn overlong_string_is_refused() {
    let m = one_op_module(
        LineType::Event,
        0,
        0,
        vec![named(Value::Block { block: "a".repeat(65536) })],
    );
    assert_eq!(compile(m), Err(EncodeError::StringTooLong));
}

#[test]
fn longest_string_is_accepted() {
    let m = one_op_module(
        LineType::Event,
        0,
        0,
        vec![named(Value::Block { block: "a".repeat(65535) })],
    );
    let out = compile(m).unwrap();
    // Table entry: 16-bit length 65535, then the bytes.
    assert_eq!(&out[0..4], &[255, 255, 97, 97]);
}

#[test]
fn calculation_numbers_and_nested_arrays() {
    // A calculation-expression number records its string with no tag of its
    // own; arrays nest, each run behind its own length prefix.
    let m = one_op_module(
        LineType::Event,
        3,
        1,
        vec![
            named(Value::Number { number: Number::Calc(String::from("%i% + 1")) }),
            named(Value::Array {
                values: vec![Value::Array {
                    values: vec![Value::Number { number: Number::Simple(0x55) }],
                }],
            }),
        ],
    );
    let out = compile(m).unwrap();
    assert_eq!(
        out,
        vec![
            7, 0, 37, 105, 37, 32, 43, 32, 49, 1, 0, 0, 0, 0, 0, 0, 0, 2, 0, 0, 0, 3, 1, 0, 0,
            0, 0, 0, 0, 0, 1, 16, 0, 0, 0, 0, 0, 0, 0, 40, 0, 0, 0, 0, 0, 0, 0, 8, 0, 0, 0, 0,
            0, 0, 0, 0, 0, 0, 0, 8, 0, 0, 0, 0, 0, 0, 0, 40, 0, 0, 0, 168, 2, 0, 0, 0, 0, 0, 0,
            0,
        ]
    );
}
