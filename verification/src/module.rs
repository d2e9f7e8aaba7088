//! The value graph: the typed, in-memory form of one program.
//!
//! A module owns ordered handler lines; a line owns typed operations; an
//! operation owns named argument values.  Identifiers drawn from the closed
//! catalogs (events, game values, actions and their tag sets) are represented
//! by their small unsigned ordinals.  Floating-point payloads are carried as
//! their IEEE-754 bit patterns in same-width unsigned fields, which is
//! exactly what the encoder emits.

use vstd::prelude::*;

verus! {

/// A member of the action catalog, as its ordinal.  The catalog's generated
/// type name carries a `Wants11Bits` width hint, so these tags are emitted
/// in 11 bits rather than the default full width.
#[derive(Clone, Copy, Debug, PartialEq, Eq, Structural)]
pub struct ActionId {
    pub ordinal: u16,
}

/// A member of the game-value catalog, as its ordinal.
#[derive(Clone, Copy, Debug, PartialEq, Eq, Structural)]
pub struct GameValueId {
    pub ordinal: u16,
}

/// A member of the event catalog, as its ordinal.
#[derive(Clone, Copy, Debug, PartialEq, Eq, Structural)]
pub struct EventId {
    pub ordinal: u16,
}

/// A member of the game-value kind tag set, as its ordinal.
#[derive(Clone, Copy, Debug, PartialEq, Eq, Structural)]
pub struct ValueType {
    pub ordinal: u16,
}

/// A member of the action type tag set, as its ordinal.
#[derive(Clone, Copy, Debug, PartialEq, Eq, Structural)]
pub struct ActionType {
    pub ordinal: u16,
}

/// A member of the action object-kind tag set, as its ordinal.
#[derive(Clone, Copy, Debug, PartialEq, Eq, Structural)]
pub struct ActionObject {
    pub ordinal: u16,
}

/// A member of the argument-kind tag set, as its ordinal.
#[derive(Clone, Copy, Debug, PartialEq, Eq, Structural)]
pub struct ArgType {
    pub ordinal: u16,
}

/// The root of one program: an ordered sequence of lines.  Order is
/// significant and is preserved in the emitted stream.
#[derive(Debug)]
pub struct Module {
    pub handlers: Vec<Line>,
}

/// One handler line: a kind tag, a numeric position and its operations.
#[derive(Debug)]
pub struct Line {
    pub line_type: LineType,
    pub position: u8,
    pub operations: Vec<Op>,
}

/// The kind of a handler line.
#[derive(Clone, Copy, Debug, PartialEq, Eq, Structural)]
pub enum LineType {
    Process,
    Function,
    Event,
}

/// One operation: an action identifier and its ordered named arguments.
#[derive(Debug)]
pub struct Op {
    pub action: ActionId,
    pub values: Vec<NamedValue>,
}

/// A named argument.  Only the value is encoded into the stream; the name is
/// carried for the loader's benefit and never written.
#[derive(Debug)]
pub struct NamedValue {
    pub name: String,
    pub value: Value,
}

/// A tagged argument value.  Fields that are floating point in the
/// interchange form hold the IEEE-754 bit pattern of the number, reinterpreted
/// as a same-width unsigned integer.
#[derive(Debug)]
pub enum Value {
    Array { values: Vec<Value> },
    Block { block: String },
    Enum { value: String },
    Item { item: String },
    Location { x: u64, y: u64, z: u64, yaw: u64, pitch: u64 },
    Number { number: Number },
    Particle,
    Potion { potion: String, amplifier: i16, duration: i16 },
    Sound { sound: String, pitch: u32, volume: u32, variaton: String, source: String },
    Text { text: String, parsing: TextParsing },
    Variable { variable: String, scope: VariableScope },
    Vector { x: u64, y: u64, z: u64 },
    GameValue { game_value: GameValueId, selection: String },
    Error,
}

/// A numeric argument: either a literal double (as its bit pattern) or a
/// calculation-expression string.  The alternative carries no tag of its own
/// in the stream.
#[derive(Debug)]
pub enum Number {
    Simple(u64),
    Calc(String),
}

/// How a text value is parsed downstream.
#[derive(Clone, Copy, Debug, PartialEq, Eq, Structural)]
pub enum TextParsing {
    Legacy,
    Plain,
}

/// The scope of a variable value.
#[derive(Clone, Copy, Debug, PartialEq, Eq, Structural)]
pub enum VariableScope {
    Local,
    Global,
    Save,
}

/// The variant ordinal of a line kind.
pub open spec fn line_type_ord(t: LineType) -> u64 {
    match t {
        LineType::Process => 0,
        LineType::Function => 1,
        LineType::Event => 2,
    }
}

/// The variant ordinal of a text parsing mode.
pub open spec fn text_parsing_ord(t: TextParsing) -> u64 {
    match t {
        TextParsing::Legacy => 0,
        TextParsing::Plain => 1,
    }
}

/// The variant ordinal of a variable scope.
pub open spec fn variable_scope_ord(s: VariableScope) -> u64 {
    match s {
        VariableScope::Local => 0,
        VariableScope::Global => 1,
        VariableScope::Save => 2,
    }
}

/// The variant ordinal of a value, in declaration order.
pub open spec fn value_tag_ord(v: Value) -> u64 {
    match v {
        Value::Array { .. } => 0,
        Value::Block { .. } => 1,
        Value::Enum { .. } => 2,
        Value::Item { .. } => 3,
        Value::Location { .. } => 4,
        Value::Number { .. } => 5,
        Value::Particle => 6,
        Value::Potion { .. } => 7,
        Value::Sound { .. } => 8,
        Value::Text { .. } => 9,
        Value::Variable { .. } => 10,
        Value::Vector { .. } => 11,
        Value::GameValue { .. } => 12,
        Value::Error => 13,
    }
}

} // verus!
