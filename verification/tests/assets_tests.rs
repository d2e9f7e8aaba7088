use batatacode::assets::{Action, Arg, Event, GameValue};
use batatacode::module::{
    ActionId, ActionObject, ActionType, EventId, GameValueId, ValueType,
};

#[test]
fn catalog_entries_carry_their_ordinals() {
    let event = Event { id: EventId { ordinal: 4 }, cancellable: true };
    assert_eq!(event.id.ordinal, 4);
    assert!(event.cancellable);

    let game_value = GameValue {
        id: GameValueId { ordinal: 2 },
        value_type: ValueType { ordinal: 1 },
    };
    assert_eq!(game_value.id.ordinal, 2);
    assert_eq!(game_value.value_type.ordinal, 1);

    let action = Action {
        id: ActionId { ordinal: 5 },
        action_type: ActionType { ordinal: 0 },
        object: ActionObject { ordinal: 3 },
        args: vec![Arg::Any, Arg::Any],
    };
    assert_eq!(action.id.ordinal, 5);
    assert_eq!(action.object.ordinal, 3);
    assert_eq!(action.args.len(), 2);
    assert_eq!(action.args[0], Arg::Any);
}
