use rune::sub_type::Function;
use rune::sub_type::Number;
use rune::value::Value;
use std::mem::size_of;

#[test]
fn sub_type_size() {
    assert_eq!(size_of::<Value>(), size_of::<Function>());
    assert_eq!(size_of::<Option<Value>>(), size_of::<Option<Function>>());
    assert_eq!(size_of::<Value>(), size_of::<Number>());
    assert_eq!(size_of::<Option<Value>>(), size_of::<Option<Number>>());
}
