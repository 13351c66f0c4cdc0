use market_square::place::Place;
use std::rc::Rc;

#[test]
fn a_place_holds_what_is_written_last() {
    let mut place: Place<String> = Place::uninit();
    assert!(place.get().is_none());
    assert_eq!(place.write("figs".to_string()), "figs");
    place.write("dates".to_string()).push_str(" and figs");
    assert_eq!(place.get().unwrap(), "dates and figs");
    place.drop_value();
    assert!(place.get().is_none());
}

#[test]
fn a_value_is_dropped_only_on_demand() {
    let value = Rc::new(5);
    let mut place = Place::new(value.clone());
    assert_eq!(Rc::strong_count(&value), 2);
    // Neither by writing over it
    place.write(value.clone());
    assert_eq!(Rc::strong_count(&value), 3);
    place.drop_value();
    assert_eq!(Rc::strong_count(&value), 2);
    place.drop_value();
    assert_eq!(Rc::strong_count(&value), 2);
    // nor with the place
    drop(Place::new(value.clone()));
    assert_eq!(Rc::strong_count(&value), 3);
}
