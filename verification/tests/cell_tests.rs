use dynui::Cell;
use dynui::MutableCell;

#[test]
fn new_cell_holds_value_and_no_listener_fires() {
    let mut c = Cell::new(41u64);
    assert_eq!(*c.get(), 41);
    let fired = c.set(42);
    assert!(fired.is_empty());
    assert_eq!(*c.get(), 42);
}

#[test]
fn once_listeners_fire_first_then_repeating_in_registration_order() {
    let mut c = Cell::new(0u64);
    c.on_update(10);
    c.on_update_once(11);
    c.on_update(12);
    c.on_update_once(13);
    let fired = c.set(5);
    assert_eq!(fired, vec![11, 13, 10, 12]);
    assert_eq!(*c.get(), 5);
    // The Once listeners were consumed: a second mutation fires the
    // Repeating listeners only, in registration order.
    let fired2 = c.set(6);
    assert_eq!(fired2, vec![10, 12]);
}

#[test]
fn registration_takes_effect_from_the_next_mutation_onward() {
    let mut c = Cell::new(0u64);
    let fired = c.set(1);
    assert!(fired.is_empty());
    c.on_update(7);
    let fired = c.set(2);
    assert_eq!(fired, vec![7]);
}

#[test]
fn update_applies_the_function_to_the_current_value() {
    let mut c = Cell::new(10u64);
    c.on_update(1);
    let fired = c.update(|x: &u64| *x * 3);
    assert_eq!(fired, vec![1]);
    assert_eq!(*c.get(), 30);
}

#[test]
fn set_through_the_mutable_cell_trait() {
    let mut c = Cell::new(0u64);
    c.on_update_once(5);
    let fired = MutableCell::set(&mut c, 9);
    assert_eq!(fired, vec![5]);
    assert_eq!(*c.get(), 9);
}

#[test]
fn scenario_log_of_observed_values() {
    let mut c = Cell::new(1u64);
    c.on_update(1);
    let mut log: Vec<u64> = Vec::new();
    let fired = c.update(|x: &u64| *x + 1);
    for _t in fired {
        log.push(*c.get());
    }
    assert_eq!(log, vec![2]);
    let fired = c.set(10);
    for _t in fired {
        log.push(*c.get());
    }
    assert_eq!(log, vec![2, 10]);
    let fired = c.update(|x: &u64| *x * 2);
    for _t in fired {
        log.push(*c.get());
    }
    assert_eq!(log, vec![2, 10, 20]);
}
