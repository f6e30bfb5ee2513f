use event_rs::Event;
use std::cell::RefCell;
use std::rc::Rc;

#[test]
fn test_invoke() {
    let counter = Rc::new(RefCell::new(0));
    let mut event = Event::new();

    event.invoke(&());

    event.add(|_| {
        *counter.borrow_mut() += 1;
    });

    event.add(|_| {
        *counter.borrow_mut() += 1;
    });

    event.invoke(&());
    event.invoke(&());
    assert_eq!(*counter.borrow(), 4);
}

#[test]
fn test_remove_handler() {
    let counter = Rc::new(RefCell::new(0));
    let mut event = Event::new();

    let handle = event.add(|_| {
        *counter.borrow_mut() += 1;
    });

    assert!(event.remove(handle));
    event.invoke(&());

    assert_eq!(*counter.borrow(), 0);
}

#[test]
fn test_clear_handlers() {
    let counter = Rc::new(RefCell::new(0));
    let mut event = Event::new();

    for _ in 0..5 {
        event.add(|_| {
            *counter.borrow_mut() += 1;
        });
    }

    event.clear();
    event.invoke(&());

    assert_eq!(*counter.borrow(), 0);
}

#[test]
fn test_remove_handler_twice() {
    let counter = Rc::new(RefCell::new(0));
    let mut event = Event::new();

    let handle = event.add(|_| {
        *counter.borrow_mut() += 1;
    });

    assert!(event.remove(handle));
    assert!(!event.remove(handle));

    event.invoke(&());
    assert_eq!(*counter.borrow(), 0);
}

#[test]
fn invoke_on_new_event_calls_nothing() {
    let event: Event<u32> = Event::new();
    event.invoke(&7);
}

#[test]
fn default_event_is_empty() {
    let mut event: Event<()> = Event::default();
    assert!(!event.remove(0));
    assert_eq!(event.add(|_| {}), 0);
}

#[test]
fn handles_count_up_from_zero() {
    let mut event: Event<()> = Event::new();
    assert_eq!(event.add(|_| {}), 0);
    assert_eq!(event.add(|_| {}), 1);
    assert_eq!(event.add(|_| {}), 2);
}

#[test]
fn handle_released_last_is_reused_first() {
    let mut event: Event<()> = Event::new();
    for _ in 0..4 {
        event.add(|_| {});
    }
    assert!(event.remove(1));
    assert!(event.remove(3));
    assert!(event.remove(0));
    assert_eq!(event.add(|_| {}), 0);
    assert_eq!(event.add(|_| {}), 3);
    assert_eq!(event.add(|_| {}), 1);
    assert_eq!(event.add(|_| {}), 4);
}

#[test]
fn remove_of_unknown_handle_returns_false() {
    let mut event: Event<()> = Event::new();
    assert!(!event.remove(0));
    let handle = event.add(|_| {});
    assert!(!event.remove(handle + 1));
    assert!(!event.remove(usize::MAX));
    assert!(event.remove(handle));
}

#[test]
fn remove_takes_out_that_handler_only() {
    let log = Rc::new(RefCell::new(Vec::new()));
    let mut event: Event<()> = Event::new();
    let first = event.add(|_| log.borrow_mut().push("first"));
    let second = event.add(|_| log.borrow_mut().push("second"));
    let third = event.add(|_| log.borrow_mut().push("third"));
    assert_eq!((first, second, third), (0, 1, 2));

    assert!(event.remove(second));
    event.invoke(&());
    assert_eq!(*log.borrow(), vec!["first", "third"]);

    assert!(event.remove(first));
    assert!(event.remove(third));
    event.invoke(&());
    assert_eq!(*log.borrow(), vec!["first", "third"]);
}

#[test]
fn invoke_calls_each_handler_once_in_handle_order() {
    let log = Rc::new(RefCell::new(Vec::new()));
    let mut event: Event<()> = Event::new();
    for id in 0..5 {
        let log = Rc::clone(&log);
        event.add(move |_| log.borrow_mut().push(id));
    }
    event.invoke(&());
    assert_eq!(*log.borrow(), vec![0, 1, 2, 3, 4]);
    event.invoke(&());
    assert_eq!(*log.borrow(), vec![0, 1, 2, 3, 4, 0, 1, 2, 3, 4]);
}

#[test]
fn invoke_follows_slots_not_registration_order() {
    let log = Rc::new(RefCell::new(Vec::new()));
    let mut event: Event<()> = Event::new();
    let a = event.add(|_| log.borrow_mut().push('a'));
    event.add(|_| log.borrow_mut().push('b'));
    event.add(|_| log.borrow_mut().push('c'));
    assert!(event.remove(a));
    let d = event.add(|_| log.borrow_mut().push('d'));
    assert_eq!(d, a);

    event.invoke(&());
    assert_eq!(*log.borrow(), vec!['d', 'b', 'c']);
}

#[test]
fn invoke_hands_the_argument_to_each_handler() {
    let seen = Rc::new(RefCell::new(Vec::new()));
    let mut event: Event<(u32, String)> = Event::new();
    event.add(|args: &(u32, String)| seen.borrow_mut().push(format!("{}:{}", args.0, args.1)));
    event.add(|args: &(u32, String)| seen.borrow_mut().push(format!("{}!", args.1)));

    event.invoke(&(7, String::from("up")));
    event.invoke(&(8, String::from("down")));
    assert_eq!(*seen.borrow(), vec!["7:up", "up!", "8:down", "down!"]);
}

#[test]
fn clear_voids_handles_and_starts_over() {
    let counter = Rc::new(RefCell::new(0));
    let mut event: Event<()> = Event::new();
    let first = event.add(|_| *counter.borrow_mut() += 1);
    let second = event.add(|_| *counter.borrow_mut() += 1);
    assert!(event.remove(first));

    event.clear();
    assert!(!event.remove(first));
    assert!(!event.remove(second));
    event.invoke(&());
    assert_eq!(*counter.borrow(), 0);

    assert_eq!(event.add(|_| *counter.borrow_mut() += 10), 0);
    assert_eq!(event.add(|_| *counter.borrow_mut() += 100), 1);
    event.invoke(&());
    assert_eq!(*counter.borrow(), 110);
}

#[test]
fn clear_of_empty_event_is_a_no_op() {
    let mut event: Event<()> = Event::new();
    event.clear();
    event.invoke(&());
    assert_eq!(event.add(|_| {}), 0);
}

#[test]
fn handle_round_trip() {
    let counter = Rc::new(RefCell::new(0));
    let mut event: Event<()> = Event::new();
    let kept = event.add(|_| *counter.borrow_mut() += 1);
    let dropped = event.add(|_| *counter.borrow_mut() += 100);
    assert_ne!(kept, dropped);

    assert!(event.remove(dropped));
    event.invoke(&());
    assert_eq!(*counter.borrow(), 1);
    assert!(event.remove(kept));
    event.invoke(&());
    assert_eq!(*counter.borrow(), 1);
}

#[test]
fn removed_handler_is_dropped() {
    let token = Rc::new(());
    let mut event: Event<()> = Event::new();
    let held = Rc::clone(&token);
    let handle = event.add(move |_| {
        let _ = &held;
    });
    let also_held = Rc::clone(&token);
    event.add(move |_| {
        let _ = &also_held;
    });
    assert_eq!(Rc::strong_count(&token), 3);

    assert!(event.remove(handle));
    assert_eq!(Rc::strong_count(&token), 2);
    event.clear();
    assert_eq!(Rc::strong_count(&token), 1);
}

#[test]
fn reused_slot_holds_the_new_handler() {
    let counter = Rc::new(RefCell::new(0));
    let mut event: Event<()> = Event::new();
    let handle = event.add(|_| *counter.borrow_mut() += 1);
    assert!(event.remove(handle));
    assert_eq!(event.add(|_| *counter.borrow_mut() += 10), handle);
    event.invoke(&());
    assert_eq!(*counter.borrow(), 10);
}
