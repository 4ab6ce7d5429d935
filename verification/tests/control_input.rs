use std::sync::atomic::{AtomicU16, Ordering};
use std::sync::Arc;

use audio_router::control_input::{ControlChange, ControlInputObserver, ObservableControlInput};

struct MockObserver {
    pub last_value: AtomicU16,
}

impl ControlInputObserver for MockObserver {
    fn update(&self, cc: &ControlChange) {
        self.last_value.store(cc.value, Ordering::SeqCst);
    }
}

#[test]
fn test_observer_notification() {
    let mut observable = ObservableControlInput::new();
    let observer = Arc::new(MockObserver {
        last_value: AtomicU16::new(0),
    });

    observable.register(observer.clone());

    let change = ControlChange {
        control_id: "pot_volume".to_string(),
        value: 512,
        enabled: true,
    };
    observable.notify(&change);

    assert_eq!(observer.last_value.load(Ordering::SeqCst), 512);
}

#[test]
fn test_observer_unregistration() {
    let mut observable = ObservableControlInput::new();
    let observer = Arc::new(MockObserver {
        last_value: AtomicU16::new(0),
    });

    observable.register(observer.clone());
    observable.unregister(observer.clone());

    let change = ControlChange {
        control_id: "laser_cutoff".to_string(),
        value: 1024,
        enabled: true,
    };
    observable.notify(&change);

    // The value should remain 0 because it was successfully unregistered
    assert_eq!(observer.last_value.load(Ordering::SeqCst), 0);
}

#[test]
fn unregister_keeps_other_observers() {
    let mut observable = ObservableControlInput::new();
    let first = Arc::new(MockObserver { last_value: AtomicU16::new(0) });
    let second = Arc::new(MockObserver { last_value: AtomicU16::new(0) });
    observable.register(first.clone());
    observable.register(second.clone());
    observable.register(first.clone());
    assert_eq!(observable.len(), 3);
    observable.unregister(first.clone());
    assert_eq!(observable.len(), 1);
    observable.notify(&ControlChange { control_id: "encoder_1".to_string(), value: 7, enabled: true });
    assert_eq!(first.last_value.load(Ordering::SeqCst), 0);
    assert_eq!(second.last_value.load(Ordering::SeqCst), 7);
}

#[test]
fn notify_reaches_every_observer_in_order() {
    let mut observable = ObservableControlInput::new();
    let a = Arc::new(MockObserver { last_value: AtomicU16::new(0) });
    let b = Arc::new(MockObserver { last_value: AtomicU16::new(0) });
    observable.register(a.clone());
    observable.register(b.clone());
    observable.notify(&ControlChange { control_id: "x".to_string(), value: 99, enabled: false });
    assert_eq!(a.last_value.load(Ordering::SeqCst), 99);
    assert_eq!(b.last_value.load(Ordering::SeqCst), 99);
}
