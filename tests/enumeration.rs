use wayland_globals::enumeration::{BarrierEvent, Enumeration, Phase, ProtocolError, RegistryEvent};
use wayland_globals::snapshot::assemble;

fn global(name: u32, interface: &str, version: u32) -> RegistryEvent {
    RegistryEvent::Global { name, interface: interface.to_string(), version }
}

#[test]
fn assemble_with_no_globals() {
    let s = assemble(1000, Vec::new());
    assert_eq!(s.generation_timestamp, 1000);
    assert!(s.globals.is_empty());
}

#[test]
fn no_advertisements_give_an_empty_snapshot() {
    let mut e = Enumeration::new(42);
    e.on_barrier(BarrierEvent::Acknowledged);
    let s = e.finish(false).unwrap();
    assert_eq!(s.generation_timestamp, 42);
    assert!(s.globals.is_empty());
}

#[test]
fn channel_failure_gives_protocol_error() {
    let mut e = Enumeration::new(7);
    e.on_registry_event(global(1, "wl_compositor", 5));
    e.on_barrier(BarrierEvent::ChannelFailed);
    assert_eq!(e.phase, Phase::Failed);
    assert_eq!(e.finish(true), Err(ProtocolError));
}

#[test]
fn unresolved_barrier_gives_protocol_error() {
    let mut e = Enumeration::new(7);
    e.on_registry_event(global(1, "wl_compositor", 5));
    assert_eq!(e.finish(false), Err(ProtocolError));
}

#[test]
fn advertisements_are_collected_in_arrival_order() {
    let mut e = Enumeration::new(5);
    e.on_registry_event(global(1, "zwp_foo", 1));
    e.on_registry_event(global(2, "wl_bar", 3));
    e.on_registry_event(RegistryEvent::GlobalRemove { name: 1 });
    e.on_registry_event(global(3, "wl_bar", 5));
    let order: Vec<(String, u32)> =
        e.globals.iter().map(|g| (g.interface.clone(), g.version)).collect();
    assert_eq!(
        order,
        vec![("zwp_foo".to_string(), 1), ("wl_bar".to_string(), 3), ("wl_bar".to_string(), 5)]
    );
    e.on_barrier(BarrierEvent::Acknowledged);
    let s = e.finish(true).unwrap();
    let out: Vec<(String, u32)> =
        s.globals.iter().map(|g| (g.interface.clone(), g.version)).collect();
    assert_eq!(out, vec![("wl_bar".to_string(), 5), ("zwp_foo".to_string(), 1)]);
}

#[test]
fn events_after_the_barrier_are_ignored() {
    let mut e = Enumeration::new(9);
    e.on_barrier(BarrierEvent::Acknowledged);
    e.on_registry_event(global(1, "wl_shm", 1));
    e.on_barrier(BarrierEvent::ChannelFailed);
    assert_eq!(e.phase, Phase::Synced);
    assert!(e.finish(false).unwrap().globals.is_empty());
}
