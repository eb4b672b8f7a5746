use smudgy_panes::remote_interop::{eq_ignore_ascii_case, paths_comparable};

fn path(value: &str) -> Vec<String> {
    value.split('.').map(str::to_string).collect()
}

#[test]
fn path_comparison_is_case_insensitive_and_ancestor_aware() {
    assert!(paths_comparable(&path("Vitals.HP"), &path("vitals")));
    assert!(paths_comparable(&path("vitals"), &path("VITALS.hp")));
    assert!(!paths_comparable(&path("vitals.hp"), &path("vitals.mana")));
}

#[test]
fn path_comparison_is_symmetric_and_reflexive() {
    let a = path("room.Exits.north");
    let b = path("ROOM.exits");
    assert_eq!(paths_comparable(&a, &b), paths_comparable(&b, &a));
    assert!(paths_comparable(&a, &a));
    assert!(paths_comparable(&[], &a));
}

#[test]
fn ascii_case_folding_leaves_other_characters_alone() {
    assert!(eq_ignore_ascii_case("HeLLo", "hello"));
    assert!(!eq_ignore_ascii_case("hello", "hell"));
    assert!(!eq_ignore_ascii_case("Ä", "ä"));
    assert!(eq_ignore_ascii_case("straße", "STRAßE"));
    assert!(!eq_ignore_ascii_case("[", "{"));
}

use smudgy_panes::remote_interop::{Delivery, PublishedWrite, RemoteBinding, RemoteStateRegistry, RemoteWatcher};

#[derive(Debug, Clone, PartialEq)]
enum Producer {
    User,
    Script,
}

type Registry = RemoteStateRegistry<Producer, u8>;

const MAIN: u8 = 0;
const MAX_EVENT_DEPTH: u32 = 16;

fn watcher(source: u64, path_text: &str, function_id: u64, coalesced: bool) -> RemoteWatcher<Producer, u8> {
    RemoteWatcher { source, producer: Producer::User, path: path(path_text), isolate: MAIN, function_id, coalesced }
}

fn bind(registry: &mut Registry, next_id: &mut u32, source: u64, path_text: &str) -> u32 {
    registry.bind(source, Producer::User, path(path_text), || {
        *next_id += 1;
        *next_id
    })
}

#[test]
fn directed_watch_and_binding_follow_only_the_named_source() {
    let (source, other) = (7u64, 8u64);
    let mut next_id = 1u32; // the local binding took the first id
    let local_binding = 1u32;
    let mut registry = Registry::new();
    registry.watch(watcher(source, "vitals.hp", 3, true));
    let remote_binding = bind(&mut registry, &mut next_id, source, "vitals.hp");
    assert_ne!(local_binding, remote_binding, "binding token namespaces are shared");
    assert_eq!(bind(&mut registry, &mut next_id, source, "Vitals.HP"), remote_binding);

    let writes = vec![PublishedWrite { producer: Producer::User, path: path("vitals.hp"), depth: 4 }];

    let (wrong_actions, wrong_bindings) = registry.deliver(other, &writes, MAX_EVENT_DEPTH);
    assert!(wrong_actions.is_empty());
    assert!(wrong_bindings.is_empty());

    let (actions, bindings) = registry.deliver(source, &writes, MAX_EVENT_DEPTH);
    assert_eq!(bindings, vec![remote_binding]);
    assert_eq!(actions, vec![Delivery::Coalesced { watcher: 0, depth: 5 }]);
}

#[test]
fn destroying_a_source_invalidates_coalesced_views_but_is_not_a_write() {
    let source = 7u64;
    let mut next_id = 0u32;
    let mut registry = Registry::new();
    registry.watch(watcher(source, "vitals", 1, true));
    registry.watch(watcher(source, "vitals", 2, false));
    let binding = bind(&mut registry, &mut next_id, source, "vitals");

    let (coalesced, cleared) = registry.source_destroyed(source);
    assert_eq!(cleared, vec![binding]);
    assert_eq!(coalesced, vec![0], "destruction does not synthesize an onWrite call");
}

#[test]
fn per_write_watches_fire_per_reaching_write_below_the_depth_cap() {
    let mut registry = Registry::new();
    let t0 = registry.watch(watcher(1, "room", 9, false));
    let t1 = registry.watch(watcher(1, "room.exits", 10, true));
    assert_eq!((t0, t1), (0, 1));
    let writes = vec![
        PublishedWrite { producer: Producer::User, path: path("ROOM.exits.north"), depth: 0 },
        PublishedWrite { producer: Producer::Script, path: path("room"), depth: 0 },
        PublishedWrite { producer: Producer::User, path: path("room.name"), depth: 3 },
        PublishedWrite { producer: Producer::User, path: path("room"), depth: MAX_EVENT_DEPTH },
    ];
    let (actions, _) = registry.deliver(1, &writes, MAX_EVENT_DEPTH);
    assert_eq!(
        actions,
        vec![
            Delivery::PerWrite { watcher: 0, write: 0, depth: 1 },
            Delivery::PerWrite { watcher: 0, write: 2, depth: 4 },
            Delivery::Coalesced { watcher: 1, depth: 1 },
        ]
    );

    registry.unwatch(0, &1);
    let (actions, _) = registry.deliver(1, &writes, MAX_EVENT_DEPTH);
    assert_eq!(actions.len(), 3, "another isolate cannot drop the watch");
    registry.unwatch(0, &MAIN);
    registry.unwatch(99, &MAIN);
    let (actions, _) = registry.deliver(1, &writes, MAX_EVENT_DEPTH);
    assert_eq!(actions, vec![Delivery::Coalesced { watcher: 1, depth: 1 }]);
}

#[test]
fn binding_twice_hands_out_the_same_cell() {
    let mut registry = Registry::new();
    let mut allocations = 0u32;
    let first = registry.bind(3, Producer::User, path("Room.Exits"), || {
        allocations += 1;
        40
    });
    let second = registry.bind(3, Producer::User, path("room.EXITS"), || {
        allocations += 1;
        41
    });
    assert_eq!((first, second), (40, 40));
    assert_eq!(allocations, 1);
    assert_eq!(registry.find_binding(3, &Producer::User, &path("ROOM.exits")), Some(40));
    // Another producer, source or path is another cell.
    assert_eq!(registry.bind(3, Producer::Script, path("room.exits"), || 42), 42);
    assert_eq!(registry.bind(4, Producer::User, path("room.exits"), || 43), 43);
    assert_eq!(registry.bind(3, Producer::User, path("room"), || 44), 44);
    registry.add_binding(RemoteBinding { id: 50, source: 9, producer: Producer::User, path: path("a") });
    assert_eq!(registry.bind(9, Producer::User, path("A"), || 51), 50);
}
