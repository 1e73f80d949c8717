use discover::codec::DefaultDecoder;
use discover::codec::DefaultEncoder;
use discover::codec::Encoder;
use discover::watcher::discover_change;
use discover::watcher::identity_eq;
use discover::watcher::ChangeKind;
use discover::watcher::ConsumerMirror;
use discover::watcher::Event;
use discover::watcher::WatchEvent;
use discover::watcher::WatcherCore;
use discover::Instance;

fn instance(last_octet: u8) -> Instance {
    Instance {
        zone: "sh1".to_owned(),
        env: "test".to_owned(),
        appid: "/dubbo-rs/provider".to_owned(),
        hostname: "myhostname".to_owned(),
        addrs: vec![
            format!("http://172.1.1.{}:8000", last_octet),
            format!("grpc://172.1.1.{}:9999", last_octet),
        ],
        version: "111".to_owned(),
        metadata: [("weight".to_owned(), "10".to_owned())].iter().cloned().collect(),
    }
}

fn leaf(ins: &Instance) -> String {
    String::from_utf8(DefaultEncoder.encode(ins).unwrap()).unwrap()
}

fn forward(
    core: &mut WatcherCore,
    consumer: &mut ConsumerMirror,
    snapshot: Vec<String>,
) -> Vec<Event> {
    let step = core.on_children(snapshot, &DefaultDecoder);
    let mut out = Vec::new();
    for ev in step.events {
        if let Some(e) = consumer.filter(ev.event) {
            out.push(e);
        }
    }
    out
}

#[test]
fn test_watch() {
    let i1 = instance(1);
    let i2 = instance(2);
    let mut core = WatcherCore::new();
    let mut consumer = ConsumerMirror::new();
    let mut events = Vec::new();
    // register(i1); watch installed; register(i2); deregister(i1);
    // deregister(i2) — as the children snapshots the watch sees.
    events.extend(forward(&mut core, &mut consumer, vec![leaf(&i1)]));
    events.extend(forward(&mut core, &mut consumer, vec![leaf(&i1), leaf(&i2)]));
    events.extend(forward(&mut core, &mut consumer, vec![leaf(&i2)]));
    events.extend(forward(&mut core, &mut consumer, vec![]));
    assert_eq!(events.len(), 4);
    assert!(matches!(events[0], Event::Create(..)));
    if let Event::Create(ref ins) = events[0] {
        assert_eq!(*ins, i1);
    }
    assert!(matches!(events[1], Event::Create(..)));
    if let Event::Create(ref ins) = events[1] {
        assert_eq!(*ins, i2);
    }
    assert!(matches!(events[2], Event::Delete(..)));
    if let Event::Delete(ref ins) = events[2] {
        assert_eq!(*ins, i1);
    }
    assert!(matches!(events[3], Event::Delete(..)));
    if let Event::Delete(ref ins) = events[3] {
        assert_eq!(*ins, i2);
    }
}

#[test]
fn test_decode_malformed_child_tolerated() {
    let i2 = instance(2);
    let mut core = WatcherCore::new();
    let mut consumer = ConsumerMirror::new();
    let first = forward(&mut core, &mut consumer, vec!["garbage%not-a-pair".to_owned()]);
    assert!(first.is_empty());
    let second = forward(
        &mut core,
        &mut consumer,
        vec!["garbage%not-a-pair".to_owned(), leaf(&i2)],
    );
    assert_eq!(second.len(), 1);
    assert!(matches!(second[0], Event::Create(..)));
    if let Event::Create(ref ins) = second[0] {
        assert_eq!(*ins, i2);
    }
}

#[test]
fn test_duplicate_events_suppressed() {
    let i1 = instance(1);
    let mut twin = instance(1);
    twin.hostname = "otherhost".to_owned();
    twin.zone = "sh2".to_owned();
    assert!(identity_eq(&i1, &twin));
    let mut consumer = ConsumerMirror::new();
    assert!(consumer.filter(Event::Create(i1.duplicate())).is_some());
    assert!(consumer.filter(Event::Create(i1.duplicate())).is_none());
    assert!(consumer.filter(Event::Create(twin)).is_none());
    assert!(consumer.filter(Event::Delete(i1.duplicate())).is_some());
    assert!(consumer.filter(Event::Delete(i1)).is_none());
}

#[test]
fn test_identity_ignores_hostname_zone_metadata() {
    let a = instance(1);
    let mut b = instance(1);
    b.hostname = "h2".to_owned();
    b.zone = "z2".to_owned();
    b.metadata = Vec::new();
    assert!(identity_eq(&a, &b));
    let mut c = instance(1);
    c.version = "222".to_owned();
    assert!(!identity_eq(&a, &c));
    let d = instance(2);
    assert!(!identity_eq(&a, &d));
}

#[test]
fn test_child_absent_emits_delete_once() {
    let i1 = instance(1);
    let mut core = WatcherCore::new();
    let mut consumer = ConsumerMirror::new();
    let created = forward(&mut core, &mut consumer, vec![leaf(&i1)]);
    assert_eq!(created.len(), 1);
    let ev = core.on_child_absent(leaf(&i1).as_str(), &DefaultDecoder);
    assert!(ev.is_some());
    let ev = ev.unwrap();
    assert!(matches!(ev.event, Event::Delete(..)));
    let forwarded = consumer.filter(ev.event);
    assert!(forwarded.is_some());
    // The raw mirror no longer tracks the child, so an empty snapshot emits
    // no second deletion; and an unknown child reports nothing.
    let more = forward(&mut core, &mut consumer, vec![]);
    assert!(more.is_empty());
    assert!(core.on_child_absent("unknown", &DefaultDecoder).is_none());
}

#[test]
fn test_discover_change_keys_by_appid() {
    let i1 = instance(1);
    match discover_change(&Event::Create(i1.duplicate())) {
        ChangeKind::Insert(key) => assert_eq!(key, "/dubbo-rs/provider"),
        ChangeKind::Remove(_) => panic!("a creation must insert"),
    }
    match discover_change(&Event::Delete(i1)) {
        ChangeKind::Remove(key) => assert_eq!(key, "/dubbo-rs/provider"),
        ChangeKind::Insert(_) => panic!("a deletion must remove"),
    }
}

#[test]
fn test_watch_event_carries_event() {
    let i1 = instance(1);
    let ev = WatchEvent::new(Event::Create(i1.duplicate()));
    assert!(matches!(ev.event, Event::Create(..)));
    if let Event::Create(ref ins) = ev.event {
        assert_eq!(*ins, i1);
    }
}
