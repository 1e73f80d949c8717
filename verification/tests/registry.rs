use discover::codec::DefaultEncoder;
use discover::zk::deregister_path;
use discover::zk::deregister_result;
use discover::zk::is_dynamic;
use discover::zk::CoordError;
use discover::zk::CoordReply;
use discover::zk::PathCache;
use discover::zk::RegAction;
use discover::zk::RegTask;
use discover::zk::ZkRegError;
use std::collections::HashMap;

const NODE: &str = "/dubbo-rs/provider/zone=sh1&env=test&appid=%2Fdubbo-rs%2Fprovider&hostname=myhostname&addrs=http%3A%2F%2F172.1.1.1%3A8000&addrs=grpc%3A%2F%2F172.1.1.1%3A9999&version=111&metadata=%7B%22weight%22%3A%2210%22%7D";

fn sample_instance() -> discover::Instance {
    discover::Instance {
        zone: "sh1".to_owned(),
        env: "test".to_owned(),
        appid: "/dubbo-rs/provider".to_owned(),
        hostname: "myhostname".to_owned(),
        addrs: vec![
            "http://172.1.1.1:8000".to_owned(),
            "grpc://172.1.1.1:9999".to_owned(),
        ],
        version: "111".to_owned(),
        metadata: [("weight".to_owned(), "10".to_owned())].iter().cloned().collect(),
    }
}

/// Drives a registration against a map standing for the coordination tree:
/// path to "is ephemeral".
fn drive(
    task: &mut RegTask,
    cache: &mut PathCache,
    tree: &mut HashMap<String, bool>,
) -> Result<(), ZkRegError> {
    let mut reply: Option<CoordReply> = None;
    loop {
        match task.step(reply, cache) {
            RegAction::Continue => {
                reply = None;
            },
            RegAction::CheckExists(p) => {
                reply = Some(CoordReply::Exists(Ok(tree.contains_key(&p))));
            },
            RegAction::Create { path, ephemeral } => {
                if tree.contains_key(&path) {
                    reply = Some(CoordReply::Done(Err(CoordError::NodeExists)));
                } else {
                    tree.insert(path, ephemeral);
                    reply = Some(CoordReply::Done(Ok(())));
                }
            },
            RegAction::Finished(r) => {
                return r;
            },
        }
    }
}

#[test]
fn test_register_then_exists() {
    let ins = sample_instance();
    let mut cache = PathCache::new();
    let mut tree: HashMap<String, bool> = HashMap::new();
    let mut task = RegTask::new(&ins, &DefaultEncoder).unwrap();
    assert!(drive(&mut task, &mut cache, &mut tree).is_ok());
    assert!(tree.contains_key(NODE));
    assert_eq!(tree.get(NODE), Some(&true));
    assert_eq!(tree.get("/dubbo-rs"), Some(&false));
    assert_eq!(tree.get("/dubbo-rs/provider"), Some(&false));
}

#[test]
fn test_register_deregister() {
    let ins = sample_instance();
    let mut cache = PathCache::new();
    let mut tree: HashMap<String, bool> = HashMap::new();
    let mut task = RegTask::new(&ins, &DefaultEncoder).unwrap();
    assert!(drive(&mut task, &mut cache, &mut tree).is_ok());
    assert!(tree.contains_key(NODE));
    let path = deregister_path(&ins, &DefaultEncoder, &mut cache).unwrap();
    assert_eq!(path, NODE);
    let deleted = if tree.remove(&path).is_some() {
        Ok(())
    } else {
        Err(CoordError::NoNode)
    };
    assert!(deregister_result(deleted).is_ok());
    assert!(!tree.contains_key(NODE));
}

#[test]
fn test_register_twice_fails() {
    let ins = sample_instance();
    let mut cache = PathCache::new();
    let mut tree: HashMap<String, bool> = HashMap::new();
    let mut first = RegTask::new(&ins, &DefaultEncoder).unwrap();
    assert!(drive(&mut first, &mut cache, &mut tree).is_ok());
    let mut second = RegTask::new(&ins, &DefaultEncoder).unwrap();
    let res = drive(&mut second, &mut cache, &mut tree);
    assert_eq!(res, Err(ZkRegError::CreatePath(CoordError::NodeExists)));
}

#[test]
fn test_register_twice_fails_persistent() {
    let mut ins = sample_instance();
    ins.metadata = [("dynamic".to_owned(), "false".to_owned())].iter().cloned().collect();
    let mut cache = PathCache::new();
    let mut tree: HashMap<String, bool> = HashMap::new();
    let mut first = RegTask::new(&ins, &DefaultEncoder).unwrap();
    assert!(drive(&mut first, &mut cache, &mut tree).is_ok());
    let mut second = RegTask::new(&ins, &DefaultEncoder).unwrap();
    let res = drive(&mut second, &mut cache, &mut tree);
    assert_eq!(res, Err(ZkRegError::CreatePath(CoordError::NodeExists)));
}

#[test]
fn test_leaf_mode_follows_metadata() {
    assert!(is_dynamic(&Vec::new()));
    assert!(is_dynamic(&vec![("dynamic".to_owned(), "true".to_owned())]));
    assert!(!is_dynamic(&vec![("dynamic".to_owned(), "false".to_owned())]));
    assert!(!is_dynamic(&vec![("dynamic".to_owned(), "anything".to_owned())]));

    let mut ins = sample_instance();
    ins.metadata = [("dynamic".to_owned(), "other".to_owned())].iter().cloned().collect();
    let mut cache = PathCache::new();
    let mut tree: HashMap<String, bool> = HashMap::new();
    let mut task = RegTask::new(&ins, &DefaultEncoder).unwrap();
    assert!(drive(&mut task, &mut cache, &mut tree).is_ok());
    let leaf = deregister_path(&ins, &DefaultEncoder, &mut cache).unwrap();
    assert_eq!(tree.get(&leaf), Some(&false));
}

#[test]
fn test_deregister_then_register_persistent_short_circuits() {
    let mut ins = sample_instance();
    ins.metadata = [("dynamic".to_owned(), "false".to_owned())].iter().cloned().collect();
    let mut cache = PathCache::new();
    let mut tree: HashMap<String, bool> = HashMap::new();
    let mut first = RegTask::new(&ins, &DefaultEncoder).unwrap();
    assert!(drive(&mut first, &mut cache, &mut tree).is_ok());
    let path = deregister_path(&ins, &DefaultEncoder, &mut cache).unwrap();
    tree.remove(&path);
    // The deregistration cached the leaf path, so a persistent re-register
    // short-circuits and re-creates nothing.
    let mut again = RegTask::new(&ins, &DefaultEncoder).unwrap();
    assert!(drive(&mut again, &mut cache, &mut tree).is_ok());
    assert!(!tree.contains_key(&path));
}

#[test]
fn test_exists_failure_surfaces_as_create_path() {
    let ins = sample_instance();
    let mut cache = PathCache::new();
    let mut task = RegTask::new(&ins, &DefaultEncoder).unwrap();
    let mut reply: Option<CoordReply> = None;
    let res = loop {
        match task.step(reply, &mut cache) {
            RegAction::Continue => {
                reply = None;
            },
            RegAction::CheckExists(_) => {
                reply = Some(CoordReply::Exists(Err(CoordError::Other)));
            },
            RegAction::Create { .. } => {
                reply = Some(CoordReply::Done(Ok(())));
            },
            RegAction::Finished(r) => {
                break r;
            },
        }
    };
    assert_eq!(res, Err(ZkRegError::CreatePath(CoordError::Other)));
}

#[test]
fn test_path_cache() {
    let mut cache = PathCache::new();
    assert!(!cache.contains("/a"));
    cache.insert("/a".to_owned());
    assert!(cache.contains("/a"));
    assert!(!cache.contains("/a/b"));
}

#[test]
fn test_deregister_missing_node_errors() {
    let res = deregister_result(Err(CoordError::NoNode));
    assert_eq!(res, Err(ZkRegError::DeletePath(CoordError::NoNode)));
}

#[test]
fn test_cache_skips_known_ancestors() {
    let ins = sample_instance();
    let mut cache = PathCache::new();
    let mut tree: HashMap<String, bool> = HashMap::new();
    let mut first = RegTask::new(&ins, &DefaultEncoder).unwrap();
    assert!(drive(&mut first, &mut cache, &mut tree).is_ok());
    // Ancestors are cached now: a second registration must ask the
    // coordination service nothing about them.
    let mut second = RegTask::new(&ins, &DefaultEncoder).unwrap();
    let mut reply: Option<CoordReply> = None;
    loop {
        match second.step(reply, &mut cache) {
            RegAction::Continue => {
                reply = None;
            },
            RegAction::CheckExists(p) => {
                panic!("asked about a cached ancestor: {}", p);
            },
            RegAction::Create { path, .. } => {
                assert_eq!(path, NODE);
                reply = Some(CoordReply::Done(Err(CoordError::NodeExists)));
            },
            RegAction::Finished(_) => {
                break;
            },
        }
    }
}
