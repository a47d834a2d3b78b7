use std::collections::BTreeMap;
use std::sync::{Arc, Mutex};

use kvs::client::{get_result, unit_result};
use kvs::engine_kind::select_engine;
use kvs::server::{get_response, handle_command, unit_response};
use kvs::{
    Command, Engine, KvsEngine, KvsError, RayonThreadPool, Response, SharedQueueThreadPool,
    ThreadPool,
};

#[derive(Clone)]
struct MapEngine {
    map: Arc<Mutex<BTreeMap<String, String>>>,
}

impl KvsEngine for MapEngine {
    fn set(&self, key: String, value: String) -> Result<(), KvsError> {
        self.map.lock().unwrap().insert(key, value);
        Ok(())
    }

    fn get(&self, key: String) -> Result<Option<String>, KvsError> {
        Ok(self.map.lock().unwrap().get(&key).cloned())
    }

    fn remove(&self, key: String) -> Result<(), KvsError> {
        match self.map.lock().unwrap().remove(&key) {
            Some(_) => Ok(()),
            None => Err(KvsError::NotFoundError(key)),
        }
    }
}

#[test]
fn errors_have_their_messages() {
    assert_eq!(
        KvsError::IOError("disk full".to_string()).to_string(),
        "KVS command io-error"
    );
    assert_eq!(
        KvsError::SerDeError.to_string(),
        "KVS command serialization/Deserialization error"
    );
    assert_eq!(
        KvsError::NotFoundError("k1".to_string()).to_string(),
        "Key not found: k1"
    );
    assert_eq!(KvsError::PathError.to_string(), "Path Error");
    assert_eq!(
        KvsError::CompactionError.to_string(),
        "Error while compacting database log"
    );
    assert_eq!(
        KvsError::UnexpectedCommandError.to_string(),
        "Unexpected Command type found"
    );
    assert_eq!(
        KvsError::SledEngineError("io".to_string()).to_string(),
        "Error in sled engine: io"
    );
    assert_eq!(
        KvsError::StringParseError.to_string(),
        "Error parsing string for sled engine"
    );
    assert_eq!(KvsError::Misc("x".to_string()).to_string(), "KVS misc error");
}

#[test]
fn results_become_responses() {
    assert!(matches!(
        get_response(Ok(Some("v".to_string()))),
        Response::Success(Some(v)) if v == "v"
    ));
    assert!(matches!(get_response(Ok(None)), Response::Success(None)));
    assert!(matches!(
        get_response(Err(KvsError::UnexpectedCommandError)),
        Response::Failure(m) if m == "Unexpected Command type found"
    ));
    assert!(matches!(unit_response(Ok(())), Response::Success(None)));
    assert!(matches!(
        unit_response(Err(KvsError::NotFoundError("k".to_string()))),
        Response::Failure(m) if m == "Key not found: k"
    ));
}

#[test]
fn responses_become_results() {
    assert!(matches!(
        get_result(Response::Success(Some("v".to_string()))),
        Ok(Some(v)) if v == "v"
    ));
    assert!(matches!(get_result(Response::Success(None)), Ok(None)));
    assert!(matches!(
        get_result(Response::Failure("boom".to_string())),
        Err(KvsError::Misc(m)) if m == "boom"
    ));
    assert!(matches!(unit_result(Response::Success(None)), Ok(())));
    assert!(matches!(
        unit_result(Response::Success(Some("ignored".to_string()))),
        Ok(())
    ));
    assert!(matches!(
        unit_result(Response::Failure("boom".to_string())),
        Err(KvsError::Misc(m)) if m == "boom"
    ));
}

#[test]
fn commands_are_carried_out_on_the_engine() {
    let store = MapEngine {
        map: Arc::new(Mutex::new(BTreeMap::new())),
    };
    assert!(matches!(
        handle_command(&store, Command::Get("k".to_string())),
        Response::Success(None)
    ));
    assert!(matches!(
        handle_command(&store, Command::Put("k".to_string(), "v".to_string())),
        Response::Success(None)
    ));
    assert!(matches!(
        handle_command(&store, Command::Get("k".to_string())),
        Response::Success(Some(v)) if v == "v"
    ));
    assert!(matches!(
        handle_command(&store, Command::Rm("k".to_string())),
        Response::Success(None)
    ));
    assert!(matches!(
        handle_command(&store, Command::Rm("k".to_string())),
        Response::Failure(m) if m == "Key not found: k"
    ));
    assert!(matches!(
        handle_command(&store.clone(), Command::Get("k".to_string())),
        Response::Success(None)
    ));
}

#[test]
fn engines_are_named() {
    assert_eq!(Engine::from_string("sled"), Engine::sled);
    assert_eq!(Engine::from_string("kvs"), Engine::kvs);
    assert_eq!(Engine::from_string(""), Engine::kvs);
    assert_eq!(Engine::from_string("Sled"), Engine::kvs);
    assert_eq!(Engine::from_string("sled\n"), Engine::kvs);
    assert_eq!(Engine::sled.to_string(), "sled");
    assert_eq!(Engine::kvs.to_string(), "kvs");
    for mut engine in [Engine::kvs, Engine::sled] {
        assert_eq!(Engine::from_string(&engine.to_string()), engine);
    }
}

#[test]
fn a_directory_keeps_its_engine() {
    let chosen = select_engine(None, None).unwrap();
    assert_eq!((chosen.engine, chosen.record), (Engine::kvs, true));
    let chosen = select_engine(None, Some(Engine::sled)).unwrap();
    assert_eq!((chosen.engine, chosen.record), (Engine::sled, true));
    let chosen = select_engine(Some("sled"), None).unwrap();
    assert_eq!((chosen.engine, chosen.record), (Engine::sled, false));
    let chosen = select_engine(Some("kvs"), None).unwrap();
    assert_eq!((chosen.engine, chosen.record), (Engine::kvs, false));
    let chosen = select_engine(Some("kvs"), Some(Engine::kvs)).unwrap();
    assert_eq!((chosen.engine, chosen.record), (Engine::kvs, false));
    let chosen = select_engine(Some("sled"), Some(Engine::sled)).unwrap();
    assert_eq!((chosen.engine, chosen.record), (Engine::sled, false));
    assert!(matches!(
        select_engine(Some("sled"), Some(Engine::kvs)),
        Err(KvsError::Misc(m)) if m == "Wrong engine provided"
    ));
    assert!(matches!(
        select_engine(Some("kvs"), Some(Engine::sled)),
        Err(KvsError::Misc(m)) if m == "Wrong engine provided"
    ));
    assert!(matches!(
        select_engine(Some("other"), Some(Engine::kvs)),
        Err(KvsError::Misc(_))
    ));
    let chosen = select_engine(Some("other"), None).unwrap();
    assert_eq!((chosen.engine, chosen.record), (Engine::kvs, false));
}

#[test]
fn idle_pools_take_jobs_and_drop_them() {
    let ran = Arc::new(Mutex::new(0));
    let pool = SharedQueueThreadPool::new(4).unwrap();
    let counter = ran.clone();
    pool.spawn(move || *counter.lock().unwrap() += 1);
    let pool = RayonThreadPool::new(0).unwrap();
    let counter = ran.clone();
    pool.spawn(move || *counter.lock().unwrap() += 1);
    assert_eq!(*ran.lock().unwrap(), 0);
    assert_eq!(Arc::strong_count(&ran), 1);
}
