use std::collections::BTreeMap;

use pbdb::access::{Address, DbGuard, Error, HandleSlot, Request};
use pbdb::keys::encode_key;
use pbdb::schema::{
    process_fds, CollectionDef, Definition, FieldDescriptor, FileDescriptor, FileDescriptorSet,
    MessageDescriptor, SingleRecordDef, TYPE_STRING,
};

const TYPE_UINT32: i32 = 13;
const LABEL_OPTIONAL: i32 = 1;

/// A stand-in for the storage engine: it keeps what it is asked to keep,
/// across handles, as a database directory does.
#[derive(Default)]
struct Engine {
    entries: BTreeMap<(String, Vec<u8>), Vec<u8>>,
}

impl Engine {
    fn perform(&mut self, req: Request) -> Option<Vec<u8>> {
        match req {
            Request::Get(Address { partition, key }) => self.entries.get(&(partition, key)).cloned(),
            Request::Put(Address { partition, key }, value) => {
                self.entries.insert((partition, key), value);
                None
            }
            Request::Delete(Address { partition, key }) => {
                self.entries.remove(&(partition, key));
                None
            }
        }
    }
}

#[derive(Debug, Clone, PartialEq, Default)]
struct BasicMessage {
    id: String,
    value: u32,
}

impl BasicMessage {
    fn encode(&self) -> Vec<u8> {
        let mut out = self.value.to_le_bytes().to_vec();
        out.extend_from_slice(self.id.as_bytes());
        out
    }

    fn decode(bytes: &[u8]) -> BasicMessage {
        let value = u32::from_le_bytes([bytes[0], bytes[1], bytes[2], bytes[3]]);
        BasicMessage { id: String::from_utf8(bytes[4..].to_vec()).unwrap(), value }
    }
}

#[derive(Debug, Clone, PartialEq, Default)]
struct SingleRecord {
    value: u32,
}

impl SingleRecord {
    fn encode(&self) -> Vec<u8> {
        self.value.to_le_bytes().to_vec()
    }

    fn decode(bytes: &[u8]) -> SingleRecord {
        SingleRecord { value: u32::from_le_bytes([bytes[0], bytes[1], bytes[2], bytes[3]]) }
    }
}

fn field(name: &str, type_code: i32, identifier: Option<bool>) -> FieldDescriptor {
    FieldDescriptor { name: name.to_string(), type_code, label: LABEL_OPTIONAL, identifier }
}

fn test_schema() -> Vec<Definition> {
    let basic = MessageDescriptor {
        name: "BasicMessage".to_string(),
        fields: vec![field("id", TYPE_STRING, Some(true)), field("value", TYPE_UINT32, None)],
        single_record: None,
        case_insensitive: None,
    };
    let single = MessageDescriptor {
        name: "SingleRecord".to_string(),
        fields: vec![field("value", TYPE_UINT32, None)],
        single_record: Some(true),
        case_insensitive: None,
    };
    let insensitive = MessageDescriptor {
        name: "CaseInsensitive".to_string(),
        fields: vec![field("id", TYPE_STRING, Some(true))],
        single_record: None,
        case_insensitive: Some(true),
    };
    process_fds(&FileDescriptorSet {
        files: vec![FileDescriptor { messages: vec![basic, single, insensitive] }],
    })
    .unwrap()
}

fn collection(defs: &[Definition], name: &str) -> CollectionDef {
    for d in defs {
        if let Definition::Collection(c) = d {
            if c.name == name {
                return CollectionDef {
                    name: c.name.clone(),
                    key_field: c.key_field.clone(),
                    case_insensitive: c.case_insensitive,
                };
            }
        }
    }
    panic!("no collection {}", name)
}

fn single(defs: &[Definition], name: &str) -> SingleRecordDef {
    for d in defs {
        if let Definition::SingleRecord(s) = d {
            if s.name == name {
                return SingleRecordDef { name: s.name.clone() };
            }
        }
    }
    panic!("no single record {}", name)
}

fn get_basic(engine: &mut Engine, g: &DbGuard, c: &CollectionDef, id: &str) -> Option<BasicMessage> {
    let req = g.get_request(c, id).ok().unwrap();
    engine.perform(req).map(|b| BasicMessage::decode(&b))
}

fn put_basic(engine: &mut Engine, g: &DbGuard, c: &CollectionDef, msg: &BasicMessage) {
    let req = g.put_request(c, &msg.id, msg.encode()).ok().unwrap();
    engine.perform(req);
}

fn delete(engine: &mut Engine, g: &DbGuard, c: &CollectionDef, id: &str) {
    let req = g.delete_request(c, id).ok().unwrap();
    engine.perform(req);
}

fn get_single(engine: &mut Engine, g: &DbGuard, d: &SingleRecordDef) -> SingleRecord {
    let req = g.single_get_request(d).ok().unwrap();
    engine.perform(req).map(|b| SingleRecord::decode(&b)).unwrap_or_default()
}

fn put_single(engine: &mut Engine, g: &DbGuard, d: &SingleRecordDef, msg: &SingleRecord) {
    let req = g.single_put_request(d, msg.encode()).ok().unwrap();
    engine.perform(req);
}

#[test]
fn basic_database() {
    let defs = test_schema();
    let c = collection(&defs, "BasicMessage");
    let mut engine = Engine::default();
    let msg = BasicMessage { id: "test".to_string(), value: 2 };
    {
        let g = DbGuard::open(&defs);
        assert_eq!(None, get_basic(&mut engine, &g, &c, "test"));
        put_basic(&mut engine, &g, &c, &msg);
        assert_eq!(Some(msg.clone()), get_basic(&mut engine, &g, &c, "test"));
    }
    {
        let g = DbGuard::open(&defs);
        assert_eq!(Some(msg), get_basic(&mut engine, &g, &c, "test"));
        delete(&mut engine, &g, &c, "test");
        assert_eq!(None, get_basic(&mut engine, &g, &c, "test"));
    }
}

#[test]
fn basic_message() {
    let defs = test_schema();
    let c = collection(&defs, "BasicMessage");
    let mut engine = Engine::default();
    let id = String::from("test");
    let msg = BasicMessage { id: id.clone(), value: 2 };
    {
        let g = DbGuard::open(&defs);
        assert_eq!(None, get_basic(&mut engine, &g, &c, &id));
        put_basic(&mut engine, &g, &c, &msg);
        assert_eq!(Some(msg.clone()), get_basic(&mut engine, &g, &c, &id));
    }
    {
        let g = DbGuard::open(&defs);
        assert_eq!(Some(msg), get_basic(&mut engine, &g, &c, &id));
        delete(&mut engine, &g, &c, &id);
        assert_eq!(None, get_basic(&mut engine, &g, &c, &id));
    }
}

#[test]
fn single_record() {
    let defs = test_schema();
    let d = single(&defs, "SingleRecord");
    let mut engine = Engine::default();
    let msg = SingleRecord { value: 2 };
    {
        let g = DbGuard::open(&defs);
        assert_eq!(SingleRecord::default(), get_single(&mut engine, &g, &d));
        put_single(&mut engine, &g, &d, &msg);
        assert_eq!(msg, get_single(&mut engine, &g, &d));
    }
    {
        let g = DbGuard::open(&defs);
        assert_eq!(msg, get_single(&mut engine, &g, &d));
    }
}

#[test]
fn case_insensitive() {
    let defs = test_schema();
    let c = collection(&defs, "CaseInsensitive");
    let mut engine = Engine::default();
    let msg = BasicMessage { id: String::from("test"), value: 0 };
    {
        let g = DbGuard::open(&defs);
        assert_eq!(None, get_basic(&mut engine, &g, &c, "test"));
        assert_eq!(None, get_basic(&mut engine, &g, &c, "Test"));
        assert_eq!(None, get_basic(&mut engine, &g, &c, "TEST"));
        put_basic(&mut engine, &g, &c, &msg);
        assert_eq!(Some(msg.clone()), get_basic(&mut engine, &g, &c, "test"));
        assert_eq!(Some(msg.clone()), get_basic(&mut engine, &g, &c, "Test"));
        assert_eq!(Some(msg.clone()), get_basic(&mut engine, &g, &c, "TEST"));
    }
    {
        let g = DbGuard::open(&defs);
        assert_eq!(Some(msg.clone()), get_basic(&mut engine, &g, &c, "test"));
        assert_eq!(Some(msg.clone()), get_basic(&mut engine, &g, &c, "Test"));
        assert_eq!(Some(msg), get_basic(&mut engine, &g, &c, "TEST"));
        delete(&mut engine, &g, &c, "TEST");
        assert_eq!(None, get_basic(&mut engine, &g, &c, "test"));
        assert_eq!(None, get_basic(&mut engine, &g, &c, "Test"));
        assert_eq!(None, get_basic(&mut engine, &g, &c, "TEST"));
    }
}

#[test]
fn put_twice_keeps_the_record() {
    let defs = test_schema();
    let c = collection(&defs, "BasicMessage");
    let mut engine = Engine::default();
    let g = DbGuard::open(&defs);
    let msg = BasicMessage { id: "x".to_string(), value: 7 };
    put_basic(&mut engine, &g, &c, &msg);
    put_basic(&mut engine, &g, &c, &msg);
    assert_eq!(Some(msg), get_basic(&mut engine, &g, &c, "x"));
    assert_eq!(engine.entries.len(), 1);
}

#[test]
fn delete_of_absent_key_is_a_no_op() {
    let defs = test_schema();
    let c = collection(&defs, "BasicMessage");
    let mut engine = Engine::default();
    let g = DbGuard::open(&defs);
    delete(&mut engine, &g, &c, "missing");
    delete(&mut engine, &g, &c, "missing");
    assert_eq!(None, get_basic(&mut engine, &g, &c, "missing"));
}

#[test]
fn scenario_collection_round_trip() {
    let defs = test_schema();
    let c = collection(&defs, "BasicMessage");
    let mut engine = Engine::default();
    let g = DbGuard::open(&defs);
    assert_eq!(None, get_basic(&mut engine, &g, &c, "x"));
    let msg = BasicMessage { id: "x".to_string(), value: 2 };
    put_basic(&mut engine, &g, &c, &msg);
    assert_eq!(Some(BasicMessage { id: "x".to_string(), value: 2 }), get_basic(&mut engine, &g, &c, "x"));
    delete(&mut engine, &g, &c, "x");
    assert_eq!(None, get_basic(&mut engine, &g, &c, "x"));
}

#[test]
fn scenario_settings_survive_reopen() {
    let settings = MessageDescriptor {
        name: "Settings".to_string(),
        fields: vec![field("value", TYPE_UINT32, None)],
        single_record: Some(true),
        case_insensitive: None,
    };
    let defs = process_fds(&FileDescriptorSet {
        files: vec![FileDescriptor { messages: vec![settings] }],
    })
    .unwrap();
    let d = single(&defs, "Settings");
    let mut engine = Engine::default();
    let mut g = DbGuard::open(&defs);
    assert_eq!(SingleRecord { value: 0 }, get_single(&mut engine, &g, &d));
    put_single(&mut engine, &g, &d, &SingleRecord { value: 2 });
    g.close();
    let g = DbGuard::open(&defs);
    assert_eq!(SingleRecord { value: 2 }, get_single(&mut engine, &g, &d));
}

#[test]
fn closed_handle_is_not_initialized() {
    let defs = test_schema();
    let c = collection(&defs, "BasicMessage");
    let d = single(&defs, "SingleRecord");
    let mut g = DbGuard::open(&defs);
    assert!(g.is_open());
    g.close();
    assert!(!g.is_open());
    assert!(matches!(g.get_request(&c, "x"), Err(Error::NotInitialized)));
    assert!(matches!(g.put_request(&c, "x", vec![1]), Err(Error::NotInitialized)));
    assert!(matches!(g.delete_request(&c, "x"), Err(Error::NotInitialized)));
    assert!(matches!(g.single_get_request(&d), Err(Error::NotInitialized)));
    assert!(matches!(g.single_put_request(&d, vec![]), Err(Error::NotInitialized)));
}

#[test]
fn unregistered_collection_is_partition_missing() {
    let g = DbGuard::open(&Vec::new());
    let c = CollectionDef { name: "Other".to_string(), key_field: "id".to_string(), case_insensitive: false };
    assert!(matches!(g.get_request(&c, "x"), Err(Error::PartitionMissing(n)) if n == "Other"));
    assert!(matches!(g.put_request(&c, "x", vec![]), Err(Error::PartitionMissing(n)) if n == "Other"));
    assert!(matches!(g.delete_request(&c, "x"), Err(Error::PartitionMissing(n)) if n == "Other"));
    let d = SingleRecordDef { name: "Settings".to_string() };
    assert!(g.single_get_request(&d).is_ok());
    assert_eq!(g.partitions(), &vec!["__SingleRecord".to_string()]);
}

#[test]
fn requests_address_partition_and_key() {
    let defs = test_schema();
    let g = DbGuard::open(&defs);
    let c = collection(&defs, "CaseInsensitive");
    match g.put_request(&c, "MiXeD-1", vec![9]).ok().unwrap() {
        Request::Put(Address { partition, key }, value) => {
            assert_eq!(partition, "CaseInsensitive");
            assert_eq!(key, b"mixed-1".to_vec());
            assert_eq!(value, vec![9]);
        }
        _ => panic!("expected a put"),
    }
    let d = single(&defs, "SingleRecord");
    match g.single_get_request(&d).ok().unwrap() {
        Request::Get(Address { partition, key }) => {
            assert_eq!(partition, "__SingleRecord");
            assert_eq!(key, b"SingleRecord".to_vec());
        }
        _ => panic!("expected a get"),
    }
    assert_eq!(
        g.partitions(),
        &vec!["__SingleRecord".to_string(), "BasicMessage".to_string(), "CaseInsensitive".to_string()]
    );
}

#[test]
fn key_encoding_folds_ascii_only_when_asked() {
    assert_eq!(encode_key("Test", false), b"Test".to_vec());
    assert_eq!(encode_key("Test", true), b"test".to_vec());
    assert_eq!(encode_key("TEST", true), encode_key("test", true));
    assert_eq!(encode_key("AZaz@[`{", true), b"azaz@[`{".to_vec());
    assert_eq!(encode_key("", true), Vec::<u8>::new());
    assert_eq!(encode_key("Ärger", true), "Ärger".as_bytes().to_vec());
    assert_ne!(encode_key("Test", false), encode_key("test", false));
}

#[test]
fn slot_holds_one_handle_at_a_time() {
    let defs = test_schema();
    let c = collection(&defs, "BasicMessage");
    let mut slot = HandleSlot::new();
    assert!(matches!(slot.guard(), Err(Error::NotInitialized)));
    assert!(slot.install(DbGuard::open(&defs)).is_ok());
    assert!(matches!(slot.install(DbGuard::open(&Vec::new())), Err(Error::AlreadyOpen)));
    let g = slot.guard().ok().unwrap();
    assert_eq!(g.partitions().len(), 3);
    assert!(g.get_request(&c, "x").is_ok());
    slot.release();
    assert!(matches!(slot.guard(), Err(Error::NotInitialized)));
    assert!(slot.install(DbGuard::open(&Vec::new())).is_ok());
    assert_eq!(slot.guard().ok().unwrap().partitions().len(), 1);
}
