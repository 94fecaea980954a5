use hast::IdStorage;
use hast::recordsets::RecordSet;
use hast::server::{decode_payload, make_status, Config};
use hast::storage::{
    EmptyStorage, Info, InsertRequest, LookupRequest, ObjectHash, SimpleStorage, Storage,
};
use hast::codec::u64_dec_string;

#[test]
fn test_empty() {
    let storage = IdStorage::new();
    assert_eq!(storage.get_by_id(100), None);
}

#[test]
fn test_insert_one() {
    let mut storage = IdStorage::new();
    let input = "123456789";
    let id = storage.add(&input);
    assert_eq!(storage.len(), 1);
    assert_eq!(storage.get_by_id(id).unwrap(), input);
}

#[test]
fn test_insert_repeat() {
    let mut storage = IdStorage::new();
    let input = "123456789";
    for _ in 0..100 {
        storage.add(&input);
    }
    assert_eq!(storage.len(), 1);
    assert_eq!(storage.get_by_id(100), None);
}

#[test]
fn test_reports() {
    let mut records = RecordSet::new();
    let info1 = Info::new("report1");
    let objects1 = ObjectHash {
        name: "report1-file".to_owned(),
        hash: "1234".to_owned(),
    };

    let info2 = Info::new("report2");
    let objects2 = ObjectHash {
        name: "report2-file".to_owned(),
        hash: "2345".to_owned(),
    };

    records.insert(&info1, &[objects1]);
    records.insert(&info2, &[objects2]);

    let (infos, names) = records.get_by_hash("1234").unwrap();
    assert_eq!(infos.len(), 1);
    assert_eq!(infos[0].id, "report1");

    assert_eq!(names.len(), 1);
    assert_eq!(names[0], "report1-file");

    let (infos, names) = records.get_by_hash("2345").unwrap();
    assert_eq!(infos.len(), 1);
    assert_eq!(infos[0].id, "report2");

    assert_eq!(names.len(), 1);
    assert_eq!(names[0], "report2-file");

    assert_eq!(records.get_by_hash("none"), None);
}

fn req(id: &str, records: Vec<(&str, &str)>) -> InsertRequest {
    InsertRequest {
        info: Info::new(id),
        records: records
            .into_iter()
            .map(|(name, hash)| ObjectHash {
                name: name.to_owned(),
                hash: hash.to_owned(),
            })
            .collect(),
    }
}

// Inserting the same report id twice leaves the index as after the first
// insert; the second insert reports "duplicate".
#[test]
fn test_duplicate_insert() {
    let mut records = RecordSet::new();
    let info = Info::new("r1");
    let first = ObjectHash {
        name: "a.bin".to_owned(),
        hash: "h1".to_owned(),
    };
    let second = ObjectHash {
        name: "other.bin".to_owned(),
        hash: "h9".to_owned(),
    };
    assert!(records.insert(&info, &[first]));
    assert!(!records.insert(&info, &[second]));
    // the second insert's records left no trace
    assert_eq!(records.get_by_hash("h9"), None);
    let (infos, names) = records.get_by_hash("h1").unwrap();
    assert_eq!(infos.len(), 1);
    assert_eq!(names.len(), 1);
}

// The concrete two-report scenario: lookups merge by hash and answer
// "not found" for a hash never inserted.
#[test]
fn test_scenario_two_reports() {
    let mut storage = SimpleStorage::new("workdir");
    storage.save_mem(&req("r1", vec![("a.bin", "h1")]));
    storage.save_mem(&req("r2", vec![("b.bin", "h1")]));

    let found = storage
        .lookup_merge(&LookupRequest {
            hashes: vec!["h1".to_owned()],
        })
        .unwrap();
    let mut ids: Vec<String> = found.records.iter().map(|i| i.id.clone()).collect();
    ids.sort();
    assert_eq!(ids, vec!["r1".to_owned(), "r2".to_owned()]);

    assert!(storage
        .lookup_merge(&LookupRequest {
            hashes: vec!["h2".to_owned()],
        })
        .is_none());
}

// Fan-in merge across two hashes: each matched report appears once, even
// when both reports also share a hash.
#[test]
fn test_fan_in_merge() {
    let mut storage = SimpleStorage::new("workdir");
    storage.save_mem(&req("ra", vec![("a", "h"), ("a1", "h1")]));
    storage.save_mem(&req("rb", vec![("b", "h"), ("b2", "h2")]));

    let found = storage
        .lookup_merge(&LookupRequest {
            hashes: vec!["h1".to_owned(), "h2".to_owned(), "h".to_owned()],
        })
        .unwrap();
    let mut ids: Vec<String> = found.records.iter().map(|i| i.id.clone()).collect();
    ids.sort();
    assert_eq!(ids, vec!["ra".to_owned(), "rb".to_owned()]);
}

// The persisted text is exact canonical JSON.
#[test]
fn test_to_json_text() {
    let r = req("r1", vec![("a.bin", "h1")]);
    assert_eq!(
        r.to_json(),
        "{\"info\":{\"id\":\"r1\",\"host\":null,\"timestamp\":null},\"records\":[{\"name\":\"a.bin\",\"hash\":\"h1\"}]}"
    );
}

// What the encoder writes, serde_json can read back with the same fields.
#[test]
fn test_json_serde_compat() {
    let mut r = req("r \"x\"\\y\n", vec![("a b", "h\t1"), ("c", "d")]);
    r.info.host = Some("host1".to_owned());
    let text = r.to_json();
    let v: serde_json::Value = serde_json::from_str(&text).unwrap();
    assert_eq!(v["info"]["id"].as_str().unwrap(), "r \"x\"\\y\n");
    assert_eq!(v["info"]["host"].as_str().unwrap(), "host1");
    assert!(v["info"]["timestamp"].is_null());
    assert_eq!(v["records"][0]["name"].as_str().unwrap(), "a b");
    assert_eq!(v["records"][1]["hash"].as_str().unwrap(), "d");
}

// Round trip through the codec: parsing the persisted text yields the
// original request, escapes and all.
#[test]
fn test_codec_roundtrip() {
    let mut r = req(
        "id with \"quotes\" and \\slashes\\ and\nnewlines\u{1}",
        vec![("n1", "h1"), ("weird \u{7} name", "h\u{1f} x")],
    );
    r.info.timestamp = Some("2020-01-01T00:00:00".to_owned());
    let text = r.to_json();
    let (info, records) = hast::codec::parse_request(&text).unwrap();
    assert_eq!(info, r.info);
    assert_eq!(records, r.records);
}

// Recovery fidelity: replaying the persisted texts into a fresh index
// reproduces the lookup answers.
#[test]
fn test_recovery() {
    let mut storage = SimpleStorage::new("w");
    let reqs = vec![
        req("r1", vec![("a.bin", "h1")]),
        req("r2", vec![("b.bin", "h1"), ("c.bin", "h2")]),
        req("r3", vec![("d.bin", "h3")]),
    ];
    let mut files: Vec<String> = Vec::new();
    for r in &reqs {
        if storage.save_mem(r) {
            files.push(r.to_json());
        }
    }
    drop(storage);

    let mut recovered = SimpleStorage::new("w");
    for f in &files {
        assert!(recovered.recover_entry(f));
    }
    for (hash, expect) in [
        ("h1", vec!["r1", "r2"]),
        ("h2", vec!["r2"]),
        ("h3", vec!["r3"]),
    ] {
        let found = recovered
            .lookup_merge(&LookupRequest {
                hashes: vec![hash.to_owned()],
            })
            .unwrap();
        let mut ids: Vec<String> = found.records.iter().map(|i| i.id.clone()).collect();
        ids.sort();
        let expect: Vec<String> = expect.into_iter().map(|s| s.to_owned()).collect();
        assert_eq!(ids, expect);
    }
    assert!(recovered
        .lookup_merge(&LookupRequest {
            hashes: vec!["h4".to_owned()],
        })
        .is_none());
}

// Bad file tolerance: a corrupt file is skipped and the valid ones recover
// exactly.
#[test]
fn test_recovery_bad_file() {
    let good1 = req("r1", vec![("a.bin", "h1")]).to_json();
    let good2 = req("r2", vec![("b.bin", "h2")]).to_json();

    let mut recovered = SimpleStorage::new("w");
    assert!(recovered.recover_entry(&good1));
    assert!(!recovered.recover_entry("{\"info\": this is not json"));
    assert!(!recovered.recover_entry(""));
    assert!(recovered.recover_entry(&good2));

    for (hash, id) in [("h1", "r1"), ("h2", "r2")] {
        let found = recovered
            .lookup_merge(&LookupRequest {
                hashes: vec![hash.to_owned()],
            })
            .unwrap();
        assert_eq!(found.records.len(), 1);
        assert_eq!(found.records[0].id, id);
    }
}

// The persisted file name is the decimal identifier of the report id.
#[test]
fn test_file_name() {
    let r = req("r1", vec![]);
    let name = SimpleStorage::file_name(&r);
    assert_eq!(name, IdStorage::make_hash("r1").to_string());
    assert!(!name.is_empty());
    assert!(name.chars().all(|c| c.is_ascii_digit()));
    assert_eq!(name, SimpleStorage::file_name(&r));
}

#[test]
fn test_dec_string() {
    assert_eq!(u64_dec_string(0), "0");
    assert_eq!(u64_dec_string(7), "7");
    assert_eq!(u64_dec_string(12345), "12345");
    assert_eq!(u64_dec_string(u64::MAX), "18446744073709551615");
}

// The payload decoder: base64 text, one "hash name" pair per line, trimmed;
// lines without a space are dropped.
#[test]
fn test_decode_payload() {
    let text = "h1 a.bin\nh2   b with spaces.bin  \nno-space-line\n\nh3 c.bin";
    let encoded = base64::encode(text);
    let records = decode_payload(&encoded).unwrap();
    assert_eq!(records.len(), 3);
    assert_eq!(records[0].hash, "h1");
    assert_eq!(records[0].name, "a.bin");
    assert_eq!(records[1].hash, "h2");
    assert_eq!(records[1].name, "b with spaces.bin");
    assert_eq!(records[2].hash, "h3");
    assert_eq!(records[2].name, "c.bin");
}

#[test]
fn test_decode_payload_bad() {
    // not base64
    assert!(decode_payload("!!!not-base64!!!").is_none());
    // base64 of bytes that are not UTF-8
    let encoded = base64::encode([0xff, 0xfe, 0x20].as_slice());
    assert!(decode_payload(&encoded).is_none());
    // empty payload decodes to no records
    assert_eq!(decode_payload(&base64::encode("")).unwrap().len(), 0);
}

#[test]
fn test_interning_helpers() {
    let mut t = IdStorage::new();
    let id = t.add("abc");
    assert_eq!(id, IdStorage::make_hash("abc"));
    assert_eq!(t.get_by_value("abc"), Some(id));
    assert_eq!(t.get_by_value("missing"), None);
}

#[test]
fn test_status_and_config() {
    assert_eq!(make_status(true), "{\"status\":\"ok\"}");
    assert_eq!(make_status(false), "{\"status\":\"failed\"}");
    let c = Config::new();
    assert_eq!(c.address, "0.0.0.0:8888");
    let c = c.with_address("127.0.0.1:9000");
    assert_eq!(c.address, "127.0.0.1:9000");
}

#[test]
fn test_storage_trait() {
    let mut empty = EmptyStorage;
    assert!(empty
        .insert(req("r", vec![]))
        .is_none());
    assert!(empty
        .lookup(LookupRequest { hashes: vec!["h".to_owned()] })
        .is_none());

    let mut storage = SimpleStorage::new("w");
    assert!(storage.insert(req("r1", vec![("a", "h1")])).is_some());
    // duplicate insert still reports success
    assert!(storage.insert(req("r1", vec![("b", "h2")])).is_some());
    let found = storage
        .lookup(LookupRequest { hashes: vec!["h1".to_owned()] })
        .unwrap();
    assert_eq!(found.records.len(), 1);
    assert_eq!(found.records[0].id, "r1");
    assert!(storage
        .lookup(LookupRequest { hashes: vec!["h2".to_owned()] })
        .is_none());
}

#[test]
fn test_lookup_response_json() {
    let mut storage = SimpleStorage::new("w");
    storage.save_mem(&req("r1", vec![("a", "h1")]));
    let found = storage
        .lookup_merge(&LookupRequest { hashes: vec!["h1".to_owned()] })
        .unwrap();
    let text = found.to_json();
    assert_eq!(
        text,
        "{\"records\":[{\"id\":\"r1\",\"host\":null,\"timestamp\":null}]}"
    );
    let v: serde_json::Value = serde_json::from_str(&text).unwrap();
    assert_eq!(v["records"][0]["id"].as_str().unwrap(), "r1");
}

// The parser also accepts the conventional short escapes that other JSON
// writers emit, so such files recover.
#[test]
fn test_parse_short_escapes() {
    let text = "{\"info\":{\"id\":\"a\\nb\\tc\\rd\\be\\ff\\/g\",\"host\":null,\"timestamp\":null},\"records\":[]}";
    let (info, records) = hast::codec::parse_request(text).unwrap();
    assert_eq!(info.id, "a\nb\tc\rd\u{8}e\u{c}f/g");
    assert!(records.is_empty());
}

#[test]
fn test_recover_short_escapes() {
    let text = "{\"info\":{\"id\":\"r\\n1\",\"host\":null,\"timestamp\":null},\"records\":[{\"name\":\"a\\tb\",\"hash\":\"h1\"}]}";
    let mut storage = SimpleStorage::new("w");
    assert!(storage.recover_entry(text));
    let found = storage
        .lookup_merge(&LookupRequest {
            hashes: vec!["h1".to_owned()],
        })
        .unwrap();
    assert_eq!(found.records.len(), 1);
    assert_eq!(found.records[0].id, "r\n1");
}
