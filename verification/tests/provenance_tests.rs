use simengine::provenance::{
    calculate_hash, MetaValue, Metadata, ProvenanceChain, ProvenanceRecord,
};

fn meta_num(key: &str, text: &str) -> Metadata {
    let mut m = Metadata::empty();
    assert!(m.push_num(key.to_string(), text.to_string()));
    m
}

fn meta_str(key: &str, value: &str) -> Metadata {
    let mut m = Metadata::empty();
    m.push_str(key.to_string(), value.to_string());
    m
}

#[test]
fn test_provenance_record_creation() {
    let data = b"some simulation data";
    let record = ProvenanceRecord::new(
        "mesh_generation".to_string(),
        data,
        "v1.0.0".to_string(),
        None,
        meta_num("mesh_size", "0.1"),
    );

    assert_eq!(record.event_type, "mesh_generation");
    assert_eq!(record.software_version, "v1.0.0");
    assert!(record.previous_record_hash.is_none());
    let entries = record.metadata.entries();
    assert_eq!(entries.len(), 1);
    assert_eq!(entries[0].key, "mesh_size");
    match &entries[0].val {
        MetaValue::MNum(t) => assert_eq!(t, "0.1"),
        _ => panic!("metadata value should be the number 0.1"),
    }

    let expected_hash = calculate_hash(data);
    assert_eq!(record.data_hash, expected_hash);
}

#[test]
fn test_provenance_chain_linking() {
    let mut chain = ProvenanceChain::new();

    let data1 = b"initial data";
    chain
        .add_record(
            "initial_setup".to_string(),
            data1,
            "v1.0.0".to_string(),
            meta_str("config", "default"),
        )
        .unwrap();

    let record1_hash = chain.records()[0].calculate_record_hash();

    let data2 = b"meshed data";
    chain
        .add_record(
            "mesh_generation".to_string(),
            data2,
            "v1.0.0".to_string(),
            meta_str("mesh_type", "tetra"),
        )
        .unwrap();

    let record2 = &chain.records()[1];
    let record2_hash = record2.calculate_record_hash();
    assert_eq!(record2.event_type, "mesh_generation");
    assert_eq!(record2.previous_record_hash, Some(record1_hash));

    let data3 = b"solver output";
    chain
        .add_record(
            "solver_run".to_string(),
            data3,
            "v1.0.0".to_string(),
            meta_str("solver", "fem"),
        )
        .unwrap();

    let record3 = &chain.records()[2];
    assert_eq!(record3.event_type, "solver_run");
    assert!(record3.previous_record_hash.is_some());
    assert_eq!(record3.previous_record_hash.as_ref().unwrap().clone(), record2_hash);
}

#[test]
fn test_provenance_chain_serialization() {
    let mut chain = ProvenanceChain::new();

    chain
        .add_record(
            "initial_setup".to_string(),
            b"data1",
            "v1.0.0".to_string(),
            meta_str("config", "default"),
        )
        .unwrap();

    chain
        .add_record(
            "mesh_generation".to_string(),
            b"data2",
            "v1.0.0".to_string(),
            meta_str("mesh_type", "tetra"),
        )
        .unwrap();

    let json_output = chain.to_json().unwrap();
    println!("Serialized Provenance Chain:\n{}", json_output);

    let deserialized_chain = ProvenanceChain::from_json(&json_output).unwrap();

    assert_eq!(chain.records().len(), deserialized_chain.records().len());
    assert_eq!(
        chain.records()[0].event_type,
        deserialized_chain.records()[0].event_type
    );
    assert_eq!(chain.records()[1].data_hash, deserialized_chain.records()[1].data_hash);
}

#[test]
fn hash_is_deterministic() {
    let a = calculate_hash(b"identical payload bytes");
    let b = calculate_hash(b"identical payload bytes");
    assert_eq!(a, b);
    let c = calculate_hash(b"different payload bytes");
    assert_ne!(a, c);
}

#[test]
fn hash_matches_reference_digest() {
    // the hexadecimal SHA-256 digest of "abc"
    assert_eq!(
        calculate_hash(b"abc"),
        "ba7816bf8f01cfea414140de5dae2223b00361a396177a9cb410ff61f20015ad"
    );
}

#[test]
fn empty_chain_serializes_to_brackets() {
    let chain = ProvenanceChain::new();
    assert_eq!(chain.to_json().unwrap(), "[]");
    let back = ProvenanceChain::from_json("[]").unwrap();
    assert_eq!(back.records().len(), 0);
}

#[test]
fn round_trip_preserves_three_records() {
    let mut chain = ProvenanceChain::new();
    chain
        .add_record("one".to_string(), b"p1", "v1".to_string(), meta_str("a", "x"))
        .unwrap();
    let mut m2 = Metadata::empty();
    m2.push_str_list(
        "equations".to_string(),
        vec!["2*x=y".to_string(), "a+b".to_string()],
    );
    chain
        .add_record("two".to_string(), b"p2", "v1".to_string(), m2)
        .unwrap();
    chain
        .add_record("three \"quoted\"\n".to_string(), b"p3", "v1".to_string(), Metadata::empty())
        .unwrap();

    let text = chain.to_json().unwrap();
    let back = ProvenanceChain::from_json(&text).unwrap();
    assert_eq!(back.records().len(), 3);
    for i in 0..3 {
        assert_eq!(back.records()[i].event_type, chain.records()[i].event_type);
        assert_eq!(back.records()[i].data_hash, chain.records()[i].data_hash);
        assert_eq!(
            back.records()[i].previous_record_hash,
            chain.records()[i].previous_record_hash
        );
        assert_eq!(
            back.records()[i].timestamp_millis,
            chain.records()[i].timestamp_millis
        );
    }
}

#[test]
fn drain_empties_and_next_record_has_no_previous_hash() {
    let mut chain = ProvenanceChain::new();
    chain
        .add_record("one".to_string(), b"p1", "v1".to_string(), Metadata::empty())
        .unwrap();
    chain
        .add_record("two".to_string(), b"p2", "v1".to_string(), Metadata::empty())
        .unwrap();
    let drained = chain.drain_records();
    assert_eq!(drained.len(), 2);
    assert_eq!(chain.records().len(), 0);
    chain
        .add_record("fresh".to_string(), b"p3", "v1".to_string(), Metadata::empty())
        .unwrap();
    assert!(chain.records()[0].previous_record_hash.is_none());
}

#[test]
fn from_json_rejects_text_that_is_not_a_chain() {
    assert!(ProvenanceChain::from_json("").is_err());
    assert!(ProvenanceChain::from_json("{}").is_err());
    assert!(ProvenanceChain::from_json("[") .is_err());
    assert!(ProvenanceChain::from_json("[]trailing").is_err());
}
