use rustygene::assertion::{compute_assertion_idempotency_key, hex_string, sort_citations};
use rustygene::evidence::CitationRef;
use rustygene::types::EntityId;
use sha2::Digest;

fn json(s: &str) -> String {
    serde_json::to_string(s).expect("a string serializes")
}

#[test]
fn idempotency_key_independent_of_citation_order() {
    let entity_id = EntityId::new();
    let c1 = CitationRef {
        citation_id: EntityId::new(),
        note: Some("n1".to_string()),
    };
    let c2 = CitationRef {
        citation_id: EntityId::new(),
        note: Some("n2".to_string()),
    };

    let key_a = compute_assertion_idempotency_key(
        entity_id,
        "birth_date",
        &json("1850-05-01"),
        &[c1.clone(), c2.clone()],
    );
    let key_b = compute_assertion_idempotency_key(entity_id, "birth_date", &json("1850-05-01"), &[c2, c1]);

    assert_eq!(key_a, key_b);
}

#[test]
fn idempotency_key_changes_when_value_changes() {
    let entity_id = EntityId::new();
    let key_a = compute_assertion_idempotency_key(entity_id, "name", &json("John Doe"), &[]);
    let key_b = compute_assertion_idempotency_key(entity_id, "name", &json("John Roe"), &[]);

    assert_ne!(key_a, key_b);
}

#[test]
fn idempotency_key_is_sha256_of_compact_payload() {
    let entity_id = EntityId(0x0123_4567_89ab_cdef_0123_4567_89ab_cdef);
    let citation = CitationRef {
        citation_id: EntityId(1),
        note: None,
    };
    let key = compute_assertion_idempotency_key(entity_id, "name", "\"John \\\"Jack\\\" Doe\"", &[citation]);
    let payload = "{\"entity_id\":\"01234567-89ab-cdef-0123-456789abcdef\",\"field\":\"name\",\"value\":\"John \\\"Jack\\\" Doe\",\"source_citations\":[{\"citation_id\":\"00000000-0000-0000-0000-000000000001\",\"note\":null}]}";
    let digest = sha2::Sha256::digest(payload.as_bytes());
    let expected: String = digest.iter().map(|b| format!("{b:02x}")).collect();
    assert_eq!(key, expected);
    assert_eq!(key.len(), 64);
}

#[test]
fn field_text_is_escaped_in_the_payload() {
    let entity_id = EntityId(7);
    let key = compute_assertion_idempotency_key(entity_id, "a\"b", "1", &[]);
    let payload = "{\"entity_id\":\"00000000-0000-0000-0000-000000000007\",\"field\":\"a\\\"b\",\"value\":1,\"source_citations\":[]}";
    let digest = sha2::Sha256::digest(payload.as_bytes());
    let expected: String = digest.iter().map(|b| format!("{b:02x}")).collect();
    assert_eq!(key, expected);
}

#[test]
fn citations_sort_by_id_then_note_keeping_ties_in_order() {
    let a = CitationRef { citation_id: EntityId(2), note: Some("b".to_string()) };
    let b = CitationRef { citation_id: EntityId(1), note: Some("z".to_string()) };
    let c = CitationRef { citation_id: EntityId(2), note: Some("a".to_string()) };
    let d = CitationRef { citation_id: EntityId(1), note: None };
    let e = CitationRef { citation_id: EntityId(1), note: Some(String::new()) };
    let sorted = sort_citations(&[a.clone(), b.clone(), c.clone(), d.clone(), e.clone()]);
    assert_eq!(sorted, vec![d, e, b, c, a]);
}

#[test]
fn hex_string_writes_two_lowercase_digits_per_byte() {
    assert_eq!(hex_string(&[0x00, 0x0f, 0xa5, 0xff]), "000fa5ff");
    assert_eq!(hex_string(&[]), "");
}

#[test]
fn idempotency_key_digests_the_escaped_json_payload() {
    let entity_id = EntityId(0x0123_4567_89ab_cdef_0123_4567_89ab_cdef);
    let citation = CitationRef {
        citation_id: EntityId(0xfedc_ba98_7654_3210_fedc_ba98_7654_3210),
        note: Some("tab\there \u{1}".to_string()),
    };
    let key = compute_assertion_idempotency_key(entity_id, "say \"hi\"\\\n", "42", &[citation]);
    let payload = concat_payload();
    let expected: String = sha2::Sha256::digest(payload.as_bytes()).iter().map(|b| format!("{:02x}", b)).collect();
    assert_eq!(key, expected);
}

fn concat_payload() -> String {
    let mut p = String::new();
    p.push_str("{\"entity_id\":\"01234567-89ab-cdef-0123-456789abcdef\",");
    p.push_str("\"field\":\"say \\\"hi\\\"\\\\\\n\",");
    p.push_str("\"value\":42,");
    p.push_str("\"source_citations\":[{\"citation_id\":\"fedcba98-7654-3210-fedc-ba9876543210\",");
    p.push_str("\"note\":\"tab\\there \\u0001\"}]}");
    p
}
