use rustygene::search::{
    build_merge_plan, build_person_match_query, match_query_supported, merge_key, normalize_merge_name,
    preserved_or_generated_xref, resolve_person_query, search_terms, simple_metaphone, soundex, MergeRecord,
};
use rustygene::types::EntityId;

#[test]
fn resolve_person_query_enables_fuzzy_for_positional_search() {
    let (name, fuzzy) = resolve_person_query(Some("Jones"), None, false);
    assert_eq!(name, Some("Jones"));
    assert!(fuzzy);

    let (name, fuzzy) = resolve_person_query(None, Some("Jones"), false);
    assert_eq!(name, Some("Jones"));
    assert!(!fuzzy);
}

#[test]
fn fuzzy_match_builder_includes_phonetic_tokens() {
    assert!(match_query_supported("Smyth"));
    let q = build_person_match_query("Smyth", true);
    assert!(q.contains("smyth*"));
    assert!(q.contains("sxs530"));
    assert!(q.contains("mpsn"));
}

#[test]
fn preserved_or_generated_xref_prefers_original_id() {
    assert_eq!(preserved_or_generated_xref(Some("@I23@"), 'I', 0), "@I23@");
}

#[test]
fn preserved_or_generated_xref_falls_back_to_sequential_id() {
    assert_eq!(preserved_or_generated_xref(None, 'F', 2), "@F3@");
}

#[test]
fn match_query_joins_term_groups() {
    assert_eq!(build_person_match_query("Smyth", true), "(smyth* OR sm* OR sxs530 OR mpsnt)");
    assert_eq!(build_person_match_query("Jo Smith", false), "(jo*) AND (smith* OR sm*)");
    assert_eq!(build_person_match_query("  --  ", true), "*");
}

#[test]
fn search_terms_split_on_non_alphanumerics_and_lowercase() {
    assert_eq!(search_terms("O'Brien, Mary-Ann 1850"), vec!["o", "brien", "mary", "ann", "1850"]);
    assert!(search_terms("").is_empty());
}

#[test]
fn soundex_codes_have_four_characters() {
    assert_eq!(soundex("Robert").as_deref(), Some("R163"));
    assert_eq!(soundex("Rupert").as_deref(), Some("R163"));
    assert_eq!(soundex("Ashcraft").as_deref(), Some("A226"));
    assert_eq!(soundex("Lee").as_deref(), Some("L000"));
    assert_eq!(soundex("123"), None);
    assert_eq!(soundex("o'neil").as_deref(), Some("O540"));
}

#[test]
fn metaphone_never_repeats_a_code() {
    assert_eq!(simple_metaphone("Smith").as_deref(), Some("SNT"));
    assert_eq!(simple_metaphone("Phillip").as_deref(), Some("FLP"));
    assert_eq!(simple_metaphone("Church").as_deref(), Some("XRX"));
    assert_eq!(simple_metaphone("Anna").as_deref(), Some("AN"));
    assert_eq!(simple_metaphone("Hy"), None);
}

#[test]
fn merge_names_and_keys() {
    assert_eq!(normalize_merge_name(Some("  John  Q Public ".to_string())), "johnqpublic");
    assert_eq!(normalize_merge_name(None), "");
    assert_eq!(merge_key("johndoe", "1900", ""), "johndoe|1900|");
}

#[test]
fn merge_plan_puts_each_incoming_person_in_one_list() {
    let existing = vec![
        MergeRecord { id: EntityId(1), key: "john|1900|".to_string() },
        MergeRecord { id: EntityId(2), key: "jane|1901|".to_string() },
        MergeRecord { id: EntityId(3), key: "jane|1901|".to_string() },
        MergeRecord { id: EntityId(4), key: "||".to_string() },
    ];
    let incoming = vec![
        MergeRecord { id: EntityId(10), key: "john|1900|".to_string() },
        MergeRecord { id: EntityId(11), key: "jane|1901|".to_string() },
        MergeRecord { id: EntityId(12), key: "||".to_string() },
        MergeRecord { id: EntityId(13), key: "bob||".to_string() },
    ];
    let plan = build_merge_plan(&existing, &incoming);
    assert_eq!(plan.matches.len(), 1);
    assert_eq!(plan.matches[0].incoming_person_id, EntityId(10));
    assert_eq!(plan.matches[0].matched_person_id, EntityId(1));
    assert_eq!(plan.ambiguous.len(), 1);
    assert_eq!(plan.ambiguous[0].candidate_person_ids, vec![EntityId(2), EntityId(3)]);
    assert_eq!(plan.new_person_ids, vec![EntityId(12), EntityId(13)]);
    assert_eq!(plan.matches.len() + plan.ambiguous.len() + plan.new_person_ids.len(), incoming.len());
}
