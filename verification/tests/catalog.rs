use reeves::detail::FnDetail;
use reeves::query::{plan_query, run_query, QueryColumn, SlotKind};
use reeves::store::Store;
use reeves::tokenize::{build_docs, tokenize_type};

fn detail(krate: &str, name: &str, params: &[&str], ret: &str) -> FnDetail {
    let joined = params.to_vec().join(", ");
    FnDetail {
        krate: krate.to_string(),
        params: params.iter().map(|p| p.to_string()).collect(),
        ret: ret.to_string(),
        s: format!("fn {}::{}({}) -> {}", krate, name, joined, ret),
    }
}

fn demo_store() -> Store {
    let mut store = Store::new();
    let details = vec![
        detail("demo", "f1", &["u8"], "bool"),
        detail("demo", "f2", &[], "bool"),
        detail("demo", "f3", &["u8", "u16"], "String"),
    ];
    store.add_crate(&"demo".to_string(), &details);
    store
}

fn ret_column(candidates: &[&str]) -> QueryColumn {
    QueryColumn {
        kind: SlotKind::Ret,
        candidates: candidates.iter().map(|c| c.to_string()).collect(),
    }
}

fn param_column(candidates: &[&str]) -> QueryColumn {
    QueryColumn {
        kind: SlotKind::Param,
        candidates: candidates.iter().map(|c| c.to_string()).collect(),
    }
}

fn displays(results: &[FnDetail]) -> Vec<String> {
    results.iter().map(|d| d.s.clone()).collect()
}

#[test]
fn ret_query_finds_both_bool_functions() {
    let store = demo_store();
    let results = run_query(&store, &vec![ret_column(&["bool"])]);
    assert_eq!(
        displays(&results),
        vec![
            "fn demo::f1(u8) -> bool".to_string(),
            "fn demo::f2() -> bool".to_string(),
        ]
    );
}

#[test]
fn param_query_finds_both_u8_functions() {
    let store = demo_store();
    let results = run_query(&store, &vec![param_column(&["u8"])]);
    assert_eq!(
        displays(&results),
        vec![
            "fn demo::f1(u8) -> bool".to_string(),
            "fn demo::f3(u8, u16) -> String".to_string(),
        ]
    );
}

#[test]
fn empty_param_list_matches_only_no_arg_function() {
    let store = demo_store();
    let slots = plan_query(Some(vec![]), None);
    assert_eq!(slots.len(), 1);
    assert_eq!(slots[0].term, "<NOARGS>");
    let columns = vec![param_column(&[slots[0].term.as_str()])];
    let results = run_query(&store, &columns);
    assert_eq!(displays(&results), vec!["fn demo::f2() -> bool".to_string()]);
}

#[test]
fn purged_crate_no_longer_matches() {
    let mut store = demo_store();
    store.purge_crate(&"demo".to_string());
    assert!(run_query(&store, &vec![ret_column(&["bool"])]).is_empty());
    assert!(run_query(&store, &vec![param_column(&["u8"])]).is_empty());
    assert!(run_query(&store, &vec![param_column(&["<NOARGS>"])]).is_empty());
}

#[test]
fn query_without_terms_is_empty() {
    let store = demo_store();
    assert_eq!(plan_query(None, None).len(), 0);
    let columns: Vec<QueryColumn> = vec![];
    assert!(run_query(&store, &columns).is_empty());
}

#[test]
fn combined_ret_and_param_query_intersects() {
    let store = demo_store();
    let columns = vec![ret_column(&["bool"]), param_column(&["u8"])];
    let results = run_query(&store, &columns);
    assert_eq!(displays(&results), vec!["fn demo::f1(u8) -> bool".to_string()]);
}

#[test]
fn deeper_candidates_come_after_shallower_ones() {
    let store = demo_store();
    // "u16" matches only f3 at depth one; "u8" adds f1 at depth two. The
    // depth bands keep f3 first even though f1 sorts before it by name.
    let results = run_query(&store, &vec![param_column(&["u16", "u8"])]);
    assert_eq!(
        displays(&results),
        vec![
            "fn demo::f3(u8, u16) -> String".to_string(),
            "fn demo::f1(u8) -> bool".to_string(),
        ]
    );
}

#[test]
fn apply_then_purge_restores_all_collections() {
    let mut store = demo_store();
    let bool_ids = store.lookup_ret(&"bool".to_string()).cloned();
    let u8_ids = store.lookup_param(&"u8".to_string()).cloned();
    let next_before = store.next_fn_id();

    let extra = vec![
        detail("extra", "g1", &["u8"], "bool"),
        detail("extra", "g2", &[], "u32"),
    ];
    store.add_crate(&"extra".to_string(), &extra);
    assert!(store.contains_crate(&"extra".to_string()));
    store.purge_crate(&"extra".to_string());

    assert!(!store.contains_crate(&"extra".to_string()));
    assert_eq!(store.lookup_ret(&"bool".to_string()).cloned(), bool_ids);
    assert_eq!(store.lookup_param(&"u8".to_string()).cloned(), u8_ids);
    assert!(store.lookup_ret(&"u32".to_string()).is_none());
    assert!(store.lookup_param(&"u16".to_string()).is_some());
    // the counter alone has advanced
    assert_eq!(store.next_fn_id(), next_before + 2);
}

#[test]
fn ids_keep_increasing_across_purges() {
    let mut store = Store::new();
    let details = vec![
        detail("one", "a", &["u8"], "bool"),
        detail("one", "b", &[], "bool"),
    ];
    store.add_crate(&"one".to_string(), &details);
    assert_eq!(store.crate_ids(&"one".to_string()).unwrap(), &vec![0u64, 1]);
    store.purge_crate(&"one".to_string());
    store.add_crate(&"one".to_string(), &details);
    assert_eq!(store.crate_ids(&"one".to_string()).unwrap(), &vec![2u64, 3]);
    assert_eq!(store.next_fn_id(), 4);
}

#[test]
fn reingest_via_ingest_crate_replaces_records() {
    let mut store = demo_store();
    let replacement = vec![detail("demo", "f9", &["i64"], "bool")];
    store.ingest_crate(&"demo".to_string(), &replacement);
    let results = run_query(&store, &vec![ret_column(&["bool"])]);
    assert_eq!(displays(&results), vec!["fn demo::f9(i64) -> bool".to_string()]);
    assert!(run_query(&store, &vec![param_column(&["u8"])]).is_empty());
}

#[test]
fn results_are_capped_at_five_hundred() {
    let mut store = Store::new();
    let mut details = Vec::new();
    for i in 0..600 {
        details.push(detail("big", &format!("f{:04}", i), &["u8"], "bool"));
    }
    store.add_crate(&"big".to_string(), &details);
    let results = run_query(&store, &vec![ret_column(&["bool"])]);
    assert_eq!(results.len(), 500);
}

#[test]
fn duplicate_param_types_index_once_and_purge_cleanly() {
    let mut store = Store::new();
    let details = vec![detail("dup", "twice", &["u8", "u8"], "bool")];
    store.add_crate(&"dup".to_string(), &details);
    assert_eq!(store.lookup_param(&"u8".to_string()).unwrap(), &vec![0u64]);
    store.purge_crate(&"dup".to_string());
    assert!(store.lookup_param(&"u8".to_string()).is_none());
    assert!(store.lookup_ret(&"bool".to_string()).is_none());
}

#[test]
fn zero_arg_function_is_indexed_under_sentinel() {
    let store = demo_store();
    let ids = store.lookup_param(&"<NOARGS>".to_string()).unwrap();
    assert_eq!(ids, &vec![1u64]);
    let f2 = store.get(1).unwrap();
    assert_eq!(f2.s, "fn demo::f2() -> bool");
}

#[test]
fn planned_slots_follow_request_order() {
    let slots = plan_query(
        Some(vec!["u8".to_string(), "u16".to_string()]),
        Some("bool".to_string()),
    );
    assert_eq!(slots.len(), 3);
    assert!(matches!(slots[0].kind, SlotKind::Ret));
    assert_eq!(slots[0].term, "bool");
    assert!(matches!(slots[1].kind, SlotKind::Param));
    assert_eq!(slots[1].term, "u8");
    assert_eq!(slots[2].term, "u16");
}

#[test]
fn tokenizer_sets_off_punctuation() {
    assert_eq!(tokenize_type("Vec<u8>"), "Vec < u8 > ");
    assert_eq!(tokenize_type("&[u8]"), " & [ u8 ] ");
    assert_eq!(tokenize_type("Result<Vec<String>, Error>"), "Result < Vec < String > , Error > ");
    assert_eq!(tokenize_type("plain"), "plain");
}

#[test]
fn fuzzy_documents_pair_tokenized_and_original() {
    let keys = vec!["Vec<u8>".to_string(), "bool".to_string()];
    let docs = build_docs(&keys);
    assert_eq!(docs.len(), 2);
    assert_eq!(docs[0].id, 0);
    assert_eq!(docs[0].ty, "Vec < u8 > ");
    assert_eq!(docs[0].orig, "Vec<u8>");
    assert_eq!(docs[1].id, 1);
    assert_eq!(docs[1].ty, "bool");
    assert_eq!(docs[1].orig, "bool");
}

#[test]
fn add_crate_returns_advanced_counter() {
    let mut store = Store::new();
    let next = store.add_crate(&"demo".to_string(), &vec![detail("demo", "f1", &["u8"], "bool")]);
    assert_eq!(next, 1);
    assert_eq!(store.next_fn_id(), 1);
}

#[test]
fn empty_candidate_column_empties_the_result() {
    let store = demo_store();
    // one slot found no fuzzy candidates at all: nothing can satisfy it
    let columns = vec![ret_column(&["bool"]), param_column(&[])];
    assert!(run_query(&store, &columns).is_empty());
}

#[test]
fn short_column_stays_pinned_while_others_widen() {
    let store = demo_store();
    // the one-candidate return column stays at "bool" while the parameter
    // column widens from "u16" to "u8": f3 never matches ret bool, so only
    // f1 qualifies, at depth two
    let columns = vec![ret_column(&["bool"]), param_column(&["u16", "u8"])];
    let results = run_query(&store, &columns);
    assert_eq!(displays(&results), vec!["fn demo::f1(u8) -> bool".to_string()]);
}

#[test]
fn unknown_crate_purge_is_a_no_op() {
    let mut store = demo_store();
    store.purge_crate(&"never_seen".to_string());
    let results = run_query(&store, &vec![ret_column(&["bool"])]);
    assert_eq!(results.len(), 2);
}
