use base64::Engine;
use userscript_registry::assemble::{
    build_payload, BRIDGE_TAIL_TEXT, PRELUDE_A_TEXT, WRAP_A_TEXT, WRAP_B_TEXT, WRAP_C_TEXT,
};
use userscript_registry::codec::{
    decode_deps_doc, decode_scripts_doc, encode_deps_doc, encode_scripts_doc,
};
use userscript_registry::meta::parse_metadata;
use userscript_registry::registry::Registry;
use userscript_registry::script::{Dependency, Script};

fn manual_script(id: &str, name: &str, code: &str, enabled: bool, order: i32) -> Script {
    Script {
        id: id.to_string(),
        name: name.to_string(),
        code: code.to_string(),
        enabled,
        order,
        url: None,
        version: None,
        description: None,
        author: None,
        requires: Vec::new(),
        last_updated: None,
        last_fetch_error: None,
    }
}

fn b64(s: &str) -> String {
    base64::engine::general_purpose::STANDARD.encode(s.as_bytes())
}

fn wrapped_block(code: &str, name: &str) -> String {
    let wrap = format!(
        "{}{}{}{}{}",
        WRAP_A_TEXT,
        code,
        WRAP_B_TEXT,
        b64(name),
        WRAP_C_TEXT
    );
    format!("    injectIntoPage(decodeBase64('{}'), 'userscript');\n", b64(&wrap))
}

#[test]
fn parser_no_header_yields_empty_metadata() {
    let m = parse_metadata("console.log('nothing to see');");
    assert!(m.name.is_none());
    assert!(m.version.is_none());
    assert!(m.description.is_none());
    assert!(m.author.is_none());
    assert!(m.requires.is_empty());
}

#[test]
fn parser_missing_close_marker_yields_empty_metadata() {
    let m = parse_metadata("// ==UserScript==\n// @name Lost\nconsole.log(1);");
    assert!(m.name.is_none());
    assert!(m.requires.is_empty());
}

#[test]
fn parser_reads_all_single_fields() {
    let code = "// ==UserScript==\n// @name  My Script \n// @version 1.2.3\n// @description Does things\n// @author Someone\n// ==/UserScript==\nbody";
    let m = parse_metadata(code);
    assert_eq!(m.name.as_deref(), Some("My Script"));
    assert_eq!(m.version.as_deref(), Some("1.2.3"));
    assert_eq!(m.description.as_deref(), Some("Does things"));
    assert_eq!(m.author.as_deref(), Some("Someone"));
}

#[test]
fn parser_three_requires_ordered_and_deduplicated() {
    let code = "// ==UserScript==\n// @require https://a.example/one.js\n// @require https://a.example/two.js\n// @require https://a.example/one.js\n// @require https://a.example/three.js\n// ==/UserScript==\n";
    let m = parse_metadata(code);
    assert_eq!(
        m.requires,
        vec![
            "https://a.example/one.js".to_string(),
            "https://a.example/two.js".to_string(),
            "https://a.example/three.js".to_string()
        ]
    );
}

#[test]
fn parser_rejects_non_http_requires() {
    let code = "// ==UserScript==\n// @require ftp://a.example/x.js\n// @require https://a.example/ok.js\n// ==/UserScript==\n";
    let m = parse_metadata(code);
    assert_eq!(m.requires, vec!["https://a.example/ok.js".to_string()]);
}

#[test]
fn parser_namespace_does_not_shadow_name() {
    let code = "// ==UserScript==\n// @namespace https://x.example\n// @name Real Name\n// ==/UserScript==\n";
    let m = parse_metadata(code);
    assert_eq!(m.name.as_deref(), Some("Real Name"));
}

#[test]
fn payload_orders_scripts_by_ascending_order() {
    let a = manual_script("a", "Alpha", "console.log('alpha');", true, 5);
    let b = manual_script("b", "Beta", "console.log('beta');", true, 2);
    let reg = Registry::from_stores(vec![a, b], Vec::new());
    let payload = build_payload(&reg);
    let block_a = wrapped_block("console.log('alpha');", "Alpha");
    let block_b = wrapped_block("console.log('beta');", "Beta");
    let pos_a = payload.find(&block_a).expect("block for alpha present");
    let pos_b = payload.find(&block_b).expect("block for beta present");
    assert!(pos_b < pos_a, "lower order loads first");
}

#[test]
fn payload_ties_keep_collection_order() {
    let a = manual_script("a", "First", "console.log('first');", true, 1);
    let b = manual_script("b", "Second", "console.log('second');", true, 1);
    let reg = Registry::from_stores(vec![a, b], Vec::new());
    let payload = build_payload(&reg);
    let pos_a = payload.find(&wrapped_block("console.log('first');", "First")).unwrap();
    let pos_b = payload.find(&wrapped_block("console.log('second');", "Second")).unwrap();
    assert!(pos_a < pos_b);
}

#[test]
fn payload_skips_disabled_scripts() {
    let a = manual_script("a", "On", "console.log('on');", true, 0);
    let b = manual_script("b", "Off", "console.log('off');", false, 1);
    let reg = Registry::from_stores(vec![a, b], Vec::new());
    let payload = build_payload(&reg);
    assert!(payload.contains(&wrapped_block("console.log('on');", "On")));
    assert!(!payload.contains(&wrapped_block("console.log('off');", "Off")));
}

#[test]
fn payload_carries_guard_sections_and_bridge_last() {
    let reg = Registry::new();
    let payload = build_payload(&reg);
    assert!(payload.starts_with(PRELUDE_A_TEXT));
    assert!(payload.ends_with(BRIDGE_TAIL_TEXT));
}

#[test]
fn payload_emits_cached_dependency_and_warns_on_missing() {
    let mut a = manual_script("a", "用", "code();", true, 0);
    a.requires = vec![
        "https://cdn.example/lib.js".to_string(),
        "https://cdn.example/missing.js".to_string(),
    ];
    let dep = Dependency {
        url: "https://cdn.example/lib.js".to_string(),
        code: "libcode();".to_string(),
        last_updated: 7,
    };
    let reg = Registry::from_stores(vec![a], vec![dep]);
    let payload = build_payload(&reg);
    let dep_entry = format!(
        "    injectIntoPage(decodeBase64('{}'), 'dependency');\n",
        b64("libcode();")
    );
    let warn_entry = format!(
        "    console.warn('missing dependency', decodeBase64('{}'));\n",
        b64("https://cdn.example/missing.js")
    );
    assert!(payload.contains(&dep_entry));
    assert!(payload.contains(&warn_entry));
}

#[test]
fn payload_deduplicates_dependency_union() {
    let mut a = manual_script("a", "A", "a();", true, 0);
    a.requires = vec!["https://cdn.example/shared.js".to_string()];
    let mut b = manual_script("b", "B", "b();", true, 1);
    b.requires = vec!["https://cdn.example/shared.js".to_string()];
    let dep = Dependency {
        url: "https://cdn.example/shared.js".to_string(),
        code: "shared();".to_string(),
        last_updated: 1,
    };
    let reg = Registry::from_stores(vec![a, b], vec![dep]);
    let payload = build_payload(&reg);
    let dep_entry = format!(
        "    injectIntoPage(decodeBase64('{}'), 'dependency');\n",
        b64("shared();")
    );
    assert_eq!(payload.matches(&dep_entry).count(), 1);
}

#[test]
fn store_roundtrip_preserves_scripts_and_deps() {
    let mut s1 = manual_script("id-1", "Quote\"and\\slash", "line1\nline2\t\r\u{1}", true, -3);
    s1.url = Some("https://src.example/one.user.js".to_string());
    s1.version = Some("0.9".to_string());
    s1.description = None;
    s1.author = Some("Ann".to_string());
    s1.requires = vec!["https://cdn.example/x.js".to_string()];
    s1.last_updated = Some(1234567890);
    s1.last_fetch_error = Some("HTTP 404: Not Found".to_string());
    let s2 = manual_script("id-2", "Πλν", "σcript();", false, 2147483647);
    let d = Dependency {
        url: "https://cdn.example/x.js".to_string(),
        code: "dep\u{0}code".to_string(),
        last_updated: u64::MAX,
    };
    let scripts = vec![s1, s2];
    let deps = vec![d];
    let scripts_text = encode_scripts_doc(&scripts);
    let deps_text = encode_deps_doc(&deps);
    let scripts_back = decode_scripts_doc(&scripts_text);
    let deps_back = decode_deps_doc(&deps_text);
    assert_eq!(scripts_back.len(), 2);
    let r1 = &scripts_back[0];
    assert_eq!(r1.id, "id-1");
    assert_eq!(r1.name, "Quote\"and\\slash");
    assert_eq!(r1.code, "line1\nline2\t\r\u{1}");
    assert!(r1.enabled);
    assert_eq!(r1.order, -3);
    assert_eq!(r1.url.as_deref(), Some("https://src.example/one.user.js"));
    assert_eq!(r1.version.as_deref(), Some("0.9"));
    assert_eq!(r1.description, None);
    assert_eq!(r1.author.as_deref(), Some("Ann"));
    assert_eq!(r1.requires, vec!["https://cdn.example/x.js".to_string()]);
    assert_eq!(r1.last_updated, Some(1234567890));
    assert_eq!(r1.last_fetch_error.as_deref(), Some("HTTP 404: Not Found"));
    let r2 = &scripts_back[1];
    assert_eq!(r2.id, "id-2");
    assert_eq!(r2.name, "Πλν");
    assert_eq!(r2.code, "σcript();");
    assert!(!r2.enabled);
    assert_eq!(r2.order, 2147483647);
    assert_eq!(r2.url, None);
    assert_eq!(deps_back.len(), 1);
    assert_eq!(deps_back[0].url, "https://cdn.example/x.js");
    assert_eq!(deps_back[0].code, "dep\u{0}code");
    assert_eq!(deps_back[0].last_updated, u64::MAX);
}

#[test]
fn empty_stores_roundtrip() {
    let scripts: Vec<Script> = Vec::new();
    let deps: Vec<Dependency> = Vec::new();
    assert_eq!(encode_scripts_doc(&scripts), "[]");
    assert_eq!(encode_deps_doc(&deps), "{}");
    assert!(decode_scripts_doc("[]").is_empty());
    assert!(decode_deps_doc("{}").is_empty());
}

#[test]
fn malformed_documents_load_as_empty() {
    assert!(decode_scripts_doc("").is_empty());
    assert!(decode_scripts_doc("not json at all").is_empty());
    assert!(decode_scripts_doc("[{\"id\":\"x\"").is_empty());
    assert!(decode_deps_doc("{\"u\":").is_empty());
    assert!(decode_deps_doc("[]").is_empty());
}

#[test]
fn reloading_drops_entries_breaking_uniqueness() {
    let a = manual_script("same", "One", "1;", true, 0);
    let b = manual_script("same", "Two", "2;", true, 1);
    let reg = Registry::from_stores(vec![a, b], Vec::new());
    let snapshot = reg.get_scripts();
    assert_eq!(snapshot.len(), 1);
    assert_eq!(snapshot[0].name, "One");
}
