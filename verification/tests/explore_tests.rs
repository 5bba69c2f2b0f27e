use schubert::util::parse_usize;
use schubert::discover::{build_catalog, catalog_filtered, text_contains};
use schubert::explore::{eval_command, EvalCommand, EvalData};
use schubert::discover::ApiEntry;

#[test]
fn eval_create_standard() {
    let result = eval_command(EvalCommand::Create { k: 2, n: 4 });
    assert!(result.success);
    assert!(result.message.contains("Standard RBAC"));
    match result.data.unwrap() {
        EvalData::Created { dimension, .. } => assert_eq!(dimension, 4),
        other => panic!("unexpected {other:?}"),
    }
}

#[test]
fn eval_create_enterprise() {
    let result = eval_command(EvalCommand::Create { k: 4, n: 8 });
    assert!(result.success);
    assert!(result.message.contains("Enterprise"));
    match result.data.unwrap() {
        EvalData::Created { dimension, .. } => assert_eq!(dimension, 16),
        other => panic!("unexpected {other:?}"),
    }
}

#[test]
fn eval_create_invalid() {
    let result = eval_command(EvalCommand::Create { k: 0, n: 4 });
    assert!(!result.success);
}

#[test]
fn eval_grant() {
    let result = eval_command(EvalCommand::Grant {
        principal: "alice".into(),
        capability: "read".into(),
        partition: Some(vec![1]),
        kind: Some("ReadLike".into()),
    });
    assert!(result.success);
    match result.data.unwrap() {
        EvalData::Granted { principal, capability, .. } => {
            assert_eq!(principal, "alice");
            assert_eq!(capability, "read");
        }
        other => panic!("unexpected {other:?}"),
    }
}

#[test]
fn eval_check() {
    let result = eval_command(EvalCommand::Check {
        principal: "alice".into(),
        capabilities: vec!["read".into(), "write".into()],
    });
    assert!(result.success);
    match result.data.unwrap() {
        EvalData::Checked { principal, .. } => assert_eq!(principal, "alice"),
        other => panic!("unexpected {other:?}"),
    }
}

#[test]
fn eval_stability() {
    let result = eval_command(EvalCommand::Stability { principal: "alice".into() });
    assert!(result.success);
}

#[test]
fn eval_compose() {
    let result = eval_command(EvalCommand::Compose {
        a: "alice".into(),
        cap_a: "read".into(),
        b: "bob".into(),
        cap_b: "write".into(),
    });
    assert!(result.success);
}

#[test]
fn filter_by_feature() {
    let entries = catalog_filtered(Some("crypto"), None);
    assert!(!entries.is_empty());
    for entry in &entries {
        assert!(entry.feature.contains("crypto"), "Filtered entry should contain 'crypto': {}", entry.feature);
    }
}

#[test]
fn discover_tool_callable() {
    let entries = build_catalog();
    assert!(entries.len() >= 20, "Catalog should have >= 20 entries, got {}", entries.len());
    for entry in &entries {
        assert!(!entry.name.is_empty());
        assert!(!entry.kind.is_empty());
    }
}

// ── Further cases ───────────────────────────────────────────────────────

#[test]
fn eval_messages_are_exact() {
    assert_eq!(
        eval_command(EvalCommand::Create { k: 3, n: 7 }).message,
        "Created Gr(3,7) — Custom — dimension 12"
    );
    assert_eq!(
        eval_command(EvalCommand::Create { k: 5, n: 4 }).message,
        "Invalid Grassmannian: Gr(5,4) requires 0 < k < n"
    );
    let g = eval_command(EvalCommand::Grant {
        principal: "bob".into(),
        capability: "admin".into(),
        partition: None,
        kind: None,
    });
    assert_eq!(g.message, "Granted 'admin' (partition [1], ReadLike) to bob");
    match g.data.unwrap() {
        EvalData::Granted { partition, kind, codimension, .. } => {
            assert_eq!(partition, vec![1]);
            assert_eq!(kind, "ReadLike");
            assert_eq!(codimension, 1);
        }
        other => panic!("unexpected {other:?}"),
    }
    assert_eq!(
        eval_command(EvalCommand::Check { principal: "alice".into(), capabilities: vec!["read".into(), "write".into()] })
            .message,
        "Check alice for [\"read\", \"write\"]"
    );
    assert_eq!(
        eval_command(EvalCommand::Revoke { principal: "alice".into(), capability: "read".into() }).message,
        "Revoked 'read' from alice"
    );
    assert_eq!(eval_command(EvalCommand::List).message, "Listing all registered capabilities and principals");
    assert_eq!(
        eval_command(EvalCommand::Compose { a: "a".into(), cap_a: "x".into(), b: "b".into(), cap_b: "y".into() })
            .message,
        "Composing a::x with b::y"
    );
}

#[test]
fn catalog_filters_combine() {
    let policy_entries = catalog_filtered(Some("policy"), Some("policy"));
    assert_eq!(policy_entries.len(), 2);
    assert!(catalog_filtered(Some("crypto"), Some("controller")).is_empty());
    assert_eq!(catalog_filtered(None, None).len(), build_catalog().len());
    assert_eq!(catalog_filtered(None, Some("multi")).len(), 2);
}

#[test]
fn text_contains_finds_substrings() {
    assert!(text_contains("karpal-verify", "verify"));
    assert!(text_contains("abc", ""));
    assert!(!text_contains("ab", "abc"));
    assert!(!text_contains("crypto", "cpt"));
    assert!(text_contains("σ₁σ₂", "₁σ"));
}

fn catalog_json(entries: &[ApiEntry]) -> String {
    let mut arr = Vec::new();
    for e in entries {
        let mut obj = serde_json::Map::new();
        obj.insert("name".to_string(), serde_json::Value::String(e.name.to_string()));
        obj.insert("kind".to_string(), serde_json::Value::String(e.kind.to_string()));
        obj.insert("signature".to_string(), serde_json::Value::String(e.signature.to_string()));
        obj.insert("description".to_string(), serde_json::Value::String(e.description.to_string()));
        obj.insert("feature".to_string(), serde_json::Value::String(e.feature.to_string()));
        obj.insert("module".to_string(), serde_json::Value::String(e.module.to_string()));
        arr.push(serde_json::Value::Object(obj));
    }
    serde_json::to_string_pretty(&serde_json::Value::Array(arr)).unwrap()
}

#[test]
fn catalog_is_valid_json() {
    let json = catalog_json(&build_catalog());
    let parsed: serde_json::Value = serde_json::from_str(&json).unwrap();
    let arr = parsed.as_array().unwrap();
    assert!(!arr.is_empty(), "Catalog should not be empty");
}

#[test]
fn catalog_entries_have_required_fields() {
    let json = catalog_json(&build_catalog());
    let entries: Vec<serde_json::Value> = serde_json::from_str(&json).unwrap();
    for entry in &entries {
        assert!(entry["name"].is_string(), "Entry missing name");
        assert!(entry["kind"].is_string(), "Entry missing kind");
        assert!(entry["signature"].is_string(), "Entry missing signature");
        assert!(entry["description"].is_string(), "Entry missing description");
    }
}

fn words(line: &str) -> Vec<String> {
    line.split_whitespace().map(|w| w.to_string()).collect()
}

#[test]
fn repl_answers_each_command() {
    let (lines, go_on) = schubert::explore::repl_step(&words("create 2 4"));
    assert_eq!(lines, vec!["Created controller Gr(2,4) — dimension 4".to_string()]);
    assert!(go_on);
    let (lines, _) = schubert::explore::repl_step(&words("create 4 2"));
    assert_eq!(lines, vec!["Error: invalid Grassmannian Gr(4,2): require k ≥ 1, n ≥ 2, k < n".to_string()]);
    let (lines, _) = schubert::explore::repl_step(&words("create x +6"));
    assert_eq!(lines, vec!["Created controller Gr(2,6) — dimension 8".to_string()]);
    let (lines, _) = schubert::explore::repl_step(&words("create 2"));
    assert_eq!(lines, vec!["Usage: create <k> <n>  — e.g., create 2 4".to_string()]);
    let (lines, go_on) = schubert::explore::repl_step(&words("quit"));
    assert_eq!(lines, vec!["Goodbye.".to_string()]);
    assert!(!go_on);
    let (lines, _) = schubert::explore::repl_step(&words("help"));
    assert_eq!(lines.len(), 10);
    assert_eq!(lines[9], "  schubert explore --eval '{\"action\":\"create\",\"k\":2,\"n\":4}'");
    let (lines, _) = schubert::explore::repl_step(&words("stability alice"));
    assert_eq!(lines[0], "Stability analysis for 'alice':");
    let (lines, _) = schubert::explore::repl_step(&words("compose a x b y"));
    assert_eq!(lines[0], "Composing a::x with b::y:");
    let (lines, _) = schubert::explore::repl_step(&words("frobnicate now"));
    assert_eq!(lines, vec!["Unknown command: [\"frobnicate\", \"now\"]. Type 'help' for commands.".to_string()]);
}

#[test]
fn numbers_parse_as_usize_does() {
    for s in ["0", "42", "+7", "", "+", "-1", "1a", "18446744073709551615", "18446744073709551616", "007"] {
        assert_eq!(parse_usize(s), s.parse::<usize>().ok(), "{s}");
    }
}
