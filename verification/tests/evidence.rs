use recentlydivorced::evidence::{
    conversation_capsule, conversation_evidence, RolloutLine, RolloutRecord, RolloutTail,
    CAPSULE_CHARS,
};
use recentlydivorced::partial::recover_partial_text;
use recentlydivorced::runtime::TAIL_BYTES;

fn record_of(raw: &str) -> Option<RolloutRecord> {
    let item: serde_json::Value = serde_json::from_str(raw).ok()?;
    let payload = &item["payload"];
    let text_of = |value: &serde_json::Value| value.as_str().map(str::to_string);
    Some(RolloutRecord {
        kind: text_of(&item["type"]),
        payload_kind: text_of(&payload["type"]),
        message: text_of(&payload["message"]),
        role: text_of(&payload["role"]),
        texts: payload["content"]
            .as_array()
            .into_iter()
            .flatten()
            .filter_map(|part| part["text"].as_str())
            .map(str::to_string)
            .collect(),
    })
}

/// The tail a bounded read of a file holding `content` gives.
fn tail_of(content: &[u8]) -> RolloutTail {
    let start = (content.len() as u64).saturating_sub(TAIL_BYTES) as usize;
    let rest = &content[start..];
    let (truncated_head, body) = if start > 0 {
        let skip = rest
            .iter()
            .position(|b| *b == b'\n')
            .map_or(rest.len(), |p| p + 1);
        (Some(rest.to_vec()), &rest[skip..])
    } else {
        (None, rest)
    };
    let text = String::from_utf8(body.to_vec()).unwrap();
    let lines = text
        .lines()
        .map(|raw| RolloutLine {
            raw: raw.to_string(),
            record: record_of(raw),
        })
        .collect();
    RolloutTail {
        truncated_head,
        lines,
    }
}

#[test]
fn capsule_is_small_and_keeps_the_human_goal_and_tail() {
    let rollout = [
        r##"{"type":"response_item","payload":{"type":"message","role":"user","content":[{"type":"input_text","text":"# AGENTS.md instructions fake"}]}}"##,
        r#"{"type":"response_item","payload":{"type":"message","role":"user","content":[{"type":"input_text","text":"build a boot visualizer"}]}}"#,
        r#"{"type":"response_item","payload":{"type":"message","role":"assistant","content":[{"type":"output_text","text":"implemented the camera"}]}}"#,
        r#"{"type":"response_item","payload":{"type":"message","role":"user","content":[{"type":"input_text","text":"fix the sole lighting"}]}}"#,
    ]
    .join("\n");
    let tail = tail_of(rollout.as_bytes());
    let capsule = conversation_capsule("build a boot visualizer", "", Some(&tail)).unwrap();
    assert!(capsule.contains("goal: build a boot visualizer"));
    assert!(capsule.contains("user: fix the sole lighting"));
    assert!(!capsule.contains("AGENTS"));
    assert!(capsule.chars().count() <= CAPSULE_CHARS);

    let compacted = r#"{"type":"compacted","payload":{"message":"camera works; sole lighting remains","replacement_history":null}}"#;
    let tail = tail_of(compacted.as_bytes());
    assert_eq!(
        conversation_capsule("ignored fallback", "", Some(&tail)).unwrap(),
        "background: camera works; sole lighting remains recent:"
    );
}

#[test]
fn partial_tail_prefers_last_input_text_before_summary() {
    let prefix = "x".repeat(70_000);
    let line = format!(
        r#"{{"type":"response_item","payload":{{"type":"message","role":"user","content":[{{"type":"input_text","text":"image junk"}},{{"type":"input_text","text":"repair recent labels"}}]}}}}}}"#
    );
    let summary =
        r#"{"type":"compacted","payload":{"message":"background: retained project context"}}"#;
    let content = format!("{}{}\n{}\n", prefix, line, summary);
    let tail = tail_of(content.as_bytes());
    let evidence = conversation_evidence("old", "", None, Some(&tail)).unwrap();
    assert!(
        evidence
            .capsule
            .starts_with("current activity: repair recent labels")
    );
    assert!(
        evidence.capsule.find("background:").unwrap()
            > evidence.capsule.find("current activity:").unwrap()
    );
    assert!(evidence.capsule.chars().count() <= CAPSULE_CHARS);
}

#[test]
fn compactveteran_capsule_survives_missing_rollout_and_tail_embedding() {
    let embedded = "--- capsule ---\n# CompactVeteran handoff\n\n## Objective\n\nship the objective\n\n## Cursor\n\ncurrent cursor\n\n## Next action\n\nperform the next action\n\n## Recent commits\n\nnone";
    let capsule = conversation_capsule(embedded, "", None).unwrap();
    assert!(capsule.contains("objective: ship the objective"));
    assert!(capsule.contains("cursor: current cursor"));
    assert!(capsule.contains("next: perform the next action"));
    let first = serde_json::to_string(&serde_json::Value::from_iter([
        ("type".to_string(), serde_json::Value::from("response_item")),
        (
            "payload".to_string(),
            serde_json::Value::from_iter([
                ("type".to_string(), serde_json::Value::from("message")),
                ("role".to_string(), serde_json::Value::from("user")),
                (
                    "content".to_string(),
                    serde_json::Value::from(vec![serde_json::Value::from_iter([(
                        "text".to_string(),
                        serde_json::Value::from(embedded),
                    )])]),
                ),
            ]),
        ),
    ]))
    .unwrap();
    let second = first.replace(
        &serde_json::to_string(embedded).unwrap(),
        "\"ship the compatibility fix\"",
    );
    let rollout = [first, second].join("\n");
    let tail = tail_of(rollout.as_bytes());
    let capsule = conversation_capsule("ordinary first ask", "", Some(&tail)).unwrap();
    assert!(capsule.contains("objective: ship the objective"));
    assert!(capsule.contains("cursor: current cursor"));
    assert!(capsule.contains("next: perform the next action"));
    assert!(capsule.contains("current activity: ship the compatibility fix"));
    assert!(!capsule.contains("Continue a prior Sol"));
    assert!(!capsule.contains("--- capsule ---"));
    assert!(capsule.chars().count() <= CAPSULE_CHARS);
}

#[test]
fn missing_rollout_without_handoff_gives_no_evidence() {
    assert!(conversation_evidence("plain first ask", "", Some("pending"), None).is_none());
}

#[test]
fn missing_rollout_keeps_pending_prompt_as_activity() {
    let embedded = "# CompactVeteran handoff\n--- capsule ---\n## Objective\n\na\n\n## Cursor\n\nb\n\n## Next action\n\nc\n\n## Recent commits";
    let evidence = conversation_evidence(embedded, "", Some("  keep   spaces "), None).unwrap();
    assert_eq!(evidence.capsule, "objective: a\ncursor: b\nnext: c");
    assert_eq!(evidence.activity, "  keep   spaces ");
}

#[test]
fn young_capsule_lists_goal_preview_and_last_six_turns() {
    let message = |role: &str, text: &str| {
        format!(
            r#"{{"type":"response_item","payload":{{"type":"message","role":"{role}","content":[{{"type":"input_text","text":"{text}"}}]}}}}"#
        )
    };
    let rollout = [
        message("user", "zero"),
        message("user", "one"),
        message("assistant", "two"),
        message("user", "three"),
        message("system", "ignored role"),
        message("assistant", "four"),
        message("user", "five"),
        message("assistant", "six"),
    ]
    .join("\n");
    let tail = tail_of(rollout.as_bytes());
    let evidence = conversation_evidence("first   ask", "old title", None, Some(&tail)).unwrap();
    assert_eq!(
        evidence.capsule,
        "current activity: five goal: first ask previous index: old title user: one assistant: two user: three assistant: four user: five assistant: six"
    );
    assert_eq!(evidence.activity, "five");
}

#[test]
fn pending_prompt_overrides_latest_turn() {
    let rollout = r#"{"type":"response_item","payload":{"type":"message","role":"user","content":[{"text":"older request"}]}}"#;
    let tail = tail_of(rollout.as_bytes());
    let evidence = conversation_evidence("goal", "", Some("new   request"), Some(&tail)).unwrap();
    assert_eq!(evidence.activity, "new request");
    assert!(evidence.capsule.starts_with("current activity: new request goal: goal"));
}

#[test]
fn empty_rollout_and_metadata_give_no_evidence() {
    let tail = tail_of(b"");
    assert!(conversation_evidence("", "", None, Some(&tail)).is_none());
}

#[test]
fn later_compaction_without_message_clears_the_summary() {
    let rollout = [
        r#"{"type":"compacted","payload":{"message":"first summary"}}"#,
        r#"{"type":"compacted","payload":{"replacement_history":null}}"#,
    ]
    .join("\n");
    let tail = tail_of(rollout.as_bytes());
    let capsule = conversation_capsule("the goal", "", Some(&tail)).unwrap();
    assert_eq!(capsule, "goal: the goal");
}

#[test]
fn partial_text_decodes_escapes_of_the_last_input_text() {
    let line = br#"...,"content":[{"type":"input_text","text":"first"},{"type":"input_text","text":"tab\there \"quoted\" \\ done"}]"#;
    assert_eq!(recover_partial_text(line), "tab\there \"quoted\" \\ done");
    assert_eq!(recover_partial_text(b"no marker here"), "");
    assert_eq!(
        recover_partial_text(br#"{"type":"input_text","text":"cut off"#),
        "cut off"
    );
}

#[test]
fn partial_text_replaces_invalid_bytes() {
    let mut line = br#"{"type":"input_text","text":"bad "#.to_vec();
    line.push(0xff);
    line.extend_from_slice(br#" byte""#);
    assert_eq!(recover_partial_text(&line), "bad \u{fffd} byte");
}

#[test]
fn long_conversations_are_cut_to_the_capsule_size() {
    let summary = format!(
        r#"{{"type":"compacted","payload":{{"message":"{}"}}}}"#,
        "word ".repeat(500)
    );
    let tail = tail_of(summary.as_bytes());
    let evidence = conversation_evidence("goal", "", Some("pending work"), Some(&tail)).unwrap();
    assert_eq!(
        evidence.capsule,
        format!("current activity: pending work background: {} recent:", "word ".repeat(72).trim_end())
    );
    let turn = |role: &str, n: usize| {
        format!(
            r#"{{"type":"response_item","payload":{{"type":"message","role":"{role}","content":[{{"text":"{}"}}]}}}}"#,
            format!("{n}").repeat(400)
        )
    };
    let rollout = (0..8)
        .map(|n| turn(if n % 2 == 0 { "user" } else { "assistant" }, n))
        .collect::<Vec<_>>()
        .join("\n");
    let tail = tail_of(rollout.as_bytes());
    let evidence = conversation_evidence(&"g".repeat(400), &"p".repeat(400), None, Some(&tail)).unwrap();
    assert_eq!(evidence.capsule.chars().count(), CAPSULE_CHARS);
    assert!(evidence.capsule.starts_with(&format!("current activity: {} goal: ", "6".repeat(180))));
    assert_eq!(evidence.activity, "6".repeat(180));
}

#[test]
fn a_young_capsule_keeps_every_word_of_its_last_six_turns_in_order() {
    let turn = |role: &str, text: &str| {
        format!(
            r#"{{"type":"response_item","payload":{{"type":"message","role":"{role}","content":[{{"type":"input_text","text":"{text}"}}]}}}}"#
        )
    };
    let rollout = (1..=8)
        .map(|i| turn(if i % 2 == 1 { "user" } else { "assistant" }, &format!("step   {i}")))
        .collect::<Vec<_>>()
        .join("\n");
    let tail = tail_of(rollout.as_bytes());
    let capsule = conversation_capsule("start the work", "", Some(&tail)).unwrap();
    assert_eq!(
        capsule,
        "current activity: step 7 goal: start the work user: step 3 assistant: step 4 \
         user: step 5 assistant: step 6 user: step 7 assistant: step 8"
    );
}
