use recentlydivorced::text::{
    compact_text, embedded_capsule, normalize_label, provisional_label, strip_images,
    synthetic_prompt,
};

#[test]
fn compact_text_squashes_whitespace_and_cuts() {
    assert_eq!(compact_text("  a \t b\n\nc  ", 100), "a b c");
    assert_eq!(compact_text("alpha beta gamma", 8), "alpha be");
    assert_eq!(compact_text("alpha beta", 6), "alpha ");
    assert_eq!(compact_text("\u{3000}wide\u{2003}space\u{85}", 20), "wide space");
    assert_eq!(compact_text("", 5), "");
    assert_eq!(compact_text("résumé ünïcödé", 8), "résumé ü");
}

#[test]
fn normalize_label_trims_quotes_around_the_line() {
    assert_eq!(normalize_label("\"`Fix the 'parser'`\""), "Fix the 'parser");
    assert_eq!(normalize_label("'''"), "");
    assert_eq!(normalize_label("one\ntwo\tthree"), "one two three");
}

#[test]
fn synthetic_prompts_are_recognised() {
    assert!(synthetic_prompt("# AGENTS.md instructions for /repo"));
    assert!(synthetic_prompt("<environment_context>cwd</environment_context>"));
    assert!(synthetic_prompt("hello <skills_instructions> x"));
    assert!(synthetic_prompt("a <permissions instructions> b"));
    assert!(synthetic_prompt("a <collaboration_mode> b"));
    assert!(synthetic_prompt("x --- capsule --- y"));
    assert!(synthetic_prompt(
        "Read /home/u/project-maps/app.md. Use its Objective, Cursor, and Next action."
    ));
    assert!(!synthetic_prompt(
        "Please read /home/u/project-maps/app.md. Use its Objective, Cursor, and Next action."
    ));
    assert!(!synthetic_prompt("fix the login page"));
}

#[test]
fn strip_images_removes_markup_and_references() {
    assert_eq!(
        strip_images("  before <image src=x>data</image> middle [Image #2] after  "),
        "before  middle  after"
    );
    assert_eq!(strip_images("<image unclosed> text"), "<image unclosed> text");
    assert_eq!(strip_images("a [Image #3 b"), "a a [Image #3 b");
}

#[test]
fn embedded_capsule_needs_every_section() {
    let full = "intro\n# CompactVeteran handoff\n--- capsule ---\n## Objective\n\n  ship   it \n\n## Cursor\n\nhalfway\n\n## Next action\n\ntest\n\n## Recent commits\n";
    assert_eq!(
        embedded_capsule(full).as_deref(),
        Some("objective: ship it\ncursor: halfway\nnext: test")
    );
    let missing_next = "# CompactVeteran handoff\n--- capsule ---\n## Objective\n\na\n\n## Cursor\n\nb\n\n## Recent commits";
    assert_eq!(embedded_capsule(missing_next), None);
    assert_eq!(embedded_capsule("--- capsule ---\n## Objective\n\na\n\n## Cursor"), None);
}

#[test]
fn provisional_label_drops_punctuation_and_case_folds() {
    assert_eq!(provisional_label("fix, the parser!! (urgently)"), "Fix parser urgently");
    assert_eq!(provisional_label("  OK  "), "");
    assert_eq!(provisional_label("Thank You"), "");
    assert_eq!(provisional_label("# AGENTS.md instructions"), "");
    assert_eq!(provisional_label("[Image #1]"), "");
    assert_eq!(provisional_label("émigré build"), "émigré build");
    assert_eq!(
        provisional_label("one two three four five six seven eight nine ten eleven twelve thirteen"),
        "One two three four five six seven eight nine ten eleven twelve"
    );
    assert_eq!(provisional_label("tests test TESTS other"), "Tests other");
}

#[test]
fn provisional_labels_keep_the_prompt_word_order() {
    assert_eq!(provisional_label("zebra mango kiwi"), "Zebra mango kiwi");
    assert_eq!(provisional_label("kiwi zebra mango"), "Kiwi zebra mango");
}

#[test]
fn normalized_labels_have_single_spaces_and_no_outer_quotes() {
    let label = normalize_label("`'Fix  the \n  bug'`");
    assert_eq!(label, "Fix the bug");
    assert!(!label.contains("  "));
    let quotes: &[char] = &['"', '\'', '`'];
    assert!(!label.starts_with(quotes) && !label.ends_with(quotes));
}

#[test]
fn embedded_capsules_are_three_short_lines() {
    let long = "word ".repeat(200);
    let text = format!(
        "# CompactVeteran handoff\n--- capsule ---\n## Objective\n\n{long}\n\n## Cursor\n\n{long}\n\n## Next action\n\n{long}\n\n## Recent commits\n"
    );
    let capsule = embedded_capsule(&text).unwrap();
    assert_eq!(capsule.matches('\n').count(), 2);
    assert_eq!(capsule.chars().count(), 407);
}
