use recentlydivorced::refresh::{refresh_decision, RefreshDecision};
use recentlydivorced::text::{normalize_label, provisional_label};

#[test]
fn labels_are_one_short_line() {
    assert_eq!(
        normalize_label(
            "  building   the resume index with compact conversation labels that stay useful after updates forever  "
        ),
        "building the resume index with compact conversation labels that stay useful after"
    );
}

#[test]
fn activity_label_is_concise_and_dedupes_plural_stems() {
    let label = provisional_label(
        "Please update updates RecentlyDivorced description for recent activity on PartOfThis usage [Image #1]",
    );
    assert!(label.contains("RecentlyDivorced"));
    assert!(!label.to_lowercase().contains("conversation"));
    assert!(!label.to_lowercase().contains(" update updates"));
}

#[test]
fn exact_current_request_label_and_trivial_prompt() {
    let prompt = "<image name=[Image #1]>ignored</image> also can you update the RecentlyDivorced so that it updates the description based on the most recent activity, so for example this conversation is still labeled partofthis it's gotta be able to do this without draining usage";
    assert_eq!(
        provisional_label(prompt),
        "Update RecentlyDivorced description based recent activity labeled partofthis without draining usage"
    );
    assert_eq!(provisional_label("continue"), "");
}

#[test]
fn refresh_decisions_cover_reuse_seed_and_relabel() {
    assert_eq!(
        refresh_decision("activity", true, false, ""),
        RefreshDecision::Reuse
    );
    assert_eq!(
        refresh_decision("", true, false, "new"),
        RefreshDecision::Seed
    );
    assert_eq!(
        refresh_decision("old", false, true, "new"),
        RefreshDecision::Relabel
    );
    assert_eq!(
        refresh_decision("same", false, true, "same"),
        RefreshDecision::Reuse
    );
    assert_eq!(
        refresh_decision("same", false, false, "same"),
        RefreshDecision::Reuse
    );
}
