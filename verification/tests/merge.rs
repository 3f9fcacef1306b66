use bp_review::diagnostics::Diagnostic;
use bp_review::ledger::{reconcile, SuppressionLedger};

fn diag(path: &str, moniker: &str, justification: &str) -> Diagnostic {
    Diagnostic {
        diagnostic_type: "BPError".to_owned(),
        severity: "Error".to_owned(),
        path: path.to_owned(),
        moniker: moniker.to_owned(),
        message: String::new(),
        justification: justification.to_owned(),
    }
}

fn ledger_of(entries: Vec<Diagnostic>) -> SuppressionLedger {
    SuppressionLedger { name: "TestModel".to_owned(), entries }
}

#[test]
fn new_suppression_appends_at_tail() {
    let mut ledger = ledger_of(vec![diag("A", "X", "kept"), diag("B", "Y", "also kept")]);
    let data = vec![diag("A", "X", ""), diag("C", "Z", "ok")];
    reconcile(&data, &mut ledger);
    assert_eq!(ledger.entries.len(), 3);
    assert_eq!(ledger.entries[0], diag("A", "X", "kept"));
    assert_eq!(ledger.entries[1], diag("B", "Y", "also kept"));
    assert_eq!(ledger.entries[2], diag("C", "Z", "ok"));
    assert_eq!(ledger.name, "TestModel");
}

#[test]
fn update_existing_in_place() {
    let mut ledger = ledger_of(vec![diag("A", "X", "old")]);
    let data = vec![diag("A", "X", "new")];
    reconcile(&data, &mut ledger);
    assert_eq!(ledger.entries.len(), 1);
    assert_eq!(ledger.entries[0], diag("A", "X", "new"));
}

#[test]
fn update_keeps_other_fields_and_position() {
    let mut stored = diag("A", "X", "old");
    stored.severity = "Warning".to_owned();
    stored.diagnostic_type = "StoredKind".to_owned();
    let mut ledger = ledger_of(vec![diag("Q", "R", "first"), stored, diag("B", "Y", "last")]);
    let mut incoming = diag("A", "X", "new");
    incoming.severity = "Error".to_owned();
    incoming.diagnostic_type = "FreshKind".to_owned();
    reconcile(&vec![incoming], &mut ledger);
    assert_eq!(ledger.entries.len(), 3);
    assert_eq!(ledger.entries[1].justification, "new");
    assert_eq!(ledger.entries[1].severity, "Warning");
    assert_eq!(ledger.entries[1].diagnostic_type, "StoredKind");
    assert_eq!(ledger.entries[0], diag("Q", "R", "first"));
    assert_eq!(ledger.entries[2], diag("B", "Y", "last"));
}

#[test]
fn empty_justification_creates_nothing() {
    let mut ledger = ledger_of(vec![]);
    reconcile(&vec![diag("A", "X", "")], &mut ledger);
    assert_eq!(ledger.entries.len(), 0);
}

#[test]
fn empty_justification_mutates_nothing() {
    let mut ledger = ledger_of(vec![diag("A", "X", "kept")]);
    reconcile(&vec![diag("A", "X", "")], &mut ledger);
    assert_eq!(ledger.entries.len(), 1);
    assert_eq!(ledger.entries[0], diag("A", "X", "kept"));
}

#[test]
fn reconcile_twice_is_reconcile_once() {
    let data = vec![
        diag("A", "X", "first"),
        diag("B", "Y", ""),
        diag("C", "Z", "third"),
        diag("A", "X", "overridden"),
    ];
    let mut once = ledger_of(vec![diag("A", "X", "old"), diag("D", "W", "stale")]);
    reconcile(&data, &mut once);
    let mut twice = ledger_of(vec![diag("A", "X", "old"), diag("D", "W", "stale")]);
    reconcile(&data, &mut twice);
    reconcile(&data, &mut twice);
    assert_eq!(once.entries, twice.entries);
    assert_eq!(once.name, twice.name);
}

#[test]
fn stale_entries_survive_untouched() {
    let mut informational_stale = diag("Old", "Gone", "still here");
    informational_stale.severity = "Informational".to_owned();
    let mut ledger = ledger_of(vec![informational_stale.clone()]);
    reconcile(&vec![diag("New", "Rule", "why")], &mut ledger);
    assert_eq!(ledger.entries.len(), 2);
    assert_eq!(ledger.entries[0], informational_stale);
    assert_eq!(ledger.entries[1], diag("New", "Rule", "why"));
}

#[test]
fn upsert_matches_on_both_path_and_moniker() {
    let mut ledger = ledger_of(vec![diag("A", "X", "one")]);
    reconcile(&vec![diag("A", "Y", "two"), diag("B", "X", "three")], &mut ledger);
    assert_eq!(ledger.entries.len(), 3);
    assert_eq!(ledger.entries[0], diag("A", "X", "one"));
    assert_eq!(ledger.entries[1], diag("A", "Y", "two"));
    assert_eq!(ledger.entries[2], diag("B", "X", "three"));
}

#[test]
fn append_order_follows_diagnostic_order() {
    let mut ledger = ledger_of(vec![]);
    let data = vec![diag("C", "Z", "c"), diag("A", "X", "a"), diag("B", "Y", "b")];
    reconcile(&data, &mut ledger);
    assert_eq!(ledger.entries.len(), 3);
    assert_eq!(ledger.entries[0].path, "C");
    assert_eq!(ledger.entries[1].path, "A");
    assert_eq!(ledger.entries[2].path, "B");
}
