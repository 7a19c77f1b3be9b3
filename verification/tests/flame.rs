//! Folding runs of single calls into the frame above them.

use panicgraph::api::{fold_chains, FlameRow};
use panicgraph::EdgeKind;

/// A frame standing for a call resolved the given way.
fn hop(id: usize, parent: Option<usize>, kind: &'static str) -> FlameRow {
    FlameRow {
        id,
        parent,
        name: format!("f{id}"),
        category: None,
        kind,
        cleanup: false,
        elided: Vec::new(),
        value: 1,
        verdict: None,
    }
}

/// A chain of three calls ending in a panic, joined by one edge kind.
fn chain(kind: &'static str) -> Vec<FlameRow> {
    let mut rows = vec![hop(0, None, "root"), hop(1, Some(0), kind)];
    rows.push(hop(2, Some(1), kind));
    rows.push(FlameRow {
        category: Some("index"),
        ..hop(3, Some(2), "site")
    });
    rows
}

#[test]
fn every_edge_kind_folds_the_chain_it_joins() {
    for kind in EdgeKind::ALL {
        let folded = fold_chains(&chain(kind.name()));
        assert!(
            folded.len() < chain(kind.name()).len(),
            "a run of {} calls should fold, got {folded:#?}",
            kind.name()
        );
    }
}

#[test]
fn a_folded_run_keeps_the_names_it_swallowed() {
    let folded = fold_chains(&chain(EdgeKind::Generic.name()));
    assert!(
        folded.iter().any(|row| !row.elided.is_empty()),
        "a folded frame must name what it swallowed, got {folded:#?}"
    );
}

#[test]
fn folding_again_changes_nothing() {
    let kind = EdgeKind::Static.name();
    let ending = |id: usize, parent: usize| FlameRow { category: Some("index"), ..hop(id, Some(parent), "site") };
    let rows = vec![
        hop(0, None, "root"),
        hop(1, Some(0), kind),
        hop(2, Some(1), kind),
        hop(3, Some(2), kind),
        ending(4, 3),
        hop(5, Some(2), kind),
        hop(6, Some(5), kind),
        ending(7, 6),
    ];
    let once = fold_chains(&rows);
    assert_eq!(once.len(), 5, "two runs are folded, got {once:#?}");
    assert_eq!(once[0].elided, vec!["f1".to_owned(), "f2".to_owned()]);
    let twice = fold_chains(&once);
    assert_eq!(twice.len(), once.len());
    assert!(twice.iter().all(|row| row.elided.is_empty()), "there was no run left");
}
