//! The entry points a panic goes through.

use panicgraph::mir::{contract_of, Contract};
use panicgraph::sinks::{classify, def_path, Signature, SinkTable};
use panicgraph::{Category, Termination};

const PLAIN: Signature =
    Signature { callable: true, readable: true, diverges: false, never_unwinds: false };

fn raised(krate: &str, path: &str) -> Vec<(Category, Termination)> {
    classify(krate, path, PLAIN)
        .map(|sink| sink.raises().iter().map(|r| (r.category, r.termination)).collect())
        .unwrap_or_default()
}

#[test]
fn entry_points_are_told_by_crate_and_path() {
    assert_eq!(
        raised("core", "panicking::panic_fmt"),
        vec![(Category::Explicit, Termination::Unwind)]
    );
    assert_eq!(
        raised("core", "panicking::panic_nounwind"),
        vec![(Category::Explicit, Termination::Abort)]
    );
    assert_eq!(
        raised("core", "panicking::panic_bounds_check"),
        vec![(Category::Index, Termination::Unwind)]
    );
    assert_eq!(
        raised("std", "alloc::handle_alloc_error"),
        vec![(Category::AllocFailure, Termination::Abort)]
    );
    assert_eq!(
        raised("alloc", "raw_vec::handle_error"),
        vec![
            (Category::CapacityOverflow, Termination::Unwind),
            (Category::AllocFailure, Termination::Abort)
        ]
    );
    assert!(raised("mine", "panicking::panic_fmt").is_empty());
    assert!(raised("core", "slice::len").is_empty());
}

#[test]
fn the_table_answers_as_the_rule_does() {
    let (table, first) = SinkTable::new().get(5, "core", "option::unwrap_failed", PLAIN);
    assert_eq!(first, classify("core", "option::unwrap_failed", PLAIN));
    let (_, again) = table.get(5, "core", "option::unwrap_failed", PLAIN);
    assert_eq!(again, first);
}

#[test]
fn a_path_is_its_named_segments() {
    let segments = vec![Some("raw_vec".to_owned()), None, Some("handle_error".to_owned())];
    assert_eq!(def_path(&segments), "raw_vec::handle_error");
    assert_eq!(def_path(&Vec::new()), "");
}

#[test]
fn known_contracts_are_of_the_core_library() {
    assert_eq!(contract_of("core", "slice::len"), Some(Contract::SliceLen));
    assert_eq!(contract_of("core", "cmp::Ord::min"), Some(Contract::Smaller));
    assert_eq!(contract_of("mine", "slice::len"), None);
}
