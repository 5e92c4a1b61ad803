// The runner's decisions: names, verdicts, combined outcomes, witnesses,
// mutations and JSON quoting.

use bstr::etna::PropertyResult;
use bstr::runner::{
    all_properties, combine_outcomes, crabcheck_status, etna_witness, flip_bit, flip_byte_bit,
    hegel_failure_message, json_record, json_str, next_limit, parse_faultloc_property,
    parse_property, parse_selection, parse_tool, plan_mutation, plan_splitn_mutation,
    property_name, quickcheck_status, run_all, run_etna_witness, str_eq, to_err, to_opt,
    unknown_property_message, unknown_tool_message, FrameworkStatus, Metrics, MutationKind,
    Outcome, Property, Selection, SplitnPart, Tool,
};
use std::cell::RefCell;

#[test]
fn property_names_round_trip() {
    for p in all_properties() {
        assert_eq!(parse_property(property_name(p)), Some(p));
    }
    assert_eq!(all_properties().len(), 5);
    assert_eq!(parse_property("CowPartialeqBstr"), None);
    assert_eq!(parse_faultloc_property("CowPartialeqBstr"), Some(Property::CowPartialEqBstr));
    assert_eq!(
        parse_faultloc_property("DebugValidFffdPreserved"),
        Some(Property::DebugValidFfFdPreserved)
    );
    assert_eq!(parse_faultloc_property("DebugValidFfFdPreserved"), None);
    assert_eq!(parse_property("splitnbounded"), None);
}

#[test]
fn selections_and_tools() {
    assert_eq!(parse_selection("All"), Some(Selection::All));
    assert_eq!(parse_selection("DebugHexLowercase"), Some(Selection::One(Property::DebugHexLowercase)));
    assert_eq!(parse_selection("all"), None);
    assert_eq!(parse_tool("etna"), Some(Tool::Etna));
    assert_eq!(parse_tool("hegel"), Some(Tool::Hegel));
    assert_eq!(parse_tool("quickcheck"), Some(Tool::Quickcheck));
    assert_eq!(parse_tool("crabcheck"), Some(Tool::Crabcheck));
    assert_eq!(parse_tool("proptest"), Some(Tool::Proptest));
    assert_eq!(parse_tool("cargo"), None);
    assert!(str_eq("é", "é"));
    assert!(!str_eq("é", "e"));
}

#[test]
fn verdicts() {
    assert_eq!(to_err(PropertyResult::Pass), Ok(()));
    assert_eq!(to_err(PropertyResult::Discard), Ok(()));
    assert_eq!(to_err(PropertyResult::Fail("boom".to_string())), Err("boom".to_string()));
    assert_eq!(to_opt(PropertyResult::Pass), Some(true));
    assert_eq!(to_opt(PropertyResult::Fail(String::new())), Some(false));
    assert_eq!(to_opt(PropertyResult::Discard), None);
}

#[test]
fn metrics_add_up() {
    let a = Metrics { inputs: 3, elapsed_us: 10 };
    let b = Metrics { inputs: 4, elapsed_us: 5 };
    let c = a.combine(b);
    assert_eq!(c.inputs, 7);
    assert_eq!(c.elapsed_us, 15);
    let z = Metrics::default();
    assert_eq!((z.inputs, z.elapsed_us), (0, 0));
}

#[test]
fn outcomes_keep_the_first_failure() {
    let outcomes: Vec<Outcome> = vec![
        (Ok(()), Metrics { inputs: 1, elapsed_us: 2 }),
        (Err("first".to_string()), Metrics { inputs: 10, elapsed_us: 20 }),
        (Err("second".to_string()), Metrics { inputs: 100, elapsed_us: 200 }),
    ];
    let (status, m) = combine_outcomes(&outcomes);
    assert_eq!(status, Err("first".to_string()));
    assert_eq!((m.inputs, m.elapsed_us), (111, 222));
    let (status, m) = combine_outcomes(&Vec::new());
    assert_eq!(status, Ok(()));
    assert_eq!((m.inputs, m.elapsed_us), (0, 0));
}

#[test]
fn witnesses_pass() {
    for p in all_properties() {
        assert!(matches!(etna_witness(p), PropertyResult::Pass));
    }
}

#[test]
fn messages() {
    assert_eq!(unknown_tool_message("cargo"), "Unknown tool: cargo");
    assert_eq!(
        unknown_property_message("etna", "Nope"),
        "Unknown property for etna: Nope"
    );
}

#[test]
fn json_quoting() {
    assert_eq!(json_str("plain"), "\"plain\"");
    assert_eq!(json_str("a\"b\\c"), "\"a\\\"b\\\\c\"");
    assert_eq!(json_str("\n\r\t"), "\"\\n\\r\\t\"");
    assert_eq!(json_str("\u{1}\u{1f}"), "\"\\u0001\\u001f\"");
    assert_eq!(json_str("é"), "\"é\"");
}

#[test]
fn mutations() {
    assert_eq!(plan_mutation(3, 32, 0), MutationKind::FlipBit);
    assert_eq!(plan_mutation(0, 32, 0), MutationKind::Keep);
    assert_eq!(plan_mutation(3, 32, 1), MutationKind::Push);
    assert_eq!(plan_mutation(32, 32, 1), MutationKind::Pop);
    assert_eq!(plan_mutation(0, 0, 1), MutationKind::Keep);
    assert_eq!(plan_mutation(2, 32, 2), MutationKind::Pop);
    let mut v = vec![0x00u8, 0xf0];
    flip_bit(&mut v, 1, 0);
    flip_bit(&mut v, 0, 7);
    assert_eq!(v, vec![0x80, 0xf1]);
}

#[test]
fn json_records() {
    let m = Metrics { inputs: 200, elapsed_us: 1234 };
    assert_eq!(
        json_record("etna", "All", "passed", m, None, None),
        "{\"status\":\"passed\",\"tests\":200,\"discards\":0,\"time\":\"1234us\",\"counterexample\":null,\"error\":null,\"tool\":\"etna\",\"property\":\"All\"}"
    );
    assert_eq!(
        json_record("proptest", "SplitnBounded", "failed", Metrics::default(), Some("(\"a\")"), Some("x\ny")),
        "{\"status\":\"failed\",\"tests\":0,\"discards\":0,\"time\":\"0us\",\"counterexample\":\"(\\\"a\\\")\",\"error\":\"x\\ny\",\"tool\":\"proptest\",\"property\":\"SplitnBounded\"}"
    );
}

#[test]
fn all_run_visits_every_property_in_order() {
    let seen: RefCell<Vec<Property>> = RefCell::new(Vec::new());
    let r = run_all(|p: Property| {
        seen.borrow_mut().push(p);
        let status = if p == Property::DebugAsciiControlHex {
            Err("control".to_string())
        } else if p == Property::DebugHexLowercase {
            Err("hex".to_string())
        } else {
            Ok(())
        };
        (status, Metrics { inputs: 2, elapsed_us: 7 })
    });
    assert_eq!(seen.into_inner(), all_properties());
    let (status, m) = r.unwrap();
    assert_eq!(status, Err("control".to_string()));
    assert_eq!((m.inputs, m.elapsed_us), (10, 35));
}

#[test]
fn all_run_passes_when_every_property_passes() {
    let (status, m) = run_all(|_p: Property| (Ok(()), Metrics { inputs: 1, elapsed_us: 0 })).unwrap();
    assert_eq!(status, Ok(()));
    assert_eq!((m.inputs, m.elapsed_us), (5, 0));
}

#[test]
fn all_run_refuses_overflowing_totals() {
    let r = run_all(|_p: Property| (Ok(()), Metrics { inputs: u64::MAX, elapsed_us: 0 }));
    assert!(r.is_none());
    let r = run_all(|_p: Property| (Ok(()), Metrics { inputs: 0, elapsed_us: u128::MAX / 2 }));
    assert!(r.is_none());
}

#[test]
fn etna_replays_one_input_each() {
    for p in all_properties() {
        let (status, m) = run_etna_witness(p, || 42);
        assert_eq!(status, Ok(()));
        assert_eq!((m.inputs, m.elapsed_us), (1, 42));
    }
}

#[test]
fn quickcheck_statuses() {
    assert_eq!(quickcheck_status(FrameworkStatus::Finished), Ok(()));
    assert_eq!(
        quickcheck_status(FrameworkStatus::Failed(vec!["[1, 2]".to_string(), "3".to_string()])),
        Err("([1, 2] 3)".to_string())
    );
    assert_eq!(quickcheck_status(FrameworkStatus::Failed(Vec::new())), Err("()".to_string()));
    assert_eq!(
        quickcheck_status(FrameworkStatus::Aborted("boom".to_string())),
        Err("aborted: \"boom\"".to_string())
    );
    assert_eq!(quickcheck_status(FrameworkStatus::TimedOut), Err("timed out".to_string()));
    assert_eq!(
        quickcheck_status(FrameworkStatus::GaveUp { passed: 12, discarded: 300 }),
        Err("gave up after 12 tests, 300 discarded".to_string())
    );
}

#[test]
fn crabcheck_statuses() {
    assert_eq!(crabcheck_status(FrameworkStatus::Finished), Ok(()));
    assert_eq!(
        crabcheck_status(FrameworkStatus::Failed(vec!["7".to_string()])),
        Err("(7)".to_string())
    );
    assert_eq!(
        crabcheck_status(FrameworkStatus::Aborted("boom".to_string())),
        Err("aborted: boom".to_string())
    );
    assert_eq!(crabcheck_status(FrameworkStatus::TimedOut), Err("timed out".to_string()));
    assert_eq!(
        crabcheck_status(FrameworkStatus::GaveUp { passed: 0, discarded: 9 }),
        Err("gave up: passed=0, discarded=9".to_string())
    );
}

#[test]
fn hegel_failures() {
    assert_eq!(hegel_failure_message("Property test failed: (1, 2)"), "(1, 2)");
    assert_eq!(hegel_failure_message("Property test failed: "), "");
    assert_eq!(hegel_failure_message("assertion failed"), "assertion failed");
    assert_eq!(hegel_failure_message("Property test"), "Property test");
}

#[test]
fn fuzzing_steps() {
    assert_eq!(plan_splitn_mutation(0), SplitnPart::Haystack);
    assert_eq!(plan_splitn_mutation(1), SplitnPart::Needle);
    assert_eq!(plan_splitn_mutation(2), SplitnPart::Limit);
    assert_eq!(next_limit(0), 1);
    assert_eq!(next_limit(8), 0);
    assert_eq!(next_limit(17), 0);
    assert_eq!(next_limit(u32::MAX), 0);
    assert_eq!(flip_byte_bit(0x00, 0), 0x01);
    assert_eq!(flip_byte_bit(0xff, 7), 0x7f);
}

#[test]
fn json_str_reads_back() {
    // Every escape that `json_str` writes is one that a JSON reader undoes.
    let s = "q\"b\\s\n\r\t\u{8}\u{c}\u{0}é";
    assert_eq!(json_str(s), "\"q\\\"b\\\\s\\n\\r\\t\\u0008\\u000c\\u0000é\"");
}
