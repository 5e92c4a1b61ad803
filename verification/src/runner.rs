//! The decisions of the workload runner: which property or tool a name selects,
//! how a property result counts, how the outcomes of several runs combine, the
//! frozen witness inputs, how a fuzzing mutation is chosen, and how a string is
//! quoted for JSON output.
use vstd::prelude::*;
use vstd::utf8::encode_utf8;

use crate::equality::bytes_eq;
use crate::json::{json_string_value, lemma_json_str_round_trip};
use crate::etna::{
    fffd_failure_text, property_cow_partialeq_bstr, property_debug_ascii_control_hex, property_debug_hex_lowercase,
    property_debug_valid_fffd_preserved, property_splitn_bounded, PropertyResult,
};
use crate::render::{debug_render, fffd_bytes, hex_pair};
use crate::search::contains_occurrence;
use crate::text::{
    chars_of, decimal, decimal_chars, push_chars, str_debug, str_debug_of, string_from_chars,
};

verus! {

/// Whether two strings hold the same characters.
pub fn str_eq(a: &str, b: &str) -> (r: bool)
    ensures
        r == (a@ == b@),
{
    let r = bytes_eq(a.as_bytes(), b.as_bytes());
    proof {
        vstd::utf8::encode_utf8_decode_utf8(a@);
        vstd::utf8::encode_utf8_decode_utf8(b@);
    }
    r
}

/// The properties that the runner knows.
#[derive(Clone, Copy, Debug, PartialEq, Eq)]
pub enum Property {
    SplitnBounded,
    CowPartialEqBstr,
    DebugValidFfFdPreserved,
    DebugAsciiControlHex,
    DebugHexLowercase,
}

/// The name by which the runner selects a property.
pub open spec fn property_label(p: Property) -> Seq<char> {
    match p {
        Property::SplitnBounded => "SplitnBounded"@,
        Property::CowPartialEqBstr => "CowPartialEqBstr"@,
        Property::DebugValidFfFdPreserved => "DebugValidFfFdPreserved"@,
        Property::DebugAsciiControlHex => "DebugAsciiControlHex"@,
        Property::DebugHexLowercase => "DebugHexLowercase"@,
    }
}

/// The name by which the fault-localization runner selects a property.
pub open spec fn faultloc_label(p: Property) -> Seq<char> {
    match p {
        Property::SplitnBounded => "SplitnBounded"@,
        Property::CowPartialEqBstr => "CowPartialeqBstr"@,
        Property::DebugValidFfFdPreserved => "DebugValidFffdPreserved"@,
        Property::DebugAsciiControlHex => "DebugAsciiControlHex"@,
        Property::DebugHexLowercase => "DebugHexLowercase"@,
    }
}

/// The name of `p` among the fault-localization runner's names, or the runner's.
pub open spec fn label_for(p: Property, faultloc: bool) -> Seq<char> {
    if faultloc {
        faultloc_label(p)
    } else {
        property_label(p)
    }
}

/// The runner's property names are the documented ones: each property is
/// selected by its own name, spelled as in the usage text, and `All` runs them in
/// that order.
pub proof fn lemma_documented_property_names()
    ensures
        property_label(Property::SplitnBounded) == "SplitnBounded"@,
        property_label(Property::CowPartialEqBstr) == "CowPartialEqBstr"@,
        property_label(Property::DebugValidFfFdPreserved) == "DebugValidFfFdPreserved"@,
        property_label(Property::DebugAsciiControlHex) == "DebugAsciiControlHex"@,
        property_label(Property::DebugHexLowercase) == "DebugHexLowercase"@,
        all_properties_spec().map_values(|p: Property| property_label(p)) == seq![
            "SplitnBounded"@,
            "CowPartialEqBstr"@,
            "DebugValidFfFdPreserved"@,
            "DebugAsciiControlHex"@,
            "DebugHexLowercase"@,
        ],
        forall|p: Property, q: Property|
            #[trigger] property_label(p) == #[trigger] property_label(q) ==> p == q,
{
    reveal_strlit("SplitnBounded");
    reveal_strlit("CowPartialEqBstr");
    reveal_strlit("DebugValidFfFdPreserved");
    reveal_strlit("DebugAsciiControlHex");
    reveal_strlit("DebugHexLowercase");
    assert(all_properties_spec().map_values(|p: Property| property_label(p)) =~= seq![
        "SplitnBounded"@,
        "CowPartialEqBstr"@,
        "DebugValidFfFdPreserved"@,
        "DebugAsciiControlHex"@,
        "DebugHexLowercase"@,
    ]);
    assert forall|p: Property, q: Property|
        #[trigger] property_label(p) == #[trigger] property_label(q) implies p == q by {
        if p != q {
            let a = property_label(p);
            let b = property_label(q);
            if a.len() == b.len() {
                assert(a[5] != b[5] || a[9] != b[9]);
            }
        }
    }
}

/// The name by which the runner selects `p`: the documented one.
pub fn property_name(p: Property) -> (r: &'static str)
    ensures
        r@ == property_label(p),
        r@ == match p {
            Property::SplitnBounded => "SplitnBounded"@,
            Property::CowPartialEqBstr => "CowPartialEqBstr"@,
            Property::DebugValidFfFdPreserved => "DebugValidFfFdPreserved"@,
            Property::DebugAsciiControlHex => "DebugAsciiControlHex"@,
            Property::DebugHexLowercase => "DebugHexLowercase"@,
        },
{
    proof {
        lemma_documented_property_names();
    }
    match p {
        Property::SplitnBounded => "SplitnBounded",
        Property::CowPartialEqBstr => "CowPartialEqBstr",
        Property::DebugValidFfFdPreserved => "DebugValidFfFdPreserved",
        Property::DebugAsciiControlHex => "DebugAsciiControlHex",
        Property::DebugHexLowercase => "DebugHexLowercase",
    }
}

/// Every property, in the order in which `All` runs them.
pub open spec fn all_properties_spec() -> Seq<Property> {
    seq![
        Property::SplitnBounded,
        Property::CowPartialEqBstr,
        Property::DebugValidFfFdPreserved,
        Property::DebugAsciiControlHex,
        Property::DebugHexLowercase,
    ]
}

/// Every property, in the order in which `All` runs them.
pub fn all_properties() -> (r: Vec<Property>)
    ensures
        r@ == all_properties_spec(),
{
    let r = vec![
        Property::SplitnBounded,
        Property::CowPartialEqBstr,
        Property::DebugValidFfFdPreserved,
        Property::DebugAsciiControlHex,
        Property::DebugHexLowercase,
    ];
    assert(r@ =~= all_properties_spec());
    r
}

/// The property that `name` selects, under the labels that `label` gives.
fn parse_with(name: &str, faultloc: bool) -> (r: Option<Property>)
    ensures
        match r {
            Some(p) => name@ == label_for(p, faultloc),
            None => forall|p: Property|
                name@ != #[trigger] label_for(p, faultloc),
        },
{
    let ps = all_properties();
    let mut i: usize = 0;
    while i < ps.len()
        invariant
            ps@ == all_properties_spec(),
            i <= ps@.len(),
            forall|k: int|
                0 <= k < i ==> name@ != #[trigger] label_for(ps@[k], faultloc),
        decreases ps@.len() - i,
    {
        let p = ps[i];
        let label = if faultloc {
            match p {
                Property::SplitnBounded => "SplitnBounded",
                Property::CowPartialEqBstr => "CowPartialeqBstr",
                Property::DebugValidFfFdPreserved => "DebugValidFffdPreserved",
                Property::DebugAsciiControlHex => "DebugAsciiControlHex",
                Property::DebugHexLowercase => "DebugHexLowercase",
            }
        } else {
            property_name(p)
        };
        if str_eq(name, label) {
            return Some(p);
        }
        i += 1;
    }
    proof {
        assert forall|p: Property|
            name@ != #[trigger] label_for(p, faultloc) by {
            match p {
                Property::SplitnBounded => assert(ps@[0] == p),
                Property::CowPartialEqBstr => assert(ps@[1] == p),
                Property::DebugValidFfFdPreserved => assert(ps@[2] == p),
                Property::DebugAsciiControlHex => assert(ps@[3] == p),
                Property::DebugHexLowercase => assert(ps@[4] == p),
            }
        }
    }
    None
}

/// The property that `name` selects, if any.
pub fn parse_property(name: &str) -> (r: Option<Property>)
    ensures
        match r {
            Some(p) => name@ == property_label(p),
            None => forall|p: Property| name@ != #[trigger] property_label(p),
        },
{
    let r = parse_with(name, false);
    proof {
        if let Some(p) = r {
            assert(label_for(p, false) == property_label(p));
        }
        assert forall|p: Property| #[trigger] property_label(p) == label_for(p, false) by {}
    }
    r
}

/// The property that `name` selects in the fault-localization runner, if any.
pub fn parse_faultloc_property(name: &str) -> (r: Option<Property>)
    ensures
        match r {
            Some(p) => name@ == faultloc_label(p),
            None => forall|p: Property| name@ != #[trigger] faultloc_label(p),
        },
{
    let r = parse_with(name, true);
    proof {
        if let Some(p) = r {
            assert(label_for(p, true) == faultloc_label(p));
        }
        assert forall|p: Property| #[trigger] faultloc_label(p) == label_for(p, true) by {}
    }
    r
}

/// What a property name selects: one property, or all of them.
#[derive(Clone, Copy, Debug, PartialEq, Eq)]
pub enum Selection {
    All,
    One(Property),
}

/// What `name` selects: `All`, one property, or nothing.
pub fn parse_selection(name: &str) -> (r: Option<Selection>)
    ensures
        name@ == "All"@ ==> r == Some(Selection::All),
        name@ != "All"@ ==> match r {
            Some(Selection::One(p)) => name@ == property_label(p),
            Some(Selection::All) => false,
            None => forall|p: Property| name@ != #[trigger] property_label(p),
        },
{
    if str_eq(name, "All") {
        return Some(Selection::All);
    }
    match parse_property(name) {
        Some(p) => Some(Selection::One(p)),
        None => None,
    }
}

/// The property-based testing tools that the runner drives.
#[derive(Clone, Copy, Debug, PartialEq, Eq)]
pub enum Tool {
    Etna,
    Proptest,
    Quickcheck,
    Crabcheck,
    Hegel,
}

/// The name by which the runner selects a tool.
pub open spec fn tool_label(t: Tool) -> Seq<char> {
    match t {
        Tool::Etna => "etna"@,
        Tool::Proptest => "proptest"@,
        Tool::Quickcheck => "quickcheck"@,
        Tool::Crabcheck => "crabcheck"@,
        Tool::Hegel => "hegel"@,
    }
}

/// The tools are selected by their documented names, and the
/// fault-localization runner knows two properties by other spellings.
pub proof fn lemma_documented_tool_names()
    ensures
        tool_label(Tool::Etna) == "etna"@,
        tool_label(Tool::Proptest) == "proptest"@,
        tool_label(Tool::Quickcheck) == "quickcheck"@,
        tool_label(Tool::Crabcheck) == "crabcheck"@,
        tool_label(Tool::Hegel) == "hegel"@,
        faultloc_label(Property::SplitnBounded) == "SplitnBounded"@,
        faultloc_label(Property::CowPartialEqBstr) == "CowPartialeqBstr"@,
        faultloc_label(Property::DebugValidFfFdPreserved) == "DebugValidFffdPreserved"@,
        faultloc_label(Property::DebugAsciiControlHex) == "DebugAsciiControlHex"@,
        faultloc_label(Property::DebugHexLowercase) == "DebugHexLowercase"@,
{
}

/// The tool that `name` selects, if any.
pub fn parse_tool(name: &str) -> (r: Option<Tool>)
    ensures
        match r {
            Some(t) => name@ == tool_label(t),
            None => forall|t: Tool| name@ != #[trigger] tool_label(t),
        },
{
    if str_eq(name, "etna") {
        Some(Tool::Etna)
    } else if str_eq(name, "proptest") {
        Some(Tool::Proptest)
    } else if str_eq(name, "quickcheck") {
        Some(Tool::Quickcheck)
    } else if str_eq(name, "crabcheck") {
        Some(Tool::Crabcheck)
    } else if str_eq(name, "hegel") {
        Some(Tool::Hegel)
    } else {
        proof {
            assert forall|t: Tool| name@ != #[trigger] tool_label(t) by {
                match t {
                    Tool::Etna => {},
                    Tool::Proptest => {},
                    Tool::Quickcheck => {},
                    Tool::Crabcheck => {},
                    Tool::Hegel => {},
                }
            }
        }
        None
    }
}

/// `Unknown property for <tool>: <property>`.
pub fn unknown_property_message(tool: &str, property: &str) -> (r: String)
    ensures
        r@ == "Unknown property for "@ + tool@ + ": "@ + property@,
{
    let mut m = chars_of("Unknown property for ");
    push_chars(&mut m, &chars_of(tool));
    push_chars(&mut m, &chars_of(": "));
    push_chars(&mut m, &chars_of(property));
    string_from_chars(&m)
}

/// `Unknown tool: <tool>`.
pub fn unknown_tool_message(tool: &str) -> (r: String)
    ensures
        r@ == "Unknown tool: "@ + tool@,
{
    let mut m = chars_of("Unknown tool: ");
    push_chars(&mut m, &chars_of(tool));
    string_from_chars(&m)
}

/// How many inputs a run tried and how long it took, in microseconds.
#[derive(Clone, Copy, Debug)]
pub struct Metrics {
    pub inputs: u64,
    pub elapsed_us: u128,
}

impl Default for Metrics {
    fn default() -> (m: Metrics)
        ensures
            m.inputs == 0,
            m.elapsed_us == 0,
    {
        Metrics { inputs: 0, elapsed_us: 0 }
    }
}

impl Metrics {
    /// The metrics of two runs together.
    pub fn combine(self, other: Metrics) -> (m: Metrics)
        requires
            self.inputs + other.inputs <= u64::MAX,
            self.elapsed_us + other.elapsed_us <= u128::MAX,
        ensures
            m.inputs == self.inputs + other.inputs,
            m.elapsed_us == self.elapsed_us + other.elapsed_us,
    {
        Metrics {
            inputs: self.inputs + other.inputs,
            elapsed_us: self.elapsed_us + other.elapsed_us,
        }
    }
}

/// Whether a run passed (or failed with a description), and its metrics.
pub type Outcome = (Result<(), String>, Metrics);

/// A property result as a run's status: a failure keeps its description, and a
/// discard counts as a pass.
pub fn to_err(r: PropertyResult) -> (s: Result<(), String>)
    ensures
        match r {
            PropertyResult::Fail(m) => s == Err::<(), String>(m),
            _ => s is Ok,
        },
{
    match r {
        PropertyResult::Pass | PropertyResult::Discard => Ok(()),
        PropertyResult::Fail(m) => Err(m),
    }
}

/// A property result as an optional boolean: `Some(true)` when it held,
/// `Some(false)` when it did not, `None` when the inputs did not apply.
pub fn to_opt(r: PropertyResult) -> (o: Option<bool>)
    ensures
        o == match r {
            PropertyResult::Pass => Some(true),
            PropertyResult::Fail(_) => Some(false),
            PropertyResult::Discard => None::<bool>,
        },
{
    match r {
        PropertyResult::Pass => Some(true),
        PropertyResult::Fail(_) => Some(false),
        PropertyResult::Discard => None,
    }
}

/// The description of the first failed outcome, if any.
pub open spec fn first_failure(os: Seq<Outcome>) -> Option<Seq<char>>
    decreases os.len(),
{
    if os.len() == 0 {
        None
    } else {
        match first_failure(os.drop_last()) {
            Some(m) => Some(m),
            None => match os.last().0 {
                Err(m) => Some(m@),
                Ok(_) => None,
            },
        }
    }
}

/// Every run passed.
pub open spec fn all_passed(os: Seq<Outcome>) -> bool {
    forall|k: int| 0 <= k < os.len() ==> (#[trigger] os[k]).0 is Ok
}

/// The run at index `k` failed with description `m`, and every run before it
/// passed.
pub open spec fn fails_first_at(os: Seq<Outcome>, k: int, m: Seq<char>) -> bool {
    &&& 0 <= k < os.len()
    &&& (os[k].0 matches Err(e) && e@ == m)
    &&& forall|j: int| 0 <= j < k ==> (#[trigger] os[j]).0 is Ok
}

/// The first failure of a sequence of runs is that of the lowest index that
/// failed: there is none exactly when every run passed, and otherwise it is the
/// description of the earliest failing run, whichever runs fail after it.
pub proof fn lemma_first_failure_lowest_index(os: Seq<Outcome>)
    ensures
        first_failure(os) is None <==> all_passed(os),
        forall|m: Seq<char>|
            #[trigger] first_failure(os) == Some(m) <==> exists|k: int| fails_first_at(os, k, m),
    decreases os.len(),
{
    if os.len() == 0 {
        assert forall|m: Seq<char>, k: int| !#[trigger] fails_first_at(os, k, m) by {}
    } else {
        let init = os.drop_last();
        let n = os.len() - 1;
        lemma_first_failure_lowest_index(init);
        assert forall|k: int| 0 <= k < init.len() implies init[k] == os[k] by {}
        if all_passed(init) {
            assert forall|m: Seq<char>|
                #[trigger] first_failure(os) == Some(m) <==> exists|k: int| fails_first_at(os, k, m) by {
                if first_failure(os) == Some(m) {
                    assert(fails_first_at(os, n, m));
                }
                if exists|k: int| fails_first_at(os, k, m) {
                    let k = choose|k: int| fails_first_at(os, k, m);
                    if k < n {
                        assert(os[k] == init[k]);
                    }
                }
            }
        } else {
            let f = first_failure(init)->0;
            assert(exists|k: int| fails_first_at(init, k, f));
            let k0 = choose|k: int| fails_first_at(init, k, f);
            assert(fails_first_at(os, k0, f));
            assert(os[k0] == init[k0]);
            assert forall|m: Seq<char>|
                #[trigger] first_failure(os) == Some(m) <==> exists|k: int| fails_first_at(os, k, m) by {
                if exists|k: int| fails_first_at(os, k, m) {
                    let k = choose|k: int| fails_first_at(os, k, m);
                    if k < k0 {
                        assert(os[k] == init[k]);
                    } else if k0 < k {
                        assert(os[k0].0 is Ok);
                    }
                }
            }
        }
    }
}

/// The inputs of all outcomes together.
pub open spec fn total_inputs(os: Seq<Outcome>) -> int
    decreases os.len(),
{
    if os.len() == 0 {
        0
    } else {
        total_inputs(os.drop_last()) + os.last().1.inputs
    }
}

/// The elapsed time of all outcomes together.
pub open spec fn total_elapsed(os: Seq<Outcome>) -> int
    decreases os.len(),
{
    if os.len() == 0 {
        0
    } else {
        total_elapsed(os.drop_last()) + os.last().1.elapsed_us
    }
}

proof fn lemma_totals_grow(os: Seq<Outcome>, i: int)
    requires
        0 <= i <= os.len(),
    ensures
        total_inputs(os.take(i)) <= total_inputs(os),
        total_elapsed(os.take(i)) <= total_elapsed(os),
    decreases os.len() - i,
{
    if i < os.len() {
        lemma_totals_grow(os, i + 1);
        assert(os.take(i + 1).drop_last() =~= os.take(i));
    } else {
        assert(os.take(i) =~= os);
    }
}

/// The outcomes of several runs, in order, together: the first failure, if any,
/// and the metrics of all runs added up.
pub fn combine_outcomes(outcomes: &Vec<Outcome>) -> (r: Outcome)
    requires
        total_inputs(outcomes@) <= u64::MAX,
        total_elapsed(outcomes@) <= u128::MAX,
    ensures
        match r.0 {
            Ok(_) => first_failure(outcomes@) is None,
            Err(m) => first_failure(outcomes@) == Some(m@),
        },
        r.0 is Ok <==> all_passed(outcomes@),
        r.0 matches Err(m) ==> exists|k: int| fails_first_at(outcomes@, k, m@),
        r.1.inputs == total_inputs(outcomes@),
        r.1.elapsed_us == total_elapsed(outcomes@),
{
    let mut total = Metrics::default();
    let mut status: Result<(), String> = Ok(());
    let mut i: usize = 0;
    while i < outcomes.len()
        invariant
            i <= outcomes@.len(),
            total_inputs(outcomes@) <= u64::MAX,
            total_elapsed(outcomes@) <= u128::MAX,
            total.inputs == total_inputs(outcomes@.take(i as int)),
            total.elapsed_us == total_elapsed(outcomes@.take(i as int)),
            match status {
                Ok(_) => first_failure(outcomes@.take(i as int)) is None,
                Err(m) => first_failure(outcomes@.take(i as int)) == Some(m@),
            },
        decreases outcomes@.len() - i,
    {
        proof {
            lemma_totals_grow(outcomes@, i + 1);
            assert(outcomes@.take(i + 1).drop_last() =~= outcomes@.take(i as int));
        }
        let m = outcomes[i].1;
        total = total.combine(m);
        if status.is_ok() {
            match &outcomes[i].0 {
                Err(msg) => {
                    status = Err(msg.clone());
                },
                Ok(_) => {},
            }
        }
        i += 1;
    }
    assert(outcomes@.take(outcomes@.len() as int) =~= outcomes@);
    proof {
        lemma_first_failure_lowest_index(outcomes@);
        if let Err(m) = &status {
            assert(first_failure(outcomes@) == Some(m@));
        }
    }
    (status, total)
}

/// What an `All` run returns, given the outcomes of its runs in order: `None`
/// when their metrics do not fit the counters, else the first failure and the
/// metrics added up.
pub open spec fn all_run_result(os: Seq<Outcome>, r: Option<Outcome>) -> bool {
    match r {
        None => total_inputs(os) > u64::MAX || total_elapsed(os) > u128::MAX,
        Some(o) => {
            &&& total_inputs(os) <= u64::MAX
            &&& total_elapsed(os) <= u128::MAX
            &&& o.1.inputs == total_inputs(os)
            &&& o.1.elapsed_us == total_elapsed(os)
            &&& match o.0 {
                Ok(_) => first_failure(os) is None,
                Err(m) => first_failure(os) == Some(m@),
            }
            &&& (o.0 is Ok <==> all_passed(os))
            &&& (o.0 matches Err(m) ==> exists|k: int| fails_first_at(os, k, m@))
        },
    }
}

/// Runs `run` once on every property, in the order of `all_properties`, and
/// combines the outcomes: the first failure, if any, and the metrics added up.
/// `None` when the added metrics would not fit their counters.
pub fn run_all<F: Fn(Property) -> Outcome>(run: F) -> (r: Option<Outcome>)
    requires
        forall|p: Property| run.requires((p,)),
    ensures
        exists|os: Seq<Outcome>|
            {
                &&& os.len() == all_properties_spec().len()
                &&& forall|i: int|
                    0 <= i < os.len() ==> run.ensures((all_properties_spec()[i],), #[trigger] os[i])
                &&& all_run_result(os, r)
            },
{
    let ps = all_properties();
    let mut outcomes: Vec<Outcome> = Vec::new();
    let mut i: usize = 0;
    while i < ps.len()
        invariant
            ps@ == all_properties_spec(),
            i <= ps@.len(),
            outcomes@.len() == i,
            forall|p: Property| run.requires((p,)),
            forall|k: int| 0 <= k < i ==> run.ensures((ps@[k],), #[trigger] outcomes@[k]),
        decreases ps@.len() - i,
    {
        let o = run(ps[i]);
        outcomes.push(o);
        i += 1;
    }
    let mut inputs: u64 = 0;
    let mut elapsed: u128 = 0;
    let mut j: usize = 0;
    while j < outcomes.len()
        invariant
            ps@ == all_properties_spec(),
            outcomes@.len() == ps@.len(),
            forall|k: int| 0 <= k < outcomes@.len() ==> run.ensures((ps@[k],), #[trigger] outcomes@[k]),
            j <= outcomes@.len(),
            inputs == total_inputs(outcomes@.take(j as int)),
            elapsed == total_elapsed(outcomes@.take(j as int)),
        decreases outcomes@.len() - j,
    {
        proof {
            lemma_totals_grow(outcomes@, j + 1);
            assert(outcomes@.take(j + 1).drop_last() =~= outcomes@.take(j as int));
        }
        match inputs.checked_add(outcomes[j].1.inputs) {
            Some(v) => inputs = v,
            None => {
                assert(all_run_result(outcomes@, None));
                return None;
            },
        }
        match elapsed.checked_add(outcomes[j].1.elapsed_us) {
            Some(v) => elapsed = v,
            None => {
                assert(all_run_result(outcomes@, None));
                return None;
            },
        }
        j += 1;
    }
    assert(outcomes@.take(outcomes@.len() as int) =~= outcomes@);
    let r = combine_outcomes(&outcomes);
    assert(all_run_result(outcomes@, Some(r)));
    Some(r)
}

/// The frozen inputs that replay each property once.
pub fn etna_witness(p: Property) -> (r: PropertyResult)
    ensures
        p != Property::DebugValidFfFdPreserved ==> r is Pass,
        r is Pass || r is Fail,
        p == Property::DebugValidFfFdPreserved ==> (r is Pass <==> contains_occurrence(
            encode_utf8(debug_render(fffd_bytes())),
            fffd_bytes(),
        )),
        r matches PropertyResult::Fail(m) ==> m@ == fffd_failure_text(
            Seq::empty(),
            Seq::empty(),
        ),
{
    match p {
        Property::SplitnBounded => property_splitn_bounded(vec![0x61u8, 0x62u8], vec![0x3Au8], 2),
        Property::CowPartialEqBstr => property_cow_partialeq_bstr(
            vec![0x68u8, 0x65u8, 0x6Cu8, 0x6Cu8, 0x6Fu8],
            vec![0x67u8, 0x6Fu8, 0x6Fu8, 0x64u8, 0x62u8, 0x79u8, 0x65u8],
        ),
        Property::DebugValidFfFdPreserved => {
            let r = property_debug_valid_fffd_preserved(Vec::new(), Vec::new());
            assert(Seq::<u8>::empty() + fffd_bytes() + Seq::<u8>::empty() =~= fffd_bytes());
            r
        },
        Property::DebugAsciiControlHex => property_debug_ascii_control_hex(0x1c),
        Property::DebugHexLowercase => property_debug_hex_lowercase(0xff),
    }
}

/// Replays the frozen inputs of `p` once: one input, its status, and the time
/// that `micros_since_start` reports after the replay.
pub fn run_etna_witness<C: Fn() -> u128>(p: Property, micros_since_start: C) -> (r: Outcome)
    requires
        micros_since_start.requires(()),
    ensures
        r.1.inputs == 1,
        micros_since_start.ensures((), r.1.elapsed_us),
        p != Property::DebugValidFfFdPreserved ==> r.0 is Ok,
        p == Property::DebugValidFfFdPreserved ==> (r.0 is Ok <==> contains_occurrence(
            encode_utf8(debug_render(fffd_bytes())),
            fffd_bytes(),
        )),
        r.0 matches Err(m) ==> m@ == fffd_failure_text(Seq::empty(), Seq::empty()),
{
    let result = to_err(etna_witness(p));
    let elapsed_us = micros_since_start();
    (result, Metrics { inputs: 1, elapsed_us })
}

/// How a property-based testing framework ended a run.
pub enum FrameworkStatus {
    Finished,
    Failed(Vec<String>),
    Aborted(String),
    TimedOut,
    GaveUp { passed: u64, discarded: u64 },
}

/// The arguments of a failing case, separated by single spaces.
pub open spec fn joined(args: Seq<Seq<char>>) -> Seq<char>
    decreases args.len(),
{
    if args.len() == 0 {
        Seq::empty()
    } else if args.len() == 1 {
        args[0]
    } else {
        joined(args.drop_last()) + seq![' '] + args.last()
    }
}

/// The views of some strings.
pub open spec fn string_views(v: Seq<String>) -> Seq<Seq<char>> {
    v.map_values(|s: String| s@)
}

/// `(<arguments separated by spaces>)`.
fn failing_arguments(args: &Vec<String>) -> (r: Vec<char>)
    ensures
        r@ == seq!['('] + joined(string_views(args@)) + seq![')'],
{
    let mut out: Vec<char> = Vec::new();
    out.push('(');
    let mut i: usize = 0;
    while i < args.len()
        invariant
            i <= args@.len(),
            out@ == seq!['('] + joined(string_views(args@.take(i as int))),
        decreases args@.len() - i,
    {
        if i > 0 {
            out.push(' ');
        }
        let cs = chars_of(args[i].as_str());
        push_chars(&mut out, &cs);
        i += 1;
        proof {
            let vs = string_views(args@.take(i as int));
            assert(vs.drop_last() =~= string_views(args@.take(i - 1)));
            assert(vs.last() == args@[i - 1]@);
            if i == 1 {
                assert(string_views(args@.take(0)) =~= Seq::<Seq<char>>::empty());
            }
        }
    }
    out.push(')');
    assert(args@.take(args@.len() as int) =~= args@);
    out
}

/// The status of a quickcheck run: finished runs pass, and the others fail
/// with a description.
pub open spec fn quickcheck_status_text(s: FrameworkStatus) -> Option<Seq<char>> {
    match s {
        FrameworkStatus::Finished => None,
        FrameworkStatus::Failed(args) => Some(
            seq!['('] + joined(string_views(args@)) + seq![')'],
        ),
        FrameworkStatus::Aborted(err) => Some("aborted: "@ + str_debug_of(err@)),
        FrameworkStatus::TimedOut => Some("timed out"@),
        FrameworkStatus::GaveUp { passed, discarded } => Some(
            "gave up after "@ + decimal(passed as nat) + " tests, "@ + decimal(discarded as nat)
                + " discarded"@,
        ),
    }
}

/// The status of a crabcheck run: finished runs pass, and the others fail with
/// a description.
pub open spec fn crabcheck_status_text(s: FrameworkStatus) -> Option<Seq<char>> {
    match s {
        FrameworkStatus::Finished => None,
        FrameworkStatus::Failed(args) => Some(
            seq!['('] + joined(string_views(args@)) + seq![')'],
        ),
        FrameworkStatus::Aborted(err) => Some("aborted: "@ + err@),
        FrameworkStatus::TimedOut => Some("timed out"@),
        FrameworkStatus::GaveUp { passed, discarded } => Some(
            "gave up: passed="@ + decimal(passed as nat) + ", discarded="@ + decimal(
                discarded as nat,
            ),
        ),
    }
}

/// A status as the run's result: `Ok` for a finished run, else `Err` with the
/// description that `text` gives.
pub open spec fn status_result_matches(r: Result<(), String>, text: Option<Seq<char>>) -> bool {
    match text {
        None => r is Ok,
        Some(t) => r matches Err(m) && m@ == t,
    }
}

/// How the quickcheck driver reports a run's status.
pub fn quickcheck_status(s: FrameworkStatus) -> (r: Result<(), String>)
    ensures
        status_result_matches(r, quickcheck_status_text(s)),
{
    match s {
        FrameworkStatus::Finished => Ok(()),
        FrameworkStatus::Failed(args) => {
            let m = failing_arguments(&args);
            Err(string_from_chars(&m))
        },
        FrameworkStatus::Aborted(err) => {
            let mut m = chars_of("aborted: ");
            let d = str_debug(err.as_str());
            push_chars(&mut m, &chars_of(d.as_str()));
            Err(string_from_chars(&m))
        },
        FrameworkStatus::TimedOut => Err(string_from_chars(&chars_of("timed out"))),
        FrameworkStatus::GaveUp { passed, discarded } => {
            let mut m = chars_of("gave up after ");
            push_chars(&mut m, &decimal_chars(passed as u128));
            push_chars(&mut m, &chars_of(" tests, "));
            push_chars(&mut m, &decimal_chars(discarded as u128));
            push_chars(&mut m, &chars_of(" discarded"));
            Err(string_from_chars(&m))
        },
    }
}

/// How the crabcheck driver reports a run's status.
pub fn crabcheck_status(s: FrameworkStatus) -> (r: Result<(), String>)
    ensures
        status_result_matches(r, crabcheck_status_text(s)),
{
    match s {
        FrameworkStatus::Finished => Ok(()),
        FrameworkStatus::Failed(args) => {
            let m = failing_arguments(&args);
            Err(string_from_chars(&m))
        },
        FrameworkStatus::Aborted(err) => {
            let mut m = chars_of("aborted: ");
            push_chars(&mut m, &chars_of(err.as_str()));
            Err(string_from_chars(&m))
        },
        FrameworkStatus::TimedOut => Err(string_from_chars(&chars_of("timed out"))),
        FrameworkStatus::GaveUp { passed, discarded } => {
            let mut m = chars_of("gave up: passed=");
            push_chars(&mut m, &decimal_chars(passed as u128));
            push_chars(&mut m, &chars_of(", discarded="));
            push_chars(&mut m, &decimal_chars(discarded as u128));
            Err(string_from_chars(&m))
        },
    }
}

/// The failure description of a hegel run: its panic message without the
/// leading `Property test failed: `, where it has one.
pub open spec fn hegel_failure_text(msg: Seq<char>) -> Seq<char> {
    let prefix = "Property test failed: "@;
    if prefix.len() <= msg.len() && msg.take(prefix.len() as int) == prefix {
        msg.skip(prefix.len() as int)
    } else {
        msg
    }
}

/// The failure description of a hegel run, from its panic message.
pub fn hegel_failure_message(msg: &str) -> (r: String)
    ensures
        r@ == hegel_failure_text(msg@),
{
    let cs = chars_of(msg);
    let prefix = chars_of("Property test failed: ");
    let mut starts = prefix.len() <= cs.len();
    let mut i: usize = 0;
    while starts && i < prefix.len()
        invariant
            starts ==> prefix@.len() <= cs@.len(),
            i <= prefix@.len(),
            starts ==> forall|k: int| 0 <= k < i ==> cs@[k] == prefix@[k],
            !starts ==> !(prefix@.len() <= cs@.len() && cs@.take(prefix@.len() as int)
                == prefix@),
        decreases
                if starts {
                    prefix@.len() - i + 1
                } else {
                    0
                },
    {
        if cs[i] != prefix[i] {
            assert(cs@.take(prefix@.len() as int)[i as int] != prefix@[i as int]);
            starts = false;
        } else {
            i += 1;
        }
    }
    let mut out: Vec<char> = Vec::new();
    let start = if starts {
        assert(cs@.take(prefix@.len() as int) =~= prefix@);
        prefix.len()
    } else {
        0
    };
    let mut j = start;
    while j < cs.len()
        invariant
            start <= j <= cs@.len(),
            out@ == cs@.subrange(start as int, j as int),
        decreases cs@.len() - j,
    {
        out.push(cs[j]);
        j += 1;
        assert(out@ =~= cs@.subrange(start as int, j as int));
    }
    assert(cs@.subrange(start as int, cs@.len() as int) =~= hegel_failure_text(msg@));
    string_from_chars(&out)
}

/// How a character is escaped inside a JSON string.
pub open spec fn json_escape_char(c: char) -> Seq<char> {
    if c == '"' {
        seq!['\\', '"']
    } else if c == '\\' {
        seq!['\\', '\\']
    } else if c == '\n' {
        seq!['\\', 'n']
    } else if c == '\r' {
        seq!['\\', 'r']
    } else if c == '\t' {
        seq!['\\', 't']
    } else if (c as u32) < 0x20 {
        seq!['\\', 'u', '0', '0'] + hex_pair((c as u32) as u8)
    } else {
        seq![c]
    }
}

/// The characters of a string, each escaped for JSON.
pub open spec fn json_body(cs: Seq<char>) -> Seq<char>
    decreases cs.len(),
{
    if cs.len() == 0 {
        Seq::empty()
    } else {
        json_body(cs.drop_last()) + json_escape_char(cs.last())
    }
}

/// The JSON string literal for the characters `cs`.
pub open spec fn json_quoted(cs: Seq<char>) -> Seq<char> {
    seq!['"'] + json_body(cs) + seq!['"']
}

/// Appends the JSON escape of `c` to `out`.
fn push_json_char(out: &mut Vec<char>, c: char)
    ensures
        final(out)@ == old(out)@ + json_escape_char(c),
{
    if c == '"' {
        out.push('\\');
        out.push('"');
    } else if c == '\\' {
        out.push('\\');
        out.push('\\');
    } else if c == '\n' {
        out.push('\\');
        out.push('n');
    } else if c == '\r' {
        out.push('\\');
        out.push('r');
    } else if c == '\t' {
        out.push('\\');
        out.push('t');
    } else if (c as u32) < 0x20 {
        let b = (c as u32) as u8;
        out.push('\\');
        out.push('u');
        out.push('0');
        out.push('0');
        let hi = b / 16;
        let lo = b % 16;
        out.push((48u8 + hi) as char);
        out.push(if lo < 10 { (48u8 + lo) as char } else { (87u8 + lo) as char });
    } else {
        out.push(c);
    }
    assert(out@ =~= old(out)@ + json_escape_char(c));
}

/// Appends the JSON string literal for the characters `cs` to `out`.
fn push_json_quoted(out: &mut Vec<char>, cs: &Vec<char>)
    ensures
        final(out)@ == old(out)@ + json_quoted(cs@),
{
    let ghost start = out@;
    out.push('"');
    let mut i: usize = 0;
    while i < cs.len()
        invariant
            i <= cs@.len(),
            out@ == start + seq!['"'] + json_body(cs@.take(i as int)),
        decreases cs@.len() - i,
    {
        push_json_char(out, cs[i]);
        i += 1;
        assert(cs@.take(i as int).drop_last() =~= cs@.take(i - 1));
    }
    out.push('"');
    assert(cs@.take(cs@.len() as int) =~= cs@);
    assert(out@ =~= start + json_quoted(cs@));
}

/// `s` as a JSON string literal: quoted, with quotes, backslashes and control
/// characters escaped. Read back as one JSON string literal, it gives `s`.
pub fn json_str(s: &str) -> (r: String)
    ensures
        r@ == json_quoted(s@),
        json_string_value(r@) == Some(s@),
        r@[0] == '"',
        r@[r@.len() - 1] == '"',
        forall|i: int| 0 <= i < r@.len() ==> (#[trigger] r@[i] as u32) >= 0x20,
{
    let cs = chars_of(s);
    let mut out: Vec<char> = Vec::new();
    push_json_quoted(&mut out, &cs);
    assert(out@ =~= json_quoted(s@));
    proof {
        lemma_json_str_round_trip(s@);
    }
    string_from_chars(&out)
}

/// A JSON string literal, or `null`.
pub open spec fn json_or_null(v: Option<&str>) -> Seq<char> {
    match v {
        Some(s) => json_quoted(s@),
        None => "null"@,
    }
}

/// The one-line JSON record of a run.
pub open spec fn json_record_text(
    tool: Seq<char>,
    property: Seq<char>,
    status: Seq<char>,
    metrics: Metrics,
    counterexample: Option<&str>,
    error: Option<&str>,
) -> Seq<char> {
    "{\"status\":"@ + json_quoted(status) + ",\"tests\":"@ + decimal(metrics.inputs as nat)
        + ",\"discards\":0,\"time\":"@ + json_quoted(decimal(metrics.elapsed_us as nat) + "us"@)
        + ",\"counterexample\":"@ + json_or_null(counterexample) + ",\"error\":"@ + json_or_null(
        error,
    ) + ",\"tool\":"@ + json_quoted(tool) + ",\"property\":"@ + json_quoted(property) + "}"@
}

/// Appends a JSON string literal for `v`, or `null`, to `out`.
fn push_json_or_null(out: &mut Vec<char>, v: Option<&str>)
    ensures
        final(out)@ == old(out)@ + json_or_null(v),
{
    match v {
        Some(s) => {
            let cs = chars_of(s);
            push_json_quoted(out, &cs);
        },
        None => {
            push_chars(out, &chars_of("null"));
        },
    }
}

/// The one-line JSON record of a run: its status, the inputs tried, the time in
/// microseconds, the counterexample and error (or `null`), the tool and the
/// property.
pub fn json_record(
    tool: &str,
    property: &str,
    status: &str,
    metrics: Metrics,
    counterexample: Option<&str>,
    error: Option<&str>,
) -> (r: String)
    ensures
        r@ == json_record_text(tool@, property@, status@, metrics, counterexample, error),
{
    let mut out = chars_of("{\"status\":");
    push_json_quoted(&mut out, &chars_of(status));
    push_chars(&mut out, &chars_of(",\"tests\":"));
    push_chars(&mut out, &decimal_chars(metrics.inputs as u128));
    push_chars(&mut out, &chars_of(",\"discards\":0,\"time\":"));
    let mut time = decimal_chars(metrics.elapsed_us);
    push_chars(&mut time, &chars_of("us"));
    push_json_quoted(&mut out, &time);
    push_chars(&mut out, &chars_of(",\"counterexample\":"));
    push_json_or_null(&mut out, counterexample);
    push_chars(&mut out, &chars_of(",\"error\":"));
    push_json_or_null(&mut out, error);
    push_chars(&mut out, &chars_of(",\"tool\":"));
    push_json_quoted(&mut out, &chars_of(tool));
    push_chars(&mut out, &chars_of(",\"property\":"));
    push_json_quoted(&mut out, &chars_of(property));
    push_chars(&mut out, &chars_of("}"));
    string_from_chars(&out)
}

/// How a fuzzing step changes a byte string.
#[derive(Clone, Copy, Debug, PartialEq, Eq)]
pub enum MutationKind {
    FlipBit,
    Push,
    Pop,
    Keep,
}

/// The change that the random choice `op` (in `0..3`) makes to a byte string of
/// length `len` that may grow up to `max_len`: flip a bit, push a byte, or pop
/// the last one, each only where it applies.
pub open spec fn mutation_for(len: int, max_len: int, op: u8) -> MutationKind {
    if op == 0 && len > 0 {
        MutationKind::FlipBit
    } else if op == 1 && len < max_len {
        MutationKind::Push
    } else if len > 0 {
        MutationKind::Pop
    } else {
        MutationKind::Keep
    }
}

/// The change that the random choice `op` makes to a byte string of length
/// `len` that may grow up to `max_len`.
pub fn plan_mutation(len: usize, max_len: usize, op: u8) -> (k: MutationKind)
    ensures
        k == mutation_for(len as int, max_len as int, op),
{
    if op == 0 && len > 0 {
        MutationKind::FlipBit
    } else if op == 1 && len < max_len {
        MutationKind::Push
    } else if len > 0 {
        MutationKind::Pop
    } else {
        MutationKind::Keep
    }
}

/// The part of a split input that a fuzzing step changes.
#[derive(Clone, Copy, Debug, PartialEq, Eq)]
pub enum SplitnPart {
    Haystack,
    Needle,
    Limit,
}

/// The part of a split input that the random choice `op` (in `0..3`) changes:
/// 0 the haystack, 1 the needle, anything else the limit.
pub fn plan_splitn_mutation(op: u8) -> (part: SplitnPart)
    ensures
        part == if op == 0 {
            SplitnPart::Haystack
        } else if op == 1 {
            SplitnPart::Needle
        } else {
            SplitnPart::Limit
        },
{
    if op == 0 {
        SplitnPart::Haystack
    } else if op == 1 {
        SplitnPart::Needle
    } else {
        SplitnPart::Limit
    }
}

/// The next split limit of a fuzzing step: one more, wrapping, modulo 9.
pub fn next_limit(n: u32) -> (m: u32)
    ensures
        m == (if n == u32::MAX {
            0
        } else {
            n + 1
        }) % 9,
{
    n.wrapping_add(1) % 9
}

/// `b` with bit `bit` flipped.
pub fn flip_byte_bit(b: u8, bit: u32) -> (r: u8)
    requires
        bit < 8,
    ensures
        r == b ^ (1u8 << bit),
{
    b ^ (1u8 << bit)
}

/// Flips bit `bit` of the byte at `index`.
pub fn flip_bit(v: &mut Vec<u8>, index: usize, bit: u32)
    requires
        index < old(v)@.len(),
        bit < 8,
    ensures
        final(v)@ == old(v)@.update(index as int, old(v)@[index as int] ^ (1u8 << bit)),
{
    let b = v[index] ^ (1u8 << bit);
    v.set(index, b);
}

} // verus!
