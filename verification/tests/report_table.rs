use bindermap::report::{assemble_report, AidlTrace, DebugEntry, Report, Unmapped};
use bindermap::trace::Mapping;

fn mapping(aidl: &str, class: &str, method: &str, hops: usize, jar: &str) -> Mapping {
    Mapping {
        aidl: aidl.into(),
        public_class: class.into(),
        method: method.into(),
        desc: "()V".into(),
        hops,
        jar: jar.into(),
    }
}

fn key(m: &Mapping) -> (String, String, String, usize) {
    (m.aidl.clone(), m.public_class.clone(), m.method.clone(), m.hops)
}

fn traced(fqn: &str, has_callers: bool, mappings: Vec<Mapping>) -> AidlTrace {
    AidlTrace { fqn: fqn.into(), mapped: !mappings.is_empty(), has_callers, path: format!("path of {fqn}\n"), mappings }
}

#[test]
fn report_dedups_and_sorts_mappings() {
    let traces = vec![
        traced("b.I.f", true, vec![mapping("b.I.f", "android.Z", "z", 2, "j"), mapping("b.I.f", "android.A", "a", 3, "j")]),
        traced("a.I.g", true, vec![mapping("a.I.g", "android.A", "a", 1, "j")]),
        // the same line from another trace is reported once.
        traced("b.I.f", true, vec![mapping("b.I.f", "android.Z", "z", 2, "j"), mapping("b.I.f", "android.A", "a", 2, "j")]),
    ];
    let r = assemble_report(traces);
    assert_eq!(
        r.mappings.iter().map(key).collect::<Vec<_>>(),
        vec![
            ("a.I.g".to_string(), "android.A".to_string(), "a".to_string(), 1),
            ("b.I.f".to_string(), "android.A".to_string(), "a".to_string(), 2),
            ("b.I.f".to_string(), "android.A".to_string(), "a".to_string(), 3),
            ("b.I.f".to_string(), "android.Z".to_string(), "z".to_string(), 2),
        ]
    );
    assert!(r.unmapped.is_empty());
    assert_eq!(r.debug.iter().map(|d| d.fqn.as_str()).collect::<Vec<_>>(), vec!["a.I.g", "b.I.f", "b.I.f"]);
}

#[test]
fn hops_and_jar_break_ties() {
    let traces = vec![traced("x.I.f", true, vec![
        mapping("x.I.f", "android.A", "a", 10, "b.jar"),
        mapping("x.I.f", "android.A", "a", 9, "b.jar"),
        mapping("x.I.f", "android.A", "a", 9, "a.jar"),
    ])];
    let r = assemble_report(traces);
    assert_eq!(
        r.mappings.iter().map(|m| (m.hops, m.jar.as_str())).collect::<Vec<_>>(),
        vec![(9, "a.jar"), (9, "b.jar"), (10, "b.jar")]
    );
}

#[test]
fn unmapped_methods_carry_their_reason() {
    let traces = vec![
        traced("z.I.none", false, vec![]),
        traced("a.I.some", true, vec![]),
        traced("m.I.ok", true, vec![mapping("m.I.ok", "android.A", "a", 1, "j")]),
    ];
    let r = assemble_report(traces);
    assert_eq!(
        r.unmapped.iter().map(|u| (u.aidl.as_str(), u.reason.as_str())).collect::<Vec<_>>(),
        vec![("a.I.some", "NO_PUBLIC_PATH"), ("z.I.none", "NO_CALLERS_FOUND")]
    );
    assert_eq!(
        r.debug.iter().map(|d| (d.fqn.as_str(), d.mapped)).collect::<Vec<_>>(),
        vec![("a.I.some", false), ("m.I.ok", true), ("z.I.none", false)]
    );
}

#[test]
fn strings_order_by_code_point() {
    let traces = vec![traced("x", true, vec![
        mapping("x", "android.b", "m", 1, "j"),
        mapping("x", "android.B", "m", 1, "j"),
        mapping("x", "android.Ba", "m", 1, "j"),
        mapping("x", "android.\u{e9}", "m", 1, "j"),
    ])];
    let r = assemble_report(traces);
    assert_eq!(
        r.mappings.iter().map(|m| m.public_class.as_str()).collect::<Vec<_>>(),
        vec!["android.B", "android.Ba", "android.b", "android.\u{e9}"]
    );
}

#[test]
fn empty_report() {
    let r = assemble_report(Vec::new());
    assert!(r.mappings.is_empty() && r.unmapped.is_empty() && r.debug.is_empty());
    assert_eq!(r.debug_log(), "");
    assert_eq!(r.mapping_rows(), vec![vec!["BINDER_INTERFACE_METHOD", "PUBLIC_API_CLASS", "METHOD", "DESC", "HOPS", "JAR"]]);
    assert_eq!(r.unmapped_rows(), vec![vec!["AIDL_METHOD", "REASON"]]);
}

#[test]
fn rows_and_debug_log() {
    let r = Report {
        mappings: vec![mapping("a.I.f", "android.A", "run", 12, "fw.jar")],
        unmapped: vec![Unmapped { aidl: "a.I.g".into(), reason: "NO_CALLERS_FOUND".into() }],
        debug: vec![
            DebugEntry { fqn: "a.I.f".into(), mapped: true, path: "      0. a.I.f\n".into() },
            DebugEntry { fqn: "a.I.g".into(), mapped: false, path: "      0. a.I.g\n      [DEAD_END]\n".into() },
        ],
    };
    assert_eq!(
        r.mapping_rows(),
        vec![
            vec!["BINDER_INTERFACE_METHOD", "PUBLIC_API_CLASS", "METHOD", "DESC", "HOPS", "JAR"],
            vec!["a.I.f", "android.A", "run", "()V", "12", "fw.jar"],
        ]
    );
    assert_eq!(r.unmapped_rows(), vec![vec!["AIDL_METHOD", "REASON"], vec!["a.I.g", "NO_CALLERS_FOUND"]]);
    assert_eq!(
        r.debug_log(),
        "[MAPPED] a.I.f\n    PATH:\n      0. a.I.f\n\n[UNMAPPED] a.I.g\n    PATH:\n      0. a.I.g\n      [DEAD_END]\n\n"
    );
}
