use bindermap::dex::{Class, Method, MethodRef, ACC_INTERFACE, ACC_SYNTHETIC};
use bindermap::graph::Index;
use bindermap::trace::{enclosing, is_server_stub, trace, MAX_HOPS};

fn mref(owner: &str, name: &str, desc: &str) -> MethodRef {
    MethodRef { owner: owner.into(), name: name.into(), desc: desc.into() }
}

fn class(name: &str, super_name: Option<&str>, interfaces: &[&str], access: u32, methods: Vec<Method>, jar: &str) -> Class {
    Class {
        name: name.into(),
        super_name: super_name.map(|s| s.to_string()),
        interfaces: interfaces.iter().map(|s| s.to_string()).collect(),
        access,
        methods,
        jar: jar.into(),
    }
}

fn method(name: &str, invokes: Vec<MethodRef>) -> Method {
    Method { name: name.into(), desc: "()V".into(), invokes }
}

#[test]
fn server_stub_detection() {
    assert!(is_server_stub("com/x/IFoo$Stub"));
    assert!(!is_server_stub("com/x/IFoo$Stub$Proxy"));
    assert!(!is_server_stub("com/x/Foo"));
}

#[test]
fn enclosing_class() {
    assert_eq!(enclosing("com/x/Outer$Inner").as_deref(), Some("com/x/Outer"));
    assert_eq!(enclosing("com/x/Outer"), None);
    // D8 synthetic lambda: enclosing is the type before `$$`, not `com/x/Outer$`.
    assert_eq!(enclosing("com/x/Outer$$ExternalSyntheticLambda0").as_deref(), Some("com/x/Outer"));
}

#[test]
fn stub_and_enclosing_edge_cases() {
    assert!(is_server_stub("com/x/IFoo$Stub$Default"));
    assert!(!is_server_stub("com/x/IFoo$Stubborn"));
    assert_eq!(enclosing("a/B$C$D").as_deref(), Some("a/B$C"));
    assert_eq!(enclosing("a/B$$X$$Y").as_deref(), Some("a/B"));
    assert_eq!(enclosing("$").as_deref(), Some(""));
}

/// IFoo.doThing is reached from the public PublicApi.publicEntry through
/// Helper.step; the server IFoo$Stub.onTransact also calls it and is skipped.
fn scenario() -> Index {
    let do_thing = mref("com/example/IFoo", "doThing", "()V");
    let classes = vec![
        class("com/example/IFoo", Some("java/lang/Object"), &["android/os/IInterface"], ACC_INTERFACE,
              vec![method("doThing", vec![])], "svc.jar"),
        class("com/example/IFoo$Stub", Some("android/os/Binder"), &["com/example/IFoo"], 0,
              vec![method("onTransact", vec![do_thing.clone()])], "svc.jar"),
        class("com/example/Helper", Some("java/lang/Object"), &[], 0,
              vec![method("step", vec![do_thing.clone()])], "svc.jar"),
        class("android/app/PublicApi", Some("java/lang/Object"), &[], 0,
              vec![method("publicEntry", vec![mref("com/example/Helper", "step", "()V")])], "fw.jar"),
        class("android/app/Other", Some("java/lang/Object"), &[], 0,
              vec![method("viaStub", vec![mref("com/example/IFoo$Stub", "onTransact", "()V")])], "fw.jar"),
    ];
    Index::build(classes, vec![
        "android/app/PublicApi.publicEntry()V".to_string(),
        "android/app/Other.viaStub()V".to_string(),
    ])
}

#[test]
fn traces_to_the_public_caller_through_a_helper() {
    let idx = scenario();
    let t = trace(&idx, &mref("com/example/IFoo", "doThing", "()V"), false);
    assert!(t.mapped);
    assert_eq!(t.mappings.len(), 1);
    let m = &t.mappings[0];
    assert_eq!(m.aidl, "com.example.IFoo.doThing");
    assert_eq!(m.public_class, "android.app.PublicApi");
    assert_eq!(m.method, "publicEntry");
    assert_eq!(m.desc, "()V");
    assert_eq!(m.hops, 2);
    assert_eq!(m.jar, "fw.jar");
    assert_eq!(
        t.path,
        "      0. com.example.IFoo.doThing [svc.jar]\n\
         \x20       1. com.example.Helper.step [svc.jar]\n\
         \x20         2. android.app.PublicApi.publicEntry [fw.jar]\n"
    );
}

#[test]
fn no_callers_is_a_dead_end() {
    let idx = scenario();
    let t = trace(&idx, &mref("com/example/Nowhere", "f", "()V"), true);
    assert!(!t.mapped);
    assert!(t.mappings.is_empty());
    assert_eq!(t.path, "      0. com.example.Nowhere.f\n      [DEAD_END]\n");
}

#[test]
fn the_start_itself_can_be_public() {
    let idx = scenario();
    let t = trace(&idx, &mref("android/app/PublicApi", "publicEntry", "()V"), false);
    assert_eq!(t.mappings.len(), 1);
    assert_eq!(t.mappings[0].hops, 0);
    assert_eq!(t.path, "      0. android.app.PublicApi.publicEntry [fw.jar]\n");
}

#[test]
fn all_paths_keeps_walking_past_a_hit() {
    // A -> B -> T, with A and B both public: fast mode stops at B, every-path
    // mode also records A.
    let t_ref = mref("android/app/T", "t", "()V");
    let classes = vec![
        class("android/app/B", None, &[], 0, vec![method("b", vec![t_ref.clone()])], "fw.jar"),
        class("android/app/A", None, &[], 0, vec![method("a", vec![mref("android/app/B", "b", "()V")])], "fw.jar"),
    ];
    let public = vec!["android/app/A.a()V".to_string(), "android/app/B.b()V".to_string()];
    let idx = Index::build(classes, public);
    let fast = trace(&idx, &t_ref, false);
    assert_eq!(fast.mappings.iter().map(|m| (m.method.as_str(), m.hops)).collect::<Vec<_>>(), vec![("b", 1)]);
    let all = trace(&idx, &t_ref, true);
    assert_eq!(all.mappings.iter().map(|m| (m.method.as_str(), m.hops)).collect::<Vec<_>>(), vec![("b", 1), ("a", 2)]);
    // the debug path is that of the first hit either way.
    assert_eq!(fast.path, all.path);
}

#[test]
fn override_hit_maps_to_the_public_parent() {
    // Svc.onCmd overrides the public Base.onCmd and calls the AIDL method.
    let target = mref("com/x/IFoo", "doThing", "()V");
    let classes = vec![
        class("android/x/Base", None, &[], 0, vec![method("onCmd", vec![])], "fw.jar"),
        class("com/acme/Svc", Some("android/x/Base"), &[], 0, vec![method("onCmd", vec![target.clone()])], "svc.jar"),
    ];
    let idx = Index::build(classes, vec!["android/x/Base.onCmd()V".to_string()]);
    let t = trace(&idx, &target, false);
    assert_eq!(t.mappings.len(), 1);
    let m = &t.mappings[0];
    assert_eq!((m.public_class.as_str(), m.method.as_str(), m.hops, m.jar.as_str()), ("android.x.Base", "onCmd", 1, "svc.jar"));
    assert_eq!(
        t.path,
        "      0. com.x.IFoo.doThing\n\
         \x20       1. com.acme.Svc.onCmd [svc.jar]\n\
         \x20     -> [VIRTUAL] android.x.Base.onCmd\n"
    );
}

#[test]
fn lambda_bridges_to_its_construction_site() {
    // The synthetic lambda's run() has no callers; its constructor is called
    // by the public Api.go(), so the lambda is attributed to Api.go().
    let target = mref("com/x/IFoo", "doThing", "()V");
    let lam = "com/acme/Impl$$ExternalSyntheticLambda0";
    let classes = vec![
        class(lam, None, &["java/lang/Runnable"], ACC_SYNTHETIC,
              vec![Method { name: "<init>".into(), desc: "(I)V".into(), invokes: vec![] }, method("run", vec![target.clone()])], "svc.jar"),
        class("android/app/Api", None, &[], 0, vec![method("go", vec![mref(lam, "<init>", "(I)V")])], "fw.jar"),
    ];
    let idx = Index::build(classes, vec!["android/app/Api.go()V".to_string()]);
    let t = trace(&idx, &target, false);
    assert_eq!(t.mappings.len(), 1);
    assert_eq!((t.mappings[0].method.as_str(), t.mappings[0].hops), ("go", 2));
}

#[test]
fn inner_class_bridges_to_its_enclosing_class() {
    // Outer$Inner.f calls the AIDL method; the public Outer.f is reached at no
    // hop cost. A bridge to a class that was not loaded is not taken.
    let target = mref("com/x/IFoo", "doThing", "()V");
    let classes = vec![
        class("android/app/Outer$Inner", None, &[], 0, vec![method("f", vec![target.clone()])], "fw.jar"),
        class("android/app/Outer", None, &[], 0, vec![method("f", vec![])], "fw.jar"),
    ];
    let idx = Index::build(classes, vec!["android/app/Outer.f()V".to_string()]);
    let t = trace(&idx, &target, false);
    assert_eq!(t.mappings.len(), 1);
    assert_eq!((t.mappings[0].public_class.as_str(), t.mappings[0].hops), ("android.app.Outer", 1));
}

#[test]
fn search_stops_past_the_hop_bound() {
    // A chain of MAX_HOPS + 1 callers: the public method at the far end is one
    // hop too many.
    let n = MAX_HOPS + 1;
    let mut classes = Vec::new();
    for i in 0..n {
        let callee = if i == 0 { mref("a/T", "t", "()V") } else { mref(&format!("android/app/C{}", i - 1), "f", "()V") };
        classes.push(class(&format!("android/app/C{i}"), None, &[], 0, vec![method("f", vec![callee])], "fw.jar"));
    }
    let far = format!("android/app/C{}.f()V", n - 1);
    let near = format!("android/app/C{}.f()V", n - 2);
    let idx = Index::build(classes.clone(), vec![far]);
    let t = trace(&idx, &mref("a/T", "t", "()V"), false);
    assert!(!t.mapped);
    assert!(t.path.ends_with("      [DEAD_END]\n"));
    let idx = Index::build(classes, vec![near]);
    let t = trace(&idx, &mref("a/T", "t", "()V"), false);
    assert_eq!(t.mappings.len(), 1);
    assert_eq!(t.mappings[0].hops, MAX_HOPS);
}

#[test]
fn internal_namespaces_are_never_hits() {
    let target = mref("com/x/IFoo", "doThing", "()V");
    let classes = vec![
        class("com/android/internal/H", None, &[], 0, vec![method("h", vec![target.clone()])], "fw.jar"),
    ];
    let idx = Index::build(classes, vec!["com/android/internal/H.h()V".to_string()]);
    let t = trace(&idx, &target, true);
    assert!(!t.mapped);
    assert_eq!(
        t.path,
        "      0. com.x.IFoo.doThing\n\
         \x20       1. com.android.internal.H.h [fw.jar]\n      [DEAD_END]\n"
    );
}

#[test]
fn tracing_twice_gives_the_same_result() {
    let idx = scenario();
    for all_paths in [false, true] {
        let a = trace(&idx, &mref("com/example/IFoo", "doThing", "()V"), all_paths);
        let b = trace(&idx, &mref("com/example/IFoo", "doThing", "()V"), all_paths);
        assert_eq!(a.mapped, b.mapped);
        assert_eq!(a.path, b.path);
        assert_eq!(
            a.mappings.iter().map(|m| (m.public_class.clone(), m.method.clone(), m.hops)).collect::<Vec<_>>(),
            b.mappings.iter().map(|m| (m.public_class.clone(), m.method.clone(), m.hops)).collect::<Vec<_>>()
        );
    }
}

#[test]
fn aidl_trace_records_name_and_callers() {
    let idx = scenario();
    let a = bindermap::report::trace_aidl(&idx, &mref("com/example/IFoo", "doThing", "()V"), false);
    assert_eq!(a.fqn, "com.example.IFoo.doThing");
    assert!(a.has_callers);
    assert!(a.mapped);
    assert_eq!(a.mappings.len(), 1);
    let b = bindermap::report::trace_aidl(&idx, &mref("com/example/Helper", "unused", "()V"), false);
    assert_eq!(b.fqn, "com.example.Helper.unused");
    assert!(!b.has_callers);
    assert!(!b.mapped);
    assert_eq!(b.path, "      0. com.example.Helper.unused [svc.jar]\n      [DEAD_END]\n");
}

#[test]
fn enclosing_bridge_is_taken_before_longer_callers() {
    // r <- O$I.m <- Z.z <- W.w is 3 hops; r <- O$I.m <- (free) O.m <- W.w is 2.
    let r = mref("com/x/IFoo", "doThing", "()V");
    let classes = vec![
        class("com/android/O$I", None, &[], 0, vec![method("m", vec![r.clone()])], "svc.jar"),
        class("com/android/O", None, &[], 0, vec![], "svc.jar"),
        class("com/android/Z", None, &[], 0, vec![method("z", vec![mref("com/android/O$I", "m", "()V")])], "svc.jar"),
        class("android/app/W", None, &[], 0,
              vec![method("w", vec![mref("com/android/Z", "z", "()V"), mref("com/android/O", "m", "()V")])], "fw.jar"),
    ];
    let idx = Index::build(classes, vec!["android/app/W.w()V".to_string()]);
    let t = trace(&idx, &r, false);
    assert_eq!(t.mappings.len(), 1);
    assert_eq!(t.mappings[0].public_class, "android.app.W");
    assert_eq!(t.mappings[0].hops, 2);
    assert_eq!(
        t.path,
        "      0. com.x.IFoo.doThing\n\
         \x20       1. com.android.O$I.m [svc.jar]\n\
         \x20         2. com.android.O.m [svc.jar]\n\
         \x20           3. android.app.W.w [fw.jar]\n"
    );
    // Every path: W.w is seen first at 2 hops and not again at 3.
    let all = trace(&idx, &r, true);
    assert_eq!(all.mappings.iter().map(|m| m.hops).collect::<Vec<_>>(), vec![2]);
}
