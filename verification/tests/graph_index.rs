use bindermap::dex::{Class, Method, MethodRef, ACC_INTERFACE, ACC_SYNTHETIC};
use bindermap::graph::{is_public_namespace, Index};

const IINTERFACE: &str = "android/os/IInterface";

fn iface(name: &str, supers: &[&str], methods: &[&str]) -> Class {
    Class {
        name: name.into(),
        super_name: Some("java/lang/Object".into()),
        interfaces: supers.iter().map(|s| s.to_string()).collect(),
        access: ACC_INTERFACE,
        methods: methods.iter().map(|m| Method { name: m.to_string(), desc: "()V".into(), invokes: vec![] }).collect(),
        jar: "svc.jar".into(),
    }
}

fn mref(owner: &str, name: &str, desc: &str) -> MethodRef {
    MethodRef { owner: owner.into(), name: name.into(), desc: desc.into() }
}

fn class(name: &str, super_name: Option<&str>, access: u32, methods: Vec<Method>, jar: &str) -> Class {
    Class {
        name: name.into(),
        super_name: super_name.map(|s| s.to_string()),
        interfaces: vec![],
        access,
        methods,
        jar: jar.into(),
    }
}

fn method(name: &str, desc: &str, invokes: Vec<MethodRef>) -> Method {
    Method { name: name.into(), desc: desc.into(), invokes }
}

#[test]
fn discovers_aidl_via_iinterface() {
    let classes = vec![
        iface("com/x/IFoo", &[IINTERFACE], &["doThing", "asBinder", "<clinit>"]),
        // a Stub is a class implementing IFoo — not itself an AIDL interface entry.
        Class { name: "com/x/IFoo$Stub".into(), super_name: Some("android/os/Binder".into()),
                interfaces: vec!["com/x/IFoo".into()], access: 0, methods: vec![], jar: "svc.jar".into() },
    ];
    let idx = Index::build(classes, Vec::new());
    let aidl: Vec<String> = idx.aidl_methods().iter().map(|m| m.name.clone()).collect();
    assert_eq!(aidl, vec!["doThing"]); // asBinder + <clinit> excluded, Stub excluded
}

#[test]
fn reverse_edges_and_public_override() {
    let mut caller = Class {
        name: "com/android/Svc".into(),
        super_name: Some("android/x/Base".into()),
        interfaces: vec![],
        access: 0,
        methods: vec![Method { name: "run".into(), desc: "()V".into(),
            invokes: vec![MethodRef { owner: "com/x/IFoo".into(), name: "doThing".into(), desc: "()V".into() }] }],
        jar: "svc.jar".into(),
    };
    caller.methods.push(Method { name: "onCmd".into(), desc: "()V".into(), invokes: vec![] });
    let base = Class { name: "android/x/Base".into(), super_name: None, interfaces: vec![],
        access: 0, methods: vec![Method { name: "onCmd".into(), desc: "()V".into(), invokes: vec![] }], jar: "fw.jar".into() };
    let public = vec!["android/x/Base.onCmd()V".to_string()];
    let idx = Index::build(vec![caller, base], public);

    let callee = MethodRef { owner: "com/x/IFoo".into(), name: "doThing".into(), desc: "()V".into() };
    let callers = idx.callers(&callee).unwrap();
    assert!(callers.contains(&MethodRef { owner: "com/android/Svc".into(), name: "run".into(), desc: "()V".into() }));

    // Svc.onCmd overrides the public Base.onCmd.
    let svc_oncmd = MethodRef { owner: "com/android/Svc".into(), name: "onCmd".into(), desc: "()V".into() };
    assert_eq!(idx.public_override(&svc_oncmd).map(|p| p.owner.clone()), Some("android/x/Base".into()));
}

#[test]
fn aidl_through_an_intermediate_interface() {
    let classes = vec![
        iface("com/x/IBase", &[IINTERFACE], &["ping"]),
        iface("com/x/IChild", &["com/x/IBase"], &["<init>", "work", "asBinder"]),
        iface("com/x/IPlain", &["java/lang/Runnable"], &["run"]),
        class("com/x/NotIface", None, 0, vec![method("work", "()V", vec![])], "a.jar"),
    ];
    let idx = Index::build(classes, Vec::new());
    let aidl: Vec<(String, String)> = idx.aidl_methods().iter().map(|m| (m.owner.clone(), m.name.clone())).collect();
    assert_eq!(
        aidl,
        vec![("com/x/IBase".to_string(), "ping".to_string()), ("com/x/IChild".to_string(), "work".to_string())]
    );
}

#[test]
fn callers_are_listed_once_in_first_edge_order() {
    let t = mref("a/T", "t", "()V");
    let classes = vec![
        class("a/A", None, 0, vec![method("x", "()V", vec![t.clone()]), method("y", "()V", vec![t.clone()])], "a.jar"),
        class("a/B", None, 0, vec![method("z", "()V", vec![t.clone()])], "b.jar"),
        // a second class of the same name still contributes its edges.
        class("a/A", None, 0, vec![method("x", "()V", vec![t.clone()])], "c.jar"),
    ];
    let idx = Index::build(classes, Vec::new());
    let callers = idx.callers(&t).unwrap();
    assert_eq!(callers, &vec![mref("a/A", "x", "()V"), mref("a/A", "y", "()V"), mref("a/B", "z", "()V")]);
    assert!(idx.has_callers(&t));
    assert!(idx.callers(&mref("a/A", "x", "()V")).is_none());
    assert!(!idx.has_callers(&mref("a/A", "x", "()V")));
}

#[test]
fn class_facts_come_from_the_first_class_of_a_name() {
    let classes = vec![
        class("a/L$$Lambda0", None, ACC_SYNTHETIC, vec![method("<init>", "(I)V", vec![]), method("run", "()V", vec![])], "x.jar"),
        class("a/L$$Lambda0", None, 0, vec![], "y.jar"),
        class("a/Maker", None, 0, vec![method("make", "()V", vec![mref("a/L$$Lambda0", "<init>", "(I)V")])], "x.jar"),
    ];
    let idx = Index::build(classes, Vec::new());
    assert_eq!(idx.jar("a/L$$Lambda0"), "x.jar");
    assert_eq!(idx.jar("a/Missing"), "UNKNOWN");
    assert!(idx.has_class("a/Maker"));
    assert!(!idx.has_class("a/Missing"));
    assert!(idx.is_synthetic("a/L$$Lambda0"));
    assert!(!idx.is_synthetic("a/Maker"));
    assert!(!idx.is_synthetic("a/Missing"));
    assert_eq!(idx.constructor_callers("a/L$$Lambda0"), vec![mref("a/Maker", "make", "()V")]);
    assert!(idx.constructor_callers("a/Maker").is_empty());
    assert!(idx.constructor_callers("a/Missing").is_empty());
}

#[test]
fn public_methods_and_overrides_need_a_public_namespace() {
    let classes = vec![
        class("android/app/Base", None, 0, vec![method("f", "()V", vec![])], "fw.jar"),
        class("com/android/internal/Hidden", Some("android/app/Base"), 0, vec![method("f", "()V", vec![]), method("g", "()V", vec![])], "fw.jar"),
        class("com/acme/Impl", Some("com/android/internal/Hidden"), 0, vec![method("f", "()V", vec![]), method("g", "()V", vec![])], "svc.jar"),
        class("com/acme/NoDecl", Some("android/app/Base"), 0, vec![], "svc.jar"),
    ];
    let public = vec![
        "android/app/Base.f()V".to_string(),
        "com/android/internal/Hidden.g()V".to_string(),
        "com/android/internal/Hidden.f()V".to_string(),
    ];
    let idx = Index::build(classes, public);
    assert!(idx.is_public(&mref("android/app/Base", "f", "()V")));
    assert!(!idx.is_public(&mref("com/android/internal/Hidden", "g", "()V")));
    assert!(!idx.is_public(&mref("com/acme/Impl", "f", "()V")));
    // f is overridden through the internal class up to the public Base.
    assert_eq!(idx.public_override(&mref("com/acme/Impl", "f", "()V")), Some(mref("android/app/Base", "f", "()V")));
    // g is public only in an internal namespace.
    assert_eq!(idx.public_override(&mref("com/acme/Impl", "g", "()V")), None);
    // a method the class does not declare overrides nothing.
    assert_eq!(idx.public_override(&mref("com/acme/NoDecl", "f", "()V")), None);
    assert_eq!(idx.public_override(&mref("com/acme/Missing", "f", "()V")), None);
}

#[test]
fn public_namespaces() {
    assert!(is_public_namespace("android/app/ActivityManager"));
    assert!(is_public_namespace("com/android/server/Foo"));
    assert!(!is_public_namespace("android/os/Binder"));
    assert!(!is_public_namespace("android/os/BinderProxy"));
    assert!(!is_public_namespace("com/android/internal/os/Foo"));
    assert!(!is_public_namespace("java/lang/Object"));
    assert!(!is_public_namespace("androidx/core/Foo"));
    assert!(is_public_namespace("android/os/Bundle"));
}
