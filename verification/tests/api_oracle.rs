use bindermap::api::{is_signature_list, normalize, parse_signature_list, sdk_signatures};
use bindermap::dex::{Class, Method};

#[test]
fn normalizes_owner_form() {
    assert_eq!(normalize("android.content.Context.bindService(Landroid/content/Intent;)Z"),
               "android/content/Context.bindService(Landroid/content/Intent;)Z");
    assert_eq!(normalize("android/content/Context.bindService()Z"),
               "android/content/Context.bindService()Z");
}

#[test]
fn normalize_without_a_method_split() {
    assert_eq!(normalize("a.b.C"), "a/b/C");
    assert_eq!(normalize("run(La.b;)V"), "run(La/b;)V");
    assert_eq!(normalize("f(a.b)"), "f(a/b)");
    assert_eq!(normalize(""), "");
    assert_eq!(normalize("a.b.C.m(La/b/D;)V"), "a/b/C.m(La/b/D;)V");
}

#[test]
fn normalizing_twice_is_normalizing_once() {
    for s in ["android.app.A.f(I)V", "x.y", "g(a.b)", "p.Q.r(", "a.(b"] {
        let once = normalize(s);
        assert_eq!(normalize(&once), once);
    }
}

#[test]
fn signature_list_skips_blanks_and_comments() {
    let text = "# public methods\n\n  android.app.A.f()V  \r\nandroid/app/A.f()V\n\tx/Y.g(I)V\n#x/Z.h()V\n";
    assert_eq!(parse_signature_list(text), vec!["android/app/A.f()V", "x/Y.g(I)V"]);
    assert!(parse_signature_list("").is_empty());
    assert!(parse_signature_list("\n  \n# only comments\n").is_empty());
}

#[test]
fn sdk_signatures_list_every_method_once() {
    let m = |n: &str, d: &str| Method { name: n.into(), desc: d.into(), invokes: vec![] };
    let classes = vec![
        Class { name: "android/app/A".into(), super_name: None, interfaces: vec![], access: 0,
                methods: vec![m("f", "()V"), m("g", "(I)I")], jar: String::new() },
        Class { name: "android/app/B".into(), super_name: None, interfaces: vec![], access: 0,
                methods: vec![], jar: String::new() },
        Class { name: "android/app/A".into(), super_name: None, interfaces: vec![], access: 0,
                methods: vec![m("f", "()V"), m("h", "()V")], jar: String::new() },
    ];
    assert_eq!(sdk_signatures(&classes), vec!["android/app/A.f()V", "android/app/A.g(I)I", "android/app/A.h()V"]);
}

#[test]
fn oracle_kind_follows_the_extension() {
    assert!(is_signature_list("sdk_methods.txt"));
    assert!(is_signature_list("api.list"));
    assert!(!is_signature_list("api.sig"));
    assert!(!is_signature_list("sdk.dex"));
    assert!(!is_signature_list("android.jar"));
    assert!(!is_signature_list("txt"));
    assert!(!is_signature_list(".txt"));
    assert!(!is_signature_list("a.TXT"));
    assert!(!is_signature_list("a.txt.gz"));
}
