use bindermap::dex::{
    hex_after_colon, internal, invoke_target, parse, parse_method_ref, quoted, Class, MethodRef,
    ACC_INTERFACE, ACC_SYNTHETIC,
};

#[test]
fn parses_method_ref() {
    let r = parse_method_ref("Lcom/foo/Bar;.baz:(I)V").unwrap();
    assert_eq!(r.owner, "com/foo/Bar");
    assert_eq!(r.name, "baz");
    assert_eq!(r.desc, "(I)V");
    assert_eq!(r.signature(), "com/foo/Bar.baz(I)V");
    assert_eq!(r.fqn(), "com.foo.Bar.baz");
}

#[test]
fn extracts_invoke_callee() {
    let t = invoke_target("0006: invoke-interface {v0}, Lcom/foo/IBar;.f:(I)V // method@1").unwrap();
    assert_eq!(t.owner, "com/foo/IBar");
    assert_eq!(t.name, "f");
    assert_eq!(t.desc, "(I)V");
    assert!(invoke_target("0002: const/4 v0, #int 0").is_none());
}

#[test]
fn internal_and_hex() {
    assert_eq!(internal(&quoted("descriptor : 'Lcom/foo/Bar;'")), "com/foo/Bar");
    assert_eq!(hex_after_colon(" : 0x0601 (PUBLIC INTERFACE ABSTRACT)"), 0x0601);
}

#[test]
fn parses_class_with_abstract_and_code_methods() {
    // Minimal shape of `dexdump -d`: an interface with an abstract method (no
    // code) and a class whose method has an invoke in its disassembly.
    let text = "\
Class #0            -
  Class descriptor  : 'Lcom/x/IFoo;'
  Access flags      : 0x0601 (PUBLIC INTERFACE ABSTRACT)
  Superclass        : 'Ljava/lang/Object;'
  Interfaces        -
    #0              : 'Landroid/os/IInterface;'
  Static fields     -
  Instance fields   -
  Direct methods    -
  Virtual methods   -
    #0              : (in Lcom/x/IFoo;)
      name          : 'doThing'
      type          : '()V'
      access        : 0x0401 (PUBLIC ABSTRACT)
  source_file_idx   : 1 (IFoo.java)

Class #1            -
  Class descriptor  : 'Lcom/x/Helper;'
  Access flags      : 0x0001 (PUBLIC)
  Superclass        : 'Ljava/lang/Object;'
  Direct methods    -
  Virtual methods   -
    #0              : (in Lcom/x/Helper;)
      name          : 'step'
      type          : '()V'
      access        : 0x0001 (PUBLIC)
      code          -
000100:                                        |[000100] com.x.Helper.step:()V
000110: 6e10 0100 0000                         |0000: invoke-interface {v0}, Lcom/x/IFoo;.doThing:()V // method@0001
000116: 0e00                                   |0003: return-void
";
    let classes = parse(text);
    assert_eq!(classes.len(), 2);
    let ifoo = classes.iter().find(|c| c.name == "com/x/IFoo").unwrap();
    assert!(ifoo.is_interface());
    assert_eq!(ifoo.interfaces, vec!["android/os/IInterface"]);
    assert_eq!(ifoo.methods.iter().map(|m| m.name.as_str()).collect::<Vec<_>>(), vec!["doThing"]);
    let helper = classes.iter().find(|c| c.name == "com/x/Helper").unwrap();
    let step = &helper.methods[0];
    assert_eq!(step.name, "step");
    assert_eq!(step.invokes, vec![MethodRef { owner: "com/x/IFoo".into(), name: "doThing".into(), desc: "()V".into() }]);
}

#[test]
fn decoded_class_fields() {
    let text = "\
  Class descriptor  : 'Lcom/x/Outer$$ExternalSyntheticLambda0;'
  Access flags      : 0x1011 (PUBLIC FINAL SYNTHETIC)
  Superclass        : 'Ljava/lang/Object;'
  Interfaces        -
    #0              : 'Ljava/lang/Runnable;'
    #1              : 'Lcom/x/Cb;'
  Virtual methods   -
      name          : 'run'
      type          : '()V'
";
    let classes = parse(text);
    assert_eq!(classes.len(), 1);
    let c = &classes[0];
    assert_eq!(c.name, "com/x/Outer$$ExternalSyntheticLambda0");
    assert_eq!(c.access, 0x1011);
    assert!(c.is_synthetic());
    assert!(!c.is_interface());
    assert_eq!(c.super_name.as_deref(), Some("java/lang/Object"));
    assert_eq!(c.interfaces, vec!["java/lang/Runnable", "com/x/Cb"]);
    assert_eq!(c.methods.len(), 1);
    assert_eq!(c.methods[0].desc, "()V");
    assert_eq!(c.jar, "");
}

#[test]
fn repeated_invokes_are_kept_once_and_in_order() {
    let text = "\
  Class descriptor  : 'Lcom/x/A;'
  Direct methods    -
      name          : 'f'
      type          : '()V'
0001: |0000: invoke-static {}, Lcom/x/B;.g:()V // method@1
0002: |0003: invoke-static {}, Lcom/x/C;.h:(I)I // method@2
0003: |0006: invoke-static {}, Lcom/x/B;.g:()V // method@1
      name          : 'k'
      type          : '(J)V'
0004: |0000: invoke-virtual {v0}, Lcom/x/B;.g:()V // method@1
";
    let classes = parse(text);
    assert_eq!(classes.len(), 1);
    let ms = &classes[0].methods;
    assert_eq!(ms.len(), 2);
    assert_eq!(
        ms[0].invokes,
        vec![
            MethodRef { owner: "com/x/B".into(), name: "g".into(), desc: "()V".into() },
            MethodRef { owner: "com/x/C".into(), name: "h".into(), desc: "(I)I".into() },
        ]
    );
    assert_eq!(ms[1].invokes, vec![MethodRef { owner: "com/x/B".into(), name: "g".into(), desc: "()V".into() }]);
}

#[test]
fn lines_outside_a_class_and_field_sections_are_ignored() {
    let text = "\
Processing 'x.dex'...
      name          : 'stray'
      type          : '()V'
  Class descriptor  : 'Lcom/x/A;'
  Instance fields   -
      name          : 'count'
      type          : 'I'
0001: |0000: invoke-static {}, Lcom/x/B;.g:()V
";
    let classes = parse(text);
    assert_eq!(classes.len(), 1);
    assert_eq!(classes[0].name, "com/x/A");
    assert!(classes[0].methods.is_empty());
    assert!(parse("").is_empty());
}

#[test]
fn invoke_before_any_method_is_dropped() {
    let text = "\
  Class descriptor  : 'Lcom/x/A;'
  Direct methods    -
0001: |0000: invoke-static {}, Lcom/x/B;.g:()V
";
    let classes = parse(text);
    assert_eq!(classes.len(), 1);
    assert!(classes[0].methods.is_empty());
}

#[test]
fn method_ref_edge_cases() {
    assert!(parse_method_ref("com/foo/Bar;.baz:(I)V").is_none());
    assert!(parse_method_ref("Lcom/foo/Bar.baz:(I)V").is_none());
    assert!(parse_method_ref("Lcom/foo/Bar;.baz(I)V").is_none());
    assert!(parse_method_ref("").is_none());
    let r = parse_method_ref("La/B;.c:").unwrap();
    assert_eq!((r.owner.as_str(), r.name.as_str(), r.desc.as_str()), ("a/B", "c", ""));
    let r = parse_method_ref("La/B;.c:d:e").unwrap();
    assert_eq!(r.desc, "d:e");
    assert!(invoke_target("no colon here").is_none());
    assert!(invoke_target("0001: invoke-static {}").is_none());
    let t = invoke_target("0001: invoke-static {v1, v2}, La/B;.c:()V").unwrap();
    assert_eq!(t.owner, "a/B");
}

#[test]
fn quoted_internal_and_hex_edge_cases() {
    assert_eq!(quoted("no quotes"), "");
    assert_eq!(quoted("a 'b' 'c'"), "b");
    assert_eq!(quoted("open 'only"), "only");
    assert_eq!(internal("  Lcom/x/A;  "), "com/x/A");
    assert_eq!(internal("[I"), "[I");
    assert_eq!(internal("Lno/semicolon"), "Lno/semicolon");
    assert_eq!(hex_after_colon(" : 0x1000"), ACC_SYNTHETIC);
    assert_eq!(hex_after_colon(": 0x0200 (INTERFACE)"), ACC_INTERFACE);
    assert_eq!(hex_after_colon("0x10"), 16);
    assert_eq!(hex_after_colon(" : 0xffffffff"), u32::MAX);
    assert_eq!(hex_after_colon(" : 0x100000000"), 0);
    assert_eq!(hex_after_colon(" : 0x+1f"), 31);
    assert_eq!(hex_after_colon(" : 0xZZ"), 0);
    assert_eq!(hex_after_colon(" : 0x"), 0);
    assert_eq!(hex_after_colon(" : 601"), 0);
    assert_eq!(hex_after_colon(""), 0);
}

#[test]
fn class_flags() {
    let c = Class {
        name: "a/B".into(),
        super_name: None,
        interfaces: vec![],
        access: ACC_INTERFACE | ACC_SYNTHETIC,
        methods: vec![],
        jar: String::new(),
    };
    assert!(c.is_interface());
    assert!(c.is_synthetic());
    let d = Class { access: 0x0001, ..c };
    assert!(!d.is_interface());
    assert!(!d.is_synthetic());
}
