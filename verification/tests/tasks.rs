use rayonet::tasks::{
    fnv1a_hex, is_task_call, recover_input_type, task_key, Binding, GenericArg, Literal, Receiver,
    Recovered, Resolution, Rewriter, TaskArg, TypeShape, GIVE_UP_MESSAGE,
};

fn ty(name: &str) -> GenericArg {
    GenericArg::Type(name.to_string())
}

fn bind(name: &str, shape: TypeShape) -> Binding {
    Binding {
        name: name.to_string(),
        ty: shape,
    }
}

fn vec_of(name: &str) -> TypeShape {
    TypeShape::Generic(vec![ty(name)])
}

fn lit(suffix: &str) -> Option<Literal> {
    Some(Literal::Int(suffix.to_string()))
}

fn name(n: &str) -> Receiver {
    Receiver::Name(n.to_string())
}

fn bare() -> Vec<Option<String>> {
    vec![None]
}

fn annotated(t: &str) -> Vec<Option<String>> {
    vec![Some(t.to_string())]
}

#[test]
fn recover_explicit_annotation_wins() {
    let recovered = recover_input_type(&annotated("u32"), &Receiver::Other, &vec![]);
    assert_eq!(recovered, Recovered::Annotated("u32".to_string()));
}

#[test]
fn recover_typed_binding_in_scope() {
    let bindings = vec![bind("values", vec_of("u32"))];
    let recovered = recover_input_type(&bare(), &name("values"), &bindings);
    assert_eq!(recovered, Recovered::Binding("u32".to_string()));
}

#[test]
fn recover_literal_receiver() {
    let receiver = Receiver::VecMacro(lit("u32"));
    let recovered = recover_input_type(&bare(), &receiver, &vec![]);
    assert_eq!(recovered, Recovered::Receiver("u32".to_string()));
}

#[test]
fn recover_range_receiver() {
    // Parenthesised, as it appears in source: `(0..3u32).net_map(..)`.
    let receiver = Receiver::Paren(Box::new(Receiver::Range(lit(""), lit("u32"))));
    let recovered = recover_input_type(&bare(), &receiver, &vec![]);
    assert_eq!(recovered, Recovered::Receiver("u32".to_string()));
}

#[test]
fn recover_gives_up_on_opaque_receiver() {
    let recovered = recover_input_type(&bare(), &Receiver::Other, &vec![]);
    assert_eq!(recovered, Recovered::GiveUp);
}

#[test]
fn recover_annotation_beats_inferable_receiver() {
    let bindings = vec![bind("values", vec_of("u32"))];
    let recovered = recover_input_type(&annotated("i64"), &name("values"), &bindings);
    assert_eq!(recovered, Recovered::Annotated("i64".to_string()));
}

#[test]
fn recover_gives_up_on_a_multi_parameter_closure() {
    let recovered = recover_input_type(&vec![None, None], &Receiver::Other, &vec![]);
    assert_eq!(recovered, Recovered::GiveUp);
}

#[test]
fn recover_gives_up_when_the_binding_is_not_a_container() {
    let bindings = vec![bind("scalar", TypeShape::Plain)];
    assert_eq!(
        recover_input_type(&bare(), &name("scalar"), &bindings),
        Recovered::GiveUp
    );
    assert_eq!(
        recover_input_type(&bare(), &name("scalar"), &vec![]),
        Recovered::GiveUp
    );
}

#[test]
fn recover_gives_up_when_the_binding_type_is_not_a_path() {
    // A tuple-typed binding has no single element to recover.
    let bindings = vec![bind("pair", TypeShape::Plain)];
    assert_eq!(
        recover_input_type(&bare(), &name("pair"), &bindings),
        Recovered::GiveUp
    );
}

#[test]
fn recover_gives_up_on_unreadable_receivers() {
    for receiver in [
        Receiver::Other,
        Receiver::Paren(Box::new(Receiver::Range(
            Some(Literal::Other),
            Some(Literal::Other),
        ))),
        Receiver::VecMacro(Some(Literal::Other)),
    ] {
        assert_eq!(
            recover_input_type(&bare(), &receiver, &vec![]),
            Recovered::GiveUp
        );
    }
}

#[test]
fn recover_skips_a_lifetime_generic_argument() {
    let bindings = vec![bind(
        "text",
        TypeShape::Generic(vec![GenericArg::Other, ty("u32")]),
    )];
    assert_eq!(
        recover_input_type(&bare(), &name("text"), &bindings),
        Recovered::Binding("u32".to_string())
    );
}

#[test]
fn a_later_binding_shadows_an_earlier_one() {
    let bindings = vec![bind("v", vec_of("u8")), bind("v", vec_of("u64"))];
    assert_eq!(
        recover_input_type(&bare(), &name("v"), &bindings),
        Recovered::Binding("u64".to_string())
    );
}

#[test]
fn key_is_identical_for_call_site_and_register() {
    let mut rewriter = Rewriter::new("scope");
    let task = TaskArg::Closure(annotated("u32"));
    let rewrite = rewriter
        .on_call("net_map", 1, &task, "| x : u32 | x * 2", &Receiver::Other)
        .unwrap();
    assert_eq!(
        rewrite.key,
        task_key("scope", None, "| x : u32 | x * 2", 0)
    );
}

#[test]
fn keys_hash_their_tokens() {
    // The published FNV-1a vectors for the empty text, `a`, and `foobar`.
    assert_eq!(fnv1a_hex(""), "cbf29ce484222325");
    assert_eq!(fnv1a_hex("a"), "af63dc4c8601ec8c");
    assert_eq!(fnv1a_hex("foobar"), "85944171f73967e8");
    assert_eq!(
        task_key("run", Some("double"), "foobar", 3),
        "run::double#85944171f73967e8"
    );
    assert_eq!(
        task_key("run", None, "foobar", 3),
        "run::task#3#85944171f73967e8"
    );
}

#[test]
fn expand_rewrites_single_annotated_call() {
    let mut rewriter = Rewriter::new("run");
    let task = TaskArg::Closure(annotated("u32"));
    let rewrite = rewriter
        .on_call("net_map_with_fleet", 2, &task, "t", &Receiver::Other)
        .unwrap();
    assert_eq!(rewrite.terminal, "net_map_task_with_fleet");
    assert!(rewrite.key.contains("run::task#0"));
    assert_eq!(rewrite.resolution, Resolution::Verbatim);
    assert_eq!(rewriter.ordinal, 1);
}

#[test]
fn expand_recovers_a_typed_binding() {
    let mut rewriter = Rewriter::new("run");
    rewriter.bind(bind("values", vec_of("u32")));
    let rewrite = rewriter
        .on_call("net_map", 1, &TaskArg::Closure(bare()), "t", &name("values"))
        .unwrap();
    assert_eq!(rewrite.terminal, "net_map_task");
    assert_eq!(rewrite.resolution, Resolution::Annotate("u32".to_string()));
}

#[test]
fn expand_registers_a_named_function() {
    let mut rewriter = Rewriter::new("run");
    let task = TaskArg::Function("double".to_string());
    let rewrite = rewriter
        .on_call("net_map", 1, &task, "double", &Receiver::Other)
        .unwrap();
    assert!(rewrite.key.starts_with("run::double#"));
    assert_eq!(rewrite.resolution, Resolution::Verbatim);
}

#[test]
fn expand_is_idempotent_on_no_netmap_input() {
    let mut rewriter = Rewriter::new("run");
    assert!(rewriter
        .on_call("len", 0, &TaskArg::Other, "", &name("v"))
        .is_none());
    assert_eq!(rewriter.ordinal, 0);
    assert!(is_task_call("net_map", 1));
    assert!(!is_task_call("net_map", 0));
}

#[test]
fn expand_emits_compile_error_on_giveup() {
    let mut rewriter = Rewriter::new("run");
    let rewrite = rewriter
        .on_call("net_map", 1, &TaskArg::Closure(bare()), "t", &Receiver::Other)
        .unwrap();
    assert_eq!(rewrite.resolution, Resolution::CompileError);
    assert!(GIVE_UP_MESSAGE.starts_with("rayonette: annotate the closure's input type"));
}

#[test]
fn equal_closures_at_two_call_sites_get_two_keys() {
    let mut rewriter = Rewriter::new("run");
    let task = TaskArg::Closure(annotated("u32"));
    let keys: Vec<String> = (0..11)
        .map(|_| {
            rewriter
                .on_call("net_map", 1, &task, "same", &Receiver::Other)
                .unwrap()
                .key
        })
        .collect();
    for (i, key) in keys.iter().enumerate() {
        assert!(!keys[..i].contains(key));
    }
    assert!(keys[10].starts_with("run::task#10#"));
}

#[test]
fn only_a_binding_in_scope_gives_a_type() {
    // { let v: Vec<u32> = a(); v.net_map(|x| x); } let v = b(); v.net_map(|x| x);
    let closure = TaskArg::Closure(bare());
    let mut rewriter = Rewriter::new("run");
    rewriter.enter();
    rewriter.bind(bind("v", vec_of("u32")));
    let inside = rewriter
        .on_call("net_map", 1, &closure, "| x | x", &name("v"))
        .unwrap();
    assert_eq!(inside.resolution, Resolution::Annotate("u32".to_string()));
    rewriter.leave();
    let between = rewriter
        .on_call("net_map", 1, &closure, "| x | x", &name("v"))
        .unwrap();
    assert_eq!(between.resolution, Resolution::CompileError);
    rewriter.shadow("v".to_string());
    let after = rewriter
        .on_call("net_map", 1, &closure, "| x | x", &name("v"))
        .unwrap();
    assert_eq!(after.resolution, Resolution::CompileError);
}

#[test]
fn an_untyped_binding_hides_until_its_block_ends() {
    let closure = TaskArg::Closure(bare());
    let mut rewriter = Rewriter::new("run");
    rewriter.bind(bind("v", vec_of("u32")));
    rewriter.enter();
    rewriter.shadow("v".to_string());
    let hidden = rewriter
        .on_call("net_map", 1, &closure, "| x | x", &name("v"))
        .unwrap();
    assert_eq!(hidden.resolution, Resolution::CompileError);
    rewriter.leave();
    let seen = rewriter
        .on_call("net_map", 1, &closure, "| x | x", &name("v"))
        .unwrap();
    assert_eq!(seen.resolution, Resolution::Annotate("u32".to_string()));
    // No block is open: nothing ends.
    rewriter.leave();
    assert_eq!(rewriter.bindings.len(), 1);
}
