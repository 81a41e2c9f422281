use sig_registry::registry::SignatureRegistry;
use sig_registry::registry::VMSharedSignatureIndex;
use sig_registry::signature::CallConv;
use sig_registry::signature::Signature;
use sig_registry::signature::ValueType;

fn sig(params: Vec<ValueType>, returns: Vec<ValueType>, call_conv: CallConv) -> Signature {
    Signature { params, returns, call_conv }
}

fn sig_a() -> Signature {
    sig(
        vec![ValueType::I32, ValueType::I32],
        vec![ValueType::I32],
        CallConv::Fast,
    )
}

fn sig_b() -> Signature {
    sig(vec![ValueType::I64], vec![], CallConv::Fast)
}

#[test]
fn scenario_two_instances() {
    let mut r = SignatureRegistry::new();
    assert_eq!(r.register(&sig_a()).unwrap(), VMSharedSignatureIndex(0));
    assert_eq!(r.register(&sig_b()).unwrap(), VMSharedSignatureIndex(1));
    assert_eq!(r.register(&sig_a()).unwrap(), VMSharedSignatureIndex(0));
    assert_eq!(r.register(&sig_b()).unwrap(), VMSharedSignatureIndex(1));

    let mut r2 = SignatureRegistry::new();
    assert_eq!(r2.register(&sig_b()).unwrap(), VMSharedSignatureIndex(0));
}

#[test]
fn idempotence_returns_identical_handle() {
    let mut r = SignatureRegistry::new();
    let d = sig(
        vec![ValueType::F64, ValueType::FuncRef],
        vec![ValueType::V128],
        CallConv::SystemV,
    );
    let first = r.register(&d).unwrap();
    let second = r.register(&d).unwrap();
    assert_eq!(first, second);
}

#[test]
fn separately_constructed_equal_descriptors_share_a_handle() {
    let mut r = SignatureRegistry::new();
    let one = sig(
        vec![ValueType::I32, ValueType::ExternRef],
        vec![ValueType::I64],
        CallConv::Cold,
    );
    let mut params = Vec::new();
    params.push(ValueType::I32);
    params.push(ValueType::ExternRef);
    let mut returns = Vec::new();
    returns.push(ValueType::I64);
    let other = sig(params, returns, CallConv::Cold);
    assert_eq!(r.register(&one).unwrap(), r.register(&other).unwrap());
}

#[test]
fn changed_param_type_gets_a_new_handle() {
    let mut r = SignatureRegistry::new();
    let base = sig(
        vec![ValueType::I32, ValueType::I32],
        vec![ValueType::I32],
        CallConv::Fast,
    );
    let changed = sig(
        vec![ValueType::I32, ValueType::I64],
        vec![ValueType::I32],
        CallConv::Fast,
    );
    assert_ne!(r.register(&base).unwrap(), r.register(&changed).unwrap());
}

#[test]
fn changed_return_list_gets_a_new_handle() {
    let mut r = SignatureRegistry::new();
    let base = sig(vec![ValueType::I32], vec![ValueType::I32], CallConv::Fast);
    let changed = sig(vec![ValueType::I32], vec![], CallConv::Fast);
    assert_ne!(r.register(&base).unwrap(), r.register(&changed).unwrap());
}

#[test]
fn changed_call_conv_gets_a_new_handle() {
    let mut r = SignatureRegistry::new();
    let base = sig(vec![ValueType::I32], vec![ValueType::I32], CallConv::Fast);
    let changed = sig(
        vec![ValueType::I32],
        vec![ValueType::I32],
        CallConv::WindowsFastcall,
    );
    assert_ne!(r.register(&base).unwrap(), r.register(&changed).unwrap());
}

#[test]
fn param_order_is_significant() {
    let mut r = SignatureRegistry::new();
    let one = sig(
        vec![ValueType::I32, ValueType::I64],
        vec![],
        CallConv::Fast,
    );
    let other = sig(
        vec![ValueType::I64, ValueType::I32],
        vec![],
        CallConv::Fast,
    );
    assert_ne!(r.register(&one).unwrap(), r.register(&other).unwrap());
}

#[test]
fn params_and_returns_are_not_interchangeable() {
    let mut r = SignatureRegistry::new();
    let one = sig(vec![ValueType::I32], vec![], CallConv::Fast);
    let other = sig(vec![], vec![ValueType::I32], CallConv::Fast);
    assert_ne!(r.register(&one).unwrap(), r.register(&other).unwrap());
}

#[test]
fn handles_are_dense_and_unique() {
    let mut r = SignatureRegistry::new();
    let distinct = vec![
        sig(vec![], vec![], CallConv::Fast),
        sig(vec![ValueType::I32], vec![], CallConv::Fast),
        sig(vec![ValueType::I64], vec![], CallConv::Fast),
        sig(vec![ValueType::F32], vec![], CallConv::Fast),
        sig(vec![ValueType::F64], vec![], CallConv::Fast),
    ];
    // Present them out of order and interleaved with repeats.
    let order = vec![2usize, 0, 2, 4, 1, 1, 3, 0, 4];
    for &i in &order {
        r.register(&distinct[i]).unwrap();
    }
    let mut handles = Vec::new();
    for d in &distinct {
        handles.push(r.register(d).unwrap().0);
    }
    // Exactly five handles, each a distinct value in [0, 5).
    let mut seen = vec![false; 5];
    for &h in &handles {
        let h = h as usize;
        assert!(h < 5);
        assert!(!seen[h]);
        seen[h] = true;
    }
    assert!(seen.iter().all(|&s| s));
}

#[test]
fn handles_follow_first_seen_order() {
    let mut r = SignatureRegistry::new();
    let a = sig_a();
    let b = sig_b();
    let handles = vec![
        r.register(&a).unwrap().0,
        r.register(&b).unwrap().0,
        r.register(&a).unwrap().0,
        r.register(&b).unwrap().0,
    ];
    assert_eq!(handles, vec![0, 1, 0, 1]);
}

#[test]
fn instances_number_independently() {
    let mut r = SignatureRegistry::new();
    r.register(&sig_a()).unwrap();
    let in_first = r.register(&sig_b()).unwrap();

    let mut r2 = SignatureRegistry::new();
    let in_second = r2.register(&sig_b()).unwrap();

    assert_eq!(in_first, VMSharedSignatureIndex(1));
    assert_eq!(in_second, VMSharedSignatureIndex(0));
}

#[test]
fn empty_descriptor_registers() {
    let mut r = SignatureRegistry::new();
    let empty = sig(vec![], vec![], CallConv::Fast);
    assert_eq!(r.register(&empty).unwrap(), VMSharedSignatureIndex(0));
    assert_eq!(r.register(&empty).unwrap(), VMSharedSignatureIndex(0));
}

#[test]
fn registry_owns_an_independent_copy() {
    let mut r = SignatureRegistry::new();
    let mut d = sig(vec![ValueType::I32], vec![ValueType::I64], CallConv::Fast);
    let h = r.register(&d).unwrap();

    // Mutating the caller's descriptor must not disturb the stored entry.
    d.params.push(ValueType::I32);
    let h_mutated = r.register(&d).unwrap();
    assert_ne!(h, h_mutated);

    let rebuilt = sig(vec![ValueType::I32], vec![ValueType::I64], CallConv::Fast);
    assert_eq!(r.register(&rebuilt).unwrap(), h);
}

#[test]
fn handles_compare_only_by_value() {
    let h = VMSharedSignatureIndex(3);
    let same = VMSharedSignatureIndex(3);
    let other = VMSharedSignatureIndex(4);
    assert_eq!(h, same);
    assert_ne!(h, other);
}
