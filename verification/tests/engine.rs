use scoped_unify::new;

#[test]
fn lol() {
    let mut sys = new();
    let i = sys.mk_int();

    assert!(sys.eq(i, i));

    let arr = sys.mk_arrow(i, i);

    assert!(!sys.eq(arr, i));
    assert!(sys.eq(arr, arr));
}

#[test]
fn seee() {
    let mut sys = new();
    let v1 = sys.mk_var();
    let mut sys2 = sys.subsystem();
    let v2 = sys2.mk_var();
    sys2.eq(v2, v1);
}

#[test]
fn vars() {
    let mut sys = new();
    let i = sys.mk_int();
    let v1 = sys.mk_var();
    let v2 = sys.mk_var();
    sys.eq(v1, v2);
    sys.eq(i, v1);
    let arr = sys.mk_arrow(i, i);
    assert!(!sys.eq(v2, arr));
}

#[test]
fn reflexivity() {
    let mut sys = new();
    let i = sys.mk_int();
    let v = sys.mk_var();
    let arr = sys.mk_arrow(v, i);
    assert!(sys.eq(i, i));
    assert!(sys.eq(v, v));
    assert!(sys.eq(arr, arr));
}

#[test]
fn symmetry_failure_cases() {
    let mut sys = new();
    let i = sys.mk_int();
    let arr = sys.mk_arrow(i, i);
    assert!(!sys.eq(i, arr));
    assert!(!sys.eq(arr, i));
}

#[test]
fn symmetry_success_cases() {
    let mut sys = new();
    let i1 = sys.mk_int();
    let v1 = sys.mk_var();
    assert!(sys.eq(v1, i1));

    let mut other = new();
    let i2 = other.mk_int();
    let v2 = other.mk_var();
    assert!(other.eq(i2, v2));
}

#[test]
fn idempotent_union() {
    let mut sys = new();
    let v1 = sys.mk_var();
    let v2 = sys.mk_var();
    assert!(sys.eq(v1, v2));
    assert!(sys.eq(v1, v2));
    let i = sys.mk_int();
    let a1 = sys.mk_arrow(i, i);
    let a2 = sys.mk_arrow(i, i);
    assert!(sys.eq(a1, a2));
    assert!(sys.eq(a1, a2));
}

#[test]
fn head_discrimination() {
    let mut sys = new();
    let i = sys.mk_int();
    let arr = sys.mk_arrow(i, i);
    assert!(!sys.eq(i, arr));
    let arr2 = sys.mk_arrow(i, i);
    assert!(sys.eq(arr, arr2));
    let nested = sys.mk_arrow(i, arr);
    let flat = sys.mk_arrow(i, i);
    assert!(!sys.eq(nested, flat));
}

#[test]
fn arrow_equal_iff_components_equal() {
    let mut sys = new();
    let i = sys.mk_int();
    let v = sys.mk_var();
    let a1 = sys.mk_arrow(v, i);
    let a2 = sys.mk_arrow(i, i);
    // unifying the arrows solves the domain variable
    assert!(sys.eq(a1, a2));
    assert!(sys.eq(v, i));
    // a range mismatch makes the arrows unequal
    let inner = sys.mk_arrow(i, i);
    let b1 = sys.mk_arrow(i, inner);
    let b2 = sys.mk_arrow(i, i);
    assert!(!sys.eq(b1, b2));
}

#[test]
fn variable_unification_transitive() {
    let mut sys = new();
    let v1 = sys.mk_var();
    let v2 = sys.mk_var();
    let v3 = sys.mk_var();
    assert!(sys.eq(v1, v2));
    assert!(sys.eq(v2, v3));
    assert!(sys.eq(v1, v3));
}

#[test]
fn level_promotion_across_scopes() {
    let mut sys = new();
    let v1 = sys.mk_var();
    let mut sys2 = sys.subsystem();
    let v2 = sys2.mk_var();
    // a subsystem variable may be unified with a parent variable
    assert!(sys2.eq(v2, v1));
    let done = sys2.finish();
    let q = done.quantify(v2);
    let mut sys = done.resume();
    // the promoted, quantified variable is usable at the parent level
    assert!(sys.eq(q, v1));
    let i = sys.mk_int();
    assert!(sys.eq(v1, i));
    assert!(sys.eq(q, i));
}

#[test]
fn quantify_exports_to_sibling_scope() {
    let mut sys = new();
    let v1 = sys.mk_var();
    let mut sys2 = sys.subsystem();
    let v2 = sys2.mk_var();
    let sys2 = sys2.finish();
    let vquant = sys2.quantify(v2);
    let sys = sys2.resume();
    let mut sys3 = sys.subsystem();
    let v3 = sys3.mk_var();
    assert!(sys3.eq(vquant, v3));
    assert!(sys3.eq(v3, v1));
}

#[test]
fn solved_variable_rejects_other_head() {
    let mut sys = new();
    let v1 = sys.mk_var();
    let v2 = sys.mk_var();
    assert!(sys.eq(v1, v2));
    let i = sys.mk_int();
    assert!(sys.eq(i, v1));
    let arr = sys.mk_arrow(i, i);
    assert!(!sys.eq(v2, arr));
    // while equal things stay equal
    assert!(sys.eq(v2, i));
}
