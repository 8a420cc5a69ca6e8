use infer::{is_subtype, CheckState, Context, CtxMember, Type};

fn var(name: &str) -> CtxMember {
    CtxMember::Var(name.to_string())
}

fn evar(name: &str) -> CtxMember {
    CtxMember::EVar(name.to_string())
}

fn solved(name: &str, t: Type) -> CtxMember {
    CtxMember::Solved(name.to_string(), t)
}

fn tvar(name: &str) -> Type {
    Type::Var(name.to_string())
}

fn tevar(name: &str) -> Type {
    Type::EVar(name.to_string())
}

fn arr(a: Type, b: Type) -> Type {
    Type::Arr(Box::new(a), Box::new(b))
}

fn all(v: &str, b: Type) -> Type {
    Type::All(v.to_string(), Box::new(b))
}

fn state(entries: Vec<CtxMember>) -> CheckState {
    CheckState { ctx: Context(entries), nextEVar: 0 }
}

fn expect(r: Option<CheckState>, entries: Vec<CtxMember>, next: usize) {
    let s = r.expect("the judgment should hold");
    assert_eq!(s.ctx, Context(entries));
    assert_eq!(s.nextEVar, next);
}

#[test]
fn unit_is_a_subtype_of_unit() {
    expect(is_subtype(state(vec![var("a")]), Type::Unit, Type::Unit), vec![var("a")], 0);
    expect(is_subtype(CheckState::new(), Type::Unit, Type::Unit), vec![], 0);
}

#[test]
fn a_rigid_variable_is_a_subtype_of_itself_only() {
    let ctx = vec![var("a"), var("b")];
    expect(is_subtype(state(ctx.clone()), tvar("a"), tvar("a")), ctx.clone(), 0);
    assert!(is_subtype(state(ctx.clone()), tvar("a"), tvar("b")).is_none());
    assert!(is_subtype(state(ctx.clone()), tvar("a"), Type::Unit).is_none());
    assert!(is_subtype(state(ctx), Type::Unit, tvar("a")).is_none());
}

#[test]
fn an_existential_variable_is_a_subtype_of_itself() {
    let ctx = vec![evar("x")];
    expect(is_subtype(state(ctx.clone()), tevar("x"), tevar("x")), ctx, 0);
    let ctx = vec![solved("x", Type::Unit)];
    expect(is_subtype(state(ctx.clone()), tevar("x"), tevar("x")), ctx, 0);
}

#[test]
fn reflexivity_on_monotypes() {
    let ctx = vec![var("a"), evar("x"), var("b"), solved("y", tvar("a"))];
    let types = vec![
        Type::Unit,
        tvar("a"),
        tevar("x"),
        tevar("y"),
        arr(tvar("a"), tvar("b")),
        arr(tevar("x"), arr(tevar("y"), Type::Unit)),
        arr(arr(tvar("a"), tevar("y")), arr(tevar("x"), tevar("x"))),
    ];
    for t in types {
        let mut s = state(ctx.clone());
        s.nextEVar = 7;
        expect(is_subtype(s, t.clone(), t), ctx.clone(), 7);
    }
}

#[test]
fn arrows_with_declared_variables() {
    let ctx = vec![var("a"), var("b")];
    let t = arr(tvar("a"), tvar("b"));
    expect(is_subtype(state(ctx.clone()), t.clone(), t.clone()), ctx.clone(), 0);
    let swapped = arr(tvar("b"), tvar("a"));
    assert!(is_subtype(state(ctx.clone()), swapped.clone(), t.clone()).is_none());
    assert!(is_subtype(state(ctx), t, swapped).is_none());
}

#[test]
fn the_domain_is_compared_in_the_opposite_direction() {
    // all b. b  is a subtype of  unit, not the other way round
    let poly = all("b", tvar("b"));
    let s = CheckState { ctx: Context(vec![]), nextEVar: 0 };
    assert!(is_subtype(s.clone(), poly.clone(), Type::Unit).is_some());
    assert!(is_subtype(s.clone(), Type::Unit, poly.clone()).is_none());
    // so  unit -> unit  is a subtype of  (all b. b) -> unit, not the other way round
    let general = arr(Type::Unit, Type::Unit);
    let special = arr(poly, Type::Unit);
    assert!(is_subtype(s.clone(), general.clone(), special.clone()).is_some());
    assert!(is_subtype(s, special, general).is_none());
}

#[test]
fn instantiate_left_then_solve() {
    let poly = all("b", arr(tvar("b"), tvar("b")));
    let mono = arr(tvar("a"), tvar("a"));
    expect(is_subtype(state(vec![var("a")]), poly, mono), vec![var("a")], 1);
}

#[test]
fn unit_is_no_subtype_of_an_arrow() {
    let s = state(vec![]);
    assert!(is_subtype(s, Type::Unit, arr(Type::Unit, Type::Unit)).is_none());
    let s = state(vec![]);
    assert!(is_subtype(s, arr(Type::Unit, Type::Unit), Type::Unit).is_none());
}

#[test]
fn occurs_check() {
    let ctx = vec![evar("x")];
    assert!(is_subtype(state(ctx.clone()), tevar("x"), arr(tevar("x"), Type::Unit)).is_none());
    assert!(is_subtype(state(ctx.clone()), arr(tevar("x"), Type::Unit), tevar("x")).is_none());
    assert!(is_subtype(state(ctx.clone()), tevar("x"), arr(Type::Unit, tevar("x"))).is_none());
    let deep = arr(Type::Unit, arr(arr(tevar("x"), Type::Unit), Type::Unit));
    assert!(is_subtype(state(ctx.clone()), tevar("x"), deep.clone()).is_none());
    assert!(is_subtype(state(ctx), deep, tevar("x")).is_none());
}

#[test]
fn no_existential_variable_is_solved_to_a_quantified_type() {
    let poly = all("b", arr(tvar("b"), tvar("b")));
    assert!(is_subtype(state(vec![evar("x")]), tevar("x"), poly.clone()).is_none());
    // the other way round the quantifier is instantiated, and x takes the
    // shape of a function type between two fresh existential variables
    let r = is_subtype(state(vec![evar("x")]), poly, tevar("x")).expect("holds");
    for m in r.ctx.0.iter() {
        if let CtxMember::Solved(_, t) = m {
            assert!(t.is_mono());
        }
    }
    assert!(!r.ctx.elem(&evar("x")));
}

#[test]
fn solving_an_existential_variable_in_place() {
    let ctx = vec![var("a"), evar("x"), var("b")];
    expect(
        is_subtype(state(ctx.clone()), tevar("x"), tvar("a")),
        vec![var("a"), solved("x", tvar("a")), var("b")],
        0,
    );
    expect(
        is_subtype(state(ctx.clone()), tvar("a"), tevar("x")),
        vec![var("a"), solved("x", tvar("a")), var("b")],
        0,
    );
    expect(
        is_subtype(state(ctx.clone()), Type::Unit, tevar("x")),
        vec![var("a"), solved("x", Type::Unit), var("b")],
        0,
    );
    // b is declared right of x: x cannot be solved to it
    assert!(is_subtype(state(ctx.clone()), tevar("x"), tvar("b")).is_none());
    assert!(is_subtype(state(ctx), tvar("b"), tevar("x")).is_none());
}

#[test]
fn a_solved_or_undeclared_variable_is_not_solved_again() {
    let ctx = vec![var("a"), solved("x", Type::Unit)];
    assert!(is_subtype(state(ctx.clone()), tevar("x"), tvar("a")).is_none());
    assert!(is_subtype(state(ctx), tevar("y"), tvar("a")).is_none());
}

#[test]
fn of_two_existential_variables_the_later_is_solved() {
    let ctx = vec![evar("x"), evar("y")];
    let after = vec![evar("x"), solved("y", tevar("x"))];
    expect(is_subtype(state(ctx.clone()), tevar("x"), tevar("y")), after.clone(), 0);
    expect(is_subtype(state(ctx), tevar("y"), tevar("x")), after, 0);
}

#[test]
fn an_existential_variable_against_an_arrow() {
    let ctx = vec![var("a"), evar("x"), var("b")];
    let r = is_subtype(state(ctx), tevar("x"), arr(tvar("a"), Type::Unit));
    expect(
        r,
        vec![
            var("a"),
            solved("e0", tvar("a")),
            solved("e1", Type::Unit),
            solved("x", arr(tevar("e0"), tevar("e1"))),
            var("b"),
        ],
        2,
    );
    let ctx = vec![var("a"), evar("x"), var("b")];
    let r = is_subtype(state(ctx), arr(Type::Unit, tvar("a")), tevar("x"));
    expect(
        r,
        vec![
            var("a"),
            solved("e0", Type::Unit),
            solved("e1", tvar("a")),
            solved("x", arr(tevar("e0"), tevar("e1"))),
            var("b"),
        ],
        2,
    );
}

#[test]
fn the_codomains_see_what_the_domains_solved() {
    let ctx = vec![var("a"), evar("x")];
    let r = is_subtype(
        state(ctx.clone()),
        arr(tvar("a"), tevar("x")),
        arr(tevar("x"), tvar("a")),
    );
    expect(r, vec![var("a"), solved("x", tvar("a"))], 0);
    let r = is_subtype(state(ctx), arr(tvar("a"), tevar("x")), arr(tevar("x"), Type::Unit));
    assert!(r.is_none());
}

#[test]
fn a_quantifier_on_the_right_is_checked_under_a_rigid_variable() {
    let id = all("b", arr(tvar("b"), tvar("b")));
    expect(is_subtype(state(vec![var("a")]), id.clone(), id.clone()), vec![var("a")], 2);
    let mono = arr(tvar("a"), tvar("a"));
    assert!(is_subtype(state(vec![var("a")]), mono, id).is_none());
}

#[test]
fn what_was_learned_left_of_the_scope_stays() {
    let poly = all("b", arr(tvar("b"), Type::Unit));
    let r = is_subtype(state(vec![evar("x")]), tevar("x"), arr(Type::Unit, Type::Unit));
    expect(
        r,
        vec![
            solved("e0", Type::Unit),
            solved("e1", Type::Unit),
            solved("x", arr(tevar("e0"), tevar("e1"))),
        ],
        2,
    );
    // the quantifier is opened and closed again while the domains are
    // compared; x, declared left of that scope, is solved afterwards
    let r = is_subtype(
        state(vec![evar("x")]),
        arr(arr(Type::Unit, Type::Unit), tevar("x")),
        arr(poly, Type::Unit),
    );
    expect(r, vec![solved("x", Type::Unit)], 1);
}

#[test]
fn apply_context_is_stable_after_the_judgment() {
    let a = arr(tvar("a"), tevar("x"));
    let b = arr(tevar("y"), arr(tvar("a"), Type::Unit));
    let s = state(vec![var("a"), evar("x"), evar("y")]);
    let r = is_subtype(s, a.clone(), b.clone()).expect("holds");
    for t in [a, b] {
        let once = r.ctx.apply_context(t);
        let twice = r.ctx.apply_context(once.clone());
        assert_eq!(once, twice);
    }
    assert_eq!(
        r.ctx.apply_context(tevar("x")),
        arr(tvar("a"), Type::Unit)
    );
}

#[test]
fn a_failed_judgment_leaves_the_callers_copy_alone() {
    let s = state(vec![var("a"), evar("x")]);
    let kept = s.clone();
    let r = is_subtype(s, arr(tvar("a"), tevar("x")), arr(tevar("x"), Type::Unit));
    assert!(r.is_none());
    assert_eq!(kept.ctx, Context(vec![var("a"), evar("x")]));
    assert_eq!(kept.nextEVar, 0);
}

#[test]
fn without_fresh_names_quantifiers_cannot_be_opened() {
    let id = all("b", arr(tvar("b"), tvar("b")));
    let mut s = state(vec![var("a")]);
    s.nextEVar = usize::MAX;
    assert!(is_subtype(s, id.clone(), arr(tvar("a"), tvar("a"))).is_none());
    let mut s = state(vec![var("a")]);
    s.nextEVar = usize::MAX;
    assert!(is_subtype(s, Type::Unit, id).is_none());
    let mut s = state(vec![evar("x")]);
    s.nextEVar = usize::MAX - 1;
    assert!(is_subtype(s, tevar("x"), arr(Type::Unit, Type::Unit)).is_none());
    let mut s = state(vec![evar("x")]);
    s.nextEVar = usize::MAX - 2;
    assert!(is_subtype(s, tevar("x"), arr(Type::Unit, Type::Unit)).is_some());
    let mut s = state(vec![var("a")]);
    s.nextEVar = usize::MAX;
    assert!(is_subtype(s, tvar("a"), tvar("a")).is_some());
}

#[test]
fn well_formed_types_stay_well_formed() {
    let a = arr(tvar("a"), tevar("x"));
    let b = arr(tevar("y"), arr(tvar("a"), Type::Unit));
    let others = vec![tevar("z"), all("c", arr(tvar("c"), tevar("z"))), tvar("b")];
    let s = state(vec![var("a"), evar("x"), evar("y"), var("b"), evar("z")]);
    for t in others.iter().chain([&a, &b]) {
        assert!(s.ctx.well_formed(t));
    }
    let r = is_subtype(s, a.clone(), b.clone()).expect("holds");
    for t in others.iter().chain([&a, &b]) {
        assert!(r.ctx.well_formed(t));
    }
    assert_eq!(
        r.ctx.filter(|m| matches!(m, CtxMember::Var(_))),
        vec![var("a"), var("b")]
    );
}
