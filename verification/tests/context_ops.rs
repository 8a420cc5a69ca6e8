use infer::{CheckState, Context, CtxMember, Expr, Type};

fn var(name: &str) -> CtxMember {
    CtxMember::Var(name.to_string())
}

fn letters(names: &[&str]) -> Context {
    Context(names.iter().map(|n| var(n)).collect())
}

fn tvar(name: &str) -> Type {
    Type::Var(name.to_string())
}

fn tevar(name: &str) -> Type {
    Type::EVar(name.to_string())
}

fn arr(a: Type, b: Type) -> Type {
    Type::Arr(Box::new(a), Box::new(b))
}

fn all(v: &str, b: Type) -> Type {
    Type::All(v.to_string(), Box::new(b))
}

#[test]
fn add_appends_on_the_right() {
    let ctx = letters(&["A", "B", "C"]).add(var("D"));
    assert_eq!(ctx, letters(&["A", "B", "C", "D"]));
}

#[test]
fn tr_l_appends_on_the_right() {
    let ctx = letters(&["A", "B", "C"]).tr_l(var("D"));
    assert_eq!(ctx, letters(&["A", "B", "C", "D"]));
}

#[test]
fn tr_r_puts_in_front() {
    let ctx = letters(&["A", "B", "C"]).tr_r(var("D"));
    assert_eq!(ctx, letters(&["D", "A", "B", "C"]));
}

#[test]
fn append_concatenates() {
    let ctx = letters(&["A", "B"]).append(letters(&["C", "D"]));
    assert_eq!(ctx, letters(&["A", "B", "C", "D"]));
    assert_eq!(letters(&[]).append(letters(&[])), letters(&[]));
}

#[test]
fn elem_finds_members_only() {
    let ctx = letters(&["A", "B", "C", "D"]);
    assert!(ctx.elem(&var("D")));
    assert!(ctx.elem(&var("A")));
    assert!(!ctx.elem(&var("E")));
    assert!(!ctx.elem(&CtxMember::EVar("A".to_string())));
    assert!(!ctx.elem(&CtxMember::Marker("A".to_string())));
}

#[test]
fn elem_compares_carried_types() {
    let ctx = Context(vec![CtxMember::Solved("a".to_string(), Type::Unit)]);
    assert!(ctx.elem(&CtxMember::Solved("a".to_string(), Type::Unit)));
    assert!(!ctx.elem(&CtxMember::Solved("a".to_string(), tvar("x"))));
    assert!(!ctx.elem(&CtxMember::Assump("a".to_string(), Type::Unit)));
}

#[test]
fn drop1_removes_the_leftmost() {
    let ctx = letters(&["A", "B", "C", "D"]).drop1();
    assert_eq!(ctx, letters(&["B", "C", "D"]));
}

#[test]
fn drop_n_removes_from_the_right() {
    assert_eq!(letters(&["A", "B", "C", "D"]).dropN(2), letters(&["A", "B"]));
    assert_eq!(letters(&["A", "B", "C", "D"]).dropN(0), letters(&["A", "B", "C", "D"]));
    assert_eq!(letters(&["A", "B", "C", "D"]).dropN(4), letters(&[]));
    assert_eq!(letters(&["A", "B", "C", "D"]).dropN(9), letters(&[]));
}

#[test]
fn split_at_keeps_the_member_in_the_remainder() {
    let ctx = letters(&["A", "B", "C", "D", "E", "F", "G", "H", "I"]);
    let (p, r) = ctx.split_at(&var("E")).unwrap();
    assert_eq!(p, letters(&["A", "B", "C", "D"]));
    assert_eq!(r, letters(&["E", "F", "G", "H", "I"]));
}

#[test]
fn split_at_takes_the_first_occurrence() {
    let ctx = letters(&["A", "B", "A", "B"]);
    let (p, r) = ctx.split_at(&var("B")).unwrap();
    assert_eq!(p, letters(&["A"]));
    assert_eq!(r, letters(&["B", "A", "B"]));
}

#[test]
fn split_at_an_absent_member_is_none() {
    assert!(letters(&["A", "B"]).split_at(&var("Z")).is_none());
    assert!(letters(&[]).split_at(&var("Z")).is_none());
}

#[test]
fn hole_cuts_the_member_out() {
    let ctx = letters(&["A", "B", "C", "D", "E", "F", "G", "H", "I"]);
    let (p, r) = ctx.hole(&var("E")).unwrap();
    assert_eq!(p, letters(&["A", "B", "C", "D"]));
    assert_eq!(r, letters(&["F", "G", "H", "I"]));
}

#[test]
fn hole_at_the_ends() {
    let (p, r) = letters(&["A", "B", "C"]).hole(&var("A")).unwrap();
    assert_eq!(p, letters(&[]));
    assert_eq!(r, letters(&["B", "C"]));
    let (p, r) = letters(&["A", "B", "C"]).hole(&var("C")).unwrap();
    assert_eq!(p, letters(&["A", "B"]));
    assert_eq!(r, letters(&[]));
    assert!(letters(&["A", "B", "C"]).hole(&var("D")).is_none());
}

#[test]
fn hole_round_trip() {
    let whole = letters(&["A", "B", "C", "D", "E"]);
    for name in ["A", "B", "C", "D", "E"] {
        let (left, right) = whole.clone().hole(&var(name)).unwrap();
        assert_eq!(left.add(var(name)).append(right), whole);
    }
}

#[test]
fn hole2_cuts_both_members_out() {
    let ctx = letters(&["A", "B", "C", "D", "E", "F", "G", "H", "I"]);
    let (a, b, c) = ctx.hole2(&var("B"), &var("E")).unwrap();
    assert_eq!(a, letters(&["A"]));
    assert_eq!(b, letters(&["C", "D"]));
    assert_eq!(c, letters(&["F", "G", "H", "I"]));
}

#[test]
fn hole2_round_trip() {
    let whole = letters(&["A", "B", "C", "D", "E"]);
    let (a, b, c) = whole.clone().hole2(&var("B"), &var("D")).unwrap();
    assert_eq!(a.add(var("B")).append(b).add(var("D")).append(c), whole);
}

#[test]
fn hole2_wants_the_second_right_of_the_first() {
    let ctx = letters(&["A", "B", "C", "D", "E"]);
    assert!(ctx.clone().hole2(&var("D"), &var("B")).is_none());
    assert!(ctx.clone().hole2(&var("Z"), &var("B")).is_none());
    assert!(ctx.hole2(&var("B"), &var("Z")).is_none());
}

#[test]
fn get_type_of_each_entry() {
    assert_eq!(CtxMember::Assump("x".to_string(), Type::Unit).get_type(), Some(Type::Unit));
    assert_eq!(CtxMember::Solved("a".to_string(), tvar("b")).get_type(), Some(tvar("b")));
    assert_eq!(var("a").get_type(), None);
    assert_eq!(CtxMember::EVar("a".to_string()).get_type(), None);
    assert_eq!(CtxMember::Marker("a".to_string()).get_type(), None);
}

#[test]
fn constructors_convert_their_names() {
    assert_eq!(CtxMember::mk_var("a"), CtxMember::Var("a".to_string()));
    assert_eq!(CtxMember::mk_evar("a"), CtxMember::EVar("a".to_string()));
    assert_eq!(
        CtxMember::mk_assump("x", Type::Unit),
        CtxMember::Assump("x".to_string(), Type::Unit)
    );
    assert_eq!(
        CtxMember::mk_solved(String::from("a"), Type::Unit),
        CtxMember::Solved("a".to_string(), Type::Unit)
    );
}

#[test]
fn lookup_of_assumptions_and_solutions() {
    let ctx = Context(vec![
        var("a"),
        CtxMember::Assump("x".to_string(), tvar("a")),
        CtxMember::EVar("b".to_string()),
        CtxMember::Solved("c".to_string(), arr(Type::Unit, tvar("a"))),
    ]);
    assert_eq!(ctx.has_assumption(&"x".to_string()), Some(tvar("a")));
    assert_eq!(ctx.assump(&"x".to_string()), Some(tvar("a")));
    assert_eq!(ctx.has_assumption(&"c".to_string()), None);
    assert_eq!(ctx.has_solution(&"c".to_string()), Some(arr(Type::Unit, tvar("a"))));
    assert_eq!(ctx.solution(&"c".to_string()), Some(arr(Type::Unit, tvar("a"))));
    assert_eq!(ctx.has_solution(&"b".to_string()), None);
    assert_eq!(ctx.has_solution(&"x".to_string()), None);
}

#[test]
fn well_formed_types() {
    let ctx = Context(vec![
        var("a"),
        CtxMember::EVar("b".to_string()),
        CtxMember::Solved("c".to_string(), Type::Unit),
        CtxMember::Marker("m".to_string()),
    ]);
    assert!(ctx.is_type_well_formed(Type::Unit));
    assert!(ctx.is_type_well_formed(tvar("a")));
    assert!(!ctx.is_type_well_formed(tvar("b")));
    assert!(ctx.is_type_well_formed(tevar("b")));
    assert!(ctx.is_type_well_formed(tevar("c")));
    assert!(!ctx.is_type_well_formed(tevar("a")));
    assert!(!ctx.is_type_well_formed(tevar("m")));
    assert!(ctx.is_type_well_formed(arr(tvar("a"), tevar("b"))));
    assert!(!ctx.is_type_well_formed(arr(tvar("a"), tvar("z"))));
    assert!(!ctx.is_type_well_formed(arr(tvar("z"), tvar("a"))));
    assert!(ctx.is_type_well_formed(all("z", arr(tvar("z"), tvar("a")))));
    assert!(!ctx.is_type_well_formed(arr(all("z", tvar("z")), tvar("z"))));
    assert!(ctx.well_formed(&all("z", all("y", arr(tvar("z"), tvar("y"))))));
}

#[test]
fn a_quantifier_extends_the_context_only_for_its_body() {
    let ctx = Context(vec![var("a")]);
    assert!(ctx.is_type_well_formed(all("z", tvar("z"))));
    assert_eq!(ctx, Context(vec![var("a")]));
}

#[test]
fn apply_context_substitutes_solutions() {
    let ctx = Context(vec![
        var("a"),
        CtxMember::EVar("u".to_string()),
        CtxMember::Solved("b".to_string(), tvar("a")),
        CtxMember::Solved("c".to_string(), arr(tevar("b"), tevar("u"))),
    ]);
    assert_eq!(ctx.apply_context(Type::Unit), Type::Unit);
    assert_eq!(ctx.apply_context(tvar("a")), tvar("a"));
    assert_eq!(ctx.apply_context(tevar("u")), tevar("u"));
    assert_eq!(ctx.apply_context(tevar("zz")), tevar("zz"));
    assert_eq!(ctx.apply_context(tevar("b")), tvar("a"));
    assert_eq!(ctx.apply_context(tevar("c")), arr(tvar("a"), tevar("u")));
    assert_eq!(
        ctx.apply_context(arr(tevar("c"), tevar("b"))),
        arr(arr(tvar("a"), tevar("u")), tvar("a"))
    );
    assert_eq!(
        ctx.apply_context(all("z", arr(tevar("b"), tvar("z")))),
        all("z", arr(tvar("a"), tvar("z")))
    );
}

#[test]
fn apply_context_is_idempotent() {
    let ctx = Context(vec![
        var("a"),
        CtxMember::Solved("b".to_string(), tvar("a")),
        CtxMember::Solved("c".to_string(), arr(tevar("b"), tevar("b"))),
    ]);
    let once = ctx.apply_context(arr(tevar("c"), tevar("b")));
    let twice = ctx.apply_context(once.clone());
    assert_eq!(once, twice);
}

#[test]
fn is_mono_sees_quantifiers_anywhere() {
    assert!(Type::Unit.is_mono());
    assert!(tvar("a").is_mono());
    assert!(tevar("a").is_mono());
    assert!(arr(tvar("a"), arr(Type::Unit, tevar("b"))).is_mono());
    assert!(!all("a", tvar("a")).is_mono());
    assert!(!arr(Type::Unit, all("a", tvar("a"))).is_mono());
    assert!(!arr(all("a", tvar("a")), Type::Unit).is_mono());
}

#[test]
fn mentions_finds_existential_variables_only() {
    let a = "a".to_string();
    assert!(tevar("a").mentions(&a));
    assert!(!tvar("a").mentions(&a));
    assert!(!tevar("b").mentions(&a));
    assert!(arr(Type::Unit, tevar("a")).mentions(&a));
    assert!(all("a", arr(tevar("a"), Type::Unit)).mentions(&a));
    assert!(!Type::Unit.mentions(&a));
}

#[test]
fn subst_replaces_free_occurrences() {
    let b = "b".to_string();
    let t = arr(tvar("b"), arr(tvar("c"), tevar("b")));
    assert_eq!(t.subst(&b, &Type::Unit), arr(Type::Unit, arr(tvar("c"), tevar("b"))));
    let shadowed = arr(tvar("b"), all("b", tvar("b")));
    assert_eq!(shadowed.subst(&b, &Type::Unit), arr(Type::Unit, all("b", tvar("b"))));
    let under = all("c", arr(tvar("b"), tvar("c")));
    assert_eq!(under.subst(&b, &tevar("e0")), all("c", arr(tevar("e0"), tvar("c"))));
}

#[test]
fn equality_of_types_is_structural() {
    assert_eq!(arr(tvar("a"), Type::Unit), arr(tvar("a"), Type::Unit));
    assert_ne!(arr(tvar("a"), Type::Unit), arr(Type::Unit, tvar("a")));
    assert_ne!(tvar("a"), tevar("a"));
    assert_ne!(all("a", Type::Unit), all("b", Type::Unit));
    assert_eq!(all("a", tvar("a")).clone(), all("a", tvar("a")));
}

#[test]
fn fresh_names_count_up_in_decimal() {
    let mut s = CheckState::new();
    assert_eq!(s.fresh_evar(), "e0");
    assert_eq!(s.fresh_evar(), "e1");
    assert_eq!(s.nextEVar, 2);
    s.nextEVar = 9;
    assert_eq!(s.fresh_evar(), "e9");
    assert_eq!(s.fresh_evar(), "e10");
    s.nextEVar = 1204;
    assert_eq!(s.fresh_evar(), "e1204");
    assert_eq!(s.nextEVar, 1205);
    assert_eq!(s.ctx, Context(vec![]));
}

#[test]
fn a_new_session_is_empty() {
    let s = CheckState::new();
    assert_eq!(s.ctx, Context(vec![]));
    assert_eq!(s.nextEVar, 0);
}

#[test]
fn filter_keeps_the_order() {
    let ctx = Context(vec![
        var("a"),
        CtxMember::EVar("x".to_string()),
        var("b"),
        CtxMember::Solved("y".to_string(), Type::Unit),
        CtxMember::EVar("z".to_string()),
    ]);
    let unsolved = ctx.filter(|m| matches!(m, CtxMember::EVar(_)));
    assert_eq!(
        unsolved,
        vec![CtxMember::EVar("x".to_string()), CtxMember::EVar("z".to_string())]
    );
    let rigid = ctx.filter(|m| matches!(m, CtxMember::Var(_)));
    assert_eq!(rigid, vec![var("a"), var("b")]);
    assert_eq!(ctx.filter(|_| false), vec![]);
    assert_eq!(ctx.filter(|_| true), ctx.0);
}

#[test]
fn a_context_converts_from_and_into_its_entries() {
    let entries = vec![var("a"), CtxMember::EVar("x".to_string())];
    let ctx: Context = entries.clone().into();
    assert_eq!(ctx, Context(entries.clone()));
    assert_eq!(Context::from(entries.clone()), Context(entries.clone()));
    let back: Vec<CtxMember> = ctx.into();
    assert_eq!(back, entries);
}

#[test]
fn equality_of_terms_is_structural() {
    let id = Expr::Lam("x".to_string(), Box::new(Expr::Var("x".to_string())));
    let same = Expr::Lam("x".to_string(), Box::new(Expr::Var("x".to_string())));
    assert_eq!(id, same);
    assert_eq!(Expr::Unit, Expr::Unit);
    assert_ne!(id, Expr::Lam("y".to_string(), Box::new(Expr::Var("x".to_string()))));
    let app = Expr::App(Box::new(same), Box::new(Expr::Unit));
    assert_ne!(app, Expr::Unit);
    let ann = Expr::Ann(Box::new(Expr::Unit), "unit".to_string());
    assert_eq!(ann, Expr::Ann(Box::new(Expr::Unit), "unit".to_string()));
    assert_ne!(ann, Expr::Ann(Box::new(Expr::Unit), "other".to_string()));
}
