use roc_core::subs::{Content, Descriptor, FlatType, Mark, Problem, Subs, Variable};
use roc_core::unify::unify;

fn flex(subs: &mut Subs) -> Variable {
    subs.fresh(Descriptor::from_content(Content::FlexVar(None)))
}

fn var_with(subs: &mut Subs, content: Content) -> Variable {
    subs.fresh(Descriptor::from_content(content))
}

fn var_ranked(subs: &mut Subs, content: Content, rank: u32) -> Variable {
    subs.fresh(Descriptor { content, rank, mark: Mark::none(), copy: None })
}

fn apply(module_name: &str, name: &str, args: Vec<Variable>) -> Content {
    Content::Structure(FlatType::Apply {
        module_name: module_name.to_string(),
        name: name.to_string(),
        args,
    })
}

fn content_of(subs: &Subs, v: Variable) -> Content {
    subs.get(v).content
}

#[test]
fn reflexive_unify_changes_nothing() {
    let mut subs = Subs::new();
    let v = var_with(&mut subs, Content::RigidVar("a".to_string()));
    let before = subs.get(v);
    unify(&mut subs, v, v);
    assert!(subs.equivalent(v, v));
    assert_eq!(subs.get(v), before);
}

#[test]
fn unify_twice_same_as_once() {
    let mut subs = Subs::new();
    let x = flex(&mut subs);
    let y = flex(&mut subs);
    let v1 = var_with(&mut subs, apply("List", "List", vec![x]));
    let v2 = var_ranked(&mut subs, apply("List", "List", vec![y]), 2);
    unify(&mut subs, v1, v2);
    let once = subs.get(v1);
    let once_x = subs.get(x);
    unify(&mut subs, v1, v2);
    assert_eq!(subs.get(v1), once);
    assert_eq!(subs.get(v2), once);
    assert_eq!(subs.get(x), once_x);
}

#[test]
fn flex_absorbed_by_empty_record() {
    let mut subs = Subs::new();
    let a = flex(&mut subs);
    let b = var_with(&mut subs, Content::Structure(FlatType::EmptyRecord));
    unify(&mut subs, a, b);
    assert_eq!(content_of(&subs, a), Content::Structure(FlatType::EmptyRecord));
    assert_eq!(content_of(&subs, b), Content::Structure(FlatType::EmptyRecord));
}

#[test]
fn flex_name_kept_over_unnamed_flex() {
    let mut subs = Subs::new();
    let a = var_with(&mut subs, Content::FlexVar(Some("a".to_string())));
    let b = flex(&mut subs);
    unify(&mut subs, a, b);
    assert_eq!(content_of(&subs, a), Content::FlexVar(Some("a".to_string())));
}

#[test]
fn second_flex_name_wins_when_both_named() {
    let mut subs = Subs::new();
    let a = var_with(&mut subs, Content::FlexVar(Some("a".to_string())));
    let b = var_with(&mut subs, Content::FlexVar(Some("b".to_string())));
    unify(&mut subs, a, b);
    assert_eq!(content_of(&subs, a), Content::FlexVar(Some("b".to_string())));
}

#[test]
fn rigid_wins_over_flex() {
    let mut subs = Subs::new();
    let a = var_with(&mut subs, Content::RigidVar("a".to_string()));
    let b = flex(&mut subs);
    unify(&mut subs, a, b);
    assert_eq!(content_of(&subs, a), Content::RigidVar("a".to_string()));
    assert_eq!(content_of(&subs, b), Content::RigidVar("a".to_string()));
}

#[test]
fn flex_takes_rigid_of_second() {
    let mut subs = Subs::new();
    let a = flex(&mut subs);
    let b = var_with(&mut subs, Content::RigidVar("b".to_string()));
    unify(&mut subs, a, b);
    assert_eq!(content_of(&subs, a), Content::RigidVar("b".to_string()));
}

#[test]
fn rigid_vs_rigid_mismatch() {
    let mut subs = Subs::new();
    let a = var_with(&mut subs, Content::RigidVar("a".to_string()));
    let b = var_with(&mut subs, Content::RigidVar("b".to_string()));
    unify(&mut subs, a, b);
    assert_eq!(content_of(&subs, a), Content::Error(Problem::GenericMismatch));
}

#[test]
fn rigid_vs_same_named_rigid_mismatch() {
    let mut subs = Subs::new();
    let a = var_with(&mut subs, Content::RigidVar("a".to_string()));
    let b = var_with(&mut subs, Content::RigidVar("a".to_string()));
    unify(&mut subs, a, b);
    assert_eq!(content_of(&subs, a), Content::Error(Problem::GenericMismatch));
}

#[test]
fn rigid_vs_structure_mismatch() {
    let mut subs = Subs::new();
    let a = var_with(&mut subs, Content::RigidVar("a".to_string()));
    let b = var_with(&mut subs, Content::Structure(FlatType::EmptyRecord));
    unify(&mut subs, a, b);
    assert_eq!(content_of(&subs, b), Content::Error(Problem::GenericMismatch));
    let c = var_with(&mut subs, Content::Structure(FlatType::EmptyRecord));
    let d = var_with(&mut subs, Content::RigidVar("d".to_string()));
    unify(&mut subs, c, d);
    assert_eq!(content_of(&subs, c), Content::Error(Problem::GenericMismatch));
}

#[test]
fn function_with_fewer_args_is_missing_arguments() {
    let mut subs = Subs::new();
    let a = flex(&mut subs);
    let r = flex(&mut subs);
    let b = flex(&mut subs);
    let c = flex(&mut subs);
    let s = flex(&mut subs);
    let f1 = var_with(&mut subs, Content::Structure(FlatType::Func(vec![a], r)));
    let f2 = var_with(&mut subs, Content::Structure(FlatType::Func(vec![b, c], s)));
    unify(&mut subs, f1, f2);
    assert_eq!(content_of(&subs, f1), Content::Error(Problem::MissingArguments));
    assert!(!subs.equivalent(r, s));
}

#[test]
fn function_with_more_args_is_extra_arguments() {
    let mut subs = Subs::new();
    let a = flex(&mut subs);
    let r = flex(&mut subs);
    let b = flex(&mut subs);
    let c = flex(&mut subs);
    let s = flex(&mut subs);
    let f1 = var_with(&mut subs, Content::Structure(FlatType::Func(vec![b, c], s)));
    let f2 = var_with(&mut subs, Content::Structure(FlatType::Func(vec![a], r)));
    unify(&mut subs, f1, f2);
    assert_eq!(content_of(&subs, f2), Content::Error(Problem::ExtraArguments));
}

#[test]
fn functions_of_same_arity_unify_parts() {
    let mut subs = Subs::new();
    let a = flex(&mut subs);
    let r = var_with(&mut subs, Content::Structure(FlatType::EmptyRecord));
    let b = var_with(&mut subs, Content::RigidVar("b".to_string()));
    let s = flex(&mut subs);
    let f1 = var_with(&mut subs, Content::Structure(FlatType::Func(vec![a], r)));
    let f2 = var_with(&mut subs, Content::Structure(FlatType::Func(vec![b], s)));
    unify(&mut subs, f1, f2);
    assert_eq!(content_of(&subs, f1), Content::Structure(FlatType::Func(vec![b], s)));
    assert!(subs.equivalent(a, b));
    assert!(subs.equivalent(r, s));
    assert_eq!(content_of(&subs, a), Content::RigidVar("b".to_string()));
    assert_eq!(content_of(&subs, s), Content::Structure(FlatType::EmptyRecord));
}

#[test]
fn func_vs_apply_mismatch() {
    let mut subs = Subs::new();
    let r = flex(&mut subs);
    let f = var_with(&mut subs, Content::Structure(FlatType::Func(vec![], r)));
    let l = var_with(&mut subs, apply("List", "List", vec![]));
    unify(&mut subs, f, l);
    assert_eq!(content_of(&subs, l), Content::Error(Problem::GenericMismatch));
}

#[test]
fn structural_apply_unifies_arguments() {
    let mut subs = Subs::new();
    let x = flex(&mut subs);
    let y = flex(&mut subs);
    let l1 = var_with(&mut subs, apply("List", "List", vec![x]));
    let l2 = var_with(&mut subs, apply("List", "List", vec![y]));
    unify(&mut subs, l1, l2);
    assert!(subs.equivalent(x, y));
    assert!(subs.equivalent(l1, l2));
    assert_eq!(content_of(&subs, l1), apply("List", "List", vec![y]));
}

#[test]
fn apply_argument_error_stays_local() {
    let mut subs = Subs::new();
    let x1 = var_with(&mut subs, Content::RigidVar("a".to_string()));
    let x2 = flex(&mut subs);
    let y1 = var_with(&mut subs, Content::RigidVar("b".to_string()));
    let y2 = var_with(&mut subs, Content::Structure(FlatType::EmptyRecord));
    let l1 = var_with(&mut subs, apply("Dict", "Dict", vec![x1, x2]));
    let l2 = var_with(&mut subs, apply("Dict", "Dict", vec![y1, y2]));
    unify(&mut subs, l1, l2);
    assert_eq!(content_of(&subs, x1), Content::Error(Problem::GenericMismatch));
    assert_eq!(content_of(&subs, x2), Content::Structure(FlatType::EmptyRecord));
    assert_eq!(content_of(&subs, l1), apply("Dict", "Dict", vec![y1, y2]));
}

#[test]
fn self_referential_types_terminate() {
    let mut subs = Subs::new();
    let a = flex(&mut subs);
    let b = flex(&mut subs);
    let la = var_with(&mut subs, apply("List", "List", vec![a]));
    let lb = var_with(&mut subs, apply("List", "List", vec![b]));
    unify(&mut subs, a, la);
    unify(&mut subs, b, lb);
    unify(&mut subs, a, b);
    assert!(subs.equivalent(la, lb));
    assert_eq!(content_of(&subs, a), apply("List", "List", vec![b]));
}

#[test]
fn error_propagates_from_first() {
    let mut subs = Subs::new();
    let e = var_with(&mut subs, Content::Error(Problem::ExtraArguments));
    let f = flex(&mut subs);
    let r = var_with(&mut subs, Content::RigidVar("r".to_string()));
    let s = var_with(&mut subs, Content::Structure(FlatType::EmptyRecord));
    unify(&mut subs, e, f);
    assert_eq!(content_of(&subs, f), Content::Error(Problem::ExtraArguments));
    unify(&mut subs, e, r);
    assert_eq!(content_of(&subs, r), Content::Error(Problem::ExtraArguments));
    unify(&mut subs, e, s);
    assert_eq!(content_of(&subs, s), Content::Error(Problem::ExtraArguments));
}

#[test]
fn error_propagates_from_second() {
    let mut subs = Subs::new();
    let f = flex(&mut subs);
    let r = var_with(&mut subs, Content::RigidVar("r".to_string()));
    let s = var_with(&mut subs, Content::Structure(FlatType::EmptyRecord));
    let e1 = var_with(&mut subs, Content::Error(Problem::MissingArguments));
    let e2 = var_with(&mut subs, Content::Error(Problem::MissingArguments));
    let e3 = var_with(&mut subs, Content::Error(Problem::MissingArguments));
    unify(&mut subs, f, e1);
    unify(&mut subs, r, e2);
    unify(&mut subs, s, e3);
    assert_eq!(content_of(&subs, f), Content::Error(Problem::MissingArguments));
    assert_eq!(content_of(&subs, r), Content::Error(Problem::MissingArguments));
    assert_eq!(content_of(&subs, s), Content::Error(Problem::MissingArguments));
}

#[test]
fn lower_rank_survives_merge() {
    let mut subs = Subs::new();
    let a = var_ranked(&mut subs, Content::FlexVar(None), 0);
    let b = var_ranked(&mut subs, Content::FlexVar(None), 3);
    unify(&mut subs, a, b);
    assert_eq!(subs.get(a).rank, 0);
    let c = var_ranked(&mut subs, Content::FlexVar(None), 3);
    let d = var_ranked(&mut subs, Content::FlexVar(None), 0);
    unify(&mut subs, c, d);
    assert_eq!(subs.get(c).rank, 0);
}

#[test]
fn merge_resets_mark_and_copy() {
    let mut subs = Subs::new();
    let a = subs.fresh(Descriptor {
        content: Content::FlexVar(None),
        rank: 1,
        mark: Mark { value: 7 },
        copy: None,
    });
    let b = subs.fresh(Descriptor {
        content: Content::FlexVar(None),
        rank: 2,
        mark: Mark { value: 9 },
        copy: Some(a),
    });
    unify(&mut subs, a, b);
    let d = subs.get(b);
    assert_eq!(d.mark, Mark::none());
    assert_eq!(d.copy, None);
    assert_eq!(d.rank, 1);
}

#[test]
fn end_to_end_int_then_str() {
    let mut subs = Subs::new();
    let v1 = flex(&mut subs);
    let v2 = var_with(&mut subs, apply("Num", "Int", vec![]));
    let v3 = var_with(&mut subs, apply("Num", "Str", vec![]));
    unify(&mut subs, v1, v2);
    assert_eq!(content_of(&subs, v1), apply("Num", "Int", vec![]));
    unify(&mut subs, v1, v3);
    assert_eq!(content_of(&subs, v1), Content::Error(Problem::GenericMismatch));
    assert_eq!(content_of(&subs, v3), Content::Error(Problem::GenericMismatch));
    assert_eq!(content_of(&subs, v2), Content::Error(Problem::GenericMismatch));
}

#[test]
fn apply_differing_module_mismatch() {
    let mut subs = Subs::new();
    let a = var_with(&mut subs, apply("Num", "Int", vec![]));
    let b = var_with(&mut subs, apply("Other", "Int", vec![]));
    unify(&mut subs, a, b);
    assert_eq!(content_of(&subs, a), Content::Error(Problem::GenericMismatch));
}

#[test]
fn store_union_and_representative() {
    let mut subs = Subs::new();
    let a = flex(&mut subs);
    let b = flex(&mut subs);
    let c = flex(&mut subs);
    assert_eq!(subs.len(), 3);
    assert!(!subs.equivalent(a, b));
    subs.union(a, b, Descriptor::from_content(Content::RigidVar("t".to_string())));
    assert!(subs.equivalent(a, b));
    assert!(!subs.equivalent(a, c));
    assert_eq!(subs.representative(a), subs.representative(b));
    assert_eq!(content_of(&subs, a), Content::RigidVar("t".to_string()));
    assert_eq!(content_of(&subs, c), Content::FlexVar(None));
    subs.union(a, b, Descriptor::from_content(Content::Structure(FlatType::EmptyRecord)));
    assert_eq!(content_of(&subs, b), Content::Structure(FlatType::EmptyRecord));
    subs.union(c, a, Descriptor::from_content(Content::FlexVar(None)));
    assert!(subs.equivalent(b, c));
}

#[test]
fn apply_arguments_keep_flex_content() {
    let mut subs = Subs::new();
    let x = flex(&mut subs);
    let y = flex(&mut subs);
    let l1 = var_with(&mut subs, apply("List", "List", vec![x]));
    let l2 = var_with(&mut subs, apply("List", "List", vec![y]));
    unify(&mut subs, l1, l2);
    assert_eq!(content_of(&subs, x), Content::FlexVar(None));
    assert_eq!(content_of(&subs, l1), apply("List", "List", vec![y]));
}

#[test]
fn nested_rigid_mismatch_stays_at_its_pair() {
    let mut subs = Subs::new();
    let x1 = var_with(&mut subs, Content::RigidVar("a".to_string()));
    let y1 = var_with(&mut subs, Content::RigidVar("b".to_string()));
    let x2 = flex(&mut subs);
    let y2 = flex(&mut subs);
    let t1 = var_with(&mut subs, apply("M", "T", vec![x1, x2]));
    let t2 = var_with(&mut subs, apply("M", "T", vec![y1, y2]));
    unify(&mut subs, t1, t2);
    assert_eq!(content_of(&subs, x1), Content::Error(Problem::GenericMismatch));
    assert!(subs.equivalent(x2, y2));
    assert_eq!(content_of(&subs, x2), Content::FlexVar(None));
    assert_eq!(content_of(&subs, t1), apply("M", "T", vec![y1, y2]));
}
