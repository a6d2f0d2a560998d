use vstd::prelude::*;

use crate::subs::{
    content_below, descriptor_below, Content, ContentModel, Descriptor, DescriptorModel, FlatType, FlatTypeModel,
    Mark, Problem, Subs, Variable,
};

verus! {

/// What a structural merge of `f` (first) with `g` (second) gives the merged class.
pub open spec fn merged_structure(f: FlatTypeModel, g: FlatTypeModel) -> ContentModel {
    match f {
        FlatTypeModel::EmptyRecord => match g {
            FlatTypeModel::EmptyRecord => ContentModel::Structure(f),
            _ => ContentModel::Error(Problem::GenericMismatch),
        },
        FlatTypeModel::Apply { module_name: m1, name: n1, .. } => match g {
            FlatTypeModel::Apply { module_name: m2, name: n2, .. } => if m1 == m2 && n1 == n2 {
                ContentModel::Structure(g)
            } else {
                ContentModel::Error(Problem::GenericMismatch)
            },
            _ => ContentModel::Error(Problem::GenericMismatch),
        },
        FlatTypeModel::Func(a1, _) => match g {
            FlatTypeModel::Func(a2, _) => if a1.len() == a2.len() {
                ContentModel::Structure(g)
            } else if a1.len() > a2.len() {
                ContentModel::Error(Problem::ExtraArguments)
            } else {
                ContentModel::Error(Problem::MissingArguments)
            },
            _ => ContentModel::Error(Problem::GenericMismatch),
        },
    }
}

/// What unifying a variable of content `c1` (first) with one of content `c2`
/// (second) gives the merged class.
pub open spec fn merged_content(c1: ContentModel, c2: ContentModel) -> ContentModel {
    match c1 {
        ContentModel::Error(p) => ContentModel::Error(p),
        ContentModel::FlexVar(n) => match c2 {
            ContentModel::FlexVar(None) => ContentModel::FlexVar(n),
            _ => c2,
        },
        ContentModel::RigidVar(n) => match c2 {
            ContentModel::FlexVar(_) => ContentModel::RigidVar(n),
            ContentModel::Error(p) => ContentModel::Error(p),
            _ => ContentModel::Error(Problem::GenericMismatch),
        },
        ContentModel::Structure(f) => match c2 {
            ContentModel::FlexVar(_) => ContentModel::Structure(f),
            ContentModel::RigidVar(_) => ContentModel::Error(Problem::GenericMismatch),
            ContentModel::Error(p) => ContentModel::Error(p),
            ContentModel::Structure(g) => merged_structure(f, g),
        },
    }
}

/// The descriptor of the class that unifying `d1` (first) with `d2` (second) leaves:
/// the merged content, the lower rank, no mark and no copy.
pub open spec fn merged_descriptor(d1: DescriptorModel, d2: DescriptorModel) -> DescriptorModel {
    DescriptorModel {
        content: merged_content(d1.content, d2.content),
        rank: if d1.rank <= d2.rank { d1.rank } else { d2.rank },
        mark: Mark::spec_none(),
        copy: None,
    }
}

/// Two shapes whose unification goes on to unify their component variables.
pub open spec fn shapes_recurse(f: FlatTypeModel, g: FlatTypeModel) -> bool {
    match f {
        FlatTypeModel::Apply { module_name: m1, name: n1, .. } => match g {
            FlatTypeModel::Apply { module_name: m2, name: n2, .. } => m1 == m2 && n1 == n2,
            _ => false,
        },
        FlatTypeModel::Func(a1, _) => match g {
            FlatTypeModel::Func(a2, _) => a1.len() == a2.len(),
            _ => false,
        },
        _ => false,
    }
}

/// Two contents whose unification goes on to unify their component variables.
pub open spec fn contents_recurse(c1: ContentModel, c2: ContentModel) -> bool {
    match c1 {
        ContentModel::Structure(f) => match c2 {
            ContentModel::Structure(g) => shapes_recurse(f, g),
            _ => false,
        },
        _ => false,
    }
}

/// Each variable of `a1` is in the class of the variable at the same position of
/// `a2`, as far as the shorter of the two goes.
pub open spec fn pairwise_equiv(s: Subs, a1: Seq<Variable>, a2: Seq<Variable>) -> bool {
    forall|i: int| 0 <= i < a1.len() && i < a2.len() ==> s.equiv(#[trigger] a1[i], a2[i])
}

/// The component variables of `f` and `g` are unified in `s`, where their
/// unification calls for it.
pub open spec fn shape_parts_unified(s: Subs, f: FlatTypeModel, g: FlatTypeModel) -> bool {
    shapes_recurse(f, g) ==> match f {
        FlatTypeModel::Apply { args: a1, .. } => match g {
            FlatTypeModel::Apply { args: a2, .. } => pairwise_equiv(s, a1, a2),
            _ => true,
        },
        FlatTypeModel::Func(a1, r1) => match g {
            FlatTypeModel::Func(a2, r2) => pairwise_equiv(s, a1, a2) && s.equiv(r1, r2),
            _ => true,
        },
        _ => true,
    }
}

/// The component variables of `c1` and `c2` are unified in `s`, where their
/// unification calls for it.
pub open spec fn parts_unified(s: Subs, c1: ContentModel, c2: ContentModel) -> bool {
    match c1 {
        ContentModel::Structure(f) => match c2 {
            ContentModel::Structure(g) => shape_parts_unified(s, f, g),
            _ => true,
        },
        _ => true,
    }
}

/// `new` keeps every class of `old` together: it may only have joined classes.
pub open spec fn coarsens(old: Subs, new: Subs) -> bool {
    &&& new.size() == old.size()
    &&& new.num_classes() <= old.num_classes()
    &&& forall|a: Variable, b: Variable|
        old.valid(a) && old.valid(b) && #[trigger] old.equiv(a, b) ==> #[trigger] new.equiv(a, b)
}

/// `new` is `old` with the classes of `a` and `b` joined and described by `d`, and
/// nothing else changed.
pub open spec fn joined(old: Subs, new: Subs, a: Variable, b: Variable, d: DescriptorModel) -> bool {
    &&& new.wf()
    &&& new.size() == old.size()
    &&& forall|v: Variable|
        old.valid(v) ==> #[trigger] new.root(v) == if old.in_either(v, a, b) {
            old.root(b)
        } else {
            old.root(v)
        }
    &&& forall|v: Variable|
        old.valid(v) ==> #[trigger] new.desc(v) == if old.in_either(v, a, b) {
            d
        } else {
            old.desc(v)
        }
    &&& old.equiv(a, b) ==> new.num_classes() == old.num_classes()
    &&& !old.equiv(a, b) ==> new.num_classes() + 1 == old.num_classes()
}

/// What unifying `v1` with `v2` in the store `old` leaves as `new`, in summary.
///
/// Already equivalent variables leave the store as it was. Otherwise the two classes
/// become one, whose descriptor is the merge of the two former descriptors; the
/// component variables are unified where the shapes call for it; and where they do
/// not, nothing else changes.
pub open spec fn unify_outcome(old: Subs, new: Subs, v1: Variable, v2: Variable) -> bool {
    let d1 = old.desc(v1);
    let d2 = old.desc(v2);
    &&& new.wf()
    &&& coarsens(old, new)
    &&& new.equiv(v1, v2)
    &&& old.equiv(v1, v2) ==> new == old
    &&& !old.equiv(v1, v2) ==> {
        &&& new.desc(v1) == merged_descriptor(d1, d2)
        &&& parts_unified(new, d1.content, d2.content)
        &&& !contents_recurse(d1.content, d2.content) ==> joined(
            old,
            new,
            v1,
            v2,
            merged_descriptor(d1, d2),
        )
    }
}

/// The steps by which unifying `v1` with `v2` turns `old` into `new`.
///
/// Already equivalent variables leave the store as it was. Otherwise the two classes
/// are joined under the merged descriptor. Where the shapes call for it, the
/// component pairs are then unified one after the other (for a function, the
/// arguments and then the results), and the two classes are joined again under
/// the same descriptor.
pub open spec fn unify_steps(old: Subs, new: Subs, v1: Variable, v2: Variable) -> bool
    decreases old.num_classes(), 2nat,
{
    let d1 = old.desc(v1);
    let d2 = old.desc(v2);
    let d = merged_descriptor(d1, d2);
    if old.equiv(v1, v2) {
        new == old
    } else if !contents_recurse(d1.content, d2.content) {
        joined(old, new, v1, v2, d)
    } else {
        exists|s1: Subs, s2: Subs|
            #[trigger] joined(old, s1, v1, v2, d) && #[trigger] joined(s2, new, v1, v2, d)
                && parts_steps(s1, s2, d1.content, d2.content, old.num_classes())
    }
}

/// The component pairs of `c1` and `c2` unified one after the other turn `s1` into
/// `s2`: the argument pairs in order and, for functions, then the result pair. Every
/// store on the way has fewer than `bound` classes.
pub open spec fn parts_steps(s1: Subs, s2: Subs, c1: ContentModel, c2: ContentModel, bound: nat) -> bool
    decreases bound, 1nat,
{
    match c1 {
        ContentModel::Structure(FlatTypeModel::Apply { args: a1, .. }) => match c2 {
            ContentModel::Structure(FlatTypeModel::Apply { args: a2, .. }) => exists|ss: Seq<Subs>|
                #[trigger] chain_ends(ss, s1, s2) && unify_chain(ss, s1, s2, a1, a2, bound),
            _ => s1 == s2,
        },
        ContentModel::Structure(FlatTypeModel::Func(a1, r1)) => match c2 {
            ContentModel::Structure(FlatTypeModel::Func(a2, r2)) => exists|ss: Seq<Subs>, s: Subs|
                #[trigger] chain_ends(ss, s1, s) && unify_chain(ss, s1, s, a1, a2, bound)
                    && s.num_classes() < bound
                    && unify_steps(s, s2, r1, r2),
            _ => s1 == s2,
        },
        _ => s1 == s2,
    }
}

/// `ss` runs from `s` to `t`.
pub open spec fn chain_ends(ss: Seq<Subs>, s: Subs, t: Subs) -> bool {
    ss.len() > 0 && ss[0] == s && ss.last() == t
}

/// `ss` is the run of stores that unifying the pairs `l[i]`, `r[i]` in order passes
/// through, from `s` to `t`, as far as the shorter of `l` and `r` goes. Every store on
/// the way but the last has fewer than `bound` classes.
pub open spec fn unify_chain(
    ss: Seq<Subs>,
    s: Subs,
    t: Subs,
    l: Seq<Variable>,
    r: Seq<Variable>,
    bound: nat,
) -> bool
    decreases bound, 0nat,
{
    let n = if l.len() < r.len() { l.len() } else { r.len() };
    &&& ss.len() == n + 1
    &&& ss[0] == s
    &&& ss[n as int] == t
    &&& forall|i: int|
        0 <= i < n ==> (#[trigger] ss[i]).num_classes() < bound && unify_steps(
            ss[i],
            ss[i + 1],
            l[i],
            r[i],
        )
}

/// What unifying `v1` with `v2` in the store `old` leaves as `new`: the summary of
/// [`unify_outcome`] and the steps of [`unify_steps`].
pub open spec fn unified(old: Subs, new: Subs, v1: Variable, v2: Variable) -> bool {
    unify_outcome(old, new, v1, v2) && unify_steps(old, new, v1, v2)
}

proof fn lemma_coarsens_trans(s1: Subs, s2: Subs, s3: Subs)
    requires
        coarsens(s1, s2),
        coarsens(s2, s3),
    ensures
        coarsens(s1, s3),
{
    assert forall|a: Variable, b: Variable|
        s1.valid(a) && s1.valid(b) && #[trigger] s1.equiv(a, b) implies #[trigger] s3.equiv(a, b) by {
        assert(s2.equiv(a, b));
    }
}

proof fn lemma_joined_coarsens(old: Subs, new: Subs, a: Variable, b: Variable, d: DescriptorModel)
    requires
        old.wf(),
        old.valid(a),
        old.valid(b),
        joined(old, new, a, b, d),
    ensures
        coarsens(old, new),
        new.equiv(a, b),
        new.desc(a) == d,
{
    assert(new.root(a) == old.root(b));
    assert(new.root(b) == old.root(b));
    assert forall|x: Variable, y: Variable|
        old.valid(x) && old.valid(y) && #[trigger] old.equiv(x, y) implies #[trigger] new.equiv(
        x,
        y,
    ) by {
        assert(new.root(x) == if old.in_either(x, a, b) { old.root(b) } else { old.root(x) });
        assert(new.root(y) == if old.in_either(y, a, b) { old.root(b) } else { old.root(y) });
    }
}

proof fn lemma_merged_below(d1: DescriptorModel, d2: DescriptorModel, n: nat)
    requires
        descriptor_below(d1, n),
        descriptor_below(d2, n),
    ensures
        descriptor_below(merged_descriptor(d1, d2), n),
{
}

/// Unifying a variable with itself leaves it in its own class with its content
/// unchanged.
pub proof fn lemma_unify_reflexive(old: Subs, new: Subs, v: Variable)
    requires
        old.wf(),
        old.valid(v),
        unified(old, new, v, v),
    ensures
        new.equiv(v, v),
        new.desc(v) == old.desc(v),
{
}

/// Unifying the same two variables a second time changes nothing: the store, and so
/// every descriptor in it, is the one the first unification left.
pub proof fn lemma_unify_idempotent(s0: Subs, s1: Subs, s2: Subs, v1: Variable, v2: Variable)
    requires
        s0.wf(),
        s0.valid(v1),
        s0.valid(v2),
        unified(s0, s1, v1, v2),
        unified(s1, s2, v1, v2),
    ensures
        s2 == s1,
        forall|v: Variable| s1.valid(v) ==> #[trigger] s2.desc(v) == s1.desc(v),
{
}

/// A recorded error survives unification with any other variable: when the first
/// variable holds `Error(p)`, or the second does and the first holds no error, both
/// end up holding `Error(p)`.
pub proof fn lemma_error_propagates(old: Subs, new: Subs, v1: Variable, v2: Variable, p: Problem)
    requires
        old.wf(),
        old.valid(v1),
        old.valid(v2),
        unified(old, new, v1, v2),
        old.desc(v1).content == ContentModel::Error(p) || (old.desc(v2).content
            == ContentModel::Error(p) && !(old.desc(v1).content is Error)),
    ensures
        new.desc(v1).content == ContentModel::Error(p),
        new.desc(v2).content == ContentModel::Error(p),
{
}

/// The two variables being unified, with their descriptors as they were found.
struct Context {
    first: Variable,
    first_desc: Descriptor,
    second: Variable,
    second_desc: Descriptor,
}

impl Context {
    /// The variables belong to `s`, and the descriptors mention only its variables.
    spec fn fits(&self, s: Subs) -> bool {
        &&& s.valid(self.first)
        &&& s.valid(self.second)
        &&& descriptor_below(self.first_desc@, s.size())
        &&& descriptor_below(self.second_desc@, s.size())
    }

    /// The descriptors are those of the variables' classes in `s`, and the classes differ.
    spec fn current(&self, s: Subs) -> bool {
        &&& s.wf()
        &&& self.fits(s)
        &&& self.first_desc@ == s.desc(self.first)
        &&& self.second_desc@ == s.desc(self.second)
        &&& !s.equiv(self.first, self.second)
    }

    spec fn merged(&self) -> DescriptorModel {
        merged_descriptor(self.first_desc@, self.second_desc@)
    }
}

/// What each step of the engine leaves behind: the outcome of [`unify`] on a pair
/// of variables not yet unified.
spec fn step_done(old: Subs, new: Subs, ctx: Context) -> bool {
    &&& new.wf()
    &&& coarsens(old, new)
    &&& new.num_classes() < old.num_classes()
    &&& new.equiv(ctx.first, ctx.second)
    &&& new.desc(ctx.first) == ctx.merged()
    &&& parts_unified(new, ctx.first_desc@.content, ctx.second_desc@.content)
    &&& !contents_recurse(ctx.first_desc@.content, ctx.second_desc@.content) ==> joined(
        old,
        new,
        ctx.first,
        ctx.second,
        ctx.merged(),
    )
    &&& unify_steps(old, new, ctx.first, ctx.second)
}

/// Unifies the types of `var1` and `var2` in `subs`.
///
/// A mismatch is not reported to the caller: it is recorded as `Error` content in the
/// merged class. Nested variables of matching shapes are unified in turn, whatever
/// the outcome for their siblings.
pub fn unify(subs: &mut Subs, var1: Variable, var2: Variable)
    requires
        old(subs).wf(),
        old(subs).valid(var1),
        old(subs).valid(var2),
    ensures
        unified(*old(subs), *final(subs), var1, var2),
    decreases old(subs).num_classes(), 5nat,
{
    if !subs.equivalent(var1, var2) {
        let ctx = Context {
            first: var1,
            first_desc: subs.get(var1),
            second: var2,
            second_desc: subs.get(var2),
        };
        unify_context(subs, &ctx);
    }
}

fn unify_context(subs: &mut Subs, ctx: &Context)
    requires
        ctx.current(*old(subs)),
    ensures
        step_done(*old(subs), *final(subs), *ctx),
    decreases old(subs).num_classes(), 4nat,
{
    match &ctx.first_desc.content {
        Content::FlexVar(opt_name) => unify_flex(subs, ctx, opt_name, &ctx.second_desc.content),
        Content::RigidVar(name) => unify_rigid(subs, ctx, name, &ctx.second_desc.content),
        Content::Structure(flat_type) => unify_structure(
            subs,
            ctx,
            flat_type,
            &ctx.second_desc.content,
        ),
        Content::Error(problem) => {
            // An error propagates, whatever it is compared with.
            merge(subs, ctx, Content::Error(*problem));
            proof {
                lemma_joined_coarsens(*old(subs), *subs, ctx.first, ctx.second, ctx.merged());
            }
        },
    }
}

fn unify_structure(subs: &mut Subs, ctx: &Context, flat_type: &FlatType, other: &Content)
    requires
        ctx.current(*old(subs)),
        ctx.first_desc.content == Content::Structure(*flat_type),
        *other == ctx.second_desc.content,
    ensures
        step_done(*old(subs), *final(subs), *ctx),
    decreases old(subs).num_classes(), 3nat,
{
    match other {
        Content::FlexVar(_) => {
            // Structure wins over a flex variable.
            merge(subs, ctx, Content::Structure(flat_type.duplicate()));
        },
        Content::RigidVar(_) => {
            // A rigid variable unifies with a flex variable only.
            merge(subs, ctx, Content::Error(Problem::GenericMismatch));
        },
        Content::Structure(other_flat_type) => {
            unify_flat_type(subs, ctx, flat_type, other_flat_type);
            return ;
        },
        Content::Error(problem) => {
            merge(subs, ctx, Content::Error(*problem));
        },
    }
    proof {
        lemma_joined_coarsens(*old(subs), *subs, ctx.first, ctx.second, ctx.merged());
    }
}

fn unify_flat_type(subs: &mut Subs, ctx: &Context, left: &FlatType, right: &FlatType)
    requires
        ctx.current(*old(subs)),
        ctx.first_desc.content == Content::Structure(*left),
        ctx.second_desc.content == Content::Structure(*right),
    ensures
        step_done(*old(subs), *final(subs), *ctx),
    decreases old(subs).num_classes(), 2nat,
{
    let ghost s0 = *subs;
    let (content, recurse) = match (left, right) {
        (FlatType::EmptyRecord, FlatType::EmptyRecord) => (
            Content::Structure(left.duplicate()),
            false,
        ),
        (
            FlatType::Apply { module_name: l_module_name, name: l_type_name, .. },
            FlatType::Apply { module_name: r_module_name, name: r_type_name, .. },
        ) => if *l_module_name == *r_module_name && *l_type_name == *r_type_name {
            (Content::Structure(right.duplicate()), true)
        } else {
            (Content::Error(Problem::GenericMismatch), false)
        },
        (FlatType::Func(l_args, _), FlatType::Func(r_args, _)) => if l_args.len()
            == r_args.len() {
            (Content::Structure(right.duplicate()), true)
        } else if l_args.len() > r_args.len() {
            (Content::Error(Problem::ExtraArguments), false)
        } else {
            (Content::Error(Problem::MissingArguments), false)
        },
        _ => (Content::Error(Problem::GenericMismatch), false),
    };
    proof {
        assert(content@ == ctx.merged().content);
        assert(recurse == contents_recurse(ctx.first_desc@.content, ctx.second_desc@.content));
        lemma_merged_below(ctx.first_desc@, ctx.second_desc@, s0.size());
    }
    merge(subs, ctx, content);
    let ghost s1 = *subs;
    proof {
        lemma_joined_coarsens(s0, s1, ctx.first, ctx.second, ctx.merged());
    }
    if recurse {
        // The classes are joined before the components are compared, so that a type
        // that refers back to itself is met again as already unified rather than
        // compared forever. The descriptor is set once more at the end, as the
        // components' unification may have reached this class.
        match (left, right) {
            (FlatType::Apply { args: l_args, .. }, FlatType::Apply { args: r_args, .. }) => {
                unify_zip(subs, l_args, r_args);
                proof {
                    assert(s1.num_classes() + 1 == s0.num_classes());
                    let ss = choose|ss: Seq<Subs>|
                        #[trigger] chain_ends(ss, s1, *subs) && unify_chain(
                            ss,
                            s1,
                            *subs,
                            l_args@,
                            r_args@,
                            s1.num_classes() + 1,
                        );
                    assert(unify_chain(ss, s1, *subs, l_args@, r_args@, s0.num_classes()));
                    assert(parts_steps(
                        s1,
                        *subs,
                        ctx.first_desc@.content,
                        ctx.second_desc@.content,
                        s0.num_classes(),
                    ));
                }
            },
            (FlatType::Func(l_args, l_ret), FlatType::Func(r_args, r_ret)) => {
                unify_zip(subs, l_args, r_args);
                let ghost s2 = *subs;
                unify(subs, *l_ret, *r_ret);
                proof {
                    assert(s1.num_classes() + 1 == s0.num_classes());
                    assert(s2.num_classes() < s0.num_classes());
                    let ss = choose|ss: Seq<Subs>|
                        #[trigger] chain_ends(ss, s1, s2) && unify_chain(
                            ss,
                            s1,
                            s2,
                            l_args@,
                            r_args@,
                            s1.num_classes() + 1,
                        );
                    assert(unify_chain(ss, s1, s2, l_args@, r_args@, s0.num_classes()));
                    assert(parts_steps(
                        s1,
                        *subs,
                        ctx.first_desc@.content,
                        ctx.second_desc@.content,
                        s0.num_classes(),
                    ));
                    lemma_coarsens_trans(s1, s2, *subs);
                    assert forall|i: int|
                        0 <= i < l_args@.len() && i < r_args@.len() implies subs.equiv(
                        #[trigger] l_args@[i],
                        r_args@[i],
                    ) by {
                        assert(s2.equiv(l_args@[i], r_args@[i]));
                    }
                }
            },
            _ => {},
        }
        let ghost s3 = *subs;
        merge(subs, ctx, Content::Structure(right.duplicate()));
        proof {
            lemma_joined_coarsens(s3, *subs, ctx.first, ctx.second, ctx.merged());
            assert(joined(s0, s1, ctx.first, ctx.second, ctx.merged()));
            assert(joined(s3, *subs, ctx.first, ctx.second, ctx.merged()));
            assert(contents_recurse(ctx.first_desc@.content, ctx.second_desc@.content));
            assert(unify_steps(s0, *subs, ctx.first, ctx.second));
            lemma_coarsens_trans(s0, s1, s3);
            lemma_coarsens_trans(s0, s3, *subs);
            if let (FlatTypeModel::Apply { args: a1, .. }, FlatTypeModel::Apply { args: a2, .. })
                = (left@, right@) {
                assert forall|i: int| 0 <= i < a1.len() && i < a2.len() implies subs.equiv(
                    #[trigger] a1[i],
                    a2[i],
                ) by {
                    assert(s3.equiv(a1[i], a2[i]));
                }
            }
            if let (FlatTypeModel::Func(a1, r1), FlatTypeModel::Func(a2, r2)) = (left@, right@) {
                assert forall|i: int| 0 <= i < a1.len() && i < a2.len() implies subs.equiv(
                    #[trigger] a1[i],
                    a2[i],
                ) by {
                    assert(s3.equiv(a1[i], a2[i]));
                }
                assert(s3.equiv(r1, r2));
            }
        }
    }
}

fn unify_zip(subs: &mut Subs, left: &Vec<Variable>, right: &Vec<Variable>)
    requires
        old(subs).wf(),
        forall|i: int| 0 <= i < left@.len() ==> old(subs).valid(#[trigger] left@[i]),
        forall|i: int| 0 <= i < right@.len() ==> old(subs).valid(#[trigger] right@[i]),
    ensures
        final(subs).wf(),
        coarsens(*old(subs), *final(subs)),
        pairwise_equiv(*final(subs), left@, right@),
        exists|ss: Seq<Subs>|
            #[trigger] chain_ends(ss, *old(subs), *final(subs)) && unify_chain(
                ss,
                *old(subs),
                *final(subs),
                left@,
                right@,
                old(subs).num_classes() + 1,
            ),
    decreases old(subs).num_classes(), 6nat,
{
    let n: usize = if left.len() < right.len() {
        left.len()
    } else {
        right.len()
    };
    let ghost bound = old(subs).num_classes() + 1;
    let ghost mut ss: Seq<Subs> = seq![*subs];
    let mut i: usize = 0;
    while i < n
        invariant
            n <= left@.len(),
            n <= right@.len(),
            n == left@.len() || n == right@.len(),
            i <= n,
            subs.wf(),
            coarsens(*old(subs), *subs),
            bound == old(subs).num_classes() + 1,
            forall|j: int| 0 <= j < left@.len() ==> old(subs).valid(#[trigger] left@[j]),
            forall|j: int| 0 <= j < right@.len() ==> old(subs).valid(#[trigger] right@[j]),
            forall|j: int| 0 <= j < i ==> subs.equiv(#[trigger] left@[j], right@[j]),
            ss.len() == i + 1,
            ss[0] == *old(subs),
            ss[i as int] == *subs,
            forall|j: int|
                0 <= j < i ==> (#[trigger] ss[j]).num_classes() < bound && unify_steps(
                    ss[j],
                    ss[j + 1],
                    left@[j],
                    right@[j],
                ),
        decreases n - i,
    {
        let ghost before = *subs;
        unify(subs, left[i], right[i]);
        proof {
            lemma_coarsens_trans(*old(subs), before, *subs);
            assert forall|j: int| 0 <= j < i + 1 implies subs.equiv(
                #[trigger] left@[j],
                right@[j],
            ) by {
                if j < i {
                    assert(before.equiv(left@[j], right@[j]));
                }
            }
            let ss0 = ss;
            ss = ss.push(*subs);
            assert forall|j: int|
                0 <= j < i + 1 implies (#[trigger] ss[j]).num_classes() < bound && unify_steps(
                ss[j],
                ss[j + 1],
                left@[j],
                right@[j],
            ) by {
                assert(ss[j] == ss0[j]);
                if j < i {
                    assert(ss[j + 1] == ss0[j + 1]);
                }
            }
        }
        i = i + 1;
    }
    proof {
        assert(unify_chain(ss, *old(subs), *subs, left@, right@, bound));
        assert(chain_ends(ss, *old(subs), *subs));
    }
}

fn unify_rigid(subs: &mut Subs, ctx: &Context, name: &String, other: &Content)
    requires
        ctx.current(*old(subs)),
        ctx.first_desc.content == Content::RigidVar(*name),
        *other == ctx.second_desc.content,
    ensures
        step_done(*old(subs), *final(subs), *ctx),
{
    match other {
        Content::FlexVar(_) => {
            // Rigid wins over a flex variable.
            merge(subs, ctx, Content::RigidVar(name.clone()));
        },
        Content::RigidVar(_) | Content::Structure(_) => {
            // A rigid variable unifies with a flex variable only, even where two
            // rigid names are the same.
            merge(subs, ctx, Content::Error(Problem::GenericMismatch));
        },
        Content::Error(problem) => {
            merge(subs, ctx, Content::Error(*problem));
        },
    }
    proof {
        lemma_joined_coarsens(*old(subs), *subs, ctx.first, ctx.second, ctx.merged());
    }
}

fn unify_flex(subs: &mut Subs, ctx: &Context, opt_name: &Option<String>, other: &Content)
    requires
        ctx.current(*old(subs)),
        ctx.first_desc.content == Content::FlexVar(*opt_name),
        *other == ctx.second_desc.content,
    ensures
        step_done(*old(subs), *final(subs), *ctx),
{
    match other {
        Content::FlexVar(None) => {
            // Where only the first flex variable is named, the name is kept.
            let kept = match opt_name {
                Some(n) => Some(n.clone()),
                None => None,
            };
            merge(subs, ctx, Content::FlexVar(kept));
        },
        _ => {
            // Otherwise the second content wins, its name included.
            merge(subs, ctx, other.duplicate());
        },
    }
    proof {
        lemma_joined_coarsens(*old(subs), *subs, ctx.first, ctx.second, ctx.merged());
    }
}

/// Joins the classes of the context's variables under `content`, with the lower of
/// the two ranks, no mark and no copy.
fn merge(subs: &mut Subs, ctx: &Context, content: Content)
    requires
        old(subs).wf(),
        ctx.fits(*old(subs)),
        content_below(content@, old(subs).size()),
    ensures
        joined(
            *old(subs),
            *final(subs),
            ctx.first,
            ctx.second,
            DescriptorModel {
                content: content@,
                rank: ctx.merged().rank,
                mark: Mark::spec_none(),
                copy: None,
            },
        ),
{
    let rank = if ctx.first_desc.rank <= ctx.second_desc.rank {
        ctx.first_desc.rank
    } else {
        ctx.second_desc.rank
    };
    let desc = Descriptor { content, rank, mark: Mark::none(), copy: None };
    subs.union(ctx.first, ctx.second, desc);
}

} // verus!
