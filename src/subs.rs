use vstd::prelude::*;

verus! {

/// A handle to a type variable: a dense index into a [`Subs`] store.
#[derive(Clone, Copy, Debug, PartialEq, Eq, Structural)]
pub struct Variable {
    pub index: usize,
}

/// A generation tag used by passes other than unification.
#[derive(Clone, Copy, Debug, PartialEq, Eq, Structural)]
pub struct Mark {
    pub value: u32,
}

impl Mark {
    pub open spec fn spec_none() -> Mark {
        Mark { value: 0 }
    }

    /// The mark that carries no information.
    pub fn none() -> (r: Mark)
        ensures
            r == Mark::spec_none(),
    {
        Mark { value: 0 }
    }
}

/// The kinds of unification failure.
#[derive(Clone, Copy, Debug, PartialEq, Eq, Structural)]
pub enum Problem {
    GenericMismatch,
    ExtraArguments,
    MissingArguments,
}

/// The structural shapes a type can take.
#[derive(Clone, Debug, PartialEq, Eq)]
pub enum FlatType {
    EmptyRecord,
    Apply { module_name: String, name: String, args: Vec<Variable> },
    Func(Vec<Variable>, Variable),
}

/// What a variable currently denotes.
#[derive(Clone, Debug, PartialEq, Eq)]
pub enum Content {
    FlexVar(Option<String>),
    RigidVar(String),
    Structure(FlatType),
    Error(Problem),
}

/// What is known of an equivalence class of variables.
#[derive(Clone, Debug, PartialEq, Eq)]
pub struct Descriptor {
    pub content: Content,
    pub rank: u32,
    pub mark: Mark,
    pub copy: Option<Variable>,
}

/// The mathematical form of a [`FlatType`].
pub enum FlatTypeModel {
    EmptyRecord,
    Apply { module_name: Seq<char>, name: Seq<char>, args: Seq<Variable> },
    Func(Seq<Variable>, Variable),
}

/// The mathematical form of a [`Content`].
pub enum ContentModel {
    FlexVar(Option<Seq<char>>),
    RigidVar(Seq<char>),
    Structure(FlatTypeModel),
    Error(Problem),
}

/// The mathematical form of a [`Descriptor`].
pub struct DescriptorModel {
    pub content: ContentModel,
    pub rank: u32,
    pub mark: Mark,
    pub copy: Option<Variable>,
}

impl View for FlatType {
    type V = FlatTypeModel;

    open spec fn view(&self) -> FlatTypeModel {
        match self {
            FlatType::EmptyRecord => FlatTypeModel::EmptyRecord,
            FlatType::Apply { module_name, name, args } => FlatTypeModel::Apply {
                module_name: module_name@,
                name: name@,
                args: args@,
            },
            FlatType::Func(args, ret) => FlatTypeModel::Func(args@, *ret),
        }
    }
}

impl View for Content {
    type V = ContentModel;

    open spec fn view(&self) -> ContentModel {
        match self {
            Content::FlexVar(None) => ContentModel::FlexVar(None),
            Content::FlexVar(Some(n)) => ContentModel::FlexVar(Some(n@)),
            Content::RigidVar(n) => ContentModel::RigidVar(n@),
            Content::Structure(f) => ContentModel::Structure(f@),
            Content::Error(p) => ContentModel::Error(*p),
        }
    }
}

impl View for Descriptor {
    type V = DescriptorModel;

    open spec fn view(&self) -> DescriptorModel {
        DescriptorModel { content: self.content@, rank: self.rank, mark: self.mark, copy: self.copy }
    }
}

/// All variables in `vs` are handles of a store with `n` variables.
pub open spec fn vars_below(vs: Seq<Variable>, n: nat) -> bool {
    forall|i: int| 0 <= i < vs.len() ==> (#[trigger] vs[i]).index < n
}

/// Every variable that `f` mentions is a handle of a store with `n` variables.
pub open spec fn flat_type_below(f: FlatTypeModel, n: nat) -> bool {
    match f {
        FlatTypeModel::EmptyRecord => true,
        FlatTypeModel::Apply { args, .. } => vars_below(args, n),
        FlatTypeModel::Func(args, ret) => vars_below(args, n) && ret.index < n,
    }
}

/// Every variable that `c` mentions is a handle of a store with `n` variables.
pub open spec fn content_below(c: ContentModel, n: nat) -> bool {
    match c {
        ContentModel::Structure(f) => flat_type_below(f, n),
        _ => true,
    }
}

/// Every variable that `d` mentions is a handle of a store with `n` variables.
pub open spec fn descriptor_below(d: DescriptorModel, n: nat) -> bool {
    &&& content_below(d.content, n)
    &&& match d.copy {
        Some(v) => v.index < n,
        None => true,
    }
}

fn copy_vars(vs: &Vec<Variable>) -> (r: Vec<Variable>)
    ensures
        r@ == vs@,
{
    let mut r: Vec<Variable> = Vec::new();
    let mut i: usize = 0;
    while i < vs.len()
        invariant
            i <= vs.len(),
            r@ == vs@.subrange(0, i as int),
        decreases vs.len() - i,
    {
        r.push(vs[i]);
        i = i + 1;
    }
    assert(r@ =~= vs@);
    r
}

impl FlatType {
    /// A copy of this shape, equal to it.
    pub fn duplicate(&self) -> (r: FlatType)
        ensures
            r@ == self@,
    {
        match self {
            FlatType::EmptyRecord => FlatType::EmptyRecord,
            FlatType::Apply { module_name, name, args } => FlatType::Apply {
                module_name: module_name.clone(),
                name: name.clone(),
                args: copy_vars(args),
            },
            FlatType::Func(args, ret) => FlatType::Func(copy_vars(args), *ret),
        }
    }
}

impl Content {
    /// A copy of this content, equal to it.
    pub fn duplicate(&self) -> (r: Content)
        ensures
            r@ == self@,
    {
        match self {
            Content::FlexVar(None) => Content::FlexVar(None),
            Content::FlexVar(Some(n)) => Content::FlexVar(Some(n.clone())),
            Content::RigidVar(n) => Content::RigidVar(n.clone()),
            Content::Structure(f) => Content::Structure(f.duplicate()),
            Content::Error(p) => Content::Error(*p),
        }
    }
}

impl Descriptor {
    /// A descriptor of rank 0 with the given content, no mark and no copy.
    pub fn from_content(content: Content) -> (r: Descriptor)
        ensures
            r@ == (DescriptorModel { content: content@, rank: 0, mark: Mark::spec_none(), copy: None }),
    {
        Descriptor { content, rank: 0, mark: Mark::none(), copy: None }
    }

    /// A copy of this descriptor, equal to it.
    pub fn duplicate(&self) -> (r: Descriptor)
        ensures
            r@ == self@,
    {
        Descriptor { content: self.content.duplicate(), rank: self.rank, mark: self.mark, copy: self.copy }
    }
}


/// Number of indices `i < n` with `rep[i] == i`: the class representatives among them.
pub open spec fn count_roots(rep: Seq<usize>, n: nat) -> nat
    decreases n,
{
    if n == 0 {
        0
    } else {
        count_roots(rep, (n - 1) as nat) + if rep[n - 1] == n - 1 { 1nat } else { 0nat }
    }
}

/// Two parent tables whose representatives agree everywhere but at `k` count the same,
/// less one when `k` is below `n` and only `old_rep` has it as a representative.
proof fn lemma_count_roots(new_rep: Seq<usize>, old_rep: Seq<usize>, n: nat, k: nat)
    requires
        forall|i: int| 0 <= i < n && i != k ==> (new_rep[i] == i) == (old_rep[i] == i),
        k < n ==> old_rep[k as int] == k && new_rep[k as int] != k,
    ensures
        k < n ==> count_roots(new_rep, n) + 1 == count_roots(old_rep, n),
        k >= n ==> count_roots(new_rep, n) == count_roots(old_rep, n),
    decreases n,
{
    if n > 0 {
        lemma_count_roots(new_rep, old_rep, (n - 1) as nat, k);
    }
}

/// The substitution store: a union-find partition of type variables, with one
/// descriptor for each class.
///
/// Each variable records its class representative directly, so that looking one
/// up is a single read.
pub struct Subs {
    rep: Vec<usize>,
    descs: Vec<Descriptor>,
}

impl Subs {
    /// Number of variables allocated so far.
    pub closed spec fn size(&self) -> nat {
        self.rep@.len()
    }

    /// The index of the representative of `v`'s class.
    pub closed spec fn root(&self, v: Variable) -> nat {
        self.rep@[v.index as int] as nat
    }

    /// The descriptor held by the class whose representative has index `r`.
    pub closed spec fn class_desc(&self, r: nat) -> DescriptorModel {
        self.descs@[r as int]@
    }

    /// The store's internal consistency: every variable points to a representative
    /// of the store, and every descriptor mentions only variables of the store.
    pub closed spec fn wf(&self) -> bool {
        &&& self.rep@.len() == self.descs@.len()
        &&& forall|i: int|
            0 <= i < self.rep@.len() ==> {
                &&& (#[trigger] self.rep@[i]) < self.rep@.len()
                &&& self.rep@[self.rep@[i] as int] == self.rep@[i]
            }
        &&& forall|i: int|
            0 <= i < self.descs@.len() ==> descriptor_below(
                (#[trigger] self.descs@[i])@,
                self.rep@.len() as nat,
            )
    }

    /// Number of equivalence classes.
    pub closed spec fn num_classes(&self) -> nat {
        count_roots(self.rep@, self.rep@.len() as nat)
    }

    /// `v` is a handle of this store.
    pub open spec fn valid(&self, v: Variable) -> bool {
        v.index < self.size()
    }

    /// `a` and `b` belong to one class.
    pub open spec fn equiv(&self, a: Variable, b: Variable) -> bool {
        self.root(a) == self.root(b)
    }

    /// The descriptor of `v`'s class.
    pub open spec fn desc(&self, v: Variable) -> DescriptorModel {
        self.class_desc(self.root(v))
    }

    /// `v` belongs to the class of `a` or to that of `b`.
    pub open spec fn in_either(&self, v: Variable, a: Variable, b: Variable) -> bool {
        self.equiv(v, a) || self.equiv(v, b)
    }

    /// What holds of every class in a well-formed store: its representative is a
    /// variable of the store, representing itself, and its descriptor mentions only
    /// variables of the store.
    pub proof fn lemma_class(&self, v: Variable)
        requires
            self.wf(),
            self.valid(v),
        ensures
            self.root(v) < self.size(),
            self.root(Variable { index: self.root(v) as usize }) == self.root(v),
            descriptor_below(self.desc(v), self.size()),
    {
        reveal(Subs::wf);
    }

    /// An empty store.
    pub fn new() -> (r: Subs)
        ensures
            r.wf(),
            r.size() == 0,
            r.num_classes() == 0,
    {
        Subs { rep: Vec::new(), descs: Vec::new() }
    }

    /// Number of variables allocated so far.
    pub fn len(&self) -> (r: usize)
        requires
            self.wf(),
        ensures
            r == self.size(),
    {
        self.rep.len()
    }

    /// Allocates a new variable in a class of its own, described by `desc`.
    pub fn fresh(&mut self, desc: Descriptor) -> (v: Variable)
        requires
            old(self).wf(),
            old(self).size() < usize::MAX,
            descriptor_below(desc@, old(self).size() + 1),
        ensures
            final(self).wf(),
            v.index == old(self).size(),
            final(self).size() == old(self).size() + 1,
            final(self).num_classes() == old(self).num_classes() + 1,
            final(self).root(v) == v.index,
            final(self).desc(v) == desc@,
            forall|a: Variable|
                old(self).valid(a) ==> #[trigger] final(self).root(a) == old(self).root(a)
                    && final(self).desc(a) == old(self).desc(a),
    {
        let n = self.rep.len();
        self.rep.push(n);
        self.descs.push(desc);
        proof {
            let r = self.rep@;
            assert forall|i: int| 0 <= i < r.len() implies descriptor_below(
                (#[trigger] self.descs@[i])@,
                r.len() as nat,
            ) by {
                if i < n {
                    assert(descriptor_below(old(self).descs@[i]@, n as nat));
                    assert(old(self).descs@[i] == self.descs@[i]);
                    let d = self.descs@[i]@;
                    if let ContentModel::Structure(f) = d.content {
                        if let FlatTypeModel::Apply { args, .. } = f {
                            assert forall|j: int| 0 <= j < args.len() implies (
                            #[trigger] args[j]).index < r.len() by {
                                assert(args[j].index < n);
                            }
                        }
                        if let FlatTypeModel::Func(args, ret) = f {
                            assert forall|j: int| 0 <= j < args.len() implies (
                            #[trigger] args[j]).index < r.len() by {
                                assert(args[j].index < n);
                            }
                        }
                    }
                }
            }
            assert(count_roots(r, r.len() as nat) == count_roots(r, n as nat) + 1);
            lemma_count_roots(r, old(self).rep@, n as nat, n as nat);
        }
        Variable { index: n }
    }

    /// The representative of `v`'s class.
    pub fn representative(&self, v: Variable) -> (r: Variable)
        requires
            self.wf(),
            self.valid(v),
        ensures
            r.index == self.root(v),
            self.valid(r),
            self.equiv(r, v),
    {
        proof {
            self.lemma_class(v);
        }
        Variable { index: self.rep[v.index] }
    }

    /// Whether `a` and `b` belong to one class.
    pub fn equivalent(&self, a: Variable, b: Variable) -> (r: bool)
        requires
            self.wf(),
            self.valid(a),
            self.valid(b),
        ensures
            r == self.equiv(a, b),
    {
        self.rep[a.index] == self.rep[b.index]
    }

    /// Merges the classes of `a` and `b` into one, described by `desc`. When they are
    /// one class already, only its descriptor is replaced.
    pub fn union(&mut self, a: Variable, b: Variable, desc: Descriptor)
        requires
            old(self).wf(),
            old(self).valid(a),
            old(self).valid(b),
            descriptor_below(desc@, old(self).size()),
        ensures
            final(self).wf(),
            final(self).size() == old(self).size(),
            forall|v: Variable|
                old(self).valid(v) ==> #[trigger] final(self).root(v) == if old(self).in_either(
                    v,
                    a,
                    b,
                ) {
                    old(self).root(b)
                } else {
                    old(self).root(v)
                },
            forall|v: Variable|
                old(self).valid(v) ==> #[trigger] final(self).desc(v) == if old(self).in_either(
                    v,
                    a,
                    b,
                ) {
                    desc@
                } else {
                    old(self).desc(v)
                },
            old(self).equiv(a, b) ==> final(self).num_classes() == old(self).num_classes(),
            !old(self).equiv(a, b) ==> final(self).num_classes() + 1 == old(self).num_classes(),
    {
        let ra = self.rep[a.index];
        let rb = self.rep[b.index];
        let n = self.rep.len();
        if ra != rb {
            let mut i: usize = 0;
            while i < n
                invariant
                    n == self.rep@.len(),
                    n == old(self).rep@.len(),
                    self.descs == old(self).descs,
                    ra == old(self).rep@[a.index as int],
                    rb == old(self).rep@[b.index as int],
                    ra != rb,
                    a.index < n,
                    b.index < n,
                    old(self).wf(),
                    i <= n,
                    forall|j: int|
                        0 <= j < n ==> #[trigger] self.rep@[j] == if j < i && old(self).rep@[j]
                            == ra {
                            rb
                        } else {
                            old(self).rep@[j]
                        },
                decreases n - i,
            {
                if self.rep[i] == ra {
                    self.rep.set(i, rb);
                }
                i = i + 1;
            }
            proof {
                lemma_count_roots(self.rep@, old(self).rep@, n as nat, ra as nat);
            }
        }
        self.descs.set(rb, desc);
        proof {
            if ra == rb {
                assert(self.rep@ == old(self).rep@);
            }
        }
    }

    /// The descriptor of `v`'s class.
    pub fn get(&self, v: Variable) -> (r: Descriptor)
        requires
            self.wf(),
            self.valid(v),
        ensures
            r@ == self.desc(v),
            descriptor_below(r@, self.size()),
    {
        proof {
            self.lemma_class(v);
        }
        self.descs[self.rep[v.index]].duplicate()
    }
}

} // verus!
