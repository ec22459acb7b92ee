//! The type shapes and place projections that the analysis reads, and the
//! access classifier over them.
use vstd::prelude::*;

verus! {

broadcast use vstd::std_specs::vec::axiom_vec_index_decreases;

/// Whether a structured type is a struct, an enum or a union.
#[derive(Clone, Copy, PartialEq, Eq, Structural, Debug)]
pub enum AdtKind {
    Struct,
    Enum,
    Union,
}

/// One structured data type (struct, enum or union), possibly instantiated.
///
/// `def` identifies the definition; `inst` distinguishes generic
/// instantiations of it. `num_fields` is the field count of the definition.
#[derive(Clone, Copy, PartialEq, Eq, Structural, Debug)]
pub struct Adt {
    pub def: u64,
    pub inst: u64,
    pub kind: AdtKind,
    pub num_fields: usize,
}

#[derive(Clone, Copy, PartialEq, Eq, Structural, Debug)]
pub enum Mutability {
    Not,
    Mut,
}

/// The declared type of a local, reduced to the shapes the analysis reads.
pub enum Ty {
    /// A structured type with its generic type arguments.
    Adt(Adt, Vec<Ty>),
    /// A shared or exclusive reference.
    Ref(Mutability, Box<Ty>),
    Tuple(Vec<Ty>),
    Slice(Box<Ty>),
    Array(Box<Ty>),
    /// Anything else: scalars, raw pointers, function types, generics.
    Other,
}

/// One step of a place's projection chain.
#[derive(Clone, Copy, PartialEq, Eq, Structural, Debug)]
pub enum Proj {
    Deref,
    Field(usize),
    Index,
    Downcast(usize),
    Other,
}

/// How a place of structured type is touched.
#[derive(Clone, Debug)]
pub enum AdtAccess {
    /// Owned, no projection.
    Plain,
    /// Behind a shared reference, no projection.
    Ref,
    /// Behind an exclusive reference, no projection.
    MutRef,
    /// Exactly one dereference.
    Deref,
    /// A field reached through a shared reference.
    RefVariantField(usize),
    /// A field reached through an exclusive reference.
    MutRefVariantField(usize),
    /// A field reached through a dereference.
    DerefVariantField(usize),
    /// Any other projection chain, kept whole.
    Unknown(Vec<Proj>),
}

/// The mathematical value of an [`AdtAccess`].
pub enum AccessView {
    Plain,
    Ref,
    MutRef,
    Deref,
    RefVariantField(usize),
    MutRefVariantField(usize),
    DerefVariantField(usize),
    Unknown(Seq<Proj>),
}

impl View for AdtAccess {
    type V = AccessView;

    open spec fn view(&self) -> AccessView {
        match self {
            AdtAccess::Plain => AccessView::Plain,
            AdtAccess::Ref => AccessView::Ref,
            AdtAccess::MutRef => AccessView::MutRef,
            AdtAccess::Deref => AccessView::Deref,
            AdtAccess::RefVariantField(i) => AccessView::RefVariantField(*i),
            AdtAccess::MutRefVariantField(i) => AccessView::MutRefVariantField(*i),
            AdtAccess::DerefVariantField(i) => AccessView::DerefVariantField(*i),
            AdtAccess::Unknown(p) => AccessView::Unknown(p@),
        }
    }
}

/// Access of an ADT-typed place given its projection chain.
pub open spec fn direct_access(proj: Seq<Proj>) -> AccessView {
    if proj.len() >= 2 && proj[0] == Proj::Deref && proj[1] is Field {
        AccessView::DerefVariantField(proj[1]->Field_0)
    } else if proj.len() == 1 && proj[0] == Proj::Deref {
        AccessView::Deref
    } else if proj.len() == 0 {
        AccessView::Plain
    } else {
        AccessView::Unknown(proj)
    }
}

pub open spec fn ref_access(m: Mutability) -> AccessView {
    if m == Mutability::Mut {
        AccessView::MutRef
    } else {
        AccessView::Ref
    }
}

pub open spec fn ref_field_access(m: Mutability, i: usize) -> AccessView {
    if m == Mutability::Mut {
        AccessView::MutRefVariantField(i)
    } else {
        AccessView::RefVariantField(i)
    }
}

/// What a place of type `ty` with projection `proj` touches, in order: each
/// entry names a type and, where one is classified, its access kind. An entry
/// without a kind still registers the local for that type.
pub open spec fn observe(ty: Ty, proj: Seq<Proj>) -> Seq<(Adt, Option<AccessView>)>
    decreases ty,
{
    match ty {
        Ty::Adt(a, _) => seq![(a, Some(direct_access(proj)))],
        Ty::Ref(m, inner) => match *inner {
            Ty::Adt(a, _) => if proj.len() == 0 {
                seq![(a, Some(ref_access(m)))]
            } else if proj[0] is Field && a.kind == AdtKind::Struct {
                seq![(a, Some(ref_field_access(m, proj[0]->Field_0)))]
            } else {
                seq![(a, None::<AccessView>)].add(observe(*inner, proj))
            },
            _ => observe(*inner, proj),
        },
        Ty::Tuple(v) => observe_list(v@, proj),
        Ty::Slice(t) => observe(*t, proj),
        Ty::Array(t) => observe(*t, proj),
        Ty::Other => seq![],
    }
}

pub open spec fn observe_list(s: Seq<Ty>, proj: Seq<Proj>) -> Seq<(Adt, Option<AccessView>)>
    decreases s,
{
    if s.len() == 0 {
        seq![]
    } else {
        observe_list(s.drop_last(), proj).add(observe(s.last(), proj))
    }
}

/// The types owned by a value of type `ty`: the type itself when structured,
/// then its generic type arguments, array elements and tuple members, in
/// order; references and slices stop the walk.
pub open spec fn flatten(ty: Ty) -> Seq<Adt>
    decreases ty,
{
    match ty {
        Ty::Adt(a, args) => seq![a].add(flatten_list(args@)),
        Ty::Array(t) => flatten(*t),
        Ty::Tuple(v) => flatten_list(v@),
        _ => seq![],
    }
}

pub open spec fn flatten_list(s: Seq<Ty>) -> Seq<Adt>
    decreases s,
{
    if s.len() == 0 {
        seq![]
    } else {
        flatten_list(s.drop_last()).add(flatten(s.last()))
    }
}

impl AdtAccess {
    /// An equal copy.
    pub fn duplicate(&self) -> (r: AdtAccess)
        ensures
            r@ == self@,
    {
        match self {
            AdtAccess::Plain => AdtAccess::Plain,
            AdtAccess::Ref => AdtAccess::Ref,
            AdtAccess::MutRef => AdtAccess::MutRef,
            AdtAccess::Deref => AdtAccess::Deref,
            AdtAccess::RefVariantField(i) => AdtAccess::RefVariantField(*i),
            AdtAccess::MutRefVariantField(i) => AdtAccess::MutRefVariantField(*i),
            AdtAccess::DerefVariantField(i) => AdtAccess::DerefVariantField(*i),
            AdtAccess::Unknown(p) => AdtAccess::Unknown(copy_proj(p)),
        }
    }

    /// Whether two accesses are the same kind.
    pub fn same(&self, o: &AdtAccess) -> (r: bool)
        ensures
            r == (self@ == o@),
    {
        match (self, o) {
            (AdtAccess::Plain, AdtAccess::Plain) => true,
            (AdtAccess::Ref, AdtAccess::Ref) => true,
            (AdtAccess::MutRef, AdtAccess::MutRef) => true,
            (AdtAccess::Deref, AdtAccess::Deref) => true,
            (AdtAccess::RefVariantField(i), AdtAccess::RefVariantField(j)) => *i == *j,
            (AdtAccess::MutRefVariantField(i), AdtAccess::MutRefVariantField(j)) => *i == *j,
            (AdtAccess::DerefVariantField(i), AdtAccess::DerefVariantField(j)) => *i == *j,
            (AdtAccess::Unknown(p), AdtAccess::Unknown(q)) => same_proj(p, q),
            _ => false,
        }
    }
}

fn copy_proj(p: &Vec<Proj>) -> (r: Vec<Proj>)
    ensures
        r@ == p@,
{
    let mut r: Vec<Proj> = Vec::new();
    let mut i: usize = 0;
    while i < p.len()
        invariant
            i <= p.len(),
            r@ == p@.take(i as int),
        decreases p.len() - i,
    {
        r.push(p[i]);
        i += 1;
        assert(r@ == p@.take(i as int));
    }
    assert(p@.take(p.len() as int) == p@);
    r
}

fn same_proj(p: &Vec<Proj>, q: &Vec<Proj>) -> (r: bool)
    ensures
        r == (p@ == q@),
{
    if p.len() != q.len() {
        return false;
    }
    let mut i: usize = 0;
    while i < p.len()
        invariant
            i <= p.len(),
            p.len() == q.len(),
            forall|j: int| 0 <= j < i ==> p@[j] == q@[j],
        decreases p.len() - i,
    {
        if p[i] != q[i] {
            return false;
        }
        i += 1;
    }
    assert(p@ =~= q@);
    true
}

/// Access of an ADT-typed place given its projection chain.
pub fn classify_direct(proj: &Vec<Proj>) -> (r: AdtAccess)
    ensures
        r@ == direct_access(proj@),
{
    if proj.len() >= 2 && proj[0] == Proj::Deref {
        if let Proj::Field(i) = proj[1] {
            return AdtAccess::DerefVariantField(i);
        }
    }
    if proj.len() == 1 && proj[0] == Proj::Deref {
        AdtAccess::Deref
    } else if proj.len() == 0 {
        AdtAccess::Plain
    } else {
        AdtAccess::Unknown(copy_proj(proj))
    }
}

/// Classifies a place of type `ty` with projection `proj`, appending what it
/// touches to `out`.
pub fn observe_place(ty: &Ty, proj: &Vec<Proj>, out: &mut Vec<(Adt, Option<AdtAccess>)>)
    ensures
        obs_view(final(out)@) == obs_view(old(out)@).add(observe(*ty, proj@)),
    decreases ty,
{
    match ty {
        Ty::Adt(a, _) => {
            out.push((*a, Some(classify_direct(proj))));
            assert(obs_view(final(out)@) =~= obs_view(old(out)@).add(observe(*ty, proj@)));
        },
        Ty::Ref(m, inner) => {
            match &**inner {
                Ty::Adt(a, _) => {
                    if proj.len() == 0 {
                        let acc = if *m == Mutability::Mut {
                            AdtAccess::MutRef
                        } else {
                            AdtAccess::Ref
                        };
                        out.push((*a, Some(acc)));
                        assert(obs_view(final(out)@) =~= obs_view(old(out)@).add(observe(*ty, proj@)));
                    } else if matches!(proj[0], Proj::Field(_)) && a.kind == AdtKind::Struct {
                        let i = match proj[0] {
                            Proj::Field(i) => i,
                            _ => 0,
                        };
                        let acc = if *m == Mutability::Mut {
                            AdtAccess::MutRefVariantField(i)
                        } else {
                            AdtAccess::RefVariantField(i)
                        };
                        out.push((*a, Some(acc)));
                        assert(obs_view(final(out)@) =~= obs_view(old(out)@).add(observe(*ty, proj@)));
                    } else {
                        out.push((*a, None));
                        let ghost mid = out@;
                        assert(obs_view(mid) =~= obs_view(old(out)@).add(seq![(*a, None::<AccessView>)]));
                        observe_place(inner, proj, out);
                        assert(obs_view(final(out)@) =~= obs_view(old(out)@).add(observe(*ty, proj@)));
                    }
                },
                _ => {
                    observe_place(inner, proj, out);
                },
            }
        },
        Ty::Tuple(v) => {
            let mut i: usize = 0;
            while i < v.len()
                invariant
                    i <= v.len(),
                    *ty == Ty::Tuple(*v),
                    obs_view(out@) == obs_view(old(out)@).add(observe_list(v@.take(i as int), proj@)),
                decreases v.len() - i,
            {
                proof {
                    assert(v@.take(i + 1).drop_last() =~= v@.take(i as int));
                }
                proof {
                    assert(decreases_to!(*ty => (*ty)->Tuple_0));
                    assert(decreases_to!(*v => v[i as int]));
                }
                observe_place(&v[i], proj, out);
                i += 1;
            }
            assert(v@.take(v.len() as int) =~= v@);
        },
        Ty::Slice(t) => {
            observe_place(t, proj, out);
        },
        Ty::Array(t) => {
            observe_place(t, proj, out);
        },
        Ty::Other => {
            assert(obs_view(final(out)@) =~= obs_view(old(out)@));
        },
    }
}

/// The view of a list of observations.
pub open spec fn obs_view(s: Seq<(Adt, Option<AdtAccess>)>) -> Seq<(Adt, Option<AccessView>)> {
    s.map_values(|o: (Adt, Option<AdtAccess>)| (o.0, match o.1 {
        Some(a) => Some(a@),
        None => None,
    }))
}

/// Appends the types owned by a value of type `ty` to `out`.
pub fn flatten_adts(ty: &Ty, out: &mut Vec<Adt>)
    ensures
        final(out)@ == old(out)@.add(flatten(*ty)),
    decreases ty,
{
    match ty {
        Ty::Adt(a, args) => {
            out.push(*a);
            let mut i: usize = 0;
            while i < args.len()
                invariant
                    i <= args.len(),
                    *ty == Ty::Adt(*a, *args),
                    out@ == old(out)@.add(seq![*a]).add(flatten_list(args@.take(i as int))),
                decreases args.len() - i,
            {
                proof {
                    assert(args@.take(i + 1).drop_last() =~= args@.take(i as int));
                }
                proof {
                    assert(decreases_to!(*ty => (*ty)->Adt_1));
                    assert(decreases_to!(*args => args[i as int]));
                }
                flatten_adts(&args[i], out);
                proof {
                    assert(flatten_list(args@.take(i + 1)) == flatten_list(args@.take(i as int)).add(flatten(args@[i as int])));
                }
                i += 1;
            }
            assert(args@.take(args.len() as int) =~= args@);
            assert(final(out)@ =~= old(out)@.add(flatten(*ty)));
        },
        Ty::Array(t) => {
            flatten_adts(t, out);
        },
        Ty::Tuple(v) => {
            let mut i: usize = 0;
            while i < v.len()
                invariant
                    i <= v.len(),
                    *ty == Ty::Tuple(*v),
                    out@ == old(out)@.add(flatten_list(v@.take(i as int))),
                decreases v.len() - i,
            {
                proof {
                    assert(v@.take(i + 1).drop_last() =~= v@.take(i as int));
                }
                proof {
                    assert(decreases_to!(*ty => (*ty)->Tuple_0));
                    assert(decreases_to!(*v => v[i as int]));
                }
                flatten_adts(&v[i], out);
                i += 1;
            }
            assert(v@.take(v.len() as int) =~= v@);
        },
        _ => {
            assert(final(out)@ =~= old(out)@);
        },
    }
}

} // verus!
