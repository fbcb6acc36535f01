use vstd::prelude::*;

verus! {

/// The type that the reader assigns to a value.
#[derive(Debug, PartialEq, Eq)]
pub enum Type {
    Empty,
    Builtin,
    UInt,
    Int,
    Float,
    Char,
    String,
    Type,
    Unknown,
    App(Vec<Type>),
}

/// Mathematical model of a `Type`: the same tree, with sequences for the
/// argument lists.
pub enum TypeView {
    Empty,
    Builtin,
    UInt,
    Int,
    Float,
    Char,
    String,
    Type,
    Unknown,
    App(Seq<TypeView>),
}

pub open spec fn type_view(t: Type) -> TypeView
    decreases t,
{
    match t {
        Type::Empty => TypeView::Empty,
        Type::Builtin => TypeView::Builtin,
        Type::UInt => TypeView::UInt,
        Type::Int => TypeView::Int,
        Type::Float => TypeView::Float,
        Type::Char => TypeView::Char,
        Type::String => TypeView::String,
        Type::Type => TypeView::Type,
        Type::Unknown => TypeView::Unknown,
        Type::App(ts) => TypeView::App(types_view(ts@)),
    }
}

/// The models of a sequence of types, element by element.
pub open spec fn types_view(ts: Seq<Type>) -> Seq<TypeView>
    decreases ts,
{
    if ts.len() == 0 {
        Seq::empty()
    } else {
        types_view(ts.drop_last()).push(type_view(ts.last()))
    }
}

impl View for Type {
    type V = TypeView;

    open spec fn view(&self) -> TypeView {
        type_view(*self)
    }
}

/// `types_view` keeps the length and maps each element to its model.
pub proof fn lemma_types_view(ts: Seq<Type>)
    ensures
        types_view(ts).len() == ts.len(),
        forall|i: int| 0 <= i < ts.len() ==> #[trigger] types_view(ts)[i] == type_view(ts[i]),
    decreases ts.len(),
{
    if ts.len() > 0 {
        lemma_types_view(ts.drop_last());
    }
}

/// Two sequences of types whose elements have equal models have equal models.
pub proof fn lemma_types_view_ext(a: Seq<Type>, b: Seq<Type>)
    requires
        a.len() == b.len(),
        forall|i: int| 0 <= i < a.len() ==> type_view(#[trigger] a[i]) == type_view(b[i]),
    ensures
        types_view(a) == types_view(b),
{
    lemma_types_view(a);
    lemma_types_view(b);
    assert(types_view(a) =~= types_view(b));
}

fn clone_type(t: &Type) -> (r: Type)
    ensures
        r@ == t@,
    decreases t,
{
    match t {
        Type::Empty => Type::Empty,
        Type::Builtin => Type::Builtin,
        Type::UInt => Type::UInt,
        Type::Int => Type::Int,
        Type::Float => Type::Float,
        Type::Char => Type::Char,
        Type::String => Type::String,
        Type::Type => Type::Type,
        Type::Unknown => Type::Unknown,
        Type::App(ts) => {
            let mut v: Vec<Type> = Vec::new();
            let n = ts.len();
            for i in 0..n
                invariant
                    n == ts@.len(),
                    *t == Type::App(*ts),
                    v@.len() == i,
                    forall|j: int| 0 <= j < i ==> type_view(#[trigger] v@[j]) == type_view(ts@[j]),
            {
                proof {
                    assert(decreases_to!(*t => t->App_0));
                    assert(decreases_to!(*ts => ts@));
                    assert(decreases_to!(ts@ => ts@[i as int]));
                    assert(decreases_to!(*t => ts@[i as int]));
                }
                let c = clone_type(&ts[i]);
                v.push(c);
            }
            proof {
                lemma_types_view_ext(v@, ts@);
            }
            Type::App(v)
        },
    }
}

impl Clone for Type {
    fn clone(&self) -> (r: Self)
        ensures
            r@ == self@,
    {
        clone_type(self)
    }
}

} // verus!
