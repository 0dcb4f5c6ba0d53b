//! Schemas: named, typed column declarations.

use crate::value::TypeKind;
use vstd::prelude::*;

verus! {

broadcast use vstd::string::to_string_from_display_ensures_for_str;

/// A column declaration: a name and a domain.
#[derive(PartialEq, Eq, Debug, Clone)]
pub struct Attribute {
    name: String,
    kind: TypeKind,
}

impl View for Attribute {
    /// The name and the domain.
    type V = (Seq<char>, TypeKind);

    closed spec fn view(&self) -> (Seq<char>, TypeKind) {
        (self.name@, self.kind)
    }
}

impl Attribute {
    pub fn create(name: &str, kind: TypeKind) -> (r: Attribute)
        ensures
            r@ == (name@, kind),
    {
        Attribute { name: name.to_string(), kind: kind }
    }

    pub fn name(&self) -> (r: &String)
        ensures
            r@ == self@.0,
    {
        &self.name
    }

    pub fn kind(&self) -> (r: TypeKind)
        ensures
            r == self@.1,
    {
        self.kind
    }

    /// A copy of this attribute.
    pub fn copy_attribute(&self) -> (r: Attribute)
        ensures
            r@ == self@,
    {
        Attribute { name: self.name.clone(), kind: self.kind }
    }
}

/// The attributes named by `col_ids`, in that order, leaving out positions
/// past the end.
pub open spec fn selected_attributes<A>(attributes: Seq<A>, col_ids: Seq<usize>) -> Seq<A>
    decreases col_ids.len(),
{
    if col_ids.len() == 0 {
        Seq::empty()
    } else {
        let prev = selected_attributes(attributes, col_ids.drop_last());
        if col_ids.last() < attributes.len() {
            prev.push(attributes[col_ids.last() as int])
        } else {
            prev
        }
    }
}

/// Whether `i` is the first position whose attribute is named `name`.
pub open spec fn is_first_named(attributes: Seq<(Seq<char>, TypeKind)>, name: Seq<char>, i: int) -> bool {
    &&& 0 <= i < attributes.len()
    &&& attributes[i].0 == name
    &&& forall|j: int| 0 <= j < i ==> (#[trigger] attributes[j]).0 != name
}

/// Whether no attribute is named `name`.
pub open spec fn none_named(attributes: Seq<(Seq<char>, TypeKind)>, name: Seq<char>) -> bool {
    forall|j: int| 0 <= j < attributes.len() ==> (#[trigger] attributes[j]).0 != name
}

/// The first position whose attribute is named `name`, if any.
pub open spec fn position_of(attributes: Seq<(Seq<char>, TypeKind)>, name: Seq<char>) -> Option<int> {
    if exists|i: int| is_first_named(attributes, name, i) {
        Some(choose|i: int| is_first_named(attributes, name, i))
    } else {
        None
    }
}

proof fn lemma_first_named_unique(attributes: Seq<(Seq<char>, TypeKind)>, name: Seq<char>, i: int, j: int)
    requires
        is_first_named(attributes, name, i),
        is_first_named(attributes, name, j),
    ensures
        i == j,
{
    if i < j {
        assert(attributes[i].0 != name);
    } else if j < i {
        assert(attributes[j].0 != name);
    }
}

/// The schema of a relation: its name and its attributes, in order.
#[derive(PartialEq, Eq, Debug, Clone)]
pub struct Definition {
    name: String,
    attributes: Vec<Attribute>,
}

impl Definition {
    /// The name.
    pub closed spec fn name_view(&self) -> Seq<char> {
        self.name@
    }

    /// The attributes, in order.
    pub closed spec fn attrs(&self) -> Seq<(Seq<char>, TypeKind)> {
        self.attributes@.map_values(|a: Attribute| a@)
    }

    pub fn create(name: &str, attributes: &[Attribute]) -> (r: Definition)
        ensures
            r.name_view() == name@,
            r.attrs() == attributes@.map_values(|a: Attribute| a@),
    {
        let mut attrs: Vec<Attribute> = Vec::new();
        let mut i: usize = 0;
        while i < attributes.len()
            invariant
                i <= attributes@.len(),
                attrs@.len() == i,
                forall|j: int| 0 <= j < i ==> (#[trigger] attrs@[j])@ == attributes@[j]@,
            decreases attributes@.len() - i,
        {
            attrs.push(attributes[i].copy_attribute());
            i += 1;
        }
        assert(attrs@.map_values(|a: Attribute| a@) =~= attributes@.map_values(|a: Attribute| a@));
        Definition { name: name.to_string(), attributes: attrs }
    }

    pub fn name(&self) -> (r: &String)
        ensures
            r@ == self.name_view(),
    {
        &self.name
    }

    pub fn num_columns(&self) -> (r: usize)
        ensures
            r == self.attrs().len(),
    {
        self.attributes.len()
    }

    /// The attribute at position `col_id`.
    pub fn attribute(&self, col_id: usize) -> (r: &Attribute)
        requires
            col_id < self.attrs().len(),
        ensures
            r@ == self.attrs()[col_id as int],
    {
        &self.attributes[col_id]
    }

    /// The position of the first attribute named `col_name`.
    pub fn name_to_id(&self, col_name: &str) -> (r: Option<usize>)
        ensures
            r matches Some(i) ==> is_first_named(self.attrs(), col_name@, i as int),
            r is None ==> none_named(self.attrs(), col_name@),
            r matches Some(i) ==> position_of(self.attrs(), col_name@) == Some(i as int),
            r is None ==> position_of(self.attrs(), col_name@) is None,
    {
        let wanted = col_name.to_string();
        let mut i: usize = 0;
        while i < self.attributes.len()
            invariant
                i <= self.attrs().len(),
                wanted@ == col_name@,
                forall|j: int| 0 <= j < i ==> (#[trigger] self.attrs()[j]).0 != col_name@,
            decreases self.attrs().len() - i,
        {
            if self.attributes[i].name == wanted {
                proof {
                    assert(is_first_named(self.attrs(), col_name@, i as int));
                    let k = choose|k: int| is_first_named(self.attrs(), col_name@, k);
                    lemma_first_named_unique(self.attrs(), col_name@, i as int, k);
                }
                return Some(i);
            }
            i += 1;
        }
        None
    }

    /// The schema of the same name whose attributes are those at `col_ids`,
    /// in that order; positions past the end are left out.
    pub fn select(&self, col_ids: &[usize]) -> (r: Definition)
        ensures
            r.name_view() == self.name_view(),
            r.attrs() == selected_attributes(self.attrs(), col_ids@),
    {
        let mut attributes: Vec<Attribute> = Vec::new();
        let mut i: usize = 0;
        while i < col_ids.len()
            invariant
                i <= col_ids@.len(),
                attributes@.map_values(|a: Attribute| a@) == selected_attributes(
                    self.attrs(),
                    col_ids@.take(i as int),
                ),
            decreases col_ids@.len() - i,
        {
            let col_id = col_ids[i];
            assert(col_ids@.take(i + 1).drop_last() =~= col_ids@.take(i as int));
            if col_id < self.attributes.len() {
                attributes.push(self.attributes[col_id].copy_attribute());
            }
            i += 1;
            assert(attributes@.map_values(|a: Attribute| a@) =~= selected_attributes(
                self.attrs(),
                col_ids@.take(i as int),
            ));
        }
        assert(col_ids@.take(i as int) =~= col_ids@);
        Definition { name: self.name.clone(), attributes: attributes }
    }
}

} // verus!
