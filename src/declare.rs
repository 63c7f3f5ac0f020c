use vstd::prelude::*;

use crate::container::{key_views, Binding};
use crate::key::{KeyView, ServiceKey};

verus! {

/// A service declared as a struct: the capability and name it is bound
/// under, the capabilities the struct implements, its dependency fields
/// (each a field name and the key it is resolved from, in declared order),
/// the fields its constructor refers to, and the constructor itself.
pub struct Declaration<P> {
    pub key: ServiceKey,
    pub implements: Vec<String>,
    pub fields: Vec<(String, ServiceKey)>,
    pub uses: Vec<String>,
    pub constructor: P,
}

/// Why a declaration cannot become a binding.
#[derive(Debug)]
pub enum InvalidBinding {
    /// The struct does not implement the capability it is declared to
    /// provide.
    CapabilityNotImplemented(String),
    /// The constructor refers to a field that is not a dependency field.
    UnknownField(String),
}

pub open spec fn field_names(fields: Seq<(String, ServiceKey)>) -> Seq<Seq<char>> {
    fields.map_values(|f: (String, ServiceKey)| f.0@)
}

pub open spec fn field_keys(fields: Seq<(String, ServiceKey)>) -> Seq<KeyView> {
    fields.map_values(|f: (String, ServiceKey)| f.1@)
}

pub open spec fn strings(v: Seq<String>) -> Seq<Seq<char>> {
    v.map_values(|s: String| s@)
}

/// Whether the declaration is sound: the struct implements the declared
/// capability and its constructor refers only to dependency fields.
pub open spec fn declaration_valid<P>(d: Declaration<P>) -> bool {
    &&& strings(d.implements@).contains(d.key.capability@)
    &&& forall|u: int| 0 <= u < d.uses@.len() ==> field_names(d.fields@).contains(#[trigger] d.uses@[u]@)
}

fn contains_string(v: &Vec<String>, s: &String) -> (r: bool)
    ensures
        r == strings(v@).contains(s@),
{
    let mut i: usize = 0;
    while i < v.len()
        invariant
            i <= v@.len(),
            forall|x: int| 0 <= x < i ==> v@[x]@ != s@,
        decreases v@.len() - i,
    {
        if v[i] == *s {
            assert(strings(v@)[i as int] == s@);
            return true;
        }
        i += 1;
    }
    proof {
        if strings(v@).contains(s@) {
            let x = choose|x: int| 0 <= x < strings(v@).len() && strings(v@)[x] == s@;
            assert(v@[x]@ == s@);
        }
    }
    false
}

fn has_field(fields: &Vec<(String, ServiceKey)>, s: &String) -> (r: bool)
    ensures
        r == field_names(fields@).contains(s@),
{
    let mut i: usize = 0;
    while i < fields.len()
        invariant
            i <= fields@.len(),
            forall|x: int| 0 <= x < i ==> fields@[x].0@ != s@,
        decreases fields@.len() - i,
    {
        if fields[i].0 == *s {
            assert(field_names(fields@)[i as int] == s@);
            return true;
        }
        i += 1;
    }
    proof {
        if field_names(fields@).contains(s@) {
            let x = choose|x: int| 0 <= x < field_names(fields@).len() && field_names(fields@)[x] == s@;
            assert(fields@[x].0@ == s@);
        }
    }
    false
}

/// Turns a declaration into a binding whose provider is the declared
/// constructor and whose dependencies are the fields' keys in declared
/// order. A struct that does not implement the declared capability is
/// refused first; then a constructor that refers to a field that is not a
/// dependency field.
pub fn inject_derive<P>(decl: Declaration<P>) -> (r: Result<Binding<P>, InvalidBinding>)
    ensures
        r is Ok <==> declaration_valid(decl),
        r matches Ok(b) ==> b.key@ == decl.key@ && key_views(b.deps@) == field_keys(decl.fields@)
            && b.provider == decl.constructor,
        r matches Err(InvalidBinding::CapabilityNotImplemented(c)) ==> c@ == decl.key.capability@
            && !strings(decl.implements@).contains(c@),
        r matches Err(InvalidBinding::UnknownField(f)) ==> strings(decl.implements@).contains(decl.key.capability@)
            && strings(decl.uses@).contains(f@) && !field_names(decl.fields@).contains(f@),
{
    if !contains_string(&decl.implements, &decl.key.capability) {
        return Err(InvalidBinding::CapabilityNotImplemented(decl.key.capability.clone()));
    }
    let mut u: usize = 0;
    while u < decl.uses.len()
        invariant
            strings(decl.implements@).contains(decl.key.capability@),
            u <= decl.uses@.len(),
            forall|x: int| 0 <= x < u ==> field_names(decl.fields@).contains(#[trigger] decl.uses@[x]@),
        decreases decl.uses@.len() - u,
    {
        if !has_field(&decl.fields, &decl.uses[u]) {
            assert(strings(decl.uses@)[u as int] == decl.uses@[u as int]@);
            return Err(InvalidBinding::UnknownField(decl.uses[u].clone()));
        }
        u += 1;
    }
    let mut deps: Vec<ServiceKey> = Vec::new();
    let mut k: usize = 0;
    while k < decl.fields.len()
        invariant
            k <= decl.fields@.len(),
            deps@.len() == k,
            forall|x: int| 0 <= x < k ==> (#[trigger] deps@[x])@ == decl.fields@[x].1@,
        decreases decl.fields@.len() - k,
    {
        deps.push(decl.fields[k].1.clone_key());
        k += 1;
    }
    assert(key_views(deps@) =~= field_keys(decl.fields@));
    Ok(Binding::new(decl.key, deps, decl.constructor))
}

} // verus!
