use vstd::prelude::*;

verus! {

/// What a key is, mathematically: its capability and its name.
pub type KeyView = (Seq<char>, Seq<char>);

/// Identity of a service: the capability it provides together with a name
/// that tells apart services of one capability.
#[derive(Debug)]
pub struct ServiceKey {
    pub capability: String,
    pub name: String,
}

impl View for ServiceKey {
    type V = KeyView;

    open spec fn view(&self) -> KeyView {
        (self.capability@, self.name@)
    }
}

impl ServiceKey {
    pub fn new(capability: String, name: String) -> (r: ServiceKey)
        ensures
            r@ == (capability@, name@),
    {
        ServiceKey { capability, name }
    }

    /// Two keys are the same key when capability and name both agree.
    pub fn same_as(&self, other: &ServiceKey) -> (r: bool)
        ensures
            r == (self@ == other@),
    {
        let c = self.capability == other.capability;
        let n = self.name == other.name;
        c && n
    }

    pub fn clone_key(&self) -> (r: ServiceKey)
        ensures
            r@ == self@,
    {
        ServiceKey { capability: self.capability.clone(), name: self.name.clone() }
    }
}

} // verus!
