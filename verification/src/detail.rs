//! The stored signature record and its mathematical view.

use vstd::prelude::*;
use vstd::string::StringExecFns;

verus! {

/// One stored function signature record: the owning crate, the rendered
/// parameter types in order, the rendered return type, and the full
/// human-readable rendering of the signature.
pub struct FnDetail {
    pub krate: String,
    pub params: Vec<String>,
    pub ret: String,
    pub s: String,
}

/// The mathematical value of a [`FnDetail`]: every string as a `Seq<char>`.
pub ghost struct FnDetailView {
    pub krate: Seq<char>,
    pub params: Seq<Seq<char>>,
    pub ret: Seq<char>,
    pub s: Seq<char>,
}

impl View for FnDetail {
    type V = FnDetailView;

    open spec fn view(&self) -> FnDetailView {
        FnDetailView {
            krate: self.krate@,
            params: self.params.deep_view(),
            ret: self.ret@,
            s: self.s@,
        }
    }
}

impl DeepView for FnDetail {
    type V = FnDetailView;

    open spec fn deep_view(&self) -> FnDetailView {
        self.view()
    }
}

/// The reserved type string standing in for "takes no parameters".
pub open spec fn noargs() -> Seq<char> {
    "<NOARGS>"@
}

/// The executable form of the reserved no-parameters type string.
pub fn noargs_string() -> (r: String)
    ensures
        r@ == noargs(),
{
    String::from_str("<NOARGS>")
}

/// The parameter-type strings a record is indexed under: its own parameter
/// types, or the reserved sentinel alone when it has none.
pub open spec fn effective_params(d: FnDetailView) -> Seq<Seq<char>> {
    if d.params.len() == 0 {
        seq![noargs()]
    } else {
        d.params
    }
}

fn clone_strings(v: &Vec<String>) -> (r: Vec<String>)
    ensures
        r.deep_view() == v.deep_view(),
{
    let mut r: Vec<String> = Vec::new();
    let mut i: usize = 0;
    while i < v.len()
        invariant
            i <= v.len(),
            r.len() == i,
            forall|j: int| 0 <= j < i ==> r.deep_view()[j] == v.deep_view()[j],
        decreases v.len() - i,
    {
        r.push(v[i].clone());
        i = i + 1;
    }
    assert(r.deep_view() =~= v.deep_view());
    r
}

impl Clone for FnDetail {
    fn clone(&self) -> (r: Self)
        ensures
            r@ == self@,
    {
        FnDetail {
            krate: self.krate.clone(),
            params: clone_strings(&self.params),
            ret: self.ret.clone(),
            s: self.s.clone(),
        }
    }
}

} // verus!
