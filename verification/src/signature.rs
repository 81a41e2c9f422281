//! Function-type descriptors: the structural values the registry interns.

use vstd::prelude::*;

verus! {

/// A semantic value type that a function parameter or result can carry.
#[derive(Clone, Copy, Debug, PartialEq, Eq, Structural)]
pub enum ValueType {
    I32,
    I64,
    F32,
    F64,
    V128,
    FuncRef,
    ExternRef,
}

/// The calling convention a function type is compiled against.
#[derive(Clone, Copy, Debug, PartialEq, Eq, Structural)]
pub enum CallConv {
    Fast,
    Cold,
    SystemV,
    WindowsFastcall,
}

/// The mathematical value of a [`Signature`]: its three fields as plain
/// sequences and a tag. Two descriptors are the same entity exactly when
/// their views are equal.
#[verifier::ext_equal]
pub ghost struct SigView {
    pub params: Seq<ValueType>,
    pub returns: Seq<ValueType>,
    pub call_conv: CallConv,
}

/// A function-type descriptor: an ordered sequence of parameter types, an
/// ordered sequence of return types, and a calling-convention tag. Identity
/// is structural; how or where a descriptor was constructed is irrelevant.
pub struct Signature {
    pub params: Vec<ValueType>,
    pub returns: Vec<ValueType>,
    pub call_conv: CallConv,
}

impl View for Signature {
    type V = SigView;

    open spec fn view(&self) -> SigView {
        SigView {
            params: self.params@,
            returns: self.returns@,
            call_conv: self.call_conv,
        }
    }
}

/// Element-wise equality of two type lists.
fn value_types_eq(a: &Vec<ValueType>, b: &Vec<ValueType>) -> (r: bool)
    ensures
        r == (a@ == b@),
{
    if a.len() != b.len() {
        return false;
    }
    let n = a.len();
    let mut i: usize = 0;
    while i < n
        invariant
            n == a.len(),
            n == b.len(),
            0 <= i <= n,
            forall|j: int| 0 <= j < i ==> a@[j] == b@[j],
        decreases n - i,
    {
        if a[i] != b[i] {
            return false;
        }
        i += 1;
    }
    proof {
        assert(a@ =~= b@);
    }
    true
}

/// A copy of a type list, element by element.
fn copy_value_types(v: &Vec<ValueType>) -> (r: Vec<ValueType>)
    ensures
        r@ == v@,
{
    let n = v.len();
    let mut r: Vec<ValueType> = Vec::new();
    let mut i: usize = 0;
    while i < n
        invariant
            n == v.len(),
            0 <= i <= n,
            r@ == v@.take(i as int),
        decreases n - i,
    {
        r.push(v[i]);
        proof {
            assert(r@ =~= v@.take(i + 1));
        }
        i += 1;
    }
    proof {
        assert(v@.take(n as int) =~= v@);
    }
    r
}

impl PartialEq for Signature {
    /// Structural equality: field-wise over params, returns and convention.
    fn eq(&self, other: &Signature) -> (r: bool) {
        let params_eq = value_types_eq(&self.params, &other.params);
        let returns_eq = value_types_eq(&self.returns, &other.returns);
        let conv_eq = self.call_conv == other.call_conv;
        proof {
            if self.params@ == other.params@ && self.returns@ == other.returns@
                && self.call_conv == other.call_conv {
                assert(self@ =~= other@);
            }
        }
        params_eq && returns_eq && conv_eq
    }
}

impl vstd::std_specs::cmp::PartialEqSpecImpl for Signature {
    open spec fn obeys_eq_spec() -> bool {
        true
    }

    open spec fn eq_spec(&self, other: &Signature) -> bool {
        self@ == other@
    }
}

impl Clone for Signature {
    /// An independent copy with the same structural value: the registry
    /// stores such copies, so callers may mutate or discard their originals.
    fn clone(&self) -> (r: Self)
        ensures
            r@ == self@,
    {
        let r = Signature {
            params: copy_value_types(&self.params),
            returns: copy_value_types(&self.returns),
            call_conv: self.call_conv,
        };
        proof {
            assert(r@ =~= self@);
        }
        r
    }
}

} // verus!
