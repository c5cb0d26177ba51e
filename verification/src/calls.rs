//! Call descriptors: a function's declared signature (schema, defined
//! once per contract interface) bound to a target address and concrete
//! arguments (one invocation). Construction validates the arguments
//! against the schema, so encoding can never fail later.

use vstd::prelude::*;

use crate::abi::{AbiValue, FunctionSignature, args_fit, value_fits, value_fits_exec, views};

verus! {

/// One invocation: a target contract address (20 bytes), the function
/// signature, and the concrete arguments, positionally matching the
/// declared parameter types.
#[derive(Clone, Debug, PartialEq, Eq)]
pub struct CallDescriptor {
    pub target: Vec<u8>,
    pub signature: FunctionSignature,
    pub arguments: Vec<AbiValue>,
}

/// Why a descriptor was refused at construction time.
#[derive(Clone, Copy, Debug, PartialEq, Eq, Structural)]
pub enum DescriptorError {
    /// The target is not a 20-byte address.
    Target { len: usize },
    /// Argument count differs from the declared parameter count.
    Arity { expected: usize, got: usize },
    /// The argument at `index` does not fit its declared type.
    TypeMismatch { index: usize },
}

impl CallDescriptor {
    /// The descriptor is well formed: a 20-byte target and arguments
    /// that positionally fit the declared parameter types.
    pub open spec fn wf(self) -> bool {
        &&& self.target@.len() == 20
        &&& args_fit(self.signature.parameter_types@, views(self.arguments@))
    }

    /// Binds a signature to a target address and concrete arguments,
    /// validating arity and types before any network interaction.
    ///
    /// Succeeds exactly when the target is 20 bytes and the arguments
    /// positionally fit the declared parameter types; the descriptor
    /// then carries the inputs unchanged.
    pub fn new(target: Vec<u8>, signature: FunctionSignature, arguments: Vec<AbiValue>) -> (r:
        Result<CallDescriptor, DescriptorError>)
        ensures
            r is Ok <==> target@.len() == 20 && args_fit(
                signature.parameter_types@,
                views(arguments@),
            ),
            r matches Ok(d) ==> {
                &&& d.target == target
                &&& d.signature == signature
                &&& d.arguments == arguments
                &&& d.wf()
            },
            r matches Err(DescriptorError::Target { len }) ==> {
                &&& len == target@.len()
                &&& target@.len() != 20
            },
            r matches Err(DescriptorError::Arity { expected, got }) ==> {
                &&& target@.len() == 20
                &&& expected == signature.parameter_types@.len()
                &&& got == arguments@.len()
                &&& arguments@.len() != signature.parameter_types@.len()
            },
            r matches Err(DescriptorError::TypeMismatch { index }) ==> {
                &&& target@.len() == 20
                &&& arguments@.len() == signature.parameter_types@.len()
                &&& index < arguments@.len()
                &&& !value_fits(views(arguments@)[index as int], signature.parameter_types@[index as int])
                &&& forall|j: int|
                    0 <= j < index ==> value_fits(
                        views(arguments@)[j],
                        signature.parameter_types@[j],
                    )
            },
    {
        if target.len() != 20 {
            return Err(DescriptorError::Target { len: target.len() });
        }
        if arguments.len() != signature.parameter_types.len() {
            return Err(
                DescriptorError::Arity {
                    expected: signature.parameter_types.len(),
                    got: arguments.len(),
                },
            );
        }
        let mut k: usize = 0;
        while k < arguments.len()
            invariant
                k <= arguments@.len(),
                target@.len() == 20,
                arguments@.len() == signature.parameter_types@.len(),
                forall|j: int|
                    0 <= j < k ==> value_fits(
                        views(arguments@)[j],
                        signature.parameter_types@[j],
                    ),
            decreases arguments@.len() - k,
        {
            assert(views(arguments@)[k as int] == arguments@[k as int]@);
            if !value_fits_exec(&arguments[k], &signature.parameter_types[k]) {
                return Err(DescriptorError::TypeMismatch { index: k });
            }
            k += 1;
        }
        Ok(CallDescriptor { target, signature, arguments })
    }
}

} // verus!
