//! The definitions of the operations that circuits are made of.

use hugr::extension::ExtensionRegistry;
use hugr::Extension;
use vstd::prelude::*;

use crate::dataflow::{
    extension_add, extension_gates, extension_is_own, extension_key, extension_new,
    extension_registry, registry_gates, registry_is_closed,
};
use crate::qtz_circuit::{gate, gate_view, GateView, LeafOp};

verus! {

/// The operations that circuits are made of, each with its definition.
pub struct Gates {
    registry: ExtensionRegistry,
}

impl Gates {
    #[verifier::type_invariant]
    spec fn defines_all(self) -> bool {
        &&& registry_is_closed(self.registry)
        &&& forall|op: LeafOp| registry_gates(self.registry).contains(#[trigger] gate_view(op))
    }

    /// There is a definition of that operation.
    pub closed spec fn defines(self, gate: GateView) -> bool {
        registry_gates(self.registry).contains(gate)
    }

    /// Defines all operations.
    pub fn new() -> (gates: Self)
        ensures
            forall|op: LeafOp| gates.defines(#[trigger] gate_view(op)),
    {
        let version: (u64, u64, u64) = (0, 1, 0);
        let mut extension: Extension = extension_new("taso.gates", version);
        let ops: [LeafOp; 8] = [
            LeafOp::H,
            LeafOp::RzF64,
            LeafOp::RxF64,
            LeafOp::CX,
            LeafOp::T,
            LeafOp::Tadj,
            LeafOp::X,
            LeafOp::AddF64,
        ];
        for i in 0..8
            invariant
                ops@ == seq![
                    LeafOp::H,
                    LeafOp::RzF64,
                    LeafOp::RxF64,
                    LeafOp::CX,
                    LeafOp::T,
                    LeafOp::Tadj,
                    LeafOp::X,
                    LeafOp::AddF64,
                ],
                extension_key(extension) == ("taso.gates"@, (0u64, 1u64, 0u64)),
                extension_is_own(extension),
                forall|g: GateView| #[trigger]
                    extension_gates(extension).contains(g) <==> exists|j: int|
                        0 <= j < i && g == gate_view(#[trigger] ops@[j]),
        {
            let ghost before = extension_gates(extension);
            proof {
                assert forall|g: GateView| #[trigger] before.contains(g) implies g.name
                    != gate_view(ops@[i as int]).name by {
                    let j = choose|j: int| 0 <= j < i && g == gate_view(#[trigger] ops@[j]);
                    lemma_names_differ(ops@[j], ops@[i as int]);
                }
            }
            let _ = extension_add(&mut extension, gate(ops[i]));
            assert forall|g: GateView| #[trigger]
                extension_gates(extension).contains(g) <==> exists|j: int|
                    0 <= j < i + 1 && g == gate_view(#[trigger] ops@[j]) by {
                if before.contains(g) {
                    let j = choose|j: int| 0 <= j < i && g == gate_view(#[trigger] ops@[j]);
                    assert(0 <= j < i + 1 && g == gate_view(ops@[j]));
                }
                if g == gate_view(ops@[i as int]) {
                    assert(extension_gates(extension).contains(g));
                }
            }
        }
        proof {
            reveal_strlit("taso.gates");
            reveal_strlit("prelude");
            reveal_strlit("arithmetic.float.types");
            assert("taso.gates"@.len() != "prelude"@.len());
            assert("taso.gates"@.len() != "arithmetic.float.types"@.len());
            assert forall|op: LeafOp| extension_gates(extension).contains(
                #[trigger] gate_view(op),
            ) by {
                let j: int = match op {
                    LeafOp::H => 0,
                    LeafOp::RzF64 => 1,
                    LeafOp::RxF64 => 2,
                    LeafOp::CX => 3,
                    LeafOp::T => 4,
                    LeafOp::Tadj => 5,
                    LeafOp::X => 6,
                    LeafOp::AddF64 => 7,
                };
                assert(ops@[j] == op);
            }
        }
        Gates { registry: extension_registry(extension).unwrap() }
    }

    /// The registry of the definitions.
    pub(crate) fn registry(&self) -> (registry: &ExtensionRegistry)
        ensures
            registry_is_closed(*registry),
            forall|op: LeafOp| registry_gates(*registry).contains(#[trigger] gate_view(op)),
    {
        proof {
            use_type_invariant(self);
        }
        &self.registry
    }
}

/// No two operations have the same name.
proof fn lemma_names_differ(a: LeafOp, b: LeafOp)
    requires
        a != b,
    ensures
        gate_view(a).name != gate_view(b).name,
{
    reveal_strlit("H");
    reveal_strlit("RzF64");
    reveal_strlit("RxF64");
    reveal_strlit("CX");
    reveal_strlit("T");
    reveal_strlit("Tadj");
    reveal_strlit("X");
    reveal_strlit("AddF64");
    assert("RzF64"@[1] != "RxF64"@[1]);
    assert("H"@[0] != "T"@[0]);
    assert("H"@[0] != "X"@[0]);
    assert("T"@[0] != "X"@[0]);
    assert(gate_view(a).name.len() == gate_view(b).name.len() ==> gate_view(a).name[0]
        != gate_view(b).name[0] || gate_view(a).name[1] != gate_view(b).name[1]);
}

} // verus!
