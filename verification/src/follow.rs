//! Where the wires in the graph of a circuit come from, by the names in the circuit.

use vstd::prelude::*;

use crate::dataflow::{free_outputs, meant, units_after, Placed};
use crate::plan::{
    at, is_port, is_qubit, lemma_ops_planned, lemma_unit_after, node_realises, op_planned,
    ops_planned, plan_start, planned, ports, realises, Plan, Port,
};
use crate::qtz_circuit::{
    gate_view, gives, inputs_are_what_they_name, leaf_op, lemma_params_before,
    operations_have_names_of_their_own, operations_take_what_they_are_known_for,
    parameters_get_the_wires_in_order, params_before, recorded, resolved_all, wire, AppendWire,
    LeafOp, RepCircData, RepCircOp, WireType,
};

verus! {

/// The input at `k` of the operation at `i` has the name of the qubit `x`.
pub open spec fn takes_qubit(ops: Seq<RepCircOp>, i: int, k: int, x: usize) -> bool {
    &&& 0 <= i < ops.len()
    &&& 0 <= k < ops[i].inputs@.len()
    &&& wire(ops[i].inputs@[k]@) == Some((WireType::Qubit, x))
}

/// The input at `k` of the operation at `i` has the name of the parameter `x`.
pub open spec fn takes_param(ops: Seq<RepCircOp>, i: int, k: int, x: usize) -> bool {
    &&& 0 <= i < ops.len()
    &&& 0 <= k < ops[i].inputs@.len()
    &&& wire(ops[i].inputs@[k]@) == Some((WireType::F64, x))
}

/// The name at `m` is that of the parameter `x`, and no name before it is that of a parameter.
pub open spec fn is_first_param(names: Seq<String>, m: int, x: usize) -> bool {
    &&& 0 <= m < names.len()
    &&& wire(names[m]@) == Some((WireType::F64, x))
    &&& forall|l: int|
        0 <= l < m ==> !(wire((#[trigger] names[l])@) matches Some((WireType::F64, _)))
}

/// The operation at `i` computes the parameter `x`: it is a sum, and the first of its outputs
/// that has the name of a parameter has that of `x`.
pub open spec fn computes_param(ops: Seq<RepCircOp>, i: int, x: usize) -> bool {
    &&& 0 <= i < ops.len()
    &&& ops[i].opstr@ == "add"@
    &&& exists|m: int| #[trigger] is_first_param(ops[i].outputs@, m, x)
}

/// The qubit `x` is there after the first `n` operations: where the last one that takes it
/// gives it out again, or where it comes in.
spec fn qubit_is_at(ops: Seq<RepCircOp>, n: int, x: usize, port: Port) -> bool {
    &&& forall|j: int, k: int| #[trigger]
        takes_qubit(ops, j, k, x) && j < n && (forall|l: int, m: int|
            j < l < n ==> !#[trigger] takes_qubit(ops, l, m, x)) ==> port == (Port {
            node: (j + 1) as nat,
            port: k as nat,
        })
    &&& (forall|j: int, k: int| j < n ==> !#[trigger] takes_qubit(ops, j, k, x)) ==> port == (
    Port { node: 0, port: x as nat })
}

/// What an operation adds to a plan.
proof fn lemma_op_added(plan: Plan, op: RepCircOp)
    requires
        op_planned(plan, op) is Ok,
    ensures
        ({
            let next = op_planned(plan, op)->Ok_0;
            let gate = gate_view(leaf_op(op.opstr@)->0);
            let inputs = resolved_all(op.inputs@, plan.params, op.inputs@.len())->Ok_0;
            let outputs = ports(plan.nodes.len(), gate.outputs());
            &&& leaf_op(op.opstr@) is Some
            &&& resolved_all(op.inputs@, plan.params, op.inputs@.len()) is Ok
            &&& inputs.len() == op.inputs@.len()
            &&& inputs.len() == gate.inputs()
            &&& forall|k: int| 0 <= k < inputs.len() ==> (#[trigger] inputs[k] is I <==> k
                < gate.qubits)
            &&& forall|k: int| #![trigger inputs[k]] 0 <= k < inputs.len() ==> (inputs[k] matches
                AppendWire::I(x) ==> x < plan.units.len())
            &&& forall|p: int, q: int|
                #![trigger inputs[p], inputs[q]]
                0 <= p < q < inputs.len() && inputs[p] is I ==> inputs[p] != inputs[q]
            &&& next.nodes.len() == plan.nodes.len() + 1
            &&& forall|i: int| 0 <= i < plan.nodes.len() ==> #[trigger] next.nodes[i]
                == plan.nodes[i]
            &&& next.nodes.last().inputs == meant(inputs, plan.units)
            &&& next.nodes.last().outputs == outputs
            &&& next.units == units_after(inputs, plan.units, outputs)
            &&& recorded(
                plan.params,
                op.outputs@,
                0,
                free_outputs(inputs, outputs, gate.outputs()),
                0,
            ) == Ok::<Seq<Option<Port>>, crate::qtz_circuit::WireError>(next.params)
        }),
{
    inputs_are_what_they_name(op.inputs@, plan.params, op.inputs@.len());
}

/// Where the qubits are after the first `n` operations.
proof fn lemma_qubits_are_at(n_qb: nat, n_params: nat, ops: Seq<RepCircOp>, n: nat)
    requires
        n <= ops.len(),
        ops_planned(plan_start(n_qb, n_params), ops, n) is Ok,
    ensures
        forall|x: usize|
            #![trigger ops_planned(plan_start(n_qb, n_params), ops, n)->Ok_0.units[x as int]]
            x < n_qb ==> qubit_is_at(
                ops,
                n as int,
                x,
                ops_planned(plan_start(n_qb, n_params), ops, n)->Ok_0.units[x as int],
            ),
    decreases n,
{
    let start = plan_start(n_qb, n_params);
    if n > 0 {
        let m = (n - 1) as nat;
        let plan = ops_planned(start, ops, m)->Ok_0;
        let next = ops_planned(start, ops, n)->Ok_0;
        let op = ops[m as int];
        lemma_qubits_are_at(n_qb, n_params, ops, m);
        lemma_ops_planned(n_qb, n_params, ops, m);
        lemma_op_added(plan, op);
        inputs_are_what_they_name(op.inputs@, plan.params, op.inputs@.len());
        let gate = gate_view(leaf_op(op.opstr@)->0);
        let inputs = resolved_all(op.inputs@, plan.params, op.inputs@.len())->Ok_0;
        let outputs = ports(plan.nodes.len(), gate.outputs());
        assert forall|x: usize| #![trigger next.units[x as int]] x < n_qb implies qubit_is_at(
            ops,
            n as int,
            x,
            next.units[x as int],
        ) by {
            assert(qubit_is_at(ops, m as int, x, plan.units[x as int]));
            assert forall|k: int| 0 <= k < inputs.len() implies #[trigger] takes_qubit(
                ops,
                m as int,
                k,
                x,
            ) == is_qubit(inputs[k], x as int) by {
                assert(ops[m as int].inputs@[k] == op.inputs@[k]);
            }
            match lemma_unit_after(inputs, plan.units, outputs, x as int) {
                Some(p) => {
                    assert(takes_qubit(ops, m as int, p, x));
                    assert(next.units[x as int] == Port { node: n, port: p as nat });
                    assert forall|j: int, k: int| #[trigger]
                        takes_qubit(ops, j, k, x) && j < n && (forall|l: int, q: int|
                            j < l < n ==> !#[trigger] takes_qubit(ops, l, q, x)) implies j == m && k
                        == p by {
                        if j < m {
                            assert(takes_qubit(ops, m as int, p, x));
                        } else {
                            assert(is_qubit(inputs[k], x as int) && is_qubit(inputs[p], x as int));
                            if k < p {
                                assert(inputs[k] != inputs[p]);
                            }
                            if p < k {
                                assert(inputs[p] != inputs[k]);
                            }
                        }
                    }
                },
                None => {
                    assert(next.units[x as int] == plan.units[x as int]);
                    assert forall|k: int| !#[trigger] takes_qubit(ops, m as int, k, x) by {
                        if 0 <= k < inputs.len() {
                            assert(!is_qubit(inputs[k], x as int));
                        }
                    }
                    assert forall|j: int, k: int| #[trigger]
                        takes_qubit(ops, j, k, x) && j < n && (forall|l: int, q: int|
                            j < l < n ==> !#[trigger] takes_qubit(ops, l, q, x)) implies j < m
                        && forall|l: int, q: int|
                        j < l < m ==> !#[trigger] takes_qubit(ops, l, q, x) by {}
                },
            }
        }
    }
}

/// What the operation at `i` takes is what the names say of the qubits and parameters before it.
proof fn lemma_taken(n_qb: nat, n_params: nat, ops: Seq<RepCircOp>, n: nat, i: int)
    requires
        0 <= i < n <= ops.len(),
        ops_planned(plan_start(n_qb, n_params), ops, n) is Ok,
    ensures
        ops_planned(plan_start(n_qb, n_params), ops, i as nat) is Ok,
        ({
            let start = plan_start(n_qb, n_params);
            let plan = ops_planned(start, ops, i as nat)->Ok_0;
            let node = ops_planned(start, ops, n)->Ok_0.nodes[i + 1];
            &&& node.inputs.len() == ops[i].inputs@.len()
            &&& forall|k: int, x: usize| #[trigger]
                takes_qubit(ops, i, k, x) ==> x < n_qb && node.inputs[k] == plan.units[x as int]
            &&& forall|k: int, x: usize| #[trigger]
                takes_param(ops, i, k, x) ==> x < plan.params.len() && plan.params[x as int]
                    == Some(node.inputs[k])
        }),
    decreases n,
{
    let start = plan_start(n_qb, n_params);
    let plan = ops_planned(start, ops, (n - 1) as nat)->Ok_0;
    let op = ops[n - 1];
    lemma_op_added(plan, op);
    lemma_ops_planned(n_qb, n_params, ops, (n - 1) as nat);
    if i < n - 1 {
        lemma_taken(n_qb, n_params, ops, (n - 1) as nat, i);
    } else {
        inputs_are_what_they_name(op.inputs@, plan.params, op.inputs@.len());
        let inputs = resolved_all(op.inputs@, plan.params, op.inputs@.len())->Ok_0;
        let node = ops_planned(start, ops, n)->Ok_0.nodes[i + 1];
        assert forall|k: int, x: usize| #[trigger] takes_qubit(ops, i, k, x) implies x < n_qb
            && node.inputs[k] == plan.units[x as int] by {
            assert(inputs[k] == AppendWire::<Port>::I(x));
        }
        assert forall|k: int, x: usize| #[trigger] takes_param(ops, i, k, x) implies x
            < plan.params.len() && plan.params[x as int] == Some(node.inputs[k]) by {
            assert(inputs[k] == AppendWire::W(plan.params[x as int]->0));
        }
    }
}

/// A wire of a graph that comes from where it was planned.
proof fn lemma_wire_from<W>(nodes: Seq<Placed<W>>, rep: RepCircData, i: int, k: int)
    requires
        planned(rep) is Ok,
        realises(nodes, planned(rep)->Ok_0),
        0 <= i < planned(rep)->Ok_0.len(),
        0 <= k < planned(rep)->Ok_0[i].inputs.len(),
    ensures
        nodes[i].inputs.len() == planned(rep)->Ok_0[i].inputs.len(),
        nodes[i].inputs[k] == at(nodes, planned(rep)->Ok_0[i].inputs[k]),
{
    let plan = planned(rep)->Ok_0;
    assert(node_realises(nodes, nodes[i], plan[i]));
    assert(is_port(nodes, plan[i].inputs[k]));
}

/// Qubits keep their numbers. An operation takes the qubit `x` from where the last operation
/// before it that takes `x` gives it out, which is where that one takes it, or from the input
/// `x` of the circuit; and the circuit gives it out at its output `x` in the same way.
pub proof fn qubits_keep_their_numbers<W>(nodes: Seq<Placed<W>>, rep: RepCircData)
    requires
        planned(rep) is Ok,
        realises(nodes, planned(rep)->Ok_0),
    ensures
        ({
            let ops = rep.circ.0@;
            let last = ops.len() + 1;
            &&& nodes.len() == ops.len() + 2
            &&& nodes[last as int].inputs.len() == rep.meta.n_qb
            &&& forall|i: int, k: int, x: usize| #[trigger]
                takes_qubit(ops, i, k, x) ==> {
                    &&& x < rep.meta.n_qb
                    &&& forall|j: int, m: int| #[trigger]
                        takes_qubit(ops, j, m, x) && j < i && (forall|l: int, q: int|
                            j < l < i ==> !#[trigger] takes_qubit(ops, l, q, x))
                            ==> nodes[i + 1].inputs[k] == nodes[j + 1].outputs[m]
                    &&& (forall|j: int, m: int| j < i ==> !#[trigger] takes_qubit(ops, j, m, x))
                        ==> nodes[i + 1].inputs[k] == nodes[0].outputs[x as int]
                }
            &&& forall|x: usize|
                #![trigger nodes[last as int].inputs[x as int]]
                x < rep.meta.n_qb ==> {
                    &&& forall|j: int, m: int| #[trigger]
                        takes_qubit(ops, j, m, x) && (forall|l: int, q: int|
                            j < l ==> !#[trigger] takes_qubit(ops, l, q, x))
                            ==> nodes[last as int].inputs[x as int] == nodes[j + 1].outputs[m]
                    &&& (forall|j: int, m: int| !#[trigger] takes_qubit(ops, j, m, x))
                        ==> nodes[last as int].inputs[x as int] == nodes[0].outputs[x as int]
                }
        }),
{
    let n_qb = rep.meta.n_qb as nat;
    let n_params = rep.meta.n_input_param as nat;
    let ops = rep.circ.0@;
    let start = plan_start(n_qb, n_params);
    let plan = ops_planned(start, ops, ops.len())->Ok_0;
    let last = ops.len() + 1;
    lemma_ops_planned(n_qb, n_params, ops, ops.len());
    lemma_qubits_are_at(n_qb, n_params, ops, ops.len());
    assert forall|i: int, k: int, x: usize| #[trigger] takes_qubit(ops, i, k, x) implies {
        &&& x < rep.meta.n_qb
        &&& forall|j: int, m: int| #[trigger]
            takes_qubit(ops, j, m, x) && j < i && (forall|l: int, q: int|
                j < l < i ==> !#[trigger] takes_qubit(ops, l, q, x)) ==> nodes[i + 1].inputs[k]
                == nodes[j + 1].outputs[m]
        &&& (forall|j: int, m: int| j < i ==> !#[trigger] takes_qubit(ops, j, m, x))
            ==> nodes[i + 1].inputs[k] == nodes[0].outputs[x as int]
    } by {
        lemma_taken(n_qb, n_params, ops, ops.len(), i);
        lemma_qubits_are_at(n_qb, n_params, ops, i as nat);
        lemma_wire_from(nodes, rep, i + 1, k);
        let before = ops_planned(start, ops, i as nat)->Ok_0;
        assert(qubit_is_at(ops, i, x, before.units[x as int]));
    }
    assert forall|x: usize| #![trigger nodes[last as int].inputs[x as int]] x < rep.meta.n_qb implies {
        &&& forall|j: int, m: int| #[trigger]
            takes_qubit(ops, j, m, x) && (forall|l: int, q: int|
                j < l ==> !#[trigger] takes_qubit(ops, l, q, x))
                ==> nodes[last as int].inputs[x as int] == nodes[j + 1].outputs[m]
        &&& (forall|j: int, m: int| !#[trigger] takes_qubit(ops, j, m, x))
            ==> nodes[last as int].inputs[x as int] == nodes[0].outputs[x as int]
    } by {
        lemma_wire_from(nodes, rep, last as int, x as int);
        assert(qubit_is_at(ops, ops.len() as int, x, plan.units[x as int]));
    }
    if rep.meta.n_qb > 0 {
        lemma_wire_from(nodes, rep, last as int, 0);
    } else {
        assert(node_realises(nodes, nodes[last as int], planned(rep)->Ok_0[last as int]));
    }
}

/// No name of a parameter comes before the first one.
proof fn lemma_first_param(names: Seq<String>, m: nat)
    requires
        m <= names.len(),
    ensures
        params_before(names, m) == 0 <==> forall|l: int|
            0 <= l < m ==> !(wire((#[trigger] names[l])@) matches Some((WireType::F64, _))),
    decreases m,
{
    if m > 0 {
        lemma_first_param(names, (m - 1) as nat);
        assert(names[m - 1] == names[m - 1]);
    }
}

/// A name that gets the only wire is the first one of a parameter.
proof fn lemma_gives_once(names: Seq<String>, m: int, x: usize)
    ensures
        gives(names, 1, m, x) <==> is_first_param(names, m, x),
        gives(names, 1, m, x) ==> params_before(names, m as nat) == 0,
        gives(names, 1, m, x) ==> forall|l: int, y: usize|
            m < l ==> !#[trigger] gives(names, 1, l, y),
{
    if 0 <= m < names.len() {
        lemma_first_param(names, m as nat);
        if gives(names, 1, m, x) {
            assert(params_before(names, (m + 1) as nat) == 1);
            assert forall|l: int, y: usize| m < l implies !#[trigger] gives(names, 1, l, y) by {
                if l < names.len() {
                    lemma_params_before(names, (m + 1) as nat, l as nat);
                }
            }
        }
    }
}

/// Which parameters the operation at `i` computes, by its outputs.
proof fn lemma_computes(ops: Seq<RepCircOp>, i: int, x: usize)
    requires
        0 <= i < ops.len(),
        ops[i].opstr@ == "add"@,
    ensures
        computes_param(ops, i, x) <==> exists|m: int| #[trigger] gives(ops[i].outputs@, 1, m, x),
{
    let names = ops[i].outputs@;
    if computes_param(ops, i, x) {
        let m = choose|m: int| #[trigger] is_first_param(names, m, x);
        lemma_gives_once(names, m, x);
    }
    if exists|m: int| #[trigger] gives(names, 1, m, x) {
        let m = choose|m: int| #[trigger] gives(names, 1, m, x);
        lemma_gives_once(names, m, x);
    }
}

/// The wire of the parameter `x`, if there is one.
pub open spec fn slot(params: Seq<Option<Port>>, x: usize) -> Option<Port> {
    if x < params.len() {
        params[x as int]
    } else {
        None
    }
}

/// The parameter `x` is there after the first `n` operations: where the last one that computes
/// it gives it out, or where it comes in.
spec fn param_is_at(
    n_qb: nat,
    n_params: nat,
    ops: Seq<RepCircOp>,
    n: int,
    x: usize,
    port: Option<Port>,
) -> bool {
    &&& forall|j: int| #[trigger]
        computes_param(ops, j, x) && j < n && (forall|l: int|
            j < l < n ==> !#[trigger] computes_param(ops, l, x)) ==> port == Some(
            Port { node: (j + 1) as nat, port: 0 },
        )
    &&& (forall|j: int| j < n ==> !#[trigger] computes_param(ops, j, x)) ==> port == (if x
        < n_params {
        Some(Port { node: 0, port: (n_qb + x) as nat })
    } else {
        None
    })
}

/// The outputs of an operation that are no qubits: a sum has one, and others have none.
pub(crate) proof fn lemma_numbers_out(op: LeafOp, inputs: Seq<AppendWire<Port>>, outputs: Seq<Port>)
    requires
        inputs.len() == gate_view(op).inputs(),
        outputs.len() == gate_view(op).outputs(),
        forall|k: int|
            0 <= k < inputs.len() ==> (#[trigger] inputs[k] is I <==> k < gate_view(op).qubits),
    ensures
        op == LeafOp::AddF64 ==> free_outputs(inputs, outputs, gate_view(op).outputs())
            == seq![outputs[0]],
        op != LeafOp::AddF64 ==> free_outputs(inputs, outputs, gate_view(op).outputs())
            == Seq::<Port>::empty(),
{
    operations_take_what_they_are_known_for(op);
    reveal_with_fuel(free_outputs, 3);
    assert(inputs.len() > 0 ==> (inputs[0] is I <==> 0 < gate_view(op).qubits));
    assert(inputs.len() > 1 ==> (inputs[1] is I <==> 1 < gate_view(op).qubits));
    assert(free_outputs(inputs, outputs, gate_view(op).outputs()) =~= if op == LeafOp::AddF64 {
        seq![outputs[0]]
    } else {
        Seq::empty()
    });
}

/// The wire of the parameter `x` after one more operation.
proof fn lemma_param_after(plan: Plan, ops: Seq<RepCircOp>, i: int, x: usize)
    requires
        0 <= i < ops.len(),
        op_planned(plan, ops[i]) is Ok,
        plan.nodes.len() == i + 1,
    ensures
        slot(op_planned(plan, ops[i])->Ok_0.params, x) == (if computes_param(ops, i, x) {
            Some(Port { node: (i + 1) as nat, port: 0 })
        } else {
            slot(plan.params, x)
        }),
{
    let op = ops[i];
    let next = op_planned(plan, op)->Ok_0;
    lemma_op_added(plan, op);
    let leaf = leaf_op(op.opstr@)->0;
    let gate = gate_view(leaf);
    let inputs = resolved_all(op.inputs@, plan.params, op.inputs@.len())->Ok_0;
    let outputs = ports(plan.nodes.len(), gate.outputs());
    let free = free_outputs(inputs, outputs, gate.outputs());
    lemma_numbers_out(leaf, inputs, outputs);
    operations_have_names_of_their_own(op.opstr@);
    operations_take_what_they_are_known_for(leaf);
    parameters_get_the_wires_in_order(plan.params, op.outputs@, free);
    if leaf == LeafOp::AddF64 {
        lemma_computes(ops, i, x);
        assert(free.len() == 1);
        if computes_param(ops, i, x) {
            let g = choose|g: int| #[trigger] gives(op.outputs@, 1, g, x);
            lemma_gives_once(op.outputs@, g, x);
            assert(next.params[x as int] == Some(free[0]));
            assert(outputs[0] == Port { node: (i + 1) as nat, port: 0 });
        } else if x < next.params.len() {
            assert(next.params[x as int] == slot(plan.params, x));
        }
    } else {
        assert forall|g: int, y: usize| !#[trigger] gives(op.outputs@, 0, g, y) by {}
        assert(free.len() == 0);
        if x < next.params.len() {
            assert(next.params[x as int] == slot(plan.params, x));
        }
    }
}

/// Where a parameter is after the first `n` operations.
proof fn lemma_param_is_at(n_qb: nat, n_params: nat, ops: Seq<RepCircOp>, n: nat, x: usize)
    requires
        n <= ops.len(),
        ops_planned(plan_start(n_qb, n_params), ops, n) is Ok,
    ensures
        param_is_at(
            n_qb,
            n_params,
            ops,
            n as int,
            x,
            slot(ops_planned(plan_start(n_qb, n_params), ops, n)->Ok_0.params, x),
        ),
    decreases n,
{
    let start = plan_start(n_qb, n_params);
    if n > 0 {
        let m = (n - 1) as nat;
        let plan = ops_planned(start, ops, m)->Ok_0;
        let next = ops_planned(start, ops, n)->Ok_0;
        lemma_param_is_at(n_qb, n_params, ops, m, x);
        lemma_ops_planned(n_qb, n_params, ops, m);
        lemma_param_after(plan, ops, m as int, x);
        lemma_param_moves(
            n_qb,
            n_params,
            ops,
            m as int,
            x,
            slot(plan.params, x),
            slot(next.params, x),
        );
    } else {
        assert forall|j: int| j < 0 implies !#[trigger] computes_param(ops, j, x) by {}
    }
}

/// A parameter is where the last operation left it.
proof fn lemma_param_moves(
    n_qb: nat,
    n_params: nat,
    ops: Seq<RepCircOp>,
    m: int,
    x: usize,
    before: Option<Port>,
    after: Option<Port>,
)
    requires
        0 <= m,
        param_is_at(n_qb, n_params, ops, m, x, before),
        after == (if computes_param(ops, m, x) {
            Some(Port { node: (m + 1) as nat, port: 0 })
        } else {
            before
        }),
    ensures
        param_is_at(n_qb, n_params, ops, m + 1, x, after),
{
    assert forall|j: int| #[trigger]
        computes_param(ops, j, x) && j < m + 1 && (forall|l: int|
            j < l < m + 1 ==> !#[trigger] computes_param(ops, l, x)) implies after == Some(
        Port { node: (j + 1) as nat, port: 0 },
    ) by {
        if computes_param(ops, m, x) {
            assert(j == m);
        }
    }
}

/// Parameters are what was computed last. An operation takes the parameter `x` from the last
/// sum before it that computes `x`, or from the input of the circuit for it, which comes after
/// those for the qubits.
pub proof fn parameters_are_what_was_computed_last<W>(nodes: Seq<Placed<W>>, rep: RepCircData)
    requires
        planned(rep) is Ok,
        realises(nodes, planned(rep)->Ok_0),
    ensures
        ({
            let ops = rep.circ.0@;
            forall|i: int, k: int, x: usize| #[trigger]
                takes_param(ops, i, k, x) ==> {
                    &&& forall|j: int| #[trigger]
                        computes_param(ops, j, x) && j < i && (forall|l: int|
                            j < l < i ==> !#[trigger] computes_param(ops, l, x))
                            ==> nodes[i + 1].inputs[k] == nodes[j + 1].outputs[0]
                    &&& (forall|j: int| j < i ==> !#[trigger] computes_param(ops, j, x)) ==> x
                        < rep.meta.n_input_param && nodes[i + 1].inputs[k]
                        == nodes[0].outputs[rep.meta.n_qb + x]
                }
        }),
{
    let n_qb = rep.meta.n_qb as nat;
    let n_params = rep.meta.n_input_param as nat;
    let ops = rep.circ.0@;
    let start = plan_start(n_qb, n_params);
    lemma_ops_planned(n_qb, n_params, ops, ops.len());
    assert forall|i: int, k: int, x: usize| #[trigger] takes_param(ops, i, k, x) implies {
        &&& forall|j: int| #[trigger]
            computes_param(ops, j, x) && j < i && (forall|l: int|
                j < l < i ==> !#[trigger] computes_param(ops, l, x)) ==> nodes[i + 1].inputs[k]
                == nodes[j + 1].outputs[0]
        &&& (forall|j: int| j < i ==> !#[trigger] computes_param(ops, j, x)) ==> x
            < rep.meta.n_input_param && nodes[i + 1].inputs[k] == nodes[0].outputs[rep.meta.n_qb
            + x]
    } by {
        lemma_taken(n_qb, n_params, ops, ops.len(), i);
        lemma_param_is_at(n_qb, n_params, ops, i as nat, x);
        lemma_wire_from(nodes, rep, i + 1, k);
        let before = ops_planned(start, ops, i as nat)->Ok_0;
        assert(param_is_at(n_qb, n_params, ops, i, x, slot(before.params, x)));
    }
}

/// Of the operations before `i` that compute a parameter, one is the last.
pub(crate) proof fn lemma_last_computed(ops: Seq<RepCircOp>, i: int, j: int, x: usize) -> (last:
    int)
    requires
        j < i,
        computes_param(ops, j, x),
    ensures
        j <= last < i,
        computes_param(ops, last, x),
        forall|l: int| last < l < i ==> !#[trigger] computes_param(ops, l, x),
    decreases i - j,
{
    if exists|l: int| j < l < i && #[trigger] computes_param(ops, l, x) {
        let l = choose|l: int| j < l < i && #[trigger] computes_param(ops, l, x);
        lemma_last_computed(ops, i, l, x)
    } else {
        j
    }
}

/// The wire of a parameter after the first `n` operations.
pub(crate) proof fn lemma_slot(
    n_qb: nat,
    n_params: nat,
    ops: Seq<RepCircOp>,
    n: nat,
    x: usize,
)
    requires
        n <= ops.len(),
        ops_planned(plan_start(n_qb, n_params), ops, n) is Ok,
    ensures
        ({
            let port = slot(ops_planned(plan_start(n_qb, n_params), ops, n)->Ok_0.params, x);
            &&& forall|j: int| #[trigger]
                computes_param(ops, j, x) && j < n && (forall|l: int|
                    j < l < n ==> !#[trigger] computes_param(ops, l, x)) ==> port is Some
            &&& (forall|j: int| j < n ==> !#[trigger] computes_param(ops, j, x)) ==> (port is Some
                <==> x < n_params)
        }),
{
    lemma_param_is_at(n_qb, n_params, ops, n, x);
}

} // verus!
