//! Which circuits can be made, by the names in them, and what is wrong with the others.

use vstd::prelude::*;

use crate::dataflow::{
    count, fits, free_outputs, has_room, is_linear, is_well_typed, uses, NodeKind, MAX_INPUTS,
    MAX_USES,
};
use crate::follow::{
    computes_param, lemma_last_computed, lemma_numbers_out, lemma_slot, slot, takes_qubit,
};
use crate::plan::{
    are_distinct_qubits, lemma_ops_planned, lemma_ops_typed, op_planned, ops_planned, plan_start,
    planned, ports, ports_last_for_many_operations, Fault, Plan, Port,
};
use crate::qtz_circuit::{
    gate_view, gives, inputs_are_what_they_name, leaf_op, operations_have_names_of_their_own,
    operations_take_what_they_are_known_for, parameters_get_the_wires_in_order, params_before,
    resolved_all, wire, AppendWire, LeafOp, RepCircData, RepCircOp, WireError, WireType,
};

verus! {

/// The name is that of an operation.
pub open spec fn is_known(opstr: Seq<char>) -> bool {
    ||| opstr == "h"@
    ||| opstr == "x"@
    ||| opstr == "t"@
    ||| opstr == "tdg"@
    ||| opstr == "rz"@
    ||| opstr == "rx"@
    ||| opstr == "cx"@
    ||| opstr == "add"@
}

/// How many qubits an operation of that name takes.
pub open spec fn qubits_in(opstr: Seq<char>) -> nat {
    if opstr == "cx"@ {
        2
    } else if opstr == "add"@ {
        0
    } else {
        1
    }
}

/// How many parameters an operation of that name takes.
pub open spec fn params_in(opstr: Seq<char>) -> nat {
    if opstr == "add"@ {
        2
    } else if opstr == "rz"@ || opstr == "rx"@ {
        1
    } else {
        0
    }
}

/// How many parameters an operation of that name computes.
pub open spec fn params_out(opstr: Seq<char>) -> nat {
    if opstr == "add"@ {
        1
    } else {
        0
    }
}

/// The parameter `x` is there for the operation at `i`: it comes in, or was computed.
pub open spec fn is_available(rep: RepCircData, i: int, x: usize) -> bool {
    ||| x < rep.meta.n_input_param
    ||| exists|j: int| j < i && #[trigger] computes_param(rep.circ.0@, j, x)
}

/// The input at `k` of the operation at `i` has the name of a qubit, or of a parameter that is
/// there.
pub open spec fn is_named(rep: RepCircData, i: int, k: int) -> bool {
    match wire(rep.circ.0@[i].inputs@[k]@) {
        Some((WireType::Qubit, _)) => true,
        Some((WireType::F64, x)) => is_available(rep, i, x),
        None => false,
    }
}

/// All inputs of the operation at `i` have such names.
pub open spec fn are_named(rep: RepCircData, i: int) -> bool {
    forall|k: int| 0 <= k < rep.circ.0@[i].inputs@.len() ==> #[trigger] is_named(rep, i, k)
}

/// The operation at `i` has as many inputs as its name asks for: first the qubits, and then the
/// parameters.
pub open spec fn has_its_inputs(ops: Seq<RepCircOp>, i: int) -> bool {
    let opstr = ops[i].opstr@;
    &&& ops[i].inputs@.len() == qubits_in(opstr) + params_in(opstr)
    &&& forall|k: int|
        #![trigger ops[i].inputs@[k]]
        0 <= k < ops[i].inputs@.len() ==> ((wire(ops[i].inputs@[k]@) matches Some((
            WireType::Qubit,
            _,
        ))) <==> k < qubits_in(opstr))
}

/// The qubits that the operation at `i` takes are among those of the circuit, and differ.
pub open spec fn has_its_qubits(rep: RepCircData, i: int) -> bool {
    &&& forall|k: int, x: usize| #[trigger]
        takes_qubit(rep.circ.0@, i, k, x) ==> x < rep.meta.n_qb
    &&& forall|k: int, l: int, x: usize| #[trigger]
        takes_qubit(rep.circ.0@, i, k, x) && #[trigger] takes_qubit(rep.circ.0@, i, l, x) ==> k
            == l
}

/// All outputs of the operation at `i` that are looked at have the names of wires: those up to
/// the first one of a parameter that is not computed.
pub open spec fn has_its_outputs(ops: Seq<RepCircOp>, i: int) -> bool {
    let names = ops[i].outputs@;
    let n = params_out(ops[i].opstr@);
    forall|m: int|
        #![trigger names[m]]
        0 <= m < names.len() && params_before(names, m as nat) <= n ==> wire(names[m]@) is Some && !(
        params_before(names, m as nat) < n && wire(names[m]@) == Some((WireType::F64, usize::MAX)))
}

/// Nothing is wrong with the operation at `i`.
pub open spec fn is_right(rep: RepCircData, i: int) -> bool {
    &&& is_known(rep.circ.0@[i].opstr@)
    &&& are_named(rep, i)
    &&& has_its_inputs(rep.circ.0@, i)
    &&& has_its_qubits(rep, i)
    &&& has_its_outputs(rep.circ.0@, i)
}

/// What an operation of a name takes and gives.
proof fn lemma_known(opstr: Seq<char>)
    ensures
        leaf_op(opstr) is Some <==> is_known(opstr),
        leaf_op(opstr) matches Some(op) ==> {
            &&& gate_view(op).qubits == qubits_in(opstr)
            &&& gate_view(op).params == params_in(opstr)
            &&& gate_view(op).param_outputs == params_out(opstr)
            &&& gate_view(op).inputs() == qubits_in(opstr) + params_in(opstr)
            &&& gate_view(op).outputs() == qubits_in(opstr) + params_out(opstr)
            &&& gate_view(op).inputs() <= 2
            &&& op == LeafOp::AddF64 <==> opstr == "add"@
        },
{
    operations_have_names_of_their_own(opstr);
    if let Some(op) = leaf_op(opstr) {
        operations_take_what_they_are_known_for(op);
        match op {
            LeafOp::H => {},
            LeafOp::RzF64 => {},
            LeafOp::RxF64 => {},
            LeafOp::CX => {},
            LeafOp::T => {},
            LeafOp::Tadj => {},
            LeafOp::X => {},
            LeafOp::AddF64 => {},
        }
    }
}

/// An item that is not among the first ones occurs no more often than there are others.
proof fn lemma_count_rest<T>(items: Seq<T>, x: T, first: nat)
    requires
        first <= items.len(),
        forall|k: int| 0 <= k < first ==> #[trigger] items[k] != x,
    ensures
        count(items, x) <= items.len() - first,
    decreases items.len(),
{
    if items.len() > first {
        assert forall|k: int| 0 <= k < first implies #[trigger] items.drop_last()[k] != x by {
            assert(items[k] != x);
        }
        lemma_count_rest(items.drop_last(), x, first);
    } else if items.len() > 0 {
        assert forall|k: int| 0 <= k < first - 1 implies #[trigger] items.drop_last()[k] != x by {
            assert(items[k] != x);
        }
        lemma_count_rest(items.drop_last(), x, (first - 1) as nat);
        assert(items[first - 1] != x);
    }
}

/// How many inputs of the first `n` operations are parameters.
pub open spec fn params_taken(ops: Seq<RepCircOp>, n: int) -> nat
    decreases n,
{
    if n <= 0 {
        0
    } else {
        params_taken(ops, n - 1) + params_in(ops[n - 1].opstr@)
    }
}

/// More operations take no fewer parameters.
proof fn lemma_params_taken(ops: Seq<RepCircOp>, m: int, n: int)
    requires
        m <= n,
    ensures
        params_taken(ops, m) <= params_taken(ops, n),
    decreases n - m,
{
    if m < n {
        lemma_params_taken(ops, m, n - 1);
    }
}

/// The wire of a parameter is taken no more often than there are inputs that are parameters.
proof fn lemma_few_uses(rep: RepCircData, i: int, port: Port, n: int)
    requires
        0 <= n <= i <= rep.circ.0@.len(),
        plan_before(rep, i) is Ok,
        !is_linear(plan_before(rep, i)->Ok_0.nodes, port),
    ensures
        uses(plan_before(rep, i)->Ok_0.nodes, port, (n + 1) as nat) <= params_taken(
            rep.circ.0@,
            n,
        ),
    decreases n,
{
    let n_qb = rep.meta.n_qb as nat;
    let n_params = rep.meta.n_input_param as nat;
    let ops = rep.circ.0@;
    let nodes = plan_before(rep, i)->Ok_0.nodes;
    lemma_ops_planned(n_qb, n_params, ops, i as nat);
    if n > 0 {
        let op = ops[n - 1];
        let node = nodes[n];
        lemma_few_uses(rep, i, port, n - 1);
        lemma_ops_typed(n_qb, n_params, ops, i as nat);
        lemma_known(op.opstr@);
        assert(nodes[n - 1 + 1].kind == NodeKind::Gate(gate_view(leaf_op(op.opstr@)->0)));
        assert(is_well_typed(nodes, node));
        assert forall|k: int| 0 <= k < qubits_in(op.opstr@) implies #[trigger] node.inputs[k]
            != port by {
            assert(is_linear(nodes, node.inputs[k]));
        }
        lemma_count_rest(node.inputs, port, qubits_in(op.opstr@));
    } else {
        assert(uses(nodes, port, 0) == 0);
        assert(count(nodes[0].inputs, port) == 0);
    }
}

/// A parameter is on a wire where it is available.
proof fn lemma_available(rep: RepCircData, i: int, x: usize)
    requires
        0 <= i <= rep.circ.0@.len(),
        ops_planned(
            plan_start(rep.meta.n_qb as nat, rep.meta.n_input_param as nat),
            rep.circ.0@,
            i as nat,
        ) is Ok,
    ensures
        slot(
            ops_planned(
                plan_start(rep.meta.n_qb as nat, rep.meta.n_input_param as nat),
                rep.circ.0@,
                i as nat,
            )->Ok_0.params,
            x,
        ) is Some <==> is_available(rep, i, x),
{
    let ops = rep.circ.0@;
    lemma_slot(rep.meta.n_qb as nat, rep.meta.n_input_param as nat, ops, i as nat, x);
    if exists|j: int| j < i && #[trigger] computes_param(ops, j, x) {
        let j = choose|j: int| j < i && #[trigger] computes_param(ops, j, x);
        let last = lemma_last_computed(ops, i, j, x);
        assert(computes_param(ops, last, x));
    }
}

/// The plan after the first `i` operations.
spec fn plan_before(rep: RepCircData, i: int) -> Result<Plan, Fault> {
    ops_planned(
        plan_start(rep.meta.n_qb as nat, rep.meta.n_input_param as nat),
        rep.circ.0@,
        i as nat,
    )
}

/// The inputs of an operation have names if and only if they can be resolved; if not, the error
/// is that of the first one without.
proof fn lemma_resolves(rep: RepCircData, i: int)
    requires
        0 <= i < rep.circ.0@.len(),
        plan_before(rep, i) is Ok,
    ensures
        ({
            let names = rep.circ.0@[i].inputs@;
            let params = plan_before(rep, i)->Ok_0.params;
            &&& resolved_all(names, params, names.len()) is Ok <==> are_named(rep, i)
            &&& resolved_all(names, params, names.len()) matches Err(e) ==> exists|k: int|
                is_first_unnamed(rep, i, k, e)
        }),
{
    let names = rep.circ.0@[i].inputs@;
    let params = plan_before(rep, i)->Ok_0.params;
    inputs_are_what_they_name(names, params, names.len());
    assert forall|x: usize| (x < params.len() && params[x as int] is Some) == #[trigger] is_available(
        rep,
        i,
        x,
    ) by {
        lemma_available(rep, i, x);
    }
    match resolved_all(names, params, names.len()) {
        Ok(inputs) => {
            assert forall|k: int| 0 <= k < names.len() implies #[trigger] is_named(rep, i, k) by {
                assert(names[k] == rep.circ.0@[i].inputs@[k]);
                if let Some((WireType::F64, x)) = wire(names[k]@) {
                    assert(is_available(rep, i, x));
                }
            }
        },
        Err(e) => {
            let k = choose|k: int|
                #![trigger names[k]]
                0 <= k < names.len() && (match wire(names[k]@) {
                    Some((WireType::Qubit, _)) => false,
                    Some((WireType::F64, index)) => e == WireError::NoParam && (index
                        >= params.len() || params[index as int] is None),
                    None => e == WireError::BadWire,
                }) && forall|j: int|
                    #![trigger names[j]]
                    0 <= j < k ==> match wire(names[j]@) {
                        Some((WireType::Qubit, _)) => true,
                        Some((WireType::F64, index)) => index < params.len()
                            && params[index as int] is Some,
                        None => false,
                    };
            if let Some((WireType::F64, x)) = wire(names[k]@) {
                assert(!is_available(rep, i, x));
            }
            assert(!is_named(rep, i, k));
            assert forall|j: int| 0 <= j < k implies #[trigger] is_named(rep, i, j) by {
                assert(names[j] == rep.circ.0@[i].inputs@[j]);
                if let Some((WireType::F64, x)) = wire(names[j]@) {
                    assert(is_available(rep, i, x));
                }
            }
            assert(is_first_unnamed(rep, i, k, e));
        },
    }
}

/// The input at `k` of the operation at `i` is the first one that has no such name, and the
/// error says whether it names nothing or a parameter that is not there.
pub open spec fn is_first_unnamed(rep: RepCircData, i: int, k: int, e: WireError) -> bool {
    &&& 0 <= k < rep.circ.0@[i].inputs@.len()
    &&& !is_named(rep, i, k)
    &&& forall|j: int| 0 <= j < k ==> #[trigger] is_named(rep, i, j)
    &&& e == WireError::BadWire <==> wire(rep.circ.0@[i].inputs@[k]@) is None
    &&& e == WireError::NoParam <==> wire(rep.circ.0@[i].inputs@[k]@) is Some
}

/// The inputs of an operation fit, and its qubits are there, as their names say.
proof fn lemma_fits(rep: RepCircData, i: int)
    requires
        0 <= i < rep.circ.0@.len(),
        plan_before(rep, i) is Ok,
        is_known(rep.circ.0@[i].opstr@),
        are_named(rep, i),
    ensures
        ({
            let op = rep.circ.0@[i];
            let plan = plan_before(rep, i)->Ok_0;
            let inputs = resolved_all(op.inputs@, plan.params, op.inputs@.len())->Ok_0;
            &&& fits(gate_view(leaf_op(op.opstr@)->0), inputs) <==> has_its_inputs(rep.circ.0@, i)
            &&& are_distinct_qubits(inputs, plan.units.len()) <==> has_its_qubits(rep, i)
        }),
{
    let ops = rep.circ.0@;
    let op = ops[i];
    let plan = plan_before(rep, i)->Ok_0;
    let names = op.inputs@;
    let gate = gate_view(leaf_op(op.opstr@)->0);
    lemma_known(op.opstr@);
    lemma_resolves(rep, i);
    inputs_are_what_they_name(names, plan.params, names.len());
    lemma_ops_planned(rep.meta.n_qb as nat, rep.meta.n_input_param as nat, ops, i as nat);
    let inputs = resolved_all(names, plan.params, names.len())->Ok_0;
    assert forall|k: int|
        #![trigger inputs[k]]
        #![trigger ops[i].inputs@[k]]
        0 <= k < inputs.len() implies (inputs[k] is I <==> (wire(ops[i].inputs@[k]@) matches Some((
        WireType::Qubit,
        _,
    )))) by {
        assert(names[k] == ops[i].inputs@[k]);
    }
    assert forall|k: int, x: usize| 0 <= k < inputs.len() implies #[trigger] takes_qubit(
        ops,
        i,
        k,
        x,
    ) == (inputs[k] == AppendWire::<Port>::I(x)) by {
        assert(names[k] == ops[i].inputs@[k]);
    }
    if fits(gate, inputs) {
        assert forall|k: int|
            #![trigger ops[i].inputs@[k]]
            0 <= k < ops[i].inputs@.len() implies ((wire(ops[i].inputs@[k]@) matches Some((
            WireType::Qubit,
            _,
        ))) <==> k < qubits_in(op.opstr@)) by {
            assert(inputs[k] is I <==> k < gate.qubits);
        }
    }
    if has_its_inputs(ops, i) {
        assert forall|k: int| 0 <= k < inputs.len() implies (#[trigger] inputs[k] is I <==> k
            < gate.qubits) by {
            assert(names[k] == ops[i].inputs@[k]);
        }
    }
    if are_distinct_qubits(inputs, plan.units.len()) {
        assert forall|k: int, x: usize| #[trigger] takes_qubit(ops, i, k, x) implies x
            < rep.meta.n_qb by {
            assert(inputs[k] == AppendWire::<Port>::I(x));
        }
        assert forall|k: int, l: int, x: usize| #[trigger]
            takes_qubit(ops, i, k, x) && #[trigger] takes_qubit(ops, i, l, x) implies k == l by {
            assert(inputs[k] == AppendWire::<Port>::I(x) && inputs[l] == AppendWire::<Port>::I(x));
            if k < l {
                assert(inputs[k] != inputs[l]);
            }
            if l < k {
                assert(inputs[l] != inputs[k]);
            }
        }
    }
    if has_its_qubits(rep, i) {
        assert forall|p: int| 0 <= p < inputs.len() implies (#[trigger] inputs[p] matches
            AppendWire::I(index) ==> index < plan.units.len()) by {
            if let AppendWire::I(index) = inputs[p] {
                assert(takes_qubit(ops, i, p, index));
            }
        }
        assert forall|p: int, q: int|
            #![trigger inputs[p], inputs[q]]
            0 <= p < q < inputs.len() && inputs[p] is I implies inputs[p] != inputs[q] by {
            if inputs[p] == inputs[q] {
                let x = inputs[p]->I_0;
                assert(takes_qubit(ops, i, p, x) && takes_qubit(ops, i, q, x));
            }
        }
    }
}

/// In a circuit of so many operations and parameters there is room for one more.
proof fn lemma_room(rep: RepCircData, i: int)
    requires
        0 <= i < rep.circ.0@.len(),
        i < 100_000_000,
        params_taken(rep.circ.0@, i + 1) <= 65535,
        rep.meta.n_qb + rep.meta.n_input_param <= MAX_INPUTS,
        plan_before(rep, i) is Ok,
        is_known(rep.circ.0@[i].opstr@),
        are_named(rep, i),
        has_its_inputs(rep.circ.0@, i),
    ensures
        ({
            let op = rep.circ.0@[i];
            let plan = plan_before(rep, i)->Ok_0;
            let inputs = resolved_all(op.inputs@, plan.params, op.inputs@.len())->Ok_0;
            has_room(plan.nodes, gate_view(leaf_op(op.opstr@)->0), inputs)
        }),
{
    let n_qb = rep.meta.n_qb as nat;
    let n_params = rep.meta.n_input_param as nat;
    let ops = rep.circ.0@;
    let op = ops[i];
    let plan = plan_before(rep, i)->Ok_0;
    lemma_fits(rep, i);
    lemma_known(op.opstr@);
    lemma_resolves(rep, i);
    inputs_are_what_they_name(op.inputs@, plan.params, op.inputs@.len());
    let inputs = resolved_all(op.inputs@, plan.params, op.inputs@.len())->Ok_0;
    let leaf = leaf_op(op.opstr@)->0;
    lemma_ops_planned(n_qb, n_params, ops, i as nat);
    assert forall|p: int| 0 <= p < inputs.len() implies (#[trigger] inputs[p] matches AppendWire::W(
        wire,
    ) ==> uses(plan.nodes, wire, plan.nodes.len()) + count(inputs, inputs[p]) <= MAX_USES) by {
        if let AppendWire::W(port) = inputs[p] {
            assert(wire(op.inputs@[p]@) matches Some((WireType::F64, x)) && plan.params[x as int]
                == Some(port));
            lemma_few_uses(rep, i, port, i);
            assert forall|k: int| 0 <= k < qubits_in(op.opstr@) implies #[trigger] inputs[k]
                != inputs[p] by {}
            lemma_count_rest(inputs, inputs[p], qubits_in(op.opstr@));
        }
    }
    ports_last_for_many_operations(n_qb, n_params, ops, i as nat, leaf, inputs);
}

/// What is wrong with the operation at `i`, if anything.
proof fn lemma_op_fault(rep: RepCircData, i: int)
    requires
        0 <= i < rep.circ.0@.len(),
        rep.meta.n_qb + rep.meta.n_input_param <= MAX_INPUTS,
        plan_before(rep, i) is Ok,
    ensures
        plan_before(rep, i + 1) is Ok ==> is_right(rep, i),
        plan_before(rep, i + 1) matches Err(fault) ==> is_fault_of(rep, i, fault),
{
    let op = rep.circ.0@[i];
    let plan = plan_before(rep, i)->Ok_0;
    assert(plan_before(rep, i + 1) == op_planned(plan, op));
    lemma_known(op.opstr@);
    lemma_resolves(rep, i);
    if is_known(op.opstr@) && are_named(rep, i) {
        lemma_fits(rep, i);
        if has_its_inputs(rep.circ.0@, i) {
            if i < 100_000_000 && params_taken(rep.circ.0@, i + 1) <= 65535 {
                lemma_room(rep, i);
            }
            if has_its_qubits(rep, i) {
                let leaf = leaf_op(op.opstr@)->0;
                let gate = gate_view(leaf);
                let inputs = resolved_all(op.inputs@, plan.params, op.inputs@.len())->Ok_0;
                let outputs = ports(plan.nodes.len(), gate.outputs());
                let free = free_outputs(inputs, outputs, gate.outputs());
                lemma_numbers_out(leaf, inputs, outputs);
                parameters_get_the_wires_in_order(plan.params, op.outputs@, free);
                assert(free.len() == params_out(op.opstr@));
                lemma_outputs(rep.circ.0@, i);
            }
        }
    }
}

/// The outputs that are looked at, in other words.
proof fn lemma_outputs(ops: Seq<RepCircOp>, i: int)
    ensures
        ({
            let names = ops[i].outputs@;
            let n = params_out(ops[i].opstr@);
            has_its_outputs(ops, i) <==> forall|m: int|
                #![trigger names[m]]
                0 <= m < names.len() && params_before(names, m as nat) <= n ==> wire(names[m]@)
                    is Some && !gives(names, n, m, usize::MAX)
        }),
{
}

/// The fault is what is wrong with the operation at `i`. It is looked at in this order: its
/// name, the names of its inputs, how many there are of which kind, whether there is room, the
/// qubits, and the names of its outputs. There is room within a hundred million operations as
/// long as no more than 65535 inputs are parameters.
pub open spec fn is_fault_of(rep: RepCircData, i: int, fault: Fault) -> bool {
    let ops = rep.circ.0@;
    if !is_known(ops[i].opstr@) {
        fault == Fault::UnknownOp
    } else if !are_named(rep, i) {
        fault matches Fault::Wire(e) && exists|k: int| is_first_unnamed(rep, i, k, e)
    } else if !has_its_inputs(ops, i) {
        fault == Fault::WrongInputs
    } else if fault is TooLarge {
        i >= 100_000_000 || params_taken(ops, i + 1) > 65535
    } else if !has_its_qubits(rep, i) {
        fault == Fault::BadQubit
    } else {
        !has_its_outputs(ops, i) && fault == Fault::Wire(WireError::BadWire)
    }
}

/// A circuit can be made only if it has not too many inputs and nothing is wrong with any
/// operation: it has a name that is known, the qubits and parameters that the name asks for, of
/// which the qubits are there and differ and the parameters come in or were computed before, and
/// outputs that are wires. Up to a hundred million operations, of whose inputs no more than 65535
/// are parameters, every such circuit can be made. Otherwise the fault is that of the first
/// operation with which something is wrong.
pub proof fn right_circuits_can_be_made(rep: RepCircData)
    ensures
        planned(rep) is Ok ==> {
            &&& rep.meta.n_qb + rep.meta.n_input_param <= 65533
            &&& forall|i: int| 0 <= i < rep.circ.0@.len() ==> #[trigger] is_right(rep, i)
        },
        rep.meta.n_qb + rep.meta.n_input_param <= 65533 && rep.circ.0@.len() <= 100_000_000
            && params_taken(rep.circ.0@, rep.circ.0@.len() as int) <= 65535 && (forall|i: int|
            0 <= i < rep.circ.0@.len() ==> #[trigger] is_right(rep, i)) ==> planned(rep) is Ok,
        planned(rep) matches Err(fault) ==> if rep.meta.n_qb + rep.meta.n_input_param > 65533 {
            fault == Fault::TooLarge
        } else {
            exists|i: int|
                0 <= i < rep.circ.0@.len() && #[trigger] is_fault_of(rep, i, fault) && forall|
                    j: int,
                |
                    0 <= j < i ==> #[trigger] is_right(rep, j)
        },
{
    let n = rep.circ.0@.len() as int;
    if rep.meta.n_qb + rep.meta.n_input_param <= MAX_INPUTS {
        lemma_first_wrong(rep, n);
        if rep.circ.0@.len() <= 100_000_000 && params_taken(rep.circ.0@, n) <= 65535 && forall|
            i: int,
        |
            0 <= i < n ==> #[trigger] is_right(rep, i) {
            if let Err(fault) = plan_before(rep, n) {
                let i = choose|i: int|
                    0 <= i < n && #[trigger] is_fault_of(rep, i, fault) && forall|j: int|
                        0 <= j < i ==> #[trigger] is_right(rep, j);
                assert(is_right(rep, i));
                lemma_params_taken(rep.circ.0@, i + 1, n);
            }
        }
    }
}

/// The first operation with which something is wrong.
proof fn lemma_first_wrong(rep: RepCircData, n: int)
    requires
        0 <= n <= rep.circ.0@.len(),
        rep.meta.n_qb + rep.meta.n_input_param <= MAX_INPUTS,
    ensures
        plan_before(rep, n) is Ok ==> forall|i: int| 0 <= i < n ==> #[trigger] is_right(rep, i),
        plan_before(rep, n) matches Err(fault) ==> exists|i: int|
            0 <= i < n && #[trigger] is_fault_of(rep, i, fault) && forall|j: int|
                0 <= j < i ==> #[trigger] is_right(rep, j),
    decreases n,
{
    if n > 0 {
        lemma_first_wrong(rep, n - 1);
        match plan_before(rep, n - 1) {
            Ok(_) => {
                lemma_op_fault(rep, n - 1);
                if let Err(fault) = plan_before(rep, n) {
                    assert(is_fault_of(rep, n - 1, fault));
                }
            },
            Err(fault) => {
                assert(plan_before(rep, n) == Err::<Plan, Fault>(fault));
                let i = choose|i: int|
                    0 <= i < n - 1 && #[trigger] is_fault_of(rep, i, fault) && forall|j: int|
                        0 <= j < i ==> #[trigger] is_right(rep, j);
                assert(is_fault_of(rep, i, fault));
            },
        }
    }
}

} // verus!
