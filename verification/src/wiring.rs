//! How the operations of a circuit become the nodes of a graph.

use hugr::builder::{BuildError, DFGBuilder};
use hugr::{Hugr, Wire};
use vstd::prelude::*;

use crate::dataflow::{
    are_there, count, dfg_append, dfg_ends, dfg_hugr, dfg_input_wires, dfg_is_opaque, dfg_new,
    dfg_nodes, dfg_set_outputs, fits, free_outputs, graph_ports, hugr_is_closed, hugr_is_opaque,
    hugr_nodes, hugr_resolve, hugr_validate, input_ports, is_linear, is_output, is_regular, is_used,
    may_take, meant, output_node, registry_gates, uses, MAX_INPUTS, MAX_PORTS, MAX_USES, NodeKind,
    Placed,
};
use crate::gates::Gates;
use crate::plan::{
    at, each_operation_is_one_node, graphs_of_circuits_are_regular, is_port, is_sound, lemma_added,
    lemma_count_before, lemma_free_from, lemma_free_outputs, lemma_grown, lemma_linear, lemma_meant,
    lemma_op_planned, lemma_plan_grown, lemma_plan_start, lemma_ports_after, lemma_qubits,
    lemma_recorded, lemma_resolved, lemma_resolved_from, lemma_room, lemma_same_count,
    lemma_units_after, lemma_units_wirable, lemma_unused, lemma_uses_before, lemma_wirable,
    node_realises, op_planned, ops_planned, plan_start, planned, ports, realises, same_inputs,
    same_params, same_wires, Fault, Plan, Port,
};
use crate::qtz_circuit::{
    gate, gate_view, leaf_op, map_op, map_wt, record_outputs, recorded, resolve_inputs, resolved,
    resolved_all, wire, with_param, AppendWire, GateOp, GateView, RepCircData, RepCircOp, WireError,
    WireType,
};

verus! {

/// Why a circuit was not made.
#[derive(Debug)]
pub enum RepError {
    /// An operation has an unknown name.
    UnknownOp,
    /// A wire has a bad name, or carries a parameter that is not there.
    Wire(WireError),
    /// An operation is given more or fewer qubits or parameters than it takes.
    WrongInputs,
    /// The builder refused an operation.
    Build(BuildError),
    /// There are too many inputs for a graph, a parameter is used too often, or the ports of a
    /// graph may run out.
    TooLarge,
}

impl RepError {
    /// What is wrong with the circuit.
    pub open spec fn fault(self) -> Fault {
        match self {
            RepError::UnknownOp => Fault::UnknownOp,
            RepError::Wire(e) => Fault::Wire(e),
            RepError::WrongInputs => Fault::WrongInputs,
            RepError::Build(_) => Fault::BadQubit,
            RepError::TooLarge => Fault::TooLarge,
        }
    }
}

/// Whether the operation takes those inputs.
fn inputs_fit(gate: &GateOp, inputs: &Vec<AppendWire<Wire>>) -> (fit: bool)
    requires
        gate.qubits + gate.params <= usize::MAX,
    ensures
        fit == fits(gate@, inputs@),
{
    if inputs.len() != gate.qubits + gate.params {
        return false;
    }
    for p in 0..inputs.len()
        invariant
            forall|q: int|
                0 <= q < p ==> (#[trigger] inputs@[q] is I <==> q < gate.qubits),
    {
        let is_qubit: bool = match inputs[p] {
            AppendWire::I(_) => true,
            AppendWire::W(_) => false,
        };
        if is_qubit != (p < gate.qubits) {
            assert(!(inputs@[p as int] is I <==> p < gate@.qubits));
            return false;
        }
    }
    true
}

/// The counts are how often the wires of the parameters are taken.
spec fn are_counts(counts: Seq<Option<usize>>, plan: Plan) -> bool {
    &&& counts.len() == plan.params.len()
    &&& forall|k: int|
        0 <= k < counts.len() ==> match (#[trigger] counts[k], plan.params[k]) {
            (None, None) => true,
            (Some(n), Some(port)) => n <= MAX_USES && n == uses(plan.nodes, port, plan.nodes.len()),
            _ => false,
        }
}

/// The counts once the first `n` inputs of an operation were counted.
spec fn are_counts_with(
    counts: Seq<Option<usize>>,
    plan: Plan,
    inputs: Seq<AppendWire<Port>>,
    n: int,
) -> bool {
    &&& counts.len() == plan.params.len()
    &&& forall|k: int|
        0 <= k < counts.len() ==> match (#[trigger] counts[k], plan.params[k]) {
            (None, None) => true,
            (Some(c), Some(port)) => c <= MAX_USES && c == uses(
                plan.nodes,
                port,
                plan.nodes.len(),
            ) + count(inputs.take(n), AppendWire::W(port)),
            _ => false,
        }
}

/// Counts the parameters that an operation takes, unless that is too often, and the ports for
/// them.
fn count_params(
    counts: &mut Vec<Option<usize>>,
    names: &Vec<String>,
    Ghost(plan): Ghost<Plan>,
) -> (ports: Option<usize>)
    requires
        is_sound(plan),
        are_counts(old(counts)@, plan),
        resolved_all(names@, plan.params, names@.len()) is Ok,
        names@.len() <= 2,
    ensures
        ({
            let inputs = resolved_all(names@, plan.params, names@.len())->Ok_0;
            match ports {
                Some(ports) => {
                    &&& may_take(plan.nodes, inputs)
                    &&& ports == input_ports(plan.nodes, inputs, inputs.len())
                    &&& ports <= 12
                    &&& are_counts_with(final(counts)@, plan, inputs, inputs.len() as int)
                },
                None => !may_take(plan.nodes, inputs),
            }
        }),
{
    let mut ports: usize = 0;
    let ghost inputs = resolved_all(names@, plan.params, names@.len())->Ok_0;
    proof {
        lemma_resolved_each(names@, plan.params, names@.len());
        assert forall|k: int| 0 <= k < counts@.len() implies match (
            #[trigger] counts@[k],
            plan.params[k],
        ) {
            (None, None) => true,
            (Some(c), Some(port)) => c <= MAX_USES && c == uses(
                plan.nodes,
                port,
                plan.nodes.len(),
            ) + count(inputs.take(0), AppendWire::W(port)),
            _ => false,
        } by {}
    }
    for i in 0..names.len()
        invariant
            is_sound(plan),
            inputs.len() == names@.len(),
            forall|k: int|
                0 <= k < names@.len() ==> Ok::<AppendWire<Port>, WireError>(
                    #[trigger] inputs[k],
                ) == resolved(names@[k]@, plan.params),
            are_counts_with(counts@, plan, inputs, i as int),
            inputs == resolved_all(names@, plan.params, names@.len())->Ok_0,
            names@.len() <= 2,
            ports == input_ports(plan.nodes, inputs, i as nat),
            ports <= 6 * i,
    {
        let ghost before = counts@;
        assert(Ok::<AppendWire<Port>, WireError>(inputs[i as int]) == resolved(
            names@[i as int]@,
            plan.params,
        ));
        assert(inputs.take(i + 1).drop_last() =~= inputs.take(i as int));
        if let Some((WireType::F64, index)) = map_wt(names[i].as_str()) {
            assert(index < counts@.len());
            assert(match (counts@[index as int], plan.params[index as int]) {
                (None, None) => true,
                (Some(_), Some(_)) => true,
                _ => false,
            });
            let n: usize = match counts[index] {
                Some(n) => n,
                None => 0,
            };
            let ghost port = plan.params[index as int]->0;
            assert(inputs[i as int] == AppendWire::W(port));
            if n >= MAX_USES {
                proof {
                    lemma_count_before(inputs, AppendWire::W(port), i + 1);
                    assert(!may_take(plan.nodes, inputs));
                }
                return None;
            }
            assert(n == uses(plan.nodes, port, plan.nodes.len()) + count(
                inputs.take(i as int),
                inputs[i as int],
            ));
            ports = ports + if n == 0 {
                0
            } else if n == 1 {
                3
            } else {
                6
            };
            counts.set(index, Some(n + 1));
        }
        assert forall|k: int| 0 <= k < counts@.len() implies match (
            #[trigger] counts@[k],
            plan.params[k],
        ) {
            (None, None) => true,
            (Some(c), Some(port)) => c <= MAX_USES && c == uses(
                plan.nodes,
                port,
                plan.nodes.len(),
            ) + count(inputs.take(i + 1), AppendWire::W(port)),
            _ => false,
        } by {
            assert(match (before[k], plan.params[k]) {
                (None, None) => true,
                (Some(_), Some(_)) => true,
                _ => false,
            });
            if let Some((WireType::F64, index)) = wire(names@[i as int]@) {
                if k != index && plan.params[k] is Some {
                    assert(plan.params[k] != plan.params[index as int]);
                }
            }
        }
    }
    proof {
        assert(inputs.take(inputs.len() as int) =~= inputs);
        lemma_resolved_from(names@, plan.params, names@.len());
        assert forall|p: int| 0 <= p < inputs.len() implies (#[trigger] inputs[p] matches
            AppendWire::W(port) ==> uses(plan.nodes, port, plan.nodes.len()) + count(
            inputs,
            inputs[p],
        ) <= MAX_USES) by {
            if let AppendWire::W(port) = inputs[p] {
                let k = plan.params.index_of(Some(port));
                assert(plan.params[k] == Some(port));
                assert(counts@[k] is Some);
            }
        }
    }
    Some(ports)
}

/// What each of the inputs is connected to.
proof fn lemma_resolved_each<W>(names: Seq<String>, params: Seq<Option<W>>, n: nat)
    requires
        n <= names.len(),
    ensures
        resolved_all(names, params, n) matches Ok(inputs) ==> inputs.len() == n && forall|k: int|
            0 <= k < n ==> Ok::<AppendWire<W>, WireError>(#[trigger] inputs[k]) == resolved(
                names[k]@,
                params,
            ),
    decreases n,
{
    if n > 0 {
        lemma_resolved_each(names, params, (n - 1) as nat);
    }
}

/// The counts go with the parameters when these get new wires.
proof fn lemma_counts_recorded(
    params: Seq<Option<Port>>,
    counts: Seq<Option<usize>>,
    names: Seq<String>,
    i: nat,
    wires: Seq<Port>,
    zeros: Seq<usize>,
    used: nat,
    good: spec_fn(Port, usize) -> bool,
)
    requires
        params.len() == counts.len(),
        wires.len() == zeros.len(),
        forall|k: int|
            0 <= k < params.len() ==> match (#[trigger] counts[k], params[k]) {
                (None, None) => true,
                (Some(n), Some(port)) => good(port, n),
                _ => false,
            },
        forall|k: int| 0 <= k < wires.len() ==> good(#[trigger] wires[k], zeros[k]),
    ensures
        match (recorded(params, names, i, wires, used), recorded(counts, names, i, zeros, used)) {
            (Ok(params), Ok(counts)) => params.len() == counts.len() && forall|k: int|
                0 <= k < params.len() ==> match (#[trigger] counts[k], params[k]) {
                    (None, None) => true,
                    (Some(n), Some(port)) => good(port, n),
                    _ => false,
                },
            (Err(e), Err(f)) => e == f,
            _ => false,
        },
    decreases names.len() - i,
{
    if i < names.len() {
        match wire(names[i as int]@) {
            Some((WireType::Qubit, _)) => {
                lemma_counts_recorded(params, counts, names, i + 1, wires, zeros, used, good);
            },
            Some((WireType::F64, index)) => {
                if used < wires.len() && index < usize::MAX {
                    assert(good(wires[used as int], zeros[used as int]));
                    lemma_counts_recorded(
                        with_param(params, index, wires[used as int]),
                        with_param(counts, index, zeros[used as int]),
                        names,
                        i + 1,
                        wires,
                        zeros,
                        used + 1,
                        good,
                    );
                }
            },
            None => {},
        }
    }
}

/// After an operation the wires of the parameters are taken as often as was counted.
proof fn lemma_counts_after(
    plan: Plan,
    gate: GateView,
    inputs: Seq<AppendWire<Port>>,
    names: Seq<String>,
    counts: Seq<Option<usize>>,
    zeros: Seq<usize>,
)
    requires
        is_sound(plan),
        fits(gate, inputs),
        are_there(inputs, plan.units.len()),
        same_wires(plan.nodes, meant(inputs, plan.units), meant(inputs, plan.units)),
        are_counts_with(counts, plan, inputs, inputs.len() as int),
        zeros.len() == free_outputs(
            inputs,
            ports(plan.nodes.len(), gate.outputs()),
            gate.outputs(),
        ).len(),
        forall|k: int| 0 <= k < zeros.len() ==> #[trigger] zeros[k] == 0,
    ensures
        ({
            let outputs = ports(plan.nodes.len(), gate.outputs());
            let grown = plan.nodes.push(
                Placed {
                    kind: NodeKind::Gate(gate),
                    inputs: meant(inputs, plan.units),
                    outputs,
                    linear: gate.qubits,
                },
            );
            let free = free_outputs(inputs, outputs, gate.outputs());
            match (
                recorded(plan.params, names, 0, free, 0),
                recorded(counts, names, 0, zeros, 0),
            ) {
                (Ok(params), Ok(counts)) => are_counts(
                    counts,
                    Plan { nodes: grown, units: plan.units, params },
                ),
                (Err(e), Err(f)) => e == f,
                _ => false,
            }
        }),
{
    let outputs = ports(plan.nodes.len(), gate.outputs());
    let node = Placed {
        kind: NodeKind::Gate(gate),
        inputs: meant(inputs, plan.units),
        outputs,
        linear: gate.qubits,
    };
    let grown = plan.nodes.push(node);
    let free = free_outputs(inputs, outputs, gate.outputs());
    let good = |port: Port, n: usize| n <= MAX_USES && n == uses(grown, port, grown.len());
    lemma_plan_grown(plan.nodes, node);
    assert(inputs.take(inputs.len() as int) =~= inputs);
    assert forall|k: int| 0 <= k < plan.params.len() implies match (
        #[trigger] counts[k],
        plan.params[k],
    ) {
        (None, None) => true,
        (Some(n), Some(port)) => good(port, n),
        _ => false,
    } by {
        if let Some(port) = plan.params[k] {
            lemma_uses_before(plan.nodes, node, port, plan.nodes.len());
            assert forall|p: int| 0 <= p < inputs.len() implies (#[trigger] inputs[p]
                == AppendWire::W(port)) == (node.inputs[p] == port) by {
                if let AppendWire::I(index) = inputs[p] {
                    assert(node.inputs[p] == plan.units[index as int]);
                    assert(is_linear(plan.nodes, plan.units[index as int]));
                }
            }
            lemma_same_count(inputs, AppendWire::W(port), node.inputs, port);
        }
    }
    assert forall|k: int| 0 <= k < free.len() implies good(#[trigger] free[k], zeros[k]) by {
        let p = lemma_free_from(gate, inputs, outputs, gate.outputs(), k);
        assert(free[k] == node.outputs[p]);
        assert(zeros[k] == 0);
        lemma_unused(grown, free[k], grown.len());
    }
    lemma_counts_recorded(plan.params, counts, names, 0, free, zeros, 0, good);
}

/// What has been built is what was planned.
spec fn builds(
    dfg: DFGBuilder<Hugr>,
    units: Seq<Wire>,
    params: Seq<Option<Wire>>,
    counts: Seq<Option<usize>>,
    n_ports: usize,
    plan: Plan,
) -> bool {
    let nodes = dfg_nodes(dfg);
    &&& dfg_is_opaque(dfg)
    &&& dfg_ends(dfg).len() == 0
    &&& realises(nodes, plan.nodes)
    &&& is_sound(plan)
    &&& same_wires(nodes, units, plan.units)
    &&& same_params(nodes, params, plan.params)
    &&& are_counts(counts, plan)
    &&& n_ports == graph_ports(plan.nodes, plan.nodes.len())
    &&& n_ports <= MAX_PORTS
}

/// Builds one more operation.
fn add_op(
    dfg: &mut DFGBuilder<Hugr>,
    units: &mut Vec<Wire>,
    params: &mut Vec<Option<Wire>>,
    counts: &mut Vec<Option<usize>>,
    n_ports: &mut usize,
    op: &RepCircOp,
    Ghost(plan): Ghost<Plan>,
) -> (res: Result<(), RepError>)
    requires
        builds(*old(dfg), old(units)@, old(params)@, old(counts)@, *old(n_ports), plan),
        plan.nodes.len() > 0,
    ensures
        match op_planned(plan, *op) {
            Ok(next) => {
                &&& res is Ok
                &&& builds(
                    *final(dfg),
                    final(units)@,
                    final(params)@,
                    final(counts)@,
                    *final(n_ports),
                    next,
                )
                &&& dfg_nodes(*final(dfg))[0] == dfg_nodes(*old(dfg))[0]
                &&& next.units.len() == plan.units.len()
                &&& next.nodes.len() == plan.nodes.len() + 1
            },
            Err(fault) => res matches Err(e) && e.fault() == fault,
        },
{
    let ghost nodes = dfg_nodes(*dfg);
    let ghost before = params@;
    let leaf = match map_op(op.opstr.as_str()) {
        Some(leaf) => leaf,
        None => {
            return Err(RepError::UnknownOp);
        },
    };
    proof {
        lemma_resolved(nodes, op.inputs@, params@, plan.params, op.inputs@.len());
        lemma_resolved(plan.nodes, op.inputs@, plan.params, plan.params, op.inputs@.len());
        lemma_resolved_from(op.inputs@, plan.params, op.inputs@.len());
    }
    let inputs: Vec<AppendWire<Wire>> = match resolve_inputs(&op.inputs, params) {
        Ok(inputs) => inputs,
        Err(e) => {
            return Err(RepError::Wire(e));
        },
    };
    let gate = gate(leaf);
    let ghost planned_inputs = resolved_all(op.inputs@, plan.params, op.inputs@.len())->Ok_0;
    let ghost outputs = gate@.outputs();
    let ghost planned_outputs = ports(plan.nodes.len(), outputs);
    proof {
        lemma_same_shape(nodes, gate@, inputs@, planned_inputs);
    }
    if !inputs_fit(&gate, &inputs) {
        return Err(RepError::WrongInputs);
    }
    let own_ports: usize = 2 * gate.qubits + gate.params + gate.param_outputs + 2;
    let more_ports: usize = match count_params(counts, &op.inputs, Ghost(plan)) {
        Some(ports) => own_ports + ports,
        None => {
            return Err(RepError::TooLarge);
        },
    };
    if more_ports > MAX_PORTS - *n_ports {
        return Err(RepError::TooLarge);
    }
    let ghost units_before = units@;
    let ghost counted = counts@;
    proof {
        lemma_room(nodes, plan.nodes, gate@, inputs@, planned_inputs);
        lemma_meant(nodes, inputs@, planned_inputs, units@, plan.units);
        lemma_meant(plan.nodes, planned_inputs, planned_inputs, plan.units, plan.units);
        if are_there(inputs@, units@.len()) {
            lemma_wirable(
                nodes,
                plan.nodes,
                meant(inputs@, units@),
                meant(planned_inputs, plan.units),
            );
            lemma_qubits(plan, gate@, planned_inputs);
        }
        assert forall|k: int| 0 <= k < units@.len() implies is_linear(
            nodes,
            #[trigger] units@[k],
        ) by {
            assert(is_port(nodes, plan.units[k]));
            lemma_linear(nodes, plan.nodes, plan.units[k]);
        }
        assert forall|k: int| 0 <= k < inputs@.len() implies (#[trigger] inputs@[k] matches
            AppendWire::W(wire) ==> is_output(nodes, wire)) by {
            if let AppendWire::W(wire) = inputs@[k] {
                assert(planned_inputs[k] is W);
                lemma_linear(nodes, plan.nodes, planned_inputs[k]->W_0);
            }
        }
    }
    let mut wires: Vec<Wire> = Vec::new();
    std::mem::swap(&mut wires, units);
    let (wires, appended) = dfg_append(dfg, wires, gate, &inputs);
    *units = wires;
    let free: Vec<Wire> = match appended {
        Ok(free) => free,
        Err(e) => {
            return Err(RepError::Build(e));
        },
    };
    *n_ports = *n_ports + more_ports;
    let ghost node = dfg_nodes(*dfg).last();
    let ghost planned = Placed {
        kind: NodeKind::Gate(gate@),
        inputs: meant(planned_inputs, plan.units),
        outputs: planned_outputs,
        linear: gate@.qubits,
    };
    proof {
        assert(dfg_nodes(*dfg) == nodes.push(node));
        lemma_ports_after(plan, gate@, planned_inputs);
        lemma_added(nodes, plan.nodes, node, planned);
        lemma_grown(nodes, node, units_before, plan.units, before, plan.params);
        lemma_units_after(
            nodes.push(node),
            inputs@,
            planned_inputs,
            units_before,
            plan.units,
            node.outputs,
            planned_outputs,
        );
        lemma_free_outputs(
            nodes.push(node),
            inputs@,
            planned_inputs,
            node.outputs,
            planned_outputs,
            outputs,
        );
        lemma_recorded(
            nodes.push(node),
            before,
            plan.params,
            op.outputs@,
            0,
            free@,
            free_outputs(planned_inputs, planned_outputs, outputs),
            0,
        );
        if op_planned(plan, *op) is Ok {
            lemma_op_planned(plan, *op);
        }
    }
    let zeros: Vec<usize> = no_uses(free.len());
    proof {
        lemma_counts_after(plan, gate@, planned_inputs, op.outputs@, counted, zeros@);
    }
    match record_outputs(counts, &op.outputs, &zeros) {
        Ok(()) => {},
        Err(e) => {
            return Err(RepError::Wire(e));
        },
    }
    match record_outputs(params, &op.outputs, &free) {
        Ok(()) => Ok(()),
        Err(e) => Err(RepError::Wire(e)),
    }
}

/// The counts of new wires.
fn no_uses(n: usize) -> (zeros: Vec<usize>)
    ensures
        zeros@.len() == n,
        forall|k: int| 0 <= k < n ==> #[trigger] zeros@[k] == 0,
{
    let mut zeros: Vec<usize> = Vec::new();
    for i in 0..n
        invariant
            zeros@.len() == i,
            forall|k: int| 0 <= k < i ==> #[trigger] zeros@[k] == 0,
    {
        zeros.push(0);
    }
    zeros
}

/// Inputs that are connected as planned fit an operation as planned.
proof fn lemma_same_shape<W>(
    nodes: Seq<Placed<W>>,
    gate: GateView,
    inputs: Seq<AppendWire<W>>,
    planned: Seq<AppendWire<Port>>,
)
    requires
        same_inputs(nodes, inputs, planned),
    ensures
        fits(gate, inputs) == fits(gate, planned),
{
    assert forall|p: int| 0 <= p < inputs.len() implies (#[trigger] inputs[p] is I)
        == planned[p] is I by {}
    if fits(gate, inputs) {
        assert forall|p: int| 0 <= p < planned.len() implies (#[trigger] planned[p] is I <==> p
            < gate.qubits) by {
            assert(inputs[p] is I == planned[p] is I);
        }
    }
    if fits(gate, planned) {
        assert forall|p: int| 0 <= p < inputs.len() implies (#[trigger] inputs[p] is I <==> p
            < gate.qubits) by {
            assert(planned[p] is I <==> p < gate.qubits);
        }
    }
}

/// Makes the graph of a circuit. Its operations are opaque still.
pub fn build(rep: &RepCircData) -> (res: Result<Hugr, RepError>)
    ensures
        match planned(*rep) {
            Ok(plan) => res matches Ok(hugr) && realises(hugr_nodes(hugr), plan)
                && hugr_is_opaque(hugr),
            Err(fault) => res matches Err(e) && e.fault() == fault,
        },
        match planned(*rep) {
            Ok(_) => true,
            Err(Fault::UnknownOp) => res matches Err(RepError::UnknownOp),
            Err(Fault::Wire(error)) => res matches Err(RepError::Wire(e)) && e == error,
            Err(Fault::WrongInputs) => res matches Err(RepError::WrongInputs),
            Err(Fault::BadQubit) => res matches Err(RepError::Build(_)),
            Err(Fault::TooLarge) => res matches Err(RepError::TooLarge),
        },
{
    let n_qb: usize = rep.meta.n_qb;
    let n_params: usize = rep.meta.n_input_param;
    let ops = &rep.circ.0;
    if n_qb > MAX_INPUTS || n_params > MAX_INPUTS - n_qb {
        return Err(RepError::TooLarge);
    }
    let mut dfg: DFGBuilder<Hugr> = match dfg_new(n_qb, n_params) {
        Ok(dfg) => dfg,
        Err(e) => {
            return Err(RepError::Build(e));
        },
    };
    let inputs: Vec<Wire> = dfg_input_wires(&dfg);
    let mut units: Vec<Wire> = Vec::new();
    let mut params: Vec<Option<Wire>> = Vec::new();
    let mut counts: Vec<Option<usize>> = Vec::new();
    let ghost start = plan_start(n_qb as nat, n_params as nat);
    let ghost nodes = dfg_nodes(dfg);
    for i in 0..n_qb
        invariant
            n_qb <= inputs@.len(),
            units@ == inputs@.take(i as int),
    {
        units.push(inputs[i]);
    }
    for j in 0..n_params
        invariant
            inputs@.len() == n_qb + n_params,
            n_qb + n_params <= MAX_INPUTS,
            params@ == Seq::new(j as nat, |k: int| Some(inputs@[n_qb + k])),
            counts@ == Seq::new(j as nat, |k: int| Some(0usize)),
    {
        params.push(Some(inputs[n_qb + j]));
        counts.push(Some(0));
    }
    proof {
        lemma_plan_start(n_qb as nat, n_params as nat);
        assert forall|port: Port| #[trigger] uses(start.nodes, port, 1) == 0 by {
            assert(!is_used(start.nodes, port));
            lemma_unused(start.nodes, port, 1);
        }
        assert(nodes =~= seq![nodes[0]]);
        assert forall|k: int| 0 <= k < start.units.len() implies is_port(
            nodes,
            #[trigger] start.units[k],
        ) && units@[k] == at(nodes, start.units[k]) by {}
    }
    let mut n_ports: usize = 3 * (n_qb + n_params) + 3 * n_qb + 7;
    assert(graph_ports(start.nodes, 1) == n_ports) by {
        assert(graph_ports(start.nodes, 0) == 0);
    }
    let mut plan: Ghost<Plan> = Ghost(start);
    for i in 0..ops.len()
        invariant
            ops@ == rep.circ.0@,
            start == plan_start(rep.meta.n_qb as nat, rep.meta.n_input_param as nat),
            rep.meta.n_qb + rep.meta.n_input_param <= MAX_INPUTS,
            ops_planned(start, ops@, i as nat) == Ok::<Plan, Fault>(plan@),
            builds(dfg, units@, params@, counts@, n_ports, plan@),
            plan@.nodes.len() == i + 1,
            plan@.units.len() == n_qb,
            dfg_nodes(dfg)[0].linear == n_qb,
    {
        let ghost next = op_planned(plan@, ops@[i as int]);
        assert(ops_planned(start, ops@, (i + 1) as nat) == next);
        match add_op(
            &mut dfg,
            &mut units,
            &mut params,
            &mut counts,
            &mut n_ports,
            &ops[i],
            plan,
        ) {
            Ok(()) => {},
            Err(e) => {
                proof {
                    lemma_first_fault(start, ops@, (i + 1) as nat, ops@.len(), e.fault());
                }
                return Err(e);
            },
        }
        proof {
            plan@ = next->Ok_0;
        }
    }
    let ghost nodes = dfg_nodes(dfg);
    let ghost ends = units@;
    proof {
        lemma_units_wirable(plan@);
        lemma_wirable(nodes, plan@.nodes, units@, plan@.units);
        assert forall|k: int| 0 <= k < units@.len() implies is_linear(
            nodes,
            #[trigger] units@[k],
        ) by {
            assert(is_port(nodes, plan@.units[k]));
            lemma_linear(nodes, plan@.nodes, plan@.units[k]);
        }
    }
    match dfg_set_outputs(&mut dfg, units) {
        Ok(()) => {},
        Err(e) => {
            return Err(RepError::Build(e));
        },
    }
    proof {
        assert(ports(plan@.nodes.len(), 0) =~= Seq::<Port>::empty());
        lemma_added(nodes, plan@.nodes, output_node(ends), output_node(plan@.units));
    }
    Ok(dfg_hugr(dfg))
}

/// What is wrong with the first operations is wrong with all of them.
proof fn lemma_first_fault(start: Plan, ops: Seq<RepCircOp>, m: nat, n: nat, fault: Fault)
    requires
        m <= n,
        ops_planned(start, ops, m) == Err::<Plan, Fault>(fault),
    ensures
        ops_planned(start, ops, n) == Err::<Plan, Fault>(fault),
    decreases n,
{
    if m < n {
        lemma_first_fault(start, ops, m, (n - 1) as nat, fault);
    }
}

/// Why a circuit was not made, or not found right.
#[derive(Debug)]
pub enum CircuitError {
    /// It could not be made.
    Rep(RepError),
    /// Its graph breaks a rule.
    Invalid(String),
}

/// The graph is that of the circuit.
pub open spec fn is_graph_of(hugr: Hugr, rep: RepCircData) -> bool {
    planned(rep) matches Ok(plan) && realises(hugr_nodes(hugr), plan)
}

/// All operations of the graph are defined, and it obeys the rules.
pub open spec fn is_valid(hugr: Hugr) -> bool {
    hugr_is_closed(hugr) && is_regular(hugr_nodes(hugr))
}

/// What comes of a graph, by the outcome of its validation.
pub fn validated(hugr: Hugr, outcome: Result<(), String>) -> (res: Result<Hugr, CircuitError>)
    ensures
        match outcome {
            Ok(()) => res == Ok::<Hugr, CircuitError>(hugr),
            Err(message) => res == Err::<Hugr, CircuitError>(CircuitError::Invalid(message)),
        },
{
    match outcome {
        Ok(()) => Ok(hugr),
        Err(message) => Err(CircuitError::Invalid(message)),
    }
}

/// Makes the graph of a circuit, with operations that are defined, and validates it. What is
/// wrong with the circuit is an error, and nothing else is: all its graphs are valid.
pub fn circuit_from_rep(rep: &RepCircData, gates: &Gates) -> (res: Result<Hugr, CircuitError>)
    ensures
        match planned(*rep) {
            Ok(_) => res matches Ok(hugr) && is_graph_of(hugr, *rep) && is_valid(hugr),
            Err(fault) => res matches Err(CircuitError::Rep(e)) && e.fault() == fault,
        },
        match planned(*rep) {
            Ok(plan) => res matches Ok(hugr) && realises(hugr_nodes(hugr), plan) && hugr_is_closed(
                hugr,
            ) && is_regular(hugr_nodes(hugr)),
            Err(Fault::UnknownOp) => res matches Err(CircuitError::Rep(RepError::UnknownOp)),
            Err(Fault::Wire(error)) => res matches Err(CircuitError::Rep(RepError::Wire(e))) && e
                == error,
            Err(Fault::WrongInputs) => res matches Err(CircuitError::Rep(RepError::WrongInputs)),
            Err(Fault::BadQubit) => res matches Err(CircuitError::Rep(RepError::Build(_))),
            Err(Fault::TooLarge) => res matches Err(CircuitError::Rep(RepError::TooLarge)),
        },
{
    let built: Hugr = match build(rep) {
        Ok(hugr) => hugr,
        Err(e) => {
            return Err(CircuitError::Rep(e));
        },
    };
    let registry = gates.registry();
    proof {
        let plan = planned(*rep)->Ok_0;
        let nodes = hugr_nodes(built);
        each_operation_is_one_node(*rep);
        assert forall|i: int| 0 <= i < nodes.len() implies ((#[trigger] nodes[i]).kind matches
            NodeKind::Gate(gate) ==> registry_gates(*registry).contains(gate)) by {
            assert(node_realises(nodes, nodes[i], plan[i]));
            if 0 < i < plan.len() - 1 {
                let op = rep.circ.0@[i - 1];
                assert(plan[i - 1 + 1].kind == NodeKind::Gate(gate_view(leaf_op(op.opstr@)->0)));
            }
        }
    }
    let hugr: Hugr = match hugr_resolve(built, registry) {
        Ok(hugr) => hugr,
        Err(message) => {
            return Err(CircuitError::Invalid(message));
        },
    };
    proof {
        graphs_of_circuits_are_regular(hugr_nodes(hugr), *rep);
    }
    let outcome: Result<(), String> = hugr_validate(&hugr);
    validated(hugr, outcome)
}

} // verus!
