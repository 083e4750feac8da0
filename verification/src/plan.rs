//! The graph of a circuit before it is built: which nodes it has, and how they are connected.

use vstd::prelude::*;

use crate::dataflow::{
    are_there, count, fits, free_outputs, graph_ports, has_room, input_ports, is_copy_free,
    is_fresh, is_linear, is_output, is_regular, is_used, is_well_typed, link_ports, may_take, meant,
    op_ports, output_node, units_after, uses, wirable, MAX_INPUTS, MAX_USES, NodeKind, Placed,
};
use crate::qtz_circuit::{
    gate_view, leaf_op, recorded, resolved, resolved_all, wire, with_param, AppendWire,
    GateView, LeafOp, RepCircData, RepCircOp, WireError, WireType,
};

verus! {

/// A wire by where it comes from: the number of the node, and the number of its output.
pub struct Port {
    pub node: nat,
    pub port: nat,
}

/// A graph that is being planned: its nodes, the wires on which the qubits are, and those on
/// which the parameters are.
#[verifier::ext_equal]
pub struct Plan {
    pub nodes: Seq<Placed<Port>>,
    pub units: Seq<Port>,
    pub params: Seq<Option<Port>>,
}

/// Why a circuit cannot be made.
pub enum Fault {
    /// An operation has an unknown name.
    UnknownOp,
    /// A wire has a bad name, or carries a parameter that is not there.
    Wire(WireError),
    /// An operation is given more or fewer qubits or parameters than it takes.
    WrongInputs,
    /// An operation is given a qubit that is not there, or one qubit twice.
    BadQubit,
    /// There are too many inputs for a graph, a parameter is used too often, or the ports of a
    /// graph may run out.
    TooLarge,
}

/// All qubits that are meant are among so many, and none is meant twice.
pub open spec fn are_distinct_qubits<W>(inputs: Seq<AppendWire<W>>, n: nat) -> bool {
    &&& are_there(inputs, n)
    &&& forall|p: int, q: int|
        #![trigger inputs[p], inputs[q]]
        0 <= p < q < inputs.len() && inputs[p] is I ==> inputs[p] != inputs[q]
}

/// The outputs of a node.
pub open spec fn ports(node: nat, n: nat) -> Seq<Port> {
    Seq::new(n, |p: int| Port { node, port: p as nat })
}

/// Before the first operation: the inputs are there, the qubits before the parameters.
pub open spec fn plan_start(n_qb: nat, n_params: nat) -> Plan {
    Plan {
        nodes: seq![
            Placed {
                kind: NodeKind::Input,
                inputs: Seq::empty(),
                outputs: ports(0, n_qb + n_params),
                linear: n_qb,
            },
        ],
        units: ports(0, n_qb),
        params: Seq::new(n_params, |j: int| Some(Port { node: 0, port: (n_qb + j) as nat })),
    }
}

/// After one more operation.
pub open spec fn op_planned(plan: Plan, op: RepCircOp) -> Result<Plan, Fault> {
    match leaf_op(op.opstr@) {
        None => Err(Fault::UnknownOp),
        Some(leaf) => match resolved_all(op.inputs@, plan.params, op.inputs@.len()) {
            Err(e) => Err(Fault::Wire(e)),
            Ok(inputs) => {
                let gate = gate_view(leaf);
                let outputs = ports(plan.nodes.len(), gate.outputs());
                if !fits(gate, inputs) {
                    Err(Fault::WrongInputs)
                } else if !has_room(plan.nodes, gate, inputs) {
                    Err(Fault::TooLarge)
                } else if !are_distinct_qubits(inputs, plan.units.len()) {
                    Err(Fault::BadQubit)
                } else {
                    match recorded(
                        plan.params,
                        op.outputs@,
                        0,
                        free_outputs(inputs, outputs, gate.outputs()),
                        0,
                    ) {
                        Err(e) => Err(Fault::Wire(e)),
                        Ok(params) => Ok(
                            Plan {
                                nodes: plan.nodes.push(
                                    Placed {
                                        kind: NodeKind::Gate(gate),
                                        inputs: meant(inputs, plan.units),
                                        outputs,
                                        linear: gate.qubits,
                                    },
                                ),
                                units: units_after(inputs, plan.units, outputs),
                                params,
                            },
                        ),
                    }
                }
            },
        },
    }
}

/// After the first `n` operations.
pub open spec fn ops_planned(start: Plan, ops: Seq<RepCircOp>, n: nat) -> Result<Plan, Fault>
    decreases n,
{
    if n == 0 {
        Ok(start)
    } else {
        match ops_planned(start, ops, (n - 1) as nat) {
            Ok(plan) => op_planned(plan, ops[n - 1]),
            Err(e) => Err(e),
        }
    }
}

/// The nodes of the graph of a circuit: one for the inputs, one for each operation in order,
/// and one for the outputs, which are the qubits.
pub open spec fn planned(rep: RepCircData) -> Result<Seq<Placed<Port>>, Fault> {
    let n_qb = rep.meta.n_qb as nat;
    let n_params = rep.meta.n_input_param as nat;
    let ops = rep.circ.0@;
    if n_qb + n_params > MAX_INPUTS {
        Err(Fault::TooLarge)
    } else {
        match ops_planned(plan_start(n_qb, n_params), ops, ops.len()) {
            Err(e) => Err(e),
            Ok(plan) => Ok(plan.nodes.push(output_node(plan.units))),
        }
    }
}

/// There is such a wire.
pub open spec fn is_port<W>(nodes: Seq<Placed<W>>, port: Port) -> bool {
    port.node < nodes.len() && port.port < nodes[port.node as int].outputs.len()
}

/// The wire that comes from there.
pub open spec fn at<W>(nodes: Seq<Placed<W>>, port: Port) -> W {
    nodes[port.node as int].outputs[port.port as int]
}

/// The wires are those that come from there.
pub open spec fn same_wires<W>(nodes: Seq<Placed<W>>, wires: Seq<W>, ports: Seq<Port>) -> bool {
    &&& wires.len() == ports.len()
    &&& forall|k: int|
        0 <= k < ports.len() ==> is_port(nodes, #[trigger] ports[k]) && wires[k] == at(
            nodes,
            ports[k],
        )
}

/// No two outputs are the same wire.
pub open spec fn distinct_outputs<W>(nodes: Seq<Placed<W>>) -> bool {
    forall|i: int, p: int, j: int, q: int|
        0 <= i < nodes.len() && 0 <= p < nodes[i].outputs.len() && 0 <= j < nodes.len() && 0 <= q
            < nodes[j].outputs.len() && #[trigger] nodes[i].outputs[p]
            == #[trigger] nodes[j].outputs[q] ==> i == j && p == q
}

/// The node does what was planned, with the wires that were planned.
pub open spec fn node_realises<W>(
    nodes: Seq<Placed<W>>,
    node: Placed<W>,
    plan: Placed<Port>,
) -> bool {
    &&& node.kind == plan.kind
    &&& node.linear == plan.linear
    &&& node.outputs.len() == plan.outputs.len()
    &&& same_wires(nodes, node.inputs, plan.inputs)
}

/// The nodes are those that were planned.
pub open spec fn realises<W>(nodes: Seq<Placed<W>>, plan: Seq<Placed<Port>>) -> bool {
    &&& nodes.len() == plan.len()
    &&& forall|i: int|
        0 <= i < plan.len() ==> node_realises(nodes, #[trigger] nodes[i], plan[i])
    &&& distinct_outputs(nodes)
}

/// Every output of a planned node is named after where it comes from, and every input comes
/// from somewhere.
pub open spec fn is_plan(plan: Seq<Placed<Port>>) -> bool {
    &&& forall|i: int|
        0 <= i < plan.len() ==> (#[trigger] plan[i]).outputs == ports(
            i as nat,
            plan[i].outputs.len(),
        )
    &&& forall|i: int|
        0 <= i < plan.len() ==> same_wires(plan, (#[trigger] plan[i]).inputs, plan[i].inputs)
}

/// The inputs are connected to the same qubits, and to the wires that come from there.
pub open spec fn same_inputs<W>(
    nodes: Seq<Placed<W>>,
    inputs: Seq<AppendWire<W>>,
    plan: Seq<AppendWire<Port>>,
) -> bool {
    &&& inputs.len() == plan.len()
    &&& forall|k: int|
        0 <= k < plan.len() ==> match (#[trigger] inputs[k], plan[k]) {
            (AppendWire::I(i), AppendWire::I(j)) => i == j,
            (AppendWire::W(wire), AppendWire::W(port)) => is_port(nodes, port) && wire == at(
                nodes,
                port,
            ),
            _ => false,
        }
}

/// The same parameters are there, on the wires that come from there.
pub open spec fn same_params<W>(
    nodes: Seq<Placed<W>>,
    params: Seq<Option<W>>,
    plan: Seq<Option<Port>>,
) -> bool {
    &&& params.len() == plan.len()
    &&& forall|k: int|
        0 <= k < plan.len() ==> match (#[trigger] params[k], plan[k]) {
            (None, None) => true,
            (Some(wire), Some(port)) => is_port(nodes, port) && wire == at(nodes, port),
            _ => false,
        }
}

/// A plan is what was planned.
pub(crate) proof fn lemma_plan_realises_itself(plan: Seq<Placed<Port>>)
    requires
        is_plan(plan),
    ensures
        realises(plan, plan),
        forall|port: Port| is_port(plan, port) ==> #[trigger] at(plan, port) == port,
{
    assert forall|port: Port| is_port(plan, port) implies #[trigger] at(plan, port) == port by {
        assert(plan[port.node as int].outputs == ports(
            port.node,
            plan[port.node as int].outputs.len(),
        ));
    }
    assert forall|i: int, p: int, j: int, q: int|
        0 <= i < plan.len() && 0 <= p < plan[i].outputs.len() && 0 <= j < plan.len() && 0 <= q
            < plan[j].outputs.len() && #[trigger] plan[i].outputs[p]
            == #[trigger] plan[j].outputs[q] implies i == j && p == q by {
        assert(at(plan, Port { node: i as nat, port: p as nat }) == plan[i].outputs[p]);
        assert(at(plan, Port { node: j as nat, port: q as nat }) == plan[j].outputs[q]);
    }
}

/// Whether a wire carries a qubit is what was planned.
pub(crate) proof fn lemma_linear<W>(nodes: Seq<Placed<W>>, plan: Seq<Placed<Port>>, port: Port)
    requires
        realises(nodes, plan),
        is_plan(plan),
        is_port(nodes, port),
    ensures
        is_linear(nodes, at(nodes, port)) == is_linear(plan, port),
        is_output(nodes, at(nodes, port)),
{
    lemma_plan_realises_itself(plan);
    assert(node_realises(nodes, nodes[port.node as int], plan[port.node as int]));
    assert(at(plan, port) == port);
    lemma_linear_at(nodes, port);
    lemma_linear_at(plan, port);
}

/// A wire carries a qubit if and only if it is among the first outputs of its node.
proof fn lemma_linear_at<W>(nodes: Seq<Placed<W>>, port: Port)
    requires
        distinct_outputs(nodes),
        is_port(nodes, port),
    ensures
        is_linear(nodes, at(nodes, port)) == (port.port < nodes[port.node as int].linear),
        is_output(nodes, at(nodes, port)),
{
    let wire = at(nodes, port);
    assert(wire == nodes[port.node as int].outputs[port.port as int]);
}

/// Whether a wire is taken is what was planned.
proof fn lemma_used<W>(nodes: Seq<Placed<W>>, plan: Seq<Placed<Port>>, port: Port)
    requires
        realises(nodes, plan),
        is_plan(plan),
        is_port(nodes, port),
    ensures
        is_used(nodes, at(nodes, port)) == is_used(plan, port),
{
    let wire = at(nodes, port);
    if is_used(nodes, wire) {
        let (i, k) = choose|i: int, k: int|
            0 <= i < nodes.len() && 0 <= k < nodes[i].inputs.len() && wire
                == #[trigger] nodes[i].inputs[k];
        assert(node_realises(nodes, nodes[i], plan[i]));
        let other = plan[i].inputs[k];
        assert(is_port(nodes, other) && at(nodes, other) == wire);
        assert(nodes[port.node as int].outputs[port.port as int]
            == nodes[other.node as int].outputs[other.port as int]);
        assert(port == other);
        assert(is_used(plan, port));
    }
    if is_used(plan, port) {
        let (i, k) = choose|i: int, k: int|
            0 <= i < plan.len() && 0 <= k < plan[i].inputs.len() && port
                == #[trigger] plan[i].inputs[k];
        assert(node_realises(nodes, nodes[i], plan[i]));
        assert(nodes[i].inputs[k] == wire);
        assert(is_used(nodes, wire));
    }
}

/// Whether a node can take some wires is what was planned.
pub(crate) proof fn lemma_wirable<W>(
    nodes: Seq<Placed<W>>,
    plan: Seq<Placed<Port>>,
    wires: Seq<W>,
    inputs: Seq<Port>,
)
    requires
        realises(nodes, plan),
        is_plan(plan),
        same_wires(nodes, wires, inputs),
    ensures
        wirable(nodes, wires) == wirable(plan, inputs),
        forall|k: int| 0 <= k < wires.len() ==> is_output(nodes, #[trigger] wires[k]),
{
    assert forall|k: int| 0 <= k < wires.len() implies ({
        &&& is_output(nodes, #[trigger] wires[k])
        &&& is_linear(nodes, wires[k]) == is_linear(plan, inputs[k])
        &&& is_used(nodes, wires[k]) == is_used(plan, inputs[k])
        &&& wires.take(k).contains(wires[k]) == inputs.take(k).contains(inputs[k])
    }) by {
        assert(is_port(nodes, inputs[k]));
        lemma_linear(nodes, plan, inputs[k]);
        lemma_used(nodes, plan, inputs[k]);
        if wires.take(k).contains(wires[k]) {
            let j = choose|j: int| 0 <= j < k && wires.take(k)[j] == wires[k];
            assert(is_port(nodes, inputs[j]));
            assert(nodes[inputs[j].node as int].outputs[inputs[j].port as int]
                == nodes[inputs[k].node as int].outputs[inputs[k].port as int]);
            assert(inputs.take(k)[j] == inputs[k]);
        }
        if inputs.take(k).contains(inputs[k]) {
            let j = choose|j: int| 0 <= j < k && inputs.take(k)[j] == inputs[k];
            assert(is_port(nodes, inputs[j]));
            assert(wires.take(k)[j] == wires[k]);
        }
    }
    if wirable(nodes, wires) {
        assert forall|k: int|
            0 <= k < inputs.len() && is_linear(plan, #[trigger] inputs[k]) implies !is_used(
            plan,
            inputs[k],
        ) && !inputs.take(k).contains(inputs[k]) by {
            assert(is_linear(nodes, wires[k]));
        }
    }
    if wirable(plan, inputs) {
        assert forall|k: int|
            0 <= k < wires.len() && is_linear(nodes, #[trigger] wires[k]) implies !is_used(
            nodes,
            wires[k],
        ) && !wires.take(k).contains(wires[k]) by {
            assert(is_linear(plan, inputs[k]));
        }
    }
}

/// What inputs are connected to is what was planned.
pub(crate) proof fn lemma_resolved<W>(
    nodes: Seq<Placed<W>>,
    names: Seq<String>,
    params: Seq<Option<W>>,
    plan: Seq<Option<Port>>,
    n: nat,
)
    requires
        same_params(nodes, params, plan),
    ensures
        match (resolved_all(names, params, n), resolved_all(names, plan, n)) {
            (Ok(inputs), Ok(planned)) => inputs.len() == n && same_inputs(nodes, inputs, planned),
            (Err(e), Err(f)) => e == f,
            _ => false,
        },
    decreases n,
{
    if n > 0 {
        lemma_resolved(nodes, names, params, plan, (n - 1) as nat);
        if let Some((WireType::F64, index)) = wire(names[n - 1]@) {
            if index < params.len() {
                assert(match (params[index as int], plan[index as int]) {
                    (None, None) => true,
                    (Some(wire), Some(port)) => is_port(nodes, port) && wire == at(nodes, port),
                    _ => false,
                });
            }
        }
        assert(match (
            resolved(names[n - 1]@, params),
            resolved(names[n - 1]@, plan),
        ) {
            (Ok(AppendWire::I(i)), Ok(AppendWire::I(j))) => i == j,
            (Ok(AppendWire::W(wire)), Ok(AppendWire::W(port))) => is_port(nodes, port) && wire
                == at(nodes, port),
            (Err(e), Err(f)) => e == f,
            _ => false,
        });
    }
}

/// The wires that are meant are those that were planned.
pub(crate) proof fn lemma_meant<W>(
    nodes: Seq<Placed<W>>,
    inputs: Seq<AppendWire<W>>,
    planned: Seq<AppendWire<Port>>,
    units: Seq<W>,
    planned_units: Seq<Port>,
)
    requires
        same_inputs(nodes, inputs, planned),
        same_wires(nodes, units, planned_units),
    ensures
        are_there(inputs, units.len()) == are_there(planned, planned_units.len()),
        are_there(inputs, units.len()) ==> same_wires(
            nodes,
            meant(inputs, units),
            meant(planned, planned_units),
        ),
{
    if are_there(inputs, units.len()) {
        assert forall|p: int| 0 <= p < planned.len() implies (#[trigger] planned[p] matches
            AppendWire::I(index) ==> index < planned_units.len()) by {
            assert(inputs[p] is I == planned[p] is I);
        }
    }
    if are_there(planned, planned_units.len()) {
        assert forall|p: int| 0 <= p < inputs.len() implies (#[trigger] inputs[p] matches
            AppendWire::I(index) ==> index < units.len()) by {
            assert(inputs[p] is I == planned[p] is I);
        }
        let wires = meant(inputs, units);
        let ports = meant(planned, planned_units);
        assert forall|k: int| 0 <= k < ports.len() implies is_port(nodes, #[trigger] ports[k])
            && wires[k] == at(nodes, ports[k]) by {
            assert(inputs[k] is I == planned[k] is I);
            if let AppendWire::I(index) = planned[k] {
                assert(is_port(nodes, planned_units[index as int]));
            }
        }
    }
}

/// A wire comes from the same place after one more node.
pub(crate) proof fn lemma_grown<W>(
    nodes: Seq<Placed<W>>,
    node: Placed<W>,
    wires: Seq<W>,
    ports: Seq<Port>,
    params: Seq<Option<W>>,
    plan: Seq<Option<Port>>,
)
    requires
        same_wires(nodes, wires, ports),
        same_params(nodes, params, plan),
    ensures
        same_wires(nodes.push(node), wires, ports),
        same_params(nodes.push(node), params, plan),
{
    let grown = nodes.push(node);
    assert forall|port: Port| is_port(nodes, port) implies #[trigger] is_port(grown, port) && at(
        nodes,
        port,
    ) == at(grown, port) by {
        assert(grown[port.node as int] == nodes[port.node as int]);
    }
    assert forall|k: int| 0 <= k < ports.len() implies is_port(grown, #[trigger] ports[k])
        && wires[k] == at(grown, ports[k]) by {
        assert(is_port(nodes, ports[k]));
    }
}

/// The qubits are on the wires that were planned.
pub(crate) proof fn lemma_units_after<W>(
    nodes: Seq<Placed<W>>,
    inputs: Seq<AppendWire<W>>,
    planned: Seq<AppendWire<Port>>,
    units: Seq<W>,
    planned_units: Seq<Port>,
    outputs: Seq<W>,
    planned_outputs: Seq<Port>,
)
    requires
        inputs.len() == planned.len(),
        forall|k: int|
            0 <= k < planned.len() ==> match (#[trigger] inputs[k], planned[k]) {
                (AppendWire::I(i), AppendWire::I(j)) => i == j,
                (AppendWire::W(_), AppendWire::W(_)) => true,
                _ => false,
            },
        same_wires(nodes, units, planned_units),
        same_wires(nodes, outputs, planned_outputs),
        are_there(inputs, units.len()),
        forall|p: int| 0 <= p < inputs.len() && #[trigger] inputs[p] is I ==> p < outputs.len(),
    ensures
        same_wires(
            nodes,
            units_after(inputs, units, outputs),
            units_after(planned, planned_units, planned_outputs),
        ),
        units_after(inputs, units, outputs).len() == units.len(),
    decreases inputs.len(),
{
    if inputs.len() > 0 {
        let n = inputs.len() - 1;
        assert forall|p: int| 0 <= p < n implies (#[trigger] inputs.drop_last()[p] matches
            AppendWire::I(index) ==> index < units.len() && p < outputs.len()) by {
            assert(inputs[p] == inputs.drop_last()[p]);
        }
        assert forall|k: int| 0 <= k < n implies match (
            #[trigger] inputs.drop_last()[k],
            planned.drop_last()[k],
        ) {
            (AppendWire::I(i), AppendWire::I(j)) => i == j,
            (AppendWire::W(_), AppendWire::W(_)) => true,
            _ => false,
        } by {
            assert(inputs[k] == inputs.drop_last()[k]);
        }
        lemma_units_after(
            nodes,
            inputs.drop_last(),
            planned.drop_last(),
            units,
            planned_units,
            outputs,
            planned_outputs,
        );
        assert(inputs[n] == inputs.last());
        assert(planned[n] == planned.last());
        if let AppendWire::I(index) = inputs.last() {
            assert(is_port(nodes, planned_outputs[n]));
            let before = units_after(planned.drop_last(), planned_units, planned_outputs);
            let after = units_after(planned, planned_units, planned_outputs);
            assert(after == before.update(index as int, planned_outputs[n]));
            let wires = units_after(inputs, units, outputs);
            assert forall|k: int| 0 <= k < after.len() implies is_port(nodes, #[trigger] after[k])
                && wires[k] == at(nodes, after[k]) by {
                if k != index {
                    assert(after[k] == before[k]);
                }
            }
        }
    }
}

/// The outputs that are free are those that were planned.
pub(crate) proof fn lemma_free_outputs<W>(
    nodes: Seq<Placed<W>>,
    inputs: Seq<AppendWire<W>>,
    planned: Seq<AppendWire<Port>>,
    outputs: Seq<W>,
    planned_outputs: Seq<Port>,
    n: nat,
)
    requires
        inputs.len() == planned.len(),
        forall|k: int| 0 <= k < planned.len() ==> (#[trigger] inputs[k] is I == planned[k] is I),
        same_wires(nodes, outputs, planned_outputs),
        n <= outputs.len(),
    ensures
        same_wires(
            nodes,
            free_outputs(inputs, outputs, n),
            free_outputs(planned, planned_outputs, n),
        ),
    decreases n,
{
    if n > 0 {
        lemma_free_outputs(nodes, inputs, planned, outputs, planned_outputs, (n - 1) as nat);
        assert(is_port(nodes, planned_outputs[n - 1]));
        if n - 1 < inputs.len() {
            assert(inputs[n - 1] is I == planned[n - 1] is I);
        }
        let before = free_outputs(planned, planned_outputs, (n - 1) as nat);
        let ports = free_outputs(planned, planned_outputs, n);
        let wires = free_outputs(inputs, outputs, n);
        assert forall|k: int| 0 <= k < ports.len() implies is_port(nodes, #[trigger] ports[k])
            && wires[k] == at(nodes, ports[k]) by {
            if k < before.len() {
                assert(is_port(nodes, before[k]));
            }
        }
    }
}

/// The parameters are on the wires that were planned.
pub(crate) proof fn lemma_recorded<W>(
    nodes: Seq<Placed<W>>,
    params: Seq<Option<W>>,
    plan: Seq<Option<Port>>,
    names: Seq<String>,
    i: nat,
    wires: Seq<W>,
    ports: Seq<Port>,
    used: nat,
)
    requires
        same_params(nodes, params, plan),
        same_wires(nodes, wires, ports),
    ensures
        match (recorded(params, names, i, wires, used), recorded(plan, names, i, ports, used)) {
            (Ok(after), Ok(planned)) => same_params(nodes, after, planned),
            (Err(e), Err(f)) => e == f,
            _ => false,
        },
    decreases names.len() - i,
{
    if i < names.len() {
        match wire(names[i as int]@) {
            Some((WireType::Qubit, _)) => {
                lemma_recorded(nodes, params, plan, names, i + 1, wires, ports, used);
            },
            Some((WireType::F64, index)) => {
                if used < wires.len() && index < usize::MAX {
                    assert(is_port(nodes, ports[used as int]));
                    lemma_recorded(
                        nodes,
                        with_param(params, index, wires[used as int]),
                        with_param(plan, index, ports[used as int]),
                        names,
                        i + 1,
                        wires,
                        ports,
                        used + 1,
                    );
                }
            },
            None => {},
        }
    }
}

/// One more node is what was planned.
pub(crate) proof fn lemma_added<W>(
    nodes: Seq<Placed<W>>,
    plan: Seq<Placed<Port>>,
    node: Placed<W>,
    planned: Placed<Port>,
)
    requires
        realises(nodes, plan),
        is_plan(plan),
        node.kind == planned.kind,
        node.linear == planned.linear,
        planned.outputs == ports(plan.len(), node.outputs.len()),
        same_wires(nodes, node.inputs, planned.inputs),
        is_fresh(nodes, node.outputs),
    ensures
        realises(nodes.push(node), plan.push(planned)),
        is_plan(plan.push(planned)),
        same_wires(nodes.push(node), node.outputs, planned.outputs),
{
    let grown = nodes.push(node);
    let grown_plan = plan.push(planned);
    lemma_plan_realises_itself(plan);
    assert forall|port: Port| is_port(nodes, port) implies {
        &&& #[trigger] is_port(grown, port)
        &&& is_port(plan, port)
        &&& is_port(grown_plan, port)
        &&& at(nodes, port) == at(grown, port)
        &&& at(grown_plan, port) == port
    } by {
        assert(node_realises(nodes, nodes[port.node as int], plan[port.node as int]));
        assert(at(plan, port) == port);
    }
    assert forall|i: int| 0 <= i < grown_plan.len() implies node_realises(
        grown,
        #[trigger] grown[i],
        grown_plan[i],
    ) && same_wires(grown_plan, grown_plan[i].inputs, grown_plan[i].inputs) by {
        if i < plan.len() {
            assert(node_realises(nodes, nodes[i], plan[i]));
        }
        let inputs = grown_plan[i].inputs;
        assert(same_wires(nodes, grown[i].inputs, inputs));
        assert forall|k: int| 0 <= k < inputs.len() implies is_port(grown, #[trigger] inputs[k])
            && grown[i].inputs[k] == at(grown, inputs[k]) && is_port(grown_plan, inputs[k])
            && inputs[k] == at(grown_plan, inputs[k]) by {
            assert(is_port(nodes, inputs[k]));
        }
    }
    assert forall|i: int, p: int, j: int, q: int|
        0 <= i < grown.len() && 0 <= p < grown[i].outputs.len() && 0 <= j < grown.len() && 0 <= q
            < grown[j].outputs.len() && #[trigger] grown[i].outputs[p]
            == #[trigger] grown[j].outputs[q] implies i == j && p == q by {
        if i < nodes.len() && j == nodes.len() {
            assert(nodes[i].outputs[p] == node.outputs[q]);
            assert(is_output(nodes, node.outputs[q]));
        }
        if j < nodes.len() && i == nodes.len() {
            assert(nodes[j].outputs[q] == node.outputs[p]);
            assert(is_output(nodes, node.outputs[p]));
        }
        if i < nodes.len() && j < nodes.len() {
            assert(nodes[i].outputs[p] == nodes[j].outputs[q]);
        }
    }
}

/// What every operation keeps: all wires of a plan come from its nodes, no wire that carries a
/// qubit is taken twice, each qubit is on a wire of its own that nothing has taken, and each
/// parameter is on a wire of its own that carries no qubit.
pub open spec fn is_sound(plan: Plan) -> bool {
    &&& is_plan(plan.nodes)
    &&& is_copy_free(plan.nodes)
    &&& same_wires(plan.nodes, plan.units, plan.units)
    &&& same_params(plan.nodes, plan.params, plan.params)
    &&& plan.units.no_duplicates()
    &&& forall|k: int|
        0 <= k < plan.units.len() ==> is_linear(plan.nodes, #[trigger] plan.units[k]) && !is_used(
            plan.nodes,
            plan.units[k],
        )
    &&& forall|k: int|
        0 <= k < plan.params.len() ==> (#[trigger] plan.params[k] matches Some(port)
            ==> !is_linear(plan.nodes, port))
    &&& are_distinct_params(plan.params)
}

/// No wire carries two parameters.
pub open spec fn are_distinct_params<W>(params: Seq<Option<W>>) -> bool {
    forall|j: int, k: int|
        #![trigger params[j], params[k]]
        0 <= j < k < params.len() && params[j] is Some ==> params[j] != params[k]
}

/// Every wire that is taken comes from a node.
proof fn lemma_used_ports(plan: Seq<Placed<Port>>, port: Port)
    requires
        is_plan(plan),
        is_used(plan, port),
    ensures
        is_port(plan, port),
{
    let (i, k) = choose|i: int, k: int|
        0 <= i < plan.len() && 0 <= k < plan[i].inputs.len() && port
            == #[trigger] plan[i].inputs[k];
    assert(same_wires(plan, plan[i].inputs, plan[i].inputs));
}

/// A wire carries a qubit if and only if it is among the first outputs of its node.
proof fn lemma_plan_linear(plan: Seq<Placed<Port>>, port: Port)
    requires
        is_plan(plan),
        is_port(plan, port),
    ensures
        is_linear(plan, port) == (port.port < plan[port.node as int].linear),
{
    lemma_plan_realises_itself(plan);
    assert(at(plan, port) == port);
    lemma_linear_at(plan, port);
}

/// One more node of a plan leaves what the wires carry as it is, and takes what it takes.
pub(crate) proof fn lemma_plan_grown(plan: Seq<Placed<Port>>, node: Placed<Port>)
    requires
        is_plan(plan),
        same_wires(plan, node.inputs, node.inputs),
        node.outputs == ports(plan.len(), node.outputs.len()),
    ensures
        is_plan(plan.push(node)),
        forall|port: Port| #[trigger]
            is_port(plan, port) ==> is_port(plan.push(node), port) && is_linear(
                plan.push(node),
                port,
            ) == is_linear(plan, port),
        forall|port: Port| #[trigger]
            is_used(plan.push(node), port) ==> is_used(plan, port) || node.inputs.contains(port),
        forall|p: int|
            0 <= p < node.outputs.len() ==> {
                &&& is_port(plan.push(node), #[trigger] node.outputs[p])
                &&& is_linear(plan.push(node), node.outputs[p]) == (p < node.linear)
                &&& !is_used(plan.push(node), node.outputs[p])
            },
{
    let grown = plan.push(node);
    lemma_plan_realises_itself(plan);
    assert(is_fresh(plan, node.outputs)) by {
        assert forall|p: int| 0 <= p < node.outputs.len() implies !is_output(
            plan,
            #[trigger] node.outputs[p],
        ) by {
            if is_output(plan, node.outputs[p]) {
                let (i, q) = choose|i: int, q: int|
                    0 <= i < plan.len() && 0 <= q < plan[i].outputs.len() && node.outputs[p]
                        == #[trigger] plan[i].outputs[q];
                assert(at(plan, Port { node: i as nat, port: q as nat }) == plan[i].outputs[q]);
            }
        }
    }
    lemma_added(plan, plan, node, node);
    assert forall|port: Port| #[trigger] is_port(plan, port) implies is_port(grown, port)
        && is_linear(grown, port) == is_linear(plan, port) by {
        lemma_plan_linear(plan, port);
        lemma_plan_linear(grown, port);
    }
    assert forall|port: Port| #[trigger] is_used(grown, port) implies is_used(plan, port)
        || node.inputs.contains(port) by {
        let (i, k) = choose|i: int, k: int|
            0 <= i < grown.len() && 0 <= k < grown[i].inputs.len() && port
                == #[trigger] grown[i].inputs[k];
        if i < plan.len() {
            assert(plan[i].inputs[k] == port);
        } else {
            assert(node.inputs[k] == port);
        }
    }
    assert forall|p: int| 0 <= p < node.outputs.len() implies {
        &&& is_port(grown, #[trigger] node.outputs[p])
        &&& is_linear(grown, node.outputs[p]) == (p < node.linear)
        &&& !is_used(grown, node.outputs[p])
    } by {
        let port = node.outputs[p];
        assert(port == Port { node: plan.len(), port: p as nat });
        lemma_plan_linear(grown, port);
        if is_used(plan, port) {
            lemma_used_ports(plan, port);
        }
        if node.inputs.contains(port) {
            let k = node.inputs.index_of(port);
            assert(is_port(plan, node.inputs[k]));
        }
    }
}

/// A node that can take its wires keeps a plan free of copies.
proof fn lemma_copy_free(plan: Seq<Placed<Port>>, node: Placed<Port>)
    requires
        is_plan(plan),
        is_copy_free(plan),
        same_wires(plan, node.inputs, node.inputs),
        node.outputs == ports(plan.len(), node.outputs.len()),
        wirable(plan, node.inputs),
    ensures
        is_copy_free(plan.push(node)),
{
    let grown = plan.push(node);
    lemma_plan_grown(plan, node);
    assert forall|i: int, k: int, j: int, l: int|
        #![trigger grown[i].inputs[k], grown[j].inputs[l]]
        0 <= i < grown.len() && 0 <= k < grown[i].inputs.len() && 0 <= j < grown.len() && 0 <= l
            < grown[j].inputs.len() && grown[i].inputs[k] == grown[j].inputs[l] && is_linear(
            grown,
            grown[i].inputs[k],
        ) implies i == j && k == l by {
        let port = grown[i].inputs[k];
        assert(is_port(plan, port)) by {
            if i < plan.len() {
                assert(same_wires(plan, plan[i].inputs, plan[i].inputs));
            }
        }
        assert(is_linear(plan, port));
        let n = plan.len();
        if i < n && j == n {
            assert(plan[i].inputs[k] == node.inputs[l]);
            assert(is_used(plan, node.inputs[l]));
        } else if i == n && j < n {
            assert(plan[j].inputs[l] == node.inputs[k]);
            assert(is_used(plan, node.inputs[k]));
        } else if i == n && j == n {
            if k < l {
                assert(node.inputs.take(l)[k] == node.inputs[l]);
                assert(node.inputs.take(l).contains(node.inputs[l]));
                assert(is_linear(plan, node.inputs[l]));
            }
            if l < k {
                assert(node.inputs.take(k)[l] == node.inputs[k]);
                assert(node.inputs.take(k).contains(node.inputs[k]));
                assert(is_linear(plan, node.inputs[k]));
            }
        } else {
            assert(plan[i].inputs[k] == plan[j].inputs[l]);
        }
    }
}

/// The wires that inputs are connected to are those of the parameters.
pub(crate) proof fn lemma_resolved_from<W>(names: Seq<String>, params: Seq<Option<W>>, n: nat)
    ensures
        resolved_all(names, params, n) matches Ok(inputs) ==> inputs.len() == n && forall|k: int|
            0 <= k < n ==> (#[trigger] inputs[k] matches AppendWire::W(wire) ==> params.contains(
                Some(wire),
            )),
    decreases n,
{
    if n > 0 {
        lemma_resolved_from(names, params, (n - 1) as nat);
        if let Some((WireType::F64, index)) = wire(names[n - 1]@) {
            if index < params.len() && params[index as int] is Some {
                assert(params.contains(Some(params[index as int]->0)));
            }
        }
    }
}

/// An operation can take the qubits and parameters that it is given if and only if the qubits
/// are there and differ.
pub(crate) proof fn lemma_qubits(plan: Plan, gate: GateView, inputs: Seq<AppendWire<Port>>)
    requires
        is_sound(plan),
        fits(gate, inputs),
        same_inputs(plan.nodes, inputs, inputs),
        forall|k: int|
            0 <= k < inputs.len() ==> (#[trigger] inputs[k] matches AppendWire::W(port)
                ==> plan.params.contains(Some(port))),
        are_there(inputs, plan.units.len()),
    ensures
        wirable(plan.nodes, meant(inputs, plan.units)) == are_distinct_qubits(
            inputs,
            plan.units.len(),
        ),
{
    let units = plan.units;
    let ports = meant(inputs, units);
    assert forall|k: int| 0 <= k < ports.len() && inputs[k] is W implies !is_linear(
        plan.nodes,
        #[trigger] ports[k],
    ) by {
        let j = plan.params.index_of(Some(ports[k]));
        assert(plan.params[j] == Some(ports[k]));
    }
    if are_distinct_qubits(inputs, units.len()) {
        assert forall|k: int|
            0 <= k < ports.len() && is_linear(plan.nodes, #[trigger] ports[k]) implies !is_used(
            plan.nodes,
            ports[k],
        ) && !ports.take(k).contains(ports[k]) by {
            assert(inputs[k] is I);
            assert(ports[k] == units[inputs[k]->I_0 as int]);
            if ports.take(k).contains(ports[k]) {
                let j = ports.take(k).index_of(ports[k]);
                assert(ports[j] == ports[k]);
                assert(inputs[j] is I);
                assert(ports[j] == units[inputs[j]->I_0 as int]);
                assert(inputs[j] != inputs[k]);
            }
        }
    }
    if wirable(plan.nodes, ports) {
        assert forall|p: int, q: int|
            #![trigger inputs[p], inputs[q]]
            0 <= p < q < inputs.len() && inputs[p] is I implies inputs[p] != inputs[q] by {
            if inputs[p] == inputs[q] {
                assert(ports[q] == units[inputs[q]->I_0 as int]);
                assert(is_linear(plan.nodes, ports[q]));
                assert(ports.take(q)[p] == ports[q]);
                assert(ports.take(q).contains(ports[q]));
            }
        }
    }
}

/// That input is the given qubit.
pub open spec fn is_qubit<W>(input: AppendWire<W>, k: int) -> bool {
    input matches AppendWire::I(index) && index == k
}

/// Which wire each qubit is on after an operation.
pub(crate) proof fn lemma_unit_after<W>(
    inputs: Seq<AppendWire<W>>,
    units: Seq<W>,
    outputs: Seq<W>,
    k: int,
) -> (p: Option<int>)
    requires
        0 <= k < units.len(),
        are_there(inputs, units.len()),
    ensures
        units_after(inputs, units, outputs).len() == units.len(),
        match p {
            Some(p) => 0 <= p < inputs.len() && is_qubit(inputs[p], k) && units_after(
                inputs,
                units,
                outputs,
            )[k] == outputs[p],
            None => units_after(inputs, units, outputs)[k] == units[k] && forall|p: int|
                0 <= p < inputs.len() ==> !is_qubit(#[trigger] inputs[p], k),
        },
    decreases inputs.len(),
{
    if inputs.len() == 0 {
        None
    } else {
        let before = inputs.drop_last();
        let n = inputs.len() - 1;
        assert forall|p: int| 0 <= p < before.len() implies (#[trigger] before[p] matches
            AppendWire::I(index) ==> index < units.len()) by {
            assert(before[p] == inputs[p]);
        }
        let found = lemma_unit_after(before, units, outputs, k);
        assert(inputs[n] == inputs.last());
        if is_qubit(inputs.last(), k) {
            Some(n)
        } else if let Some(p) = found {
            assert(before[p] == inputs[p]);
            Some(p)
        } else {
            assert forall|p: int| 0 <= p < inputs.len() implies !is_qubit(
                #[trigger] inputs[p],
                k,
            ) by {
                if p < n {
                    assert(before[p] == inputs[p]);
                }
            }
            None
        }
    }
}

/// The outputs that are left of an operation come after those of the qubits.
pub(crate) proof fn lemma_free_from<W>(
    gate: GateView,
    inputs: Seq<AppendWire<W>>,
    outputs: Seq<W>,
    n: nat,
    k: int,
) -> (p: int)
    requires
        fits(gate, inputs),
        n <= outputs.len(),
        0 <= k < free_outputs(inputs, outputs, n).len(),
    ensures
        gate.qubits <= p < n,
        free_outputs(inputs, outputs, n)[k] == outputs[p],
    decreases n,
{
    let before = free_outputs(inputs, outputs, (n - 1) as nat);
    if k < before.len() {
        lemma_free_from(gate, inputs, outputs, (n - 1) as nat, k)
    } else {
        if n - 1 < inputs.len() {
            assert(inputs[n - 1] is I <==> n - 1 < gate.qubits);
        }
        n - 1
    }
}

/// Parameters get no other wires than those that are left.
proof fn lemma_recorded_from<W>(
    params: Seq<Option<W>>,
    names: Seq<String>,
    i: nat,
    wires: Seq<W>,
    used: nat,
    good: spec_fn(W) -> bool,
)
    requires
        forall|k: int| 0 <= k < params.len() ==> (#[trigger] params[k] matches Some(w) ==> good(w)),
        forall|k: int| 0 <= k < wires.len() ==> good(#[trigger] wires[k]),
    ensures
        recorded(params, names, i, wires, used) matches Ok(after) ==> forall|k: int|
            0 <= k < after.len() ==> (#[trigger] after[k] matches Some(w) ==> good(w)),
    decreases names.len() - i,
{
    if i < names.len() {
        match wire(names[i as int]@) {
            Some((WireType::Qubit, _)) => {
                lemma_recorded_from(params, names, i + 1, wires, used, good);
            },
            Some((WireType::F64, index)) => {
                if used < wires.len() && index < usize::MAX {
                    let next = with_param(params, index, wires[used as int]);
                    assert forall|k: int| 0 <= k < next.len() implies (#[trigger] next[k] matches
                        Some(w) ==> good(w)) by {
                        if k < params.len() {
                            assert(params[k] matches Some(w) ==> good(w));
                        }
                        assert(good(wires[used as int]));
                    }
                    lemma_recorded_from(next, names, i + 1, wires, used + 1, good);
                }
            },
            None => {},
        }
    }
}

/// Parameters that get wires of their own stay on wires of their own.
proof fn lemma_recorded_distinct<W>(
    params: Seq<Option<W>>,
    names: Seq<String>,
    i: nat,
    wires: Seq<W>,
    used: nat,
)
    requires
        are_distinct_params(params),
        wires.no_duplicates(),
        forall|k: int, j: int|
            #![trigger params[k], wires[j]]
            0 <= k < params.len() && used <= j < wires.len() ==> params[k] != Some(wires[j]),
    ensures
        recorded(params, names, i, wires, used) matches Ok(after) ==> are_distinct_params(after),
    decreases names.len() - i,
{
    if i < names.len() {
        match wire(names[i as int]@) {
            Some((WireType::Qubit, _)) => {
                lemma_recorded_distinct(params, names, i + 1, wires, used);
            },
            Some((WireType::F64, index)) => {
                if used < wires.len() && index < usize::MAX {
                    let next = with_param(params, index, wires[used as int]);
                    assert forall|k: int| 0 <= k < next.len() implies {
                        ||| #[trigger] next[k] == Some(wires[used as int]) && k == index
                        ||| next[k] is None
                        ||| k < params.len() && next[k] == params[k] && k != index
                    } by {}
                    assert forall|j: int, k: int|
                        #![trigger next[j], next[k]]
                        0 <= j < k < next.len() && next[j] is Some implies next[j] != next[k] by {
                        if j < params.len() {
                            assert(params[j] != Some(wires[used as int]));
                        }
                        if k < params.len() {
                            assert(params[k] != Some(wires[used as int]));
                        }
                    }
                    assert forall|k: int, j: int|
                        #![trigger next[k], wires[j]]
                        0 <= k < next.len() && used + 1 <= j < wires.len() implies next[k] != Some(
                        wires[j],
                    ) by {
                        if k < params.len() {
                            assert(params[k] != Some(wires[j]));
                        }
                    }
                    lemma_recorded_distinct(next, names, i + 1, wires, used + 1);
                }
            },
            None => {},
        }
    }
}

/// The outputs that are left of an operation differ.
proof fn lemma_free_distinct<W>(inputs: Seq<AppendWire<W>>, outputs: Seq<W>, n: nat)
    requires
        outputs.no_duplicates(),
        n <= outputs.len(),
    ensures
        free_outputs(inputs, outputs, n).no_duplicates(),
        forall|k: int|
            0 <= k < free_outputs(inputs, outputs, n).len() ==> exists|p: int|
                0 <= p < n && #[trigger] outputs[p] == #[trigger] free_outputs(
                    inputs,
                    outputs,
                    n,
                )[k],
    decreases n,
{
    if n > 0 {
        lemma_free_distinct(inputs, outputs, (n - 1) as nat);
        let before = free_outputs(inputs, outputs, (n - 1) as nat);
        let after = free_outputs(inputs, outputs, n);
        assert forall|k: int| 0 <= k < after.len() implies exists|p: int|
            0 <= p < n && #[trigger] outputs[p] == #[trigger] after[k] by {
            if k < before.len() {
                assert(before[k] == after[k]);
            } else {
                assert(outputs[n - 1] == after[k]);
            }
        }
        if after.len() > before.len() {
            assert forall|k: int, l: int| 0 <= k < l < after.len() implies after[k] != after[l] by {
                assert(before[k] == after[k]);
                if l < before.len() {
                    assert(before[l] == after[l]);
                }
            }
        }
    }
}

/// An operation keeps a plan sound.
pub(crate) proof fn lemma_op_planned(plan: Plan, op: RepCircOp)
    requires
        is_sound(plan),
        op_planned(plan, op) is Ok,
    ensures
        is_sound(op_planned(plan, op)->Ok_0),
        op_planned(plan, op)->Ok_0.units.len() == plan.units.len(),
{
    let gate = gate_view(leaf_op(op.opstr@)->0);
    lemma_resolved(plan.nodes, op.inputs@, plan.params, plan.params, op.inputs@.len());
    lemma_resolved_from(op.inputs@, plan.params, op.inputs@.len());
    let inputs = resolved_all(op.inputs@, plan.params, op.inputs@.len())->Ok_0;
    let outputs = ports(plan.nodes.len(), gate.outputs());
    let node = Placed {
        kind: NodeKind::Gate(gate),
        inputs: meant(inputs, plan.units),
        outputs,
        linear: gate.qubits,
    };
    lemma_meant(plan.nodes, inputs, inputs, plan.units, plan.units);
    lemma_qubits(plan, gate, inputs);
    lemma_plan_grown(plan.nodes, node);
    lemma_copy_free(plan.nodes, node);
    let grown = plan.nodes.push(node);
    let next = op_planned(plan, op)->Ok_0;
    lemma_grown(plan.nodes, node, plan.units, plan.units, plan.params, plan.params);
    lemma_plan_realises_itself(grown);
    assert(same_wires(grown, outputs, outputs)) by {
        assert forall|p: int| 0 <= p < outputs.len() implies is_port(grown, #[trigger] outputs[p])
            && outputs[p] == at(grown, outputs[p]) by {
            assert(is_port(grown, node.outputs[p]));
        }
    }
    lemma_units_after(grown, inputs, inputs, plan.units, plan.units, outputs, outputs);
    lemma_free_outputs(grown, inputs, inputs, outputs, outputs, gate.outputs());
    let free = free_outputs(inputs, outputs, gate.outputs());
    lemma_recorded(grown, plan.params, plan.params, op.outputs@, 0, free, free, 0);
    lemma_units_stay(plan, gate, inputs);
    lemma_params_stay(plan, gate, inputs, op.outputs@);
}

/// After an operation each qubit is on a wire of its own that nothing has taken.
proof fn lemma_units_stay(plan: Plan, gate: GateView, inputs: Seq<AppendWire<Port>>)
    requires
        is_sound(plan),
        fits(gate, inputs),
        same_inputs(plan.nodes, inputs, inputs),
        forall|k: int|
            0 <= k < inputs.len() ==> (#[trigger] inputs[k] matches AppendWire::W(port)
                ==> plan.params.contains(Some(port))),
        are_distinct_qubits(inputs, plan.units.len()),
    ensures
        ({
            let outputs = ports(plan.nodes.len(), gate.outputs());
            let units = units_after(inputs, plan.units, outputs);
            let grown = plan.nodes.push(
                Placed {
                    kind: NodeKind::Gate(gate),
                    inputs: meant(inputs, plan.units),
                    outputs,
                    linear: gate.qubits,
                },
            );
            &&& units.no_duplicates()
            &&& forall|k: int|
                0 <= k < units.len() ==> is_linear(grown, #[trigger] units[k]) && !is_used(
                    grown,
                    units[k],
                )
        }),
{
    let outputs = ports(plan.nodes.len(), gate.outputs());
    let units = units_after(inputs, plan.units, outputs);
    let node = Placed {
        kind: NodeKind::Gate(gate),
        inputs: meant(inputs, plan.units),
        outputs,
        linear: gate.qubits,
    };
    let grown = plan.nodes.push(node);
    lemma_meant(plan.nodes, inputs, inputs, plan.units, plan.units);
    lemma_plan_grown(plan.nodes, node);
    if plan.units.len() > 0 {
        let _ = lemma_unit_after(inputs, plan.units, outputs, 0);
    } else {
        lemma_no_units(inputs, plan.units, outputs);
    }
    assert forall|k: int| 0 <= k < units.len() implies is_linear(grown, #[trigger] units[k])
        && !is_used(grown, units[k]) by {
        match lemma_unit_after(inputs, plan.units, outputs, k) {
            Some(p) => {
                assert(inputs[p] is I);
                assert(units[k] == node.outputs[p]);
            },
            None => {
                assert(units[k] == plan.units[k]);
                assert(is_port(plan.nodes, plan.units[k]));
                if node.inputs.contains(units[k]) {
                    let p = node.inputs.index_of(units[k]);
                    match inputs[p] {
                        AppendWire::I(index) => {
                            assert(node.inputs[p] == plan.units[index as int]);
                            assert(index == k);
                        },
                        AppendWire::W(port) => {
                            let j = plan.params.index_of(Some(port));
                            assert(plan.params[j] == Some(port));
                        },
                    }
                }
            },
        }
    }
    assert forall|k: int, l: int| 0 <= k < l < units.len() implies units[k] != units[l] by {
        match (
            lemma_unit_after(inputs, plan.units, outputs, k),
            lemma_unit_after(inputs, plan.units, outputs, l),
        ) {
            (Some(p), Some(q)) => {
                assert(inputs[p] is I && inputs[q] is I);
                assert(units[k] == outputs[p] && units[l] == outputs[q]);
            },
            (Some(p), None) => {
                assert(inputs[p] is I);
                assert(is_port(plan.nodes, plan.units[l]));
                assert(units[k] == outputs[p] && units[l] == plan.units[l]);
            },
            (None, Some(q)) => {
                assert(inputs[q] is I);
                assert(is_port(plan.nodes, plan.units[k]));
                assert(units[l] == outputs[q] && units[k] == plan.units[k]);
            },
            (None, None) => {
                assert(units[k] == plan.units[k] && units[l] == plan.units[l]);
            },
        }
    }
}

/// Where there are no qubits, there are none after an operation.
proof fn lemma_no_units<W>(inputs: Seq<AppendWire<W>>, units: Seq<W>, outputs: Seq<W>)
    requires
        units.len() == 0,
        are_there(inputs, 0),
    ensures
        units_after(inputs, units, outputs).len() == 0,
    decreases inputs.len(),
{
    if inputs.len() > 0 {
        let before = inputs.drop_last();
        assert forall|p: int| 0 <= p < before.len() implies (#[trigger] before[p] matches
            AppendWire::I(index) ==> index < 0) by {
            assert(before[p] == inputs[p]);
        }
        assert(inputs[inputs.len() - 1] is W);
        lemma_no_units(inputs.drop_last(), units, outputs);
    }
}

/// After an operation each parameter is on a wire of its own that carries no qubit.
proof fn lemma_params_stay(
    plan: Plan,
    gate: GateView,
    inputs: Seq<AppendWire<Port>>,
    names: Seq<String>,
)
    requires
        is_sound(plan),
        fits(gate, inputs),
        same_wires(plan.nodes, meant(inputs, plan.units), meant(inputs, plan.units)),
    ensures
        ({
            let outputs = ports(plan.nodes.len(), gate.outputs());
            let grown = plan.nodes.push(
                Placed {
                    kind: NodeKind::Gate(gate),
                    inputs: meant(inputs, plan.units),
                    outputs,
                    linear: gate.qubits,
                },
            );
            let free = free_outputs(inputs, outputs, gate.outputs());
            recorded(plan.params, names, 0, free, 0) matches Ok(params) ==> {
                &&& are_distinct_params(params)
                &&& forall|k: int|
                    0 <= k < params.len() ==> (#[trigger] params[k] matches Some(port)
                        ==> !is_linear(grown, port))
            }
        }),
{
    let outputs = ports(plan.nodes.len(), gate.outputs());
    let node = Placed {
        kind: NodeKind::Gate(gate),
        inputs: meant(inputs, plan.units),
        outputs,
        linear: gate.qubits,
    };
    let grown = plan.nodes.push(node);
    let free = free_outputs(inputs, outputs, gate.outputs());
    let good = |port: Port| !is_linear(grown, port);
    lemma_plan_grown(plan.nodes, node);
    assert forall|k: int| 0 <= k < plan.params.len() implies (#[trigger] plan.params[k] matches Some(
        port,
    ) ==> good(port)) by {
        if let Some(port) = plan.params[k] {
            assert(is_port(plan.nodes, port));
        }
    }
    assert forall|k: int| 0 <= k < free.len() implies good(#[trigger] free[k]) by {
        let p = lemma_free_from(gate, inputs, outputs, gate.outputs(), k);
        assert(free[k] == node.outputs[p]);
    }
    lemma_recorded_from(plan.params, names, 0, free, 0, good);
    lemma_free_distinct(inputs, outputs, gate.outputs());
    assert forall|k: int, j: int|
        #![trigger plan.params[k], free[j]]
        0 <= k < plan.params.len() && 0 <= j < free.len() implies plan.params[k] != Some(
        free[j],
    ) by {
        let p = lemma_free_from(gate, inputs, outputs, gate.outputs(), j);
        assert(free[j] == node.outputs[p]);
        if let Some(port) = plan.params[k] {
            assert(is_port(plan.nodes, port));
        }
    }
    lemma_recorded_distinct(plan.params, names, 0, free, 0);
}

/// A plan is sound before the first operation.
pub(crate) proof fn lemma_plan_start(n_qb: nat, n_params: nat)
    ensures
        is_sound(plan_start(n_qb, n_params)),
{
    let plan = plan_start(n_qb, n_params);
    assert forall|k: int| 0 <= k < plan.units.len() implies is_linear(
        plan.nodes,
        #[trigger] plan.units[k],
    ) && !is_used(plan.nodes, plan.units[k]) by {
        lemma_plan_linear(plan.nodes, plan.units[k]);
    }
    assert forall|k: int| 0 <= k < plan.params.len() implies (#[trigger] plan.params[k] matches Some(
        port,
    ) ==> !is_linear(plan.nodes, port)) by {
        lemma_plan_linear(plan.nodes, plan.params[k]->0);
    }
}

/// The end of a circuit can take the qubits.
pub(crate) proof fn lemma_units_wirable(plan: Plan)
    requires
        is_sound(plan),
    ensures
        wirable(plan.nodes, plan.units),
{
    assert forall|k: int|
        0 <= k < plan.units.len() && is_linear(plan.nodes, #[trigger] plan.units[k]) implies !is_used(
        plan.nodes,
        plan.units[k],
    ) && !plan.units.take(k).contains(plan.units[k]) by {
        if plan.units.take(k).contains(plan.units[k]) {
            let j = plan.units.take(k).index_of(plan.units[k]);
            assert(plan.units[j] == plan.units[k]);
        }
    }
}

/// Items that correspond occur equally often.
pub(crate) proof fn lemma_same_count<A, B>(a: Seq<A>, x: A, b: Seq<B>, y: B)
    requires
        a.len() == b.len(),
        forall|i: int| 0 <= i < a.len() ==> (#[trigger] a[i] == x) == (b[i] == y),
    ensures
        count(a, x) == count(b, y),
    decreases a.len(),
{
    if a.len() > 0 {
        let n = a.len() - 1;
        assert forall|i: int| 0 <= i < n implies (#[trigger] a.drop_last()[i] == x) == (
        b.drop_last()[i] == y) by {
            assert((a[i] == x) == (b[i] == y));
        }
        lemma_same_count(a.drop_last(), x, b.drop_last(), y);
        assert((a[n] == x) == (b[n] == y));
    }
}

/// No item occurs more often among the first ones than among all.
pub(crate) proof fn lemma_count_before<A>(a: Seq<A>, x: A, n: int)
    requires
        0 <= n <= a.len(),
    ensures
        count(a.take(n), x) <= count(a, x),
    decreases a.len(),
{
    if n < a.len() {
        lemma_count_before(a.drop_last(), x, n);
        assert(a.drop_last().take(n) =~= a.take(n));
    } else {
        assert(a.take(n) =~= a);
    }
}

/// What does not occur occurs no times.
proof fn lemma_count_none<A>(a: Seq<A>, x: A)
    requires
        !a.contains(x),
    ensures
        count(a, x) == 0,
    decreases a.len(),
{
    if a.len() > 0 {
        assert forall|i: int| 0 <= i < a.len() - 1 implies a.drop_last()[i] != x by {
            assert(a[i] != x);
        }
        assert(a[a.len() - 1] != x);
        lemma_count_none(a.drop_last(), x);
    }
}

/// A wire is taken as often as was planned.
proof fn lemma_uses<W>(nodes: Seq<Placed<W>>, plan: Seq<Placed<Port>>, port: Port, n: nat)
    requires
        realises(nodes, plan),
        is_port(nodes, port),
        n <= plan.len(),
    ensures
        uses(nodes, at(nodes, port), n) == uses(plan, port, n),
    decreases n,
{
    if n > 0 {
        lemma_uses(nodes, plan, port, (n - 1) as nat);
        assert(node_realises(nodes, nodes[n - 1], plan[n - 1]));
        let wires = nodes[n - 1].inputs;
        let ports = plan[n - 1].inputs;
        assert forall|k: int| 0 <= k < wires.len() implies (#[trigger] wires[k] == at(nodes, port))
            == (ports[k] == port) by {
            let other = ports[k];
            assert(is_port(nodes, other));
            if at(nodes, other) == at(nodes, port) {
                assert(nodes[other.node as int].outputs[other.port as int]
                    == nodes[port.node as int].outputs[port.port as int]);
            }
        }
        lemma_same_count(wires, at(nodes, port), ports, port);
    }
}

/// What the first nodes take does not depend on those that follow.
pub(crate) proof fn lemma_uses_before<W>(nodes: Seq<Placed<W>>, node: Placed<W>, wire: W, n: nat)
    requires
        n <= nodes.len(),
    ensures
        uses(nodes.push(node), wire, n) == uses(nodes, wire, n),
    decreases n,
{
    if n > 0 {
        lemma_uses_before(nodes, node, wire, (n - 1) as nat);
        assert(nodes.push(node)[n - 1] == nodes[n - 1]);
    }
}

/// A wire that nothing takes is taken no times.
pub(crate) proof fn lemma_unused<W>(nodes: Seq<Placed<W>>, wire: W, n: nat)
    requires
        n <= nodes.len(),
        !is_used(nodes, wire),
    ensures
        uses(nodes, wire, n) == 0,
    decreases n,
{
    if n > 0 {
        lemma_unused(nodes, wire, (n - 1) as nat);
        let inputs = nodes[n - 1].inputs;
        if inputs.contains(wire) {
            let k = inputs.index_of(wire);
            assert(nodes[n - 1].inputs[k] == wire);
        }
        lemma_count_none(inputs, wire);
    }
}

/// The same inputs name the same wires.
proof fn lemma_same_inputs<W>(
    nodes: Seq<Placed<W>>,
    inputs: Seq<AppendWire<W>>,
    planned: Seq<AppendWire<Port>>,
    p: int,
    i: int,
)
    requires
        distinct_outputs(nodes),
        same_inputs(nodes, inputs, planned),
        0 <= p < inputs.len(),
        0 <= i < inputs.len(),
        inputs[p] is W,
    ensures
        (inputs[i] == inputs[p]) == (planned[i] == planned[p]),
{
    let port = planned[p]->W_0;
    assert(planned[p] is W);
    assert(inputs[i] is W == planned[i] is W);
    if inputs[i] is W {
        let other = planned[i]->W_0;
        if at(nodes, other) == at(nodes, port) {
            assert(nodes[other.node as int].outputs[other.port as int]
                == nodes[port.node as int].outputs[port.port as int]);
        }
    }
}

/// Inputs take as many ports as was planned.
proof fn lemma_input_ports<W>(
    nodes: Seq<Placed<W>>,
    plan: Seq<Placed<Port>>,
    inputs: Seq<AppendWire<W>>,
    planned: Seq<AppendWire<Port>>,
    k: nat,
)
    requires
        realises(nodes, plan),
        same_inputs(nodes, inputs, planned),
        k <= inputs.len(),
    ensures
        input_ports(nodes, inputs, k) == input_ports(plan, planned, k),
    decreases k,
{
    if k > 0 {
        let p = k - 1;
        lemma_input_ports(nodes, plan, inputs, planned, p as nat);
        assert(inputs[p] is W == planned[p] is W);
        if inputs[p] is W {
            lemma_uses(nodes, plan, planned[p]->W_0, plan.len());
            assert forall|i: int| 0 <= i < p implies (#[trigger] inputs.take(p)[i] == inputs[p])
                == (planned.take(p)[i] == planned[p]) by {
                lemma_same_inputs(nodes, inputs, planned, p, i);
            }
            lemma_same_count(inputs.take(p), inputs[p], planned.take(p), planned[p]);
        }
    }
}

/// What a node takes needs as many ports as was planned.
proof fn lemma_link_ports<W>(nodes: Seq<Placed<W>>, plan: Seq<Placed<Port>>, i: int, k: nat)
    requires
        realises(nodes, plan),
        0 <= i < plan.len(),
        k <= plan[i].inputs.len(),
    ensures
        link_ports(nodes, i, k) == link_ports(plan, i, k),
    decreases k,
{
    if k > 0 {
        let p = k - 1;
        lemma_link_ports(nodes, plan, i, p as nat);
        assert(node_realises(nodes, nodes[i], plan[i]));
        let wires = nodes[i].inputs;
        let ports = plan[i].inputs;
        assert(is_port(nodes, ports[p]));
        lemma_uses(nodes, plan, ports[p], i as nat);
        assert forall|q: int| 0 <= q < p implies (#[trigger] wires.take(p)[q] == wires[p]) == (
        ports.take(p)[q] == ports[p]) by {
            let port = ports[p];
            let other = ports[q];
            assert(is_port(nodes, other));
            if at(nodes, other) == at(nodes, port) {
                assert(nodes[other.node as int].outputs[other.port as int]
                    == nodes[port.node as int].outputs[port.port as int]);
            }
        }
        lemma_same_count(wires.take(p), wires[p], ports.take(p), ports[p]);
    }
}

/// A graph has as many ports as was planned.
proof fn lemma_graph_ports<W>(nodes: Seq<Placed<W>>, plan: Seq<Placed<Port>>, n: nat)
    requires
        realises(nodes, plan),
        n <= plan.len(),
    ensures
        graph_ports(nodes, n) == graph_ports(plan, n),
    decreases n,
{
    if n > 0 {
        lemma_graph_ports(nodes, plan, (n - 1) as nat);
        assert(node_realises(nodes, nodes[n - 1], plan[n - 1]));
        lemma_link_ports(nodes, plan, n - 1, plan[n - 1].inputs.len());
    }
}

/// What the first nodes need does not depend on those that follow.
proof fn lemma_ports_before<W>(nodes: Seq<Placed<W>>, node: Placed<W>, n: nat)
    requires
        n <= nodes.len(),
    ensures
        graph_ports(nodes.push(node), n) == graph_ports(nodes, n),
    decreases n,
{
    if n > 0 {
        lemma_ports_before(nodes, node, (n - 1) as nat);
        assert(nodes.push(node)[n - 1] == nodes[n - 1]);
        lemma_links_before(nodes, node, n - 1, nodes[n - 1].inputs.len());
    }
}

/// What a node takes needs as many ports whatever follows.
proof fn lemma_links_before<W>(nodes: Seq<Placed<W>>, node: Placed<W>, i: int, k: nat)
    requires
        0 <= i < nodes.len(),
    ensures
        link_ports(nodes.push(node), i, k) == link_ports(nodes, i, k),
    decreases k,
{
    if k > 0 {
        lemma_links_before(nodes, node, i, (k - 1) as nat);
        assert(nodes.push(node)[i] == nodes[i]);
        lemma_uses_before(nodes, node, nodes[i].inputs[k - 1], i as nat);
    }
}

/// An operation adds to the ports of a graph what was counted for it.
pub(crate) proof fn lemma_ports_after(plan: Plan, gate: GateView, inputs: Seq<AppendWire<Port>>)
    requires
        is_sound(plan),
        fits(gate, inputs),
        are_distinct_qubits(inputs, plan.units.len()),
        forall|k: int|
            0 <= k < inputs.len() ==> (#[trigger] inputs[k] matches AppendWire::W(port)
                ==> plan.params.contains(Some(port))),
    ensures
        ({
            let grown = plan.nodes.push(
                Placed {
                    kind: NodeKind::Gate(gate),
                    inputs: meant(inputs, plan.units),
                    outputs: ports(plan.nodes.len(), gate.outputs()),
                    linear: gate.qubits,
                },
            );
            graph_ports(grown, grown.len()) == graph_ports(plan.nodes, plan.nodes.len())
                + op_ports(plan.nodes, gate, inputs)
        }),
{
    let node = Placed {
        kind: NodeKind::Gate(gate),
        inputs: meant(inputs, plan.units),
        outputs: ports(plan.nodes.len(), gate.outputs()),
        linear: gate.qubits,
    };
    lemma_ports_before(plan.nodes, node, plan.nodes.len());
    lemma_new_links(plan, node, inputs, inputs.len());
}

/// The wires that a new operation takes need the ports that were counted for its inputs.
proof fn lemma_new_links(
    plan: Plan,
    node: Placed<Port>,
    inputs: Seq<AppendWire<Port>>,
    k: nat,
)
    requires
        is_sound(plan),
        node.inputs == meant(inputs, plan.units),
        are_distinct_qubits(inputs, plan.units.len()),
        forall|k: int|
            0 <= k < inputs.len() ==> (#[trigger] inputs[k] matches AppendWire::W(port)
                ==> plan.params.contains(Some(port))),
        k <= inputs.len(),
    ensures
        link_ports(plan.nodes.push(node), plan.nodes.len() as int, k) == input_ports(
            plan.nodes,
            inputs,
            k,
        ),
    decreases k,
{
    if k > 0 {
        let p = k - 1;
        let wires = node.inputs;
        let n = plan.nodes.len();
        lemma_new_links(plan, node, inputs, p as nat);
        assert(plan.nodes.push(node)[n as int] == node);
        lemma_uses_before(plan.nodes, node, wires[p], n);
        assert forall|q: int| 0 <= q < p implies (#[trigger] wires.take(p)[q] == wires[p]) == (
        inputs.take(p)[q] == inputs[p]) by {
            lemma_meant_alike(plan, inputs, q, p);
        }
        match inputs[p] {
            AppendWire::I(index) => {
                assert(wires[p] == plan.units[index as int]);
                lemma_unused(plan.nodes, wires[p], n);
                assert forall|q: int| 0 <= q < p implies wires.take(p)[q] != wires[p] by {
                    lemma_meant_alike(plan, inputs, q, p);
                    assert(inputs[q] != inputs[p]);
                }
                lemma_count_none(wires.take(p), wires[p]);
            },
            AppendWire::W(port) => {
                lemma_same_count(wires.take(p), wires[p], inputs.take(p), inputs[p]);
            },
        }
    }
}

/// Inputs mean the same wire only if they are the same.
proof fn lemma_meant_alike(plan: Plan, inputs: Seq<AppendWire<Port>>, q: int, p: int)
    requires
        is_sound(plan),
        are_there(inputs, plan.units.len()),
        forall|k: int|
            0 <= k < inputs.len() ==> (#[trigger] inputs[k] matches AppendWire::W(port)
                ==> plan.params.contains(Some(port))),
        0 <= q < inputs.len(),
        0 <= p < inputs.len(),
    ensures
        (meant(inputs, plan.units)[q] == meant(inputs, plan.units)[p]) == (inputs[q] == inputs[p]),
{
    match (inputs[q], inputs[p]) {
        (AppendWire::I(i), AppendWire::I(j)) => {
            if plan.units[i as int] == plan.units[j as int] {
                assert(i == j);
            }
        },
        (AppendWire::I(i), AppendWire::W(port)) | (AppendWire::W(port), AppendWire::I(i)) => {
            let j = plan.params.index_of(Some(port));
            assert(plan.params[j] == Some(port));
            assert(is_linear(plan.nodes, plan.units[i as int]));
        },
        _ => {},
    }
}

/// There is room for an operation where there was in the plan.
pub(crate) proof fn lemma_room<W>(
    nodes: Seq<Placed<W>>,
    plan: Seq<Placed<Port>>,
    gate: GateView,
    inputs: Seq<AppendWire<W>>,
    planned: Seq<AppendWire<Port>>,
)
    requires
        realises(nodes, plan),
        same_inputs(nodes, inputs, planned),
        has_room(plan, gate, planned),
    ensures
        has_room(nodes, gate, inputs),
{
    lemma_graph_ports(nodes, plan, plan.len());
    lemma_input_ports(nodes, plan, inputs, planned, inputs.len());
    assert forall|p: int| 0 <= p < inputs.len() implies (#[trigger] inputs[p] matches AppendWire::W(
        wire,
    ) ==> uses(nodes, wire, nodes.len()) + count(inputs, inputs[p]) <= MAX_USES) by {
        if inputs[p] is W {
            assert(planned[p] is W);
            lemma_uses(nodes, plan, planned[p]->W_0, plan.len());
            assert forall|i: int| 0 <= i < inputs.len() implies (#[trigger] inputs[i] == inputs[p])
                == (planned[i] == planned[p]) by {
                lemma_same_inputs(nodes, inputs, planned, p, i);
            }
            lemma_same_count(inputs, inputs[p], planned, planned[p]);
        }
    }
}

/// All operations keep a plan sound, and each one adds its node.
pub(crate) proof fn lemma_ops_planned(n_qb: nat, n_params: nat, ops: Seq<RepCircOp>, n: nat)
    requires
        ops_planned(plan_start(n_qb, n_params), ops, n) is Ok,
    ensures
        ({
            let plan = ops_planned(plan_start(n_qb, n_params), ops, n)->Ok_0;
            &&& is_sound(plan)
            &&& plan.units.len() == n_qb
            &&& plan.nodes.len() == n + 1
            &&& plan.nodes[0] == plan_start(n_qb, n_params).nodes[0]
            &&& forall|i: int|
                0 <= i < n ==> {
                    &&& leaf_op((#[trigger] ops[i]).opstr@) is Some
                    &&& plan.nodes[i + 1].kind == NodeKind::Gate(
                        gate_view(leaf_op(ops[i].opstr@)->0),
                    )
                    &&& plan.nodes[i + 1].inputs.len() == ops[i].inputs@.len()
                }
        }),
    decreases n,
{
    let start = plan_start(n_qb, n_params);
    lemma_plan_start(n_qb, n_params);
    if n > 0 {
        lemma_ops_planned(n_qb, n_params, ops, (n - 1) as nat);
        let plan = ops_planned(start, ops, (n - 1) as nat)->Ok_0;
        lemma_op_planned(plan, ops[n - 1]);
        lemma_resolved(
            plan.nodes,
            ops[n - 1].inputs@,
            plan.params,
            plan.params,
            ops[n - 1].inputs@.len(),
        );
        let next = ops_planned(start, ops, n)->Ok_0;
        assert(next.nodes.drop_last() =~= plan.nodes);
        assert forall|i: int| 0 <= i < n implies {
            &&& leaf_op((#[trigger] ops[i]).opstr@) is Some
            &&& next.nodes[i + 1].kind == NodeKind::Gate(gate_view(leaf_op(ops[i].opstr@)->0))
            &&& next.nodes[i + 1].inputs.len() == ops[i].inputs@.len()
        } by {
            if i < n - 1 {
                assert(next.nodes[i + 1] == plan.nodes[i + 1]);
            }
        }
    }
}

/// The inputs of an operation take at most six ports each.
proof fn lemma_few_input_ports<W>(nodes: Seq<Placed<W>>, inputs: Seq<AppendWire<W>>, k: nat)
    ensures
        input_ports(nodes, inputs, k) <= 6 * k,
    decreases k,
{
    if k > 0 {
        lemma_few_input_ports(nodes, inputs, (k - 1) as nat);
    }
}

/// The ports of a graph after so many operations.
proof fn lemma_ops_ports(n_qb: nat, n_params: nat, ops: Seq<RepCircOp>, n: nat)
    requires
        ops_planned(plan_start(n_qb, n_params), ops, n) is Ok,
    ensures
        ({
            let nodes = ops_planned(plan_start(n_qb, n_params), ops, n)->Ok_0.nodes;
            graph_ports(nodes, nodes.len()) <= 6 * (n_qb + n_params) + 7 + 18 * n
        }),
    decreases n,
{
    let start = plan_start(n_qb, n_params);
    if n > 0 {
        let plan = ops_planned(start, ops, (n - 1) as nat)->Ok_0;
        let op = ops[n - 1];
        lemma_ops_ports(n_qb, n_params, ops, (n - 1) as nat);
        lemma_ops_planned(n_qb, n_params, ops, (n - 1) as nat);
        lemma_resolved_from(op.inputs@, plan.params, op.inputs@.len());
        let inputs = resolved_all(op.inputs@, plan.params, op.inputs@.len())->Ok_0;
        lemma_ports_after(plan, gate_view(leaf_op(op.opstr@)->0), inputs);
        lemma_few_input_ports(plan.nodes, inputs, inputs.len());
    } else {
        assert(graph_ports(start.nodes, 0) == 0);
        assert(start.nodes[0].kind is Input);
    }
}

/// The ports of a graph never run out within a hundred million operations: there is room for
/// one more wherever no parameter is used too often.
pub proof fn ports_last_for_many_operations(
    n_qb: nat,
    n_params: nat,
    ops: Seq<RepCircOp>,
    n: nat,
    leaf: LeafOp,
    inputs: Seq<AppendWire<Port>>,
)
    requires
        n_qb + n_params <= MAX_INPUTS,
        n < 100_000_000,
        ops_planned(plan_start(n_qb, n_params), ops, n) is Ok,
        fits(gate_view(leaf), inputs),
    ensures
        ({
            let nodes = ops_planned(plan_start(n_qb, n_params), ops, n)->Ok_0.nodes;
            has_room(nodes, gate_view(leaf), inputs) <==> may_take(nodes, inputs)
        }),
{
    let nodes = ops_planned(plan_start(n_qb, n_params), ops, n)->Ok_0.nodes;
    lemma_ops_ports(n_qb, n_params, ops, n);
    lemma_few_input_ports(nodes, inputs, inputs.len());
}

/// The graph of a circuit has one node for each operation, in order, between the one for the
/// inputs and the one for the outputs, and gives out as many qubits as it takes.
pub proof fn each_operation_is_one_node(rep: RepCircData)
    requires
        planned(rep) is Ok,
    ensures
        ({
            let nodes = planned(rep)->Ok_0;
            let ops = rep.circ.0@;
            &&& nodes.len() == ops.len() + 2
            &&& nodes[0].kind is Input
            &&& nodes[0].outputs.len() == rep.meta.n_qb + rep.meta.n_input_param
            &&& forall|i: int|
                0 <= i < ops.len() ==> {
                    &&& leaf_op((#[trigger] ops[i]).opstr@) is Some
                    &&& nodes[i + 1].kind == NodeKind::Gate(
                        gate_view(leaf_op(ops[i].opstr@)->0),
                    )
                    &&& nodes[i + 1].inputs.len() == ops[i].inputs@.len()
                }
            &&& nodes.last().kind is Output
            &&& nodes.last().inputs.len() == rep.meta.n_qb
        }),
{
    lemma_ops_planned(
        rep.meta.n_qb as nat,
        rep.meta.n_input_param as nat,
        rep.circ.0@,
        rep.circ.0@.len(),
    );
}

/// No wire that carries a qubit is taken by two inputs anywhere in the graph of a circuit.
pub proof fn qubits_are_never_copied(rep: RepCircData)
    requires
        planned(rep) is Ok,
    ensures
        is_copy_free(planned(rep)->Ok_0),
{
    let n_qb = rep.meta.n_qb as nat;
    let n_params = rep.meta.n_input_param as nat;
    let ops = rep.circ.0@;
    lemma_ops_planned(n_qb, n_params, ops, ops.len());
    let plan = ops_planned(plan_start(n_qb, n_params), ops, ops.len())->Ok_0;
    assert(ports(plan.nodes.len(), 0) =~= Seq::<Port>::empty());
    lemma_units_wirable(plan);
    lemma_copy_free(
        plan.nodes,
        output_node(plan.units),
    );
}

/// One more node leaves the others well typed.
proof fn lemma_still_typed(plan: Seq<Placed<Port>>, node: Placed<Port>)
    requires
        is_plan(plan),
        same_wires(plan, node.inputs, node.inputs),
        node.outputs == ports(plan.len(), node.outputs.len()),
        is_well_typed(plan, node),
        forall|i: int| 0 <= i < plan.len() ==> is_well_typed(plan, #[trigger] plan[i]),
    ensures
        forall|i: int|
            0 <= i < plan.len() + 1 ==> is_well_typed(
                plan.push(node),
                #[trigger] plan.push(node)[i],
            ),
{
    let grown = plan.push(node);
    lemma_plan_grown(plan, node);
    assert forall|i: int| 0 <= i < grown.len() implies is_well_typed(grown, #[trigger] grown[i]) by {
        let inputs = grown[i].inputs;
        if i < plan.len() {
            assert(is_well_typed(plan, plan[i]));
            assert(same_wires(plan, plan[i].inputs, plan[i].inputs));
        }
        assert forall|p: int| 0 <= p < inputs.len() implies is_linear(grown, #[trigger] inputs[p])
            == is_linear(plan, inputs[p]) by {
            assert(is_port(plan, inputs[p]));
        }
    }
}

/// All operations are well typed.
pub(crate) proof fn lemma_ops_typed(n_qb: nat, n_params: nat, ops: Seq<RepCircOp>, n: nat)
    requires
        ops_planned(plan_start(n_qb, n_params), ops, n) is Ok,
    ensures
        ({
            let nodes = ops_planned(plan_start(n_qb, n_params), ops, n)->Ok_0.nodes;
            forall|i: int| 0 <= i < nodes.len() ==> is_well_typed(nodes, #[trigger] nodes[i])
        }),
    decreases n,
{
    let start = plan_start(n_qb, n_params);
    if n > 0 {
        let plan = ops_planned(start, ops, (n - 1) as nat)->Ok_0;
        let op = ops[n - 1];
        lemma_ops_typed(n_qb, n_params, ops, (n - 1) as nat);
        lemma_ops_planned(n_qb, n_params, ops, (n - 1) as nat);
        lemma_resolved(plan.nodes, op.inputs@, plan.params, plan.params, op.inputs@.len());
        lemma_resolved_from(op.inputs@, plan.params, op.inputs@.len());
        let inputs = resolved_all(op.inputs@, plan.params, op.inputs@.len())->Ok_0;
        let gate = gate_view(leaf_op(op.opstr@)->0);
        let node = Placed {
            kind: NodeKind::Gate(gate),
            inputs: meant(inputs, plan.units),
            outputs: ports(plan.nodes.len(), gate.outputs()),
            linear: gate.qubits,
        };
        lemma_meant(plan.nodes, inputs, inputs, plan.units, plan.units);
        assert forall|p: int| 0 <= p < node.inputs.len() implies (is_linear(
            plan.nodes,
            #[trigger] node.inputs[p],
        ) <==> p < gate.qubits) by {
            match inputs[p] {
                AppendWire::I(index) => {
                    assert(node.inputs[p] == plan.units[index as int]);
                },
                AppendWire::W(port) => {
                    let j = plan.params.index_of(Some(port));
                    assert(plan.params[j] == Some(port));
                },
            }
        }
        lemma_still_typed(plan.nodes, node);
    }
}

/// Every operation of a circuit gets all the qubits and parameters that it takes, each on a
/// wire that carries it, and only qubits come out of the circuit.
pub proof fn operations_get_what_they_take(rep: RepCircData)
    requires
        planned(rep) is Ok,
    ensures
        forall|i: int|
            0 <= i < planned(rep)->Ok_0.len() ==> is_well_typed(
                planned(rep)->Ok_0,
                #[trigger] planned(rep)->Ok_0[i],
            ),
{
    let n_qb = rep.meta.n_qb as nat;
    let n_params = rep.meta.n_input_param as nat;
    let ops = rep.circ.0@;
    lemma_ops_planned(n_qb, n_params, ops, ops.len());
    lemma_ops_typed(n_qb, n_params, ops, ops.len());
    let plan = ops_planned(plan_start(n_qb, n_params), ops, ops.len())->Ok_0;
    assert(ports(plan.nodes.len(), 0) =~= Seq::<Port>::empty());
    lemma_still_typed(
        plan.nodes,
        output_node(plan.units),
    );
}

/// Every wire that carries a qubit is taken, or the qubit is still on it.
spec fn are_kept(plan: Plan) -> bool {
    forall|port: Port| #[trigger]
        is_linear(plan.nodes, port) ==> is_used(plan.nodes, port) || plan.units.contains(port)
}

/// An operation takes the qubits from the wires that they were on, and they come out of it.
proof fn lemma_op_kept(plan: Plan, op: RepCircOp)
    requires
        is_sound(plan),
        are_kept(plan),
        op_planned(plan, op) is Ok,
    ensures
        are_kept(op_planned(plan, op)->Ok_0),
{
    let gate = gate_view(leaf_op(op.opstr@)->0);
    lemma_resolved(plan.nodes, op.inputs@, plan.params, plan.params, op.inputs@.len());
    let inputs = resolved_all(op.inputs@, plan.params, op.inputs@.len())->Ok_0;
    let outputs = ports(plan.nodes.len(), gate.outputs());
    let node = Placed {
        kind: NodeKind::Gate(gate),
        inputs: meant(inputs, plan.units),
        outputs,
        linear: gate.qubits,
    };
    lemma_meant(plan.nodes, inputs, inputs, plan.units, plan.units);
    lemma_plan_grown(plan.nodes, node);
    let grown = plan.nodes.push(node);
    let next = op_planned(plan, op)->Ok_0;
    assert forall|port: Port| #[trigger] is_linear(grown, port) implies is_used(grown, port)
        || next.units.contains(port) by {
        lemma_plan_realises_itself(grown);
        let (i, q) = choose|i: int, q: int|
            0 <= i < grown.len() && 0 <= q < grown[i].outputs.len() && q < grown[i].linear && port
                == #[trigger] grown[i].outputs[q];
        assert(at(grown, Port { node: i as nat, port: q as nat }) == grown[i].outputs[q]);
        if i < plan.nodes.len() {
            assert(is_port(plan.nodes, port));
            if is_used(plan.nodes, port) {
                lemma_still_used(plan.nodes, node, port);
            } else {
                let k = plan.units.index_of(port);
                match lemma_unit_after(inputs, plan.units, outputs, k) {
                    Some(p) => {
                        assert(grown[grown.len() - 1].inputs[p] == port);
                    },
                    None => {
                        assert(next.units[k] == port);
                    },
                }
            }
        } else {
            assert(inputs[q] is I);
            let k = inputs[q]->I_0 as int;
            match lemma_unit_after(inputs, plan.units, outputs, k) {
                Some(p) => {
                    assert(inputs[p] == inputs[q]);
                    assert(next.units[k] == port);
                },
                None => {
                    assert(is_qubit(inputs[q], k));
                },
            }
        }
    }
}

/// A wire that is taken is taken after one more node.
proof fn lemma_still_used<W>(nodes: Seq<Placed<W>>, node: Placed<W>, wire: W)
    requires
        is_used(nodes, wire),
    ensures
        is_used(nodes.push(node), wire),
{
    let (i, k) = choose|i: int, k: int|
        0 <= i < nodes.len() && 0 <= k < nodes[i].inputs.len() && wire
            == #[trigger] nodes[i].inputs[k];
    assert(nodes.push(node)[i].inputs[k] == wire);
}

/// All operations keep the qubits.
proof fn lemma_ops_kept(n_qb: nat, n_params: nat, ops: Seq<RepCircOp>, n: nat)
    requires
        ops_planned(plan_start(n_qb, n_params), ops, n) is Ok,
    ensures
        are_kept(ops_planned(plan_start(n_qb, n_params), ops, n)->Ok_0),
    decreases n,
{
    let start = plan_start(n_qb, n_params);
    if n > 0 {
        lemma_ops_kept(n_qb, n_params, ops, (n - 1) as nat);
        lemma_ops_planned(n_qb, n_params, ops, (n - 1) as nat);
        lemma_op_kept(ops_planned(start, ops, (n - 1) as nat)->Ok_0, ops[n - 1]);
    } else {
        assert forall|port: Port| #[trigger] is_linear(start.nodes, port) implies is_used(
            start.nodes,
            port,
        ) || start.units.contains(port) by {
            let (i, q) = choose|i: int, q: int|
                0 <= i < start.nodes.len() && 0 <= q < start.nodes[i].outputs.len() && q
                    < start.nodes[i].linear && port == #[trigger] start.nodes[i].outputs[q];
            assert(start.units[q] == port);
        }
    }
}

/// No qubit is lost: every wire of the graph of a circuit that carries one is taken.
pub proof fn qubits_are_never_lost(rep: RepCircData)
    requires
        planned(rep) is Ok,
    ensures
        forall|port: Port| #[trigger]
            is_linear(planned(rep)->Ok_0, port) ==> is_used(planned(rep)->Ok_0, port),
{
    let n_qb = rep.meta.n_qb as nat;
    let n_params = rep.meta.n_input_param as nat;
    let ops = rep.circ.0@;
    lemma_ops_planned(n_qb, n_params, ops, ops.len());
    lemma_ops_kept(n_qb, n_params, ops, ops.len());
    let plan = ops_planned(plan_start(n_qb, n_params), ops, ops.len())->Ok_0;
    let node = output_node(plan.units);
    let nodes = plan.nodes.push(node);
    assert forall|port: Port| #[trigger] is_linear(nodes, port) implies is_used(nodes, port) by {
        let (i, q) = choose|i: int, q: int|
            0 <= i < nodes.len() && 0 <= q < nodes[i].outputs.len() && q < nodes[i].linear && port
                == #[trigger] nodes[i].outputs[q];
        assert(plan.nodes[i].outputs[q] == port);
        assert(is_linear(plan.nodes, port));
        if is_used(plan.nodes, port) {
            lemma_still_used(plan.nodes, node, port);
        } else {
            let k = plan.units.index_of(port);
            assert(nodes[nodes.len() - 1].inputs[k] == port);
        }
    }
}

/// The graph of a circuit obeys the rules.
pub proof fn planned_graphs_are_regular(rep: RepCircData)
    requires
        planned(rep) is Ok,
    ensures
        is_regular(planned(rep)->Ok_0),
{
    each_operation_is_one_node(rep);
    qubits_are_never_copied(rep);
    qubits_are_never_lost(rep);
    operations_get_what_they_take(rep);
    lemma_ops_planned(
        rep.meta.n_qb as nat,
        rep.meta.n_input_param as nat,
        rep.circ.0@,
        rep.circ.0@.len(),
    );
}

/// A graph obeys the rules where its plan does.
proof fn lemma_regular<W>(nodes: Seq<Placed<W>>, plan: Seq<Placed<Port>>)
    requires
        realises(nodes, plan),
        is_plan(plan),
        is_regular(plan),
        plan.len() > 0,
    ensures
        is_regular(nodes),
{
    assert forall|i: int| 0 <= i < nodes.len() implies is_well_typed(nodes, #[trigger] nodes[i]) by {
        assert(node_realises(nodes, nodes[i], plan[i]));
        assert(is_well_typed(plan, plan[i]));
        let inputs = nodes[i].inputs;
        assert forall|p: int| 0 <= p < inputs.len() implies is_linear(nodes, #[trigger] inputs[p])
            == is_linear(plan, plan[i].inputs[p]) by {
            assert(is_port(nodes, plan[i].inputs[p]));
            lemma_linear(nodes, plan, plan[i].inputs[p]);
        }
    }
    assert forall|i: int, k: int, j: int, l: int|
        #![trigger nodes[i].inputs[k], nodes[j].inputs[l]]
        0 <= i < nodes.len() && 0 <= k < nodes[i].inputs.len() && 0 <= j < nodes.len() && 0 <= l
            < nodes[j].inputs.len() && nodes[i].inputs[k] == nodes[j].inputs[l] && is_linear(
            nodes,
            nodes[i].inputs[k],
        ) implies i == j && k == l by {
        assert(node_realises(nodes, nodes[i], plan[i]));
        assert(node_realises(nodes, nodes[j], plan[j]));
        let port = plan[i].inputs[k];
        let other = plan[j].inputs[l];
        assert(is_port(nodes, port) && is_port(nodes, other));
        assert(nodes[port.node as int].outputs[port.port as int]
            == nodes[other.node as int].outputs[other.port as int]);
        lemma_linear(nodes, plan, port);
    }
    assert forall|wire: W| #[trigger] is_linear(nodes, wire) implies is_used(nodes, wire) by {
        let (i, q) = choose|i: int, q: int|
            0 <= i < nodes.len() && 0 <= q < nodes[i].outputs.len() && q < nodes[i].linear && wire
                == #[trigger] nodes[i].outputs[q];
        let port = Port { node: i as nat, port: q as nat };
        assert(at(nodes, port) == wire);
        lemma_linear(nodes, plan, port);
        lemma_used(nodes, plan, port);
    }
    assert(node_realises(nodes, nodes[0], plan[0]));
    assert(node_realises(nodes, nodes[nodes.len() - 1], plan[plan.len() - 1]));
}

/// Every graph of a circuit obeys the rules, whatever its wires are.
pub proof fn graphs_of_circuits_are_regular<W>(nodes: Seq<Placed<W>>, rep: RepCircData)
    requires
        planned(rep) is Ok,
        realises(nodes, planned(rep)->Ok_0),
    ensures
        is_regular(nodes),
{
    let n_qb = rep.meta.n_qb as nat;
    let n_params = rep.meta.n_input_param as nat;
    let ops = rep.circ.0@;
    lemma_ops_planned(n_qb, n_params, ops, ops.len());
    let plan = ops_planned(plan_start(n_qb, n_params), ops, ops.len())->Ok_0;
    assert(ports(plan.nodes.len(), 0) =~= Seq::<Port>::empty());
    lemma_plan_grown(plan.nodes, output_node(plan.units));
    planned_graphs_are_regular(rep);
    lemma_regular(nodes, planned(rep)->Ok_0);
}

} // verus!
