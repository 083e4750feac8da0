//! The graph of a circuit, as the `hugr` crate builds it, resolves it and validates it.

use hugr::builder::{BuildError, Container, DFGBuilder, Dataflow};
use hugr::extension::prelude::{qb_t, PRELUDE};
use hugr::extension::{Extension, ExtensionId, ExtensionRegistry, Version};
use hugr::ops::OpaqueOp;
use hugr::std_extensions::arithmetic::float_types::{float64_type, EXTENSION};
use hugr::types::Signature;
use hugr::{CircuitUnit, Hugr, HugrView, Node, Wire};
use vstd::prelude::*;

use crate::qtz_circuit::{AppendWire, GateOp, GateView};

verus! {

/// What a node of a graph does.
pub enum NodeKind {
    /// It hands out the inputs of the graph.
    Input,
    /// It is an operation.
    Gate(GateView),
    /// It takes the outputs of the graph.
    Output,
}

/// A node of a graph: what it does, the wires that go in and out, and how many of those that
/// come out carry qubits. These come first.
#[verifier::ext_equal]
pub struct Placed<W> {
    pub kind: NodeKind,
    pub inputs: Seq<W>,
    pub outputs: Seq<W>,
    pub linear: nat,
}

/// How many inputs a graph may have: the ports of a node are counted in sixteen bits.
pub const MAX_INPUTS: usize = 65533;

/// How many inputs may take the same wire: so are the connections of a port.
pub const MAX_USES: usize = 65535;

/// How many ports a graph may have: they are counted in thirty-one bits.
pub const MAX_PORTS: usize = 0x7fff_ffff;

/// A node gives out that wire, and it carries a qubit.
pub open spec fn is_linear<W>(nodes: Seq<Placed<W>>, wire: W) -> bool {
    exists|i: int, p: int|
        0 <= i < nodes.len() && 0 <= p < nodes[i].outputs.len() && p < nodes[i].linear && wire
            == #[trigger] nodes[i].outputs[p]
}

/// A node gives out that wire.
pub open spec fn is_output<W>(nodes: Seq<Placed<W>>, wire: W) -> bool {
    exists|i: int, p: int|
        0 <= i < nodes.len() && 0 <= p < nodes[i].outputs.len() && wire
            == #[trigger] nodes[i].outputs[p]
}

/// A node takes that wire.
pub open spec fn is_used<W>(nodes: Seq<Placed<W>>, wire: W) -> bool {
    exists|i: int, k: int|
        0 <= i < nodes.len() && 0 <= k < nodes[i].inputs.len() && wire
            == #[trigger] nodes[i].inputs[k]
}

/// No wire that carries a qubit is taken twice.
pub open spec fn is_copy_free<W>(nodes: Seq<Placed<W>>) -> bool {
    forall|i: int, k: int, j: int, l: int|
        #![trigger nodes[i].inputs[k], nodes[j].inputs[l]]
        0 <= i < nodes.len() && 0 <= k < nodes[i].inputs.len() && 0 <= j < nodes.len() && 0 <= l
            < nodes[j].inputs.len() && nodes[i].inputs[k] == nodes[j].inputs[l] && is_linear(
            nodes,
            nodes[i].inputs[k],
        ) ==> i == j && k == l
}

/// The node takes as many wires as it should, and each of them carries what it should.
pub open spec fn is_well_typed<W>(nodes: Seq<Placed<W>>, node: Placed<W>) -> bool {
    match node.kind {
        NodeKind::Input => node.inputs.len() == 0,
        NodeKind::Gate(gate) => {
            &&& node.inputs.len() == gate.inputs()
            &&& node.outputs.len() == gate.outputs()
            &&& forall|p: int|
                0 <= p < node.inputs.len() ==> (is_linear(nodes, #[trigger] node.inputs[p]) <==> p
                    < gate.qubits)
        },
        NodeKind::Output => forall|p: int|
            0 <= p < node.inputs.len() ==> is_linear(nodes, #[trigger] node.inputs[p]),
    }
}

/// A graph obeys the rules: each node takes what it should, every wire that carries a qubit is
/// taken exactly once, and as many qubits come out as go in.
pub open spec fn is_regular<W>(nodes: Seq<Placed<W>>) -> bool {
    &&& forall|i: int| 0 <= i < nodes.len() ==> is_well_typed(nodes, #[trigger] nodes[i])
    &&& is_copy_free(nodes)
    &&& forall|wire: W| #[trigger] is_linear(nodes, wire) ==> is_used(nodes, wire)
    &&& nodes.last().inputs.len() == nodes[0].linear
}

/// A new node can take those wires: none of those that carry a qubit is taken twice.
pub open spec fn wirable<W>(nodes: Seq<Placed<W>>, inputs: Seq<W>) -> bool {
    forall|k: int|
        0 <= k < inputs.len() && is_linear(nodes, #[trigger] inputs[k]) ==> !is_used(
            nodes,
            inputs[k],
        ) && !inputs.take(k).contains(inputs[k])
}

/// Those wires differ from each other and from all that the nodes give out.
pub open spec fn is_fresh<W>(nodes: Seq<Placed<W>>, wires: Seq<W>) -> bool {
    &&& wires.no_duplicates()
    &&& forall|p: int| 0 <= p < wires.len() ==> !is_output(nodes, #[trigger] wires[p])
}

/// The wires that are meant, where `units` are those of the qubits.
pub open spec fn meant<W>(inputs: Seq<AppendWire<W>>, units: Seq<W>) -> Seq<W> {
    inputs.map_values(
        |input: AppendWire<W>|
            match input {
                AppendWire::I(index) => units[index as int],
                AppendWire::W(wire) => wire,
            },
    )
}

/// Every qubit that is meant is there.
pub open spec fn are_there<W>(inputs: Seq<AppendWire<W>>, units: nat) -> bool {
    forall|p: int|
        0 <= p < inputs.len() ==> (#[trigger] inputs[p] matches AppendWire::I(index) ==> index
            < units)
}

/// The operation takes those inputs: as many as it has, and the qubits first.
pub open spec fn fits<W>(gate: GateView, inputs: Seq<AppendWire<W>>) -> bool {
    &&& inputs.len() == gate.inputs()
    &&& forall|p: int| 0 <= p < inputs.len() ==> (#[trigger] inputs[p] is I <==> p < gate.qubits)
}

/// How often `x` occurs.
pub open spec fn count<T>(items: Seq<T>, x: T) -> nat
    decreases items.len(),
{
    if items.len() == 0 {
        0
    } else {
        count(items.drop_last(), x) + if items.last() == x {
            1nat
        } else {
            0nat
        }
    }
}

/// How many inputs of the first `n` nodes take that wire.
pub open spec fn uses<W>(nodes: Seq<Placed<W>>, wire: W, n: nat) -> nat
    decreases n,
{
    if n == 0 {
        0
    } else {
        uses(nodes, wire, (n - 1) as nat) + count(nodes[n - 1].inputs, wire)
    }
}

/// The most ports that are set aside for one more use of a wire that was taken so many times.
/// For the first use there are none; for the second one, the wire gets a node of its own with
/// three. Later on that node moves to larger places, each time with a power of two of ports,
/// and the places that it has left are not counted on.
pub open spec fn use_ports(before: nat) -> nat {
    if before == 0 {
        0
    } else if before == 1 {
        3
    } else {
        6
    }
}

/// The most ports for the first `k` wires that a node takes.
pub open spec fn link_ports<W>(nodes: Seq<Placed<W>>, node: int, k: nat) -> nat
    decreases k,
{
    if k == 0 {
        0
    } else {
        let inputs = nodes[node].inputs;
        let wire = inputs[k - 1];
        link_ports(nodes, node, (k - 1) as nat) + use_ports(
            uses(nodes, wire, node as nat) + count(inputs.take(k - 1), wire),
        )
    }
}

/// The most ports of a graph whose region has those nodes first. A node has one for each wire
/// and two for the order of nodes, beside those for the wires that it takes. What is around
/// them has as many as the region, the main function and their inputs and outputs need.
pub open spec fn graph_ports<W>(nodes: Seq<Placed<W>>, n: nat) -> nat
    decreases n,
{
    if n == 0 {
        0
    } else {
        let node = nodes[n - 1];
        graph_ports(nodes, (n - 1) as nat) + match node.kind {
            NodeKind::Input => 3 * node.outputs.len() + 3 * node.linear + 7,
            _ => node.inputs.len() + node.outputs.len() + 2 + link_ports(
                nodes,
                n - 1,
                node.inputs.len(),
            ),
        }
    }
}

/// The most ports for the first `k` inputs of a new node. A qubit is on a wire that nothing has
/// taken.
pub open spec fn input_ports<W>(
    nodes: Seq<Placed<W>>,
    inputs: Seq<AppendWire<W>>,
    k: nat,
) -> nat
    decreases k,
{
    if k == 0 {
        0
    } else {
        input_ports(nodes, inputs, (k - 1) as nat) + match inputs[k - 1] {
            AppendWire::I(_) => 0,
            AppendWire::W(wire) => use_ports(
                uses(nodes, wire, nodes.len()) + count(inputs.take(k - 1), inputs[k - 1]),
            ),
        }
    }
}

/// The most ports for an operation with those inputs.
pub open spec fn op_ports<W>(
    nodes: Seq<Placed<W>>,
    gate: GateView,
    inputs: Seq<AppendWire<W>>,
) -> nat {
    gate.inputs() + gate.outputs() + 2 + input_ports(nodes, inputs, inputs.len())
}

/// With those inputs of a new node, no wire that they name is taken too often.
pub open spec fn may_take<W>(nodes: Seq<Placed<W>>, inputs: Seq<AppendWire<W>>) -> bool {
    forall|p: int|
        0 <= p < inputs.len() ==> (#[trigger] inputs[p] matches AppendWire::W(wire) ==> uses(
            nodes,
            wire,
            nodes.len(),
        ) + count(inputs, inputs[p]) <= MAX_USES)
}

/// There is room for an operation with those inputs: no wire is taken too often, and there are
/// ports enough.
pub open spec fn has_room<W>(
    nodes: Seq<Placed<W>>,
    gate: GateView,
    inputs: Seq<AppendWire<W>>,
) -> bool {
    &&& may_take(nodes, inputs)
    &&& graph_ports(nodes, nodes.len()) + op_ports(nodes, gate, inputs) <= MAX_PORTS
}

/// The wires of the qubits after an operation with those inputs and outputs.
pub open spec fn units_after<W>(
    inputs: Seq<AppendWire<W>>,
    units: Seq<W>,
    outputs: Seq<W>,
) -> Seq<W>
    decreases inputs.len(),
{
    if inputs.len() == 0 {
        units
    } else {
        let before = units_after(inputs.drop_last(), units, outputs);
        match inputs.last() {
            AppendWire::I(index) => before.update(index as int, outputs[inputs.len() - 1]),
            AppendWire::W(_) => before,
        }
    }
}

/// The first `n` outputs of an operation without those at which a qubit comes out again.
pub open spec fn free_outputs<W>(inputs: Seq<AppendWire<W>>, outputs: Seq<W>, n: nat) -> Seq<W>
    decreases n,
{
    if n == 0 {
        Seq::empty()
    } else {
        let before = free_outputs(inputs, outputs, (n - 1) as nat);
        if n - 1 < inputs.len() && inputs[n - 1] is I {
            before
        } else {
            before.push(outputs[n - 1])
        }
    }
}

/// `hugr::Hugr`: a graph.
#[verifier::external_type_specification]
#[verifier::external_body]
pub struct ExHugr(Hugr);

/// `hugr::Node`: a node of a graph.
#[verifier::external_type_specification]
#[verifier::external_body]
pub struct ExNode(Node);

/// `hugr::Wire`: an output of a node.
#[verifier::external_type_specification]
#[verifier::external_body]
#[verifier::reject_recursive_types(N)]
pub struct ExWire<N>(Wire<N>);

/// `hugr::builder::BuildError`: what stopped a builder.
#[verifier::external_type_specification]
#[verifier::external_body]
pub struct ExBuildError(BuildError);

/// `hugr::builder::DFGBuilder`: a graph that is being built.
#[verifier::external_type_specification]
#[verifier::external_body]
#[verifier::reject_recursive_types(T)]
pub struct ExDFGBuilder<T>(DFGBuilder<T>);

/// `hugr::Extension`: definitions of operations.
#[verifier::external_type_specification]
#[verifier::external_body]
pub struct ExExtension(Extension);

/// `hugr::extension::ExtensionRegistry`: extensions, by name and version.
#[verifier::external_type_specification]
#[verifier::external_body]
pub struct ExExtensionRegistry(ExtensionRegistry);

/// The nodes of the region that a builder builds, in the order in which they were added,
/// without the one that takes the outputs. The first one hands out the inputs.
pub uninterp spec fn dfg_nodes(dfg: DFGBuilder<Hugr>) -> Seq<Placed<Wire>>;

/// The wires that the node for the outputs of the region takes.
pub uninterp spec fn dfg_ends(dfg: DFGBuilder<Hugr>) -> Seq<Wire>;

/// There is nothing to the graph that a builder builds but one region, the main function
/// around it, which hands it its inputs and takes its outputs, and the module around that. The
/// region is to give out as many qubits as it takes, and nothing else. All values in it are
/// qubits and numbers, at each node the qubits come first, and no node takes a wire of a later
/// one. All operations have as many inputs as they take, and are opaque: known by extension,
/// version, name and types alone, with no arguments.
pub uninterp spec fn dfg_is_opaque(dfg: DFGBuilder<Hugr>) -> bool;

/// The nodes of the region at which a graph is entered, in the same order. The last one takes
/// the outputs.
pub uninterp spec fn hugr_nodes(hugr: Hugr) -> Seq<Placed<Wire>>;

/// The same of a graph as `dfg_is_opaque` of the graph that a builder builds.
pub uninterp spec fn hugr_is_opaque(hugr: Hugr) -> bool;

/// Calls `DFGBuilder::new` for a region that takes so many qubits and parameters and gives
/// out the qubits. It holds nothing yet but the nodes for its inputs and outputs. The call
/// fails on no input.
#[verifier::external_body]
pub(crate) fn dfg_new(n_qb: usize, n_params: usize) -> (res: Result<DFGBuilder<Hugr>, BuildError>)
    requires
        n_qb + n_params <= MAX_INPUTS,
    ensures
        res is Ok,
        dfg_is_opaque(res->Ok_0),
        dfg_ends(res->Ok_0).len() == 0,
        dfg_nodes(res->Ok_0).len() == 1,
        dfg_nodes(res->Ok_0)[0].kind is Input,
        dfg_nodes(res->Ok_0)[0].linear == n_qb,
        dfg_nodes(res->Ok_0)[0].inputs.len() == 0,
        dfg_nodes(res->Ok_0)[0].outputs.len() == n_qb + n_params,
        dfg_nodes(res->Ok_0)[0].outputs.no_duplicates(),
{
    let qubits = vec![qb_t(); n_qb];
    let params = vec![float64_type(); n_params];
    DFGBuilder::new(Signature::new([qubits.clone(), params].concat(), qubits))
}

/// Calls `Dataflow::input_wires`, which gives the wires that come out of the node for the
/// inputs of the region.
#[verifier::external_body]
pub(crate) fn dfg_input_wires(dfg: &DFGBuilder<Hugr>) -> (wires: Vec<Wire>)
    requires
        dfg_nodes(*dfg).len() > 0,
    ensures
        wires@ == dfg_nodes(*dfg)[0].outputs,
{
    dfg.input_wires().collect()
}

/// Calls `CircuitBuilder::append_with_outputs` on `Dataflow::as_circuit` with an
/// `OpaqueOp` that stands for the operation, and then `CircuitBuilder::finish`. It succeeds
/// if and only if every qubit that is meant is there, and no wire that carries a qubit is
/// taken twice. The operation is then the last node, with outputs of its own; the wires of
/// the qubits that went in are those at which they come out, and the other outputs are
/// returned in order. Nothing is said of the builder and of the wires of the qubits after a
/// failure. The call asks for room, since it panics where a wire is taken too often or the ports
/// of the graph run out.
#[verifier::external_body]
pub(crate) fn dfg_append(
    dfg: &mut DFGBuilder<Hugr>,
    units: Vec<Wire>,
    gate: GateOp,
    inputs: &Vec<AppendWire<Wire>>,
) -> (res: (Vec<Wire>, Result<Vec<Wire>, BuildError>))
    requires
        gate.qubits + gate.params <= 2,
        gate.qubits + gate.param_outputs <= 2,
        fits(gate@, inputs@),
        dfg_is_opaque(*old(dfg)),
        dfg_ends(*old(dfg)).len() == 0,
        dfg_nodes(*old(dfg)).len() > 0,
        has_room(dfg_nodes(*old(dfg)), gate@, inputs@),
        forall|k: int|
            0 <= k < units@.len() ==> is_linear(dfg_nodes(*old(dfg)), #[trigger] units@[k]),
        forall|k: int|
            0 <= k < inputs@.len() ==> (#[trigger] inputs@[k] matches AppendWire::W(wire)
                ==> is_output(dfg_nodes(*old(dfg)), wire)),
    ensures
        res.1 is Ok <==> are_there(inputs@, units@.len()) && wirable(
            dfg_nodes(*old(dfg)),
            meant(inputs@, units@),
        ),
        res.1 is Ok ==> dfg_is_opaque(*final(dfg)),
        res.1 is Ok ==> dfg_ends(*final(dfg)) == dfg_ends(*old(dfg)),
        res.1 is Ok ==> dfg_nodes(*final(dfg)).len() == dfg_nodes(*old(dfg)).len() + 1,
        res.1 is Ok ==> dfg_nodes(*final(dfg)).drop_last() == dfg_nodes(*old(dfg)),
        res.1 is Ok ==> dfg_nodes(*final(dfg)).last().kind == NodeKind::Gate(gate@),
        res.1 is Ok ==> dfg_nodes(*final(dfg)).last().linear == gate.qubits,
        res.1 is Ok ==> dfg_nodes(*final(dfg)).last().inputs == meant(inputs@, units@),
        res.1 is Ok ==> dfg_nodes(*final(dfg)).last().outputs.len() == gate@.outputs(),
        res.1 is Ok ==> is_fresh(dfg_nodes(*old(dfg)), dfg_nodes(*final(dfg)).last().outputs),
        res.1 is Ok ==> res.0@ == units_after(
            inputs@,
            units@,
            dfg_nodes(*final(dfg)).last().outputs,
        ),
        res.1 is Ok ==> res.1->Ok_0@ == free_outputs(
            inputs@,
            dfg_nodes(*final(dfg)).last().outputs,
            gate@.outputs(),
        ),
{
    let signature = Signature::new(
        [vec![qb_t(); gate.qubits], vec![float64_type(); gate.params]].concat(),
        [vec![qb_t(); gate.qubits], vec![float64_type(); gate.param_outputs]].concat(),
    );
    let op = OpaqueOp::new(
        ExtensionId::new_static_unchecked(gate.extension),
        Version::new(gate.version.0, gate.version.1, gate.version.2),
        gate.name, [], signature,
    );
    let mut circ = dfg.as_circuit(units);
    let res = circ.append_with_outputs(op, inputs.iter().map(|input| match *input {
        AppendWire::I(index) => CircuitUnit::Linear(index),
        AppendWire::W(wire) => CircuitUnit::Wire(wire),
    }));
    (circ.finish(), res)
}

/// Calls `Dataflow::set_outputs`, which connects the wires to the node that takes the outputs
/// of the region. It succeeds if and only if no wire that carries a qubit is taken twice.
/// Nothing is said of the builder after a failure.
#[verifier::external_body]
pub(crate) fn dfg_set_outputs(dfg: &mut DFGBuilder<Hugr>, outputs: Vec<Wire>) -> (res: Result<
    (),
    BuildError,
>)
    requires
        dfg_is_opaque(*old(dfg)),
        dfg_ends(*old(dfg)).len() == 0,
        dfg_nodes(*old(dfg)).len() > 0,
        outputs@.len() <= dfg_nodes(*old(dfg))[0].linear,
        forall|k: int|
            0 <= k < outputs@.len() ==> is_linear(dfg_nodes(*old(dfg)), #[trigger] outputs@[k]),
    ensures
        res is Ok <==> wirable(dfg_nodes(*old(dfg)), outputs@),
        res is Ok ==> dfg_is_opaque(*final(dfg)),
        res is Ok ==> dfg_nodes(*final(dfg)) == dfg_nodes(*old(dfg)),
        res is Ok ==> dfg_ends(*final(dfg)) == outputs@,
{
    dfg.set_outputs(outputs)
}

/// The node that takes the outputs of a region.
pub open spec fn output_node<W>(ends: Seq<W>) -> Placed<W> {
    Placed { kind: NodeKind::Output, inputs: ends, outputs: Seq::empty(), linear: 0 }
}

/// Takes the graph out of a builder, by `Container::hugr_mut`.
#[verifier::external_body]
pub(crate) fn dfg_hugr(dfg: DFGBuilder<Hugr>) -> (hugr: Hugr)
    requires
        dfg_is_opaque(dfg),
    ensures
        hugr_nodes(hugr) == dfg_nodes(dfg).push(output_node(dfg_ends(dfg))),
        hugr_is_opaque(hugr),
{
    let mut dfg = dfg;
    std::mem::take(dfg.hugr_mut())
}

/// The operations that an extension defines.
pub uninterp spec fn extension_gates(extension: Extension) -> Set<GateView>;

/// The name and the version of an extension.
pub uninterp spec fn extension_key(extension: Extension) -> (Seq<char>, (u64, u64, u64));

/// An extension defines nothing but operations without arguments on qubits and numbers, the
/// qubits first, and shares its definitions with no other extension.
pub uninterp spec fn extension_is_own(extension: Extension) -> bool;

/// The operations that a registry defines.
pub uninterp spec fn registry_gates(registry: ExtensionRegistry) -> Set<GateView>;

/// A registry defines qubits and numbers, and holds every extension that its definitions refer
/// to, among them that of each definition itself.
pub uninterp spec fn registry_is_closed(registry: ExtensionRegistry) -> bool;

/// Calls `Extension::new`, which makes an extension without definitions.
#[verifier::external_body]
pub(crate) fn extension_new(id: &'static str, version: (u64, u64, u64)) -> (extension: Extension)
    ensures
        (extension_key(extension) == (id@, version)),
        extension_gates(extension) == Set::<GateView>::empty(),
        extension_is_own(extension),
{
    let (major, minor, patch) = version;
    Extension::new(ExtensionId::new_static_unchecked(id), Version::new(major, minor, patch))
}

/// Calls `Extension::add_op`, which defines an operation by its name and the types of its
/// wires, unless there is one of that name already. The reference to the extension is left
/// empty for `extension_registry` to fill in.
#[verifier::external_body]
pub(crate) fn extension_add(extension: &mut Extension, gate: GateOp) -> (added: bool)
    requires
        gate.qubits <= 2 && gate.params <= 2 && gate.param_outputs <= 2,
        extension_key(*old(extension)) == (gate@.extension, gate@.version),
        extension_is_own(*old(extension)),
    ensures
        extension_key(*final(extension)) == extension_key(*old(extension)),
        extension_is_own(*final(extension)),
        added == (forall|other: GateView| #[trigger]
            extension_gates(*old(extension)).contains(other) ==> other.name != gate@.name),
        extension_gates(*final(extension)) == (if added {
            extension_gates(*old(extension)).insert(gate@)
        } else {
            extension_gates(*old(extension))
        }),
{
    let signature = Signature::new(
        [vec![qb_t(); gate.qubits], vec![float64_type(); gate.params]].concat(),
        [vec![qb_t(); gate.qubits], vec![float64_type(); gate.param_outputs]].concat(),
    );
    let no_ref = std::sync::Weak::new();
    extension.add_op(gate.name.into(), String::new(), signature, &no_ref).is_ok()
}

/// Calls `ExtensionRegistry::new_with_extension_resolution`, which makes the definitions of
/// the extension refer to it and to the extensions of qubits and numbers, and puts it into a
/// registry; and `ExtensionRegistry::register` for those two. It fails on no such extension.
#[verifier::external_body]
pub(crate) fn extension_registry(extension: Extension) -> (res: Result<ExtensionRegistry, String>)
    requires
        extension_is_own(extension),
        extension_key(extension).0 != "prelude"@,
        extension_key(extension).0 != "arithmetic.float.types"@,
    ensures
        res is Ok,
        extension_gates(extension).subset_of(registry_gates(res->Ok_0)),
        registry_is_closed(res->Ok_0),
{
    let types = ExtensionRegistry::new([PRELUDE.clone(), EXTENSION.clone()]);
    match ExtensionRegistry::new_with_extension_resolution([extension], &(&types).into()) {
        Ok(mut registry) => {
            registry.register(PRELUDE.clone());
            registry.register(EXTENSION.clone());
            Ok(registry)
        }
        Err(e) => Err(e.to_string()),
    }
}

/// The same of a graph as `hugr_is_opaque`, but no operation is opaque: each one is defined by
/// an extension, and the graph holds every extension that is referred to.
pub uninterp spec fn hugr_is_closed(hugr: Hugr) -> bool;

/// All operations of the nodes are among the given ones.
pub open spec fn are_defined<W>(nodes: Seq<Placed<W>>, gates: Set<GateView>) -> bool {
    forall|i: int|
        0 <= i < nodes.len() ==> ((#[trigger] nodes[i]).kind matches NodeKind::Gate(gate)
            ==> gates.contains(gate))
}

/// Calls `Hugr::resolve_extension_defs`, which replaces every opaque operation by the one of
/// the registry that has the same extension, version, name and types. Where the registry has
/// them all, it succeeds, and the graph holds their extensions from then on.
#[verifier::external_body]
pub(crate) fn hugr_resolve(hugr: Hugr, registry: &ExtensionRegistry) -> (res: Result<
    Hugr,
    String,
>)
    requires
        hugr_is_opaque(hugr),
        registry_is_closed(*registry),
        are_defined(hugr_nodes(hugr), registry_gates(*registry)),
    ensures
        res is Ok,
        hugr_nodes(res->Ok_0) == hugr_nodes(hugr),
        hugr_is_closed(res->Ok_0),
{
    let mut hugr = hugr;
    match hugr.resolve_extension_defs(registry) {
        Ok(()) => Ok(hugr),
        Err(e) => Err(e.to_string()),
    }
}

/// Calls `HugrView::validate`, which fails with a message where the graph breaks a rule. Of
/// such a graph the rules ask that all inputs are connected, and all outputs that carry a
/// qubit once, to what takes the same.
#[verifier::external_body]
pub(crate) fn hugr_validate(hugr: &Hugr) -> (res: Result<(), String>)
    requires
        hugr_is_closed(*hugr),
    ensures
        res is Ok <==> is_regular(hugr_nodes(*hugr)),
{
    match hugr.validate() {
        Ok(()) => Ok(()),
        Err(e) => Err(e.to_string()),
    }
}

} // verus!
