use hugr::builder::BuildError;
use hugr::extension::prelude::qb_t;
use hugr::ops::{OpTrait, OpType};
use hugr::std_extensions::arithmetic::float_types::float64_type;
use hugr::{Hugr, HugrView, Node};
use hugr_taso::ecc_set::{load_ecc_set, LoadError};
use hugr_taso::gates::Gates;
use hugr_taso::qtz_circuit::{
    gate, map_op, map_wt, record_outputs, resolve_inputs, AppendWire, LeafOp, MetaData, RepCirc,
    RepCircData, RepCircOp, WireError, WireType,
};
use hugr_taso::wiring::{build, circuit_from_rep, validated, CircuitError, RepError};

const OPS: [LeafOp; 8] = [
    LeafOp::H,
    LeafOp::RzF64,
    LeafOp::RxF64,
    LeafOp::CX,
    LeafOp::T,
    LeafOp::Tadj,
    LeafOp::X,
    LeafOp::AddF64,
];

fn op(opstr: &str, outputs: &[&str], inputs: &[&str]) -> RepCircOp {
    RepCircOp {
        opstr: opstr.to_string(),
        outputs: outputs.iter().map(|s| s.to_string()).collect(),
        inputs: inputs.iter().map(|s| s.to_string()).collect(),
    }
}

fn rep(n_qb: usize, n_input_param: usize, id: &[&str], ops: Vec<RepCircOp>) -> RepCircData {
    let meta = MetaData {
        n_qb,
        n_input_param,
        n_total_param: n_input_param,
        num_gates: ops.len() as u64,
        id: id.iter().map(|s| s.to_string()).collect(),
    };
    RepCircData { meta, circ: RepCirc(ops) }
}

/// The names of the operations of the circuit, in order, and for each of them the places of
/// the operations that its inputs come from: -1 is the input of the circuit. The outputs of
/// the circuit come last.
fn layout(hugr: &Hugr) -> Vec<(String, Vec<(i64, usize)>)> {
    let nodes: Vec<Node> = hugr.children(hugr.entrypoint()).collect();
    let place = |node: Node| match nodes.iter().position(|n| *n == node).unwrap() {
        0 => -1,
        i => i as i64 - 2,
    };
    let mut order: Vec<Node> = nodes[2..].to_vec();
    order.push(nodes[1]);
    order
        .into_iter()
        .map(|node| {
            let optype = hugr.get_optype(node);
            let name = match optype {
                OpType::ExtensionOp(op) => op.unqualified_id().to_string(),
                OpType::OpaqueOp(op) => op.unqualified_id().to_string(),
                _ => "out".to_string(),
            };
            let n = optype.dataflow_signature().map_or(0, |s| s.input_count());
            let n = if name == "out" { hugr.in_value_types(node).count() } else { n };
            let inputs = (0..n)
                .filter_map(|port| hugr.single_linked_output(node, port))
                .map(|(from, port)| (place(from), port.into()))
                .map(|(from, port): (i64, hugr::OutgoingPort)| (from, hugr::PortIndex::index(port)))
                .collect();
            (name, inputs)
        })
        .collect()
}

fn placed(name: &str, inputs: &[(i64, usize)]) -> (String, Vec<(i64, usize)>) {
    (name.to_string(), inputs.to_vec())
}

#[test]
fn operations_are_known_by_their_names() {
    let names = ["h", "rz", "rx", "cx", "t", "tdg", "x", "add"];
    for (name, op) in names.into_iter().zip(OPS) {
        assert_eq!(map_op(name), Some(op));
    }
    assert_eq!(map_op("H"), None);
    assert_eq!(map_op(""), None);
    assert_eq!(map_op("swap"), None);
}

#[test]
fn wires_are_known_by_letter_and_number() {
    assert_eq!(map_wt("Q0"), Some((WireType::Qubit, 0)));
    assert_eq!(map_wt("Q12"), Some((WireType::Qubit, 12)));
    assert_eq!(map_wt("P3"), Some((WireType::F64, 3)));
    assert_eq!(map_wt("P+3"), Some((WireType::F64, 3)));
    assert_eq!(map_wt("P007"), Some((WireType::F64, 7)));
    assert_eq!(map_wt(&format!("Q{}", usize::MAX)), Some((WireType::Qubit, usize::MAX)));
    assert_eq!(map_wt("Q18446744073709551616"), None);
    assert_eq!(map_wt("Q"), None);
    assert_eq!(map_wt(""), None);
    assert_eq!(map_wt("q0"), None);
    assert_eq!(map_wt("Q-1"), None);
    assert_eq!(map_wt("Q+"), None);
    assert_eq!(map_wt("Q1a"), None);
}

#[test]
fn inputs_are_qubits_or_parameters() {
    let params = vec![Some('a'), None];
    let names = |names: &[&str]| names.iter().map(|s| s.to_string()).collect::<Vec<String>>();
    assert_eq!(
        resolve_inputs(&names(&["Q4", "P0"]), &params),
        Ok(vec![AppendWire::I(4), AppendWire::W('a')])
    );
    assert_eq!(resolve_inputs(&names(&["P1"]), &params), Err(WireError::NoParam));
    assert_eq!(resolve_inputs(&names(&["P2"]), &params), Err(WireError::NoParam));
    assert_eq!(resolve_inputs(&names(&["R2", "P2"]), &params), Err(WireError::BadWire));
}

#[test]
fn parameters_get_the_wires_that_are_left() {
    let names = |names: &[&str]| names.iter().map(|s| s.to_string()).collect::<Vec<String>>();
    let mut params = vec![Some('a')];
    let res = record_outputs(&mut params, &names(&["Q0", "P3", "P0"]), &vec!['x', 'y']);
    assert_eq!(res, Ok(()));
    assert_eq!(params, vec![Some('y'), None, None, Some('x')]);
    let res = record_outputs(&mut params, &names(&["P1", "P2", "bad"]), &vec!['z']);
    assert_eq!(res, Ok(()));
    assert_eq!(params, vec![Some('y'), Some('z'), None, Some('x')]);
    let res = record_outputs(&mut params, &names(&["bad"]), &vec!['z']);
    assert_eq!(res, Err(WireError::BadWire));
    let last = format!("P{}", usize::MAX);
    let res = record_outputs(&mut params, &names(&[&last]), &vec!['z']);
    assert_eq!(res, Err(WireError::BadWire));
}

#[test]
fn gates_have_as_many_wires_as_they_take() {
    let shapes: Vec<(&str, usize, usize, usize)> = OPS
        .into_iter()
        .map(gate)
        .map(|g| (g.name, g.qubits, g.params, g.param_outputs))
        .collect();
    let expected = [
        ("H", 1, 0, 0),
        ("RzF64", 1, 1, 0),
        ("RxF64", 1, 1, 0),
        ("CX", 2, 0, 0),
        ("T", 1, 0, 0),
        ("Tadj", 1, 0, 0),
        ("X", 1, 0, 0),
        ("AddF64", 0, 2, 1),
    ];
    assert_eq!(shapes, expected);
    assert_eq!(gate(LeafOp::H).extension, "taso.gates");
    assert_eq!(gate(LeafOp::H).version, (0, 1, 0));
}

#[test]
fn operations_follow_the_qubits() {
    let ops = vec![
        op("h", &["Q0"], &["Q0"]),
        op("cx", &["Q0", "Q1"], &["Q0", "Q1"]),
        op("cx", &["Q1", "Q0"], &["Q1", "Q0"]),
        op("tdg", &["Q1"], &["Q1"]),
    ];
    let hugr = circuit_from_rep(&rep(2, 0, &["a"], ops), &Gates::new()).unwrap();
    assert_eq!(
        layout(&hugr),
        vec![
            placed("H", &[(-1, 0)]),
            placed("CX", &[(0, 0), (-1, 1)]),
            placed("CX", &[(1, 1), (1, 0)]),
            placed("Tadj", &[(2, 0)]),
            placed("out", &[(2, 1), (3, 0)]),
        ]
    );
}

#[test]
fn parameters_can_be_added_and_used_again() {
    let ops = vec![
        op("add", &["P2"], &["P0", "P1"]),
        op("rz", &["Q0"], &["Q0", "P2"]),
        op("rx", &["Q0"], &["Q0", "P2"]),
        op("rz", &["Q0"], &["Q0", "P1"]),
        op("add", &["P0"], &["P2", "P2"]),
        op("rx", &["Q0"], &["Q0", "P0"]),
    ];
    let hugr = circuit_from_rep(&rep(1, 2, &["a"], ops), &Gates::new()).unwrap();
    assert_eq!(
        layout(&hugr),
        vec![
            placed("AddF64", &[(-1, 1), (-1, 2)]),
            placed("RzF64", &[(-1, 0), (0, 0)]),
            placed("RxF64", &[(1, 0), (0, 0)]),
            placed("RzF64", &[(2, 0), (-1, 2)]),
            placed("AddF64", &[(0, 0), (0, 0)]),
            placed("RxF64", &[(3, 0), (4, 0)]),
            placed("out", &[(5, 0)]),
        ]
    );
}

#[test]
fn a_circuit_may_have_no_operations() {
    let hugr = circuit_from_rep(&rep(3, 1, &["a"], vec![]), &Gates::new()).unwrap();
    assert_eq!(layout(&hugr), vec![placed("out", &[(-1, 0), (-1, 1), (-1, 2)])]);
    assert!(circuit_from_rep(&rep(0, 0, &["a"], vec![]), &Gates::new()).is_ok());
}

#[test]
fn a_built_circuit_only_names_its_operations() {
    let hugr = build(&rep(1, 0, &["a"], vec![op("x", &["Q0"], &["Q0"])])).unwrap();
    assert_eq!(layout(&hugr), vec![placed("X", &[(-1, 0)]), placed("out", &[(0, 0)])]);
    assert!(hugr.validate().is_err());
}

#[test]
fn faulty_circuits_are_refused() {
    let fault = |rep: RepCircData| build(&rep).err().unwrap();
    let one = |o: RepCircOp| rep(2, 1, &["a"], vec![o]);
    assert!(matches!(fault(one(op("swap", &[], &[]))), RepError::UnknownOp));
    let bad = fault(one(op("h", &["Q0"], &["R0"])));
    assert!(matches!(bad, RepError::Wire(WireError::BadWire)));
    let none = fault(one(op("rz", &["Q0"], &["Q0", "P1"])));
    assert!(matches!(none, RepError::Wire(WireError::NoParam)));
    // Too many inputs, too few, and a qubit in place of a parameter or the other way round.
    for wrong in [
        op("h", &["Q0"], &["Q0", "Q1"]),
        op("rz", &["Q0"], &["Q0"]),
        op("add", &["P1"], &["P0", "Q0"]),
        op("rx", &["Q0"], &["P0", "Q0"]),
        op("cx", &["Q0"], &["Q0", "P0"]),
    ] {
        assert!(matches!(fault(one(wrong)), RepError::WrongInputs));
    }
    // No such qubit.
    let lost: BuildError = match fault(one(op("h", &["Q2"], &["Q2"]))) {
        RepError::Build(e) => e,
        e => panic!("{e:?}"),
    };
    assert!(lost.to_string().contains("2"));
    // The same qubit twice.
    assert!(matches!(fault(one(op("cx", &[], &["Q0", "Q0"]))), RepError::Build(_)));
    // An output of a bad name.
    let bad = fault(one(op("h", &["R0"], &["Q0"])));
    assert!(matches!(bad, RepError::Wire(WireError::BadWire)));
    assert!(matches!(fault(rep(65534, 0, &[], vec![])), RepError::TooLarge));
    assert!(matches!(fault(rep(1, 65533, &[], vec![])), RepError::TooLarge));
    assert!(matches!(fault(rep(1, usize::MAX, &[], vec![])), RepError::TooLarge));
}

#[test]
fn large_circuits_are_built() {
    assert!(build(&rep(65533, 0, &[], vec![])).is_ok());
    assert!(build(&rep(1, 65532, &[], vec![])).is_ok());
    let long = (0..20000).map(|_| op("h", &["Q0"], &["Q0"])).collect();
    assert_eq!(layout(&build(&rep(1, 0, &[], long)).unwrap()).len(), 20001);
    // All wires are taken four times, twice by each of two operations.
    let sums = (0..20000).map(|i| op("add", &[["P1", "P0"][i % 2]], &["P0", "P0"])).collect();
    assert_eq!(layout(&build(&rep(0, 1, &[], sums)).unwrap()).len(), 20001);
    let turns = (0..8000).map(|i| op("rz", &["Q0"], &["Q0", ["P0", "P1"][i % 2]])).collect();
    assert_eq!(layout(&build(&rep(1, 2, &[], turns)).unwrap()).len(), 8001);
}

#[test]
fn all_operations_are_defined() {
    let ops = vec![
        op("h", &["Q0"], &["Q0"]),
        op("rz", &["Q0"], &["Q0", "P0"]),
        op("rx", &["Q1"], &["Q1", "P0"]),
        op("cx", &["Q0", "Q1"], &["Q0", "Q1"]),
        op("t", &["Q0"], &["Q0"]),
        op("tdg", &["Q1"], &["Q1"]),
        op("x", &["Q0"], &["Q0"]),
        op("add", &["P1"], &["P0", "P0"]),
    ];
    let hugr = circuit_from_rep(&rep(2, 1, &["a"], ops), &Gates::new()).unwrap();
    assert!(hugr.validate().is_ok());
    let region: Vec<Node> = hugr.children(hugr.entrypoint()).collect();
    for (node, leaf) in region[2..].iter().zip([
        LeafOp::H,
        LeafOp::RzF64,
        LeafOp::RxF64,
        LeafOp::CX,
        LeafOp::T,
        LeafOp::Tadj,
        LeafOp::X,
        LeafOp::AddF64,
    ]) {
        let gate = gate(leaf);
        let OpType::ExtensionOp(op) = hugr.get_optype(*node) else {
            panic!("an operation is not defined");
        };
        assert_eq!(op.unqualified_id().to_string(), gate.name);
        assert_eq!(op.extension_id().to_string(), gate.extension);
        let version = op.extension_version();
        assert_eq!((version.major, version.minor, version.patch), gate.version);
        let qubits = vec![qb_t(); gate.qubits];
        let inputs = [qubits.clone(), vec![float64_type(); gate.params]].concat();
        let outputs = [qubits, vec![float64_type(); gate.param_outputs]].concat();
        assert_eq!(hugr.in_value_types(*node).map(|(_, t)| t).collect::<Vec<_>>(), inputs);
        assert_eq!(hugr.out_value_types(*node).map(|(_, t)| t).collect::<Vec<_>>(), outputs);
    }
}

#[test]
fn a_circuit_outlives_its_definitions() {
    let hugr = {
        let gates = Gates::new();
        circuit_from_rep(&rep(1, 0, &["a"], vec![op("h", &["Q0"], &["Q0"])]), &gates).unwrap()
    };
    assert!(hugr.validate().is_ok());
}

#[test]
fn every_circuit_that_can_be_made_is_valid() {
    let gates = Gates::new();
    let mut seed: usize = 1;
    let mut next = |n: usize| {
        seed = (seed * 1103515245 + 12345) % 2147483648;
        seed / 65536 % n
    };
    for _ in 0..200 {
        let (n_qb, n_params) = (next(4), 1 + next(3));
        let mut ops = Vec::new();
        for _ in 0..next(30) {
            let (q, r) = (next(4), next(4));
            let (q, r) = (format!("Q{q}"), format!("Q{r}"));
            let (a, b, c) = (format!("P{}", next(4)), format!("P{}", next(4)), format!("P{}", next(5)));
            ops.push(match next(5) {
                0 => op("h", &[&q], &[&q]),
                1 => op("rz", &[&q], &[&q, &a]),
                2 => op("cx", &[&q, &r], &[&q, &r]),
                3 => op("add", &[&c], &[&a, &b]),
                _ => op("add", &[], &[&a, &b]),
            });
        }
        // Operations that cannot be made are left out.
        let mut kept: Vec<RepCircOp> = Vec::new();
        let copy = |ops: &[RepCircOp]| -> Vec<RepCircOp> {
            ops.iter()
                .map(|o| RepCircOp {
                    opstr: o.opstr.clone(),
                    outputs: o.outputs.clone(),
                    inputs: o.inputs.clone(),
                })
                .collect()
        };
        for o in ops {
            kept.push(o);
            if build(&rep(n_qb, n_params, &[], copy(&kept))).is_err() {
                kept.pop();
            }
        }
        let n = kept.len();
        let hugr = circuit_from_rep(&rep(n_qb, n_params, &[], kept), &gates).unwrap();
        assert!(hugr.validate().is_ok());
        assert_eq!(layout(&hugr).len(), n + 1);
    }
    assert!(circuit_from_rep(&rep(500, 500, &[], vec![]), &gates).is_ok());
}

#[test]
fn a_graph_is_passed_on_if_it_is_valid() {
    let hugr = || build(&rep(1, 0, &["a"], vec![])).unwrap();
    assert!(validated(hugr(), Ok(())).is_ok());
    match validated(hugr(), Err("broken".to_string())) {
        Err(CircuitError::Invalid(message)) => assert_eq!(message, "broken"),
        _ => panic!("a broken graph was passed on"),
    }
}

#[test]
fn classes_are_loaded_under_their_identifiers() {
    let h = || op("h", &["Q0"], &["Q0"]);
    let x = || op("x", &["Q0"], &["Q0"]);
    let mut classes = vec![
        vec![rep(1, 0, &["one", "other"], vec![h()]), rep(1, 0, &["two"], vec![h(), x()])],
        vec![rep(1, 0, &["three"], vec![])],
        vec![rep(1, 0, &["one"], vec![x()])],
    ];
    let eccs = load_ecc_set(&classes, &Gates::new()).unwrap();
    assert_eq!(eccs.len(), 2);
    // The later class took the place of the first one.
    assert_eq!(eccs[0].0, "one");
    assert_eq!(eccs[0].1.len(), 1);
    assert_eq!(
        layout(&eccs[0].1[0]),
        vec![placed("X", &[(-1, 0)]), placed("out", &[(0, 0)])]
    );
    assert_eq!(eccs[1].0, "three");
    assert_eq!(layout(&eccs[1].1[0]), vec![placed("out", &[(-1, 0)])]);
    classes.truncate(1);
    let eccs = load_ecc_set(&classes, &Gates::new()).unwrap();
    assert_eq!(eccs[0].1.len(), 2);
}

#[test]
fn classes_with_different_identifiers_are_all_loaded_in_order() {
    let x = || op("x", &["Q0"], &["Q0"]);
    let classes: Vec<Vec<RepCircData>> = ["c", "a", "b"]
        .iter()
        .enumerate()
        .map(|(n, id)| vec![rep(1, 0, &[*id], (0..n).map(|_| x()).collect())])
        .collect();
    let eccs = load_ecc_set(&classes, &Gates::new()).unwrap();
    let sizes: Vec<(&str, usize)> =
        eccs.iter().map(|(id, circs)| (id.as_ref(), layout(&circs[0]).len())).collect();
    assert_eq!(sizes, vec![("c", 1), ("a", 2), ("b", 3)]);
}

#[test]
fn faulty_classes_are_refused() {
    let good = || vec![rep(1, 0, &["one"], vec![])];
    let load = |classes: Vec<Vec<RepCircData>>| load_ecc_set(&classes, &Gates::new());
    assert!(load(vec![]).unwrap().is_empty());
    assert!(matches!(load(vec![good(), vec![]]), Err(LoadError::EmptyClass)));
    assert!(matches!(load(vec![vec![rep(1, 0, &[], vec![])]]), Err(LoadError::NoId)));
    let bad = vec![rep(1, 0, &["bad"], vec![op("y", &[], &[])])];
    let res = load(vec![good(), bad, vec![]]);
    assert!(matches!(res, Err(LoadError::Circuit(CircuitError::Rep(RepError::UnknownOp)))));
}

/// Reads a circuit from a value of a representative set.
fn read_rep(value: &serde_json::Value) -> RepCircData {
    let strings = |v: &serde_json::Value| -> Vec<String> {
        v.as_array().unwrap().iter().map(|s| s.as_str().unwrap().to_string()).collect()
    };
    let number = |key: &str| value["meta"][key].as_u64().unwrap();
    let ops = value["circ"].as_array().unwrap().iter().map(|o| RepCircOp {
        opstr: o["opstr"].as_str().unwrap().to_string(),
        outputs: strings(&o["outputs"]),
        inputs: strings(&o["inputs"]),
    });
    RepCircData {
        meta: MetaData {
            n_qb: number("n_qb") as usize,
            n_input_param: number("n_input_param") as usize,
            n_total_param: number("n_total_param") as usize,
            num_gates: number("num_gates"),
            id: strings(&value["meta"]["id"]),
        },
        circ: RepCirc(ops.collect()),
    }
}

#[test]
fn test_read_rep() {
    let json = r#"[
        {"meta": {"n_qb": 2, "n_input_param": 2, "n_total_param": 3, "num_gates": 3,
                  "id": ["4f", "50"], "fingerprint": [0.25, -0.5]},
         "circ": [{"opstr": "add", "outputs": ["P2"], "inputs": ["P0", "P1"]},
                  {"opstr": "rz", "outputs": ["Q0"], "inputs": ["Q0", "P2"]},
                  {"opstr": "cx", "outputs": ["Q1", "Q0"], "inputs": ["Q1", "Q0"]},
                  {"opstr": "h", "outputs": ["Q0"], "inputs": ["Q0"]}]}
    ]"#;
    let reps: serde_json::Value = serde_json::from_str(json).unwrap();
    for value in reps.as_array().unwrap() {
        let rep = read_rep(value);
        assert_eq!(rep.meta.id[0], "4f");
        let hugr = circuit_from_rep(&rep, &Gates::new()).unwrap();
        println!("{}", hugr.mermaid_string());
        assert_eq!(
            layout(&hugr),
            vec![
                placed("AddF64", &[(-1, 2), (-1, 3)]),
                placed("RzF64", &[(-1, 0), (0, 0)]),
                placed("CX", &[(-1, 1), (1, 0)]),
                placed("H", &[(2, 1)]),
                placed("out", &[(3, 0), (2, 0)]),
            ]
        );
    }
}
