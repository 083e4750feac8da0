//! Circuits as they stand in the files of equivalence classes, and how they are wired up.

use vstd::prelude::*;

verus! {

/// An operation of a circuit: its name, and the names of the wires that go out and come in.
pub struct RepCircOp {
    pub opstr: String,
    pub outputs: Vec<String>,
    pub inputs: Vec<String>,
}

/// The operations of a circuit, in order.
pub struct RepCirc(pub Vec<RepCircOp>);

/// What a file says about a circuit besides its operations.
pub struct MetaData {
    pub n_qb: usize,
    pub n_input_param: usize,
    pub n_total_param: usize,
    pub num_gates: u64,
    pub id: Vec<String>,
}

/// A circuit of a file.
pub struct RepCircData {
    pub meta: MetaData,
    pub circ: RepCirc,
}

/// The operations that circuits are made of.
#[derive(Clone, Copy, PartialEq, Eq, Debug, Structural)]
pub enum LeafOp {
    H,
    RzF64,
    RxF64,
    CX,
    T,
    Tadj,
    X,
    AddF64,
}

/// What a wire carries.
#[derive(Clone, Copy, PartialEq, Eq, Debug, Structural)]
pub enum WireType {
    Qubit,
    F64,
}

/// The operation of the given name.
pub open spec fn leaf_op(opstr: Seq<char>) -> Option<LeafOp> {
    if opstr == "h"@ {
        Some(LeafOp::H)
    } else if opstr == "rz"@ {
        Some(LeafOp::RzF64)
    } else if opstr == "rx"@ {
        Some(LeafOp::RxF64)
    } else if opstr == "cx"@ {
        Some(LeafOp::CX)
    } else if opstr == "t"@ {
        Some(LeafOp::T)
    } else if opstr == "tdg"@ {
        Some(LeafOp::Tadj)
    } else if opstr == "x"@ {
        Some(LeafOp::X)
    } else if opstr == "add"@ {
        Some(LeafOp::AddF64)
    } else {
        None
    }
}

/// Looks up an operation by its name.
pub fn map_op(opstr: &str) -> (op: Option<LeafOp>)
    ensures
        op == leaf_op(opstr@),
        op == Some(LeafOp::H) <==> opstr@ == "h"@,
        op == Some(LeafOp::RzF64) <==> opstr@ == "rz"@,
        op == Some(LeafOp::RxF64) <==> opstr@ == "rx"@,
        op == Some(LeafOp::CX) <==> opstr@ == "cx"@,
        op == Some(LeafOp::T) <==> opstr@ == "t"@,
        op == Some(LeafOp::Tadj) <==> opstr@ == "tdg"@,
        op == Some(LeafOp::X) <==> opstr@ == "x"@,
        op == Some(LeafOp::AddF64) <==> opstr@ == "add"@,
{
    proof {
        operations_have_names_of_their_own(opstr@);
    }
    let opstr: String = opstr.to_string();
    if opstr == "h".to_string() {
        Some(LeafOp::H)
    } else if opstr == "rz".to_string() {
        Some(LeafOp::RzF64)
    } else if opstr == "rx".to_string() {
        Some(LeafOp::RxF64)
    } else if opstr == "cx".to_string() {
        Some(LeafOp::CX)
    } else if opstr == "t".to_string() {
        Some(LeafOp::T)
    } else if opstr == "tdg".to_string() {
        Some(LeafOp::Tadj)
    } else if opstr == "x".to_string() {
        Some(LeafOp::X)
    } else if opstr == "add".to_string() {
        Some(LeafOp::AddF64)
    } else {
        None
    }
}

/// Whether the character is a decimal digit.
pub open spec fn is_digit(c: char) -> bool {
    '0' <= c <= '9'
}

/// The value of a row of decimal digits.
pub open spec fn digits_value(digits: Seq<char>) -> nat
    decreases digits.len(),
{
    if digits.len() == 0 {
        0
    } else {
        digits_value(digits.drop_last()) * 10 + (digits.last() as nat - '0' as nat) as nat
    }
}

/// The digits of a number, without a plus sign before them.
pub open spec fn unsigned_part(s: Seq<char>) -> Seq<char> {
    if s.len() > 1 && s[0] == '+' {
        s.skip(1)
    } else {
        s
    }
}

/// The number that is written there, if it is one that a `usize` can hold.
pub open spec fn usize_value(s: Seq<char>) -> Option<usize> {
    let digits = unsigned_part(s);
    if digits.len() > 0 && (forall|i: int| 0 <= i < digits.len() ==> is_digit(#[trigger] digits[i]))
        && digits_value(digits) <= usize::MAX {
        Some(digits_value(digits) as usize)
    } else {
        None
    }
}

/// What the wire of the given name carries.
pub open spec fn wire_type(wirestr: Seq<char>) -> Option<WireType> {
    if wirestr.len() > 0 && wirestr[0] == 'Q' {
        Some(WireType::Qubit)
    } else if wirestr.len() > 0 && wirestr[0] == 'P' {
        Some(WireType::F64)
    } else {
        None
    }
}

/// The wire of the given name: a letter for what it carries, and its number.
pub open spec fn wire(wirestr: Seq<char>) -> Option<(WireType, usize)> {
    match (wire_type(wirestr), usize_value(wirestr.skip(1))) {
        (Some(wt), Some(index)) => Some((wt, index)),
        _ => None,
    }
}

proof fn lemma_digits_grow(digits: Seq<char>, n: int)
    requires
        0 <= n <= digits.len(),
        forall|i: int| 0 <= i < digits.len() ==> is_digit(#[trigger] digits[i]),
    ensures
        digits_value(digits.take(n)) <= digits_value(digits),
    decreases digits.len(),
{
    if n < digits.len() {
        lemma_digits_grow(digits.drop_last(), n);
        assert(digits.drop_last().take(n) =~= digits.take(n));
    } else {
        assert(digits.take(n) =~= digits);
    }
}

/// Reads a number from the characters of a text, from the given place on.
fn parse_usize(text: &str, start: usize) -> (value: Option<usize>)
    requires
        start <= text@.len(),
    ensures
        value == usize_value(text@.skip(start as int)),
{
    let len: usize = text.unicode_len();
    let ghost s = text@.skip(start as int);
    let mut first: usize = start;
    if len - start > 1 && text.get_char(start) == '+' {
        first = start + 1;
    }
    let ghost digits = text@.skip(first as int);
    assert(digits =~= unsigned_part(s)) by {
        assert(len - start > 1 ==> s[0] == text@[start as int]);
    }
    if first == len {
        return None;
    }
    let mut value: usize = 0;
    for i in first..len
        invariant
            len == text@.len(),
            first < len,
            digits == text@.skip(first as int),
            digits == unsigned_part(s),
            s == text@.skip(start as int),
            forall|j: int| 0 <= j < i - first ==> is_digit(#[trigger] digits[j]),
            value == digits_value(digits.take(i - first)),
    {
        let c: char = text.get_char(i);
        assert(digits[i - first] == c);
        if c < '0' || c > '9' {
            return None;
        }
        let digit: usize = c as usize - '0' as usize;
        assert(digits.take(i - first + 1).drop_last() =~= digits.take(i - first));
        let ghost next = digits_value(digits.take(i - first + 1));
        assert(next == value * 10 + digit);
        if value > usize::MAX / 10 || value * 10 > usize::MAX - digit {
            proof {
                if forall|j: int| 0 <= j < digits.len() ==> is_digit(#[trigger] digits[j]) {
                    lemma_digits_grow(digits, i - first + 1);
                }
            }
            return None;
        }
        value = value * 10 + digit;
    }
    assert(digits.take(len - first) =~= digits);
    Some(value)
}

/// Reads the name of a wire.
pub fn map_wt(wirestr: &str) -> (res: Option<(WireType, usize)>)
    ensures
        res == wire(wirestr@),
{
    if wirestr.unicode_len() == 0 {
        return None;
    }
    let c: char = wirestr.get_char(0);
    let wt: WireType = if c == 'Q' {
        WireType::Qubit
    } else if c == 'P' {
        WireType::F64
    } else {
        return None;
    };
    match parse_usize(wirestr, 1) {
        Some(index) => Some((wt, index)),
        None => None,
    }
}

/// What is wrong with a wire of an operation.
#[derive(Clone, Copy, PartialEq, Eq, Debug, Structural)]
pub enum WireError {
    /// Its name is none of a wire.
    BadWire,
    /// It carries a parameter that nothing has given yet.
    NoParam,
}

/// What an input of an operation is connected to.
#[derive(PartialEq, Eq, Debug)]
pub enum AppendWire<W> {
    /// The qubit of the given number, wherever it is by now.
    I(usize),
    /// The given wire.
    W(W),
}

/// What an input of the given name is connected to, where `params` are the wires that carry
/// the parameters.
pub open spec fn resolved<W>(name: Seq<char>, params: Seq<Option<W>>) -> Result<
    AppendWire<W>,
    WireError,
> {
    match wire(name) {
        Some((WireType::Qubit, index)) => Ok(AppendWire::I(index)),
        Some((WireType::F64, index)) => if index < params.len() && params[index as int] is Some {
            Ok(AppendWire::W(params[index as int]->0))
        } else {
            Err(WireError::NoParam)
        },
        None => Err(WireError::BadWire),
    }
}

/// What the first `n` inputs are connected to, or what is wrong with the first one that is
/// wrong.
pub open spec fn resolved_all<W>(names: Seq<String>, params: Seq<Option<W>>, n: nat) -> Result<
    Seq<AppendWire<W>>,
    WireError,
>
    decreases n,
{
    if n == 0 {
        Ok(Seq::empty())
    } else {
        match resolved_all(names, params, (n - 1) as nat) {
            Ok(before) => match resolved(names[n - 1]@, params) {
                Ok(last) => Ok(before.push(last)),
                Err(e) => Err(e),
            },
            Err(e) => Err(e),
        }
    }
}

/// Finds what the inputs of an operation are connected to.
pub fn resolve_inputs<W: Copy>(names: &Vec<String>, params: &Vec<Option<W>>) -> (res: Result<
    Vec<AppendWire<W>>,
    WireError,
>)
    ensures
        match resolved_all(names@, params@, names@.len()) {
            Ok(inputs) => res matches Ok(found) && found@ == inputs,
            Err(e) => res == Err::<Vec<AppendWire<W>>, WireError>(e),
        },
{
    let mut inputs: Vec<AppendWire<W>> = Vec::new();
    for i in 0..names.len()
        invariant
            resolved_all(names@, params@, i as nat) == Ok::<Seq<AppendWire<W>>, WireError>(
                inputs@,
            ),
    {
        let input: Result<AppendWire<W>, WireError> = match map_wt(names[i].as_str()) {
            Some((WireType::Qubit, index)) => Ok(AppendWire::I(index)),
            Some((WireType::F64, index)) => {
                if index < params.len() {
                    match params[index] {
                        Some(wire) => Ok(AppendWire::W(wire)),
                        None => Err(WireError::NoParam),
                    }
                } else {
                    Err(WireError::NoParam)
                }
            },
            None => Err(WireError::BadWire),
        };
        match input {
            Ok(input) => {
                inputs.push(input);
            },
            Err(e) => {
                proof {
                    lemma_first_error(names@, params@, (i + 1) as nat, names@.len(), e);
                }
                return Err(e);
            },
        }
    }
    Ok(inputs)
}

/// An error among the first inputs is the error of all of them.
proof fn lemma_first_error<W>(
    names: Seq<String>,
    params: Seq<Option<W>>,
    m: nat,
    n: nat,
    e: WireError,
)
    requires
        m <= n,
        resolved_all(names, params, m) == Err::<Seq<AppendWire<W>>, WireError>(e),
    ensures
        resolved_all(names, params, n) == Err::<Seq<AppendWire<W>>, WireError>(e),
    decreases n,
{
    if m < n {
        lemma_first_error(names, params, m, (n - 1) as nat, e);
    }
}

/// The wires of the parameters once the one of the given number has its wire.
pub open spec fn with_param<W>(params: Seq<Option<W>>, index: usize, wire: W) -> Seq<Option<W>> {
    if params.len() <= index {
        (params + Seq::new((index - params.len()) as nat, |i: int| None::<W>)).push(Some(wire))
    } else {
        params.update(index as int, Some(wire))
    }
}

/// The wires of the parameters after an operation: `names` are the names of its outputs, and
/// `wires` its outputs that are no qubits. The outputs that carry parameters get those wires
/// in order, as far as there are any. The names from `i` on are still to be looked at, and
/// `used` wires have been given away.
pub open spec fn recorded<W>(
    params: Seq<Option<W>>,
    names: Seq<String>,
    i: nat,
    wires: Seq<W>,
    used: nat,
) -> Result<Seq<Option<W>>, WireError>
    decreases names.len() - i,
{
    if i >= names.len() {
        Ok(params)
    } else {
        match wire(names[i as int]@) {
            None => Err(WireError::BadWire),
            Some((WireType::Qubit, _)) => recorded(params, names, i + 1, wires, used),
            Some((WireType::F64, index)) => if used >= wires.len() {
                Ok(params)
            } else if index == usize::MAX {
                Err(WireError::BadWire)
            } else {
                recorded(
                    with_param(params, index, wires[used as int]),
                    names,
                    i + 1,
                    wires,
                    used + 1,
                )
            },
        }
    }
}

/// Takes note of the wires that carry parameters after an operation.
pub fn record_outputs<W: Copy>(
    params: &mut Vec<Option<W>>,
    names: &Vec<String>,
    wires: &Vec<W>,
) -> (res: Result<(), WireError>)
    ensures
        match recorded(old(params)@, names@, 0, wires@, 0) {
            Ok(after) => res is Ok && final(params)@ == after,
            Err(e) => res == Err::<(), WireError>(e),
        },
{
    let mut used: usize = 0;
    for i in 0..names.len()
        invariant
            used <= wires@.len(),
            used <= i,
            recorded(old(params)@, names@, 0, wires@, 0) == recorded(
                params@,
                names@,
                i as nat,
                wires@,
                used as nat,
            ),
    {
        match map_wt(names[i].as_str()) {
            None => {
                return Err(WireError::BadWire);
            },
            Some((WireType::Qubit, _)) => {},
            Some((WireType::F64, index)) => {
                if used >= wires.len() {
                    return Ok(());
                }
                if index == usize::MAX {
                    return Err(WireError::BadWire);
                }
                set_param(params, index, wires[used]);
                used = used + 1;
            },
        }
    }
    Ok(())
}

/// Gives the parameter of that number its wire.
fn set_param<W: Copy>(params: &mut Vec<Option<W>>, index: usize, wire: W)
    requires
        index < usize::MAX,
    ensures
        final(params)@ == with_param(old(params)@, index, wire),
{
    if index < params.len() {
        params.set(index, Some(wire));
        return;
    }
    let ghost before = params@;
    let ghost mut added: nat = 0;
    while params.len() < index
        invariant
            before.len() + added <= index,
            params@ == before + Seq::new(added, |i: int| None::<W>),
        decreases index - params.len(),
    {
        params.push(None);
        proof {
            added = added + 1;
        }
        assert(params@ =~= before + Seq::new(added, |i: int| None::<W>));
    }
    params.push(Some(wire));
}

/// An operation as the graph of a circuit knows it: the extension that defines it, with its
/// version, its name, and how many wires go in and out. Qubits come first on both sides.
#[derive(Clone, Copy, PartialEq, Eq, Debug)]
pub struct GateOp {
    pub extension: &'static str,
    pub version: (u64, u64, u64),
    pub name: &'static str,
    /// The qubits that go in, and come out again.
    pub qubits: usize,
    /// The parameters that go in.
    pub params: usize,
    /// The parameters that come out.
    pub param_outputs: usize,
}

/// An operation, as contracts speak of it.
pub struct GateView {
    pub extension: Seq<char>,
    pub version: (u64, u64, u64),
    pub name: Seq<char>,
    pub qubits: nat,
    pub params: nat,
    pub param_outputs: nat,
}

impl GateView {
    /// How many wires go in.
    pub open spec fn inputs(self) -> nat {
        self.qubits + self.params
    }

    /// How many wires come out.
    pub open spec fn outputs(self) -> nat {
        self.qubits + self.param_outputs
    }
}

impl View for GateOp {
    type V = GateView;

    open spec fn view(&self) -> GateView {
        GateView {
            extension: self.extension@,
            version: self.version,
            name: self.name@,
            qubits: self.qubits as nat,
            params: self.params as nat,
            param_outputs: self.param_outputs as nat,
        }
    }
}

/// An operation of the extension of gates.
pub open spec fn gate_of(name: Seq<char>, qubits: nat, params: nat, param_outputs: nat) -> GateView {
    GateView {
        extension: "taso.gates"@,
        version: (0, 1, 0),
        name,
        qubits,
        params,
        param_outputs,
    }
}

/// What the graph of a circuit knows of an operation.
pub open spec fn gate_view(op: LeafOp) -> GateView {
    match op {
        LeafOp::H => gate_of("H"@, 1, 0, 0),
        LeafOp::RzF64 => gate_of("RzF64"@, 1, 1, 0),
        LeafOp::RxF64 => gate_of("RxF64"@, 1, 1, 0),
        LeafOp::CX => gate_of("CX"@, 2, 0, 0),
        LeafOp::T => gate_of("T"@, 1, 0, 0),
        LeafOp::Tadj => gate_of("Tadj"@, 1, 0, 0),
        LeafOp::X => gate_of("X"@, 1, 0, 0),
        LeafOp::AddF64 => gate_of("AddF64"@, 0, 2, 1),
    }
}

/// What the graph of a circuit knows of an operation.
pub fn gate(op: LeafOp) -> (gate: GateOp)
    ensures
        gate@ == gate_view(op),
        gate.extension@ == "taso.gates"@,
        gate.version == (0u64, 1u64, 0u64),
        match op {
            LeafOp::H => gate.name@ == "H"@,
            LeafOp::RzF64 => gate.name@ == "RzF64"@,
            LeafOp::RxF64 => gate.name@ == "RxF64"@,
            LeafOp::CX => gate.name@ == "CX"@,
            LeafOp::T => gate.name@ == "T"@,
            LeafOp::Tadj => gate.name@ == "Tadj"@,
            LeafOp::X => gate.name@ == "X"@,
            LeafOp::AddF64 => gate.name@ == "AddF64"@,
        },
        gate.qubits == (if op == LeafOp::CX {
            2int
        } else if op == LeafOp::AddF64 {
            0
        } else {
            1
        }),
        gate.params == (if op == LeafOp::AddF64 {
            2int
        } else if op == LeafOp::RzF64 || op == LeafOp::RxF64 {
            1
        } else {
            0
        }),
        gate.param_outputs == (if op == LeafOp::AddF64 {
            1int
        } else {
            0
        }),
{
    let (name, qubits, params, param_outputs): (&'static str, usize, usize, usize) = match op {
        LeafOp::H => ("H", 1, 0, 0),
        LeafOp::RzF64 => ("RzF64", 1, 1, 0),
        LeafOp::RxF64 => ("RxF64", 1, 1, 0),
        LeafOp::CX => ("CX", 2, 0, 0),
        LeafOp::T => ("T", 1, 0, 0),
        LeafOp::Tadj => ("Tadj", 1, 0, 0),
        LeafOp::X => ("X", 1, 0, 0),
        LeafOp::AddF64 => ("AddF64", 0, 2, 1),
    };
    GateOp {
        extension: "taso.gates",
        version: (0, 1, 0),
        name,
        qubits,
        params,
        param_outputs,
    }
}

/// Each operation has one name, and no other text names one.
pub proof fn operations_have_names_of_their_own(opstr: Seq<char>)
    ensures
        leaf_op(opstr) == Some(LeafOp::H) <==> opstr == "h"@,
        leaf_op(opstr) == Some(LeafOp::RzF64) <==> opstr == "rz"@,
        leaf_op(opstr) == Some(LeafOp::RxF64) <==> opstr == "rx"@,
        leaf_op(opstr) == Some(LeafOp::CX) <==> opstr == "cx"@,
        leaf_op(opstr) == Some(LeafOp::T) <==> opstr == "t"@,
        leaf_op(opstr) == Some(LeafOp::Tadj) <==> opstr == "tdg"@,
        leaf_op(opstr) == Some(LeafOp::X) <==> opstr == "x"@,
        leaf_op(opstr) == Some(LeafOp::AddF64) <==> opstr == "add"@,
{
    reveal_strlit("h");
    reveal_strlit("rz");
    reveal_strlit("rx");
    reveal_strlit("cx");
    reveal_strlit("t");
    reveal_strlit("tdg");
    reveal_strlit("x");
    reveal_strlit("add");
    assert("h"@[0] == 'h' && "t"@[0] == 't' && "x"@[0] == 'x');
    assert("rz"@[1] == 'z' && "rx"@[1] == 'x');
    assert("rz"@[0] == 'r' && "rx"@[0] == 'r' && "cx"@[0] == 'c');
    assert("tdg"@[0] == 't' && "add"@[0] == 'a');
    assert("tdg"@.len() == 3 && "add"@.len() == 3 && "tdg"@ != "add"@);
    assert("rz"@.len() == 2 && "rx"@.len() == 2 && "cx"@.len() == 2);
    assert("h"@.len() == 1 && "t"@.len() == 1 && "x"@.len() == 1);
    assert("rz"@ != "rx"@ && "rz"@ != "cx"@ && "rx"@ != "cx"@);
    assert("h"@ != "t"@ && "h"@ != "x"@ && "t"@ != "x"@);
}

/// What operations take and give: `CX` takes two qubits and `AddF64` none, all others one; the
/// two rotations take one number, and `AddF64` takes two and gives one. Graphs know them by
/// these names.
pub proof fn operations_take_what_they_are_known_for(op: LeafOp)
    ensures
        gate_view(op).qubits == (if op == LeafOp::CX {
            2nat
        } else if op == LeafOp::AddF64 {
            0
        } else {
            1
        }),
        gate_view(op).params == (if op == LeafOp::AddF64 {
            2nat
        } else if op == LeafOp::RzF64 || op == LeafOp::RxF64 {
            1
        } else {
            0
        }),
        gate_view(op).param_outputs == (if op == LeafOp::AddF64 {
            1nat
        } else {
            0
        }),
        gate_view(op).inputs() == gate_view(op).qubits + gate_view(op).params,
        gate_view(op).outputs() == gate_view(op).qubits + gate_view(op).param_outputs,
        gate_view(op).extension == "taso.gates"@,
        gate_view(op).version == (0u64, 1u64, 0u64),
        gate_view(op).name == (match op {
            LeafOp::H => "H"@,
            LeafOp::RzF64 => "RzF64"@,
            LeafOp::RxF64 => "RxF64"@,
            LeafOp::CX => "CX"@,
            LeafOp::T => "T"@,
            LeafOp::Tadj => "Tadj"@,
            LeafOp::X => "X"@,
            LeafOp::AddF64 => "AddF64"@,
        }),
{
}

/// The name of a wire is `Q` for a qubit or `P` for a number, and a row of decimal digits,
/// before which there may be one plus sign. All numbers that a `usize` can hold are read, and
/// no others.
pub proof fn wires_are_named_by_letter_and_number(
    name: Seq<char>,
    letter: char,
    plus: bool,
    digits: Seq<char>,
    index: usize,
)
    requires
        name == seq![letter] + (if plus {
            seq!['+']
        } else {
            Seq::empty()
        }) + digits,
        plus || digits.len() == 0 || digits[0] != '+',
    ensures
        wire(name) == Some((WireType::Qubit, index)) <==> letter == 'Q' && digits.len() > 0 && (
        forall|i: int| 0 <= i < digits.len() ==> '0' <= #[trigger] digits[i] && digits[i] <= '9')
            && digits_value(digits) == index,
        wire(name) == Some((WireType::F64, index)) <==> letter == 'P' && digits.len() > 0 && (
        forall|i: int| 0 <= i < digits.len() ==> '0' <= #[trigger] digits[i] && digits[i] <= '9')
            && digits_value(digits) == index,
        wire(Seq::empty()) is None,
{
    let rest = name.skip(1);
    assert(name[0] == letter);
    assert(rest =~= (if plus {
        seq!['+']
    } else {
        Seq::empty()
    }) + digits);
    if plus && digits.len() > 0 {
        assert(rest.skip(1) =~= digits);
        assert(unsigned_part(rest) == digits);
    } else if plus {
        assert(rest =~= seq!['+']);
        assert(!is_digit(rest[0]));
    } else {
        assert(rest =~= digits);
        assert(unsigned_part(rest) == digits);
    }
}

/// One more digit makes a number ten times as large and adds the digit.
pub proof fn digits_count_in_tens(digits: Seq<char>, digit: char)
    ensures
        digits_value(Seq::empty()) == 0,
        '0' <= digit <= '9' ==> digits_value(digits.push(digit)) == 10 * digits_value(digits) + (
        digit as int - '0' as int),
{
    assert(digits.push(digit).drop_last() =~= digits);
}

/// What the inputs of an operation are connected to: `Q` and a number to the qubit of that
/// number, `P` and a number to the wire of the parameter of that number. It fails with the
/// first input that names nothing, or a parameter that is not there.
pub proof fn inputs_are_what_they_name<W>(names: Seq<String>, params: Seq<Option<W>>, n: nat)
    requires
        n <= names.len(),
    ensures
        match resolved_all(names, params, n) {
            Ok(inputs) => inputs.len() == n && forall|k: int|
                #![trigger inputs[k]]
                #![trigger names[k]]
                0 <= k < n ==> match wire(names[k]@) {
                    Some((WireType::Qubit, index)) => inputs[k] == AppendWire::<W>::I(index),
                    Some((WireType::F64, index)) => index < params.len() && params[index as int]
                        is Some && inputs[k] == AppendWire::W(params[index as int]->0),
                    None => false,
                },
            Err(e) => exists|k: int|
                #![trigger names[k]]
                0 <= k < n && (match wire(names[k]@) {
                    Some((WireType::Qubit, _)) => false,
                    Some((WireType::F64, index)) => e == WireError::NoParam && (index
                        >= params.len() || params[index as int] is None),
                    None => e == WireError::BadWire,
                }) && forall|j: int|
                    #![trigger names[j]]
                    0 <= j < k ==> match wire(names[j]@) {
                        Some((WireType::Qubit, _)) => true,
                        Some((WireType::F64, index)) => index < params.len()
                            && params[index as int] is Some,
                        None => false,
                    },
        },
    decreases n,
{
    if n > 0 {
        inputs_are_what_they_name(names, params, (n - 1) as nat);
        if let Ok(before) = resolved_all(names, params, (n - 1) as nat) {
            if let Ok(inputs) = resolved_all(names, params, n) {
                assert forall|k: int|
                    #![trigger inputs[k]]
                    #![trigger names[k]]
                    0 <= k < n implies match wire(names[k]@) {
                    Some((WireType::Qubit, index)) => inputs[k] == AppendWire::<W>::I(index),
                    Some((WireType::F64, index)) => index < params.len() && params[index as int]
                        is Some && inputs[k] == AppendWire::W(params[index as int]->0),
                    None => false,
                } by {
                    if k < n - 1 {
                        assert(inputs[k] == before[k]);
                    }
                }
            } else {
                assert forall|j: int|
                    #![trigger names[j]]
                    0 <= j < n - 1 implies match wire(names[j]@) {
                    Some((WireType::Qubit, _)) => true,
                    Some((WireType::F64, index)) => index < params.len() && params[index as int]
                        is Some,
                    None => false,
                } by {
                    assert(before.len() == n - 1);
                }
                assert(names[n - 1] == names[n - 1]);
            }
        }
    }
}

/// How many of the first `i` names are those of parameters.
pub open spec fn params_before(names: Seq<String>, i: nat) -> nat
    decreases i,
{
    if i == 0 {
        0
    } else {
        params_before(names, (i - 1) as nat) + match wire(names[i - 1]@) {
            Some((WireType::F64, _)) => 1nat,
            _ => 0nat,
        }
    }
}

/// The output at `i` has the name of the parameter `x`, and there are more wires than names of
/// parameters before it.
pub open spec fn gives(names: Seq<String>, wires: nat, i: int, x: usize) -> bool {
    &&& 0 <= i < names.len()
    &&& wire(names[i]@) == Some((WireType::F64, x))
    &&& params_before(names, i as nat) < wires
}

/// More names are those of at least as many parameters.
pub(crate) proof fn lemma_params_before(names: Seq<String>, i: nat, j: nat)
    requires
        i <= j,
    ensures
        params_before(names, i) <= params_before(names, j),
    decreases j,
{
    if i < j {
        lemma_params_before(names, i, (j - 1) as nat);
    }
}

/// What comes of the names from `i` on.
proof fn lemma_recorded_names<W>(
    params: Seq<Option<W>>,
    names: Seq<String>,
    i: nat,
    wires: Seq<W>,
)
    requires
        i <= names.len(),
        params_before(names, i) <= wires.len(),
    ensures
        recorded(params, names, i, wires, params_before(names, i)) is Ok <==> forall|m: int|
            #![trigger names[m]]
            i <= m < names.len() && params_before(names, m as nat) <= wires.len() ==> wire(
                names[m]@,
            ) is Some && !gives(names, wires.len(), m, usize::MAX),
        match recorded(params, names, i, wires, params_before(names, i)) {
            Ok(after) => {
                &&& after.len() >= params.len()
                &&& after.len() > params.len() ==> exists|m: int|
                    i <= m && #[trigger] gives(names, wires.len(), m, (after.len() - 1) as usize)
                &&& forall|x: usize, m: int|
                    i <= m && #[trigger] gives(names, wires.len(), m, x) ==> x < after.len()
                &&& forall|x: usize, m: int|
                    i <= m && #[trigger] gives(names, wires.len(), m, x) && (forall|l: int|
                        m < l ==> !#[trigger] gives(names, wires.len(), l, x)) ==> after[x as int]
                        == Some(wires[params_before(names, m as nat) as int])
                &&& forall|x: usize|
                    #![trigger after[x as int]]
                    x < after.len() && (forall|m: int|
                        i <= m ==> !#[trigger] gives(names, wires.len(), m, x)) ==> after[x as int]
                        == (if x < params.len() {
                        params[x as int]
                    } else {
                        None
                    })
            },
            Err(e) => e == WireError::BadWire,
        },
    decreases names.len() - i,
{
    let used = params_before(names, i);
    let n = wires.len();
    if i < names.len() {
        match wire(names[i as int]@) {
            None => {
                assert(wire(names[i as int]@) is None);
            },
            Some((WireType::Qubit, _)) => {
                assert(params_before(names, i + 1) == used);
                lemma_recorded_names(params, names, i + 1, wires);
            },
            Some((WireType::F64, index)) => {
                assert(params_before(names, i + 1) == used + 1);
                if used >= n {
                    assert forall|m: int|
                        #![trigger names[m]]
                        i < m < names.len() implies params_before(names, m as nat) > n by {
                        lemma_params_before(names, i + 1, m as nat);
                    }
                    assert forall|x: usize, m: int| i <= m implies !#[trigger] gives(
                        names,
                        n,
                        m,
                        x,
                    ) by {
                        if i < m < names.len() {
                            assert(names[m] == names[m]);
                        }
                    }
                } else if index == usize::MAX {
                    assert(gives(names, n, i as int, index));
                    assert(names[i as int] == names[i as int]);
                } else {
                    let next = with_param(params, index, wires[used as int]);
                    lemma_recorded_names(next, names, i + 1, wires);
                    assert(gives(names, n, i as int, index));
                    if let Ok(after) = recorded(params, names, i, wires, used) {
                        assert(next.len() > index);
                        if after.len() > params.len() && after.len() == next.len() {
                            assert(after.len() - 1 == index);
                            assert(gives(names, n, i as int, (after.len() - 1) as usize));
                        }
                        assert forall|x: usize, m: int|
                            i <= m && #[trigger] gives(names, n, m, x) && (forall|l: int|
                                m < l ==> !#[trigger] gives(names, n, l, x)) implies after[x as int]
                            == Some(wires[params_before(names, m as nat) as int]) by {
                            if m == i {
                                assert(x == index);
                                assert(after[x as int] == next[x as int]);
                            }
                        }
                        assert forall|x: usize|
                            #![trigger after[x as int]]
                            x < after.len() && (forall|m: int|
                                i <= m ==> !#[trigger] gives(names, n, m, x)) implies after[x as int]
                            == (if x < params.len() {
                            params[x as int]
                        } else {
                            None
                        }) by {
                            assert(x != index);
                        }
                    }
                }
            },
        }
    }
}

/// The outputs of an operation that have the names of parameters get its wires in order, the
/// first one the first wire, as far as there are wires; where one name comes twice, the last
/// one counts. All other parameters keep their wires, and those that are new in between have
/// none. It fails if and only if a name up to the last one that gets a wire, or the next
/// parameter after it, is none of a wire, or has a number that is too large.
pub proof fn parameters_get_the_wires_in_order<W>(
    params: Seq<Option<W>>,
    names: Seq<String>,
    wires: Seq<W>,
)
    ensures
        recorded(params, names, 0, wires, 0) is Ok <==> forall|m: int|
            #![trigger names[m]]
            0 <= m < names.len() && params_before(names, m as nat) <= wires.len() ==> wire(
                names[m]@,
            ) is Some && !gives(names, wires.len(), m, usize::MAX),
        match recorded(params, names, 0, wires, 0) {
            Ok(after) => {
                &&& after.len() >= params.len()
                &&& after.len() > params.len() ==> exists|m: int| #[trigger]
                    gives(names, wires.len(), m, (after.len() - 1) as usize)
                &&& forall|x: usize, m: int| #[trigger]
                    gives(names, wires.len(), m, x) && (forall|l: int|
                        m < l ==> !#[trigger] gives(names, wires.len(), l, x)) ==> x < after.len()
                        && after[x as int] == Some(wires[params_before(names, m as nat) as int])
                &&& forall|x: usize|
                    #![trigger after[x as int]]
                    x < after.len() && (forall|m: int| !#[trigger] gives(names, wires.len(), m, x))
                        ==> after[x as int] == (if x < params.len() {
                        params[x as int]
                    } else {
                        None
                    })
            },
            Err(e) => e == WireError::BadWire,
        },
{
    assert(params_before(names, 0) == 0);
    lemma_recorded_names(params, names, 0, wires);
}

} // verus!
