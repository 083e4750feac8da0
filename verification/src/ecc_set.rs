//! Equivalence classes as they stand in a file.

use hugr::Hugr;
use vstd::prelude::*;

use crate::dataflow::{hugr_is_closed, hugr_nodes, is_regular};
use crate::gates::Gates;
use crate::plan::{planned, realises, Fault};
use crate::qtz_circuit::RepCircData;
use crate::wiring::{circuit_from_rep, is_graph_of, is_valid, CircuitError, RepError};

verus! {

/// Why the classes of a file were not loaded.
#[derive(Debug)]
pub enum LoadError {
    /// A class has no circuit.
    EmptyClass,
    /// The first circuit of a class has no identifier.
    NoId,
    /// A circuit of a class was not made.
    Circuit(CircuitError),
}

/// The class has a circuit, and the first one has an identifier.
pub open spec fn is_named(class: Seq<RepCircData>) -> bool {
    class.len() > 0 && class[0].meta.id@.len() > 0
}

/// The identifier of a class: the first one of its first circuit.
pub open spec fn class_id(class: Seq<RepCircData>) -> Seq<char> {
    class[0].meta.id@[0]@
}

/// The identifiers of the first `n` classes in order, each one once, with the number of the
/// last class that has it.
pub open spec fn class_ids(classes: Seq<Vec<RepCircData>>, n: nat) -> Seq<(Seq<char>, int)>
    decreases n,
{
    if n == 0 {
        Seq::empty()
    } else {
        with_id(class_ids(classes, (n - 1) as nat), class_id(classes[n - 1]@), n - 1)
    }
}

/// The identifiers with one more class: it takes the place of the one that had its
/// identifier, or comes last.
pub open spec fn with_id(
    ids: Seq<(Seq<char>, int)>,
    id: Seq<char>,
    class: int,
) -> Seq<(Seq<char>, int)>
    decreases ids.len(),
{
    if ids.len() == 0 {
        seq![(id, class)]
    } else if ids[0].0 == id {
        ids.update(0, (id, class))
    } else {
        seq![ids[0]] + with_id(ids.skip(1), id, class)
    }
}

/// The circuits are those of the class, in order, and valid.
pub open spec fn are_circuits_of(circs: Seq<Hugr>, class: Seq<RepCircData>) -> bool {
    &&& circs.len() == class.len()
    &&& forall|k: int|
        0 <= k < class.len() ==> is_graph_of(#[trigger] circs[k], class[k]) && is_valid(circs[k])
}

/// Something is wrong with the class, and the error names what is wrong first: it has no
/// circuit or no identifier, or a circuit cannot be made.
pub open spec fn is_faulty(class: Seq<RepCircData>, e: LoadError) -> bool {
    match e {
        LoadError::EmptyClass => class.len() == 0,
        LoadError::NoId => class.len() > 0 && class[0].meta.id@.len() == 0,
        LoadError::Circuit(e) => is_named(class) && exists|k: int|
            #![trigger class[k]]
            0 <= k < class.len() && all_planned(class, k) && match (planned(class[k]), e) {
                (Err(fault), CircuitError::Rep(e)) => e.fault() == fault,
                _ => false,
            },
    }
}

/// The first `n` circuits of the class can be made.
pub open spec fn all_planned(class: Seq<RepCircData>, n: int) -> bool {
    forall|k: int| 0 <= k < n ==> planned(#[trigger] class[k]) is Ok
}

/// Makes the circuits of a class.
fn load_class(class: &Vec<RepCircData>, gates: &Gates) -> (res: Result<
    (String, Vec<Hugr>),
    LoadError,
>)
    ensures
        match res {
            Ok((id, circs)) => is_named(class@) && id@ == class_id(class@) && are_circuits_of(
                circs@,
                class@,
            ) && all_planned(class@, class@.len() as int),
            Err(e) => is_faulty(class@, e),
        },
{
    if class.len() == 0 {
        return Err(LoadError::EmptyClass);
    }
    if class[0].meta.id.len() == 0 {
        return Err(LoadError::NoId);
    }
    let id: String = class[0].meta.id[0].clone();
    let mut circs: Vec<Hugr> = Vec::new();
    for i in 0..class.len()
        invariant
            is_named(class@),
            circs@.len() == i,
            all_planned(class@, i as int),
            forall|k: int|
                0 <= k < i ==> is_graph_of(#[trigger] circs@[k], class@[k]) && is_valid(circs@[k]),
    {
        match circuit_from_rep(&class[i], gates) {
            Ok(hugr) => {
                circs.push(hugr);
            },
            Err(e) => {
                return Err(LoadError::Circuit(e));
            },
        }
    }
    Ok((id, circs))
}

/// The classes are those that have the identifiers.
spec fn are_classes(
    eccs: Seq<(String, Vec<Hugr>)>,
    ids: Seq<(Seq<char>, int)>,
    classes: Seq<Vec<RepCircData>>,
) -> bool {
    &&& eccs.len() == ids.len()
    &&& forall|j: int|
        0 <= j < ids.len() ==> (#[trigger] eccs[j]).0@ == ids[j].0 && 0 <= ids[j].1 < classes.len()
            && are_circuits_of(eccs[j].1@, classes[ids[j].1]@)
}

/// Puts one more class to those that are there: under its identifier, or as the last one.
fn put_class(
    eccs: &mut Vec<(String, Vec<Hugr>)>,
    id: String,
    circs: Vec<Hugr>,
    Ghost(ids): Ghost<Seq<(Seq<char>, int)>>,
    Ghost(classes): Ghost<Seq<Vec<RepCircData>>>,
    Ghost(class): Ghost<int>,
)
    requires
        are_classes(old(eccs)@, ids, classes),
        0 <= class < classes.len(),
        are_circuits_of(circs@, classes[class]@),
    ensures
        are_classes(final(eccs)@, with_id(ids, id@, class), classes),
{
    let ghost before = eccs@;
    let ghost added = (id, circs);
    let mut j: usize = 0;
    while j < eccs.len() && !(eccs[j].0 == id)
        invariant
            eccs@ == before,
            j <= eccs@.len(),
            eccs@.len() == ids.len(),
            forall|k: int| 0 <= k < j ==> (#[trigger] eccs@[k]).0@ != id@,
        decreases eccs@.len() - j,
    {
        j = j + 1;
    }
    let ghost after = with_id(ids, id@, class);
    proof {
        assert forall|k: int| 0 <= k < j implies (#[trigger] ids[k]).0 != id@ by {
            assert(eccs@[k].0@ == ids[k].0);
        }
        if j < ids.len() {
            assert(eccs@[j as int].0@ == ids[j as int].0);
        }
        lemma_with_id(ids, id@, class, j as int);
    }
    if j < eccs.len() {
        eccs.set(j, (id, circs));
    } else {
        eccs.push((id, circs));
    }
    assert forall|k: int| 0 <= k < after.len() implies (#[trigger] eccs@[k]).0@ == after[k].0 && 0
        <= after[k].1 < classes.len() && are_circuits_of(
        eccs@[k].1@,
        classes[after[k].1]@,
    ) by {
        if k == j {
            assert(eccs@[k] == added);
        } else {
            assert(eccs@[k] == before[k] && after[k] == ids[k]);
        }
    }
}

/// The class has an identifier, and all its circuits can be made.
pub open spec fn is_sound_class(class: Seq<RepCircData>) -> bool {
    is_named(class) && all_planned(class, class.len() as int)
}

/// Makes the circuits of all classes of a file, each class under its identifier. It fails if and
/// only if something is wrong with a class, and then with what is wrong with the first such one.
pub fn load_ecc_set(classes: &Vec<Vec<RepCircData>>, gates: &Gates) -> (res: Result<
    Vec<(String, Vec<Hugr>)>,
    LoadError,
>)
    ensures
        res is Ok <==> forall|c: int|
            0 <= c < classes@.len() ==> is_sound_class(#[trigger] classes@[c]@),
        match res {
            Ok(eccs) => {
                let ids = class_ids(classes@, classes@.len());
                &&& eccs@.len() == ids.len()
                &&& forall|j: int|
                    0 <= j < ids.len() ==> (#[trigger] eccs@[j]).0@ == ids[j].0 && are_circuits_of(
                        eccs@[j].1@,
                        classes@[ids[j].1]@,
                    )
            },
            Err(e) => exists|c: int|
                0 <= c < classes@.len() && #[trigger] is_faulty(classes@[c]@, e) && forall|d: int|
                    0 <= d < c ==> is_sound_class(#[trigger] classes@[d]@),
        },
{
    let mut eccs: Vec<(String, Vec<Hugr>)> = Vec::new();
    for i in 0..classes.len()
        invariant
            are_classes(eccs@, class_ids(classes@, i as nat), classes@),
            forall|d: int| 0 <= d < i ==> is_sound_class(#[trigger] classes@[d]@),
    {
        let (id, circs) = match load_class(&classes[i], gates) {
            Ok(class) => class,
            Err(e) => {
                assert(is_faulty(classes@[i as int]@, e));
                return Err(e);
            },
        };
        put_class(
            &mut eccs,
            id,
            circs,
            Ghost(class_ids(classes@, i as nat)),
            Ghost(classes@),
            Ghost(i as int),
        );
        assert(class_ids(classes@, (i + 1) as nat) == with_id(
            class_ids(classes@, i as nat),
            class_id(classes@[i as int]@),
            i as int,
        ));
    }
    Ok(eccs)
}

/// Where identifiers differ, each class of a file is there, under its own identifier and in
/// order.
pub proof fn distinct_classes_are_all_loaded(classes: Seq<Vec<RepCircData>>, n: nat)
    requires
        n <= classes.len(),
        forall|c: int, d: int|
            #![trigger classes[c], classes[d]]
            0 <= c < d < n ==> class_id(classes[c]@) != class_id(classes[d]@),
    ensures
        class_ids(classes, n) == Seq::new(n, |c: int| (class_id(classes[c]@), c)),
    decreases n,
{
    if n > 0 {
        let m = (n - 1) as nat;
        distinct_classes_are_all_loaded(classes, m);
        let ids = class_ids(classes, m);
        let id = class_id(classes[m as int]@);
        assert forall|k: int| 0 <= k < m implies (#[trigger] ids[k]).0 != id by {
            assert(class_id(classes[k]@) != class_id(classes[m as int]@));
        }
        lemma_with_id(ids, id, m as int, m as int);
        assert(class_ids(classes, n) =~= Seq::new(n, |c: int| (class_id(classes[c]@), c)));
    } else {
        assert(class_ids(classes, n) =~= Seq::new(n, |c: int| (class_id(classes[c]@), c)));
    }
}

/// Of each identifier there is one class, the last one in the file that has it.
pub proof fn each_identifier_has_its_last_class(classes: Seq<Vec<RepCircData>>, n: nat)
    requires
        n <= classes.len(),
    ensures
        ({
            let ids = class_ids(classes, n);
            &&& forall|j: int, k: int|
                0 <= j < k < ids.len() ==> (#[trigger] ids[j]).0 != (#[trigger] ids[k]).0
            &&& forall|j: int|
                #![trigger ids[j]]
                0 <= j < ids.len() ==> 0 <= ids[j].1 < n && ids[j].0
                    == classes[ids[j].1]@[0].meta.id@[0]@
            &&& forall|j: int, c: int|
                #![trigger ids[j], classes[c]]
                0 <= j < ids.len() && ids[j].1 < c < n ==> classes[c]@[0].meta.id@[0]@ != ids[j].0
            &&& forall|c: int|
                #![trigger classes[c]]
                0 <= c < n ==> exists|j: int|
                    0 <= j < ids.len() && (#[trigger] ids[j]).0 == classes[c]@[0].meta.id@[0]@
        }),
{
    let ids = class_ids(classes, n);
    lemma_ids_differ(classes, n);
    assert forall|j: int|
        #![trigger ids[j]]
        0 <= j < ids.len() implies 0 <= ids[j].1 < n && ids[j].0
        == classes[ids[j].1]@[0].meta.id@[0]@ by {
        lemma_id_is_of_class(classes, n, j);
    }
    assert forall|j: int, c: int|
        #![trigger ids[j], classes[c]]
        0 <= j < ids.len() && ids[j].1 < c < n implies classes[c]@[0].meta.id@[0]@ != ids[j].0 by {
        lemma_id_is_of_last(classes, n, j, c);
    }
    assert forall|c: int|
        #![trigger classes[c]]
        0 <= c < n implies exists|j: int|
        0 <= j < ids.len() && (#[trigger] ids[j]).0 == classes[c]@[0].meta.id@[0]@ by {
        let j = lemma_id_of(classes, n, c);
        assert(ids[j].0 == classes[c]@[0].meta.id@[0]@);
    }
}

/// What one more class does to the identifiers.
proof fn lemma_ids_after(classes: Seq<Vec<RepCircData>>, n: nat) -> (at: int)
    requires
        n > 0,
    ensures
        ({
            let ids = class_ids(classes, (n - 1) as nat);
            let all = class_ids(classes, n);
            let id = class_id(classes[n - 1]@);
            &&& 0 <= at <= ids.len()
            &&& forall|k: int| 0 <= k < at ==> (#[trigger] ids[k]).0 != id
            &&& all.len() == if at < ids.len() {
                ids.len()
            } else {
                ids.len() + 1
            }
            &&& at < ids.len() ==> ids[at].0 == id
            &&& all[at] == (id, n - 1)
            &&& forall|k: int| 0 <= k < ids.len() && k != at ==> #[trigger] all[k] == ids[k]
        }),
{
    let ids = class_ids(classes, (n - 1) as nat);
    let id = class_id(classes[n - 1]@);
    let at = lemma_place(ids, id);
    lemma_with_id(ids, id, n - 1, at);
    at
}

/// No identifier is there twice.
proof fn lemma_ids_differ(classes: Seq<Vec<RepCircData>>, n: nat)
    ensures
        forall|j: int, k: int|
            0 <= j < k < class_ids(classes, n).len() ==> (#[trigger] class_ids(classes, n)[j]).0 != (
            #[trigger] class_ids(classes, n)[k]).0,
    decreases n,
{
    if n > 0 {
        let ids = class_ids(classes, (n - 1) as nat);
        let all = class_ids(classes, n);
        lemma_ids_differ(classes, (n - 1) as nat);
        let at = lemma_ids_after(classes, n);
        assert forall|k: int| 0 <= k < ids.len() implies (#[trigger] all[k]).0 == ids[k].0 by {}
        assert forall|j: int, k: int| 0 <= j < k < all.len() implies (#[trigger] all[j]).0 != (
        #[trigger] all[k]).0 by {
            assert(all[j].0 == ids[j].0);
            if k < ids.len() {
                assert(all[k].0 == ids[k].0);
            }
        }
    }
}

/// An identifier is that of its class.
proof fn lemma_id_is_of_class(classes: Seq<Vec<RepCircData>>, n: nat, j: int)
    requires
        0 <= j < class_ids(classes, n).len(),
    ensures
        0 <= class_ids(classes, n)[j].1 < n,
        class_ids(classes, n)[j].0 == class_id(classes[class_ids(classes, n)[j].1]@),
    decreases n,
{
    if n > 0 {
        let at = lemma_ids_after(classes, n);
        if j != at {
            lemma_id_is_of_class(classes, (n - 1) as nat, j);
        }
    }
}

/// No later class has the identifier.
proof fn lemma_id_is_of_last(classes: Seq<Vec<RepCircData>>, n: nat, j: int, c: int)
    requires
        0 <= j < class_ids(classes, n).len(),
        class_ids(classes, n)[j].1 < c < n,
    ensures
        class_id(classes[c]@) != class_ids(classes, n)[j].0,
    decreases n,
{
    let ids = class_ids(classes, (n - 1) as nat);
    let at = lemma_ids_after(classes, n);
    if j != at {
        if c < n - 1 {
            lemma_id_is_of_last(classes, (n - 1) as nat, j, c);
        } else if at < ids.len() {
            lemma_ids_differ(classes, (n - 1) as nat);
            assert(ids[at].0 != ids[j].0);
        } else {
            assert(ids[j].0 != class_id(classes[n - 1]@));
        }
    }
}

/// The identifier of a class is there.
proof fn lemma_id_of(classes: Seq<Vec<RepCircData>>, n: nat, c: int) -> (j: int)
    requires
        0 <= c < n,
    ensures
        0 <= j < class_ids(classes, n).len(),
        class_ids(classes, n)[j].0 == class_id(classes[c]@),
    decreases n,
{
    let at = lemma_ids_after(classes, n);
    if c < n - 1 {
        lemma_id_of(classes, (n - 1) as nat, c)
    } else {
        at
    }
}

/// The identifiers are in the order in which they come first in the file.
pub proof fn identifiers_are_in_order(
    classes: Seq<Vec<RepCircData>>,
    n: nat,
    j: int,
    k: int,
    c: int,
)
    requires
        n <= classes.len(),
        0 <= j < k < class_ids(classes, n).len(),
        0 <= c < n,
        classes[c]@[0].meta.id@[0]@ == class_ids(classes, n)[k].0,
    ensures
        exists|b: int|
            0 <= b < c && (#[trigger] classes[b])@[0].meta.id@[0]@ == class_ids(classes, n)[j].0,
    decreases n,
{
    let m = (n - 1) as nat;
    let ids = class_ids(classes, m);
    let all = class_ids(classes, n);
    let at = lemma_ids_after(classes, n);
    assert(all[j].0 == ids[j].0);
    lemma_id_is_of_class(classes, m, j);
    if k < ids.len() {
        assert(all[k].0 == ids[k].0);
        lemma_id_is_of_class(classes, m, k);
        let d = if c < m {
            c
        } else {
            ids[k].1
        };
        identifiers_are_in_order(classes, m, j, k, d);
    } else {
        if c < m {
            let l = lemma_id_of(classes, m, c);
            assert(ids[l].0 == class_id(classes[m as int]@));
        }
        assert(classes[ids[j].1]@[0].meta.id@[0]@ == all[j].0);
    }
}

/// Where an identifier is, or that it is nowhere.
proof fn lemma_place(ids: Seq<(Seq<char>, int)>, id: Seq<char>) -> (at: int)
    ensures
        0 <= at <= ids.len(),
        forall|k: int| 0 <= k < at ==> (#[trigger] ids[k]).0 != id,
        at < ids.len() ==> ids[at].0 == id,
    decreases ids.len(),
{
    if ids.len() == 0 {
        0
    } else {
        let before = lemma_place(ids.drop_last(), id);
        assert forall|k: int| 0 <= k < before implies (#[trigger] ids[k]).0 != id by {
            assert(ids.drop_last()[k] == ids[k]);
        }
        if before < ids.len() - 1 || ids.last().0 == id {
            before
        } else {
            before + 1
        }
    }
}

/// Every circuit of a class is made, at its place: the graph has the nodes that were planned for
/// it, all operations are defined, and the rules are obeyed.
pub proof fn classes_keep_their_circuits(circs: Seq<Hugr>, class: Seq<RepCircData>)
    ensures
        are_circuits_of(circs, class) <==> {
            &&& circs.len() == class.len()
            &&& forall|k: int|
                #![trigger circs[k]]
                #![trigger class[k]]
                0 <= k < class.len() ==> (planned(class[k]) matches Ok(plan) && realises(
                    hugr_nodes(circs[k]),
                    plan,
                )) && hugr_is_closed(circs[k]) && is_regular(hugr_nodes(circs[k]))
        },
{
    assert forall|k: int| 0 <= k < class.len() implies (is_graph_of(#[trigger] circs[k], class[k])
        <==> (planned(class[k]) matches Ok(plan) && realises(hugr_nodes(circs[k]), plan))) by {}
    assert forall|k: int| 0 <= k < class.len() implies (is_valid(#[trigger] circs[k])
        <==> hugr_is_closed(circs[k]) && is_regular(hugr_nodes(circs[k]))) by {}
    if are_circuits_of(circs, class) {
        assert forall|k: int| #![trigger class[k]] 0 <= k < class.len() implies is_graph_of(
            circs[k],
            class[k],
        ) && is_valid(circs[k]) by {}
    }
}

/// A class is loaded if and only if it has a circuit, the first circuit has an identifier, and
/// all circuits can be made; nothing else is wrong with a class. What is wrong is told in that
/// order, and of the circuits that of the first one that cannot be made.
pub proof fn faults_of_classes_are_told_apart(class: Seq<RepCircData>, e: LoadError)
    ensures
        is_sound_class(class) <==> {
            &&& class.len() > 0
            &&& class[0].meta.id@.len() > 0
            &&& forall|k: int| 0 <= k < class.len() ==> planned(#[trigger] class[k]) is Ok
        },
        is_sound_class(class) ==> !is_faulty(class, e),
        class.len() == 0 ==> (is_faulty(class, e) <==> e is EmptyClass),
        class.len() > 0 && class[0].meta.id@.len() == 0 ==> (is_faulty(class, e) <==> e is NoId),
        class.len() > 0 && class[0].meta.id@.len() > 0 && is_faulty(class, e) ==> exists|k: int|
            #![trigger class[k]]
            0 <= k < class.len() && (forall|l: int|
                0 <= l < k ==> planned(#[trigger] class[l]) is Ok) && (match planned(class[k]) {
                Ok(_) => false,
                Err(Fault::UnknownOp) => e matches LoadError::Circuit(
                    CircuitError::Rep(RepError::UnknownOp),
                ),
                Err(Fault::Wire(error)) => e matches LoadError::Circuit(
                    CircuitError::Rep(RepError::Wire(f)),
                ) && f == error,
                Err(Fault::WrongInputs) => e matches LoadError::Circuit(
                    CircuitError::Rep(RepError::WrongInputs),
                ),
                Err(Fault::BadQubit) => e matches LoadError::Circuit(
                    CircuitError::Rep(RepError::Build(_)),
                ),
                Err(Fault::TooLarge) => e matches LoadError::Circuit(
                    CircuitError::Rep(RepError::TooLarge),
                ),
            }),
{
    if class.len() > 0 && class[0].meta.id@.len() > 0 && is_faulty(class, e) {
        let k = choose|k: int|
            #![trigger class[k]]
            0 <= k < class.len() && all_planned(class, k) && match (planned(class[k]), e) {
                (Err(fault), LoadError::Circuit(CircuitError::Rep(e))) => e.fault() == fault,
                _ => false,
            };
        assert(planned(class[k]) is Err);
    }
}

/// Where one more class goes.
proof fn lemma_with_id(ids: Seq<(Seq<char>, int)>, id: Seq<char>, class: int, j: int)
    requires
        0 <= j <= ids.len(),
        forall|k: int| 0 <= k < j ==> (#[trigger] ids[k]).0 != id,
        j < ids.len() ==> ids[j].0 == id,
    ensures
        with_id(ids, id, class) == if j < ids.len() {
            ids.update(j, (id, class))
        } else {
            ids.push((id, class))
        },
    decreases ids.len(),
{
    if ids.len() > 0 && j > 0 {
        assert(ids[0].0 != id);
        lemma_with_id(ids.skip(1), id, class, j - 1);
        assert(seq![ids[0]] + ids.skip(1) =~= ids);
    }
}

} // verus!
