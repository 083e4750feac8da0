//! Classes of equivalent circuits, each led by a representative.

use std::collections::HashMap;
use vstd::prelude::*;

verus! {

broadcast use vstd::std_specs::hash::group_hash_axioms;

/// A circuit, with what the choice of rewrites depends on. The circuit itself is only passed
/// on.
pub struct Circuit<H> {
    pub graph: H,
    /// The number of nodes of the circuit.
    pub node_count: usize,
    /// For each wire of the circuit, whether no operation touches it.
    pub blank_wires: Vec<bool>,
}

/// The position of the smallest circuit, and of the first one if there are several.
pub open spec fn smallest<H>(circs: Seq<Circuit<H>>) -> int
    decreases circs.len(),
{
    if circs.len() <= 1 {
        0
    } else {
        let before = smallest(circs.drop_last());
        if circs.last().node_count < circs[before].node_count {
            circs.len() - 1
        } else {
            before
        }
    }
}

/// The circuits with the smallest one in the first place, for which it has changed places with
/// the one that was there.
pub open spec fn smallest_first<H>(circs: Seq<Circuit<H>>) -> Seq<Circuit<H>> {
    circs.update(0, circs[smallest(circs)]).update(smallest(circs), circs[0])
}

/// The circuits that the circuit at place `from` of a class of `len` circuits can be rewritten
/// to: the representative to every other one, and every other one to the representative.
pub open spec fn rewrite_targets(len: nat, from: int) -> Seq<usize> {
    if from == 0 {
        Seq::new((len - 1) as nat, |i: int| (i + 1) as usize)
    } else {
        seq![0usize]
    }
}

/// Every wire that is blank in `inner` is blank in `outer` too.
pub open spec fn covers(outer: Seq<bool>, inner: Seq<bool>) -> bool {
    &&& outer.len() == inner.len()
    &&& forall|i: int| 0 <= i < inner.len() && #[trigger] inner[i] ==> outer[i]
}

/// The blank wires of each circuit.
pub open spec fn signatures<H>(circs: Seq<Circuit<H>>) -> Seq<Seq<bool>> {
    Seq::new(circs.len(), |i: int| circs[i].blank_wires@)
}

/// No place before `i` has the same blank wires.
pub open spec fn is_leader(sigs: Seq<Seq<bool>>, i: int) -> bool {
    forall|j: int| 0 <= j < i ==> #[trigger] sigs[j] != sigs[i]
}

/// The first places of all blank wires that occur among the first `n` circuits.
pub open spec fn leaders(sigs: Seq<Seq<bool>>, n: nat) -> Seq<int>
    decreases n,
{
    if n == 0 {
        Seq::empty()
    } else {
        let before = leaders(sigs, (n - 1) as nat);
        if is_leader(sigs, n - 1) {
            before.push(n - 1)
        } else {
            before
        }
    }
}

/// The places, among the first `n`, of the circuits that have the same blank wires as the one
/// at `k`.
pub open spec fn alike(sigs: Seq<Seq<bool>>, k: int, n: nat) -> Seq<int>
    decreases n,
{
    if n == 0 {
        Seq::empty()
    } else {
        let before = alike(sigs, k, (n - 1) as nat);
        if sigs[n - 1] == sigs[k] {
            before.push(n - 1)
        } else {
            before
        }
    }
}

/// The places of the circuits that can do without the blank wires of the one at `k`, those
/// with the same blank wires together; only the first `n` leaders and their like are looked
/// at.
pub open spec fn reducible(sigs: Seq<Seq<bool>>, k: int, n: nat) -> Seq<int>
    decreases n,
{
    if n == 0 {
        Seq::empty()
    } else {
        let before = reducible(sigs, k, (n - 1) as nat);
        let leader = leaders(sigs, sigs.len())[n - 1];
        if covers(sigs[leader], sigs[k]) {
            before + alike(sigs, leader, sigs.len())
        } else {
            before
        }
    }
}

/// The places of all circuits that can do without the blank wires of the one at `k`.
pub open spec fn all_reducible(sigs: Seq<Seq<bool>>, k: int) -> Seq<int> {
    reducible(sigs, k, leaders(sigs, sigs.len()).len())
}

/// `out` holds what `strip` made of the circuits at the given places, without the blank wires
/// of the one at `k`.
pub open spec fn stripped<H, F: Fn(&Circuit<H>, &Vec<bool>) -> Circuit<H>>(
    circs: Seq<Circuit<H>>,
    k: int,
    places: Seq<int>,
    strip: F,
    out: Seq<Circuit<H>>,
) -> bool {
    &&& out.len() == places.len()
    &&& forall|j: int|
        0 <= j < out.len() ==> call_ensures(
            strip,
            (&circs[places[j]], &circs[k].blank_wires),
            #[trigger] out[j],
        )
}

/// `set` is the class of the circuits that can do without the blank wires of the one at `k`,
/// with the wires removed by `strip`.
pub open spec fn is_reduced_class<H, F: Fn(&Circuit<H>, &Vec<bool>) -> Circuit<H>>(
    circs: Seq<Circuit<H>>,
    k: int,
    strip: F,
    set: Seq<Circuit<H>>,
) -> bool {
    exists|out: Seq<Circuit<H>>| #[trigger]
        stripped(circs, k, all_reducible(signatures(circs), k), strip, out) && set
            == smallest_first(out)
}

/// A class of equivalent circuits. The first one represents the class.
pub struct RepCircSet<H> {
    all_circs: Vec<Circuit<H>>,
}

impl<H> View for RepCircSet<H> {
    type V = Seq<Circuit<H>>;

    closed spec fn view(&self) -> Seq<Circuit<H>> {
        self.all_circs@
    }
}

impl<H> RepCircSet<H> {
    #[verifier::type_invariant]
    spec fn has_representative(self) -> bool {
        self.all_circs@.len() > 0
    }

    /// A class of the given representative and the other circuits.
    pub fn new(rep_circ: Circuit<H>, others: Vec<Circuit<H>>) -> (set: Self)
        ensures
            set@ == seq![rep_circ] + others@,
    {
        let mut others = others;
        let mut all_circs: Vec<Circuit<H>> = Vec::new();
        all_circs.push(rep_circ);
        all_circs.append(&mut others);
        RepCircSet { all_circs }
    }

    /// A class of the given circuits, represented by the smallest one.
    pub fn from_circs(all_circs: Vec<Circuit<H>>) -> (set: Self)
        requires
            all_circs@.len() > 0,
        ensures
            set@ == smallest_first(all_circs@),
    {
        let mut all_circs = all_circs;
        let ghost circs = all_circs@;
        let mut min_ind: usize = 0;
        for i in 1..all_circs.len()
            invariant
                all_circs@ == circs,
                0 <= min_ind < i <= circs.len(),
                min_ind == smallest(circs.take(i as int)),
        {
            assert(circs.take(i + 1).drop_last() == circs.take(i as int));
            if all_circs[i].node_count < all_circs[min_ind].node_count {
                min_ind = i;
            }
        }
        assert(circs.take(circs.len() as int) == circs);
        if min_ind != 0 {
            let min = all_circs.remove(min_ind);
            all_circs.insert(0, min);
            let first = all_circs.remove(1);
            all_circs.insert(min_ind, first);
        }
        assert(all_circs@ =~= smallest_first(circs));
        RepCircSet { all_circs }
    }

    /// The number of circuits.
    pub fn len(&self) -> (len: usize)
        ensures
            len == self@.len(),
            len > 0,
    {
        proof {
            use_type_invariant(self);
        }
        self.all_circs.len()
    }

    /// The representative.
    pub fn rep_circ(&self) -> (circ: &Circuit<H>)
        ensures
            *circ == self@[0],
            self@.len() > 0,
    {
        proof {
            use_type_invariant(self);
        }
        &self.all_circs[0]
    }

    /// All circuits but the representative.
    pub fn others(&self) -> (circs: &[Circuit<H>])
        ensures
            circs@ == self@.skip(1),
            self@.len() > 0,
    {
        proof {
            use_type_invariant(self);
        }
        vstd::slice::slice_subrange(self.all_circs.as_slice(), 1, self.all_circs.len())
    }

    /// All circuits, the representative first.
    pub fn circuits(&self) -> (circs: &[Circuit<H>])
        ensures
            circs@ == self@,
    {
        self.all_circs.as_slice()
    }

    /// The circuits themselves, the representative first.
    pub fn into_circuits(self) -> (circs: Vec<Circuit<H>>)
        ensures
            circs@ == self@,
    {
        self.all_circs
    }

    /// Which circuits can be rewritten into which, by their places.
    pub fn rewrite_rules(&self) -> (rules: HashMap<usize, Vec<usize>>)
        ensures
            forall|from: usize| #[trigger] rules@.contains_key(from) <==> from < self@.len(),
            forall|from: usize|
                from < self@.len() ==> (#[trigger] rules@[from])@ == rewrite_targets(
                    self@.len(),
                    from as int,
                ),
            rules@[0]@ == Seq::new((self@.len() - 1) as nat, |i: int| (i + 1) as usize),
            forall|from: usize|
                0 < from < self@.len() ==> (#[trigger] rules@[from])@ == seq![0usize],
    {
        let len: usize = self.len();
        let mut rules: HashMap<usize, Vec<usize>> = HashMap::new();
        let mut all: Vec<usize> = Vec::new();
        for i in 1..len
            invariant
                len == self@.len(),
                forall|from: usize| #[trigger] rules@.contains_key(from) <==> 1 <= from < i,
                forall|from: usize|
                    1 <= from < i ==> (#[trigger] rules@[from])@ == rewrite_targets(
                        self@.len(),
                        from as int,
                    ),
                all@ == Seq::new((i - 1) as nat, |j: int| (j + 1) as usize),
        {
            rules.insert(i, vec![0]);
            assert(rules@[i]@ =~= rewrite_targets(self@.len(), i as int));
            all.push(i);
        }
        rules.insert(0, all);
        rules
    }

    /// The classes within this one where blank wires are removed: one class for each set of
    /// blank wires that some circuit has. It holds the circuits that can do without those
    /// wires, with the wires removed by `strip`.
    pub fn no_blank_eccs<F: Fn(&Circuit<H>, &Vec<bool>) -> Circuit<H>>(&self, strip: &F) -> (sets:
        Vec<RepCircSet<H>>)
        requires
            forall|circ: &Circuit<H>, blanks: &Vec<bool>|
                covers(circ.blank_wires@, blanks@) ==> #[trigger] call_requires(
                    *strip,
                    (circ, blanks),
                ),
        ensures
            sets@.len() == leaders(signatures(self@), self@.len()).len(),
            forall|s: int|
                0 <= s < sets@.len() ==> is_reduced_class(
                    self@,
                    leaders(signatures(self@), self@.len())[s],
                    *strip,
                    (#[trigger] sets@[s])@,
                ),
    {
        let firsts: Vec<usize> = self.first_places();
        let ghost sigs = signatures(self@);
        let ghost all = leaders(sigs, sigs.len());
        let mut sets: Vec<RepCircSet<H>> = Vec::new();
        for s in 0..firsts.len()
            invariant
                sigs == signatures(self@),
                all == leaders(sigs, sigs.len()),
                firsts@.len() == all.len(),
                forall|l: int| 0 <= l < all.len() ==> #[trigger] firsts@[l] == all[l],
                forall|circ: &Circuit<H>, blanks: &Vec<bool>|
                    covers(circ.blank_wires@, blanks@) ==> #[trigger] call_requires(
                        *strip,
                        (circ, blanks),
                    ),
                sets@.len() == s,
                forall|t: int|
                    0 <= t < s ==> is_reduced_class(self@, all[t], *strip, (#[trigger] sets@[t])@),
        {
            let k: usize = firsts[s];
            proof {
                lemma_leader(sigs, sigs.len(), s as int);
                lemma_leader_is_reducible(sigs, s as int);
            }
            let out = self.strip_all(k, &firsts, strip);
            sets.push(RepCircSet::from_circs(out));
        }
        sets
    }

    /// The first place of each set of blank wires that occurs.
    fn first_places(&self) -> (firsts: Vec<usize>)
        ensures
            firsts@.len() == leaders(signatures(self@), self@.len()).len(),
            forall|l: int|
                0 <= l < firsts@.len() ==> #[trigger] firsts@[l] == leaders(
                    signatures(self@),
                    self@.len(),
                )[l],
    {
        let circs: &Vec<Circuit<H>> = &self.all_circs;
        let ghost sigs = signatures(self@);
        let mut firsts: Vec<usize> = Vec::new();
        for i in 0..circs.len()
            invariant
                circs@ == self@,
                sigs == signatures(self@),
                firsts@.len() == leaders(sigs, i as nat).len(),
                forall|l: int|
                    0 <= l < firsts@.len() ==> #[trigger] firsts@[l] == leaders(sigs, i as nat)[l],
        {
            let mut known: bool = false;
            let mut j: usize = 0;
            while j < i && !known
                invariant
                    j <= i < circs@.len(),
                    circs@ == self@,
                    sigs == signatures(self@),
                    known == exists|l: int| 0 <= l < j && #[trigger] sigs[l] == sigs[i as int],
                decreases i - j,
            {
                known = same_wires(&circs[j].blank_wires, &circs[i].blank_wires);
                j = j + 1;
                assert(sigs[j - 1] == circs@[j - 1].blank_wires@);
            }
            assert(known == !is_leader(sigs, i as int));
            if !known {
                firsts.push(i);
            }
        }
        firsts
    }

    /// The circuits that can do without the blank wires of the one at `k`, with the wires
    /// removed.
    fn strip_all<F: Fn(&Circuit<H>, &Vec<bool>) -> Circuit<H>>(
        &self,
        k: usize,
        firsts: &Vec<usize>,
        strip: &F,
    ) -> (out: Vec<Circuit<H>>)
        requires
            k < self@.len(),
            firsts@.len() == leaders(signatures(self@), self@.len()).len(),
            forall|l: int|
                0 <= l < firsts@.len() ==> #[trigger] firsts@[l] == leaders(
                    signatures(self@),
                    self@.len(),
                )[l],
            forall|circ: &Circuit<H>, blanks: &Vec<bool>|
                covers(circ.blank_wires@, blanks@) ==> #[trigger] call_requires(
                    *strip,
                    (circ, blanks),
                ),
        ensures
            stripped(
                self@,
                k as int,
                all_reducible(signatures(self@), k as int),
                *strip,
                out@,
            ),
    {
        let circs: &Vec<Circuit<H>> = &self.all_circs;
        let ghost sigs = signatures(self@);
        let ghost all = leaders(sigs, sigs.len());
        let mut out: Vec<Circuit<H>> = Vec::new();
        for l in 0..firsts.len()
            invariant
                circs@ == self@,
                k < circs@.len(),
                sigs == signatures(self@),
                all == leaders(sigs, sigs.len()),
                firsts@.len() == all.len(),
                forall|l: int| 0 <= l < all.len() ==> #[trigger] firsts@[l] == all[l],
                forall|circ: &Circuit<H>, blanks: &Vec<bool>|
                    covers(circ.blank_wires@, blanks@) ==> #[trigger] call_requires(
                        *strip,
                        (circ, blanks),
                    ),
                stripped(self@, k as int, reducible(sigs, k as int, l as nat), *strip, out@),
        {
            let leader: usize = firsts[l];
            let ghost before = reducible(sigs, k as int, l as nat);
            proof {
                lemma_leader(sigs, sigs.len(), l as int);
                assert(before + alike(sigs, leader as int, 0) =~= before);
            }
            if wires_cover(&circs[leader].blank_wires, &circs[k].blank_wires) {
                for i in 0..circs.len()
                    invariant
                        circs@ == self@,
                        sigs == signatures(self@),
                        k < circs@.len(),
                        leader < circs@.len(),
                        covers(sigs[leader as int], sigs[k as int]),
                        forall|circ: &Circuit<H>, blanks: &Vec<bool>|
                            covers(circ.blank_wires@, blanks@) ==> #[trigger] call_requires(
                                *strip,
                                (circ, blanks),
                            ),
                        stripped(
                            self@,
                            k as int,
                            before + alike(sigs, leader as int, i as nat),
                            *strip,
                            out@,
                        ),
                {
                    let ghost places = before + alike(sigs, leader as int, i as nat);
                    if same_wires(&circs[i].blank_wires, &circs[leader].blank_wires) {
                        assert(sigs[i as int] == sigs[leader as int]);
                        let circ = strip(&circs[i], &circs[k].blank_wires);
                        assert(before + alike(sigs, leader as int, (i + 1) as nat) =~= places.push(
                            i as int,
                        ));
                        out.push(circ);
                    }
                }
            }
        }
        out
    }
}

/// A leader is a place where its blank wires occur first.
proof fn lemma_leader(sigs: Seq<Seq<bool>>, n: nat, s: int)
    requires
        0 <= s < leaders(sigs, n).len(),
    ensures
        0 <= leaders(sigs, n)[s] < n,
        is_leader(sigs, leaders(sigs, n)[s]),
    decreases n,
{
    if n > 0 && s < leaders(sigs, (n - 1) as nat).len() {
        lemma_leader(sigs, (n - 1) as nat, s);
    }
}

/// No two leaders have the same blank wires.
proof fn lemma_leaders_differ(sigs: Seq<Seq<bool>>, n: nat, s: int, t: int)
    requires
        0 <= s < t < leaders(sigs, n).len(),
    ensures
        sigs[leaders(sigs, n)[s]] != sigs[leaders(sigs, n)[t]],
    decreases n,
{
    if n > 0 {
        let before = leaders(sigs, (n - 1) as nat);
        if t < before.len() {
            lemma_leaders_differ(sigs, (n - 1) as nat, s, t);
        } else {
            lemma_leader(sigs, (n - 1) as nat, s);
        }
    }
}

/// Every circuit has the blank wires of a leader.
proof fn lemma_leader_of(sigs: Seq<Seq<bool>>, n: nat, i: int) -> (s: int)
    requires
        0 <= i < n,
    ensures
        0 <= s < leaders(sigs, n).len(),
        sigs[leaders(sigs, n)[s]] == sigs[i],
    decreases n, i,
{
    let before = leaders(sigs, (n - 1) as nat);
    if i < n - 1 {
        lemma_leader_of(sigs, (n - 1) as nat, i)
    } else if is_leader(sigs, i) {
        before.len() as int
    } else {
        let j = choose|j: int| 0 <= j < i && #[trigger] sigs[j] == sigs[i];
        lemma_leader_of(sigs, (n - 1) as nat, j)
    }
}

/// Which places `alike` holds.
proof fn lemma_alike(sigs: Seq<Seq<bool>>, k: int, n: nat)
    ensures
        forall|i: int| #[trigger]
            alike(sigs, k, n).contains(i) <==> 0 <= i < n && sigs[i] == sigs[k],
        alike(sigs, k, n).no_duplicates(),
    decreases n,
{
    if n > 0 {
        lemma_alike(sigs, k, (n - 1) as nat);
        let before = alike(sigs, k, (n - 1) as nat);
        let after = alike(sigs, k, n);
        if sigs[n - 1] == sigs[k] {
            assert(after[before.len() as int] == n - 1);
            assert forall|i: int| #[trigger]
                after.contains(i) <==> 0 <= i < n && sigs[i] == sigs[k] by {
                if before.contains(i) {
                    assert(after[before.index_of(i)] == i);
                }
                if after.contains(i) && i != n - 1 {
                    assert(before[after.index_of(i)] == i);
                }
            }
            assert forall|x: int, y: int|
                0 <= x < after.len() && 0 <= y < after.len() && x != y implies after[x]
                != after[y] by {
                if x < before.len() {
                    assert(before.contains(before[x]));
                }
                if y < before.len() {
                    assert(before.contains(before[y]));
                }
            }
        }
    }
}

/// Which places `reducible` holds.
proof fn lemma_reducible(sigs: Seq<Seq<bool>>, k: int, n: nat)
    requires
        n <= leaders(sigs, sigs.len()).len(),
    ensures
        forall|i: int| #[trigger]
            reducible(sigs, k, n).contains(i) <==> reducible_by(sigs, k, n, i),
        reducible(sigs, k, n).no_duplicates(),
    decreases n,
{
    if n > 0 {
        lemma_reducible(sigs, k, (n - 1) as nat);
        let all = leaders(sigs, sigs.len());
        let leader = all[n - 1];
        lemma_leader(sigs, sigs.len(), n - 1);
        lemma_alike(sigs, leader, sigs.len());
        let before = reducible(sigs, k, (n - 1) as nat);
        let group = alike(sigs, leader, sigs.len());
        let after = reducible(sigs, k, n);
        let taken = covers(sigs[leader], sigs[k]);
        assert forall|i: int| #[trigger] after.contains(i) <==> reducible_by(sigs, k, n, i) by {
            if reducible_by(sigs, k, (n - 1) as nat, i) {
                assert(before.contains(i));
                assert(after[before.index_of(i)] == i);
            }
            if taken && group.contains(i) {
                assert(after[before.len() + group.index_of(i)] == i);
                assert(sigs[all[n - 1]] == sigs[i]);
            }
            if after.contains(i) {
                let x = after.index_of(i);
                if x < before.len() {
                    assert(before[x] == i);
                    assert(before.contains(i));
                } else {
                    assert(group[x - before.len()] == i);
                    assert(group.contains(i));
                }
            }
            if reducible_by(sigs, k, n, i) && !reducible_by(sigs, k, (n - 1) as nat, i) {
                let s = choose|s: int| 0 <= s < n && #[trigger] sigs[all[s]] == sigs[i];
                assert(s == n - 1);
                assert(group.contains(i));
            }
        }
        if taken {
            assert forall|x: int, y: int| 0 <= x < y < after.len() implies after[x]
                != after[y] by {
                if x < before.len() && y >= before.len() {
                    assert(before.contains(before[x]));
                    assert(group.contains(group[y - before.len()]));
                    let s = choose|s: int| 0 <= s < n - 1 && #[trigger] sigs[all[s]] == sigs[before[x]];
                    lemma_leaders_differ(sigs, sigs.len(), s, n - 1);
                }
            }
        }
    }
}

/// The circuit at `i` can do without the blank wires of the one at `k`, and has the blank
/// wires of one of the first `n` leaders.
spec fn reducible_by(sigs: Seq<Seq<bool>>, k: int, n: nat, i: int) -> bool {
    &&& 0 <= i < sigs.len()
    &&& covers(sigs[i], sigs[k])
    &&& exists|s: int| 0 <= s < n && #[trigger] sigs[leaders(sigs, sigs.len())[s]] == sigs[i]
}

proof fn lemma_leader_is_reducible(sigs: Seq<Seq<bool>>, s: int)
    requires
        0 <= s < leaders(sigs, sigs.len()).len(),
    ensures
        all_reducible(sigs, leaders(sigs, sigs.len())[s]).len() > 0,
{
    let all = leaders(sigs, sigs.len());
    lemma_leader(sigs, sigs.len(), s);
    lemma_reducible(sigs, all[s], all.len());
    assert(sigs[all[s]] == sigs[all[s]]);
    assert(reducible_by(sigs, all[s], all.len(), all[s]));
    assert(all_reducible(sigs, all[s]).contains(all[s]));
}

/// Circuits with the same blank wires follow one another, in order.
proof fn lemma_groups_in_order(sigs: Seq<Seq<bool>>, k: int, n: nat)
    requires
        n <= leaders(sigs, sigs.len()).len(),
    ensures
        ({
            let places = reducible(sigs, k, n);
            &&& forall|x: int, y: int|
                0 <= x < y < places.len() && sigs[#[trigger] places[x]]
                    == sigs[#[trigger] places[y]] ==> places[x] < places[y]
            &&& forall|x: int, y: int, z: int|
                0 <= x < y < z < places.len() && sigs[#[trigger] places[x]]
                    == sigs[#[trigger] places[z]] ==> sigs[#[trigger] places[y]]
                    == sigs[places[x]]
        }),
    decreases n,
{
    if n > 0 {
        let m = (n - 1) as nat;
        let all = leaders(sigs, sigs.len());
        let leader = all[n - 1];
        let before = reducible(sigs, k, m);
        let group = alike(sigs, leader, sigs.len());
        let after = reducible(sigs, k, n);
        lemma_groups_in_order(sigs, k, m);
        lemma_reducible(sigs, k, m);
        lemma_alike(sigs, leader, sigs.len());
        lemma_alike_in_order(sigs, leader, sigs.len());
        assert forall|x: int| 0 <= x < before.len() implies sigs[#[trigger] before[x]]
            != sigs[leader] by {
            assert(before.contains(before[x]));
            let s = choose|s: int| 0 <= s < m && #[trigger] sigs[all[s]] == sigs[before[x]];
            lemma_leaders_differ(sigs, sigs.len(), s, n - 1);
        }
        assert forall|x: int| 0 <= x < group.len() implies sigs[#[trigger] group[x]]
            == sigs[leader] by {
            assert(group.contains(group[x]));
        }
        if covers(sigs[leader], sigs[k]) {
            assert forall|x: int| 0 <= x < after.len() implies (#[trigger] after[x]) == (if x
                < before.len() {
                before[x]
            } else {
                group[x - before.len()]
            }) by {}
        }
    }
}

/// The places in `alike` are in order.
proof fn lemma_alike_in_order(sigs: Seq<Seq<bool>>, k: int, n: nat)
    ensures
        forall|x: int, y: int|
            0 <= x < y < alike(sigs, k, n).len() ==> (#[trigger] alike(sigs, k, n)[x])
                < #[trigger] alike(sigs, k, n)[y],
    decreases n,
{
    if n > 0 {
        let before = alike(sigs, k, (n - 1) as nat);
        lemma_alike_in_order(sigs, k, (n - 1) as nat);
        lemma_alike(sigs, k, (n - 1) as nat);
        assert forall|x: int| 0 <= x < before.len() implies (#[trigger] before[x]) < n - 1 by {
            assert(before.contains(before[x]));
        }
    }
}

/// Whether two circuits have the same blank wires.
fn same_wires(a: &Vec<bool>, b: &Vec<bool>) -> (same: bool)
    ensures
        same == (a@ == b@),
{
    if a.len() != b.len() {
        return false;
    }
    for i in 0..a.len()
        invariant
            a@.len() == b@.len(),
            forall|j: int| 0 <= j < i ==> a@[j] == b@[j],
    {
        if a[i] != b[i] {
            return false;
        }
    }
    assert(a@ =~= b@);
    true
}

/// Whether every wire that is blank in `inner` is blank in `outer` too.
fn wires_cover(outer: &Vec<bool>, inner: &Vec<bool>) -> (cover: bool)
    ensures
        cover == covers(outer@, inner@),
{
    if outer.len() != inner.len() {
        return false;
    }
    for i in 0..inner.len()
        invariant
            outer@.len() == inner@.len(),
            forall|j: int| 0 <= j < i && #[trigger] inner@[j] ==> outer@[j],
    {
        if inner[i] && !outer[i] {
            return false;
        }
    }
    true
}

/// The classes of circuits that were loaded, each represented by its smallest circuit.
pub fn load_eccs<H>(classes: Vec<Vec<Circuit<H>>>) -> (eccs: Vec<RepCircSet<H>>)
    requires
        forall|c: int| 0 <= c < classes@.len() ==> (#[trigger] classes@[c])@.len() > 0,
    ensures
        eccs@.len() == classes@.len(),
        forall|c: int|
            0 <= c < eccs@.len() ==> (#[trigger] eccs@[c])@ == smallest_first(classes@[c]@),
{
    let mut eccs: Vec<RepCircSet<H>> = Vec::new();
    for circs in iter: classes
        invariant
            iter.seq() == classes@,
            forall|c: int| 0 <= c < classes@.len() ==> (#[trigger] classes@[c])@.len() > 0,
            eccs@.len() == iter.index(),
            forall|c: int|
                0 <= c < eccs@.len() ==> (#[trigger] eccs@[c])@ == smallest_first(classes@[c]@),
    {
        assert(classes@[iter.index() as int]@.len() > 0);
        eccs.push(RepCircSet::from_circs(circs));
    }
    eccs
}

/// How many classes the first `n` classes become when blank wires are removed.
pub open spec fn reduced_start<H>(eccs: Seq<RepCircSet<H>>, n: nat) -> nat
    decreases n,
{
    if n == 0 {
        0
    } else {
        reduced_start(eccs, (n - 1) as nat) + leaders(
            signatures(eccs[n - 1]@),
            eccs[n - 1]@.len(),
        ).len()
    }
}

/// The classes from `start` on are those that `ecc` becomes when blank wires are removed.
pub open spec fn are_reduced<H, F: Fn(&Circuit<H>, &Vec<bool>) -> Circuit<H>>(
    ecc: Seq<Circuit<H>>,
    strip: F,
    sets: Seq<RepCircSet<H>>,
    start: nat,
) -> bool {
    let all = leaders(signatures(ecc), ecc.len());
    &&& start + all.len() <= sets.len()
    &&& forall|s: int|
        0 <= s < all.len() ==> is_reduced_class(
            ecc,
            #[trigger] all[s],
            strip,
            sets[start + s]@,
        )
}

/// The classes within all classes where blank wires are removed, one class after the other.
pub fn remove_blanks<H, F: Fn(&Circuit<H>, &Vec<bool>) -> Circuit<H>>(
    eccs: &Vec<RepCircSet<H>>,
    strip: &F,
) -> (sets: Vec<RepCircSet<H>>)
    requires
        forall|circ: &Circuit<H>, blanks: &Vec<bool>|
            covers(circ.blank_wires@, blanks@) ==> #[trigger] call_requires(
                *strip,
                (circ, blanks),
            ),
    ensures
        sets@.len() == reduced_start(eccs@, eccs@.len()),
        forall|c: int|
            0 <= c < eccs@.len() ==> are_reduced(
                (#[trigger] eccs@[c])@,
                *strip,
                sets@,
                reduced_start(eccs@, c as nat),
            ),
{
    let mut sets: Vec<RepCircSet<H>> = Vec::new();
    for c in 0..eccs.len()
        invariant
            forall|circ: &Circuit<H>, blanks: &Vec<bool>|
                covers(circ.blank_wires@, blanks@) ==> #[trigger] call_requires(
                    *strip,
                    (circ, blanks),
                ),
            sets@.len() == reduced_start(eccs@, c as nat),
            forall|d: int|
                0 <= d < c ==> are_reduced(
                    (#[trigger] eccs@[d])@,
                    *strip,
                    sets@,
                    reduced_start(eccs@, d as nat),
                ),
    {
        let ghost before = sets@;
        let mut reduced: Vec<RepCircSet<H>> = eccs[c].no_blank_eccs(strip);
        let ghost added = reduced@;
        sets.append(&mut reduced);
        assert(sets@ =~= before + added);
        assert forall|d: int| 0 <= d < c + 1 implies are_reduced(
            (#[trigger] eccs@[d])@,
            *strip,
            sets@,
            reduced_start(eccs@, d as nat),
        ) by {
            let start = reduced_start(eccs@, d as nat);
            let ecc = eccs@[d]@;
            let all = leaders(signatures(ecc), ecc.len());
            if d < c {
                assert(are_reduced(ecc, *strip, before, start));
                assert forall|s: int| 0 <= s < all.len() implies is_reduced_class(
                    ecc,
                    #[trigger] all[s],
                    *strip,
                    sets@[start + s]@,
                ) by {
                    assert(is_reduced_class(ecc, all[s], *strip, before[start + s]@));
                }
            } else {
                assert forall|s: int| 0 <= s < all.len() implies is_reduced_class(
                    ecc,
                    #[trigger] all[s],
                    *strip,
                    sets@[start + s]@,
                ) by {
                    assert(sets@[start + s] == added[s]);
                }
            }
        }
    }
    sets
}

proof fn lemma_smallest<H>(circs: Seq<Circuit<H>>)
    requires
        circs.len() > 0,
    ensures
        0 <= smallest(circs) < circs.len(),
        forall|i: int|
            0 <= i < circs.len() ==> circs[smallest(circs)].node_count <= (
            #[trigger] circs[i]).node_count,
        forall|i: int|
            0 <= i < smallest(circs) ==> circs[smallest(circs)].node_count < (
            #[trigger] circs[i]).node_count,
    decreases circs.len(),
{
    if circs.len() > 1 {
        let before = circs.drop_last();
        lemma_smallest(before);
        assert forall|i: int| 0 <= i < circs.len() implies circs[smallest(circs)].node_count <= (
        #[trigger] circs[i]).node_count by {
            if i < circs.len() - 1 {
                assert(before[i] == circs[i]);
            }
        }
        assert forall|i: int| 0 <= i < smallest(circs) implies circs[smallest(circs)].node_count < (
        #[trigger] circs[i]).node_count by {
            assert(before[i] == circs[i]);
        }
    }
}

/// The representative of a class of circuits is the first one of the smallest of them. The
/// class holds the same circuits as before.
pub proof fn representative_is_smallest<H>(circs: Seq<Circuit<H>>)
    requires
        circs.len() > 0,
    ensures
        forall|i: int|
            0 <= i < circs.len() ==> smallest_first(circs)[0].node_count <= (
            #[trigger] smallest_first(circs)[i]).node_count,
        0 <= smallest(circs) < circs.len(),
        smallest_first(circs)[0] == circs[smallest(circs)],
        forall|i: int|
            0 <= i < smallest(circs) ==> circs[smallest(circs)].node_count < (
            #[trigger] circs[i]).node_count,
        smallest_first(circs).to_multiset() == circs.to_multiset(),
        smallest_first(circs).len() == circs.len(),
        smallest_first(circs)[smallest(circs)] == circs[0],
        forall|i: int|
            0 < i < circs.len() && i != smallest(circs) ==> #[trigger] smallest_first(circs)[i]
                == circs[i],
{
    lemma_smallest(circs);
    let m = smallest(circs);
    let mid = circs.update(0, circs[m]);
    vstd::seq_lib::to_multiset_update(circs, 0, circs[m]);
    vstd::seq_lib::to_multiset_update(mid, m, circs[0]);
    circs.to_multiset_ensures();
    mid.to_multiset_ensures();
    if m != 0 {
        assert(circs.to_multiset().count(circs[0]) > 0);
        assert(smallest_first(circs).to_multiset() =~= circs.to_multiset());
    } else {
        assert(smallest_first(circs) =~= circs);
    }
}

/// Rewrite rules go both ways, always have the representative at one end, and never lead from
/// a circuit to itself.
pub proof fn rewrite_rules_meet_the_representative(len: nat, i: usize, j: usize)
    requires
        i < len <= usize::MAX,
        j < len,
    ensures
        rewrite_targets(len, i as int).contains(j) <==> i != j && (i == 0 || j == 0),
        rewrite_targets(len, i as int).contains(j) <==> rewrite_targets(len, j as int).contains(i),
{
    lemma_rewrite_target(len, i, j);
    lemma_rewrite_target(len, j, i);
}

proof fn lemma_rewrite_target(len: nat, i: usize, j: usize)
    requires
        i < len <= usize::MAX,
        j < len,
    ensures
        rewrite_targets(len, i as int).contains(j) <==> i != j && (i == 0 || j == 0),
{
    let targets = rewrite_targets(len, i as int);
    if i == 0 {
        if j != 0 {
            assert(targets[j - 1] == j);
        } else if targets.contains(j) {
            let x = targets.index_of(j);
            assert(targets[x] == (x + 1) as usize);
        }
    } else {
        assert(targets[0] == 0);
    }
}

/// When blank wires are removed, each set of blank wires that some circuit has gets one class.
/// That class holds, once each, the circuits where all those wires are blank; so no wire that
/// an operation touches is ever removed.
pub proof fn only_blank_wires_are_removed(sigs: Seq<Seq<bool>>, i: int)
    requires
        0 <= i < sigs.len(),
    ensures
        exists|s: int|
            0 <= s < leaders(sigs, sigs.len()).len() && sigs[#[trigger] leaders(
                sigs,
                sigs.len(),
            )[s]] == sigs[i],
        forall|s: int, t: int|
            0 <= s < t < leaders(sigs, sigs.len()).len() ==> sigs[#[trigger] leaders(
                sigs,
                sigs.len(),
            )[s]] != sigs[#[trigger] leaders(sigs, sigs.len())[t]],
        forall|k: int|
            #![trigger all_reducible(sigs, k)]
            0 <= k < sigs.len() ==> {
                &&& all_reducible(sigs, k).contains(i) <==> sigs[i].len() == sigs[k].len()
                    && forall|w: int| 0 <= w < sigs[k].len() && #[trigger] sigs[k][w] ==> sigs[i][w]
                &&& all_reducible(sigs, k).no_duplicates()
            },
{
    let all = leaders(sigs, sigs.len());
    let s = lemma_leader_of(sigs, sigs.len(), i);
    assert(sigs[all[s]] == sigs[i]);
    assert forall|s: int, t: int| 0 <= s < t < all.len() implies sigs[#[trigger] all[s]]
        != sigs[#[trigger] all[t]] by {
        lemma_leaders_differ(sigs, sigs.len(), s, t);
    }
    assert forall|k: int| #![trigger all_reducible(sigs, k)] 0 <= k < sigs.len() implies {
        &&& all_reducible(sigs, k).contains(i) <==> sigs[i].len() == sigs[k].len() && forall|
            w: int,
        |
            0 <= w < sigs[k].len() && #[trigger] sigs[k][w] ==> sigs[i][w]
        &&& all_reducible(sigs, k).no_duplicates()
    } by {
        lemma_reducible(sigs, k, all.len());
        lemma_leader_of(sigs, sigs.len(), i);
    }
}

/// A class without the blank wires of the circuit at `k` holds what `strip` makes of each
/// circuit in which all those wires are blank, wire by wire, and of no other one: it takes
/// each of them once, and those wires and no others away from it. Circuits with the same blank
/// wires follow one another in order, but that the first one of the smallest has changed places
/// with the one that comes first.
pub proof fn circuits_keep_the_wires_they_need<H, F: Fn(&Circuit<H>, &Vec<bool>) -> Circuit<H>>(
    circs: Seq<Circuit<H>>,
    k: int,
    strip: F,
    set: Seq<Circuit<H>>,
) -> (taken: (Seq<int>, Seq<Circuit<H>>))
    requires
        0 <= k < circs.len(),
        is_reduced_class(circs, k, strip, set),
    ensures
        ({
            let (places, out) = taken;
            &&& forall|i: int| #[trigger]
                places.contains(i) <==> {
                    &&& 0 <= i < circs.len()
                    &&& circs[i].blank_wires@.len() == circs[k].blank_wires@.len()
                    &&& forall|w: int|
                        0 <= w < circs[k].blank_wires@.len()
                            && #[trigger] circs[k].blank_wires@[w] ==> circs[i].blank_wires@[w]
                }
            &&& places.no_duplicates()
            &&& out.len() == places.len()
            &&& forall|j: int|
                0 <= j < out.len() ==> call_ensures(
                    strip,
                    (&circs[places[j]], &circs[k].blank_wires),
                    #[trigger] out[j],
                )
            &&& forall|j: int, l: int|
                0 <= j < l < places.len() && circs[#[trigger] places[j]].blank_wires@
                    == circs[#[trigger] places[l]].blank_wires@ ==> places[j] < places[l]
            &&& forall|j: int, l: int, m: int|
                0 <= j < l < m < places.len() && circs[#[trigger] places[j]].blank_wires@
                    == circs[#[trigger] places[m]].blank_wires@
                    ==> circs[#[trigger] places[l]].blank_wires@ == circs[places[j]].blank_wires@
            &&& set.to_multiset() == out.to_multiset()
            &&& set.len() == out.len()
            &&& forall|j: int|
                0 <= j < set.len() ==> set[0].node_count <= (#[trigger] set[j]).node_count
            &&& exists|m: int|
                #![trigger out[m]]
                0 <= m < out.len() && set[0] == out[m] && set[m] == out[0] && (forall|j: int|
                    0 <= j < m ==> out[m].node_count < (#[trigger] out[j]).node_count) && (forall|
                    j: int,
                |
                    0 < j < out.len() && j != m ==> #[trigger] set[j] == out[j])
        }),
{
    let sigs = signatures(circs);
    let places = all_reducible(sigs, k);
    let out = choose|out: Seq<Circuit<H>>| #[trigger]
        stripped(circs, k, places, strip, out) && set == smallest_first(out);
    let all = leaders(sigs, sigs.len());
    lemma_reducible(sigs, k, all.len());
    assert(sigs[k] == circs[k].blank_wires@);
    assert forall|i: int| #[trigger] places.contains(i) <==> {
        &&& 0 <= i < circs.len()
        &&& circs[i].blank_wires@.len() == circs[k].blank_wires@.len()
        &&& forall|w: int|
            0 <= w < circs[k].blank_wires@.len() && #[trigger] circs[k].blank_wires@[w]
                ==> circs[i].blank_wires@[w]
    } by {
        if 0 <= i < circs.len() {
            assert(sigs[i] == circs[i].blank_wires@);
            let s = lemma_leader_of(sigs, sigs.len(), i);
            assert(sigs[all[s]] == sigs[i]);
        }
    }
    assert(places.contains(k));
    assert(out.len() > 0);
    representative_is_smallest(out);
    assert(set[0] == out[smallest(out)]);
    lemma_groups_in_order(sigs, k, all.len());
    assert forall|j: int| 0 <= j < places.len() implies 0 <= #[trigger] places[j] < circs.len()
        && sigs[places[j]] == circs[places[j]].blank_wires@ by {
        assert(places.contains(places[j]));
    }
    (places, out)
}

/// The blank wires of the classes that a class becomes: each set of blank wires that some
/// circuit has gets one class, and only one.
pub proof fn each_set_of_blank_wires_gets_one_class<H>(circs: Seq<Circuit<H>>)
    ensures
        ({
            let all = leaders(signatures(circs), circs.len());
            &&& forall|s: int| 0 <= s < all.len() ==> 0 <= #[trigger] all[s] < circs.len()
            &&& forall|i: int|
                #![trigger circs[i]]
                0 <= i < circs.len() ==> exists|s: int|
                    0 <= s < all.len() && circs[#[trigger] all[s]].blank_wires@
                        == circs[i].blank_wires@
            &&& forall|s: int, t: int|
                0 <= s < t < all.len() ==> circs[#[trigger] all[s]].blank_wires@
                    != circs[#[trigger] all[t]].blank_wires@
        }),
{
    let sigs = signatures(circs);
    let all = leaders(sigs, sigs.len());
    assert forall|s: int| 0 <= s < all.len() implies 0 <= #[trigger] all[s] < circs.len() && sigs[all[s]]
        == circs[all[s]].blank_wires@ by {
        lemma_leader(sigs, sigs.len(), s);
    }
    assert forall|i: int|
        #![trigger circs[i]]
        0 <= i < circs.len() implies exists|s: int|
        0 <= s < all.len() && circs[#[trigger] all[s]].blank_wires@ == circs[i].blank_wires@ by {
        let s = lemma_leader_of(sigs, sigs.len(), i);
        assert(sigs[all[s]] == circs[all[s]].blank_wires@);
    }
    assert forall|s: int, t: int| 0 <= s < t < all.len() implies circs[#[trigger] all[s]].blank_wires@
        != circs[#[trigger] all[t]].blank_wires@ by {
        lemma_leaders_differ(sigs, sigs.len(), s, t);
    }
}

/// When blank wires are removed from several classes, each one becomes what it would become
/// alone, and these follow one another without a gap.
pub proof fn blank_wires_are_removed_from_each_class<
    H,
    F: Fn(&Circuit<H>, &Vec<bool>) -> Circuit<H>,
>(eccs: Seq<RepCircSet<H>>, strip: F, sets: Seq<RepCircSet<H>>, c: int)
    requires
        0 <= c < eccs.len(),
    ensures
        reduced_start(eccs, 0) == 0,
        reduced_start(eccs, (c + 1) as nat) - reduced_start(eccs, c as nat) == leaders(
            signatures(eccs[c]@),
            eccs[c]@.len(),
        ).len(),
        are_reduced(eccs[c]@, strip, sets, reduced_start(eccs, c as nat)) ==> forall|s: int|
            0 <= s < leaders(signatures(eccs[c]@), eccs[c]@.len()).len() ==> {
                &&& reduced_start(eccs, c as nat) + s < sets.len()
                &&& is_reduced_class(
                    eccs[c]@,
                    #[trigger] leaders(signatures(eccs[c]@), eccs[c]@.len())[s],
                    strip,
                    sets[reduced_start(eccs, c as nat) + s]@,
                )
            },
{
}

} // verus!
