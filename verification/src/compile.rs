//! The table of rewrite rules that the classes of equivalent circuits give rise to.

use crate::rep_set::{rewrite_targets, Circuit, RepCircSet};
use std::collections::HashMap;
use vstd::prelude::*;

verus! {

broadcast use vstd::std_specs::hash::group_hash_axioms;

/// The directory of the compiled tables.
pub const DATA_DIR: &'static str = "data/compiled_tries";

/// By how much a rewrite of a search may make a circuit larger.
pub const TEMP: usize = 2;

/// The file that the compiled table of the given name is kept in.
pub fn path(name: &str) -> (path: String)
    ensures
        path@ == "data/compiled_tries"@ + "/"@ + name@ + ".json"@,
{
    let mut path = DATA_DIR.to_string();
    path.append("/");
    path.append(name);
    path.append(".json");
    path
}

/// A table of rewrite rules, as the contracts of `CompiledTrie` speak of it.
#[verifier::ext_equal]
pub struct TrieState<H> {
    /// For each pattern, the circuits that a match of it can be replaced by.
    pub rules: Map<usize, Seq<usize>>,
    /// All circuits.
    pub circs: Seq<Circuit<H>>,
    /// For each pattern, the circuit that it was made from.
    pub origin: Map<usize, usize>,
}

impl<H> TrieState<H> {
    /// Every pattern has rules and was made from a circuit, and rules lead to circuits.
    pub open spec fn wf(self) -> bool {
        &&& self.rules.dom() == self.origin.dom()
        &&& forall|p: usize| #[trigger]
            self.origin.contains_key(p) ==> self.origin[p] < self.circs.len()
        &&& forall|p: usize, j: int|
            self.rules.contains_key(p) && 0 <= j < self.rules[p].len() ==> (
            #[trigger] self.rules[p][j]) < self.circs.len()
    }
}

/// The rules of that pattern lead to circuits.
pub open spec fn targets_exist<H>(t: TrieState<H>, p: usize) -> bool {
    forall|j: int| 0 <= j < t.rules[p].len() ==> (#[trigger] t.rules[p][j]) < t.circs.len()
}

/// The rules of the circuit at place `from` of a class of `len` circuits, of which the first
/// is at place `base` among all circuits.
pub open spec fn class_rule(base: nat, len: nat, from: int) -> Seq<usize> {
    rewrite_targets(len, from).map_values(|to: usize| (base + to) as usize)
}

/// The table with the patterns of the first `n` circuits of a class put in. A circuit that is
/// not fit to be a pattern has none.
pub open spec fn patterns_added<H>(
    t: TrieState<H>,
    base: nat,
    len: nat,
    ids: Seq<Option<usize>>,
    n: nat,
) -> TrieState<H>
    decreases n,
{
    if n == 0 {
        t
    } else {
        let before = patterns_added(t, base, len, ids, (n - 1) as nat);
        match ids[n - 1] {
            Some(p) => TrieState {
                rules: before.rules.insert(p, class_rule(base, len, n - 1)),
                origin: before.origin.insert(p, (base + n - 1) as usize),
                ..before
            },
            None => before,
        }
    }
}

/// The table with a class of circuits put in, and the patterns that were made from them.
pub open spec fn class_added<H>(
    t: TrieState<H>,
    set: Seq<Circuit<H>>,
    ids: Seq<Option<usize>>,
) -> TrieState<H> {
    patterns_added(
        TrieState { circs: t.circs + set, ..t },
        t.circs.len(),
        set.len(),
        ids,
        set.len(),
    )
}

/// The table of no rules.
pub open spec fn no_rules<H>() -> TrieState<H> {
    TrieState { rules: Map::empty(), circs: Seq::empty(), origin: Map::empty() }
}

/// The table of the first `n` classes.
pub open spec fn compiled<H>(
    eccs: Seq<RepCircSet<H>>,
    ids: Seq<Vec<Option<usize>>>,
    n: nat,
) -> TrieState<H>
    decreases n,
{
    if n == 0 {
        no_rules()
    } else {
        class_added(compiled(eccs, ids, (n - 1) as nat), eccs[n - 1]@, ids[n - 1]@)
    }
}

/// The rules of a pattern that lead to circuits of at most the given size.
pub open spec fn small_enough<H>(targets: Seq<usize>, circs: Seq<Circuit<H>>, size: int) -> Seq<
    usize,
> {
    targets.filter(|to: usize| circs[to as int].node_count <= size)
}

/// The table with only the rules that make a circuit larger by at most `temp`.
pub open spec fn rewrites_filtered<H>(t: TrieState<H>, temp: usize) -> TrieState<H> {
    TrieState {
        rules: Map::new(
            |p: usize| t.rules.contains_key(p),
            |p: usize|
                small_enough(t.rules[p], t.circs, t.circs[t.origin[p] as int].node_count + temp),
        ),
        ..t
    }
}

/// A place in a circuit where a pattern was found.
pub struct PatternHit {
    /// The pattern.
    pub id: usize,
    /// The node of the circuit that the root of the pattern was found at.
    pub root: usize,
    /// The operation at the root of the pattern, if there is a primitive one.
    pub pattern_op: Option<String>,
    /// The operation at the node of the circuit, if there is a primitive one.
    pub host_op: Option<String>,
}

impl PatternHit {
    /// The operation at the root of a pattern is not part of the search for matches: where it
    /// is primitive, the circuit must have the same one there.
    pub open spec fn roots_agree(self) -> bool {
        match (self.pattern_op, self.host_op) {
            (Some(pattern), Some(host)) => pattern@ == host@,
            (Some(_), None) => false,
            (None, _) => true,
        }
    }
}

/// A replacement to try: at the given node, a match of one circuit by another one. Circuits
/// are given by their places in the table.
#[derive(Clone, Copy, PartialEq, Eq, Debug, Structural)]
pub struct Attempt {
    pub id: usize,
    pub root: usize,
    pub pattern: usize,
    pub replacement: usize,
}

/// The replacements to try for one match.
pub open spec fn hit_attempts<H>(t: TrieState<H>, hit: PatternHit) -> Seq<Attempt> {
    if hit.roots_agree() {
        t.rules[hit.id].map_values(
            |to: usize|
                Attempt {
                    id: hit.id,
                    root: hit.root,
                    pattern: t.origin[hit.id],
                    replacement: to,
                },
        )
    } else {
        Seq::empty()
    }
}

/// The replacements to try for the first `n` matches, in order.
pub open spec fn attempts_of<H>(t: TrieState<H>, hits: Seq<PatternHit>, n: nat) -> Seq<Attempt>
    decreases n,
{
    if n == 0 {
        Seq::empty()
    } else {
        attempts_of(t, hits, (n - 1) as nat) + hit_attempts(t, hits[n - 1])
    }
}

/// The rewrite rules, by pattern, and the circuits that they speak of.
pub struct CompiledTrie<H> {
    pub rewrite_rules: HashMap<usize, Vec<usize>>,
    pub all_circs: Vec<Circuit<H>>,
    pub pattern2circ: HashMap<usize, usize>,
}

impl<H> View for CompiledTrie<H> {
    type V = TrieState<H>;

    open spec fn view(&self) -> TrieState<H> {
        TrieState {
            rules: Map::new(
                |p: usize| self.rewrite_rules@.contains_key(p),
                |p: usize| self.rewrite_rules@[p]@,
            ),
            circs: self.all_circs@,
            origin: self.pattern2circ@,
        }
    }
}

impl<H> CompiledTrie<H> {
    /// A table of no rules.
    fn empty() -> (trie: Self)
        ensures
            trie@ == no_rules::<H>(),
    {
        let trie = CompiledTrie {
            rewrite_rules: HashMap::new(),
            all_circs: Vec::new(),
            pattern2circ: HashMap::new(),
        };
        assert(trie@ =~= no_rules::<H>());
        trie
    }

    /// Puts in a class of circuits, and the patterns that were made from them.
    fn add_class(&mut self, set: RepCircSet<H>, pattern_ids: &Vec<Option<usize>>)
        requires
            pattern_ids@.len() == set@.len(),
        ensures
            final(self)@ == class_added(old(self)@, set@, pattern_ids@),
            final(self)@.circs == old(self)@.circs + set@,
    {
        let ghost before = self@;
        let ghost base = before.circs.len();
        let ghost circs = set@;
        let len: usize = set.len();
        let rules = set.rewrite_rules();
        let mut circ_ids: Vec<usize> = Vec::new();
        for circ in iter: set.into_circuits()
            invariant
                iter.seq() == circs,
                before == old(self)@,
                base == before.circs.len(),
                circ_ids@.len() == iter.index(),
                self.all_circs@ == before.circs + circs.take(iter.index() as int),
                self.rewrite_rules == old(self).rewrite_rules,
                self.pattern2circ == old(self).pattern2circ,
                forall|i: int| 0 <= i < circ_ids@.len() ==> #[trigger] circ_ids@[i] == base + i,
        {
            circ_ids.push(self.all_circs.len());
            self.all_circs.push(circ);
            assert(self.all_circs@ =~= before.circs + circs.take(iter.index() as int + 1));
        }
        assert(circs.take(len as int) =~= circs);
        let ghost start = TrieState { circs: before.circs + circs, ..before };
        assert(self@ =~= start);
        for from in 0..len
            invariant
                len == circs.len(),
                pattern_ids@.len() == len,
                circ_ids@.len() == len,
                forall|i: int| 0 <= i < len ==> #[trigger] circ_ids@[i] == base + i,
                forall|i: usize| #[trigger] rules@.contains_key(i) <==> i < len,
                forall|i: usize|
                    i < len ==> (#[trigger] rules@[i])@ == rewrite_targets(len as nat, i as int),
                self@ == patterns_added(start, base, len as nat, pattern_ids@, from as nat),
                self@.circs == start.circs,
        {
            if let Some(p) = pattern_ids[from] {
                let tos: &Vec<usize> = rules.get(&from).unwrap();
                let mut all_tos: Vec<usize> = Vec::new();
                let ghost rule = class_rule(base, len as nat, from as int);
                for i in 0..tos.len()
                    invariant
                        len == circs.len(),
                        from < len,
                        circ_ids@.len() == len,
                        forall|i: int| 0 <= i < len ==> #[trigger] circ_ids@[i] == base + i,
                        tos@ == rewrite_targets(len as nat, from as int),
                        rule == class_rule(base, len as nat, from as int),
                        all_tos@ == rule.take(i as int),
                {
                    let to: usize = tos[i];
                    assert(to < len);
                    all_tos.push(circ_ids[to]);
                    assert(all_tos@ =~= rule.take(i + 1));
                }
                assert(all_tos@ =~= rule);
                self.rewrite_rules.insert(p, all_tos);
                self.pattern2circ.insert(p, circ_ids[from]);
            }
            assert(self@ =~= patterns_added(
                start,
                base,
                len as nat,
                pattern_ids@,
                (from + 1) as nat,
            ));
        }
    }
}

impl<H> CompiledTrie<H> {
    /// Only keeps a subset of the rewrite rules: those that are known not to apply are
    /// discarded. A circuit may be replaced by one that is larger by at most `temp`. This value
    /// is absolute: at a fixed tolerance of the search, a larger circuit will tolerate a larger
    /// `temp`.
    pub fn filter_rewrites(&mut self, temp: usize)
        requires
            old(self)@.wf(),
            forall|p: usize| #[trigger]
                old(self)@.origin.contains_key(p) ==> old(
                    self,
                )@.circs[old(self)@.origin[p] as int].node_count + temp <= usize::MAX,
        ensures
            final(self)@.wf(),
            final(self)@ == rewrites_filtered(old(self)@, temp),
            final(self)@.circs == old(self)@.circs,
            final(self)@.origin == old(self)@.origin,
            forall|p: usize| #[trigger]
                final(self)@.rules.contains_key(p) <==> old(self)@.rules.contains_key(p),
            forall|p: usize| #[trigger]
                old(self)@.rules.contains_key(p) ==> final(self)@.rules[p] == old(
                    self,
                )@.rules[p].filter(
                    |to: usize|
                        old(self)@.circs[to as int].node_count <= old(self)@.circs[old(
                            self,
                        )@.origin[p] as int].node_count + temp,
                ),
    {
        let patterns: Vec<usize> = self.patterns();
        let mut kept: HashMap<usize, Vec<usize>> = HashMap::new();
        for i in 0..patterns.len()
            invariant
                self@ == old(self)@,
                self@.wf(),
                forall|p: usize| #[trigger]
                    self@.origin.contains_key(p) ==> self@.circs[self@.origin[p] as int].node_count
                        + temp <= usize::MAX,
                forall|p: usize| #[trigger]
                    self@.rules.contains_key(p) <==> exists|j: int|
                        0 <= j < patterns@.len() && #[trigger] patterns@[j] == p,
                forall|p: usize| #[trigger]
                    kept@.contains_key(p) <==> exists|j: int|
                        0 <= j < i && #[trigger] patterns@[j] == p,
                forall|p: usize| #[trigger]
                    kept@.contains_key(p) ==> kept@[p]@ == small_enough(
                        self@.rules[p],
                        self@.circs,
                        self@.circs[self@.origin[p] as int].node_count + temp,
                    ),
        {
            let p: usize = patterns[i];
            assert(self@.rules.contains_key(p));
            assert(self@.origin.contains_key(p));
            let rep_id: usize = *self.pattern2circ.get(&p).unwrap();
            let size_rep: usize = self.all_circs[rep_id].node_count;
            let others: &Vec<usize> = self.rewrite_rules.get(&p).unwrap();
            assert forall|j: int| 0 <= j < others@.len() implies #[trigger] others@[j]
                < self@.circs.len() by {
                assert(self@.rules[p][j] == others@[j]);
            }
            kept.insert(p, self.targets_up_to(others, size_rep + temp));
        }
        self.rewrite_rules = kept;
        proof {
            let before = old(self)@;
            assert(self@ =~= rewrites_filtered(before, temp));
            assert(self@.rules.dom() =~= self@.origin.dom());
            assert forall|p: usize, j: int|
                self@.rules.contains_key(p) && 0 <= j < self@.rules[p].len() implies (
            #[trigger] self@.rules[p][j]) < self@.circs.len() by {
                let size = before.circs[before.origin[p] as int].node_count + temp;
                lemma_small_enough(before.rules[p], before.circs, size);
                assert(before.rules[p].contains(self@.rules[p][j]));
                let x = before.rules[p].index_of(self@.rules[p][j]);
                assert(before.rules[p][x] < before.circs.len());
            }
        }
    }

    /// Whether every pattern has rules and was made from a circuit, and rules lead to circuits.
    /// A table that comes from outside need not be so.
    pub fn is_consistent(&self) -> (consistent: bool)
        ensures
            consistent == self@.wf(),
            consistent <==> {
                &&& forall|p: usize| #[trigger]
                    self@.rules.contains_key(p) <==> self@.origin.contains_key(p)
                &&& forall|p: usize| #[trigger]
                    self@.origin.contains_key(p) ==> self@.origin[p] < self@.circs.len()
                &&& forall|p: usize, j: int|
                    self@.rules.contains_key(p) && 0 <= j < self@.rules[p].len() ==> (
                    #[trigger] self@.rules[p][j]) < self@.circs.len()
            },
    {
        proof {
            if forall|p: usize| #[trigger]
                self@.rules.contains_key(p) <==> self@.origin.contains_key(p) {
                assert(self@.rules.dom() =~= self@.origin.dom());
            }
            if self@.rules.dom() == self@.origin.dom() {
                assert forall|p: usize| #[trigger]
                    self@.rules.contains_key(p) <==> self@.origin.contains_key(p) by {
                    assert(self@.rules.dom().contains(p) <==> self@.origin.dom().contains(p));
                }
            }
        }
        let patterns: Vec<usize> = self.patterns();
        for i in 0..patterns.len()
            invariant
                forall|p: usize| #[trigger]
                    self@.rules.contains_key(p) <==> exists|j: int|
                        0 <= j < patterns@.len() && #[trigger] patterns@[j] == p,
                forall|j: int|
                    0 <= j < i ==> self@.origin.contains_key(#[trigger] patterns@[j])
                        && self@.origin[patterns@[j]] < self@.circs.len()
                        && targets_exist(self@, patterns@[j]),
        {
            let p: usize = patterns[i];
            assert(self@.rules.contains_key(p));
            match self.pattern2circ.get(&p) {
                Some(circ) if *circ < self.all_circs.len() => {},
                _ => {
                    assert(!self@.wf());
                    return false;
                },
            }
            let targets: &Vec<usize> = self.rewrite_rules.get(&p).unwrap();
            for j in 0..targets.len()
                invariant
                    self@.rules.contains_key(p),
                    targets@ == self@.rules[p],
                    forall|k: int| 0 <= k < j ==> #[trigger] targets@[k] < self@.circs.len(),
            {
                if targets[j] >= self.all_circs.len() {
                    assert(self@.rules[p][j as int] >= self@.circs.len());
                    return false;
                }
            }
            assert(targets_exist(self@, p));
        }
        proof {
            assert forall|p: usize| #[trigger] self@.rules.contains_key(p) implies {
                &&& self@.origin.contains_key(p)
                &&& self@.origin[p] < self@.circs.len()
                &&& targets_exist(self@, p)
            } by {
                let j = choose|j: int| 0 <= j < patterns@.len() && #[trigger] patterns@[j] == p;
                assert(self@.origin.contains_key(patterns@[j]));
            }
            assert(self@.rules.dom().subset_of(self@.origin.dom()));
            assert(self@.rules.dom() =~= self.rewrite_rules@.dom());
        }
        let same_len: bool = self.rewrite_rules.len() == self.pattern2circ.len();
        proof {
            if same_len {
                vstd::set_lib::lemma_subset_equality(self@.rules.dom(), self@.origin.dom());
            }
        }
        same_len
    }

    /// The replacements to try in a circuit, given the matches that were found in it.
    pub fn attempts(&self, hits: &Vec<PatternHit>) -> (attempts: Vec<Attempt>)
        requires
            self@.wf(),
            forall|h: int|
                0 <= h < hits@.len() ==> self@.rules.contains_key((#[trigger] hits@[h]).id),
        ensures
            attempts@ == attempts_of(self@, hits@, hits@.len()),
    {
        let mut attempts: Vec<Attempt> = Vec::new();
        for h in 0..hits.len()
            invariant
                self@.wf(),
                forall|h: int|
                    0 <= h < hits@.len() ==> self@.rules.contains_key((#[trigger] hits@[h]).id),
                attempts@ == attempts_of(self@, hits@, h as nat),
        {
            let hit: &PatternHit = &hits[h];
            let ghost before = attempts@;
            let ghost all = hit_attempts(self@, *hit);
            assert(self@.origin.contains_key(hit.id));
            let pattern: usize = *self.pattern2circ.get(&hit.id).unwrap();
            let agree: bool = match (&hit.pattern_op, &hit.host_op) {
                (Some(pattern), Some(host)) => *pattern == *host,
                (Some(_), None) => false,
                (None, _) => true,
            };
            if agree {
                let targets: &Vec<usize> = self.rewrite_rules.get(&hit.id).unwrap();
                for i in 0..targets.len()
                    invariant
                        hit.roots_agree(),
                        targets@ == self@.rules[hit.id],
                        pattern == self@.origin[hit.id],
                        all == hit_attempts(self@, *hit),
                        attempts@ == before + all.take(i as int),
                {
                    attempts.push(
                        Attempt { id: hit.id, root: hit.root, pattern, replacement: targets[i] },
                    );
                    assert(attempts@ =~= before + all.take(i + 1));
                }
                assert(all.take(all.len() as int) =~= all);
            }
            assert(attempts@ =~= before + all);
        }
        attempts
    }

    /// The patterns that have rules.
    fn patterns(&self) -> (patterns: Vec<usize>)
        ensures
            forall|p: usize| #[trigger]
                self@.rules.contains_key(p) <==> exists|j: int|
                    0 <= j < patterns@.len() && #[trigger] patterns@[j] == p,
    {
        let mut patterns: Vec<usize> = Vec::new();
        for p in iter: self.rewrite_rules.keys()
            invariant
                iter.seq().unref().to_set() == self.rewrite_rules@.dom(),
                patterns@.len() == iter.index(),
                forall|i: int|
                    0 <= i < patterns@.len() ==> #[trigger] patterns@[i] == *iter.seq()[i],
                iter.index() == iter.seq().len() ==> patterns@ =~= iter.seq().unref(),
                iter.index() == iter.seq().len() ==> patterns@.to_set()
                    == self.rewrite_rules@.dom(),
        {
            patterns.push(*p);
            assert(iter.index() + 1 == iter.seq().len() ==> patterns@ =~= iter.seq().unref());
        }
        assert forall|p: usize| #[trigger] self@.rules.contains_key(p) <==> exists|j: int|
            0 <= j < patterns@.len() && #[trigger] patterns@[j] == p by {
            assert(patterns@.to_set().contains(p) <==> patterns@.contains(p));
        }
        patterns
    }

    /// The rules of one pattern that lead to circuits of at most the given size.
    fn targets_up_to(&self, targets: &Vec<usize>, size: usize) -> (kept: Vec<usize>)
        requires
            forall|j: int| 0 <= j < targets@.len() ==> #[trigger] targets@[j] < self@.circs.len(),
        ensures
            kept@ == small_enough(targets@, self@.circs, size as int),
    {
        let ghost small = |to: usize| self@.circs[to as int].node_count <= size as int;
        let mut kept: Vec<usize> = Vec::new();
        for i in 0..targets.len()
            invariant
                forall|j: int|
                    0 <= j < targets@.len() ==> #[trigger] targets@[j] < self@.circs.len(),
                small == (|to: usize| self@.circs[to as int].node_count <= size as int),
                kept@ == targets@.take(i as int).filter(small),
        {
            let to: usize = targets[i];
            proof {
                reveal(Seq::filter);
                assert(targets@.take(i + 1).drop_last() == targets@.take(i as int));
            }
            if self.all_circs[to].node_count <= size {
                kept.push(to);
            }
        }
        assert(targets@.take(targets@.len() as int) == targets@);
        kept
    }
}

/// The rules that are kept are rules that were there, and they lead to circuits that are small
/// enough.
proof fn lemma_small_enough<H>(targets: Seq<usize>, circs: Seq<Circuit<H>>, size: int)
    ensures
        forall|i: int|
            0 <= i < small_enough(targets, circs, size).len() ==> {
                &&& targets.contains(#[trigger] small_enough(targets, circs, size)[i])
                &&& circs[small_enough(targets, circs, size)[i] as int].node_count <= size
            },
    decreases targets.len(),
{
    reveal(Seq::filter);
    if targets.len() > 0 {
        let before = targets.drop_last();
        lemma_small_enough(before, circs, size);
        let kept = small_enough(targets, circs, size);
        assert forall|i: int| 0 <= i < kept.len() implies {
            &&& targets.contains(#[trigger] kept[i])
            &&& circs[kept[i] as int].node_count <= size
        } by {
            let kept_before = small_enough(before, circs, size);
            if i < kept_before.len() {
                assert(kept[i] == kept_before[i]);
                let x = before.index_of(kept[i]);
                assert(targets[x] == kept[i]);
            } else {
                assert(targets[targets.len() - 1] == kept[i]);
            }
        }
    }
}

/// The rewrite rules of the given classes. For each circuit of each class, `pattern_ids` gives
/// the pattern that was made from it, if it is fit to be one.
pub fn compile_eccs<H>(eccs: Vec<RepCircSet<H>>, pattern_ids: &Vec<Vec<Option<usize>>>) -> (trie:
    CompiledTrie<H>)
    requires
        pattern_ids@.len() == eccs@.len(),
        forall|c: int|
            0 <= c < eccs@.len() ==> (#[trigger] pattern_ids@[c])@.len() == eccs@[c]@.len(),
    ensures
        trie@ == compiled(eccs@, pattern_ids@, eccs@.len()),
        trie@.wf(),
{
    let mut trie = CompiledTrie::empty();
    let n: usize = pattern_ids.len();
    let mut c: usize = 0;
    for set in iter: eccs
        invariant
            iter.seq() == eccs@,
            c == iter.index(),
            n == pattern_ids@.len(),
            n == eccs@.len(),
            forall|c: int|
                0 <= c < eccs@.len() ==> (#[trigger] pattern_ids@[c])@.len() == eccs@[c]@.len(),
            trie@ == compiled(eccs@, pattern_ids@, c as nat),
            trie@.wf(),
    {
        let ghost before = trie@;
        let ghost circs = set@;
        trie.add_class(set, &pattern_ids[c]);
        proof {
            assert(trie.all_circs.len() <= usize::MAX);
            lemma_class_added(before, circs, pattern_ids@[c as int]@);
        }
        c = c + 1;
    }
    trie
}

/// What a class of circuits adds: rules between its own circuits, with the representative at
/// one end. Other patterns keep their rules.
proof fn lemma_patterns_added<H>(
    t: TrieState<H>,
    base: nat,
    len: nat,
    ids: Seq<Option<usize>>,
    n: nat,
)
    requires
        n <= len,
        base + len <= t.circs.len() <= usize::MAX,
    ensures
        patterns_added(t, base, len, ids, n).circs == t.circs,
        t.wf() ==> patterns_added(t, base, len, ids, n).wf(),
        forall|p: usize| #[trigger]
            patterns_added(t, base, len, ids, n).rules.contains_key(p) ==> {
                let u = patterns_added(t, base, len, ids, n);
                ||| in_class(u, p, base, len)
                ||| t.rules.contains_key(p) && u.rules[p] == t.rules[p] && u.origin[p]
                    == t.origin[p]
            },
    decreases n,
{
    if n > 0 {
        lemma_patterns_added(t, base, len, ids, (n - 1) as nat);
        let before = patterns_added(t, base, len, ids, (n - 1) as nat);
        let after = patterns_added(t, base, len, ids, n);
        if let Some(q) = ids[n - 1] {
            let targets = rewrite_targets(len, n - 1);
            assert forall|j: int| 0 <= j < after.rules[q].len() implies {
                &&& base <= #[trigger] after.rules[q][j] < base + len
                &&& after.rules[q][j] != after.origin[q]
                &&& after.origin[q] == base || after.rules[q][j] == base
            } by {
                assert(after.rules[q][j] == base + targets[j]);
            }
            assert(in_class(after, q, base, len));
            assert forall|p: usize| #[trigger] after.rules.contains_key(p) implies {
                ||| in_class(after, p, base, len)
                ||| t.rules.contains_key(p) && after.rules[p] == t.rules[p] && after.origin[p]
                    == t.origin[p]
            } by {
                if p != q {
                    assert(before.rules.contains_key(p));
                    if in_class(before, p, base, len) {
                        assert forall|j: int| 0 <= j < after.rules[p].len() implies {
                            &&& base <= #[trigger] after.rules[p][j] < base + len
                            &&& after.rules[p][j] != after.origin[p]
                            &&& after.origin[p] == base || after.rules[p][j] == base
                        } by {
                            assert(base <= before.rules[p][j] < base + len);
                        }
                    }
                }
            }
            if t.wf() {
                assert(after.rules.dom() =~= after.origin.dom());
                assert forall|p: usize, j: int|
                    after.rules.contains_key(p) && 0 <= j < after.rules[p].len() implies (
                #[trigger] after.rules[p][j]) < after.circs.len() by {
                    if p != q {
                        assert(before.rules[p][j] < before.circs.len());
                    }
                }
            }
        }
    }
}

/// The pattern was made from one of the `len` circuits at `base`, its rules lead to others of
/// them, and the first one is at one end of each rule.
pub open spec fn in_class<H>(t: TrieState<H>, p: usize, base: nat, len: nat) -> bool {
    &&& base <= t.origin[p] < base + len
    &&& forall|j: int|
        0 <= j < t.rules[p].len() ==> {
            &&& base <= #[trigger] t.rules[p][j] < base + len
            &&& t.rules[p][j] != t.origin[p]
            &&& t.origin[p] == base || t.rules[p][j] == base
        }
}

proof fn lemma_class_added<H>(t: TrieState<H>, set: Seq<Circuit<H>>, ids: Seq<Option<usize>>)
    requires
        t.circs.len() + set.len() <= usize::MAX,
    ensures
        class_added(t, set, ids).circs == t.circs + set,
        t.wf() ==> class_added(t, set, ids).wf(),
        forall|p: usize| #[trigger]
            class_added(t, set, ids).rules.contains_key(p) ==> {
                let u = class_added(t, set, ids);
                ||| in_class(u, p, t.circs.len(), set.len())
                ||| t.rules.contains_key(p) && u.rules[p] == t.rules[p] && u.origin[p]
                    == t.origin[p]
            },
{
    let start = TrieState { circs: t.circs + set, ..t };
    lemma_patterns_added(start, t.circs.len(), set.len(), ids, set.len());
    if t.wf() {
        assert forall|p: usize, j: int|
            start.rules.contains_key(p) && 0 <= j < start.rules[p].len() implies (
        #[trigger] start.rules[p][j]) < start.circs.len() by {
            assert(t.rules[p][j] < t.circs.len());
        }
    }
}

/// The number of circuits of the first `n` classes.
pub open spec fn class_start<H>(eccs: Seq<RepCircSet<H>>, n: nat) -> nat
    decreases n,
{
    if n == 0 {
        0
    } else {
        class_start(eccs, (n - 1) as nat) + eccs[n - 1]@.len()
    }
}

/// A rewrite rule never leaves the class of its pattern, and the representative of the class
/// is at one end of it.
pub proof fn rewrites_stay_within_a_class<H>(
    eccs: Seq<RepCircSet<H>>,
    ids: Seq<Vec<Option<usize>>>,
    n: nat,
    p: usize,
)
    requires
        n <= eccs.len(),
        class_start(eccs, n) <= usize::MAX,
        compiled(eccs, ids, n).rules.contains_key(p),
    ensures
        exists|c: nat|
            c < n && #[trigger] in_class(
                compiled(eccs, ids, n),
                p,
                class_start(eccs, c),
                eccs[c as int]@.len(),
            ),
    decreases n,
{
    let m = (n - 1) as nat;
    let before = compiled(eccs, ids, m);
    let after = compiled(eccs, ids, n);
    compiled_tables_hold_all_circuits(eccs, ids, m);
    lemma_class_added(before, eccs[m as int]@, ids[m as int]@);
    if !in_class(after, p, class_start(eccs, m), eccs[m as int]@.len()) {
        rewrites_stay_within_a_class(eccs, ids, m, p);
        let c = choose|c: nat|
            c < m && #[trigger] in_class(before, p, class_start(eccs, c), eccs[c as int]@.len());
        assert forall|j: int| 0 <= j < after.rules[p].len() implies {
            &&& class_start(eccs, c) <= #[trigger] after.rules[p][j] < class_start(eccs, c)
                + eccs[c as int]@.len()
            &&& after.rules[p][j] != after.origin[p]
            &&& after.origin[p] == class_start(eccs, c) || after.rules[p][j] == class_start(eccs, c)
        } by {
            assert(class_start(eccs, c) <= before.rules[p][j]);
        }
        assert(in_class(after, p, class_start(eccs, c), eccs[c as int]@.len()));
    }
}

/// The table holds the circuits of all classes, class by class, and is well formed.
pub proof fn compiled_tables_hold_all_circuits<H>(
    eccs: Seq<RepCircSet<H>>,
    ids: Seq<Vec<Option<usize>>>,
    n: nat,
)
    requires
        n <= eccs.len(),
        class_start(eccs, n) <= usize::MAX,
    ensures
        compiled(eccs, ids, n).wf(),
        compiled(eccs, ids, n).circs.len() == class_start(eccs, n),
        forall|c: int|
            0 <= c < n ==> class_at(
                compiled(eccs, ids, n).circs,
                class_start(eccs, c as nat),
                (#[trigger] eccs[c])@,
            ),
    decreases n,
{
    if n > 0 {
        let m = (n - 1) as nat;
        compiled_tables_hold_all_circuits(eccs, ids, m);
        let before = compiled(eccs, ids, m);
        let after = compiled(eccs, ids, n);
        lemma_class_added(before, eccs[m as int]@, ids[m as int]@);
        assert forall|c: int| 0 <= c < n implies class_at(
            after.circs,
            class_start(eccs, c as nat),
            (#[trigger] eccs[c])@,
        ) by {
            let start = class_start(eccs, c as nat);
            let end = (start + eccs[c]@.len()) as int;
            if c < m {
                assert(class_at(before.circs, start, eccs[c]@));
                assert(after.circs.subrange(start as int, end) =~= before.circs.subrange(
                    start as int,
                    end,
                ));
            } else {
                assert(after.circs.subrange(start as int, end) =~= eccs[c]@);
            }
        }
    }
}

/// The circuits of the class are at `start`, in order.
pub open spec fn class_at<H>(circs: Seq<Circuit<H>>, start: nat, set: Seq<Circuit<H>>) -> bool {
    &&& start + set.len() <= circs.len()
    &&& circs.subrange(start as int, (start + set.len()) as int) == set
}

/// No two circuits of the first `n` classes have the same pattern.
pub open spec fn are_distinct<H>(
    eccs: Seq<RepCircSet<H>>,
    ids: Seq<Vec<Option<usize>>>,
    n: nat,
) -> bool {
    forall|c: int, i: int, d: int, j: int|
        #![trigger ids[c]@[i], ids[d]@[j]]
        0 <= c < n && 0 <= i < eccs[c]@.len() && 0 <= d < n && 0 <= j < eccs[d]@.len()
            && ids[c]@[i] is Some && ids[c]@[i] == ids[d]@[j] ==> c == d && i == j
}

/// Where no two circuits have the same pattern, the pattern of each circuit has exactly the
/// rules of the circuit in its class, and leads back to the circuit.
pub proof fn distinct_patterns_keep_their_rules<H>(
    eccs: Seq<RepCircSet<H>>,
    ids: Seq<Vec<Option<usize>>>,
    n: nat,
    c: int,
    i: int,
)
    requires
        0 <= c < n <= eccs.len(),
        class_start(eccs, n) <= usize::MAX,
        are_distinct(eccs, ids, n),
        0 <= i < eccs[c]@.len(),
        ids[c]@[i] is Some,
    ensures
        ({
            let t = compiled(eccs, ids, n);
            let p = ids[c]@[i]->0;
            &&& t.rules.contains_key(p)
            &&& t.rules[p] == class_rule(class_start(eccs, c as nat), eccs[c]@.len(), i)
            &&& t.origin[p] == class_start(eccs, c as nat) + i
        }),
    decreases n,
{
    let m = (n - 1) as nat;
    let p = ids[c]@[i]->0;
    let before = compiled(eccs, ids, m);
    let set = eccs[m as int]@;
    let start = TrieState { circs: before.circs + set, ..before };
    compiled_tables_hold_all_circuits(eccs, ids, m);
    if c < m {
        distinct_patterns_keep_their_rules(eccs, ids, m, c, i);
        assert forall|j: int| 0 <= j < set.len() implies #[trigger] ids[m as int]@[j] != Some(p) by {
            assert(ids[c]@[i] == Some(p));
        }
        lemma_other_pattern(start, before.circs.len(), set.len(), ids[m as int]@, set.len(), p);
    } else {
        lemma_own_pattern(start, before.circs.len(), set.len(), ids[m as int]@, set.len(), i);
    }
}

/// A pattern that no circuit of a class has keeps its rules.
proof fn lemma_other_pattern<H>(
    t: TrieState<H>,
    base: nat,
    len: nat,
    ids: Seq<Option<usize>>,
    n: nat,
    p: usize,
)
    requires
        forall|j: int| 0 <= j < n ==> #[trigger] ids[j] != Some(p),
    ensures
        ({
            let u = patterns_added(t, base, len, ids, n);
            &&& u.rules.contains_key(p) == t.rules.contains_key(p)
            &&& u.rules[p] == t.rules[p]
            &&& u.origin[p] == t.origin[p]
        }),
    decreases n,
{
    if n > 0 {
        assert(ids[n - 1] != Some(p));
        lemma_other_pattern(t, base, len, ids, (n - 1) as nat, p);
    }
}

/// A pattern that one circuit of a class has gets the rules of that circuit.
proof fn lemma_own_pattern<H>(
    t: TrieState<H>,
    base: nat,
    len: nat,
    ids: Seq<Option<usize>>,
    n: nat,
    i: int,
)
    requires
        0 <= i < n,
        base + n <= usize::MAX,
        ids[i] is Some,
        forall|j: int| i < j < n ==> #[trigger] ids[j] != ids[i],
    ensures
        ({
            let u = patterns_added(t, base, len, ids, n);
            let p = ids[i]->0;
            &&& u.rules.contains_key(p)
            &&& u.rules[p] == class_rule(base, len, i)
            &&& u.origin[p] == base + i
        }),
    decreases n,
{
    if i < n - 1 {
        assert(ids[n - 1] != ids[i]);
        lemma_own_pattern(t, base, len, ids, (n - 1) as nat, i);
    }
}

/// Which rules a filter keeps: those that make the circuit larger by at most `temp`.
pub proof fn filter_keeps_the_rules_in_bounds<H>(t: TrieState<H>, temp: usize, p: usize, to: usize)
    requires
        t.wf(),
        t.rules.contains_key(p),
    ensures
        rewrites_filtered(t, temp).rules[p].contains(to) <==> {
            &&& t.rules[p].contains(to)
            &&& t.circs[to as int].node_count <= t.circs[t.origin[p] as int].node_count + temp
        },
{
    let size = t.circs[t.origin[p] as int].node_count + temp;
    let small = |to: usize| t.circs[to as int].node_count <= size;
    lemma_small_enough(t.rules[p], t.circs, size);
    let kept = small_enough(t.rules[p], t.circs, size);
    if kept.contains(to) {
        let x = kept.index_of(to);
        assert(t.rules[p].contains(kept[x]));
    }
    if t.rules[p].contains(to) && small(to) {
        let x = t.rules[p].index_of(to);
        t.rules[p].lemma_filter_contains(small, x);
    }
}

/// A filter undoes no stricter one, and to filter by a stricter bound makes a laxer one before
/// it idle; to filter twice is to filter once.
pub proof fn stricter_filters_absorb_laxer_ones<H>(t: TrieState<H>, strict: usize, lax: usize)
    requires
        strict <= lax,
    ensures
        rewrites_filtered(rewrites_filtered(t, lax), strict) == rewrites_filtered(t, strict),
        rewrites_filtered(rewrites_filtered(t, strict), lax) == rewrites_filtered(t, strict),
{
    let a = rewrites_filtered(rewrites_filtered(t, lax), strict);
    let b = rewrites_filtered(rewrites_filtered(t, strict), lax);
    let c = rewrites_filtered(t, strict);
    assert forall|p: usize| t.rules.contains_key(p) implies #[trigger] a.rules[p] == c.rules[p]
        && b.rules[p] == c.rules[p] by {
        let size = t.circs[t.origin[p] as int].node_count;
        lemma_filter_twice(t.rules[p], t.circs, size + strict, size + lax);
    }
    assert(a =~= c);
    assert(b =~= c);
}

proof fn lemma_filter_twice<H>(
    targets: Seq<usize>,
    circs: Seq<Circuit<H>>,
    strict: int,
    lax: int,
)
    requires
        strict <= lax,
    ensures
        small_enough(small_enough(targets, circs, lax), circs, strict) == small_enough(
            targets,
            circs,
            strict,
        ),
        small_enough(small_enough(targets, circs, strict), circs, lax) == small_enough(
            targets,
            circs,
            strict,
        ),
    decreases targets.len(),
{
    reveal(Seq::filter);
    if targets.len() > 0 {
        lemma_filter_twice(targets.drop_last(), circs, strict, lax);
        let lax_before = small_enough(targets.drop_last(), circs, lax);
        let strict_before = small_enough(targets.drop_last(), circs, strict);
        assert(lax_before.push(targets.last()).drop_last() =~= lax_before);
        assert(strict_before.push(targets.last()).drop_last() =~= strict_before);
    }
}

/// The table of the classes has the patterns of their circuits and no others. A pattern speaks
/// of the last circuit that it was made from: if that is the representative of its class, the
/// pattern can be replaced by each of the others, in order, and if not, by the representative.
pub proof fn patterns_have_the_rules_of_their_circuits<H>(
    eccs: Seq<RepCircSet<H>>,
    ids: Seq<Vec<Option<usize>>>,
    n: nat,
    p: usize,
)
    requires
        n <= eccs.len(),
        class_start(eccs, n) <= usize::MAX,
    ensures
        compiled(eccs, ids, n).rules.contains_key(p) <==> exists|c: int, i: int|
            0 <= c < n && 0 <= i < eccs[c]@.len() && #[trigger] ids[c]@[i] == Some(p),
        compiled(eccs, ids, n).origin.contains_key(p) <==> exists|c: int, i: int|
            0 <= c < n && 0 <= i < eccs[c]@.len() && #[trigger] ids[c]@[i] == Some(p),
        forall|c: int, i: int|
            #![trigger ids[c]@[i]]
            0 <= c < n && 0 <= i < eccs[c]@.len() && ids[c]@[i] == Some(p) && (forall|
                d: int,
                j: int,
            |
                c <= d < n && 0 <= j < eccs[d]@.len() && (c < d || i < j) ==> #[trigger] ids[d]@[j]
                    != Some(p)) ==> {
                let rules = compiled(eccs, ids, n).rules[p];
                let start = class_start(eccs, c as nat);
                &&& compiled(eccs, ids, n).origin[p] == start + i
                &&& i == 0 ==> rules.len() == eccs[c]@.len() - 1 && forall|j: int|
                    0 <= j < rules.len() ==> #[trigger] rules[j] == start + 1 + j
                &&& i != 0 ==> rules.len() == 1 && rules[0] == start
            },
{
    lemma_patterns_there(eccs, ids, n, p);
    assert forall|c: int, i: int|
        #![trigger ids[c]@[i]]
        0 <= c < n && 0 <= i < eccs[c]@.len() && ids[c]@[i] == Some(p) && (forall|d: int, j: int|
            c <= d < n && 0 <= j < eccs[d]@.len() && (c < d || i < j) ==> #[trigger] ids[d]@[j]
                != Some(p)) implies {
        let rules = compiled(eccs, ids, n).rules[p];
        let start = class_start(eccs, c as nat);
        &&& compiled(eccs, ids, n).origin[p] == start + i
        &&& i == 0 ==> rules.len() == eccs[c]@.len() - 1 && forall|j: int|
            0 <= j < rules.len() ==> #[trigger] rules[j] == start + 1 + j
        &&& i != 0 ==> rules.len() == 1 && rules[0] == start
    } by {
        lemma_last_pattern(eccs, ids, n, c, i, p);
        lemma_class_rule(eccs, n, c, i);
    }
}

/// The rules of a circuit in its class.
proof fn lemma_class_rule<H>(eccs: Seq<RepCircSet<H>>, n: nat, c: int, i: int)
    requires
        0 <= c < n <= eccs.len(),
        class_start(eccs, n) <= usize::MAX,
        0 <= i < eccs[c]@.len(),
    ensures
        ({
            let start = class_start(eccs, c as nat);
            let rules = class_rule(start, eccs[c]@.len(), i);
            &&& i == 0 ==> rules.len() == eccs[c]@.len() - 1 && forall|j: int|
                0 <= j < rules.len() ==> #[trigger] rules[j] == start + 1 + j
            &&& i != 0 ==> rules.len() == 1 && rules[0] == start
        }),
    decreases n,
{
    if c < n - 1 {
        lemma_class_rule(eccs, (n - 1) as nat, c, i);
    }
}

/// The last circuit of a pattern gives it its rules.
proof fn lemma_last_pattern<H>(
    eccs: Seq<RepCircSet<H>>,
    ids: Seq<Vec<Option<usize>>>,
    n: nat,
    c: int,
    i: int,
    p: usize,
)
    requires
        0 <= c < n <= eccs.len(),
        class_start(eccs, n) <= usize::MAX,
        0 <= i < eccs[c]@.len(),
        ids[c]@[i] == Some(p),
        forall|d: int, j: int|
            c <= d < n && 0 <= j < eccs[d]@.len() && (c < d || i < j) ==> #[trigger] ids[d]@[j]
                != Some(p),
    ensures
        ({
            let t = compiled(eccs, ids, n);
            &&& t.rules[p] == class_rule(class_start(eccs, c as nat), eccs[c]@.len(), i)
            &&& t.origin[p] == class_start(eccs, c as nat) + i
        }),
    decreases n,
{
    let m = (n - 1) as nat;
    let before = compiled(eccs, ids, m);
    let set = eccs[m as int]@;
    let last = ids[m as int]@;
    let start = TrieState { circs: before.circs + set, ..before };
    compiled_tables_hold_all_circuits(eccs, ids, m);
    if c < m {
        lemma_last_pattern(eccs, ids, m, c, i, p);
        assert forall|j: int| 0 <= j < set.len() implies #[trigger] last[j] != Some(p) by {
            assert(ids[m as int]@[j] != Some(p));
        }
        lemma_other_pattern(start, before.circs.len(), set.len(), last, set.len(), p);
    } else {
        assert forall|j: int| i < j < set.len() implies #[trigger] last[j] != last[i] by {
            assert(ids[m as int]@[j] != Some(p));
        }
        lemma_own_pattern(start, before.circs.len(), set.len(), last, set.len(), i);
    }
}

/// Which patterns a table has.
proof fn lemma_patterns_there<H>(
    eccs: Seq<RepCircSet<H>>,
    ids: Seq<Vec<Option<usize>>>,
    n: nat,
    p: usize,
)
    requires
        n <= eccs.len(),
    ensures
        compiled(eccs, ids, n).rules.contains_key(p) <==> exists|c: int, i: int|
            0 <= c < n && 0 <= i < eccs[c]@.len() && #[trigger] ids[c]@[i] == Some(p),
        compiled(eccs, ids, n).origin.contains_key(p) <==> exists|c: int, i: int|
            0 <= c < n && 0 <= i < eccs[c]@.len() && #[trigger] ids[c]@[i] == Some(p),
    decreases n,
{
    if n > 0 {
        let m = (n - 1) as nat;
        let before = compiled(eccs, ids, m);
        let set = eccs[m as int]@;
        let last = ids[m as int]@;
        let start = TrieState { circs: before.circs + set, ..before };
        lemma_patterns_there(eccs, ids, m, p);
        lemma_pattern_there(start, before.circs.len(), set.len(), last, set.len(), p);
        let there = exists|c: int, i: int|
            0 <= c < n && 0 <= i < eccs[c]@.len() && #[trigger] ids[c]@[i] == Some(p);
        let there_before = exists|c: int, i: int|
            0 <= c < m && 0 <= i < eccs[c]@.len() && #[trigger] ids[c]@[i] == Some(p);
        let added = exists|j: int| 0 <= j < set.len() && #[trigger] last[j] == Some(p);
        if added {
            let j = choose|j: int| 0 <= j < set.len() && #[trigger] last[j] == Some(p);
            assert(ids[m as int]@[j] == Some(p));
        }
        if there {
            let (c, i) = choose|c: int, i: int|
                0 <= c < n && 0 <= i < eccs[c]@.len() && #[trigger] ids[c]@[i] == Some(p);
            if c == m {
                assert(last[i] == Some(p));
            } else {
                assert(ids[c]@[i] == Some(p));
            }
        }
        assert(there <==> there_before || added);
    }
}

/// Which patterns a class adds.
proof fn lemma_pattern_there<H>(
    t: TrieState<H>,
    base: nat,
    len: nat,
    ids: Seq<Option<usize>>,
    n: nat,
    p: usize,
)
    ensures
        patterns_added(t, base, len, ids, n).rules.contains_key(p) <==> t.rules.contains_key(p)
            || exists|j: int| 0 <= j < n && #[trigger] ids[j] == Some(p),
        patterns_added(t, base, len, ids, n).origin.contains_key(p) <==> t.origin.contains_key(p)
            || exists|j: int| 0 <= j < n && #[trigger] ids[j] == Some(p),
    decreases n,
{
    if n > 0 {
        lemma_pattern_there(t, base, len, ids, (n - 1) as nat, p);
        if ids[n - 1] == Some(p) {
            assert(0 <= n - 1 < n && ids[n - 1] == Some(p));
        }
    }
}

/// At every match whose root operations agree, every rule of the pattern is tried, whatever
/// other matches there are; and nothing else is tried.
pub proof fn every_rule_is_tried_at_every_match<H>(t: TrieState<H>, hits: Seq<PatternHit>, n: nat)
    requires
        n <= hits.len(),
    ensures
        forall|h: int, j: int|
            #![trigger t.rules[hits[h].id][j]]
            0 <= h < n && 0 <= j < t.rules[hits[h].id].len() && (hits[h].pattern_op is Some ==> (
            hits[h].host_op is Some && hits[h].pattern_op->0@ == hits[h].host_op->0@))
                ==> attempts_of(t, hits, n).contains(
                Attempt {
                    id: hits[h].id,
                    root: hits[h].root,
                    pattern: t.origin[hits[h].id],
                    replacement: t.rules[hits[h].id][j],
                },
            ),
        forall|attempt: Attempt| #[trigger]
            attempts_of(t, hits, n).contains(attempt) ==> exists|h: int, j: int|
                #![trigger t.rules[hits[h].id][j]]
                0 <= h < n && 0 <= j < t.rules[hits[h].id].len() && (hits[h].pattern_op is Some
                    ==> (hits[h].host_op is Some && hits[h].pattern_op->0@
                    == hits[h].host_op->0@)) && attempt == (Attempt {
                    id: hits[h].id,
                    root: hits[h].root,
                    pattern: t.origin[hits[h].id],
                    replacement: t.rules[hits[h].id][j],
                }),
{
    assert forall|h: int, j: int|
        #![trigger t.rules[hits[h].id][j]]
        0 <= h < n && 0 <= j < t.rules[hits[h].id].len() && (hits[h].pattern_op is Some ==> (
        hits[h].host_op is Some && hits[h].pattern_op->0@ == hits[h].host_op->0@)) implies attempts_of(
        t,
        hits,
        n,
    ).contains(
        Attempt {
            id: hits[h].id,
            root: hits[h].root,
            pattern: t.origin[hits[h].id],
            replacement: t.rules[hits[h].id][j],
        },
    ) by {
        lemma_tried(t, hits, n, h, j);
    }
    assert forall|attempt: Attempt| #[trigger] attempts_of(t, hits, n).contains(attempt) implies exists|
        h: int,
        j: int,
    |
        #![trigger t.rules[hits[h].id][j]]
        0 <= h < n && 0 <= j < t.rules[hits[h].id].len() && (hits[h].pattern_op is Some ==> (
        hits[h].host_op is Some && hits[h].pattern_op->0@ == hits[h].host_op->0@)) && attempt == (
        Attempt {
            id: hits[h].id,
            root: hits[h].root,
            pattern: t.origin[hits[h].id],
            replacement: t.rules[hits[h].id][j],
        }) by {
        let a = attempts_of(t, hits, n).index_of(attempt);
        let (h, j) = lemma_arises(t, hits, n, a);
        assert(attempt.replacement == t.rules[hits[h].id][j]);
    }
}

/// A rule of a match is tried.
proof fn lemma_tried<H>(t: TrieState<H>, hits: Seq<PatternHit>, n: nat, h: int, j: int)
    requires
        0 <= h < n <= hits.len(),
        0 <= j < t.rules[hits[h].id].len(),
        hits[h].pattern_op is Some ==> hits[h].host_op is Some && hits[h].pattern_op->0@
            == hits[h].host_op->0@,
    ensures
        attempts_of(t, hits, n).contains(
            Attempt {
                id: hits[h].id,
                root: hits[h].root,
                pattern: t.origin[hits[h].id],
                replacement: t.rules[hits[h].id][j],
            },
        ),
    decreases n,
{
    let attempt = Attempt {
        id: hits[h].id,
        root: hits[h].root,
        pattern: t.origin[hits[h].id],
        replacement: t.rules[hits[h].id][j],
    };
    let before = attempts_of(t, hits, (n - 1) as nat);
    let after = attempts_of(t, hits, n);
    if h < n - 1 {
        lemma_tried(t, hits, (n - 1) as nat, h, j);
        assert(after[before.index_of(attempt)] == attempt);
    } else {
        assert(hit_attempts(t, hits[h])[j] == attempt);
        assert(after[before.len() + j] == attempt);
    }
}

/// What is tried is a rule of a match.
proof fn lemma_arises<H>(t: TrieState<H>, hits: Seq<PatternHit>, n: nat, a: int) -> (from: (
    int,
    int,
))
    requires
        n <= hits.len(),
        0 <= a < attempts_of(t, hits, n).len(),
    ensures
        ({
            let (h, j) = from;
            &&& 0 <= h < n
            &&& 0 <= j < t.rules[hits[h].id].len()
            &&& hits[h].pattern_op is Some ==> hits[h].host_op is Some && hits[h].pattern_op->0@
                == hits[h].host_op->0@
            &&& attempts_of(t, hits, n)[a] == Attempt {
                id: hits[h].id,
                root: hits[h].root,
                pattern: t.origin[hits[h].id],
                replacement: t.rules[hits[h].id][j],
            }
        }),
    decreases n,
{
    let before = attempts_of(t, hits, (n - 1) as nat);
    if a < before.len() {
        lemma_arises(t, hits, (n - 1) as nat, a)
    } else {
        let j = a - before.len();
        assert(attempts_of(t, hits, n)[a] == hit_attempts(t, hits[n - 1])[j]);
        (n - 1, j)
    }
}

/// The matches are worked off one after the other: what is tried for one list of matches and
/// then another is what is tried for the first and what is tried for the second. For a single
/// match there are as many tries as rules, in their order, or none.
pub proof fn matches_are_worked_off_in_order<H>(
    t: TrieState<H>,
    first: Seq<PatternHit>,
    second: Seq<PatternHit>,
    n: nat,
)
    requires
        n <= second.len(),
    ensures
        attempts_of(t, first + second, first.len() + n) == attempts_of(t, first, first.len())
            + attempts_of(t, second, n),
        forall|hit: PatternHit|
            #![trigger attempts_of(t, seq![hit], 1)]
            {
                let agree = match (hit.pattern_op, hit.host_op) {
                    (Some(pattern), Some(host)) => pattern@ == host@,
                    (Some(_), None) => false,
                    (None, _) => true,
                };
                let tried = attempts_of(t, seq![hit], 1);
                &&& !agree ==> tried.len() == 0
                &&& agree ==> tried.len() == t.rules[hit.id].len() && forall|j: int|
                    0 <= j < tried.len() ==> (#[trigger] tried[j]).replacement
                        == t.rules[hit.id][j]
            },
    decreases n,
{
    assert forall|hit: PatternHit|
        #![trigger attempts_of(t, seq![hit], 1)]
        {
            let agree = match (hit.pattern_op, hit.host_op) {
                (Some(pattern), Some(host)) => pattern@ == host@,
                (Some(_), None) => false,
                (None, _) => true,
            };
            let tried = attempts_of(t, seq![hit], 1);
            &&& !agree ==> tried.len() == 0
            &&& agree ==> tried.len() == t.rules[hit.id].len() && forall|j: int|
                0 <= j < tried.len() ==> (#[trigger] tried[j]).replacement == t.rules[hit.id][j]
        } by {
        reveal_with_fuel(attempts_of, 2);
        assert(seq![hit][0] == hit);
    }
    if n > 0 {
        matches_are_worked_off_in_order(t, first, second, (n - 1) as nat);
        let all = first + second;
        let k = first.len() + n;
        assert(all[k - 1] == second[n - 1]);
        assert(attempts_of(t, all, k) =~= attempts_of(t, first, first.len()) + attempts_of(
            t,
            second,
            n,
        ));
    } else {
        lemma_attempts_prefix(t, first, second, first.len());
        assert(attempts_of(t, first, first.len()) + attempts_of(t, second, 0) =~= attempts_of(
            t,
            first,
            first.len(),
        ));
    }
}

proof fn lemma_attempts_prefix<H>(
    t: TrieState<H>,
    first: Seq<PatternHit>,
    second: Seq<PatternHit>,
    n: nat,
)
    requires
        n <= first.len(),
    ensures
        attempts_of(t, first + second, n) == attempts_of(t, first, n),
    decreases n,
{
    if n > 0 {
        lemma_attempts_prefix(t, first, second, (n - 1) as nat);
        assert((first + second)[n - 1] == first[n - 1]);
    }
}

} // verus!
