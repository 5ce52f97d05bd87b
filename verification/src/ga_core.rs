//! The genetic algorithm: organisms, their decoding into an order of connections, and
//! the making of a new generation.
//!
//! An organism has one gene for each connection of the circuit. The gene at place `i`
//! names the connection on which connection `i` depends: connection `i` wants to be
//! routed after it. Decoding sorts the connections by that wish and breaks every circle
//! of wishes at a fixed place, so that every organism stands for exactly one order.

use rand::distributions::{Distribution, Uniform};
use rand::rngs::StdRng;
use rand::{RngCore, SeedableRng};
use vstd::prelude::*;

verus! {

/// The engine of `rand` that all random draws of the library come from. Nothing inside
/// it is visible to the proofs.
#[verifier::external_type_specification]
#[verifier::external_body]
pub struct ExStdRng(StdRng);

/// Calls `StdRng::seed_from_u64`. Nothing is claimed about the engine returned.
#[verifier::external_body]
fn seeded_engine(seed: u64) -> StdRng {
    StdRng::seed_from_u64(seed)
}

/// Calls `Uniform::new(0, max_exclusive).sample(engine)`. `Uniform::new` panics when the
/// range is empty, which the precondition excludes; the sample lies in the half-open
/// range, and that is all that is claimed of it.
#[verifier::external_body]
fn sample_below(engine: &mut StdRng, max_exclusive: usize) -> (r: usize)
    requires
        max_exclusive > 0,
    ensures
        r < max_exclusive,
{
    Uniform::new(0usize, max_exclusive).sample(engine)
}

/// Calls `RngCore::next_u64`. Nothing is claimed about the number returned.
#[verifier::external_body]
fn next_seed(engine: &mut StdRng) -> u64 {
    engine.next_u64()
}

/// Calls `StdRng::clone`. Nothing is claimed about the engine returned.
#[verifier::external_body]
fn clone_engine(engine: &StdRng) -> StdRng {
    engine.clone()
}

/// The scale of a rate: a rate of `RATE_SCALE` is certainty, a rate of 0 is never.
pub const RATE_SCALE: usize = 1_000_000;

/// How often a pair of distinct parents is drawn anew before the second parent is
/// taken to be the neighbour of the first.
pub const MAX_PAIR_DRAWS: usize = 1_000;

/// A source of random integers below a fixed bound.
pub struct RandomIntGenerator {
    random_engine: StdRng,
    max_exclusive: usize,
}

impl RandomIntGenerator {
    /// The bound below which every draw lies.
    pub closed spec fn bound(&self) -> usize {
        self.max_exclusive
    }

    /// A source of integers below `max_exclusive`, started from `seed`.
    pub fn new(max_exclusive: usize, seed: u64) -> (g: Self)
        ensures
            g.bound() == max_exclusive,
    {
        Self { random_engine: seeded_engine(seed), max_exclusive }
    }

    /// The next random integer.
    pub fn get_random_int(&mut self) -> (r: usize)
        requires
            old(self).bound() > 0,
        ensures
            r < old(self).bound(),
            final(self).bound() == old(self).bound(),
    {
        sample_below(&mut self.random_engine, self.max_exclusive)
    }

    /// A seed for another source.
    pub fn derive_seed(&mut self) -> (seed: u64)
        ensures
            final(self).bound() == old(self).bound(),
    {
        next_seed(&mut self.random_engine)
    }

    /// A source with the same bound that continues as this one would.
    pub fn duplicate(&self) -> (g: Self)
        ensures
            g.bound() == self.bound(),
    {
        Self { random_engine: clone_engine(&self.random_engine), max_exclusive: self.max_exclusive }
    }
}

/// A connection and the connection it wants to follow.
#[derive(Clone, Copy, PartialEq, Eq, Structural, Debug)]
pub struct GeneDependency {
    pub gene: usize,
    pub gene_dependency: usize,
}

impl GeneDependency {
    pub fn new(gene: usize, gene_dependency: usize) -> (d: Self)
        ensures
            d.gene == gene,
            d.gene_dependency == gene_dependency,
    {
        Self { gene, gene_dependency }
    }
}

/// Where a pair with dependency `d` goes into `list`: behind the last pair whose
/// dependency is not larger.
pub open spec fn insert_pos(list: Seq<GeneDependency>, d: usize) -> int
    decreases list.len(),
{
    if list.len() == 0 {
        0
    } else if list.last().gene_dependency <= d {
        list.len() as int
    } else {
        insert_pos(list.drop_last(), d)
    }
}

/// The first `n` genes, each paired with its place, ordered by dependency; pairs with the
/// same dependency keep the order of their places.
pub open spec fn sorted_pairs(genes: Seq<usize>, n: int) -> Seq<GeneDependency>
    decreases n,
{
    if n <= 0 {
        Seq::empty()
    } else {
        let list = sorted_pairs(genes, n - 1);
        list.insert(
            insert_pos(list, genes[n - 1]),
            GeneDependency { gene: (n - 1) as usize, gene_dependency: genes[n - 1] },
        )
    }
}

/// One pass over `list` from place `i` on: every pair whose dependency has been put out
/// already, before or during the pass, is taken from the list and its connection is put
/// out.
pub open spec fn sweep(list: Seq<GeneDependency>, out: Seq<usize>, i: int) -> (Seq<GeneDependency>, Seq<usize>)
    decreases list.len() - i,
{
    if i < 0 || i >= list.len() {
        (list, out)
    } else if out.contains(list[i].gene_dependency) {
        sweep(list.remove(i), out.push(list[i].gene), i)
    } else {
        sweep(list, out, i + 1)
    }
}

/// The order that results from passing over `list` again and again; a pass that puts
/// nothing out is followed by putting out the first connection of the list.
pub open spec fn decode_from(list: Seq<GeneDependency>, out: Seq<usize>) -> Seq<usize>
    decreases list.len(),
{
    if list.len() == 0 {
        out
    } else {
        let (l2, o2) = sweep(list, out, 0);
        if l2.len() < list.len() {
            decode_from(l2, o2)
        } else {
            decode_from(list.drop_first(), out.push(list[0].gene))
        }
    }
}

/// The order of connections that the genes stand for.
pub open spec fn decode(genes: Seq<usize>) -> Seq<usize> {
    decode_from(sorted_pairs(genes, genes.len() as int), Seq::empty())
}

/// Whether every gene names a connection.
pub open spec fn genes_ok(genes: Seq<usize>) -> bool {
    forall|i: int| 0 <= i < genes.len() ==> (#[trigger] genes[i]) < genes.len()
}

/// Whether `s` holds each of the numbers below `n` exactly once.
pub open spec fn is_permutation(s: Seq<usize>, n: int) -> bool {
    &&& s.len() == n
    &&& forall|i: int| 0 <= i < s.len() ==> (#[trigger] s[i]) < n
    &&& forall|i: int, j: int| 0 <= i < j < s.len() ==> #[trigger] s[i] != #[trigger] s[j]
    &&& forall|v: usize| v < n ==> #[trigger] s.contains(v)
}

/// Whether the connection `v` waits in `list`.
pub open spec fn waits(list: Seq<GeneDependency>, v: usize) -> bool {
    exists|j: int| 0 <= j < list.len() && (#[trigger] list[j]).gene == v
}

/// Whether `list` and `out` together hold each of the `n` connections exactly once.
pub open spec fn split_ok(list: Seq<GeneDependency>, out: Seq<usize>, n: int) -> bool {
    &&& list.len() + out.len() == n
    &&& forall|i: int| 0 <= i < out.len() ==> (#[trigger] out[i]) < n
    &&& forall|j: int| 0 <= j < list.len() ==> (#[trigger] list[j]).gene < n
    &&& forall|i: int, j: int| 0 <= i < j < out.len() ==> #[trigger] out[i] != #[trigger] out[j]
    &&& forall|i: int, j: int| 0 <= i < j < list.len() ==> (#[trigger] list[i]).gene != (#[trigger] list[j]).gene
    &&& forall|i: int, j: int|
        0 <= i < out.len() && 0 <= j < list.len() ==> #[trigger] out[i] != (#[trigger] list[j]).gene
    &&& forall|v: usize| v < n ==> #[trigger] out.contains(v) || waits(list, v)
}

/// Taking one pair from the list and putting its connection out keeps the split.
proof fn lemma_move_one(list: Seq<GeneDependency>, out: Seq<usize>, n: int, i: int)
    requires
        split_ok(list, out, n),
        0 <= i < list.len(),
    ensures
        split_ok(list.remove(i), out.push(list[i].gene), n),
{
    let l2 = list.remove(i);
    let o2 = out.push(list[i].gene);
    assert forall|j: int| 0 <= j < l2.len() implies (#[trigger] l2[j]).gene < n by {
        let j0 = if j < i { j } else { j + 1 };
        assert(l2[j] == list[j0]);
    }
    assert forall|a: int, b: int| 0 <= a < b < l2.len() implies (#[trigger] l2[a]).gene != (#[trigger] l2[b]).gene by {
        let a0 = if a < i { a } else { a + 1 };
        let b0 = if b < i { b } else { b + 1 };
        assert(l2[a] == list[a0] && l2[b] == list[b0]);
    }
    assert forall|a: int, b: int| 0 <= a < b < o2.len() implies #[trigger] o2[a] != #[trigger] o2[b] by {
        if b == out.len() {
            assert(o2[a] == out[a]);
        }
    }
    assert forall|a: int, b: int| 0 <= a < o2.len() && 0 <= b < l2.len() implies #[trigger] o2[a] != (
    #[trigger] l2[b]).gene by {
        let b0 = if b < i { b } else { b + 1 };
        assert(l2[b] == list[b0]);
        if a == out.len() {
            if b0 < i {
                assert(list[b0].gene != list[i].gene);
            } else {
                assert(list[i].gene != list[b0].gene);
            }
        } else {
            assert(o2[a] == out[a]);
        }
    }
    assert forall|v: usize| v < n implies #[trigger] o2.contains(v) || waits(l2, v) by {
        if out.contains(v) {
            let k = choose|k: int| 0 <= k < out.len() && out[k] == v;
            assert(o2[k] == v);
        } else {
            assert(waits(list, v));
            let j = choose|j: int| 0 <= j < list.len() && (#[trigger] list[j]).gene == v;
            if j == i {
                assert(o2[out.len() as int] == v);
            } else {
                let j2 = if j < i { j } else { j - 1 };
                assert(l2[j2] == list[j]);
            }
        }
    }
}

/// A pass keeps the split and does not lengthen the list.
proof fn lemma_sweep(list: Seq<GeneDependency>, out: Seq<usize>, n: int, i: int)
    requires
        split_ok(list, out, n),
        0 <= i,
    ensures
        split_ok(sweep(list, out, i).0, sweep(list, out, i).1, n),
        sweep(list, out, i).0.len() <= list.len(),
        sweep(list, out, i).0.len() == list.len() ==> sweep(list, out, i) == (list, out),
    decreases list.len() - i,
{
    if i < list.len() {
        if out.contains(list[i].gene_dependency) {
            lemma_move_one(list, out, n, i);
            list.remove_ensures(i);
            lemma_sweep(list.remove(i), out.push(list[i].gene), n, i);
        } else {
            lemma_sweep(list, out, n, i + 1);
        }
    }
}

/// Decoding a split gives each of the connections exactly once.
proof fn lemma_decode_from(list: Seq<GeneDependency>, out: Seq<usize>, n: int)
    requires
        split_ok(list, out, n),
    ensures
        is_permutation(decode_from(list, out), n),
    decreases list.len(),
{
    if list.len() == 0 {
        assert forall|v: usize| v < n implies #[trigger] out.contains(v) by {
            assert(!waits(list, v));
        }
    } else {
        let (l2, o2) = sweep(list, out, 0);
        lemma_sweep(list, out, n, 0);
        if l2.len() < list.len() {
            lemma_decode_from(l2, o2, n);
        } else {
            lemma_move_one(list, out, n, 0);
            assert(list.remove(0) =~= list.drop_first());
            lemma_decode_from(list.drop_first(), out.push(list[0].gene), n);
        }
    }
}

/// The sorted pairs of the first `n` genes hold each of the first `n` connections once.
proof fn lemma_sorted_pairs(genes: Seq<usize>, n: int)
    requires
        0 <= n <= genes.len() <= usize::MAX,
    ensures
        split_ok(sorted_pairs(genes, n), Seq::empty(), n),
        forall|j: int|
            0 <= j < sorted_pairs(genes, n).len() ==> (#[trigger] sorted_pairs(genes, n)[j]).gene_dependency
                == genes[sorted_pairs(genes, n)[j].gene as int],
    decreases n,
{
    if n > 0 {
        lemma_sorted_pairs(genes, n - 1);
        let list = sorted_pairs(genes, n - 1);
        let pos = insert_pos(list, genes[n - 1]);
        lemma_insert_pos(list, genes[n - 1]);
        let e = GeneDependency { gene: (n - 1) as usize, gene_dependency: genes[n - 1] };
        let l2 = list.insert(pos, e);
        assert(l2 == sorted_pairs(genes, n));
        list.insert_ensures(pos, e);
        let out = Seq::<usize>::empty();
        assert forall|j: int| 0 <= j < l2.len() implies (#[trigger] l2[j]).gene < n && l2[j].gene_dependency
            == genes[l2[j].gene as int] by {
            if j < pos {
                assert(l2[j] == list[j]);
                assert(list[j].gene < n - 1);
            } else if j > pos {
                assert(l2[j] == list[j - 1]);
                assert(list[j - 1].gene < n - 1);
            } else {
                assert(l2[j] == e);
            }
        }
        assert forall|a: int, b: int| 0 <= a < b < l2.len() implies (#[trigger] l2[a]).gene != (#[trigger] l2[b]).gene by {
            let a0 = if a < pos { a } else { a - 1 };
            let b0 = if b < pos { b } else { b - 1 };
            assert(l2[pos] == e);
            if a != pos {
                assert(l2[a] == list[a0]);
                assert(list[a0].gene < n - 1);
            }
            if b != pos {
                assert(l2[b] == list[b0]);
                assert(list[b0].gene < n - 1);
            }
            if a != pos && b != pos {
                assert(list[a0].gene != list[b0].gene);
            }
        }
        assert forall|v: usize| v < n implies #[trigger] out.contains(v) || waits(l2, v) by {
            if v == n - 1 {
                assert(l2[pos].gene == v);
            } else {
                assert(v < n - 1);
                assert(out.contains(v) || waits(list, v));
                assert(!out.contains(v));
                let j = choose|j: int| 0 <= j < list.len() && (#[trigger] list[j]).gene == v;
                let j2 = if j < pos { j } else { j + 1 };
                assert(l2[j2] == list[j]);
            }
        }
    }
}

proof fn lemma_insert_pos(list: Seq<GeneDependency>, d: usize)
    ensures
        0 <= insert_pos(list, d) <= list.len(),
    decreases list.len(),
{
    if list.len() > 0 && list.last().gene_dependency > d {
        lemma_insert_pos(list.drop_last(), d);
    }
}

/// The order that any genes stand for holds each connection exactly once.
pub proof fn lemma_decode_is_permutation(genes: Seq<usize>)
    requires
        genes.len() <= usize::MAX,
    ensures
        is_permutation(decode(genes), genes.len() as int),
{
    lemma_sorted_pairs(genes, genes.len() as int);
    lemma_decode_from(sorted_pairs(genes, genes.len() as int), Seq::empty(), genes.len() as int);
}

/// The flags that say which connections are out stay right when one more goes out.
proof fn lemma_pushed(out: Seq<usize>, flags: Seq<bool>, flags2: Seq<bool>, g: usize)
    requires
        g < flags.len(),
        flags2 == flags.update(g as int, true),
        forall|v: usize| v < flags.len() ==> (flags[v as int] <==> #[trigger] out.contains(v)),
    ensures
        forall|v: usize| v < flags2.len() ==> (flags2[v as int] <==> #[trigger] out.push(g).contains(v)),
{
    let out2 = out.push(g);
    assert forall|v: usize| v < flags2.len() implies (flags2[v as int] <==> #[trigger] out2.contains(v)) by {
        if v == g {
            assert(out2[out.len() as int] == g);
        } else {
            if out.contains(v) {
                let k = choose|k: int| 0 <= k < out.len() && out[k] == v;
                assert(out2[k] == v);
            }
            if out2.contains(v) {
                let k = choose|k: int| 0 <= k < out2.len() && out2[k] == v;
                assert(out[k] == v);
            }
        }
    }
}

/// The genes, each paired with its place, ordered by dependency.
fn sort_by_dependency(genes: &Vec<usize>) -> (list: Vec<GeneDependency>)
    ensures
        list@ == sorted_pairs(genes@, genes@.len() as int),
{
    let mut list: Vec<GeneDependency> = Vec::new();
    let n = genes.len();
    let mut i: usize = 0;
    while i < n
        invariant
            i <= n,
            n == genes@.len(),
            list@ == sorted_pairs(genes@, i as int),
        decreases n - i,
    {
        let d = genes[i];
        let mut pos: usize = list.len();
        proof {
            assert(list@.subrange(0, list@.len() as int) =~= list@);
        }
        while pos > 0 && list[pos - 1].gene_dependency > d
            invariant
                pos <= list@.len(),
                insert_pos(list@, d) == insert_pos(list@.subrange(0, pos as int), d),
            decreases pos,
        {
            proof {
                let shorter = list@.subrange(0, pos as int);
                assert(shorter.drop_last() =~= list@.subrange(0, pos - 1));
            }
            pos -= 1;
        }
        proof {
            assert(list@.subrange(0, list@.len() as int) =~= list@);
            let shorter = list@.subrange(0, pos as int);
            if pos > 0 {
                assert(shorter.last() == list@[pos - 1]);
            }
            assert(insert_pos(shorter, d) == pos);
        }
        list.insert(pos, GeneDependency::new(i, d));
        i += 1;
    }
    list
}

/// One pass over the pairs that still wait.
fn sweep_once(gene_list: &mut Vec<GeneDependency>, gene_vec: &mut Vec<usize>, emitted: &mut Vec<bool>) -> (found: bool)
    requires
        old(emitted)@.len() == old(gene_list)@.len() + old(gene_vec)@.len(),
        split_ok(old(gene_list)@, old(gene_vec)@, old(emitted)@.len() as int),
        forall|j: int|
            0 <= j < old(gene_list)@.len() ==> (#[trigger] old(gene_list)@[j]).gene_dependency < old(emitted)@.len(),
        forall|v: usize|
            v < old(emitted)@.len() ==> (old(emitted)@[v as int] <==> #[trigger] old(gene_vec)@.contains(v)),
    ensures
        (final(gene_list)@, final(gene_vec)@) == sweep(old(gene_list)@, old(gene_vec)@, 0),
        found == (final(gene_list)@.len() < old(gene_list)@.len()),
        final(emitted)@.len() == old(emitted)@.len(),
        forall|j: int|
            0 <= j < final(gene_list)@.len() ==> (#[trigger] final(gene_list)@[j]).gene_dependency < final(emitted)@.len(),
        forall|v: usize|
            v < final(emitted)@.len() ==> (final(emitted)@[v as int] <==> #[trigger] final(gene_vec)@.contains(v)),
{
    let ghost n = emitted@.len() as int;
    let mut found = false;
    let mut i: usize = 0;
    while i < gene_list.len()
        invariant
            i <= gene_list@.len(),
            n == emitted@.len(),
            split_ok(gene_list@, gene_vec@, n),
            sweep(gene_list@, gene_vec@, i as int) == sweep(old(gene_list)@, old(gene_vec)@, 0),
            gene_list@.len() <= old(gene_list)@.len(),
            found == (gene_list@.len() < old(gene_list)@.len()),
            forall|j: int| 0 <= j < gene_list@.len() ==> (#[trigger] gene_list@[j]).gene_dependency < n,
            forall|v: usize| v < n ==> (emitted@[v as int] <==> #[trigger] gene_vec@.contains(v)),
        decreases gene_list@.len() - i,
    {
        let pair = gene_list[i];
        if emitted[pair.gene_dependency] {
            proof {
                lemma_move_one(gene_list@, gene_vec@, n, i as int);
            }
            let ghost out_before = gene_vec@;
            let ghost emitted_before = emitted@;
            gene_vec.push(pair.gene);
            emitted[pair.gene] = true;
            gene_list.remove(i);
            found = true;
            proof {
                lemma_pushed(out_before, emitted_before, emitted@, pair.gene);
            }
        } else {
            i += 1;
        }
    }
    found
}

/// The order of connections that the genes stand for: each connection exactly once.
pub fn topo_sort(genes: &Vec<usize>) -> (order: Vec<usize>)
    requires
        genes_ok(genes@),
    ensures
        order@ == decode(genes@),
        is_permutation(order@, genes@.len() as int),
{
    let mut gene_list = sort_by_dependency(genes);
    let n = genes.len();
    let mut gene_vec: Vec<usize> = Vec::new();
    let mut emitted: Vec<bool> = Vec::new();
    let mut k: usize = 0;
    while k < n
        invariant
            k <= n,
            emitted@.len() == k,
            forall|v: int| 0 <= v < k ==> !emitted@[v],
        decreases n - k,
    {
        emitted.push(false);
        k += 1;
    }
    proof {
        lemma_sorted_pairs(genes@, n as int);
        lemma_decode_is_permutation(genes@);
    }
    while gene_list.len() > 0
        invariant
            n == genes@.len(),
            emitted@.len() == n,
            split_ok(gene_list@, gene_vec@, n as int),
            decode_from(gene_list@, gene_vec@) == decode(genes@),
            forall|j: int| 0 <= j < gene_list@.len() ==> (#[trigger] gene_list@[j]).gene_dependency < n,
            forall|v: usize| v < n ==> (emitted@[v as int] <==> #[trigger] gene_vec@.contains(v)),
        decreases gene_list@.len(),
    {
        let ghost before_list = gene_list@;
        let ghost before_out = gene_vec@;
        let found = sweep_once(&mut gene_list, &mut gene_vec, &mut emitted);
        proof {
            lemma_sweep(before_list, before_out, n as int, 0);
            if found {
                assert(decode_from(before_list, before_out) == decode_from(gene_list@, gene_vec@));
            } else {
                assert(decode_from(before_list, before_out) == decode_from(
                    before_list.drop_first(),
                    before_out.push(before_list[0].gene),
                ));
            }
        }
        if !found {
            // Nothing could follow what is out already: the first one goes out unasked.
            let first = gene_list[0];
            proof {
                assert(gene_list@ == before_list);
                lemma_move_one(gene_list@, gene_vec@, n as int, 0);
                assert(gene_list@.remove(0) =~= gene_list@.drop_first());
            }
            let ghost out_before = gene_vec@;
            let ghost emitted_before = emitted@;
            gene_vec.push(first.gene);
            emitted[first.gene] = true;
            gene_list.remove(0);
            proof {
                lemma_pushed(out_before, emitted_before, emitted@, first.gene);
            }
        }
    }
    gene_vec
}

/// One candidate order of the connections, with the fitness that routing it gave.
pub struct Organism {
    pub n_genes: usize,
    pub n_completed_routes: usize,
    pub completed_route_cost: usize,
    pub gene_vec: Vec<usize>,
    pub random_gene_selector: RandomIntGenerator,
}

impl Organism {
    /// The organism has one gene for each connection, and each gene names a connection.
    pub open spec fn wf(&self) -> bool {
        &&& self.n_genes > 0
        &&& self.gene_vec@.len() == self.n_genes
        &&& genes_ok(self.gene_vec@)
        &&& self.random_gene_selector.bound() == self.n_genes
    }

    /// Whether `other` has the genes and the fitness of this organism.
    pub open spec fn same_as(&self, other: &Organism) -> bool {
        &&& other.n_genes == self.n_genes
        &&& other.gene_vec@ == self.gene_vec@
        &&& other.n_completed_routes == self.n_completed_routes
        &&& other.completed_route_cost == self.completed_route_cost
        &&& other.random_gene_selector.bound() == self.random_gene_selector.bound()
    }

    /// An organism for `n_genes` connections that has no genes yet.
    pub fn new(n_genes: usize, seed: u64) -> (o: Self)
        ensures
            o.n_genes == n_genes,
            o.n_completed_routes == 0,
            o.completed_route_cost == 0,
            o.gene_vec@.len() == 0,
            o.random_gene_selector.bound() == n_genes,
    {
        Self {
            n_genes,
            n_completed_routes: 0,
            completed_route_cost: 0,
            gene_vec: Vec::new(),
            random_gene_selector: RandomIntGenerator::new(n_genes, seed),
        }
    }

    /// Gives an organism without genes one random gene for each connection.
    pub fn create_random(&mut self)
        requires
            old(self).n_genes > 0,
            old(self).gene_vec@.len() == 0,
            old(self).random_gene_selector.bound() == old(self).n_genes,
        ensures
            final(self).wf(),
            final(self).n_genes == old(self).n_genes,
            final(self).n_completed_routes == old(self).n_completed_routes,
            final(self).completed_route_cost == old(self).completed_route_cost,
    {
        let n = self.n_genes;
        let mut i: usize = 0;
        while i < n
            invariant
                i <= n,
                n == self.n_genes,
                n > 0,
                self.gene_vec@.len() == i,
                self.random_gene_selector.bound() == n,
                self.n_completed_routes == old(self).n_completed_routes,
                self.completed_route_cost == old(self).completed_route_cost,
                forall|k: int| 0 <= k < i ==> (#[trigger] self.gene_vec@[k]) < n,
            decreases n - i,
        {
            let gene = self.random_gene_selector.get_random_int();
            self.gene_vec.push(gene);
            i += 1;
        }
    }

    /// A random place at which to cross this organism with another.
    pub fn get_random_crossover_point(&mut self) -> (r: usize)
        requires
            old(self).wf(),
        ensures
            r < old(self).n_genes,
            old(self).same_as(final(self)),
    {
        self.random_gene_selector.get_random_int()
    }

    /// Makes connection `dependent_idx` depend on connection `dependency_idx`.
    pub fn set_gene(&mut self, dependent_idx: usize, dependency_idx: usize)
        requires
            old(self).wf(),
            dependent_idx < old(self).n_genes,
            dependency_idx < old(self).n_genes,
        ensures
            final(self).wf(),
            final(self).gene_vec@ == old(self).gene_vec@.update(dependent_idx as int, dependency_idx),
            final(self).n_genes == old(self).n_genes,
            final(self).n_completed_routes == old(self).n_completed_routes,
            final(self).completed_route_cost == old(self).completed_route_cost,
    {
        self.gene_vec[dependent_idx] = dependency_idx;
    }

    /// Makes one random connection depend on a random connection.
    pub fn mutate(&mut self)
        requires
            old(self).wf(),
        ensures
            final(self).wf(),
            final(self).n_genes == old(self).n_genes,
            final(self).n_completed_routes == old(self).n_completed_routes,
            final(self).completed_route_cost == old(self).completed_route_cost,
            exists|i: int, d: usize|
                0 <= i < old(self).n_genes && d < old(self).n_genes && final(self).gene_vec@ == #[trigger] old(self).gene_vec@.update(i, d),
    {
        let dependent_idx = self.random_gene_selector.get_random_int();
        let dependency_idx = self.random_gene_selector.get_random_int();
        self.set_gene(dependent_idx, dependency_idx);
        proof {
            assert(self.gene_vec@ == old(self).gene_vec@.update(dependent_idx as int, dependency_idx));
        }
    }

    /// The order of connections that the organism stands for: each connection once.
    pub fn calc_connection_idx_vec(&self) -> (order: Vec<usize>)
        requires
            self.wf(),
        ensures
            order@ == decode(self.gene_vec@),
            is_permutation(order@, self.n_genes as int),
    {
        topo_sort(&self.gene_vec)
    }

    /// An organism with the same genes and fitness.
    pub fn duplicate(&self) -> (o: Self)
        ensures
            self.same_as(&o),
    {
        let mut gene_vec: Vec<usize> = Vec::new();
        let n = self.gene_vec.len();
        let mut i: usize = 0;
        while i < n
            invariant
                i <= n,
                n == self.gene_vec@.len(),
                gene_vec@ == self.gene_vec@.subrange(0, i as int),
            decreases n - i,
        {
            gene_vec.push(self.gene_vec[i]);
            proof {
                assert(self.gene_vec@.subrange(0, i as int + 1) =~= self.gene_vec@.subrange(0, i as int).push(
                    self.gene_vec@[i as int],
                ));
            }
            i += 1;
        }
        proof {
            assert(self.gene_vec@.subrange(0, n as int) =~= self.gene_vec@);
        }
        Self {
            n_genes: self.n_genes,
            n_completed_routes: self.n_completed_routes,
            completed_route_cost: self.completed_route_cost,
            gene_vec,
            random_gene_selector: self.random_gene_selector.duplicate(),
        }
    }
}

/// Two organisms picked to be parents.
pub struct OrganismPair {
    pub a: Organism,
    pub b: Organism,
}

impl OrganismPair {
    pub fn new(a: Organism, b: Organism) -> (p: Self)
        ensures
            p.a == a,
            p.b == b,
    {
        Self { a, b }
    }
}

/// The genes of `a` up to place `k`, followed by the genes of `b` from place `k` on.
pub open spec fn crossed(a: Seq<usize>, b: Seq<usize>, k: int) -> Seq<usize> {
    a.subrange(0, k) + b.subrange(k, b.len() as int)
}

/// Whether the genes `ga` and `gb` are those of the parents `pa` and `pb` after crossing
/// at the rate `rate`: as they are, or with their tails exchanged from some place on.
/// At the rate 0 they are never crossed, at the rate [`RATE_SCALE`] always.
pub open spec fn crossed_at_rate(rate: usize, pa: Seq<usize>, pb: Seq<usize>, ga: Seq<usize>, gb: Seq<usize>) -> bool {
    let same = ga == pa && gb == pb;
    let crossed_somewhere = exists|k: int|
        0 <= k < pa.len() && ga == #[trigger] crossed(pa, pb, k) && gb == crossed(pb, pa, k);
    &&& same || crossed_somewhere
    &&& rate == 0 ==> same
    &&& rate >= RATE_SCALE ==> crossed_somewhere
}

/// Whether the genes `c` are the genes `g` after mutation at the rate `rate`: as they are,
/// or with one of them set to the number of a connection. At the rate 0 they are never
/// mutated, at the rate [`RATE_SCALE`] always.
pub open spec fn mutated_at_rate(rate: usize, g: Seq<usize>, c: Seq<usize>) -> bool {
    let mutated = exists|i: int, d: usize| 0 <= i < g.len() && d < g.len() && c == #[trigger] g.update(i, d);
    &&& c == g || mutated
    &&& rate == 0 ==> c == g
    &&& rate >= RATE_SCALE ==> mutated
}

/// Whether the genes `ca` and `cb` are those of two children of two distinct organisms of
/// `parents`: the genes of the parents, crossed at the crossover rate, and then mutated
/// at the mutation rate, each for itself.
pub open spec fn bred(
    parents: Seq<Organism>,
    crossover_rate: usize,
    mutation_rate: usize,
    ca: Seq<usize>,
    cb: Seq<usize>,
) -> bool {
    exists|a: int, b: int, ga: Seq<usize>, gb: Seq<usize>|
        0 <= a < parents.len() && 0 <= b < parents.len() && a != b && #[trigger] crossed_at_rate(
            crossover_rate,
            parents[a].gene_vec@,
            parents[b].gene_vec@,
            ga,
            gb,
        ) && mutated_at_rate(mutation_rate, ga, ca) && mutated_at_rate(mutation_rate, gb, cb)
}

/// Whether the children at places `2 * j` and `2 * j + 1` of `children` were bred from
/// `parents` at the rates given.
pub open spec fn bred_at(
    parents: Seq<Organism>,
    crossover_rate: usize,
    mutation_rate: usize,
    children: Seq<Organism>,
    j: int,
) -> bool {
    bred(parents, crossover_rate, mutation_rate, children[2 * j].gene_vec@, children[2 * j + 1].gene_vec@)
}

/// The genes of two parents after what was drawn for crossing: exchanged from the place
/// drawn on, or as they are where none was drawn.
pub open spec fn crossed_with(pa: Seq<usize>, pb: Seq<usize>, cross: Option<int>) -> (Seq<usize>, Seq<usize>) {
    match cross {
        Some(k) => (crossed(pa, pb, k), crossed(pb, pa, k)),
        None => (pa, pb),
    }
}

/// The genes `g` after what was drawn for mutation: the gene at the place drawn set to
/// the number drawn, or as they are where nothing was drawn.
pub open spec fn mutated_with(g: Seq<usize>, mutation: Option<(int, usize)>) -> Seq<usize> {
    match mutation {
        Some((i, d)) => g.update(i, d),
        None => g,
    }
}

/// The genes of the two children of the parents `pa` and `pb`, given what was drawn for
/// crossing and for the mutation of each.
pub open spec fn children_of(
    pa: Seq<usize>,
    pb: Seq<usize>,
    cross: Option<int>,
    mutation_a: Option<(int, usize)>,
    mutation_b: Option<(int, usize)>,
) -> (Seq<usize>, Seq<usize>) {
    let (ga, gb) = crossed_with(pa, pb, cross);
    (mutated_with(ga, mutation_a), mutated_with(gb, mutation_b))
}

/// Whether what was drawn can be drawn for parents of `n` genes at the rates given: the
/// places and numbers lie below `n`; at the rate 0 nothing is drawn, at the rate
/// [`RATE_SCALE`] something always is.
pub open spec fn draws_ok(
    n: int,
    crossover_rate: usize,
    mutation_rate: usize,
    cross: Option<int>,
    mutation_a: Option<(int, usize)>,
    mutation_b: Option<(int, usize)>,
) -> bool {
    &&& cross.is_some() ==> 0 <= cross.unwrap() < n
    &&& mutation_a.is_some() ==> 0 <= mutation_a.unwrap().0 < n && mutation_a.unwrap().1 < n
    &&& mutation_b.is_some() ==> 0 <= mutation_b.unwrap().0 < n && mutation_b.unwrap().1 < n
    &&& crossover_rate == 0 ==> cross.is_none()
    &&& crossover_rate >= RATE_SCALE ==> cross.is_some()
    &&& mutation_rate == 0 ==> mutation_a.is_none() && mutation_b.is_none()
    &&& mutation_rate >= RATE_SCALE ==> mutation_a.is_some() && mutation_b.is_some()
}

/// The children of a generation are a function of their parents and of what was drawn:
/// two children that were bred are the children of two distinct parents for some draws,
/// and the same parents with the same draws have the same children.
pub proof fn lemma_children_follow_from_draws(
    parents: Seq<Organism>,
    crossover_rate: usize,
    mutation_rate: usize,
    ca: Seq<usize>,
    cb: Seq<usize>,
)
    requires
        bred(parents, crossover_rate, mutation_rate, ca, cb),
        forall|i: int, j: int|
            0 <= i < parents.len() && 0 <= j < parents.len() ==> (#[trigger] parents[i]).gene_vec@.len()
                == (#[trigger] parents[j]).gene_vec@.len(),
    ensures
        exists|a: int, b: int, cross: Option<int>, mutation_a: Option<(int, usize)>, mutation_b: Option<(int, usize)>|
            0 <= a < parents.len() && 0 <= b < parents.len() && a != b && draws_ok(
                parents[a].gene_vec@.len() as int,
                crossover_rate,
                mutation_rate,
                cross,
                mutation_a,
                mutation_b,
            ) && (ca, cb) == #[trigger] children_of(
                parents[a].gene_vec@,
                parents[b].gene_vec@,
                cross,
                mutation_a,
                mutation_b,
            ),
{
    let (a, b, ga, gb) = choose|a: int, b: int, ga: Seq<usize>, gb: Seq<usize>|
        0 <= a < parents.len() && 0 <= b < parents.len() && a != b && #[trigger] crossed_at_rate(
            crossover_rate,
            parents[a].gene_vec@,
            parents[b].gene_vec@,
            ga,
            gb,
        ) && mutated_at_rate(mutation_rate, ga, ca) && mutated_at_rate(mutation_rate, gb, cb);
    let pa = parents[a].gene_vec@;
    let pb = parents[b].gene_vec@;
    assert(pa.len() == pb.len());
    let cross: Option<int> = if crossover_rate >= RATE_SCALE || !(ga == pa && gb == pb) {
        Some(choose|k: int| 0 <= k < pa.len() && ga == #[trigger] crossed(pa, pb, k) && gb == crossed(pb, pa, k))
    } else {
        None
    };
    assert(crossed_with(pa, pb, cross) == (ga, gb));
    if cross.is_some() {
        assert(ga.len() == pa.len() && gb.len() == pa.len());
    }
    let mutation_a: Option<(int, usize)> = if mutation_rate >= RATE_SCALE || ca != ga {
        Some(choose|i: int, d: usize| 0 <= i < ga.len() && d < ga.len() && ca == #[trigger] ga.update(i, d))
    } else {
        None
    };
    let mutation_b: Option<(int, usize)> = if mutation_rate >= RATE_SCALE || cb != gb {
        Some(choose|i: int, d: usize| 0 <= i < gb.len() && d < gb.len() && cb == #[trigger] gb.update(i, d))
    } else {
        None
    };
    assert(mutated_with(ga, mutation_a) == ca);
    assert(mutated_with(gb, mutation_b) == cb);
    assert((ca, cb) == children_of(pa, pb, cross, mutation_a, mutation_b));
    assert(draws_ok(pa.len() as int, crossover_rate, mutation_rate, cross, mutation_a, mutation_b));
}

/// Whether organism `b` is strictly fitter than organism `a`: it has more completed
/// routes, or as many at a lower cost.
pub open spec fn fitter(organisms: Seq<Organism>, a: int, b: int) -> bool {
    organisms[b].n_completed_routes > organisms[a].n_completed_routes || (organisms[b].n_completed_routes
        == organisms[a].n_completed_routes && organisms[b].completed_route_cost
        < organisms[a].completed_route_cost)
}

/// The winner among the first `upto` candidates: the first of them, unless a later one is
/// strictly fitter than every one before it.
pub open spec fn winner(organisms: Seq<Organism>, candidates: Seq<usize>, upto: int) -> usize
    decreases upto,
{
    if upto <= 1 {
        candidates[0]
    } else {
        let w = winner(organisms, candidates, upto - 1);
        if fitter(organisms, w as int, candidates[upto - 1] as int) {
            candidates[upto - 1]
        } else {
            w
        }
    }
}

/// The organisms of one generation and what makes the next from them.
pub struct Population {
    pub n_organisms_in_population: usize,
    /// How often, out of [`RATE_SCALE`], two parents are crossed.
    pub crossover_rate: usize,
    /// How often, out of [`RATE_SCALE`], a child is mutated.
    pub mutation_rate: usize,
    pub n_genes_per_organism: usize,
    pub random_gene_selector: RandomIntGenerator,
    pub random_organism_selector: RandomIntGenerator,
    pub organism_vec: Vec<Organism>,
    pub rnd: RandomIntGenerator,
}

impl Population {
    /// The number of organisms is even and at least two, and the sources of random
    /// numbers have the bounds they are used with.
    pub open spec fn sized(&self) -> bool {
        &&& self.n_organisms_in_population >= 2
        &&& self.n_organisms_in_population % 2 == 0
        &&& self.random_organism_selector.bound() == self.n_organisms_in_population
        &&& self.rnd.bound() == RATE_SCALE
    }

    /// The population is complete: it has its number of organisms, each with one gene
    /// for each connection.
    pub open spec fn wf(&self) -> bool {
        &&& self.sized()
        &&& self.n_genes_per_organism > 0
        &&& self.organism_vec@.len() == self.n_organisms_in_population
        &&& forall|i: int|
            0 <= i < self.organism_vec@.len() ==> (#[trigger] self.organism_vec@[i]).wf()
                && self.organism_vec@[i].n_genes == self.n_genes_per_organism
    }

    /// A population of `n_organisms_in_population` organisms that has no organisms yet.
    /// The rates count out of [`RATE_SCALE`].
    pub fn new(n_organisms_in_population: usize, crossover_rate: usize, mutation_rate: usize, seed: u64) -> (p: Self)
        requires
            n_organisms_in_population >= 2,
            n_organisms_in_population % 2 == 0,
        ensures
            p.sized(),
            p.n_organisms_in_population == n_organisms_in_population,
            p.crossover_rate == crossover_rate,
            p.mutation_rate == mutation_rate,
            p.n_genes_per_organism == 0,
            p.organism_vec@.len() == 0,
    {
        let mut rnd = RandomIntGenerator::new(RATE_SCALE, seed);
        let gene_seed = rnd.derive_seed();
        let organism_seed = rnd.derive_seed();
        Self {
            n_organisms_in_population,
            crossover_rate,
            mutation_rate,
            n_genes_per_organism: 0,
            random_gene_selector: RandomIntGenerator::new(1, gene_seed),
            random_organism_selector: RandomIntGenerator::new(n_organisms_in_population, organism_seed),
            organism_vec: Vec::new(),
            rnd,
        }
    }

    /// Starts over with random organisms for `n_genes_per_organism` connections.
    pub fn reset(&mut self, n_genes_per_organism: usize)
        requires
            old(self).sized(),
            n_genes_per_organism > 0,
        ensures
            final(self).wf(),
            final(self).n_genes_per_organism == n_genes_per_organism,
            final(self).n_organisms_in_population == old(self).n_organisms_in_population,
            final(self).crossover_rate == old(self).crossover_rate,
            final(self).mutation_rate == old(self).mutation_rate,
    {
        self.n_genes_per_organism = n_genes_per_organism;
        let seed = self.rnd.derive_seed();
        self.random_gene_selector = RandomIntGenerator::new(n_genes_per_organism, seed);
        self.create_random_population();
    }

    /// Whether a random draw out of [`RATE_SCALE`] falls below `rate`.
    fn chance(&mut self, rate: usize) -> (r: bool)
        requires
            old(self).rnd.bound() == RATE_SCALE,
        ensures
            rate == 0 ==> !r,
            rate >= RATE_SCALE ==> r,
            final(self).rnd.bound() == RATE_SCALE,
            final(self).n_organisms_in_population == old(self).n_organisms_in_population,
            final(self).crossover_rate == old(self).crossover_rate,
            final(self).mutation_rate == old(self).mutation_rate,
            final(self).n_genes_per_organism == old(self).n_genes_per_organism,
            final(self).random_gene_selector == old(self).random_gene_selector,
            final(self).random_organism_selector == old(self).random_organism_selector,
            final(self).organism_vec == old(self).organism_vec,
    {
        self.rnd.get_random_int() < rate
    }

    /// Replaces the population by its children: pairs of distinct parents are picked by
    /// tournament, crossed at the crossover rate and mutated, each for itself, at the
    /// mutation rate.
    pub fn next_generation(&mut self)
        requires
            old(self).wf(),
        ensures
            final(self).wf(),
            final(self).n_genes_per_organism == old(self).n_genes_per_organism,
            final(self).n_organisms_in_population == old(self).n_organisms_in_population,
            final(self).crossover_rate == old(self).crossover_rate,
            final(self).mutation_rate == old(self).mutation_rate,
            forall|j: int|
                0 <= j < old(self).n_organisms_in_population / 2 ==> #[trigger] bred_at(
                    old(self).organism_vec@,
                    old(self).crossover_rate,
                    old(self).mutation_rate,
                    final(self).organism_vec@,
                    j,
                ),
    {
        let mut new_generation_vec: Vec<Organism> = Vec::new();
        let half = self.n_organisms_in_population / 2;
        let mut i: usize = 0;
        while i < half
            invariant
                i <= half,
                half == self.n_organisms_in_population / 2,
                self.wf(),
                self.n_genes_per_organism == old(self).n_genes_per_organism,
                self.n_organisms_in_population == old(self).n_organisms_in_population,
                self.crossover_rate == old(self).crossover_rate,
                self.mutation_rate == old(self).mutation_rate,
                new_generation_vec@.len() == 2 * i,
                self.organism_vec == old(self).organism_vec,
                forall|k: int|
                    0 <= k < new_generation_vec@.len() ==> (#[trigger] new_generation_vec@[k]).wf()
                        && new_generation_vec@[k].n_genes == self.n_genes_per_organism,
                forall|j: int|
                    0 <= j < i ==> #[trigger] bred_at(
                        old(self).organism_vec@,
                        old(self).crossover_rate,
                        old(self).mutation_rate,
                        new_generation_vec@,
                        j,
                    ),
            decreases half - i,
        {
            let crossover_rate = self.crossover_rate;
            let mutation_rate = self.mutation_rate;
            let ghost parents = self.organism_vec@;
            let mut pair = self.select_pair_tournament(2);
            let ghost (a, b) = choose|a: int, b: int|
                0 <= a < parents.len() && 0 <= b < parents.len() && a != b && (#[trigger] parents[a]).same_as(
                    &pair.a,
                ) && (#[trigger] parents[b]).same_as(&pair.b);
            if self.chance(crossover_rate) {
                self.crossover(&mut pair);
            }
            let ghost ga = pair.a.gene_vec@;
            let ghost gb = pair.b.gene_vec@;
            proof {
                assert(crossed_at_rate(crossover_rate, parents[a].gene_vec@, parents[b].gene_vec@, ga, gb));
            }
            if self.chance(mutation_rate) {
                pair.a.mutate();
            }
            if self.chance(mutation_rate) {
                pair.b.mutate();
            }
            proof {
                assert(mutated_at_rate(mutation_rate, ga, pair.a.gene_vec@));
                assert(mutated_at_rate(mutation_rate, gb, pair.b.gene_vec@));
                assert(bred(parents, crossover_rate, mutation_rate, pair.a.gene_vec@, pair.b.gene_vec@));
            }
            let ghost before = new_generation_vec@;
            new_generation_vec.push(pair.a);
            new_generation_vec.push(pair.b);
            proof {
                assert forall|j: int| 0 <= j < i + 1 implies #[trigger] bred_at(
                    old(self).organism_vec@,
                    old(self).crossover_rate,
                    old(self).mutation_rate,
                    new_generation_vec@,
                    j,
                ) by {
                    if j < i {
                        assert(bred_at(
                            old(self).organism_vec@,
                            old(self).crossover_rate,
                            old(self).mutation_rate,
                            before,
                            j,
                        ));
                        assert(new_generation_vec@[2 * j] == before[2 * j]);
                        assert(new_generation_vec@[2 * j + 1] == before[2 * j + 1]);
                    }
                }
            }
            i += 1;
        }
        self.organism_vec = new_generation_vec;
    }

    /// Fills the population with random organisms.
    pub fn create_random_population(&mut self)
        requires
            old(self).sized(),
            old(self).n_genes_per_organism > 0,
        ensures
            final(self).wf(),
            final(self).n_genes_per_organism == old(self).n_genes_per_organism,
            final(self).n_organisms_in_population == old(self).n_organisms_in_population,
            final(self).crossover_rate == old(self).crossover_rate,
            final(self).mutation_rate == old(self).mutation_rate,
            final(self).random_gene_selector == old(self).random_gene_selector,
    {
        self.organism_vec = Vec::new();
        let n = self.n_organisms_in_population;
        let mut i: usize = 0;
        while i < n
            invariant
                i <= n,
                n == self.n_organisms_in_population,
                self.sized(),
                self.n_genes_per_organism > 0,
                self.n_genes_per_organism == old(self).n_genes_per_organism,
                self.n_organisms_in_population == old(self).n_organisms_in_population,
                self.crossover_rate == old(self).crossover_rate,
                self.mutation_rate == old(self).mutation_rate,
                self.random_gene_selector == old(self).random_gene_selector,
                self.organism_vec@.len() == i,
                forall|k: int|
                    0 <= k < self.organism_vec@.len() ==> (#[trigger] self.organism_vec@[k]).wf()
                        && self.organism_vec@[k].n_genes == self.n_genes_per_organism,
            decreases n - i,
        {
            let seed = self.rnd.derive_seed();
            let mut organism = Organism::new(self.n_genes_per_organism, seed);
            organism.create_random();
            self.organism_vec.push(organism);
            i += 1;
        }
    }

    /// Exchanges the genes of the two organisms from place `cross_idx` on.
    pub fn cross_at(pair: &mut OrganismPair, cross_idx: usize)
        requires
            old(pair).a.wf(),
            old(pair).b.wf(),
            old(pair).a.n_genes == old(pair).b.n_genes,
            cross_idx <= old(pair).a.n_genes,
        ensures
            final(pair).a.wf(),
            final(pair).b.wf(),
            final(pair).a.gene_vec@ == crossed(old(pair).a.gene_vec@, old(pair).b.gene_vec@, cross_idx as int),
            final(pair).b.gene_vec@ == crossed(old(pair).b.gene_vec@, old(pair).a.gene_vec@, cross_idx as int),
            final(pair).a.n_genes == old(pair).a.n_genes,
            final(pair).b.n_genes == old(pair).b.n_genes,
            final(pair).a.n_completed_routes == old(pair).a.n_completed_routes,
            final(pair).a.completed_route_cost == old(pair).a.completed_route_cost,
            final(pair).b.n_completed_routes == old(pair).b.n_completed_routes,
            final(pair).b.completed_route_cost == old(pair).b.completed_route_cost,
    {
        let n = pair.a.gene_vec.len();
        let ghost a0 = pair.a.gene_vec@;
        let ghost b0 = pair.b.gene_vec@;
        let mut i: usize = cross_idx;
        while i < n
            invariant
                cross_idx <= i <= n,
                n == a0.len(),
                n == b0.len(),
                n == pair.a.n_genes,
                n == pair.b.n_genes,
                n > 0,
                genes_ok(a0),
                genes_ok(b0),
                pair.a.gene_vec@.len() == n,
                pair.b.gene_vec@.len() == n,
                pair.a.random_gene_selector.bound() == n,
                pair.b.random_gene_selector.bound() == n,
                pair.a.n_completed_routes == old(pair).a.n_completed_routes,
                pair.a.completed_route_cost == old(pair).a.completed_route_cost,
                pair.b.n_completed_routes == old(pair).b.n_completed_routes,
                pair.b.completed_route_cost == old(pair).b.completed_route_cost,
                forall|k: int|
                    0 <= k < n ==> #[trigger] pair.a.gene_vec@[k] == (if cross_idx <= k < i {
                        b0[k]
                    } else {
                        a0[k]
                    }),
                forall|k: int|
                    0 <= k < n ==> #[trigger] pair.b.gene_vec@[k] == (if cross_idx <= k < i {
                        a0[k]
                    } else {
                        b0[k]
                    }),
            decreases n - i,
        {
            let ga = pair.a.gene_vec[i];
            let gb = pair.b.gene_vec[i];
            pair.a.gene_vec[i] = gb;
            pair.b.gene_vec[i] = ga;
            i += 1;
        }
        proof {
            assert(pair.a.gene_vec@ =~= crossed(a0, b0, cross_idx as int));
            assert(pair.b.gene_vec@ =~= crossed(b0, a0, cross_idx as int));
            assert forall|k: int| 0 <= k < n implies (#[trigger] pair.a.gene_vec@[k]) < n by {
                assert(a0[k] < n && b0[k] < n);
            }
            assert forall|k: int| 0 <= k < n implies (#[trigger] pair.b.gene_vec@[k]) < n by {
                assert(a0[k] < n && b0[k] < n);
            }
        }
    }

    /// Exchanges the genes of the two organisms from a random place on.
    pub fn crossover(&self, pair: &mut OrganismPair)
        requires
            old(pair).a.wf(),
            old(pair).b.wf(),
            old(pair).a.n_genes == old(pair).b.n_genes,
        ensures
            final(pair).a.wf(),
            final(pair).b.wf(),
            final(pair).a.n_genes == old(pair).a.n_genes,
            final(pair).b.n_genes == old(pair).b.n_genes,
            final(pair).a.n_completed_routes == old(pair).a.n_completed_routes,
            final(pair).a.completed_route_cost == old(pair).a.completed_route_cost,
            final(pair).b.n_completed_routes == old(pair).b.n_completed_routes,
            final(pair).b.completed_route_cost == old(pair).b.completed_route_cost,
            exists|k: int|
                0 <= k < old(pair).a.n_genes && final(pair).a.gene_vec@ == #[trigger] crossed(
                    old(pair).a.gene_vec@,
                    old(pair).b.gene_vec@,
                    k,
                ) && final(pair).b.gene_vec@ == crossed(old(pair).b.gene_vec@, old(pair).a.gene_vec@, k),
    {
        let cross_idx = pair.a.get_random_crossover_point();
        Self::cross_at(pair, cross_idx);
        proof {
            assert(pair.a.gene_vec@ == crossed(old(pair).a.gene_vec@, old(pair).b.gene_vec@, cross_idx as int));
        }
    }

    /// Picks two distinct organisms, each the winner of a tournament, and returns copies
    /// of them. When the same organism wins again and again, its neighbour is taken for
    /// the second.
    pub fn select_pair_tournament(&mut self, n_candidates: usize) -> (pair: OrganismPair)
        requires
            old(self).wf(),
            n_candidates >= 1,
        ensures
            final(self).wf(),
            final(self).n_genes_per_organism == old(self).n_genes_per_organism,
            final(self).n_organisms_in_population == old(self).n_organisms_in_population,
            final(self).crossover_rate == old(self).crossover_rate,
            final(self).mutation_rate == old(self).mutation_rate,
            final(self).organism_vec == old(self).organism_vec,
            exists|a: int, b: int|
                0 <= a < old(self).organism_vec@.len() && 0 <= b < old(self).organism_vec@.len() && a != b && (
                #[trigger] old(self).organism_vec@[a]).same_as(&pair.a) && (#[trigger] old(self).organism_vec@[b]).same_as(&pair.b),
            pair.a.wf(),
            pair.b.wf(),
            pair.a.n_genes == old(self).n_genes_per_organism,
            pair.b.n_genes == old(self).n_genes_per_organism,
    {
        let organism_a_idx = self.tournament_select(n_candidates);
        let mut organism_b_idx = self.tournament_select(n_candidates);
        let mut draws: usize = 1;
        while organism_a_idx == organism_b_idx && draws < MAX_PAIR_DRAWS
            invariant
                self.wf(),
                n_candidates >= 1,
                organism_a_idx < self.n_organisms_in_population,
                organism_b_idx < self.n_organisms_in_population,
                draws <= MAX_PAIR_DRAWS,
                self.n_genes_per_organism == old(self).n_genes_per_organism,
                self.n_organisms_in_population == old(self).n_organisms_in_population,
                self.crossover_rate == old(self).crossover_rate,
                self.mutation_rate == old(self).mutation_rate,
                self.organism_vec == old(self).organism_vec,
            decreases MAX_PAIR_DRAWS - draws,
        {
            organism_b_idx = self.tournament_select(n_candidates);
            draws += 1;
        }
        if organism_a_idx == organism_b_idx {
            organism_b_idx = if organism_a_idx + 1 < self.n_organisms_in_population {
                organism_a_idx + 1
            } else {
                0
            };
        }
        let a = self.organism_vec[organism_a_idx].duplicate();
        let b = self.organism_vec[organism_b_idx].duplicate();
        proof {
            assert(old(self).organism_vec@[organism_a_idx as int].same_as(&a));
            assert(old(self).organism_vec@[organism_b_idx as int].same_as(&b));
            assert(old(self).organism_vec@[organism_a_idx as int].wf());
            assert(old(self).organism_vec@[organism_b_idx as int].wf());
        }
        OrganismPair::new(a, b)
    }

    /// The fitter of the organisms at places `a` and `b`; `a` when neither is strictly
    /// fitter.
    pub fn better_of(&self, a: usize, b: usize) -> (r: usize)
        requires
            a < self.organism_vec@.len(),
            b < self.organism_vec@.len(),
        ensures
            r == (if fitter(self.organism_vec@, a as int, b as int) { b } else { a }),
    {
        let oa = &self.organism_vec[a];
        let ob = &self.organism_vec[b];
        let has_more_completed_routes = ob.n_completed_routes > oa.n_completed_routes;
        let has_equal_routes_and_lower_cost = ob.n_completed_routes == oa.n_completed_routes
            && ob.completed_route_cost < oa.completed_route_cost;
        if has_more_completed_routes || has_equal_routes_and_lower_cost {
            b
        } else {
            a
        }
    }

    /// The winner among the candidates.
    pub fn tournament_winner(&self, candidates: &Vec<usize>) -> (r: usize)
        requires
            candidates@.len() >= 1,
            forall|k: int| 0 <= k < candidates@.len() ==> (#[trigger] candidates@[k]) < self.organism_vec@.len(),
        ensures
            r == winner(self.organism_vec@, candidates@, candidates@.len() as int),
            r < self.organism_vec@.len(),
    {
        let mut best_organism_idx = candidates[0];
        let n = candidates.len();
        let mut i: usize = 1;
        while i < n
            invariant
                1 <= i <= n,
                n == candidates@.len(),
                forall|k: int|
                    0 <= k < candidates@.len() ==> (#[trigger] candidates@[k]) < self.organism_vec@.len(),
                best_organism_idx == winner(self.organism_vec@, candidates@, i as int),
                best_organism_idx < self.organism_vec@.len(),
            decreases n - i,
        {
            best_organism_idx = self.better_of(best_organism_idx, candidates[i]);
            i += 1;
        }
        best_organism_idx
    }

    /// Draws `n_candidates` organisms at random, the same one more than once perhaps, and
    /// returns the place of their winner.
    pub fn tournament_select(&mut self, n_candidates: usize) -> (r: usize)
        requires
            old(self).wf(),
            n_candidates >= 1,
        ensures
            final(self).wf(),
            r < old(self).n_organisms_in_population,
            exists|candidates: Seq<usize>|
                candidates.len() == n_candidates && (forall|k: int|
                    0 <= k < candidates.len() ==> (#[trigger] candidates[k]) < old(self).organism_vec@.len())
                    && r == #[trigger] winner(old(self).organism_vec@, candidates, n_candidates as int),
            final(self).n_genes_per_organism == old(self).n_genes_per_organism,
            final(self).n_organisms_in_population == old(self).n_organisms_in_population,
            final(self).crossover_rate == old(self).crossover_rate,
            final(self).mutation_rate == old(self).mutation_rate,
            final(self).organism_vec == old(self).organism_vec,
    {
        let mut candidates: Vec<usize> = Vec::new();
        let mut i: usize = 0;
        while i < n_candidates
            invariant
                i <= n_candidates,
                self.wf(),
                candidates@.len() == i,
                forall|k: int| 0 <= k < candidates@.len() ==> (#[trigger] candidates@[k]) < self.organism_vec@.len(),
                self.n_genes_per_organism == old(self).n_genes_per_organism,
                self.n_organisms_in_population == old(self).n_organisms_in_population,
                self.crossover_rate == old(self).crossover_rate,
                self.mutation_rate == old(self).mutation_rate,
                self.organism_vec == old(self).organism_vec,
            decreases n_candidates - i,
        {
            let organism_idx = self.random_organism_selector.get_random_int();
            candidates.push(organism_idx);
            i += 1;
        }
        let r = self.tournament_winner(&candidates);
        proof {
            assert(r == winner(old(self).organism_vec@, candidates@, n_candidates as int));
        }
        r
    }
}

} // verus!
