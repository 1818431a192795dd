//! The integer side of the analytical placer: how each multi-pin net is decomposed into
//! two-pin connections, and the bookkeeping of the extra "star" entries that decomposition
//! allocates.

use vstd::prelude::*;

verus! {

/// A net of the netlist: the cells it connects, as indices into the cell list.
pub struct Signal {
    /// Indices of the connected cells.
    pub connected_cells: Vec<usize>,
    /// How many of the connected cells may move.
    pub moveable_cells: usize,
}

/// Index of a star entry.
#[derive(Copy, Clone, Debug, PartialEq, Eq, PartialOrd, Ord, Structural)]
pub struct StarIndex(pub u32);

/// Hands out star indices, counting up from zero.
pub struct StarAllocator {
    next_index: StarIndex,
}

impl StarAllocator {
    /// The index the next call of [`StarAllocator::next`] hands out.
    pub closed spec fn next_value(&self) -> nat {
        self.next_index.0 as nat
    }

    /// A new allocator, starting at index zero.
    pub fn new() -> (r: StarAllocator)
        ensures
            r.next_value() == 0,
    {
        StarAllocator { next_index: StarIndex(0) }
    }

    /// Start again from index zero.
    pub fn reset(&mut self)
        ensures
            final(self).next_value() == 0,
    {
        self.next_index.0 = 0
    }

    /// Allocate the next star index.
    pub fn next(&mut self) -> (r: StarIndex)
        requires
            old(self).next_value() < u32::MAX,
        ensures
            r == StarIndex(old(self).next_value() as u32),
            final(self).next_value() == old(self).next_value() + 1,
    {
        let idx = self.next_index;
        self.next_index.0 = self.next_index.0 + 1;
        idx
    }

    /// Number of indices handed out since the last reset.
    pub fn count(&self) -> (r: usize)
        ensures
            r == self.next_value(),
    {
        self.next_index.0 as usize
    }
}

/// How a net is turned into two-pin connections.
#[derive(Clone, Copy, Debug, PartialEq, Eq, PartialOrd, Ord, Structural)]
pub enum NetStrategy {
    /// All the cells are fixed: nothing to do.
    AllFixed,
    /// Clique model: every pin connected to every other pin of the net.
    CliqueModel,
    /// Star model: every pin connected to a mobile star.
    StarModel { star_idx: StarIndex },
    /// Anchor model: every mobile pin anchored to the net's centre of gravity.
    Anchor,
}

/// Decides how each multi-pin net of a netlist is decomposed.
pub trait DecompositionStrategy: Sized {
    /// Extra solver entries allocated since the last reset.
    spec fn spec_extra_entries(&self) -> nat;

    /// Whether a net with `moveable_cells` mobile cells can be analyzed without running out
    /// of indices.
    spec fn can_analyze(&self, moveable_cells: usize) -> bool;

    /// Whether the extra entry count can be reported.
    spec fn can_report(&self) -> bool;

    /// The decision for a net with `moveable_cells` mobile cells.
    spec fn spec_analyze(&self, moveable_cells: usize) -> NetStrategy;

    /// The state after analyzing a net with `moveable_cells` mobile cells.
    spec fn after_analyze(&self, moveable_cells: usize) -> Self;

    /// The state after a reset.
    spec fn after_reset(&self) -> Self;

    /// Reset the strategy so it can analyze a new netlist.
    fn reset(&mut self)
        ensures
            *final(self) == old(self).after_reset();

    /// Analyze a single signal.
    fn analyze(&mut self, signal: &Signal) -> (r: NetStrategy)
        requires
            old(self).can_analyze(signal.moveable_cells),
        ensures
            r == old(self).spec_analyze(signal.moveable_cells),
            *final(self) == old(self).after_analyze(signal.moveable_cells);

    /// Number of extra entries required in the solver, from the analysis so far.
    fn extra_entries(&self) -> (r: usize)
        requires
            self.can_report(),
        ensures
            r == self.spec_extra_entries();

    /// After a reset no extra entries are allocated, and the count can be reported.
    proof fn lemma_reset_clears(&self)
        ensures
            self.after_reset().spec_extra_entries() == 0,
            self.after_reset().can_report();

    /// A net without mobile cells is left alone: it needs no decomposition and changes
    /// nothing.
    proof fn lemma_fixed_net(&self)
        ensures
            self.can_analyze(0),
            self.spec_analyze(0) == NetStrategy::AllFixed,
            self.after_analyze(0) == *self;
}

/// Every multi-pin net becomes a moveable star; a net with a single mobile cell becomes a
/// clique.
pub struct MoveableStar {
    allocator: StarAllocator,
}

impl MoveableStar {
    pub fn new() -> (r: MoveableStar)
        ensures
            r.spec_extra_entries() == 0,
    {
        MoveableStar { allocator: StarAllocator::new() }
    }
}

impl DecompositionStrategy for MoveableStar {
    closed spec fn spec_extra_entries(&self) -> nat {
        self.allocator.next_value()
    }

    closed spec fn can_analyze(&self, moveable_cells: usize) -> bool {
        moveable_cells >= 2 ==> self.allocator.next_value() < u32::MAX
    }

    closed spec fn can_report(&self) -> bool {
        true
    }

    closed spec fn spec_analyze(&self, moveable_cells: usize) -> NetStrategy {
        if moveable_cells == 0 {
            NetStrategy::AllFixed
        } else if moveable_cells == 1 {
            NetStrategy::CliqueModel
        } else {
            NetStrategy::StarModel { star_idx: StarIndex(self.allocator.next_value() as u32) }
        }
    }

    closed spec fn after_analyze(&self, moveable_cells: usize) -> Self {
        if moveable_cells >= 2 {
            MoveableStar { allocator: StarAllocator { next_index: StarIndex((self.allocator.next_value() + 1) as u32) } }
        } else {
            *self
        }
    }

    closed spec fn after_reset(&self) -> Self {
        MoveableStar { allocator: StarAllocator { next_index: StarIndex(0) } }
    }

    fn reset(&mut self) {
        self.allocator.reset();
    }

    fn analyze(&mut self, signal: &Signal) -> (r: NetStrategy) {
        match signal.moveable_cells {
            0 => NetStrategy::AllFixed,
            1 => NetStrategy::CliqueModel,
            _ => NetStrategy::StarModel { star_idx: self.allocator.next() },
        }
    }

    fn extra_entries(&self) -> (r: usize) {
        self.allocator.count()
    }

    proof fn lemma_reset_clears(&self) {
    }

    proof fn lemma_fixed_net(&self) {
    }
}

/// Every net with a mobile cell becomes a clique.
pub struct Clique {}

impl Clique {
    pub fn new() -> (r: Clique)
        ensures
            r.spec_extra_entries() == 0,
    {
        Clique {}
    }
}

impl DecompositionStrategy for Clique {
    closed spec fn spec_extra_entries(&self) -> nat {
        0
    }

    closed spec fn can_analyze(&self, moveable_cells: usize) -> bool {
        true
    }

    closed spec fn can_report(&self) -> bool {
        true
    }

    closed spec fn spec_analyze(&self, moveable_cells: usize) -> NetStrategy {
        if moveable_cells == 0 {
            NetStrategy::AllFixed
        } else {
            NetStrategy::CliqueModel
        }
    }

    closed spec fn after_analyze(&self, moveable_cells: usize) -> Self {
        *self
    }

    closed spec fn after_reset(&self) -> Self {
        *self
    }

    fn reset(&mut self) {
    }

    fn analyze(&mut self, signal: &Signal) -> (r: NetStrategy) {
        match signal.moveable_cells {
            0 => NetStrategy::AllFixed,
            _ => NetStrategy::CliqueModel,
        }
    }

    fn extra_entries(&self) -> (r: usize) {
        0
    }

    proof fn lemma_reset_clears(&self) {
    }

    proof fn lemma_fixed_net(&self) {
    }
}

/// Every multi-pin net is anchored at its centre of gravity; a net with a single mobile cell
/// becomes a clique.
pub struct AnchoredByNet {}

impl AnchoredByNet {
    pub fn new() -> (r: AnchoredByNet)
        ensures
            r.spec_extra_entries() == 0,
    {
        AnchoredByNet {}
    }
}

impl DecompositionStrategy for AnchoredByNet {
    closed spec fn spec_extra_entries(&self) -> nat {
        0
    }

    closed spec fn can_analyze(&self, moveable_cells: usize) -> bool {
        true
    }

    closed spec fn can_report(&self) -> bool {
        true
    }

    closed spec fn spec_analyze(&self, moveable_cells: usize) -> NetStrategy {
        if moveable_cells == 0 {
            NetStrategy::AllFixed
        } else if moveable_cells == 1 {
            NetStrategy::CliqueModel
        } else {
            NetStrategy::Anchor
        }
    }

    closed spec fn after_analyze(&self, moveable_cells: usize) -> Self {
        *self
    }

    closed spec fn after_reset(&self) -> Self {
        *self
    }

    fn reset(&mut self) {
    }

    fn analyze(&mut self, signal: &Signal) -> (r: NetStrategy) {
        match signal.moveable_cells {
            0 => NetStrategy::AllFixed,
            1 => NetStrategy::CliqueModel,
            _ => NetStrategy::Anchor,
        }
    }

    fn extra_entries(&self) -> (r: usize) {
        0
    }

    proof fn lemma_reset_clears(&self) {
    }

    proof fn lemma_fixed_net(&self) {
    }
}

/// The same strategy as [`AnchoredByNet`], under its older name.
pub struct Anchored {}

impl DecompositionStrategy for Anchored {
    closed spec fn spec_extra_entries(&self) -> nat {
        0
    }

    closed spec fn can_analyze(&self, moveable_cells: usize) -> bool {
        true
    }

    closed spec fn can_report(&self) -> bool {
        true
    }

    closed spec fn spec_analyze(&self, moveable_cells: usize) -> NetStrategy {
        if moveable_cells == 0 {
            NetStrategy::AllFixed
        } else if moveable_cells == 1 {
            NetStrategy::CliqueModel
        } else {
            NetStrategy::Anchor
        }
    }

    closed spec fn after_analyze(&self, moveable_cells: usize) -> Self {
        *self
    }

    closed spec fn after_reset(&self) -> Self {
        *self
    }

    fn reset(&mut self) {
    }

    fn analyze(&mut self, signal: &Signal) -> (r: NetStrategy) {
        match signal.moveable_cells {
            0 => NetStrategy::AllFixed,
            1 => NetStrategy::CliqueModel,
            _ => NetStrategy::Anchor,
        }
    }

    fn extra_entries(&self) -> (r: usize) {
        0
    }

    proof fn lemma_reset_clears(&self) {
    }

    proof fn lemma_fixed_net(&self) {
    }
}

/// Uses the `Small` strategy for nets with fewer than `threshold` mobile cells and the
/// `Large` one for the others.
pub struct ThresholdCrossover<Small, Large> {
    threshold: usize,
    small: Small,
    large: Large,
}

impl<Small, Large> ThresholdCrossover<Small, Large> {
    pub fn new(threshold: usize, small: Small, large: Large) -> (r: ThresholdCrossover<Small, Large>)
        ensures
            r.threshold() == threshold,
            r.small() == small,
            r.large() == large,
    {
        ThresholdCrossover { threshold, small, large }
    }

    /// Nets with this many mobile cells or more go to the `Large` strategy.
    pub closed spec fn threshold(&self) -> usize {
        self.threshold
    }

    /// The strategy for small nets.
    pub closed spec fn small(&self) -> Small {
        self.small
    }

    /// The strategy for large nets.
    pub closed spec fn large(&self) -> Large {
        self.large
    }
}

impl<Small: DecompositionStrategy, Large: DecompositionStrategy> DecompositionStrategy for ThresholdCrossover<Small, Large> {
    closed spec fn spec_extra_entries(&self) -> nat {
        self.small.spec_extra_entries() + self.large.spec_extra_entries()
    }

    closed spec fn can_analyze(&self, moveable_cells: usize) -> bool {
        if moveable_cells >= self.threshold {
            self.large.can_analyze(moveable_cells)
        } else {
            self.small.can_analyze(moveable_cells)
        }
    }

    /// Both parts can report, at most one of them allocated entries (the solver's indexing
    /// would break otherwise), and the sum fits.
    closed spec fn can_report(&self) -> bool {
        &&& self.small.can_report()
        &&& self.large.can_report()
        &&& (self.small.spec_extra_entries() == 0 || self.large.spec_extra_entries() == 0)
        &&& self.small.spec_extra_entries() + self.large.spec_extra_entries() <= usize::MAX
    }

    closed spec fn spec_analyze(&self, moveable_cells: usize) -> NetStrategy {
        if moveable_cells >= self.threshold {
            self.large.spec_analyze(moveable_cells)
        } else {
            self.small.spec_analyze(moveable_cells)
        }
    }

    closed spec fn after_analyze(&self, moveable_cells: usize) -> Self {
        if moveable_cells >= self.threshold {
            ThresholdCrossover { large: self.large.after_analyze(moveable_cells), ..*self }
        } else {
            ThresholdCrossover { small: self.small.after_analyze(moveable_cells), ..*self }
        }
    }

    closed spec fn after_reset(&self) -> Self {
        ThresholdCrossover { small: self.small.after_reset(), large: self.large.after_reset(), ..*self }
    }

    fn reset(&mut self) {
        self.small.reset();
        self.large.reset();
    }

    fn analyze(&mut self, signal: &Signal) -> (r: NetStrategy) {
        if signal.moveable_cells >= self.threshold {
            self.large.analyze(signal)
        } else {
            self.small.analyze(signal)
        }
    }

    fn extra_entries(&self) -> (r: usize) {
        let small_entries = self.small.extra_entries();
        let large_entries = self.large.extra_entries();
        small_entries + large_entries
    }

    proof fn lemma_reset_clears(&self) {
        self.small.lemma_reset_clears();
        self.large.lemma_reset_clears();
    }

    proof fn lemma_fixed_net(&self) {
        self.small.lemma_fixed_net();
        self.large.lemma_fixed_net();
    }
}

impl MoveableStar {
    /// Nets with no mobile cell are left alone, nets with one become cliques, and every other
    /// net becomes a star with the next star index; the count of extra entries is the number
    /// of stars allocated since the last reset.
    pub proof fn lemma_behaviour(&self, moveable_cells: usize)
        ensures
            self.can_report(),
            self.can_analyze(moveable_cells) == (moveable_cells >= 2 ==> self.spec_extra_entries() < u32::MAX),
            self.spec_analyze(moveable_cells) == if moveable_cells == 0 {
                NetStrategy::AllFixed
            } else if moveable_cells == 1 {
                NetStrategy::CliqueModel
            } else {
                NetStrategy::StarModel { star_idx: StarIndex(self.spec_extra_entries() as u32) }
            },
            self.can_analyze(moveable_cells) ==> self.after_analyze(moveable_cells).spec_extra_entries()
                == self.spec_extra_entries() + if moveable_cells >= 2 { 1nat } else { 0nat },
    {
    }

    /// Two nets of at least two mobile cells analyzed one after the other get consecutive star
    /// indices.
    pub proof fn lemma_consecutive_stars(&self, a: usize, b: usize)
        requires
            a >= 2,
            b >= 2,
            self.spec_extra_entries() + 1 < u32::MAX,
        ensures
            self.spec_analyze(a) matches NetStrategy::StarModel { star_idx: first }
                && self.after_analyze(a).spec_analyze(b) == (NetStrategy::StarModel { star_idx: StarIndex((first.0 + 1) as u32) }),
    {
    }
}

impl Clique {
    /// Every net with a mobile cell becomes a clique; no extra entries are ever needed.
    pub proof fn lemma_behaviour(&self, moveable_cells: usize)
        ensures
            self.can_report(),
            self.can_analyze(moveable_cells),
            self.spec_extra_entries() == 0,
            self.spec_analyze(moveable_cells) == if moveable_cells == 0 { NetStrategy::AllFixed } else { NetStrategy::CliqueModel },
            self.after_analyze(moveable_cells) == *self,
    {
    }
}

impl AnchoredByNet {
    /// Nets with no mobile cell are left alone, nets with one become cliques, and every other
    /// net is anchored; no extra entries are ever needed.
    pub proof fn lemma_behaviour(&self, moveable_cells: usize)
        ensures
            self.can_report(),
            self.can_analyze(moveable_cells),
            self.spec_extra_entries() == 0,
            self.spec_analyze(moveable_cells) == if moveable_cells == 0 {
                NetStrategy::AllFixed
            } else if moveable_cells == 1 {
                NetStrategy::CliqueModel
            } else {
                NetStrategy::Anchor
            },
            self.after_analyze(moveable_cells) == *self,
    {
    }
}

impl Anchored {
    /// The same decisions as [`AnchoredByNet`].
    pub proof fn lemma_behaviour(&self, moveable_cells: usize)
        ensures
            self.can_report(),
            self.can_analyze(moveable_cells),
            self.spec_extra_entries() == 0,
            self.spec_analyze(moveable_cells) == if moveable_cells == 0 {
                NetStrategy::AllFixed
            } else if moveable_cells == 1 {
                NetStrategy::CliqueModel
            } else {
                NetStrategy::Anchor
            },
            self.after_analyze(moveable_cells) == *self,
    {
    }
}

impl<Small: DecompositionStrategy, Large: DecompositionStrategy> ThresholdCrossover<Small, Large> {
    /// Nets with at least `threshold` mobile cells go to the `Large` strategy, the others to
    /// the `Small` one; the extra entries are those of both.
    pub proof fn lemma_behaviour(&self, moveable_cells: usize)
        ensures
            self.spec_extra_entries() == self.small().spec_extra_entries() + self.large().spec_extra_entries(),
            self.spec_analyze(moveable_cells) == if moveable_cells >= self.threshold() {
                self.large().spec_analyze(moveable_cells)
            } else {
                self.small().spec_analyze(moveable_cells)
            },
            moveable_cells >= self.threshold() ==> self.after_analyze(moveable_cells).large() == self.large().after_analyze(moveable_cells)
                && self.after_analyze(moveable_cells).small() == self.small(),
            moveable_cells < self.threshold() ==> self.after_analyze(moveable_cells).small() == self.small().after_analyze(moveable_cells)
                && self.after_analyze(moveable_cells).large() == self.large(),
            self.after_analyze(moveable_cells).threshold() == self.threshold(),
    {
    }
}


/// A term of the wirelength problem that a net contributes.
#[derive(Clone, Copy, Debug, PartialEq, Eq, Structural)]
pub enum Term {
    /// A spring between two mobile solver entries.
    MobileMobile(usize, usize),
    /// A spring pulling mobile solver entry `mobile` towards the centre of fixed cell `fixed`.
    FixedMobile { mobile: usize, fixed: usize },
    /// A spring pulling mobile cell `0` towards the centre of gravity of its net.
    AnchorMobile(usize),
}

/// The term between cells `i` and `j` of a clique: none when both are locked.
pub open spec fn pair_term(i: usize, j: usize, locked: Seq<bool>) -> Seq<Term> {
    match (locked[i as int], locked[j as int]) {
        (true, true) => Seq::empty(),
        (true, false) => seq![Term::FixedMobile { mobile: j, fixed: i }],
        (false, true) => seq![Term::FixedMobile { mobile: i, fixed: j }],
        (false, false) => seq![Term::MobileMobile(i, j)],
    }
}

/// The terms between cell `i` and each cell of `rest`, in order.
pub open spec fn pairs_with(i: usize, rest: Seq<usize>, locked: Seq<bool>) -> Seq<Term>
    decreases rest.len(),
{
    if rest.len() == 0 {
        Seq::empty()
    } else {
        pairs_with(i, rest.drop_last(), locked) + pair_term(i, rest.last(), locked)
    }
}

/// The clique terms of the first `k` cells of `cs`: each paired with every cell after it.
pub open spec fn clique_prefix(cs: Seq<usize>, k: int, locked: Seq<bool>) -> Seq<Term>
    decreases k,
{
    if k <= 0 {
        Seq::empty()
    } else {
        clique_prefix(cs, k - 1, locked) + pairs_with(cs[k - 1], cs.subrange(k, cs.len() as int), locked)
    }
}

/// The star terms of the cells `cs` around star `star`: every pin, locked or mobile, is tied
/// to the star's solver entry `mobile_count + star`.
pub open spec fn star_terms(cs: Seq<usize>, star: u32, mobile_count: usize, locked: Seq<bool>) -> Seq<Term>
    decreases cs.len(),
{
    if cs.len() == 0 {
        Seq::empty()
    } else {
        let c = cs.last();
        star_terms(cs.drop_last(), star, mobile_count, locked).push(if locked[c as int] {
            Term::FixedMobile { mobile: (mobile_count + star) as usize, fixed: c }
        } else {
            Term::MobileMobile((mobile_count + star) as usize, c)
        })
    }
}

/// The cells of `cs` that are not locked, in order.
pub open spec fn mobile_of(cs: Seq<usize>, locked: Seq<bool>) -> Seq<usize>
    decreases cs.len(),
{
    if cs.len() == 0 {
        Seq::empty()
    } else if locked[cs.last() as int] {
        mobile_of(cs.drop_last(), locked)
    } else {
        mobile_of(cs.drop_last(), locked).push(cs.last())
    }
}

/// The terms a net connecting `cs` contributes under strategy `s`.
pub open spec fn net_terms(s: NetStrategy, cs: Seq<usize>, locked: Seq<bool>, mobile_count: usize) -> Seq<Term> {
    match s {
        NetStrategy::AllFixed => Seq::empty(),
        NetStrategy::CliqueModel => clique_prefix(cs, cs.len() as int, locked),
        NetStrategy::StarModel { star_idx } => star_terms(cs, star_idx.0, mobile_count, locked),
        NetStrategy::Anchor => mobile_of(cs, locked).map_values(|c: usize| Term::AnchorMobile(c)),
    }
}

/// The cells of the signal are all cells of a list of `n`.
pub open spec fn cells_within(cs: Seq<usize>, n: int) -> bool {
    forall|k: int| 0 <= k < cs.len() ==> #[trigger] cs[k] < n
}

/// The mobile cells of `signal`, in order.
pub fn mobile_cells(signal: &Signal, locked: &Vec<bool>) -> (r: Vec<usize>)
    requires
        cells_within(signal.connected_cells@, locked@.len() as int),
    ensures
        r@ == mobile_of(signal.connected_cells@, locked@),
{
    let cs = &signal.connected_cells;
    let mut out: Vec<usize> = Vec::new();
    let n = cs.len();
    let mut k: usize = 0;
    proof {
        assert(cs@.take(0) =~= Seq::<usize>::empty());
    }
    while k < n
        invariant
            n == cs@.len(),
            cells_within(cs@, locked@.len() as int),
            k <= n,
            out@ == mobile_of(cs@.take(k as int), locked@),
        decreases n - k,
    {
        proof {
            assert(cs@.take(k + 1).drop_last() =~= cs@.take(k as int));
            assert(cs@.take(k + 1).last() == cs@[k as int]);
        }
        let c = cs[k];
        if !locked[c] {
            out.push(c);
        }
        k = k + 1;
    }
    proof {
        assert(cs@.take(n as int) =~= cs@);
    }
    out
}

/// The terms that `signal` contributes to the wirelength problem under strategy `strategy`,
/// `mobile_count` being the number of mobile cells (star entries come after them).
pub fn plan_net(strategy: NetStrategy, signal: &Signal, locked: &Vec<bool>, mobile_count: usize) -> (r: Vec<Term>)
    requires
        cells_within(signal.connected_cells@, locked@.len() as int),
        strategy matches NetStrategy::StarModel { star_idx } ==> mobile_count + star_idx.0 <= usize::MAX,
    ensures
        r@ == net_terms(strategy, signal.connected_cells@, locked@, mobile_count),
{
    let cs = &signal.connected_cells;
    let n = cs.len();
    let mut out: Vec<Term> = Vec::new();
    match strategy {
        NetStrategy::AllFixed => {},
        NetStrategy::CliqueModel => {
            let mut a: usize = 0;
            while a < n
                invariant
                    n == cs@.len(),
                    cells_within(cs@, locked@.len() as int),
                    a <= n,
                    out@ == clique_prefix(cs@, a as int, locked@),
                decreases n - a,
            {
                let i = cs[a];
                let mut b: usize = a + 1;
                proof {
                    assert(cs@.subrange(a + 1, a + 1) =~= Seq::<usize>::empty());
                }
                while b < n
                    invariant
                        n == cs@.len(),
                        cells_within(cs@, locked@.len() as int),
                        a < n,
                        i == cs@[a as int],
                        a + 1 <= b <= n,
                        out@ == clique_prefix(cs@, a as int, locked@) + pairs_with(i, cs@.subrange(a + 1, b as int), locked@),
                    decreases n - b,
                {
                    proof {
                        assert(cs@.subrange(a + 1, b + 1).drop_last() =~= cs@.subrange(a + 1, b as int));
                        assert(cs@.subrange(a + 1, b + 1).last() == cs@[b as int]);
                    }
                    let j = cs[b];
                    let ghost before = out@;
                    match (locked[i], locked[j]) {
                        (true, true) => {},
                        (true, false) => out.push(Term::FixedMobile { mobile: j, fixed: i }),
                        (false, true) => out.push(Term::FixedMobile { mobile: i, fixed: j }),
                        (false, false) => out.push(Term::MobileMobile(i, j)),
                    }
                    proof {
                        assert(out@ =~= before + pair_term(i, j, locked@));
                        assert(before + pair_term(i, j, locked@) =~= clique_prefix(cs@, a as int, locked@)
                            + pairs_with(i, cs@.subrange(a + 1, b + 1), locked@));
                    }
                    b = b + 1;
                }
                a = a + 1;
            }
        },
        NetStrategy::StarModel { star_idx } => {
            let star = star_idx.0;
            let mut k: usize = 0;
            proof {
                assert(cs@.take(0) =~= Seq::<usize>::empty());
            }
            while k < n
                invariant
                    n == cs@.len(),
                    cells_within(cs@, locked@.len() as int),
                    mobile_count + star <= usize::MAX,
                    k <= n,
                    out@ == star_terms(cs@.take(k as int), star, mobile_count, locked@),
                decreases n - k,
            {
                proof {
                    assert(cs@.take(k + 1).drop_last() =~= cs@.take(k as int));
                    assert(cs@.take(k + 1).last() == cs@[k as int]);
                }
                let c = cs[k];
                if locked[c] {
                    out.push(Term::FixedMobile { mobile: mobile_count + star as usize, fixed: c });
                } else {
                    out.push(Term::MobileMobile(mobile_count + star as usize, c));
                }
                k = k + 1;
            }
            proof {
                assert(cs@.take(n as int) =~= cs@);
            }
        },
        NetStrategy::Anchor => {
            let ms = mobile_cells(signal, locked);
            let m = ms.len();
            let mut k: usize = 0;
            while k < m
                invariant
                    m == ms@.len(),
                    k <= m,
                    out@ == ms@.take(k as int).map_values(|c: usize| Term::AnchorMobile(c)),
                decreases m - k,
            {
                proof {
                    assert(ms@.take(k + 1).map_values(|c: usize| Term::AnchorMobile(c))
                        =~= ms@.take(k as int).map_values(|c: usize| Term::AnchorMobile(c)).push(Term::AnchorMobile(ms@[k as int])));
                }
                out.push(Term::AnchorMobile(ms[k]));
                k = k + 1;
            }
            proof {
                assert(ms@.take(m as int) =~= ms@);
            }
        },
    }
    out
}

/// The state of strategy `s` after analyzing nets with `ms` mobile cells, in order.
pub open spec fn state_after<S: DecompositionStrategy>(s: S, ms: Seq<usize>) -> S
    decreases ms.len(),
{
    if ms.len() == 0 {
        s
    } else {
        state_after(s, ms.drop_last()).after_analyze(ms.last())
    }
}

/// Strategy `s` can analyze nets with `ms` mobile cells, in order.
pub open spec fn analyzable<S: DecompositionStrategy>(s: S, ms: Seq<usize>) -> bool {
    forall|k: int| 0 <= k < ms.len() ==> #[trigger] state_after(s, ms.take(k)).can_analyze(ms[k])
}

/// The mobile cell counts of the signals.
pub open spec fn moveables(signals: Seq<Signal>) -> Seq<usize> {
    signals.map_values(|s: Signal| s.moveable_cells)
}

/// Runs `strategy` over `signals` twice, as the solver needs: a first pass to learn the number
/// of extra solver entries, then a second that decides each net. Returns that number and each
/// signal's decision from the second pass.
pub fn decompose<S: DecompositionStrategy>(strategy: &mut S, signals: &Vec<Signal>) -> (r: (usize, Vec<NetStrategy>))
    requires
        analyzable(old(strategy).after_reset(), moveables(signals@)),
        state_after(old(strategy).after_reset(), moveables(signals@)).can_report(),
        analyzable(state_after(old(strategy).after_reset(), moveables(signals@)).after_reset(), moveables(signals@)),
    ensures
        ({
            let ms = moveables(signals@);
            let first = state_after(old(strategy).after_reset(), ms);
            let second = first.after_reset();
            &&& r.0 == first.spec_extra_entries()
            &&& r.1@.len() == ms.len()
            &&& forall|k: int| 0 <= k < ms.len() ==> #[trigger] r.1@[k] == state_after(second, ms.take(k)).spec_analyze(ms[k])
            &&& *final(strategy) == state_after(second, ms)
        }),
{
    let ghost ms = moveables(signals@);
    let n = signals.len();
    strategy.reset();
    let ghost s1 = *strategy;
    let mut k: usize = 0;
    proof {
        assert(ms.take(0) =~= Seq::<usize>::empty());
    }
    while k < n
        invariant
            n == signals@.len(),
            ms == moveables(signals@),
            analyzable(s1, ms),
            k <= n,
            *strategy == state_after(s1, ms.take(k as int)),
        decreases n - k,
    {
        proof {
            assert(ms.take(k + 1).drop_last() =~= ms.take(k as int));
            assert(state_after(s1, ms.take(k as int)).can_analyze(ms[k as int]));
        }
        strategy.analyze(&signals[k]);
        k = k + 1;
    }
    proof {
        assert(ms.take(n as int) =~= ms);
    }
    let extra = strategy.extra_entries();
    strategy.reset();
    let ghost s2 = *strategy;
    let mut out: Vec<NetStrategy> = Vec::new();
    let mut k: usize = 0;
    proof {
        assert(ms.take(0) =~= Seq::<usize>::empty());
    }
    while k < n
        invariant
            n == signals@.len(),
            ms == moveables(signals@),
            analyzable(s2, ms),
            k <= n,
            out@.len() == k,
            forall|j: int| 0 <= j < k ==> #[trigger] out@[j] == state_after(s2, ms.take(j)).spec_analyze(ms[j]),
            *strategy == state_after(s2, ms.take(k as int)),
        decreases n - k,
    {
        proof {
            assert(ms.take(k + 1).drop_last() =~= ms.take(k as int));
            assert(state_after(s2, ms.take(k as int)).can_analyze(ms[k as int]));
        }
        let d = strategy.analyze(&signals[k]);
        out.push(d);
        k = k + 1;
    }
    proof {
        assert(ms.take(n as int) =~= ms);
    }
    (extra, out)
}


/// How many of the nets with `ms` mobile cells have two or more.
pub open spec fn star_nets(ms: Seq<usize>) -> nat
    decreases ms.len(),
{
    if ms.len() == 0 {
        0
    } else {
        star_nets(ms.drop_last()) + if ms.last() >= 2 { 1nat } else { 0nat }
    }
}

impl MoveableStar {
    /// Over any run of analyses, one star is allocated per net with two or more mobile cells,
    /// and nothing else.
    pub proof fn lemma_stars_counted(self, ms: Seq<usize>)
        requires
            analyzable(self, ms),
        ensures
            state_after(self, ms).spec_extra_entries() == self.spec_extra_entries() + star_nets(ms),
        decreases ms.len(),
    {
        if ms.len() > 0 {
            let d = ms.drop_last();
            assert forall|k: int| 0 <= k < d.len() implies #[trigger] state_after(self, d.take(k)).can_analyze(d[k]) by {
                assert(d.take(k) =~= ms.take(k));
                assert(state_after(self, ms.take(k)).can_analyze(ms[k]));
            }
            self.lemma_stars_counted(d);
            assert(ms.take(ms.len() - 1) =~= d);
            assert(state_after(self, ms.take(ms.len() - 1)).can_analyze(ms[ms.len() - 1]));
        }
    }
}

} // verus!
