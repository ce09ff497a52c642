use vstd::prelude::*;

verus! {

/// A grid position: (row, column).
pub type Position = (usize, usize);

/// Modulus of the structural hash of a world state.
pub const HASH_MODULUS: u64 = 1_000_000_007;

/// Multiplier of the structural hash of a world state.
pub const HASH_BASE: u64 = 31;

/// Mathematical value of a world state.
pub struct WorldStateView {
    pub agents_positions: Seq<Position>,
    pub gems_collected: Seq<bool>,
}

/// One step of the polynomial hash.
pub open spec fn mix(h: nat, x: nat) -> nat {
    ((h * (HASH_BASE as nat) + x % (HASH_MODULUS as nat)) % (HASH_MODULUS as nat)) as nat
}

pub open spec fn hash_positions(h: nat, s: Seq<Position>) -> nat
    decreases s.len(),
{
    if s.len() == 0 {
        h
    } else {
        let p = s.last();
        mix(mix(hash_positions(h, s.drop_last()), p.0 as nat), p.1 as nat)
    }
}

pub open spec fn hash_flags(h: nat, s: Seq<bool>) -> nat
    decreases s.len(),
{
    if s.len() == 0 {
        h
    } else {
        mix(hash_flags(h, s.drop_last()), if s.last() { 1 } else { 0 })
    }
}

/// The structural hash of a world state: the positions, then their count, then
/// the gem flags, then their count.
pub open spec fn world_hash(w: WorldStateView) -> nat {
    let h = mix(hash_positions(0, w.agents_positions), w.agents_positions.len());
    mix(hash_flags(h, w.gems_collected), w.gems_collected.len())
}

/// Text of the `Debug` rendering of a sequence of positions.
pub uninterp spec fn positions_text(s: Seq<Position>) -> Seq<char>;

/// Text of the `Debug` rendering of a sequence of flags.
pub uninterp spec fn flags_text(s: Seq<bool>) -> Seq<char>;

/// The human-readable rendering of a world state.
pub open spec fn world_text(w: WorldStateView) -> Seq<char> {
    "WorldState(agent_positions="@ + positions_text(w.agents_positions) + ", gems_collected="@
        + flags_text(w.gems_collected) + ")"@
}

/// Relies on the `Debug` formatting of `Vec<(usize, usize)>`, whose text depends
/// on the positions alone.
#[verifier::external_body]
fn debug_positions(v: &Vec<Position>) -> (r: String)
    ensures
        r@ == positions_text(v@),
{
    format!("{:?}", v)
}

/// Relies on the `Debug` formatting of `Vec<bool>`, whose text depends on the
/// flags alone.
#[verifier::external_body]
fn debug_flags(v: &Vec<bool>) -> (r: String)
    ensures
        r@ == flags_text(v@),
{
    format!("{:?}", v)
}

/// A snapshot of the simulation: one position per agent and one flag per gem.
#[derive(Debug)]
pub struct WorldState {
    pub agents_positions: Vec<Position>,
    pub gems_collected: Vec<bool>,
}

impl View for WorldState {
    type V = WorldStateView;

    open spec fn view(&self) -> WorldStateView {
        WorldStateView {
            agents_positions: self.agents_positions@,
            gems_collected: self.gems_collected@,
        }
    }
}

fn copy_positions(v: &Vec<Position>) -> (r: Vec<Position>)
    ensures
        r@ == v@,
{
    let mut r: Vec<Position> = Vec::with_capacity(v.len());
    let mut i: usize = 0;
    while i < v.len()
        invariant
            i <= v.len(),
            r@ == v@.subrange(0, i as int),
        decreases v.len() - i,
    {
        r.push(v[i]);
        i = i + 1;
    }
    assert(r@ =~= v@);
    r
}

fn copy_flags(v: &Vec<bool>) -> (r: Vec<bool>)
    ensures
        r@ == v@,
{
    let mut r: Vec<bool> = Vec::with_capacity(v.len());
    let mut i: usize = 0;
    while i < v.len()
        invariant
            i <= v.len(),
            r@ == v@.subrange(0, i as int),
        decreases v.len() - i,
    {
        r.push(v[i]);
        i = i + 1;
    }
    assert(r@ =~= v@);
    r
}

fn same_positions(a: &Vec<Position>, b: &Vec<Position>) -> (r: bool)
    ensures
        r == (a@ == b@),
{
    if a.len() != b.len() {
        return false;
    }
    let mut i: usize = 0;
    while i < a.len()
        invariant
            a.len() == b.len(),
            i <= a.len(),
            a@.subrange(0, i as int) == b@.subrange(0, i as int),
        decreases a.len() - i,
    {
        if a[i].0 != b[i].0 || a[i].1 != b[i].1 {
            return false;
        }
        assert(a@.subrange(0, i + 1) =~= a@.subrange(0, i as int).push(a@[i as int]));
        assert(b@.subrange(0, i + 1) =~= b@.subrange(0, i as int).push(b@[i as int]));
        i = i + 1;
    }
    assert(a@ =~= a@.subrange(0, i as int));
    assert(b@ =~= b@.subrange(0, i as int));
    true
}

fn same_flags(a: &Vec<bool>, b: &Vec<bool>) -> (r: bool)
    ensures
        r == (a@ == b@),
{
    if a.len() != b.len() {
        return false;
    }
    let mut i: usize = 0;
    while i < a.len()
        invariant
            a.len() == b.len(),
            i <= a.len(),
            a@.subrange(0, i as int) == b@.subrange(0, i as int),
        decreases a.len() - i,
    {
        if a[i] != b[i] {
            return false;
        }
        assert(a@.subrange(0, i + 1) =~= a@.subrange(0, i as int).push(a@[i as int]));
        assert(b@.subrange(0, i + 1) =~= b@.subrange(0, i as int).push(b@[i as int]));
        i = i + 1;
    }
    assert(a@ =~= a@.subrange(0, i as int));
    assert(b@ =~= b@.subrange(0, i as int));
    true
}

fn mix_exec(h: u64, x: u64) -> (r: u64)
    requires
        h < HASH_MODULUS,
    ensures
        r < HASH_MODULUS,
        r as nat == mix(h as nat, x as nat),
{
    let t: u64 = h * HASH_BASE + x % HASH_MODULUS;
    t % HASH_MODULUS
}

impl WorldState {
    /// Builds a world state from explicit sequences, without validation.
    pub fn new(agents_positions: Vec<Position>, gems_collected: Vec<bool>) -> (r: Self)
        ensures
            r@.agents_positions == agents_positions@,
            r@.gems_collected == gems_collected@,
    {
        WorldState { agents_positions, gems_collected }
    }

    /// An independent copy: it shares no sequence with `self`.
    pub fn deep_copy(&self) -> (r: Self)
        ensures
            r@ == self@,
    {
        WorldState {
            agents_positions: copy_positions(&self.agents_positions),
            gems_collected: copy_flags(&self.gems_collected),
        }
    }

    /// Structural equality over both sequences.
    pub fn equals(&self, other: &WorldState) -> (r: bool)
        ensures
            r == (self@ == other@),
    {
        let a = same_positions(&self.agents_positions, &other.agents_positions);
        let g = same_flags(&self.gems_collected, &other.gems_collected);
        a && g
    }

    /// Structural hash over both sequences.
    pub fn hash_value(&self) -> (r: u64)
        ensures
            r as nat == world_hash(self@),
    {
        let mut h: u64 = 0;
        let mut i: usize = 0;
        while i < self.agents_positions.len()
            invariant
                i <= self.agents_positions.len(),
                h < HASH_MODULUS,
                h as nat == hash_positions(0, self.agents_positions@.subrange(0, i as int)),
            decreases self.agents_positions.len() - i,
        {
            let p = self.agents_positions[i];
            assert(self.agents_positions@.subrange(0, i + 1).drop_last() =~= self.agents_positions@.subrange(0, i as int));
            h = mix_exec(h, p.0 as u64);
            h = mix_exec(h, p.1 as u64);
            i = i + 1;
        }
        assert(self.agents_positions@.subrange(0, i as int) =~= self.agents_positions@);
        h = mix_exec(h, self.agents_positions.len() as u64);
        let ghost h0 = h as nat;
        let mut k: usize = 0;
        while k < self.gems_collected.len()
            invariant
                k <= self.gems_collected.len(),
                h < HASH_MODULUS,
                h as nat == hash_flags(h0, self.gems_collected@.subrange(0, k as int)),
            decreases self.gems_collected.len() - k,
        {
            assert(self.gems_collected@.subrange(0, k + 1).drop_last() =~= self.gems_collected@.subrange(0, k as int));
            let bit: u64 = if self.gems_collected[k] { 1 } else { 0 };
            h = mix_exec(h, bit);
            k = k + 1;
        }
        assert(self.gems_collected@.subrange(0, k as int) =~= self.gems_collected@);
        mix_exec(h, self.gems_collected.len() as u64)
    }

    /// Human-readable rendering listing both sequences.
    pub fn render(&self) -> (r: String)
        ensures
            r@ == world_text(self@),
    {
        let mut s = String::from_str("WorldState(agent_positions=");
        let a = debug_positions(&self.agents_positions);
        s.append(a.as_str());
        s.append(", gems_collected=");
        let g = debug_flags(&self.gems_collected);
        s.append(g.as_str());
        s.append(")");
        s
    }
}

impl PartialEq for WorldState {
    fn eq(&self, other: &WorldState) -> (r: bool) {
        self.equals(other)
    }
}

impl vstd::std_specs::cmp::PartialEqSpecImpl for WorldState {
    open spec fn obeys_eq_spec() -> bool {
        true
    }

    open spec fn eq_spec(&self, other: &WorldState) -> bool {
        self@ == other@
    }
}

impl Clone for WorldState {
    fn clone(&self) -> (r: Self)
        ensures
            r@ == self@,
    {
        self.deep_copy()
    }
}

/// World-state equality is reflexive, symmetric and transitive, and equal
/// states have equal hashes.
pub proof fn lemma_equality_consistent_with_hash(
    a: WorldStateView,
    b: WorldStateView,
    c: WorldStateView,
)
    ensures
        a == a,
        a == b ==> b == a,
        a == b && b == c ==> a == c,
        a == b ==> world_hash(a) == world_hash(b),
{
}

/// Rendering is a function of the value: equal states render to the same text.
pub proof fn lemma_rendering_is_stable(a: WorldStateView, b: WorldStateView)
    requires
        a == b,
    ensures
        world_text(a) == world_text(b),
{
}

} // verus!
