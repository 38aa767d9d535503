//! Upgrades bought between runs, and the credits that runs earn.

use vstd::prelude::*;
use crate::chance::PPM;
use crate::sim::Scaling;

verus! {

/// Upgrades bought between runs with the credits that linked nodes earn.
#[derive(Clone, Copy, Debug, PartialEq, Eq, Structural)]
pub enum Upgrade {
    Battery,
    LuminaReflection,
    LuminaPropagation,
    LuminaGeneration,
    LuminaLinks,
    LuminaCooldown,
    LuminaRecovery,
    Capacitor,
}

/// Number of upgrade kinds.
pub const UPGRADE_COUNT: usize = 8;

/// Levels above this are out of reach of any run; it keeps costs in `u32`.
pub const MAX_LEVEL: u32 = 100000000;

/// What the player has earned across runs.
#[derive(Clone, Copy, Debug, PartialEq, Eq, Structural)]
pub struct GameData {
    pub runs: u32,
    pub network_credits: u32,
    pub last_run_network_size: u32,
}

/// The upgrade at position `i` of the shop's list.
pub open spec fn upgrade_at(i: int) -> Upgrade {
    if i == 0 {
        Upgrade::Battery
    } else if i == 1 {
        Upgrade::LuminaReflection
    } else if i == 2 {
        Upgrade::LuminaPropagation
    } else if i == 3 {
        Upgrade::LuminaGeneration
    } else if i == 4 {
        Upgrade::LuminaLinks
    } else if i == 5 {
        Upgrade::LuminaCooldown
    } else if i == 6 {
        Upgrade::LuminaRecovery
    } else {
        Upgrade::Capacitor
    }
}

pub open spec fn scaled(v: u32, num: int, den: int, limit: int) -> u32 {
    if v * num / den > limit {
        limit as u32
    } else {
        (v * num / den) as u32
    }
}

impl Upgrade {
    /// Position of the upgrade in the shop's list.
    pub open spec fn index_spec(self) -> int {
        match self {
            Upgrade::Battery => 0,
            Upgrade::LuminaReflection => 1,
            Upgrade::LuminaPropagation => 2,
            Upgrade::LuminaGeneration => 3,
            Upgrade::LuminaLinks => 4,
            Upgrade::LuminaCooldown => 5,
            Upgrade::LuminaRecovery => 6,
            Upgrade::Capacitor => 7,
        }
    }

    /// Position of the upgrade's description in alphabetical order.
    pub open spec fn description_rank(self) -> int {
        match self {
            Upgrade::LuminaCooldown => 0,
            Upgrade::Capacitor => 1,
            Upgrade::LuminaGeneration => 2,
            Upgrade::LuminaPropagation => 3,
            Upgrade::LuminaRecovery => 4,
            Upgrade::LuminaReflection => 5,
            Upgrade::Battery => 6,
            Upgrade::LuminaLinks => 7,
        }
    }

    /// Credits that each level costs.
    pub open spec fn cost_factor(self) -> int {
        match self {
            Upgrade::Battery => 10,
            Upgrade::LuminaGeneration => 3,
            Upgrade::Capacitor => 5,
            _ => 2,
        }
    }

    /// The scaling after this upgrade is applied once. Probabilities stop at
    /// certainty and rates at the largest `u32`.
    pub open spec fn applied(self, s: Scaling) -> Scaling {
        match self {
            Upgrade::Battery => Scaling { max_battery: (s.max_battery + 500000) as u64, ..s },
            Upgrade::LuminaReflection => Scaling {
                reflection_probability: scaled(s.reflection_probability, 11, 10, PPM as int),
                ..s
            },
            Upgrade::LuminaPropagation => Scaling {
                propagation_probability: scaled(s.propagation_probability, 11, 10, PPM as int),
                ..s
            },
            Upgrade::LuminaGeneration => Scaling {
                generation_per_sec: scaled(s.generation_per_sec, 23, 20, u32::MAX as int),
                ..s
            },
            Upgrade::LuminaLinks => Scaling { max_links: (s.max_links + 1) as usize, ..s },
            Upgrade::LuminaCooldown => Scaling {
                lumina_cooldown_per_generation: scaled(s.lumina_cooldown_per_generation, 19, 20, PPM as int),
                ..s
            },
            Upgrade::LuminaRecovery => Scaling {
                lumina_resume_per_sec: scaled(s.lumina_resume_per_sec, 21, 20, u32::MAX as int),
                ..s
            },
            Upgrade::Capacitor => Scaling { max_capacitor: (s.max_capacitor + 500000) as u64, ..s },
        }
    }

    /// The scaling has room for this upgrade: an energy store can grow by
    /// another level, and the link cap by one more.
    pub open spec fn fits(self, s: Scaling) -> bool {
        match self {
            Upgrade::Battery | Upgrade::Capacitor => s.energy_cap() + 500000 <= u64::MAX,
            Upgrade::LuminaLinks => s.max_links < usize::MAX,
            _ => true,
        }
    }

    /// The upgrade is not offered yet.
    pub open spec fn hidden_spec(self, s: Scaling, data: GameData) -> bool {
        match self {
            Upgrade::Battery => false,
            Upgrade::LuminaReflection => data.runs < 3,
            Upgrade::LuminaPropagation => s.reflection_probability < 600000,
            Upgrade::LuminaGeneration => false,
            Upgrade::LuminaLinks => s.propagation_probability < 750000,
            Upgrade::LuminaCooldown => data.runs < 4,
            Upgrade::LuminaRecovery => s.lumina_cooldown_per_generation > 75000,
            Upgrade::Capacitor => s.max_battery < 3000000,
        }
    }

    pub fn index(&self) -> (r: usize)
        ensures
            r == self.index_spec(),
            upgrade_at(r as int) == *self,
    {
        match self {
            Upgrade::Battery => 0,
            Upgrade::LuminaReflection => 1,
            Upgrade::LuminaPropagation => 2,
            Upgrade::LuminaGeneration => 3,
            Upgrade::LuminaLinks => 4,
            Upgrade::LuminaCooldown => 5,
            Upgrade::LuminaRecovery => 6,
            Upgrade::Capacitor => 7,
        }
    }

    /// The upgrade at position `i` of the shop's list.
    pub fn at(i: usize) -> (r: Upgrade)
        requires
            i < UPGRADE_COUNT,
        ensures
            r == upgrade_at(i as int),
            r.index_spec() == i,
    {
        if i == 0 {
            Upgrade::Battery
        } else if i == 1 {
            Upgrade::LuminaReflection
        } else if i == 2 {
            Upgrade::LuminaPropagation
        } else if i == 3 {
            Upgrade::LuminaGeneration
        } else if i == 4 {
            Upgrade::LuminaLinks
        } else if i == 5 {
            Upgrade::LuminaCooldown
        } else if i == 6 {
            Upgrade::LuminaRecovery
        } else {
            Upgrade::Capacitor
        }
    }

    /// The text the shop shows for the upgrade.
    pub open spec fn description_text(self) -> Seq<char> {
        match self {
            Upgrade::Battery => "Research ion storage"@,
            Upgrade::LuminaReflection => "Research Lumina reflection"@,
            Upgrade::LuminaPropagation => "Research Lumina propagation"@,
            Upgrade::LuminaGeneration => "Research Lumina generation"@,
            Upgrade::LuminaLinks => "Research max Lumina links"@,
            Upgrade::LuminaCooldown => "Research Lumina burnout"@,
            Upgrade::LuminaRecovery => "Research Lumina recovery"@,
            Upgrade::Capacitor => "Research Lumina capacitors"@,
        }
    }

    pub fn description(&self) -> (r: &'static str)
        ensures
            r@ == self.description_text(),
    {
        match self {
            Upgrade::Battery => "Research ion storage",
            Upgrade::LuminaReflection => "Research Lumina reflection",
            Upgrade::LuminaPropagation => "Research Lumina propagation",
            Upgrade::LuminaGeneration => "Research Lumina generation",
            Upgrade::LuminaLinks => "Research max Lumina links",
            Upgrade::LuminaCooldown => "Research Lumina burnout",
            Upgrade::LuminaRecovery => "Research Lumina recovery",
            Upgrade::Capacitor => "Research Lumina capacitors",
        }
    }

    /// Credits that `level` of this upgrade costs.
    pub fn cost(&self, level: u32) -> (r: u32)
        requires
            level <= MAX_LEVEL,
        ensures
            r == level * self.cost_factor(),
    {
        match self {
            Upgrade::Battery => level * 10,
            Upgrade::LuminaGeneration => level * 3,
            Upgrade::Capacitor => level * 5,
            _ => level * 2,
        }
    }

    pub fn fits_in(&self, scaling: &Scaling) -> (r: bool)
        requires
            scaling.wf(),
        ensures
            r == self.fits(*scaling),
    {
        match self {
            Upgrade::Battery | Upgrade::Capacitor => scaling.energy_cap_value() <= u64::MAX - 500000,
            Upgrade::LuminaLinks => scaling.max_links < usize::MAX,
            _ => true,
        }
    }

    pub fn hidden(&self, scaling: &Scaling, data: &GameData) -> (r: bool)
        ensures
            r == self.hidden_spec(*scaling, *data),
    {
        match self {
            Upgrade::Battery => false,
            Upgrade::LuminaReflection => data.runs < 3,
            Upgrade::LuminaPropagation => scaling.reflection_probability < 600000,
            Upgrade::LuminaGeneration => false,
            Upgrade::LuminaLinks => scaling.propagation_probability < 750000,
            Upgrade::LuminaCooldown => data.runs < 4,
            Upgrade::LuminaRecovery => scaling.lumina_cooldown_per_generation > 75000,
            Upgrade::Capacitor => scaling.max_battery < 3000000,
        }
    }

    /// Applies one level of this upgrade to the scaling of later runs.
    pub fn apply(&self, scaling: &mut Scaling)
        requires
            self.fits(*old(scaling)),
        ensures
            *final(scaling) == self.applied(*old(scaling)),
    {
        match self {
            Upgrade::Battery => {
                scaling.max_battery = scaling.max_battery + 500000;
            },
            Upgrade::LuminaReflection => {
                scaling.reflection_probability = scale(scaling.reflection_probability, 11, 10, PPM);
            },
            Upgrade::LuminaPropagation => {
                scaling.propagation_probability = scale(scaling.propagation_probability, 11, 10, PPM);
            },
            Upgrade::LuminaGeneration => {
                scaling.generation_per_sec = scale(scaling.generation_per_sec, 23, 20, u32::MAX);
            },
            Upgrade::LuminaLinks => {
                scaling.max_links = scaling.max_links + 1;
            },
            Upgrade::LuminaCooldown => {
                scaling.lumina_cooldown_per_generation = scale(scaling.lumina_cooldown_per_generation, 19, 20, PPM);
            },
            Upgrade::LuminaRecovery => {
                scaling.lumina_resume_per_sec = scale(scaling.lumina_resume_per_sec, 21, 20, u32::MAX);
            },
            Upgrade::Capacitor => {
                scaling.max_capacitor = scaling.max_capacitor + 500000;
            },
        }
    }
}

fn scale(v: u32, num: u64, den: u64, limit: u32) -> (r: u32)
    requires
        num <= 100,
        den > 0,
    ensures
        r == scaled(v, num as int, den as int, limit as int),
{
    assert(v * num <= 0xffffffff * 100) by (nonlinear_arith)
        requires v <= 0xffffffff, num <= 100;
    let x: u64 = (v as u64) * num / den;
    if x > limit as u64 {
        limit
    } else {
        x as u32
    }
}

impl GameData {
    pub fn new() -> (r: GameData)
        ensures
            r == (GameData { runs: 0, network_credits: 0, last_run_network_size: 0 }),
    {
        GameData { runs: 0, network_credits: 0, last_run_network_size: 0 }
    }

    /// Records the end of a run whose network reached `network_size` nodes:
    /// they are added to the credits.
    pub fn end_run(&mut self, network_size: u32)
        requires
            old(self).runs < u32::MAX,
            old(self).network_credits + network_size <= u32::MAX,
        ensures
            *final(self) == (GameData {
                runs: (old(self).runs + 1) as u32,
                network_credits: (old(self).network_credits + network_size) as u32,
                last_run_network_size: network_size,
            }),
    {
        self.runs = self.runs + 1;
        self.last_run_network_size = network_size;
        self.network_credits = self.network_credits + network_size;
    }
}

/// One entry of the shop: the next level of an upgrade, its cost, and
/// whether it is shown and can be bought.
#[derive(Clone, Copy, Debug, PartialEq, Eq, Structural)]
pub struct UpgradeState {
    pub upgrade: Upgrade,
    /// Levels bought so far.
    pub level: u32,
    /// Cost of the next level.
    pub cost: u32,
    pub enabled: bool,
    pub hidden: bool,
}

/// The shop entry of upgrade `u` at `level`.
pub open spec fn state_spec(u: Upgrade, level: u32, s: Scaling, data: GameData) -> UpgradeState {
    let cost = ((level + 1) * u.cost_factor()) as u32;
    UpgradeState {
        upgrade: u,
        level,
        cost,
        enabled: !u.hidden_spec(s, data) && cost <= data.network_credits,
        hidden: u.hidden_spec(s, data),
    }
}

/// Shop order: shown entries first, then by cost, then by description.
pub open spec fn before(a: UpgradeState, b: UpgradeState) -> bool {
    ||| (!a.hidden && b.hidden)
    ||| (a.hidden == b.hidden && a.cost < b.cost)
    ||| (a.hidden == b.hidden && a.cost == b.cost && a.upgrade.description_rank() < b.upgrade.description_rank())
}

fn precedes(a: &UpgradeState, b: &UpgradeState) -> (r: bool)
    ensures
        r == before(*a, *b),
{
    let ra = rank(a.upgrade);
    let rb = rank(b.upgrade);
    (!a.hidden && b.hidden) || (a.hidden == b.hidden && a.cost < b.cost) || (a.hidden == b.hidden && a.cost
        == b.cost && ra < rb)
}

fn rank(u: Upgrade) -> (r: u8)
    ensures
        r == u.description_rank(),
{
    match u {
        Upgrade::LuminaCooldown => 0,
        Upgrade::Capacitor => 1,
        Upgrade::LuminaGeneration => 2,
        Upgrade::LuminaPropagation => 3,
        Upgrade::LuminaRecovery => 4,
        Upgrade::LuminaReflection => 5,
        Upgrade::Battery => 6,
        Upgrade::LuminaLinks => 7,
    }
}

/// The shop's entries: one per upgrade, at the level of `levels`, in shop order.
pub fn summarise_upgrades(scaling: &Scaling, data: &GameData, levels: &Vec<u32>) -> (r: Vec<UpgradeState>)
    requires
        levels.len() == UPGRADE_COUNT,
        forall|i: int| 0 <= i < UPGRADE_COUNT ==> #[trigger] levels@[i] < MAX_LEVEL,
    ensures
        r.len() == UPGRADE_COUNT,
        forall|j: int| 0 <= j < r.len() - 1 ==> before(#[trigger] r@[j], r@[j + 1]),
        forall|i: int| 0 <= i < UPGRADE_COUNT ==> r@.contains(
            #[trigger] state_spec(upgrade_at(i), levels@[i], *scaling, *data),
        ),
{
    let mut r: Vec<UpgradeState> = Vec::new();
    let mut i: usize = 0;
    while i < UPGRADE_COUNT
        invariant
            i <= UPGRADE_COUNT,
            levels.len() == UPGRADE_COUNT,
            forall|k: int| 0 <= k < UPGRADE_COUNT ==> #[trigger] levels@[k] < MAX_LEVEL,
            r.len() == i,
            forall|j: int| 0 <= j < r.len() - 1 ==> before(#[trigger] r@[j], r@[j + 1]),
            forall|k: int| 0 <= k < i ==> r@.contains(#[trigger] state_spec(upgrade_at(k), levels@[k], *scaling, *data)),
            forall|j: int| 0 <= j < r.len() ==> exists|k: int| 0 <= k < i && #[trigger] r@[j] == state_spec(upgrade_at(k), levels@[k], *scaling, *data),
        decreases UPGRADE_COUNT - i,
    {
        let u = Upgrade::at(i);
        let hidden = u.hidden(scaling, data);
        let cost = u.cost(levels[i] + 1);
        let state = UpgradeState {
            upgrade: u,
            level: levels[i],
            cost,
            enabled: !hidden && cost <= data.network_credits,
            hidden,
        };
        assert(state == state_spec(upgrade_at(i as int), levels@[i as int], *scaling, *data));
        let mut p: usize = 0;
        while p < r.len() && precedes(&r[p], &state)
            invariant
                p <= r.len(),
                forall|j: int| 0 <= j < p ==> before(#[trigger] r@[j], state),
            decreases r.len() - p,
        {
            p = p + 1;
        }
        let ghost old_r = r@;
        r.insert(p, state);
        proof {
            lemma_insert_sorted(old_r, p as int, state, i as int, levels@, *scaling, *data);
        }
        i = i + 1;
    }
    r
}

/// Entries for distinct upgrades never tie in shop order.
proof fn lemma_before_total(a: UpgradeState, b: UpgradeState)
    requires
        a.upgrade != b.upgrade,
    ensures
        before(a, b) || before(b, a),
        !(before(a, b) && before(b, a)),
{
}

/// Every entry so far is for an upgrade before position `i`, so not `x`'s.
proof fn lemma_new_upgrade(r: Seq<UpgradeState>, x: UpgradeState, i: int, levels: Seq<u32>, s: Scaling, data: GameData)
    requires
        0 <= i < UPGRADE_COUNT,
        x == state_spec(upgrade_at(i), levels[i], s, data),
        forall|j: int| 0 <= j < r.len() ==> exists|k: int| 0 <= k < i && #[trigger] r[j] == state_spec(upgrade_at(k), levels[k], s, data),
    ensures
        forall|j: int| 0 <= j < r.len() ==> (#[trigger] r[j]).upgrade != x.upgrade,
{
    assert forall|j: int| 0 <= j < r.len() implies (#[trigger] r[j]).upgrade != x.upgrade by {
        let k = choose|k: int| 0 <= k < i && r[j] == state_spec(upgrade_at(k), levels[k], s, data);
        assert(upgrade_at(k).index_spec() == k);
        assert(upgrade_at(i).index_spec() == i);
    }
}

/// Inserting `x` after the entries that precede it, and before one that it
/// precedes, keeps a list in shop order.
proof fn lemma_insert_order(r: Seq<UpgradeState>, p: int, x: UpgradeState)
    requires
        0 <= p <= r.len(),
        forall|j: int| 0 <= j < r.len() - 1 ==> before(#[trigger] r[j], r[j + 1]),
        forall|j: int| 0 <= j < p ==> before(#[trigger] r[j], x),
        p < r.len() ==> before(x, r[p]),
    ensures
        forall|j: int| 0 <= j < r.insert(p, x).len() - 1 ==> before(#[trigger] r.insert(p, x)[j], r.insert(p, x)[j + 1]),
{
    let r2 = r.insert(p, x);
    assert forall|j: int| 0 <= j < r2.len() - 1 implies before(#[trigger] r2[j], r2[j + 1]) by {
        if j < p - 1 {
            assert(r2[j] == r[j] && r2[j + 1] == r[j + 1]);
        } else if j == p - 1 {
            assert(r2[j] == r[j] && r2[j + 1] == x);
        } else if j == p {
            assert(r2[j] == x && r2[j + 1] == r[p]);
        } else {
            assert(r2[j] == r[j - 1] && r2[j + 1] == r[j]);
        }
    }
}

proof fn lemma_insert_sorted(
    r: Seq<UpgradeState>,
    p: int,
    x: UpgradeState,
    i: int,
    levels: Seq<u32>,
    s: Scaling,
    data: GameData,
)
    requires
        0 <= i < UPGRADE_COUNT,
        0 <= p <= r.len(),
        r.len() == i,
        x == state_spec(upgrade_at(i), levels[i], s, data),
        forall|j: int| 0 <= j < r.len() - 1 ==> before(#[trigger] r[j], r[j + 1]),
        forall|k: int| 0 <= k < i ==> r.contains(#[trigger] state_spec(upgrade_at(k), levels[k], s, data)),
        forall|j: int| 0 <= j < r.len() ==> exists|k: int| 0 <= k < i && #[trigger] r[j] == state_spec(upgrade_at(k), levels[k], s, data),
        forall|j: int| 0 <= j < p ==> before(#[trigger] r[j], x),
        p < r.len() ==> !before(r[p], x),
    ensures
        ({
            let r2 = r.insert(p, x);
            &&& r2.len() == i + 1
            &&& forall|j: int| 0 <= j < r2.len() - 1 ==> before(#[trigger] r2[j], r2[j + 1])
            &&& forall|k: int| 0 <= k < i + 1 ==> r2.contains(#[trigger] state_spec(upgrade_at(k), levels[k], s, data))
            &&& forall|j: int| 0 <= j < r2.len() ==> exists|k: int| 0 <= k < i + 1 && #[trigger] r2[j] == state_spec(upgrade_at(k), levels[k], s, data)
        }),
{
    let r2 = r.insert(p, x);
    lemma_new_upgrade(r, x, i, levels, s, data);
    if p < r.len() {
        lemma_before_total(r[p], x);
        assert(before(x, r[p]));
    }
    lemma_insert_order(r, p, x);
    assert forall|k: int| 0 <= k < i + 1 implies r2.contains(#[trigger] state_spec(upgrade_at(k), levels[k], s, data)) by {
        if k == i {
            assert(r2[p] == x);
        } else {
            let st = state_spec(upgrade_at(k), levels[k], s, data);
            assert(r.contains(st));
            let j = choose|j: int| 0 <= j < r.len() && r[j] == st;
            if j < p {
                assert(r2[j] == st);
            } else {
                assert(r2[j + 1] == st);
            }
        }
    }
    assert forall|j: int| 0 <= j < r2.len() implies exists|k: int| 0 <= k < i + 1 && #[trigger] r2[j] == state_spec(upgrade_at(k), levels[k], s, data) by {
        if j < p {
            assert(r2[j] == r[j]);
        } else if j == p {
            assert(r2[j] == state_spec(upgrade_at(i), levels[i], s, data));
        } else {
            assert(r2[j] == r[j - 1]);
        }
    }
}

/// Buys the next level of `u` when it is offered and affordable: its level
/// rises by one, it applies to the scaling, and its cost leaves the credits.
/// Returns whether it was bought.
pub fn purchase(u: Upgrade, levels: &mut Vec<u32>, scaling: &mut Scaling, data: &mut GameData) -> (r: bool)
    requires
        old(levels).len() == UPGRADE_COUNT,
        forall|i: int| 0 <= i < UPGRADE_COUNT ==> #[trigger] old(levels)@[i] < MAX_LEVEL,
        u.fits(*old(scaling)),
    ensures
        ({
            let st = state_spec(u, old(levels)@[u.index_spec()], *old(scaling), *old(data));
            &&& r == st.enabled
            &&& r ==> {
                &&& final(levels)@ == old(levels)@.update(u.index_spec(), (old(levels)@[u.index_spec()] + 1) as u32)
                &&& *final(scaling) == u.applied(*old(scaling))
                &&& *final(data) == (GameData { network_credits: (old(data).network_credits - st.cost) as u32, ..*old(data) })
            }
            &&& !r ==> final(levels)@ == old(levels)@ && *final(scaling) == *old(scaling) && *final(data) == *old(data)
        }),
{
    let i = u.index();
    let level = levels[i];
    let cost = u.cost(level + 1);
    if u.hidden(scaling, data) || cost > data.network_credits {
        return false;
    }
    levels.set(i, level + 1);
    u.apply(scaling);
    data.network_credits = data.network_credits - cost;
    true
}

} // verus!
