//! The entities a block is built from, named by the caller and resolved
//! against the prototype registry before anything is placed.
use vstd::prelude::*;

use crate::layout::cell::CellTopology;
use crate::layout::error::LayoutError;
use crate::prototype::{EntityCategory, EntityPrototype, Frac, Prototypes};
use crate::registry::Named;

verus! {

/// The entities the generator builds a block out of.
#[derive(Debug, Clone, PartialEq, Eq)]
pub struct LayoutConfig {
    /// A transport belt, e.g. `express-transport-belt`.
    pub belt_tier: String,
    /// An electric pole, e.g. `medium-electric-pole`.
    pub pole: String,
    /// An inserter, e.g. `fast-inserter`.
    pub inserter: String,
    /// An inserter reaching the outer belt of a pair, two tiles away.
    pub long_inserter: String,
    /// The columnar cell shape steps are sized against.
    pub topology: CellTopology,
}

/// The reach, in tiles, a long inserter must have to touch the outer belt
/// of a pair.
pub const LONG_INSERTER_REACH: i64 = 2;

impl LayoutConfig {
    /// The long inserter defaults to `long-handed-inserter` and the topology
    /// to the default cell.
    pub fn new(belt_tier: &str, pole: &str, inserter: &str) -> (res: Self)
        ensures
            res.belt_tier@ == belt_tier@,
            res.pole@ == pole@,
            res.inserter@ == inserter@,
            res.long_inserter@ == "long-handed-inserter"@,
            res.topology.spine_belts == 2,
            res.topology.edge_belts == 1,
            res.topology.ingredients_on == crate::layout::cell::Side::Spine,
            res.topology.target_width is None,
    {
        LayoutConfig {
            belt_tier: String::from_str(belt_tier),
            pole: String::from_str(pole),
            inserter: String::from_str(inserter),
            long_inserter: String::from_str("long-handed-inserter"),
            topology: CellTopology::default(),
        }
    }

    pub fn with_long_inserter(self, long_inserter: &str) -> (res: Self)
        ensures
            res.long_inserter@ == long_inserter@,
            res.belt_tier == self.belt_tier,
            res.pole == self.pole,
            res.inserter == self.inserter,
            res.topology == self.topology,
    {
        let mut c = self;
        c.long_inserter = String::from_str(long_inserter);
        c
    }

    pub fn with_topology(self, topology: CellTopology) -> (res: Self)
        ensures
            res == (LayoutConfig { topology, ..self }),
    {
        let mut c = self;
        c.topology = topology;
        c
    }
}

impl Default for LayoutConfig {
    /// Yellow belts, medium poles and plain inserters.
    fn default() -> (res: Self)
        ensures
            res.belt_tier@ == "transport-belt"@,
            res.pole@ == "medium-electric-pole"@,
            res.inserter@ == "inserter"@,
            res.long_inserter@ == "long-handed-inserter"@,
            res.topology.spine_belts == 2,
            res.topology.edge_belts == 1,
    {
        Self::new("transport-belt", "medium-electric-pole", "inserter")
    }
}

/// The absolute value of a coordinate reaches `n` tiles.
pub open spec fn reaches(f: Frac, n: int) -> bool {
    f.num >= n * f.den || f.num <= -n * f.den
}

/// The inserter's pickup point lies at least `n` tiles away along some axis.
pub open spec fn pickup_reaches(p: EntityPrototype, n: int) -> bool {
    match p.pickup_position {
        Some((x, y)) => reaches(x, n) || reaches(y, n),
        None => false,
    }
}

/// Whether an inserter's arm reaches at least `tiles` tiles to pick up, from
/// its own prototype data: the larger of its pickup offsets in absolute
/// value. Nothing with no pickup position reaches.
pub fn reach_at_least(inserter: &EntityPrototype, tiles: i64) -> (res: bool)
    requires
        inserter.wf(),
        0 <= tiles <= 1_000_000,
    ensures
        res == pickup_reaches(*inserter, tiles as int),
{
    match inserter.pickup_position {
        Some((x, y)) => {
            let t = tiles as i128;
            let xd = x.den as i128;
            let yd = y.den as i128;
            proof {
                assert(0 <= t * xd <= 1_000_000 * 0x7fff_ffff_ffff_ffffi128) by (nonlinear_arith)
                    requires
                        0 <= t <= 1_000_000,
                        0 < xd <= 0x7fff_ffff_ffff_ffffi128,
                ;
                assert(0 <= t * yd <= 1_000_000 * 0x7fff_ffff_ffff_ffffi128) by (nonlinear_arith)
                    requires
                        0 <= t <= 1_000_000,
                        0 < yd <= 0x7fff_ffff_ffff_ffffi128,
                ;
            }
            proof {
                assert(t * xd == (tiles as int) * (x.den as int));
                assert(t * yd == (tiles as int) * (y.den as int));
                assert(-(tiles as int) * (x.den as int) == -((tiles as int) * (x.den as int))) by (nonlinear_arith);
                assert(-(tiles as int) * (y.den as int) == -((tiles as int) * (y.den as int))) by (nonlinear_arith);
            }
            let a = (x.num as i128) >= t * xd || (x.num as i128) <= -(t * xd);
            let b = (y.num as i128) >= t * yd || (y.num as i128) <= -(t * yd);
            a || b
        },
        None => false,
    }
}

/// `LayoutConfig` with every name looked up.
#[derive(Debug, Clone, Copy)]
pub struct ResolvedConfig<'a> {
    pub belt: &'a EntityPrototype,
    pub pole: &'a EntityPrototype,
    pub inserter: &'a EntityPrototype,
    pub long_inserter: &'a EntityPrototype,
}

impl<'a> ResolvedConfig<'a> {
    /// Each entity is of its kind: a belt with a throughput, an electric pole
    /// with a supply area, inserters with pickup and insert positions, the
    /// long one reaching two tiles; all well formed.
    pub open spec fn wf(&self) -> bool {
        &&& self.belt.wf() && self.belt.belt_throughput is Some
        &&& self.pole.wf() && self.pole.category == EntityCategory::ElectricPole && self.pole.supply_area_distance is Some
        &&& self.inserter.wf() && self.inserter.pickup_position is Some && self.inserter.insert_position is Some
        &&& self.long_inserter.wf() && self.long_inserter.insert_position is Some
        &&& pickup_reaches(*self.long_inserter, LONG_INSERTER_REACH as int)
    }
}

/// Some prototype of `protos` is named `name` and passes `pred`.
pub open spec fn has_proto(protos: Seq<EntityPrototype>, name: Seq<char>, pred: spec_fn(EntityPrototype) -> bool) -> bool {
    exists|i: int| 0 <= i < protos.len() && #[trigger] protos[i].name@ == name && pred(protos[i])
}

pub open spec fn is_belt(p: EntityPrototype) -> bool {
    p.belt_throughput is Some
}

pub open spec fn is_pole(p: EntityPrototype) -> bool {
    p.category == EntityCategory::ElectricPole && p.supply_area_distance is Some
}

pub open spec fn is_inserter(p: EntityPrototype) -> bool {
    p.pickup_position is Some && p.insert_position is Some
}

pub open spec fn is_long_inserter(p: EntityPrototype) -> bool {
    p.insert_position is Some && pickup_reaches(p, LONG_INSERTER_REACH as int)
}

/// Looks up `name` and checks it with `pred`, through the registry's one
/// entry per name.
fn lookup_kind<'a>(
    protos: &'a Prototypes,
    name: &str,
    Ghost(pred): Ghost<spec_fn(EntityPrototype) -> bool>,
    ok: bool,
    found: Option<&'a EntityPrototype>,
) -> (res: Option<&'a EntityPrototype>)
    requires
        found matches Some(p) ==> p.name@ == name@ && p.wf() && exists|i: int|
            0 <= i < protos.spec_entries().len() && protos.spec_entries()[i] == *p,
        found is None ==> forall|i: int|
            0 <= i < protos.spec_entries().len() ==> #[trigger] protos.spec_entries()[i].name@ != name@,
        found matches Some(p) ==> ok == pred(*p),
        crate::registry::unique_keys(protos.spec_entries()),
    ensures
        res matches Some(p) ==> p.name@ == name@ && p.wf() && pred(*p),
        res is None <==> !has_proto(protos.spec_entries(), name@, pred),
{
    match found {
        Some(p) => {
            proof {
                let es = protos.spec_entries();
                let i = choose|i: int| 0 <= i < es.len() && es[i] == *p;
                if has_proto(es, name@, pred) {
                    let j = choose|j: int| 0 <= j < es.len() && #[trigger] es[j].name@ == name@ && pred(es[j]);
                    if i != j {
                        assert(es[i].key() == es[j].key());
                    }
                }
            }
            if ok {
                Some(p)
            } else {
                None
            }
        },
        None => None,
    }
}

impl LayoutConfig {
    /// Resolves every name against the prototype registry up front, so a
    /// typo fails before any entity is placed: the belt, then the pole (an
    /// electric pole with a supply area), the inserter and the long
    /// inserter, whose reach is checked too.
    pub fn resolve<'a>(&self, protos: &'a Prototypes) -> (res: Result<ResolvedConfig<'a>, LayoutError>)
        ensures
            ({
                let ps = protos.spec_entries();
                if !has_proto(ps, self.belt_tier@, |p: EntityPrototype| is_belt(p)) {
                    res matches Err(LayoutError::BeltTierUnknown(n)) && n@ == self.belt_tier@
                } else if !has_proto(ps, self.pole@, |p: EntityPrototype| is_pole(p)) {
                    res matches Err(LayoutError::PoleUnknown(n)) && n@ == self.pole@
                } else if !has_proto(ps, self.inserter@, |p: EntityPrototype| is_inserter(p)) {
                    res matches Err(LayoutError::InserterUnknown(n)) && n@ == self.inserter@
                } else if !has_proto(ps, self.long_inserter@, |p: EntityPrototype| is_long_inserter(p)) {
                    res matches Err(LayoutError::LongInserterUnknown(n)) && n@ == self.long_inserter@
                } else {
                    res matches Ok(r) && r.wf() && r.belt.name@ == self.belt_tier@ && r.pole.name@ == self.pole@
                        && r.inserter.name@ == self.inserter@ && r.long_inserter.name@ == self.long_inserter@
                }
            }),
    {
        let _ = protos.entries();
        let b = protos.lookup(self.belt_tier.as_str());
        let b_ok = match b {
            Some(p) => p.belt_throughput.is_some(),
            None => false,
        };
        let belt = match lookup_kind(protos, self.belt_tier.as_str(), Ghost(|p: EntityPrototype| is_belt(p)), b_ok, b) {
            Some(p) => p,
            None => return Err(LayoutError::BeltTierUnknown(self.belt_tier.clone())),
        };
        let q = protos.lookup(self.pole.as_str());
        let q_ok = match q {
            Some(p) => p.category == EntityCategory::ElectricPole && p.supply_area_distance.is_some(),
            None => false,
        };
        let pole = match lookup_kind(protos, self.pole.as_str(), Ghost(|p: EntityPrototype| is_pole(p)), q_ok, q) {
            Some(p) => p,
            None => return Err(LayoutError::PoleUnknown(self.pole.clone())),
        };
        let s = protos.lookup(self.inserter.as_str());
        let s_ok = match s {
            Some(p) => p.pickup_position.is_some() && p.insert_position.is_some(),
            None => false,
        };
        let inserter = match lookup_kind(protos, self.inserter.as_str(), Ghost(|p: EntityPrototype| is_inserter(p)), s_ok, s) {
            Some(p) => p,
            None => return Err(LayoutError::InserterUnknown(self.inserter.clone())),
        };
        let l = protos.lookup(self.long_inserter.as_str());
        let l_ok = match l {
            Some(p) => p.insert_position.is_some() && reach_at_least(p, LONG_INSERTER_REACH),
            None => false,
        };
        let long_inserter = match lookup_kind(
            protos,
            self.long_inserter.as_str(),
            Ghost(|p: EntityPrototype| is_long_inserter(p)),
            l_ok,
            l,
        ) {
            Some(p) => p,
            None => return Err(LayoutError::LongInserterUnknown(self.long_inserter.clone())),
        };
        Ok(ResolvedConfig { belt, pole, inserter, long_inserter })
    }
}

} // verus!
