//! Cell shape and sizing: the belt counts on each side of a cell, how a
//! cell's ingredient lanes are laid out on its belts, and the refusals a
//! step meets before any arithmetic on its rates. Picking shares a lane
//! (both machine columns draw from the same ingredient belts); dropping owns
//! one (only one column reaches the far lane of a product belt).
use vstd::prelude::*;

use crate::layout::error::LayoutError;
use crate::recipe::{ItemKind, Recipe, RecipeItem};
use crate::text::{name_eq, texts};

verus! {

/// Which side of a cell carries a stream: the spine between the cell's two
/// machine columns, or the edge it shares with the neighbouring cell.
#[derive(Debug, Clone, Copy, PartialEq, Eq, Structural)]
pub enum Side {
    Spine,
    Edge,
}

/// Belt counts on each side of a cell and which side carries ingredients;
/// independent of any one step.
#[derive(Debug, Clone, PartialEq, Eq)]
pub struct CellTopology {
    /// Belts on the spine between a cell's two machine columns. 1 or 2.
    pub spine_belts: u8,
    /// Belts on the cell edge, shared with the neighbouring cell. 1 or 2.
    pub edge_belts: u8,
    /// Which side carries ingredients. The other carries products.
    pub ingredients_on: Side,
    /// Tile cells left to right until adding one would exceed this, then
    /// wrap below. `None` is one band.
    pub target_width: Option<u32>,
}

impl Default for CellTopology {
    /// Two spine belts, one edge belt, ingredients on the spine.
    fn default() -> (res: Self)
        ensures
            res.spine_belts == 2,
            res.edge_belts == 1,
            res.ingredients_on == Side::Spine,
            res.target_width is None,
    {
        CellTopology { spine_belts: 2, edge_belts: 1, ingredients_on: Side::Spine, target_width: None }
    }
}

impl CellTopology {
    pub open spec fn spec_ingredient_belts(&self) -> u32 {
        (if self.ingredients_on == Side::Spine { self.spine_belts } else { self.edge_belts }) as u32
    }

    pub open spec fn spec_product_belts(&self) -> u32 {
        (if self.ingredients_on == Side::Spine { self.edge_belts } else { self.spine_belts }) as u32
    }

    /// Belt count on the ingredient side.
    pub fn ingredient_belts(&self) -> (res: u32)
        ensures
            res == self.spec_ingredient_belts(),
    {
        (if self.ingredients_on == Side::Spine { self.spine_belts } else { self.edge_belts }) as u32
    }

    /// Belt count on the product side: whichever side ingredients are not on.
    pub fn product_belts(&self) -> (res: u32)
        ensures
            res == self.spec_product_belts(),
    {
        (if self.ingredients_on == Side::Spine { self.edge_belts } else { self.spine_belts }) as u32
    }

    /// Ingredient lanes a whole cell divides up: both columns pick from the
    /// same belts, so the cell gets both lanes of each.
    pub fn ingredient_lanes(&self) -> (res: u32)
        ensures
            res == 2 * self.spec_ingredient_belts(),
    {
        2 * self.ingredient_belts()
    }

    /// Both belt counts lie in 1..=2.
    pub open spec fn spec_valid(&self) -> bool {
        1 <= self.spine_belts <= 2 && 1 <= self.edge_belts <= 2
    }

    /// `e` is how an invalid topology is refused: the spine's count when it
    /// is out of range, else the edge's.
    pub open spec fn topology_refusal(&self, e: LayoutError) -> bool {
        if !(1 <= self.spine_belts <= 2) {
            e matches LayoutError::InvalidTopology { field, value } && field@ == "spine_belts"@ && value == self.spine_belts
        } else {
            e matches LayoutError::InvalidTopology { field, value } && field@ == "edge_belts"@ && value == self.edge_belts
        }
    }

    /// Rejects a belt count outside 1..=2, the spine first, before any
    /// arithmetic runs on it.
    pub fn validate(&self) -> (res: Result<(), LayoutError>)
        ensures
            !self.spec_valid() ==> (res matches Err(e) && self.topology_refusal(e)),
            self.spec_valid() ==> res is Ok,
    {
        if !(1 <= self.spine_belts && self.spine_belts <= 2) {
            proof {
                reveal_strlit("spine_belts");
            }
            return Err(LayoutError::InvalidTopology { field: String::from_str("spine_belts"), value: self.spine_belts });
        }
        if !(1 <= self.edge_belts && self.edge_belts <= 2) {
            proof {
                reveal_strlit("edge_belts");
            }
            return Err(LayoutError::InvalidTopology { field: String::from_str("edge_belts"), value: self.edge_belts });
        }
        Ok(())
    }
}

/// How one step tiles into cells, before any entity is placed.
#[derive(Debug, PartialEq, Eq)]
pub struct CellPlan {
    pub machines_per_cell: u32,
    /// Machines in each column of a full cell, evenly split, the extra one
    /// to the first.
    pub columns: (u32, u32),
    pub cells: u32,
    /// Ingredient name and the lanes allocated to it, in the step's own
    /// ingredient order.
    pub lane_allocation: Vec<(String, u32)>,
    /// The stream or streams that set `machines_per_cell`, comma-joined.
    pub bound_by: String,
}

/// What rides the two lanes of one ingredient belt slot.
pub type SlotLanes = (Option<Seq<char>>, Option<Seq<char>>);

/// The whole belts each ingredient claims to itself: `lanes / 2` of them
/// per ingredient, in allocation order.
pub open spec fn whole_slots(alloc: Seq<(String, u32)>) -> Seq<SlotLanes>
    decreases alloc.len(),
{
    if alloc.len() == 0 {
        Seq::empty()
    } else {
        let (name, lanes) = alloc.last();
        whole_slots(alloc.drop_last()) + Seq::new((lanes / 2) as nat, |k: int| (Some(name@), Some(name@)))
    }
}

/// The ingredients left with one odd lane, in allocation order.
pub open spec fn spillover(alloc: Seq<(String, u32)>) -> Seq<Seq<char>>
    decreases alloc.len(),
{
    if alloc.len() == 0 {
        Seq::empty()
    } else {
        let (name, lanes) = alloc.last();
        if lanes % 2 == 1 {
            spillover(alloc.drop_last()).push(name@)
        } else {
            spillover(alloc.drop_last())
        }
    }
}

/// Leftover single lanes, paired two at a time onto shared belts.
pub open spec fn shared_slots(names: Seq<Seq<char>>) -> Seq<SlotLanes>
    decreases names.len(),
{
    if names.len() == 0 {
        Seq::empty()
    } else if names.len() == 1 {
        seq![(Some(names[0]), None)]
    } else {
        seq![(Some(names[0]), Some(names[1]))] + shared_slots(names.subrange(2, names.len() as int))
    }
}

/// Every ingredient belt slot of a cell, nearest belt first.
pub open spec fn slot_lanes(alloc: Seq<(String, u32)>) -> Seq<SlotLanes> {
    whole_slots(alloc) + shared_slots(spillover(alloc))
}

/// Slot `s` carries `item` on one of its lanes.
pub open spec fn slot_carries(s: SlotLanes, item: Seq<char>) -> bool {
    s.0 == Some(item) || s.1 == Some(item)
}

/// The positions of the slots of `s` that carry `item`, in order.
pub open spec fn carrying(s: Seq<SlotLanes>, item: Seq<char>) -> Seq<int>
    decreases s.len(),
{
    if s.len() == 0 {
        Seq::empty()
    } else if slot_carries(s.last(), item) {
        carrying(s.drop_last(), item).push(s.len() - 1)
    } else {
        carrying(s.drop_last(), item)
    }
}

/// The total lanes of an allocation.
pub open spec fn total_lanes(alloc: Seq<(String, u32)>) -> int
    decreases alloc.len(),
{
    if alloc.len() == 0 {
        0
    } else {
        total_lanes(alloc.drop_last()) + alloc.last().1
    }
}

proof fn lemma_slot_count(alloc: Seq<(String, u32)>)
    ensures
        whole_slots(alloc).len() + spillover(alloc).len() <= total_lanes(alloc),
    decreases alloc.len(),
{
    if alloc.len() > 0 {
        lemma_slot_count(alloc.drop_last());
    }
}

proof fn lemma_shared_len(names: Seq<Seq<char>>)
    ensures
        shared_slots(names).len() <= names.len(),
    decreases names.len(),
{
    if names.len() >= 2 {
        lemma_shared_len(names.subrange(2, names.len() as int));
    }
}

impl CellPlan {
    /// Belt-slot indices on the ingredient side that carry `item`, nearest
    /// belt first (0 is adjacent to a machine column); empty when `item` is
    /// not an ingredient here. Each ingredient claims whole belts to itself
    /// first (`lanes / 2`); a leftover single lane spills onto a shared belt,
    /// paired two at a time with other leftovers in the same order. A machine
    /// needs an inserter to each belt this returns.
    pub fn ingredient_belts(&self, item: &str) -> (res: Vec<u32>)
        requires
            total_lanes(self.lane_allocation@) <= u32::MAX,
        ensures
            res@.map_values(|x: u32| x as int) == carrying(slot_lanes(self.lane_allocation@), item@),
    {
        let alloc = &self.lane_allocation;
        let mut slots: Vec<(Option<String>, Option<String>)> = Vec::new();
        let mut spill: Vec<String> = Vec::new();
        let mut e: usize = 0;
        while e < alloc.len()
            invariant
                e <= alloc@.len(),
                slots@.map_values(|s: (Option<String>, Option<String>)| (opt_text(s.0), opt_text(s.1)))
                    == whole_slots(alloc@.subrange(0, e as int)),
                texts(spill@) == spillover(alloc@.subrange(0, e as int)),
            decreases alloc.len() - e,
        {
            let name = &alloc[e].0;
            let lanes = alloc[e].1;
            let ghost before = slots@;
            let mut k: u32 = 0;
            while k < lanes / 2
                invariant
                    k <= lanes / 2,
                    slots@.map_values(|s: (Option<String>, Option<String>)| (opt_text(s.0), opt_text(s.1)))
                        == before.map_values(|s: (Option<String>, Option<String>)| (opt_text(s.0), opt_text(s.1)))
                        + Seq::new(k as nat, |t: int| (Some(name@), Some(name@))),
                decreases lanes / 2 - k,
            {
                let ghost mid = slots@;
                let s = (Some(name.clone()), Some(name.clone()));
                assert((opt_text(s.0), opt_text(s.1)) == (Some(name@), Some(name@)));
                slots.push(s);
                proof {
                    assert(slots@.map_values(|s: (Option<String>, Option<String>)| (opt_text(s.0), opt_text(s.1)))
                        =~= mid.map_values(|s: (Option<String>, Option<String>)| (opt_text(s.0), opt_text(s.1))).push(
                        (Some(name@), Some(name@)),
                    ));
                    assert(before.map_values(|s: (Option<String>, Option<String>)| (opt_text(s.0), opt_text(s.1)))
                        + Seq::new((k + 1) as nat, |t: int| (Some(name@), Some(name@))) =~= before.map_values(
                        |s: (Option<String>, Option<String>)| (opt_text(s.0), opt_text(s.1)),
                    ) + Seq::new(k as nat, |t: int| (Some(name@), Some(name@))).push((Some(name@), Some(name@))));
                }
                k = k + 1;
            }
            let ghost spill_before = spill@;
            if lanes % 2 == 1 {
                spill.push(name.clone());
                proof {
                    assert(texts(spill@) =~= texts(spill_before).push(name@));
                }
            }
            proof {
                let pre = alloc@.subrange(0, e as int);
                let cur = alloc@.subrange(0, e + 1);
                assert(cur.drop_last() =~= pre);
                assert(cur.last() == alloc@[e as int]);
            }
            e = e + 1;
        }
        proof {
            assert(alloc@.subrange(0, alloc@.len() as int) =~= alloc@);
            assert(texts(spill@).subrange(0, spill@.len() as int) =~= texts(spill@));
        }
        let mut j: usize = 0;
        while j < spill.len()
            invariant
                j <= spill@.len(),
                j % 2 == 0 || j == spill@.len(),
                slots@.map_values(|s: (Option<String>, Option<String>)| (opt_text(s.0), opt_text(s.1)))
                    + shared_slots(texts(spill@).subrange(j as int, spill@.len() as int)) == slot_lanes(alloc@),
            decreases spill.len() - j,
        {
            let ghost mid = slots@;
            let ghost rest = texts(spill@).subrange(j as int, spill@.len() as int);
            if j + 1 < spill.len() {
                let s = (Some(spill[j].clone()), Some(spill[j + 1].clone()));
                slots.push(s);
                proof {
                    assert(rest.subrange(2, rest.len() as int) =~= texts(spill@).subrange(j + 2, spill@.len() as int));
                    assert(slots@.map_values(|s: (Option<String>, Option<String>)| (opt_text(s.0), opt_text(s.1)))
                        =~= mid.map_values(|s: (Option<String>, Option<String>)| (opt_text(s.0), opt_text(s.1))).push(
                        (Some(rest[0]), Some(rest[1])),
                    ));
                    assert(shared_slots(rest) =~= seq![(Some(rest[0]), Some(rest[1]))] + shared_slots(rest.subrange(2, rest.len() as int)));
                }
                j = j + 2;
            } else {
                let s = (Some(spill[j].clone()), None);
                slots.push(s);
                proof {
                    assert(texts(spill@).subrange(j + 1, spill@.len() as int) =~= Seq::<Seq<char>>::empty());
                    assert(slots@.map_values(|s: (Option<String>, Option<String>)| (opt_text(s.0), opt_text(s.1)))
                        =~= mid.map_values(|s: (Option<String>, Option<String>)| (opt_text(s.0), opt_text(s.1))).push(
                        (Some(rest[0]), None),
                    ));
                }
                j = j + 1;
            }
        }
        let ghost all = slot_lanes(alloc@);
        proof {
            assert(texts(spill@).subrange(j as int, spill@.len() as int) =~= Seq::<Seq<char>>::empty());
            assert(slots@.map_values(|s: (Option<String>, Option<String>)| (opt_text(s.0), opt_text(s.1))) =~= all);
            lemma_slot_count(alloc@);
            lemma_shared_len(spillover(alloc@));
        }
        let mut out: Vec<u32> = Vec::new();
        let mut i: usize = 0;
        while i < slots.len()
            invariant
                i <= slots@.len(),
                all == slot_lanes(alloc@),
                slots@.len() == all.len(),
                all.len() <= u32::MAX,
                forall|t: int| 0 <= t < slots@.len() ==> (opt_text(#[trigger] slots@[t].0), opt_text(slots@[t].1)) == all[t],
                out@.map_values(|x: u32| x as int) == carrying(all.subrange(0, i as int), item@),
            decreases slots.len() - i,
        {
            let carries = match &slots[i].0 {
                Some(n) => name_eq(n.as_str(), item),
                None => false,
            } || match &slots[i].1 {
                Some(n) => name_eq(n.as_str(), item),
                None => false,
            };
            proof {
                assert((opt_text(slots@[i as int].0), opt_text(slots@[i as int].1)) == all[i as int]);
                assert(all.subrange(0, i + 1).drop_last() =~= all.subrange(0, i as int));
            }
            let ghost before = out@;
            if carries {
                out.push(i as u32);
                proof {
                    assert(out@.map_values(|x: u32| x as int) =~= before.map_values(|x: u32| x as int).push(i as int));
                }
            }
            i = i + 1;
        }
        proof {
            assert(all.subrange(0, i as int) =~= all);
        }
        out
    }
}

/// The text of an optional name.
pub open spec fn opt_text(s: Option<String>) -> Option<Seq<char>> {
    match s {
        Some(x) => Some(x@),
        None => None,
    }
}

} // verus!
