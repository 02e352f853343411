//! What rides on each lane of a step's belts. Every belt that carries a pair
//! of items carries both of them, because each machine sub-row reaches only
//! the one belt beside it and needs every ingredient.
use vstd::prelude::*;

use crate::text::name_eq;

verus! {

/// One physical belt and what rides on each of its two lanes.
#[derive(Debug, Clone, PartialEq, Eq)]
pub struct BeltAssignment {
    pub left: Option<String>,
    pub right: Option<String>,
}

/// The text of a lane, if anything rides it.
pub open spec fn lane_text(lane: Option<String>) -> Option<Seq<char>> {
    match lane {
        Some(s) => Some(s@),
        None => None,
    }
}

impl BeltAssignment {
    /// The two lanes as text.
    pub open spec fn spec_lanes(&self) -> (Option<Seq<char>>, Option<Seq<char>>) {
        (lane_text(self.left), lane_text(self.right))
    }

    /// The distinct items on this belt, in lane order.
    pub open spec fn spec_items(&self) -> Seq<Seq<char>> {
        let first: Seq<Seq<char>> = match lane_text(self.left) {
            Some(l) => seq![l],
            None => Seq::empty(),
        };
        match lane_text(self.right) {
            Some(r) => if first.contains(r) {
                first
            } else {
                first.push(r)
            },
            None => first,
        }
    }

    /// The distinct items on this belt, in lane order.
    pub fn items(&self) -> (res: Vec<&str>)
        ensures
            res@.map_values(|s: &str| s@) == self.spec_items(),
    {
        let mut out: Vec<&str> = Vec::new();
        if let Some(l) = &self.left {
            out.push(l.as_str());
        }
        if let Some(r) = &self.right {
            let dup = match &self.left {
                Some(l) => name_eq(l.as_str(), r.as_str()),
                None => false,
            };
            if !dup {
                out.push(r.as_str());
            }
        }
        proof {
            let first: Seq<Seq<char>> = match lane_text(self.left) {
                Some(l) => seq![l],
                None => Seq::empty(),
            };
            if let Some(r) = &self.right {
                if let Some(l) = &self.left {
                    assert(first.contains(r@) <==> l@ == r@) by {
                        if first.contains(r@) {
                            assert(first[0] == l@);
                        }
                        if l@ == r@ {
                            assert(first[0] == r@);
                        }
                    }
                }
            }
        }
        assert(out@.map_values(|s: &str| s@) =~= self.spec_items());
        out
    }

    /// How many of this belt's two lanes carry `item`.
    pub fn lanes_for(&self, item: &str) -> (res: u32)
        ensures
            res == (if lane_text(self.left) == Some(item@) { 1int } else { 0int }) + (if lane_text(
                self.right,
            ) == Some(item@) {
                1int
            } else {
                0int
            }),
    {
        let mut n: u32 = 0;
        if let Some(l) = &self.left {
            if name_eq(l.as_str(), item) {
                n = n + 1;
            }
        }
        if let Some(r) = &self.right {
            if name_eq(r.as_str(), item) {
                n = n + 1;
            }
        }
        n
    }
}

/// The belts for a lone item needing `lanes` lanes: both lanes of each belt,
/// the last belt single-laned when the count is odd.
pub open spec fn lone_belts(name: Seq<char>, lanes: nat) -> Seq<(Option<Seq<char>>, Option<Seq<char>>)> {
    Seq::new(
        (lanes + 1) / 2,
        |k: int| (Some(name), if 2 * k + 1 < lanes { Some(name) } else { None }),
    )
}

/// The belts for two items sharing every belt, one per lane: as many as the
/// wider of the two needs.
pub open spec fn shared_belts(a: Seq<char>, la: nat, b: Seq<char>, lb: nat) -> Seq<(Option<Seq<char>>, Option<Seq<char>>)> {
    Seq::new(if la >= lb { la } else { lb }, |k: int| (Some(a), Some(b)))
}

/// The belts for `items` (name and lanes needed), taken two at a time.
pub open spec fn packed(items: Seq<(Seq<char>, nat)>) -> Seq<(Option<Seq<char>>, Option<Seq<char>>)>
    decreases items.len(),
{
    if items.len() == 0 {
        Seq::empty()
    } else if items.len() == 1 {
        lone_belts(items[0].0, items[0].1)
    } else {
        shared_belts(items[0].0, items[0].1, items[1].0, items[1].1) + packed(items.subrange(2, items.len() as int))
    }
}

/// The names and lane counts of `items`.
pub open spec fn lane_needs(items: Seq<(String, u32)>) -> Seq<(Seq<char>, nat)> {
    items.map_values(|e: (String, u32)| (e.0@, e.1 as nat))
}

/// The lanes of `belts` as text.
pub open spec fn belt_lanes(belts: Seq<BeltAssignment>) -> Seq<(Option<Seq<char>>, Option<Seq<char>>)> {
    belts.map_values(|b: BeltAssignment| b.spec_lanes())
}

/// The entries of `items` that need at least one lane, in order.
pub open spec fn carried(items: Seq<(Seq<char>, nat)>) -> Seq<(Seq<char>, nat)>
    decreases items.len(),
{
    if items.len() == 0 {
        Seq::empty()
    } else if items.last().1 > 0 {
        carried(items.drop_last()).push(items.last())
    } else {
        carried(items.drop_last())
    }
}

/// How many lanes of `belts` carry `name`.
pub open spec fn lanes_carrying(belts: Seq<(Option<Seq<char>>, Option<Seq<char>>)>, name: Seq<char>) -> int
    decreases belts.len(),
{
    if belts.len() == 0 {
        0
    } else {
        let (l, r) = belts.last();
        lanes_carrying(belts.drop_last(), name) + (if l == Some(name) { 1int } else { 0int }) + (if r == Some(name) {
            1int
        } else {
            0int
        })
    }
}

proof fn lemma_lanes_nonneg(belts: Seq<(Option<Seq<char>>, Option<Seq<char>>)>, name: Seq<char>)
    ensures
        lanes_carrying(belts, name) >= 0,
    decreases belts.len(),
{
    if belts.len() > 0 {
        lemma_lanes_nonneg(belts.drop_last(), name);
    }
}

proof fn lemma_lanes_concat(a: Seq<(Option<Seq<char>>, Option<Seq<char>>)>, b: Seq<(Option<Seq<char>>, Option<Seq<char>>)>, name: Seq<char>)
    ensures
        lanes_carrying(a + b, name) == lanes_carrying(a, name) + lanes_carrying(b, name),
    decreases b.len(),
{
    if b.len() > 0 {
        assert((a + b).drop_last() =~= a + b.drop_last());
        assert((a + b).last() == b.last());
        lemma_lanes_concat(a, b.drop_last(), name);
    } else {
        assert(a + b =~= a);
    }
}

/// A belt whose left lane carries `name` on each of `n` belts gives it at
/// least `n` lanes.
proof fn lemma_left_lanes(belts: Seq<(Option<Seq<char>>, Option<Seq<char>>)>, name: Seq<char>)
    requires
        forall|k: int| 0 <= k < belts.len() ==> (#[trigger] belts[k]).0 == Some(name),
    ensures
        lanes_carrying(belts, name) >= belts.len(),
    decreases belts.len(),
{
    if belts.len() > 0 {
        lemma_left_lanes(belts.drop_last(), name);
    }
}

proof fn lemma_right_lanes(belts: Seq<(Option<Seq<char>>, Option<Seq<char>>)>, name: Seq<char>)
    requires
        forall|k: int| 0 <= k < belts.len() ==> (#[trigger] belts[k]).1 == Some(name),
    ensures
        lanes_carrying(belts, name) >= belts.len(),
    decreases belts.len(),
{
    if belts.len() > 0 {
        lemma_right_lanes(belts.drop_last(), name);
    }
}

/// The first `j` belts of a lone item's run carry it on `j` lanes plus one
/// more for each of them that is full.
proof fn lemma_lone_prefix(name: Seq<char>, lanes: nat, j: int)
    requires
        0 <= j <= (lanes + 1) / 2,
    ensures
        lanes_carrying(lone_belts(name, lanes).subrange(0, j), name) == j + (if j <= lanes / 2 { j } else { (lanes / 2) as int }),
    decreases j,
{
    let s = lone_belts(name, lanes).subrange(0, j);
    if j > 0 {
        assert(s.drop_last() =~= lone_belts(name, lanes).subrange(0, j - 1));
        lemma_lone_prefix(name, lanes, j - 1);
    }
}

/// Packing gives every item needing lanes at least that many lanes.
proof fn lemma_packed_covers(items: Seq<(Seq<char>, nat)>, k: int)
    requires
        0 <= k < items.len(),
    ensures
        lanes_carrying(packed(items), items[k].0) >= items[k].1,
    decreases items.len(),
{
    if items.len() == 1 {
        let (name, lanes) = items[0];
        lemma_lone_prefix(name, lanes, ((lanes + 1) / 2) as int);
        assert(lone_belts(name, lanes).subrange(0, ((lanes + 1) / 2) as int) =~= lone_belts(name, lanes));
    } else {
        let (a, la) = items[0];
        let (b, lb) = items[1];
        let shared = shared_belts(a, la, b, lb);
        let rest = items.subrange(2, items.len() as int);
        lemma_lanes_concat(shared, packed(rest), items[k].0);
        lemma_lanes_nonneg(shared, items[k].0);
        lemma_lanes_nonneg(packed(rest), items[k].0);
        if k == 0 {
            lemma_left_lanes(shared, a);
        } else if k == 1 {
            lemma_right_lanes(shared, b);
        } else {
            assert(rest[k - 2] == items[k]);
            lemma_packed_covers(rest, k - 2);
        }
    }
}

/// Every item whose rate needs lanes gets at least that many lanes across
/// the belts `pack_lanes` returns.
pub proof fn lemma_every_item_gets_its_lanes(items: Seq<(String, u32)>, k: int)
    requires
        0 <= k < carried(lane_needs(items)).len(),
    ensures
        lanes_carrying(packed(carried(lane_needs(items))), carried(lane_needs(items))[k].0) >= carried(
            lane_needs(items),
        )[k].1,
{
    lemma_packed_covers(carried(lane_needs(items)), k);
}

/// Two items that both need lanes share every belt, one lane each, on as
/// many belts as the wider demand; a lone item takes both lanes of half as
/// many belts, rounded up, the last one single-laned when its count is odd.
pub proof fn lemma_belts_carry_the_full_set(items: Seq<(String, u32)>)
    requires
        1 <= carried(lane_needs(items)).len() <= 2,
    ensures
        ({
            let c = carried(lane_needs(items));
            let belts = packed(c);
            if c.len() == 2 {
                &&& belts.len() == if c[0].1 >= c[1].1 { c[0].1 } else { c[1].1 }
                &&& forall|k: int| 0 <= k < belts.len() ==> #[trigger] belts[k] == (Some(c[0].0), Some(c[1].0))
            } else {
                &&& belts.len() == (c[0].1 + 1) / 2
                &&& forall|k: int| 0 <= k < belts.len() ==> (#[trigger] belts[k]).0 == Some(c[0].0)
                &&& forall|k: int| 0 <= k < belts.len() ==> ((#[trigger] belts[k]).1 == Some(c[0].0) <==> 2 * k + 1 < c[0].1)
            }
        }),
{
    let c = carried(lane_needs(items));
    if c.len() == 2 {
        assert(packed(c.subrange(2, 2)) =~= Seq::empty());
        assert(packed(c) =~= shared_belts(c[0].0, c[0].1, c[1].0, c[1].1));
    }
}

/// Packs a step's items onto belts, at most two distinct items per belt.
/// `items` holds each item with the whole lanes its rate needs; an item
/// needing no lane gets no belt and pairs with nothing. The rest are taken
/// in pairs: a lone item takes both lanes of each belt, halving the belts it
/// needs; two items share every belt, one lane each, and the wider demand
/// sets the belt count, so that every belt carries the full pair. One entry
/// per physical belt.
pub fn pack_lanes(items: &Vec<(String, u32)>) -> (res: Vec<BeltAssignment>)
    ensures
        belt_lanes(res@) == packed(carried(lane_needs(items@))),
{
    let kept = carried_streams(items);
    pack_carried(&kept)
}

/// The entries of `items` that need at least one lane, in order.
pub(crate) fn carried_streams(items: &Vec<(String, u32)>) -> (res: Vec<(String, u32)>)
    ensures
        lane_needs(res@) == carried(lane_needs(items@)),
{
    let mut kept: Vec<(String, u32)> = Vec::new();
    let mut i: usize = 0;
    while i < items.len()
        invariant
            i <= items@.len(),
            lane_needs(kept@) == carried(lane_needs(items@).subrange(0, i as int)),
        decreases items.len() - i,
    {
        let ghost before = kept@;
        let ghost prefix = lane_needs(items@).subrange(0, i + 1);
        proof {
            assert(prefix.drop_last() =~= lane_needs(items@).subrange(0, i as int));
            assert(prefix.last() == (items@[i as int].0@, items@[i as int].1 as nat));
        }
        if items[i].1 > 0 {
            let name = items[i].0.clone();
            kept.push((name, items[i].1));
            proof {
                assert(lane_needs(kept@) =~= lane_needs(before).push(prefix.last()));
            }
        }
        i = i + 1;
    }
    proof {
        assert(lane_needs(items@).subrange(0, items@.len() as int) =~= lane_needs(items@));
    }
    kept
}

/// `pack_lanes` on items that each need at least one lane.
pub(crate) fn pack_carried(items: &Vec<(String, u32)>) -> (res: Vec<BeltAssignment>)
    ensures
        belt_lanes(res@) == packed(lane_needs(items@)),
{
    let mut belts: Vec<BeltAssignment> = Vec::new();
    let mut i: usize = 0;
    let ghost all = lane_needs(items@);
    proof {
        assert(all.subrange(0, all.len() as int) =~= all);
        assert(belt_lanes(belts@) =~= Seq::<(Option<Seq<char>>, Option<Seq<char>>)>::empty());
    }
    while i < items.len()
        invariant
            i <= items@.len(),
            all == lane_needs(items@),
            i % 2 == 0 || i == items@.len(),
            belt_lanes(belts@) + packed(all.subrange(i as int, all.len() as int)) == packed(all),
        decreases items.len() - i,
    {
        let ghost rest = all.subrange(i as int, all.len() as int);
        let ghost before = belts@;
        if i + 1 == items.len() {
            let name = &items[i].0;
            let lanes = items[i].1;
            let count = lanes / 2 + lanes % 2;
            let mut k: u32 = 0;
            while k < count
                invariant
                    k <= count,
                    count == (lanes as nat + 1) / 2,
                    belt_lanes(belts@) == belt_lanes(before) + lone_belts(name@, lanes as nat).subrange(0, k as int),
                decreases count - k,
            {
                let both = (k as u64) * 2 + 1 < lanes as u64;
                let l = name.clone();
                let right = if both {
                    let r = name.clone();
                    assert(lane_text(Some(r)) == Some(name@));
                    Some(r)
                } else {
                    None
                };
                let belt = BeltAssignment { left: Some(l), right };
                assert(belt.spec_lanes() == lone_belts(name@, lanes as nat)[k as int]);
                let ghost mid = belts@;
                belts.push(belt);
                proof {
                    assert(belt_lanes(belts@) =~= belt_lanes(mid).push(belt.spec_lanes()));
                    assert(belt_lanes(belts@) =~= belt_lanes(before) + lone_belts(name@, lanes as nat).subrange(0, k + 1));
                }
                k = k + 1;
            }
            proof {
                assert(rest.len() == 1);
                assert(rest[0] == (name@, lanes as nat));
                assert(lone_belts(name@, lanes as nat).subrange(0, count as int) =~= lone_belts(name@, lanes as nat));
                assert(all.subrange(i + 1, all.len() as int) =~= Seq::<(Seq<char>, nat)>::empty());
            }
            i = i + 1;
        } else {
            let a = &items[i].0;
            let b = &items[i + 1].0;
            let la = items[i].1;
            let lb = items[i + 1].1;
            let count = if la >= lb { la } else { lb };
            let mut k: u32 = 0;
            while k < count
                invariant
                    k <= count,
                    count == (if la >= lb { la } else { lb }),
                    belt_lanes(belts@) == belt_lanes(before) + shared_belts(a@, la as nat, b@, lb as nat).subrange(0, k as int),
                decreases count - k,
            {
                let belt = BeltAssignment { left: Some(a.clone()), right: Some(b.clone()) };
                assert(belt.spec_lanes() == shared_belts(a@, la as nat, b@, lb as nat)[k as int]);
                let ghost mid = belts@;
                belts.push(belt);
                proof {
                    assert(belt_lanes(belts@) =~= belt_lanes(mid).push(belt.spec_lanes()));
                    assert(belt_lanes(belts@) =~= belt_lanes(before) + shared_belts(a@, la as nat, b@, lb as nat).subrange(0, k + 1));
                }
                k = k + 1;
            }
            proof {
                assert(rest.len() >= 2);
                assert(rest[0] == (a@, la as nat));
                assert(rest[1] == (b@, lb as nat));
                assert(shared_belts(a@, la as nat, b@, lb as nat).subrange(0, count as int) =~= shared_belts(a@, la as nat, b@, lb as nat));
                assert(rest.subrange(2, rest.len() as int) =~= all.subrange(i + 2, all.len() as int));
                assert(packed(rest) == shared_belts(a@, la as nat, b@, lb as nat) + packed(rest.subrange(2, rest.len() as int)));
                assert(belt_lanes(belts@) + packed(all.subrange(i + 2, all.len() as int)) =~= belt_lanes(before) + packed(rest));
            }
            i = i + 2;
        }
    }
    proof {
        assert(all.subrange(i as int, all.len() as int) =~= Seq::<(Seq<char>, nat)>::empty());
        assert(belt_lanes(belts@) =~= packed(all));
    }
    belts
}

} // verus!
