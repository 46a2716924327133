//! Economy data: trade goods, per-province production, trade nodes.
//!
//! Prices, trade power and budgets are `f64`s kept as bit patterns; taxes, production,
//! expenses and balances are computed on them outside this library.

use vstd::prelude::*;

verus! {

/// Stable id for a trade good type.
#[derive(Clone, Copy, Debug, PartialEq, Eq, Hash, Structural)]
pub struct GoodTypeId {
    raw: u32,
}

impl GoodTypeId {
    #[verifier::type_invariant]
    spec fn nonzero(self) -> bool {
        self.raw != 0
    }

    /// The raw 1-based value.
    pub closed spec fn spec_raw(self) -> u32 {
        self.raw
    }

    /// Builds an id from its raw 1-based value (zero is not an id).
    pub fn from_raw(raw: u32) -> (r: Self)
        requires
            raw != 0,
        ensures
            r.spec_raw() == raw,
    {
        GoodTypeId { raw }
    }

    pub fn raw(self) -> (r: u32)
        ensures
            r == self.spec_raw(),
            r != 0,
    {
        proof { use_type_invariant(&self); }
        self.raw
    }

    /// Two ids are equal exactly when their raw values are.
    pub proof fn lemma_raw_injective(a: Self, b: Self)
        ensures
            (a.spec_raw() == b.spec_raw()) == (a == b),
    {
    }
}

/// A trade good.
pub struct GoodTypeDef {
    pub id: GoodTypeId,
    pub name: String,
    /// Base price (`f64` bit pattern).
    pub base_price_bits: u64,
}

/// The bit pattern of the `f64` 1.0, the price of a good that is not registered.
pub const DEFAULT_PRICE_BITS: u64 = 0x3FF0_0000_0000_0000u64;

/// Position of the first good with id `id`.
pub open spec fn good_pos(s: Seq<GoodTypeDef>, id: GoodTypeId) -> Option<int>
    decreases s.len(),
{
    if s.len() == 0 {
        None
    } else if s[0].id == id {
        Some(0)
    } else {
        match good_pos(s.drop_first(), id) {
            Some(p) => Some(p + 1),
            None => None,
        }
    }
}

proof fn lemma_good_pos(s: Seq<GoodTypeDef>, id: GoodTypeId)
    ensures
        match good_pos(s, id) {
            Some(p) => 0 <= p < s.len() && s[p].id == id && forall|j: int| 0 <= j < p ==> #[trigger] s[j].id != id,
            None => forall|j: int| 0 <= j < s.len() ==> #[trigger] s[j].id != id,
        },
    decreases s.len(),
{
    if s.len() > 0 && s[0].id != id {
        let t = s.drop_first();
        lemma_good_pos(t, id);
        assert forall|j: int| 1 <= j < s.len() implies #[trigger] s[j] == t[j - 1] by {}
    }
}

/// Registry of trade goods.
pub struct GoodsRegistry {
    pub goods: Vec<GoodTypeDef>,
    next_raw: u32,
}

impl Default for GoodsRegistry {
    fn default() -> (r: Self)
        ensures
            r.goods_view().len() == 0,
            r.next_id() == 0,
    {
        GoodsRegistry { goods: Vec::new(), next_raw: 0 }
    }
}

impl GoodsRegistry {
    /// The raw id the next registration gets.
    pub closed spec fn next_id(&self) -> u32 {
        self.next_raw
    }

    /// The goods, in registration order.
    pub closed spec fn goods_view(&self) -> Seq<GoodTypeDef> {
        self.goods@
    }

    pub fn new() -> (r: Self)
        ensures
            r.goods_view().len() == 0,
            r.next_id() == 1,
    {
        GoodsRegistry { goods: Vec::new(), next_raw: 1 }
    }

    /// Register a good under the next id. A registry made by `default` has no next id
    /// yet (zero) and takes registrations only after `new`.
    pub fn register(&mut self, name: String, base_price_bits: u64) -> (r: GoodTypeId)
        requires
            old(self).next_id() != 0,
            old(self).next_id() < u32::MAX,
        ensures
            r.spec_raw() == old(self).next_id(),
            final(self).next_id() == old(self).next_id() + 1,
            final(self).goods_view().len() == old(self).goods_view().len() + 1,
            final(self).goods_view().drop_last() == old(self).goods_view(),
            final(self).goods_view().last().id == r,
            final(self).goods_view().last().name == name,
            final(self).goods_view().last().base_price_bits == base_price_bits,
    {
        let id = GoodTypeId::from_raw(self.next_raw);
        self.next_raw = self.next_raw + 1;
        self.goods.push(GoodTypeDef { id, name, base_price_bits });
        proof {
            assert(self.goods@.drop_last() =~= old(self).goods@);
        }
        id
    }

    /// The first good with id `id`.
    pub fn get(&self, id: GoodTypeId) -> (r: Option<&GoodTypeDef>)
        ensures
            match good_pos(self.goods_view(), id) {
                Some(p) => r matches Some(x) && *x == self.goods_view()[p],
                None => r is None,
            },
    {
        proof {
            lemma_good_pos(self.goods@, id);
        }
        let ghost pos = good_pos(self.goods@, id);
        let mut i: usize = 0;
        while i < self.goods.len()
            invariant
                i <= self.goods@.len(),
                pos == good_pos(self.goods@, id),
                match pos {
                    Some(p) => 0 <= p < self.goods@.len() && self.goods@[p].id == id
                        && forall|j: int| 0 <= j < p ==> #[trigger] self.goods@[j].id != id,
                    None => forall|j: int| 0 <= j < self.goods@.len() ==> #[trigger] self.goods@[j].id != id,
                },
                forall|j: int| 0 <= j < i ==> #[trigger] self.goods@[j].id != id,
            decreases self.goods@.len() - i,
        {
            let g = self.goods[i].id;
            proof {
                GoodTypeId::lemma_raw_injective(g, id);
            }
            if g.raw() == id.raw() {
                return Some(&self.goods[i]);
            }
            i += 1;
        }
        None
    }

    /// The base price of good `id` (bit pattern), 1.0 when it is not registered.
    pub fn base_price(&self, id: GoodTypeId) -> (r: u64)
        ensures
            r == match good_pos(self.goods_view(), id) {
                Some(p) => self.goods_view()[p].base_price_bits,
                None => DEFAULT_PRICE_BITS,
            },
    {
        match self.get(id) {
            Some(g) => g.base_price_bits,
            None => DEFAULT_PRICE_BITS,
        }
    }
}

/// Per-province economy: the good produced and the local trade power (`f64` bit
/// patterns), by province index.
pub struct ProvinceEconomy {
    pub produced_good: Vec<Option<GoodTypeId>>,
    pub local_trade_power_bits: Vec<u64>,
}

impl ProvinceEconomy {
    /// No produced good and trade power 1.0 for `province_count` provinces.
    pub fn new(province_count: usize) -> (r: Self)
        ensures
            r.produced_good@ == Seq::new(province_count as nat, |i: int| None::<GoodTypeId>),
            r.local_trade_power_bits@ == Seq::new(province_count as nat, |i: int| DEFAULT_PRICE_BITS),
    {
        let mut produced_good: Vec<Option<GoodTypeId>> = Vec::new();
        let mut local_trade_power_bits: Vec<u64> = Vec::new();
        let mut i: usize = 0;
        while i < province_count
            invariant
                i <= province_count,
                produced_good@ == Seq::new(i as nat, |j: int| None::<GoodTypeId>),
                local_trade_power_bits@ == Seq::new(i as nat, |j: int| DEFAULT_PRICE_BITS),
            decreases province_count - i,
        {
            produced_good.push(None);
            local_trade_power_bits.push(DEFAULT_PRICE_BITS);
            i += 1;
            proof {
                assert(produced_good@ =~= Seq::new(i as nat, |j: int| None::<GoodTypeId>));
                assert(local_trade_power_bits@ =~= Seq::new(i as nat, |j: int| DEFAULT_PRICE_BITS));
            }
        }
        ProvinceEconomy { produced_good, local_trade_power_bits }
    }
}

/// Stable id for a trade node.
#[derive(Clone, Copy, Debug, PartialEq, Eq, Hash, Structural)]
pub struct TradeNodeId {
    raw: u32,
}

impl TradeNodeId {
    #[verifier::type_invariant]
    spec fn nonzero(self) -> bool {
        self.raw != 0
    }

    /// The raw 1-based value.
    pub closed spec fn spec_raw(self) -> u32 {
        self.raw
    }

    /// Builds an id from its raw 1-based value (zero is not an id).
    pub fn from_raw(raw: u32) -> (r: Self)
        requires
            raw != 0,
        ensures
            r.spec_raw() == raw,
    {
        TradeNodeId { raw }
    }

    pub fn raw(self) -> (r: u32)
        ensures
            r == self.spec_raw(),
            r != 0,
    {
        proof { use_type_invariant(&self); }
        self.raw
    }
}

/// A trade node: provinces that pool trade value, flowing to downstream nodes.
pub struct TradeNode {
    pub id: TradeNodeId,
    pub name: String,
    /// Province raw ids in the node.
    pub provinces: Vec<u32>,
    pub downstream: Vec<TradeNodeId>,
}

/// Position of the first node with id `id`.
pub open spec fn node_pos(s: Seq<TradeNode>, id: TradeNodeId) -> Option<int>
    decreases s.len(),
{
    if s.len() == 0 {
        None
    } else if s[0].id == id {
        Some(0)
    } else {
        match node_pos(s.drop_first(), id) {
            Some(p) => Some(p + 1),
            None => None,
        }
    }
}

proof fn lemma_node_pos(s: Seq<TradeNode>, id: TradeNodeId)
    ensures
        match node_pos(s, id) {
            Some(p) => 0 <= p < s.len() && s[p].id == id && forall|j: int| 0 <= j < p ==> #[trigger] s[j].id != id,
            None => forall|j: int| 0 <= j < s.len() ==> #[trigger] s[j].id != id,
        },
    decreases s.len(),
{
    if s.len() > 0 && s[0].id != id {
        let t = s.drop_first();
        lemma_node_pos(t, id);
        assert forall|j: int| 1 <= j < s.len() implies #[trigger] s[j] == t[j - 1] by {}
    }
}

/// The trade network (optional: without it trade income is a flat bonus).
pub struct TradeNetwork {
    pub nodes: Vec<TradeNode>,
    next_raw: u32,
}

impl Default for TradeNetwork {
    fn default() -> (r: Self)
        ensures
            r.nodes_view().len() == 0,
            r.next_id() == 0,
    {
        TradeNetwork { nodes: Vec::new(), next_raw: 0 }
    }
}

impl TradeNetwork {
    /// The raw id the next node gets.
    pub closed spec fn next_id(&self) -> u32 {
        self.next_raw
    }

    /// The nodes, in insertion order.
    pub closed spec fn nodes_view(&self) -> Seq<TradeNode> {
        self.nodes@
    }

    pub fn new() -> (r: Self)
        ensures
            r.nodes_view().len() == 0,
            r.next_id() == 1,
    {
        TradeNetwork { nodes: Vec::new(), next_raw: 1 }
    }

    /// Add a node under the next id, with no downstream nodes. A network made by
    /// `default` has no next id yet (zero) and takes nodes only after `new`.
    pub fn add_node(&mut self, name: String, provinces: Vec<u32>) -> (r: TradeNodeId)
        requires
            old(self).next_id() != 0,
            old(self).next_id() < u32::MAX,
        ensures
            r.spec_raw() == old(self).next_id(),
            final(self).next_id() == old(self).next_id() + 1,
            final(self).nodes_view().len() == old(self).nodes_view().len() + 1,
            final(self).nodes_view().drop_last() == old(self).nodes_view(),
            final(self).nodes_view().last().id == r,
            final(self).nodes_view().last().name == name,
            final(self).nodes_view().last().provinces == provinces,
            final(self).nodes_view().last().downstream@.len() == 0,
    {
        let id = TradeNodeId::from_raw(self.next_raw);
        self.next_raw = self.next_raw + 1;
        self.nodes.push(TradeNode { id, name, provinces, downstream: Vec::new() });
        proof {
            assert(self.nodes@.drop_last() =~= old(self).nodes@);
        }
        id
    }

    /// The first node with id `id`.
    pub fn get_node(&self, id: TradeNodeId) -> (r: Option<&TradeNode>)
        ensures
            match node_pos(self.nodes_view(), id) {
                Some(p) => r matches Some(x) && *x == self.nodes_view()[p],
                None => r is None,
            },
    {
        proof {
            lemma_node_pos(self.nodes@, id);
        }
        let ghost pos = node_pos(self.nodes@, id);
        let mut i: usize = 0;
        while i < self.nodes.len()
            invariant
                i <= self.nodes@.len(),
                pos == node_pos(self.nodes@, id),
                match pos {
                    Some(p) => 0 <= p < self.nodes@.len() && self.nodes@[p].id == id
                        && forall|j: int| 0 <= j < p ==> #[trigger] self.nodes@[j].id != id,
                    None => forall|j: int| 0 <= j < self.nodes@.len() ==> #[trigger] self.nodes@[j].id != id,
                },
                forall|j: int| 0 <= j < i ==> #[trigger] self.nodes@[j].id != id,
            decreases self.nodes@.len() - i,
        {
            let n = self.nodes[i].id;
            if n.raw() == id.raw() {
                return Some(&self.nodes[i]);
            }
            i += 1;
        }
        None
    }
}

} // verus!
