use teleology_core::economy::{GoodTypeId, GoodsRegistry, ProvinceEconomy, TradeNetwork, TradeNodeId};
use teleology_core::population::{PopGroup, ProvincePops};
use teleology_core::tags::TagId;
use teleology_core::world::{ProvinceId, ScopeId};

#[test]
fn goods_registry() {
    let mut reg = GoodsRegistry::new();
    let wheat = reg.register("Wheat".into(), 2.0f64.to_bits());
    let iron = reg.register("Iron".into(), 5.0f64.to_bits());
    assert_eq!(f64::from_bits(reg.base_price(wheat)), 2.0);
    assert_eq!(f64::from_bits(reg.base_price(iron)), 5.0);
    assert_eq!(reg.goods.len(), 2);
}

#[test]
fn goods_registry_unknown_good_costs_one() {
    let reg = GoodsRegistry::new();
    assert_eq!(f64::from_bits(reg.base_price(GoodTypeId::from_raw(3))), 1.0);
    assert!(reg.get(GoodTypeId::from_raw(3)).is_none());
}

#[test]
fn province_economy_starts_empty() {
    let e = ProvinceEconomy::new(3);
    assert_eq!(e.produced_good, vec![None, None, None]);
    assert!(e.local_trade_power_bits.iter().all(|b| f64::from_bits(*b) == 1.0));
}

#[test]
fn trade_network_nodes() {
    let mut net = TradeNetwork::new();
    let a = net.add_node("Venice".into(), vec![1, 2]);
    let b = net.add_node("Genoa".into(), vec![3]);
    assert_eq!(a.raw(), 1);
    assert_eq!(b.raw(), 2);
    assert_eq!(net.get_node(b).unwrap().provinces, vec![3]);
    assert!(net.get_node(TradeNodeId::from_raw(9)).is_none());
    assert!(net.get_node(a).unwrap().downstream.is_empty());
}

#[test]
fn province_pops_total() {
    let mut pops = ProvincePops::new(2);
    let pid = ProvinceId::from_raw(1);
    pops.groups[0].push(PopGroup { culture: TagId::from_raw(1), religion: TagId::from_raw(1), size: 5000, unrest_bits: 0 });
    pops.groups[0].push(PopGroup {
        culture: TagId::from_raw(2),
        religion: TagId::from_raw(1),
        size: 3000,
        unrest_bits: 10.0f32.to_bits(),
    });
    assert_eq!(pops.total_pop(pid), 8000);
    assert_eq!(pops.total_pop(ProvinceId::from_raw(2)), 0);
    assert!(pops.get(ProvinceId::from_raw(5)).is_empty());
    assert!(pops.get_mut(ProvinceId::from_raw(5)).is_none());
}
