use lumagg::pool_index::{touched_pools_from_events, ContractEvent, KnownPoolIndex};

const POOL: &str = "CA4HEQTL2WPEUYKYKCDOHCDNIV4QHNJ7EL4J4NQ6VADP7SYHVRYZ7AW2";
const OTHER: &str = "CCW67TSZV3SSS2HXMBQ5JFGCKJNXKZM7UQUWUZPUTHXSTZLEO7SJMI75";
const ROUTER: &str = "CAS3J7GYLGXMF6TDJBBYYSE3HQ6BBSMLNUQ34T6TZMYMW2EVH34XOWMA";

fn sample_index() -> KnownPoolIndex {
    let mut index = KnownPoolIndex::new();
    index.insert("soroswap", POOL);
    index
}

fn event(event_type: &str, contract_id: &str, router_pools: &[&str]) -> ContractEvent {
    ContractEvent {
        event_type: event_type.to_string(),
        contract_id: contract_id.to_string(),
        router_pools: router_pools.iter().map(|p| p.to_string()).collect(),
    }
}

#[test]
fn maps_events_to_known_pools() {
    let index = sample_index();
    let events = vec![event("contract", POOL, &[])];
    let touched = touched_pools_from_events(&events, &index);
    assert_eq!(touched.len(), 1);
    let pool = touched.iter().next().unwrap();
    assert_eq!(pool.source, "soroswap");
}

#[test]
fn router_events_touch_the_known_pools_they_name() {
    let mut index = sample_index();
    index.insert("aquarius", OTHER);
    let events = vec![
        event("contract", ROUTER, &[OTHER, "CUNKNOWN", OTHER]),
        event("system", POOL, &[]),
        event("contract", POOL, &[]),
        event("contract", POOL, &[]),
    ];
    let touched = touched_pools_from_events(&events, &index);
    assert_eq!(touched.len(), 2);
    assert_eq!(touched[0].pool_address, OTHER);
    assert_eq!(touched[0].source, "aquarius");
    assert_eq!(touched[1].pool_address, POOL);
}

#[test]
fn events_of_other_types_touch_nothing() {
    let index = sample_index();
    let events = vec![event("system", POOL, &[]), event("diagnostic", POOL, &[POOL])];
    assert!(touched_pools_from_events(&events, &index).is_empty());
}
