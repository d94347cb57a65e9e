use bomber::server::registry::{PeerAddr, Registry};

fn addr(port: u16) -> PeerAddr {
    PeerAddr { v6: false, ip: 0x7f00_0001, port, flowinfo: 0, scope_id: 0 }
}

#[test]
fn binding_is_two_way_and_releasing_clears_both_sides() {
    let mut registry = Registry::default();
    let player: u8 = 1;
    registry.bind(addr(1000), player);

    assert_eq!(registry.player_of(&addr(1000)), Some(player));
    assert_eq!(registry.addr_of(player), Some(addr(1000)));

    registry.release(player);
    assert_eq!(registry.player_of(&addr(1000)), None);
    assert_eq!(registry.addr_of(player), None);
}

#[test]
fn rebinding_a_seat_forgets_the_old_address() {
    let mut registry = Registry::default();
    let player: u8 = 0;
    registry.bind(addr(1000), player);
    registry.bind(addr(2000), player);

    assert_eq!(registry.player_of(&addr(1000)), None);
    assert_eq!(registry.player_of(&addr(2000)), Some(player));
    assert_eq!(registry.endpoints().len(), 1);
}

#[test]
fn an_address_moving_to_another_seat_is_believed_only_for_the_new_one() {
    let mut registry = Registry::default();
    registry.bind(addr(1000), 0);
    registry.bind(addr(1000), 1);
    assert_eq!(registry.player_of(&addr(1000)), Some(1));
    assert_eq!(registry.addr_of(1), Some(addr(1000)));
}

#[test]
fn releasing_an_unbound_seat_changes_nothing() {
    let mut registry = Registry::default();
    registry.bind(addr(1000), 2);
    registry.release(3);
    assert_eq!(registry.player_of(&addr(1000)), Some(2));
    assert_eq!(registry.endpoints(), vec![(2, addr(1000))]);
}

#[test]
fn endpoints_list_every_bound_seat_once() {
    let mut registry = Registry::default();
    registry.bind(addr(1000), 0);
    registry.bind(addr(2000), 1);
    registry.bind(addr(3000), 0);
    let mut seats = registry.endpoints();
    seats.sort_by_key(|(p, _)| *p);
    assert_eq!(seats, vec![(0, addr(3000)), (1, addr(2000))]);
}

#[test]
fn an_ipv6_source_is_a_different_address_from_its_port_twin() {
    let mut registry = Registry::default();
    let v6 = PeerAddr { v6: true, ip: 1, port: 1000, flowinfo: 0, scope_id: 0 };
    registry.bind(v6, 0);
    assert_eq!(registry.player_of(&addr(1000)), None);
    assert_eq!(registry.player_of(&v6), Some(0));
}
