use esm::net::{IpAddr, KeyOrder, OrderedKey, SocketAddr};
use esm::reconcile::{plan_sync, sort_order, SyncStep};

fn v4(a: u8, b: u8, c: u8, d: u8) -> IpAddr {
    IpAddr::V4(u32::from_be_bytes([a, b, c, d]))
}

fn order_key(a: &IpAddr) -> (u8, u128) {
    match a {
        IpAddr::V4(x) => (0, *x as u128),
        IpAddr::V6(x) => (1, *x),
    }
}

#[test]
fn ip_order_puts_v4_before_v6() {
    assert_eq!(v4(10, 0, 0, 1).compare(&v4(10, 0, 0, 2)), KeyOrder::Less);
    assert_eq!(v4(10, 0, 0, 2).compare(&v4(10, 0, 0, 2)), KeyOrder::Equal);
    assert_eq!(IpAddr::V6(1).compare(&v4(255, 255, 255, 255)), KeyOrder::Greater);
    assert_eq!(v4(255, 255, 255, 255).compare(&IpAddr::V6(0)), KeyOrder::Less);
}

#[test]
fn socket_order_by_address_then_port() {
    let a = SocketAddr { ip: v4(10, 0, 0, 1), port: 9000 };
    let b = SocketAddr { ip: v4(10, 0, 0, 1), port: 80 };
    let c = SocketAddr { ip: v4(10, 0, 0, 2), port: 1 };
    assert_eq!(a.compare(&b), KeyOrder::Greater);
    assert_eq!(a.compare(&c), KeyOrder::Less);
    assert_eq!(c.compare(&c), KeyOrder::Equal);
}

#[test]
fn sort_order_is_stable() {
    let keys = vec![v4(3, 0, 0, 0), v4(1, 0, 0, 0), v4(3, 0, 0, 0), v4(2, 0, 0, 0)];
    assert_eq!(sort_order(&keys), vec![1, 3, 0, 2]);
    assert_eq!(sort_order(&Vec::<IpAddr>::new()), Vec::<usize>::new());
}

#[test]
fn plan_keeps_closes_and_opens() {
    let have = vec![v4(10, 0, 0, 3), v4(10, 0, 0, 1), v4(10, 0, 0, 2)];
    let want = vec![v4(10, 0, 0, 4), v4(10, 0, 0, 2), v4(10, 0, 0, 1)];
    let steps = plan_sync(&have, &want);
    assert_eq!(
        steps,
        vec![
            SyncStep::Keep { have: 1, want: 2 },
            SyncStep::Keep { have: 2, want: 1 },
            SyncStep::Close { have: 0 },
            SyncStep::Open { want: 0 },
        ]
    );
}

#[test]
fn plan_from_nothing_opens_everything() {
    let want = vec![IpAddr::V6(7), v4(1, 1, 1, 1)];
    assert_eq!(
        plan_sync(&Vec::new(), &want),
        vec![SyncStep::Open { want: 1 }, SyncStep::Open { want: 0 }]
    );
}

#[test]
fn plan_to_nothing_closes_everything() {
    let have = vec![v4(9, 9, 9, 9), v4(1, 1, 1, 1)];
    assert_eq!(
        plan_sync(&have, &Vec::new()),
        vec![SyncStep::Close { have: 1 }, SyncStep::Close { have: 0 }]
    );
}

#[test]
fn plan_with_repeated_wanted_key_opens_the_repeat() {
    let have = vec![v4(1, 0, 0, 0)];
    let want = vec![v4(1, 0, 0, 0), v4(1, 0, 0, 0)];
    assert_eq!(
        plan_sync(&have, &want),
        vec![SyncStep::Keep { have: 0, want: 0 }, SyncStep::Open { want: 1 }]
    );
}

#[test]
fn plan_reconciles_key_sets() {
    let have = vec![v4(5, 0, 0, 0), v4(2, 0, 0, 0), IpAddr::V6(3), v4(7, 0, 0, 0)];
    let want = vec![IpAddr::V6(3), v4(1, 0, 0, 0), v4(7, 0, 0, 0), IpAddr::V6(9)];
    let steps = plan_sync(&have, &want);
    let mut live: Vec<IpAddr> = Vec::new();
    for s in &steps {
        match *s {
            SyncStep::Keep { have: h, want: w } => {
                assert_eq!(have[h], want[w]);
                live.push(have[h]);
            }
            SyncStep::Open { want: w } => {
                assert!(!have.contains(&want[w]));
                live.push(want[w]);
            }
            SyncStep::Close { have: h } => assert!(!want.contains(&have[h])),
        }
    }
    let mut expected = want.clone();
    expected.sort_by_key(order_key);
    live.sort_by_key(order_key);
    assert_eq!(live, expected);
}
