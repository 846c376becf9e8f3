//! How many connections are let in.

use mneme::aletheia::Aletheia;
use mneme::charon::{drain_in_flight, AdmitError, Charon, ClientIp, ConnGuard, Drain};

struct Gate {
    charon: Charon,
    metrics: Aletheia,
}

fn make_charon(max_total: usize, max_per_ip: u32) -> Gate {
    Gate { charon: Charon::new(max_total, max_per_ip), metrics: Aletheia::new(false) }
}

impl Gate {
    fn let_in(&mut self, ip: ClientIp) -> Result<ConnGuard, AdmitError> {
        self.charon.let_in(ip, &mut self.metrics)
    }

    fn release(&mut self, g: ConnGuard) {
        self.charon.release(g, &mut self.metrics)
    }

    fn active(&self) -> usize {
        self.charon.active()
    }
}

fn ip(a: u8, b: u8, c: u8, d: u8) -> ClientIp {
    ClientIp::V4(u32::from_be_bytes([a, b, c, d]))
}

#[test]
fn admit_and_drop_decrements() {
    let mut c = make_charon(10, 5);
    assert_eq!(c.active(), 0);
    let g = c.let_in(ip(1, 2, 3, 4)).unwrap();
    assert_eq!(c.active(), 1);
    c.release(g);
    assert_eq!(c.active(), 0);
}

#[test]
fn max_total_enforced() {
    let mut c = make_charon(2, 10);
    let _g1 = c.let_in(ip(1, 1, 1, 1)).unwrap();
    let _g2 = c.let_in(ip(2, 2, 2, 2)).unwrap();
    assert!(matches!(c.let_in(ip(3, 3, 3, 3)), Err(AdmitError::MaxTotal)));
}

#[test]
fn max_per_ip_enforced() {
    let mut c = make_charon(100, 2);
    let _g1 = c.let_in(ip(1, 2, 3, 4)).unwrap();
    let _g2 = c.let_in(ip(1, 2, 3, 4)).unwrap();
    assert!(matches!(c.let_in(ip(1, 2, 3, 4)), Err(AdmitError::MaxPerIp)));
    assert!(c.let_in(ip(5, 6, 7, 8)).is_ok());
}

#[test]
fn drop_frees_per_ip_slot() {
    let mut c = make_charon(100, 1);
    let g = c.let_in(ip(1, 2, 3, 4)).unwrap();
    assert!(c.let_in(ip(1, 2, 3, 4)).is_err());
    c.release(g);
    assert!(c.let_in(ip(1, 2, 3, 4)).is_ok());
}

#[test]
fn admit_returns_guard_under_limit() {
    let mut c = make_charon(10, 10);
    let result = c.let_in(ip(10, 0, 0, 1));
    assert!(result.is_ok());
    assert_eq!(c.active(), 1);
}

#[test]
fn admit_rejects_over_max_total() {
    let mut c = make_charon(1, 10);
    let _g = c.let_in(ip(10, 0, 0, 1)).unwrap();
    let result = c.let_in(ip(10, 0, 0, 2));
    assert!(matches!(result, Err(AdmitError::MaxTotal)));
}

#[test]
fn guard_drop_releases_slot() {
    let mut c = make_charon(1, 10);
    let g = c.let_in(ip(10, 0, 0, 1)).unwrap();
    assert_eq!(c.active(), 1);
    c.release(g);
    assert_eq!(c.active(), 0);
    let result = c.let_in(ip(10, 0, 0, 2));
    assert!(result.is_ok());
    assert_eq!(c.active(), 1);
}

#[test]
fn per_ip_limit_enforced() {
    let mut c = make_charon(100, 2);
    let _g1 = c.let_in(ip(10, 0, 0, 1)).unwrap();
    let _g2 = c.let_in(ip(10, 0, 0, 1)).unwrap();
    let result = c.let_in(ip(10, 0, 0, 1));
    assert!(matches!(result, Err(AdmitError::MaxPerIp)));
}

#[test]
fn per_ip_different_ips_independent() {
    let mut c = make_charon(100, 2);
    let _a1 = c.let_in(ip(10, 0, 0, 1)).unwrap();
    let _a2 = c.let_in(ip(10, 0, 0, 1)).unwrap();
    assert!(matches!(c.let_in(ip(10, 0, 0, 1)), Err(AdmitError::MaxPerIp)));
    let _b1 = c.let_in(ip(10, 0, 0, 2)).unwrap();
    let _b2 = c.let_in(ip(10, 0, 0, 2)).unwrap();
    assert!(matches!(c.let_in(ip(10, 0, 0, 2)), Err(AdmitError::MaxPerIp)));
}

#[test]
fn max_total_boundary_zero() {
    let mut c = make_charon(0, 10);
    let result = c.let_in(ip(10, 0, 0, 1));
    assert!(matches!(result, Err(AdmitError::MaxTotal)));
    let result2 = c.let_in(ip(10, 0, 0, 2));
    assert!(matches!(result2, Err(AdmitError::MaxTotal)));
}

#[test]
fn metrics_follow_the_gate() {
    let mut c = make_charon(1, 1);
    let g = c.let_in(ClientIp::V6(1)).unwrap();
    assert_eq!((c.metrics.conn_accepted, c.metrics.conn_active), (1, 1));
    assert!(c.let_in(ClientIp::V6(2)).is_err());
    assert_eq!(c.metrics.conn_rejected.entries.len(), 1);
    c.release(g);
    assert_eq!(c.metrics.conn_active, 0);
    assert_eq!(AdmitError::MaxTotal.message(), "ERR_MAX_CONNECTIONS");
    assert_eq!(AdmitError::MaxPerIp.message(), "ERR_MAX_CONNECTIONS_PER_IP");
}

#[test]
fn draining_waits_until_the_deadline() {
    assert!(matches!(drain_in_flight(100, 100, 5, 10), Drain::Done));
    assert!(matches!(drain_in_flight(99, 100, 5, 10), Drain::Wait));
    assert!(matches!(drain_in_flight(90, 100, 10, 10), Drain::GiveUp { in_flight: 10 }));
}
