use timewars::server::error::EngineError;
use timewars::server::portal::{Compression, Endpoint, Portal, Ratio};
use timewars::server::Server;

#[test]
fn compression_ratio() {
    let mut s = Server::new();
    s.create_portal(0, (100, (1, 1)), 500, 1, (0, (2, 2)), 100, 4).unwrap();
    let factor = s.get_portal(0).unwrap().compression_factor;
    assert_eq!(factor.scale.numerator as f32 / factor.scale.denominator as f32, 4f32);
    assert_eq!(factor.duration.numerator as f32 / factor.duration.denominator as f32, 0.2f32);
}

#[test]
fn portal_holds_both_endpoints() {
    let mut s = Server::new();
    let portal = s.create_portal(3, (100, (1, 1)), 500, 2, (7, (2, -2)), 100, 8).unwrap();
    let expected = Portal {
        player: 3,
        origin: Endpoint { location: (1, 1), creation: 100, expiration: 600, scale: 2 },
        dest: Endpoint { location: (2, -2), creation: 7, expiration: 107, scale: 8 },
        compression_factor: Compression {
            scale: Ratio { numerator: 8, denominator: 2 },
            duration: Ratio { numerator: 100, denominator: 500 },
        },
    };
    assert_eq!(portal, expected);
    assert_eq!(s.get_portal(0), Some(expected));
    assert_eq!(s.get_portal(1), None);
}

#[test]
fn zero_lifetime_is_declined() {
    let mut s = Server::new();
    assert_eq!(
        s.create_portal(0, (100, (1, 1)), 0, 1, (0, (2, 2)), 100, 4),
        Err(EngineError::InvalidLifetime)
    );
    assert_eq!(
        s.create_portal(0, (100, (1, 1)), 500, 1, (0, (2, 2)), 0, 4),
        Err(EngineError::InvalidLifetime)
    );
    // A zero lifetime is reported before a bad scale.
    assert_eq!(
        s.create_portal(0, (100, (1, 1)), 0, 0, (0, (2, 2)), 100, -4),
        Err(EngineError::InvalidLifetime)
    );
    assert_eq!(s.get_portal(0), None);
}

#[test]
fn scale_of_zero_or_less_is_declined() {
    let mut s = Server::new();
    for (origin_scale, dest_scale) in [(0, 4), (1, 0), (-1, 4), (1, -4), (0, 0), (i64::MIN, 1)] {
        assert_eq!(
            s.create_portal(0, (100, (1, 1)), 500, origin_scale, (0, (2, 2)), 100, dest_scale),
            Err(EngineError::InvalidScale)
        );
    }
    assert_eq!(s.get_portal(0), None);
}

#[test]
fn portals_are_kept_in_the_order_of_their_creation() {
    let mut s = Server::new();
    s.create_portal(1, (0, (0, 0)), 1, 1, (0, (0, 0)), 1, 1).unwrap();
    assert!(s.create_portal(2, (0, (0, 0)), 0, 1, (0, (0, 0)), 1, 1).is_err());
    s.create_portal(3, (5, (0, 0)), 10, 3, (6, (0, 0)), 5, i64::MAX).unwrap();
    assert_eq!(s.get_portal(0).unwrap().player, 1);
    let second = s.get_portal(1).unwrap();
    assert_eq!(second.player, 3);
    assert_eq!(second.origin.expiration, 15);
    assert_eq!(second.dest.expiration, 11);
    assert_eq!(
        second.compression_factor.scale,
        Ratio { numerator: i64::MAX as u64, denominator: 3 }
    );
    assert_eq!(second.compression_factor.duration, Ratio { numerator: 5, denominator: 10 });
    assert_eq!(s.get_portal(2), None);
}

#[test]
fn compression_is_an_exact_fraction() {
    let mut s = Server::new();
    let portal = s.create_portal(0, (100, (1, 1)), 500, 1, (0, (2, 2)), 100, 4).unwrap();
    let factor = portal.compression_factor;
    assert!(factor.scale.same_value(Ratio { numerator: 4, denominator: 1 }));
    assert!(factor.duration.same_value(Ratio { numerator: 1, denominator: 5 }));
    assert!(factor.duration.same_value(Ratio { numerator: 2, denominator: 10 }));
    assert!(!factor.duration.same_value(Ratio { numerator: 1, denominator: 4 }));
    assert!(!factor.scale.same_value(factor.duration));
    let large = Ratio { numerator: u64::MAX, denominator: u64::MAX - 1 };
    assert!(large.same_value(large));
    assert!(!large.same_value(Ratio { numerator: u64::MAX - 1, denominator: u64::MAX }));
    assert!(!large.same_value(Ratio { numerator: 1, denominator: 1 }));
}
