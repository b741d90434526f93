use lessroutes::tree::{GatewayMapping, Ipv4Route, MarkError, Tree};

fn gw(name: &str, countries: &[&str]) -> GatewayMapping {
    GatewayMapping {
        gateway: name.to_string(),
        countries: countries.iter().map(|c| c.to_string()).collect(),
    }
}

fn gateways_ab() -> Vec<GatewayMapping> {
    vec![gw("a", &["US"]), gw("b", &["JP"])]
}

fn check_route(r: &Ipv4Route, prefix: [u8; 4], mask: [u8; 4], length: u8, gateway: &str) {
    assert_eq!(r.prefix, prefix.to_vec());
    assert_eq!(r.mask, mask.to_vec());
    assert_eq!(r.length, length);
    assert_eq!(r.gateway, gateway);
}

#[test]
fn single_country() {
    let gws = gateways_ab();
    let mut t = Tree::new(2);
    t.mark(&[1, 0, 0, 0], 8, 1).unwrap();
    let routes = t.generate_v4(&gws, false);
    assert_eq!(routes.len(), 1);
    check_route(&routes[0], [1, 0, 0, 0], [255, 0, 0, 0], 8, "a");
}

#[test]
fn complementary_halves() {
    let gws = gateways_ab();
    let mut t = Tree::new(2);
    t.mark(&[0, 0, 0, 0], 1, 1).unwrap();
    t.mark(&[128, 0, 0, 0], 1, 2).unwrap();
    let routes = t.generate_v4(&gws, false);
    // Size 2 is the minimum; the tie at the root keeps the inherited
    // no-route, so both halves are emitted explicitly.
    assert_eq!(routes.len(), 2);
    check_route(&routes[0], [0, 0, 0, 0], [128, 0, 0, 0], 1, "a");
    check_route(&routes[1], [128, 0, 0, 0], [128, 0, 0, 0], 1, "b");
}

#[test]
fn dominant_color() {
    let gws = gateways_ab();
    let mut t = Tree::new(2);
    t.mark(&[1, 0, 0, 0], 8, 1).unwrap();
    t.mark(&[64, 0, 0, 0], 8, 1).unwrap();
    t.mark(&[129, 0, 0, 0], 8, 1).unwrap();
    t.mark(&[192, 0, 0, 0], 8, 2).unwrap();
    let routes = t.generate_v4(&gws, false);
    assert_eq!(routes.len(), 2);
    check_route(&routes[0], [0, 0, 0, 0], [0, 0, 0, 0], 0, "a");
    check_route(&routes[1], [192, 0, 0, 0], [255, 0, 0, 0], 8, "b");
}

#[test]
fn no_default() {
    let gws = gateways_ab();
    let mut t = Tree::new(2);
    t.mark(&[1, 0, 0, 0], 8, 1).unwrap();
    t.mark(&[64, 0, 0, 0], 8, 1).unwrap();
    t.mark(&[129, 0, 0, 0], 8, 1).unwrap();
    t.mark(&[192, 0, 0, 0], 8, 2).unwrap();
    let routes = t.generate_v4(&gws, true);
    // No route of length 0; the two left-half marks share the one
    // covering route the optimization still allows.
    for r in &routes {
        assert!(r.length > 0);
    }
    assert_eq!(routes.len(), 3);
    check_route(&routes[0], [0, 0, 0, 0], [128, 0, 0, 0], 1, "a");
    check_route(&routes[1], [129, 0, 0, 0], [255, 0, 0, 0], 8, "a");
    check_route(&routes[2], [192, 0, 0, 0], [255, 0, 0, 0], 8, "b");
}

#[test]
fn nested_is_rejected() {
    let gws = gateways_ab();
    let mut t = Tree::new(2);
    t.mark(&[10, 0, 0, 0], 8, 1).unwrap();
    // A mark inside an already marked prefix is refused and leaves the
    // trie unchanged.
    assert_eq!(t.mark(&[10, 1, 0, 0], 16, 2), Err(MarkError::Overlap));
    let routes = t.generate_v4(&gws, false);
    assert_eq!(routes.len(), 1);
    check_route(&routes[0], [10, 0, 0, 0], [255, 0, 0, 0], 8, "a");
}

#[test]
fn outer_overlap_is_rejected() {
    let mut t = Tree::new(2);
    t.mark(&[10, 1, 0, 0], 16, 2).unwrap();
    assert_eq!(t.mark(&[10, 0, 0, 0], 8, 1), Err(MarkError::Overlap));
}

#[test]
fn remark_overwrites() {
    let gws = gateways_ab();
    let mut t = Tree::new(2);
    t.mark(&[1, 0, 0, 0], 8, 1).unwrap();
    t.mark(&[1, 0, 0, 0], 8, 2).unwrap();
    let routes = t.generate_v4(&gws, false);
    assert_eq!(routes.len(), 1);
    check_route(&routes[0], [1, 0, 0, 0], [255, 0, 0, 0], 8, "b");
}

#[test]
fn empty_tree() {
    let gws = gateways_ab();
    let mut t = Tree::new(2);
    let routes = t.generate_v4(&gws, false);
    assert!(routes.is_empty());
    let routes = t.generate_v4(&gws, true);
    assert!(routes.is_empty());
}

#[test]
fn tie_break_prefers_lower_color() {
    let gws = gateways_ab();
    // Two leaves of each color, arranged so the root must emit a default
    // route and both colors would serve equally well: the lower index wins.
    let mut t = Tree::new(2);
    t.mark(&[0, 0, 0, 0], 2, 1).unwrap();
    t.mark(&[64, 0, 0, 0], 2, 2).unwrap();
    t.mark(&[128, 0, 0, 0], 2, 1).unwrap();
    t.mark(&[192, 0, 0, 0], 2, 2).unwrap();
    let routes = t.generate_v4(&gws, false);
    assert_eq!(routes.len(), 3);
    check_route(&routes[0], [0, 0, 0, 0], [0, 0, 0, 0], 0, "a");
    check_route(&routes[1], [64, 0, 0, 0], [192, 0, 0, 0], 2, "b");
    check_route(&routes[2], [192, 0, 0, 0], [192, 0, 0, 0], 2, "b");
}

#[test]
fn determinism() {
    let gws = gateways_ab();
    let build = || {
        let mut t = Tree::new(2);
        t.mark(&[1, 0, 0, 0], 8, 1).unwrap();
        t.mark(&[64, 0, 0, 0], 8, 1).unwrap();
        t.mark(&[129, 0, 0, 0], 8, 1).unwrap();
        t.mark(&[192, 0, 0, 0], 8, 2).unwrap();
        t
    };
    let r1 = build().generate_v4(&gws, false);
    let r2 = build().generate_v4(&gws, false);
    assert_eq!(r1.len(), r2.len());
    for (x, y) in r1.iter().zip(r2.iter()) {
        assert_eq!(x.prefix, y.prefix);
        assert_eq!(x.mask, y.mask);
        assert_eq!(x.length, y.length);
        assert_eq!(x.gateway, y.gateway);
    }
}

#[test]
fn v6_single_prefix() {
    let gws = gateways_ab();
    let mut t = Tree::new(2);
    let mut addr = [0u8; 16];
    addr[0] = 0x20;
    addr[1] = 0x01;
    addr[2] = 0x0d;
    addr[3] = 0xb8;
    t.mark(&addr, 32, 2).unwrap();
    let routes = t.generate_v6(&gws, false);
    assert_eq!(routes.len(), 1);
    let r = &routes[0];
    assert_eq!(r.prefix, vec![0x2001, 0x0db8, 0, 0, 0, 0, 0, 0]);
    assert_eq!(r.mask, vec![0xffff, 0xffff, 0, 0, 0, 0, 0, 0]);
    assert_eq!(r.length, 32);
    assert_eq!(r.gateway, "b");
}

#[test]
fn whole_space_one_color() {
    let gws = gateways_ab();
    let mut t = Tree::new(2);
    t.mark(&[0, 0, 0, 0], 0, 1).unwrap();
    let routes = t.generate_v4(&gws, false);
    assert_eq!(routes.len(), 1);
    check_route(&routes[0], [0, 0, 0, 0], [0, 0, 0, 0], 0, "a");
    // Suppressing the default route leaves the whole space unrouted.
    let mut t2 = Tree::new(2);
    t2.mark(&[0, 0, 0, 0], 0, 1).unwrap();
    assert!(t2.generate_v4(&gws, true).is_empty());
}

fn classify(routes: &[(Vec<bool>, usize)], addr: &[bool]) -> Option<usize> {
    let mut best: Option<(usize, usize)> = None;
    for (path, color) in routes {
        if path.len() <= addr.len() && path.iter().zip(addr.iter()).all(|(a, b)| a == b) {
            match best {
                Some((l, _)) if l >= path.len() => {}
                _ => best = Some((path.len(), *color)),
            }
        }
    }
    best.map(|(_, c)| c)
}

#[test]
fn minimality_exhaustive_small() {
    // Complementary halves: the library emits two routes; an exhaustive
    // search shows no list of fewer routes classifies both halves.
    let gws = gateways_ab();
    let mut t = Tree::new(2);
    t.mark(&[0, 0, 0, 0], 1, 1).unwrap();
    t.mark(&[128, 0, 0, 0], 1, 2).unwrap();
    let emitted = t.generate_v4(&gws, false);
    assert_eq!(emitted.len(), 2);

    let paths: [&[bool]; 3] = [&[], &[false], &[true]];
    let leaf0 = [false];
    let leaf1 = [true];
    // The empty list fails.
    assert!(classify(&[], &leaf0) != Some(1) || classify(&[], &leaf1) != Some(2));
    // Every single-route list fails on at least one marked half.
    for path in paths {
        for color in [1usize, 2] {
            let candidate = vec![(path.to_vec(), color)];
            let ok = classify(&candidate, &leaf0) == Some(1)
                && classify(&candidate, &leaf1) == Some(2);
            assert!(!ok);
        }
    }
}
