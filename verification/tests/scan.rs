use portscan::address::{AddressSource, CidrBlock, IpAddress, expand};
use portscan::render::{diagnostic_line, format_address, format_target, report_lines};
use portscan::report::{TaskReport, collect_open, task_report};
use portscan::scheduler::{ScanRequest, ScanTarget, build_targets};

fn loopback() -> IpAddress {
    // 127.0.0.1
    IpAddress::V4(0x7F00_0001)
}

#[test]
fn single_address_expands_to_itself() {
    let source = AddressSource::Single(loopback());
    let addrs = expand(&source);
    assert_eq!(addrs.len(), 1);
    assert_eq!(addrs[0], loopback());
}

#[test]
fn cidr_expands_to_every_member_once() {
    // 10.0.0.0/30: four addresses, lowest to highest.
    let block = CidrBlock::V4 { base: 0x0A00_0000, prefix: 30 };
    let addrs = expand(&AddressSource::Cidr(block));
    assert_eq!(addrs.len(), 4);
    for (i, a) in addrs.iter().enumerate() {
        assert_eq!(*a, IpAddress::V4(0x0A00_0000 + i as u32));
    }
    for i in 0..addrs.len() {
        for j in 0..addrs.len() {
            if i != j {
                assert_ne!(addrs[i], addrs[j]);
            }
        }
    }
}

#[test]
fn cidr_v6_expands_in_order() {
    // A /126 block holds four addresses.
    let block = CidrBlock::V6 { base: 0x20010DB8_00000000_00000000_00000000, prefix: 126 };
    let addrs = expand(&AddressSource::Cidr(block));
    assert_eq!(addrs.len(), 4);
    for (i, a) in addrs.iter().enumerate() {
        assert_eq!(*a, IpAddress::V6(0x20010DB8_00000000_00000000_00000000 + i as u128));
    }
}

#[test]
fn targets_cover_port_range_per_address() {
    let req = ScanRequest {
        target: AddressSource::Single(loopback()),
        port_start: 80,
        port_end: 82,
    };
    let targets = build_targets(&req);
    assert_eq!(targets.len(), 3);
    for (i, t) in targets.iter().enumerate() {
        assert_eq!(t.addr, loopback());
        assert_eq!(t.port, 80 + i as u16);
    }
}

#[test]
fn targets_are_full_cartesian_product() {
    let block = CidrBlock::V4 { base: 0x0A00_0000, prefix: 30 };
    let req = ScanRequest { target: AddressSource::Cidr(block), port_start: 10, port_end: 12 };
    let targets = build_targets(&req);
    assert_eq!(targets.len(), 4 * 3);
    for a in 0..4u32 {
        for p in 0..3u16 {
            let t = targets[(a * 3 + p as u32) as usize];
            assert_eq!(t.addr, IpAddress::V4(0x0A00_0000 + a));
            assert_eq!(t.port, 10 + p);
        }
    }
}

#[test]
fn equal_bounds_scan_one_port() {
    let req = ScanRequest {
        target: AddressSource::Single(loopback()),
        port_start: 443,
        port_end: 443,
    };
    let targets = build_targets(&req);
    assert_eq!(targets.len(), 1);
    assert_eq!(targets[0], ScanTarget { addr: loopback(), port: 443 });
}

#[test]
fn default_bounds_scan_1024_ports() {
    let req = ScanRequest { target: AddressSource::Single(loopback()), port_start: 1, port_end: 1024 };
    let targets = build_targets(&req);
    assert_eq!(targets.len(), 1024);
    assert_eq!(targets[0].port, 1);
    assert_eq!(targets[1023].port, 1024);
}

#[test]
fn report_holds_reachable_pairs_only() {
    let req = ScanRequest {
        target: AddressSource::Single(loopback()),
        port_start: 20,
        port_end: 25,
    };
    let targets = build_targets(&req);
    let open = vec![false, true, true, false, false, true];
    let reported = collect_open(&targets, &open);
    assert_eq!(reported.len(), 3);
    assert_eq!(reported[0].port, 21);
    assert_eq!(reported[1].port, 22);
    assert_eq!(reported[2].port, 25);
}

#[test]
fn unchanged_listeners_report_the_same_pairs() {
    let req = ScanRequest {
        target: AddressSource::Single(loopback()),
        port_start: 1,
        port_end: 16,
    };
    let targets = build_targets(&req);
    let open: Vec<bool> = (0..16).map(|i| i % 3 == 0).collect();
    let first_run = collect_open(&targets, &open);
    let second_run = collect_open(&targets, &open);
    assert_eq!(first_run, second_run);
}

#[test]
fn loopback_scenario_reports_the_one_listener() {
    // Probing 127.0.0.1 ports 80..=82 with a listener on 81 alone.
    let req = ScanRequest {
        target: AddressSource::Single(loopback()),
        port_start: 80,
        port_end: 82,
    };
    let targets = build_targets(&req);
    let open = vec![false, true, false];
    let reported = collect_open(&targets, &open);
    assert_eq!(reported.len(), 1);
    assert_eq!(report_lines(&reported), vec!["127.0.0.1:81".to_string()]);
}

#[test]
fn silent_network_reports_nothing() {
    // Probing 10.0.0.0/30 on port 1 with nothing listening.
    let block = CidrBlock::V4 { base: 0x0A00_0000, prefix: 30 };
    let req = ScanRequest { target: AddressSource::Cidr(block), port_start: 1, port_end: 1 };
    let targets = build_targets(&req);
    let open = vec![false; targets.len()];
    let reported = collect_open(&targets, &open);
    assert!(reported.is_empty());
    assert!(report_lines(&reported).is_empty());
}

#[test]
fn task_reports_each_outcome() {
    let t = ScanTarget { addr: loopback(), port: 80 };
    assert_eq!(task_report(t, false, false), TaskReport::Nothing);
    assert_eq!(task_report(t, false, true), TaskReport::Nothing);
    assert_eq!(task_report(t, true, true), TaskReport::Delivered(t));
    assert_eq!(task_report(t, true, false), TaskReport::DeliveryFailed(t));
}

#[test]
fn delivery_failure_renders_one_diagnostic() {
    assert_eq!(diagnostic_line("channel closed"), "error: channel closed");
}

#[test]
fn v4_addresses_render_dotted_decimal() {
    assert_eq!(format_address(&IpAddress::V4(0x7F00_0001)), "127.0.0.1");
    assert_eq!(format_address(&IpAddress::V4(0)), "0.0.0.0");
    assert_eq!(format_address(&IpAddress::V4(u32::MAX)), "255.255.255.255");
}

#[test]
fn v6_addresses_render_full_hex_groups() {
    assert_eq!(format_address(&IpAddress::V6(1)), "0:0:0:0:0:0:0:1");
    assert_eq!(
        format_address(&IpAddress::V6(0x20010DB8_00000000_00000000_0000BEEF)),
        "2001:db8:0:0:0:0:0:beef"
    );
    assert_eq!(
        format_address(&IpAddress::V6(u128::MAX)),
        "ffff:ffff:ffff:ffff:ffff:ffff:ffff:ffff"
    );
}

#[test]
fn report_lines_pair_address_and_port() {
    let t = ScanTarget { addr: loopback(), port: 8080 };
    assert_eq!(format_target(&t), "127.0.0.1:8080");
    let t6 = ScanTarget { addr: IpAddress::V6(1), port: 22 };
    assert_eq!(format_target(&t6), "0:0:0:0:0:0:0:1:22");
}
