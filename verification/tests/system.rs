use sniffbox::nft::{is_udp_rule, parse_facts, read_facts, NftFacts};
use sniffbox::nic::{
    added_modes, check_words, desired_advertising, handshake, has_speed_bits, ifreq_name, mask_hex,
    mode_names, plan_tune, speed_mask_word, TunePlan,
};
use sniffbox::sysinfo::{
    arm_model, chip_temp, clash_version, cpu_freq_range_khz, cpu_freqs_khz, cpu_index, cpu_temp,
    cpuinfo_mhz, cpu_jiffies, cpu_jiffies_of_stat,
    cpu_jiffies_per_core, cpu_model_cores, default_gateways, driver_to_model, find_pid_by_name,
    find_pids_by_name, kernel_version, meminfo, pick_temp, process_uptime, resolv_nameservers,
    resolve_speed, rss_of_status, scan_cpu_freqs_khz, scan_thermal_best, temp_milli, thermal_score,
    virtual_nic_nominal_speed, Chip, CpuFreq, Proc, TempSource, Zone, VIRTUAL_NICS,
};

const OPEN: &str = r#"table ip ppgw {
	set localnetwork {
		typeof ip daddr
		flags interval
		elements = { 10.0.0.0/8 }
	}

	chain ppgw_tproxy {
		type filter hook prerouting priority mangle; policy accept;
		ip protocol != { tcp, udp } return
		iif "lo" return
		ip daddr @localnetwork return
		fib daddr type local return
		meta l4proto udp tproxy to 127.0.0.1:1081 meta mark set 1
		ip protocol tcp tproxy to 127.0.0.1:1081 meta mark set 1
	}

	chain ppgw_input {
		type filter hook input priority filter; policy accept;
	}
}
"#;

const CLOSED: &str = r#"table ip ppgw {
	chain ppgw_tproxy {
		type filter hook prerouting priority mangle; policy accept;
		iif "lo" return
		udp dport 443 reject
		meta l4proto udp drop
		ip protocol tcp tproxy to 127.0.0.1:1081 meta mark set 1
	}

	chain ppgw_input {
		type filter hook input priority filter; policy accept;
		iifname "lo" accept
		meta l4proto { tcp, udp } th dport 1080 drop
	}
}
"#;

#[test]
fn empty_input_chain_means_openport_open() {
    let f = parse_facts(OPEN);
    assert_eq!(f.openport_open, Some(true), "empty ppgw_input = not blocked");
    assert_eq!(f.udp_open, Some(true), "udp tproxy rule = udp allowed");
}

#[test]
fn drop_rules_are_detected() {
    let f = parse_facts(CLOSED);
    assert_eq!(f.openport_open, Some(false), "dport 1080 drop = blocked");
    assert_eq!(f.udp_open, Some(false), "meta l4proto udp drop = blocked");
}

#[test]
fn tcp_tproxy_rule_is_not_read_as_udp() {
    let text = "table ip ppgw {\n\tchain ppgw_tproxy {\n\t\tip protocol tcp tproxy to 127.0.0.1:1081 meta mark set 1\n\t}\n}\n";
    assert_eq!(parse_facts(text).udp_open, Some(true));
    assert!(!is_udp_rule("ip protocol tcp tproxy to 127.0.0.1:1081"));
    assert!(is_udp_rule("meta l4proto udp drop"));
}

#[test]
fn dport_1080_in_another_chain_is_ignored() {
    let text = "table ip ppgw {\n\tchain other {\n\t\ttcp dport 1080 drop\n\t}\n\n\tchain ppgw_input {\n\t\ttype filter hook input priority filter; policy accept;\n\t}\n}\n";
    assert_eq!(parse_facts(text).openport_open, Some(true));
}

#[test]
fn missing_chains_stay_unknown() {
    assert_eq!(parse_facts(""), NftFacts::default());
    assert_eq!(
        parse_facts("table ip nat {\n\tchain prerouting {\n\t}\n}\n"),
        NftFacts::default()
    );
    let only_input = "table ip ppgw {\n\tchain ppgw_input {\n\t\tiifname \"lo\" accept\n\t}\n}\n";
    let f = parse_facts(only_input);
    assert_eq!(f.openport_open, Some(true));
    assert_eq!(f.udp_open, None, "no ppgw_tproxy chain = unknown, not false");
}

#[test]
fn reading_a_missing_table_is_not_a_panic() {
    assert_eq!(read_facts(None), NftFacts::default());
    assert_eq!(read_facts(Some(OPEN)), parse_facts(OPEN));
}

#[test]
fn speed_mask_excludes_feature_bits() {
    let w0 = speed_mask_word(0);
    for b in [6u32, 7, 8, 9, 10, 11, 13, 14, 16, 20] {
        assert_eq!(w0 & (1 << b), 0, "bit {b} must not count as a speed bit");
    }
    for b in [0u32, 1, 2, 3, 4, 5, 12, 15] {
        assert_ne!(w0 & (1 << b), 0, "bit {b} must count as a speed bit");
    }
    assert_eq!(speed_mask_word(1) & (1 << (49 - 32)), 0);
    assert_eq!(speed_mask_word(2) & (1 << (74 - 64)), 0);
    assert_ne!(speed_mask_word(1) & (1 << (47 - 32)), 0);
}

#[test]
fn widens_advertising_to_supported_speeds() {
    let sup = [0b0010_0000_1010_1111u32, 1 << (47 - 32)];
    let adv = [0b0010_0000_1010_1111u32, 0];
    let want = desired_advertising(&sup, &adv).expect("must widen");
    assert_eq!(want[1], 1 << (47 - 32));
    assert_eq!(want[0], adv[0], "word0 must be untouched");
    assert_eq!(mode_names(&[0, 1 << (47 - 32)]), "2500baseT/Full");
}

#[test]
fn matching_advertising_is_left_alone() {
    let sup = [0b0010_0000_1010_1111u32, 1 << (47 - 32)];
    assert!(desired_advertising(&sup, &sup).is_none());
}

#[test]
fn never_clears_pause_or_extra_bits() {
    let sup = [0b0000_0000_0010_1111u32, 0];
    let adv = [(1 << 13) | (1 << 14) | 0b0000_0000_0000_1111u32, 0];
    let want = desired_advertising(&sup, &adv).expect("1000baseT/Full missing");
    assert_ne!(want[0] & (1 << 13), 0);
    assert_ne!(want[0] & (1 << 14), 0);
    assert_ne!(want[0] & (1 << 5), 0);
}

#[test]
fn supported_without_speed_bits_is_ignored() {
    assert!(!has_speed_bits(&[0, 0]));
    assert!(!has_speed_bits(&[1 << 6 | 1 << 13, 0]));
    assert!(has_speed_bits(&[1 << 5, 0]));
}

#[test]
fn hex_matches_ethtool_notation() {
    assert_eq!(mask_hex(&[0x2f, 0x8000]), "0x000080000000002f");
    assert_eq!(mask_hex(&[0, 0]), "0x00000000");
}

#[test]
fn names_of_interfaces_are_padded() {
    let r = ifreq_name(b"eth0").unwrap();
    assert_eq!(&r[..5], b"eth0\0");
    assert!(ifreq_name(b"").is_none());
    assert!(ifreq_name(b"0123456789abcdef").is_none());
}

#[test]
fn cards_are_tuned_only_where_it_helps() {
    let sup = [0b10_1111u32];
    assert!(matches!(plan_tune(&[0], &[0], 1), TunePlan::NoModes));
    assert!(matches!(plan_tune(&sup, &[0b1111], 0), TunePlan::Forced));
    assert!(matches!(plan_tune(&sup, &sup, 1), TunePlan::Complete));
    match plan_tune(&sup, &[0b1111], 1) {
        TunePlan::Widen(w) => assert_eq!(added_modes(&w, &[0b1111]), vec![0b10_0000]),
        _ => panic!("expected a wider mask"),
    }
    assert_eq!(handshake(-3), Ok(3));
    assert!(handshake(2).unwrap_err().contains("nwords=2"));
    assert!(handshake(-9).unwrap_err().contains("exceeds supported max 8"));
    assert!(check_words(3, 3).is_ok());
    assert!(check_words(3, -1).unwrap_err().ends_with("asked 3, got -1"));
}

#[test]
fn arm_model_from_implementer_and_part() {
    let cpuinfo = "processor\t: 0\nBogoMIPS\t: 48.00\nFeatures\t: fp asimd evtstrm aes pmull sha1 sha2 crc32 cpuid\nCPU implementer\t: 0x41\nCPU architecture: 8\nCPU variant\t: 0x0\nCPU part\t: 0xd03\nCPU revision\t: 4\n\nprocessor\t: 1\nCPU implementer\t: 0x41\nCPU part\t: 0xd03\n";
    assert_eq!(arm_model(cpuinfo), "ARM Cortex-A53");
}

#[test]
fn arm_model_lists_every_big_little_core() {
    let cpuinfo = "CPU implementer\t: 0x41\nCPU part\t: 0xd03\nCPU implementer\t: 0x41\nCPU part\t: 0xd08\n";
    assert_eq!(arm_model(cpuinfo), "ARM Cortex-A53 + Cortex-A72");
}

#[test]
fn arm_model_falls_back_to_raw_ids() {
    assert_eq!(
        arm_model("CPU implementer\t: 0x51\nCPU part\t: 0x800\n"),
        "Qualcomm part 0x800"
    );
    assert_eq!(
        arm_model("CPU implementer\t: 0x99\nCPU part\t: 0xd03\n"),
        "implementer 0x99 part 0xd03"
    );
}

#[test]
fn arm_model_empty_without_ids() {
    assert_eq!(arm_model("processor\t: 0\nBogoMIPS\t: 48.00\n"), "");
}

#[test]
fn cpu_model_prefers_model_name_line() {
    let text = "processor\t: 0\nmodel name\t: Fast CPU\nprocessor\t: 1\nmodel name\t: Fast CPU\n";
    assert_eq!(cpu_model_cores(text, 9), ("Fast CPU".to_string(), 2));
    let (_, cores) = cpu_model_cores("", 3);
    assert!(cores >= 1);
}

#[test]
fn cpu_per_core_matches_core_count() {
    let stat = "cpu  10 0 10 80 0 0 0\ncpu0 5 0 5 40 0 0 0\ncpu1 5 0 5 40 0 0 0\nintr 1\n";
    let per_core = cpu_jiffies_per_core(stat);
    assert_eq!(per_core, vec![(50, 40), (50, 40)]);
    for (total, idle) in per_core {
        assert!(total >= idle);
    }
    assert_eq!(cpu_jiffies(stat), Some((100, 80)));
}

#[test]
fn cpu_jiffies_of_stat_parses_utime_stime() {
    let stat = "1234 (sniffbox) S 1 1234 1234 0 -1 4194560 100 0 0 0 71 29 0 0 20 0 3 0 999";
    assert_eq!(cpu_jiffies_of_stat(stat), Some(100));
}

#[test]
fn cpu_jiffies_of_stat_survives_parens_and_spaces_in_comm() {
    let stat = "77 (weird ) name) S 1 1 1 0 -1 0 0 0 0 0 5 7 0 0 20 0 1 0 42";
    assert_eq!(cpu_jiffies_of_stat(stat), Some(12));
}

#[test]
fn cpu_jiffies_of_stat_rejects_garbage() {
    assert_eq!(cpu_jiffies_of_stat(""), None);
    assert_eq!(cpu_jiffies_of_stat("1 (x) S 1 2"), None);
}

#[test]
fn find_pid_by_name_finds_this_test_binary() {
    let procs = [
        Proc { pid: 7, comm: "init\n".into() },
        Proc { pid: 9, comm: "clash\n".into() },
        Proc { pid: 8, comm: "clash\n".into() },
    ];
    assert_eq!(find_pid_by_name(&procs, &["clash"]), Some(9));
    assert_eq!(find_pids_by_name(&procs, &["clash", "mihomo"]), vec![8, 9]);
    assert!(find_pid_by_name(&procs, &["definitely-not-a-real-process-xyz"]).is_none());
    assert_eq!(rss_of_status("Name:\tx\nVmRSS:\t  100 kB\n"), 102_400);
}

#[test]
fn thermal_score_ranks_cpu_zones_above_the_rest() {
    assert_eq!(thermal_score("x86_pkg_temp"), 1000);
    assert_eq!(thermal_score("cpu-thermal"), 1000);
    assert_eq!(thermal_score("soc_thermal"), 1000);
    assert_eq!(thermal_score("cpu0-thermal"), 50);
    assert_eq!(thermal_score("bigcore0_tcpu"), 50);
    assert_eq!(thermal_score("acpitz"), 0);
    assert_eq!(thermal_score("nvme"), 0);
    assert_eq!(thermal_score("iwlwifi_1"), 0);
    assert_eq!(thermal_score("battery"), 0);
    assert_eq!(thermal_score("mystery"), 0);
}

#[test]
fn temp_celsius_handles_both_units_and_rejects_garbage() {
    assert_eq!(temp_milli(48_500), Some(48_500));
    assert_eq!(temp_milli(45), Some(45_000));
    assert_eq!(temp_milli(-40_000), Some(-40_000));
    assert_eq!(temp_milli(9_999_000), None);
    assert_eq!(temp_milli(-100_000), None);
}

#[test]
fn scans_host_shared_thermal_tree() {
    let zones = [Zone { kind: "cpu-thermal".into(), raw: 56_000 }];
    let (i, score, milli) = scan_thermal_best(&zones).unwrap();
    assert_eq!(zones[i].kind, "cpu-thermal");
    assert_eq!(score, 1000, "cpu-thermal must be the determined CPU sensor");
    assert_eq!(milli, 56_000);
    assert_eq!(pick_temp(Some(1000), true, true), TempSource::Zone);
    assert_eq!(pick_temp(Some(0), true, true), TempSource::Chip);
    assert_eq!(pick_temp(None, false, true), TempSource::Host);
}

fn freq(index: usize, khz: u32) -> CpuFreq {
    CpuFreq {
        index,
        scaling_cur: Some(khz),
        cpuinfo_cur: None,
        cpuinfo_min: Some(100_000),
        scaling_min: None,
        cpuinfo_max: Some(1_512_000),
        scaling_max: None,
    }
}

#[test]
fn scans_host_shared_cpufreq_tree() {
    let dirs = [freq(2, 1_000_000), freq(0, 1_512_000), freq(3, 667_000), freq(1, 1_200_000)];
    assert_eq!(scan_cpu_freqs_khz(&dirs), vec![1512000, 1200000, 1000000, 667000]);
    assert_eq!(cpu_freq_range_khz(&dirs, None), Some((100000, 1512000)));
    assert_eq!(cpu_freq_range_khz(&[], Some(&dirs)), Some((100000, 1512000)));
}

#[test]
fn frequencies_come_from_the_machine_then_its_listing_then_the_host() {
    let (own, host) = ([freq(1, 2_000_000), freq(0, 1_000_000)], [freq(0, 3_000_000)]);
    assert_eq!(cpu_freqs_khz(&own, &[5], Some(&host)), [1_000_000, 2_000_000]);
    assert_eq!(cpu_freqs_khz(&[], &[5, 4], Some(&host)), [5, 4]);
    assert_eq!(cpu_freqs_khz(&[], &[], Some(&host)), [3_000_000]);
    assert!(cpu_freqs_khz(&[], &[], None).is_empty());
}

fn chip(name: &str, raw: Option<i64>) -> Chip {
    Chip { name: name.into(), raw }
}

#[test]
fn the_first_chip_of_a_processor_that_can_be_read_counts() {
    let chips = [
        chip("nvme", Some(30_000)),
        chip("coretemp", None),
        chip("k10temp", Some(9_999_000)),
        chip(" zenpower\n", Some(41_250)),
        chip("cpu_thermal", Some(50_000)),
    ];
    assert_eq!(chip_temp(&chips), Some((3, 41_250)));
    assert_eq!(chip_temp(&chips[..3]), None);
}

#[test]
fn the_temperature_comes_from_the_surest_sensor() {
    let zone = |kind: &str, raw| Zone { kind: kind.into(), raw };
    let shown = |zones: &[Zone], chips: &[Chip], host: Option<&[Zone]>| {
        cpu_temp(zones, chips, host).map(|t| (t.milli, t.sensor))
    };
    let (sure, vague) = ([zone("x86_pkg_temp\n", 50_000)], [zone("acpitz", 27_800)]);
    let chips = [chip("coretemp", Some(48_000))];
    let host = [zone("cpu-thermal", 56_000)];
    let is = |milli: i64, sensor: &str| Some((milli, sensor.to_string()));
    assert_eq!(shown(&sure, &chips, Some(&host)), is(50_000, "x86_pkg_temp"));
    assert_eq!(shown(&vague, &chips, Some(&host)), is(48_000, "coretemp"));
    assert_eq!(shown(&vague, &[], Some(&host)), is(27_800, "acpitz"));
    assert_eq!(shown(&[], &[], Some(&host)), is(56_000, "cpu-thermal"));
    assert_eq!(shown(&[], &[], None), None);
}

#[test]
fn cpu_temp_is_optional_and_sane() {
    assert!(cpu_temp(&[], &[], None).is_none());
    for raw in [-60_000, -50_000, -40, 0, 45, 48_500, 200_000, 200_001] {
        let zones = [Zone { kind: "cpu".into(), raw }];
        if let Some(t) = cpu_temp(&zones, &[chip("coretemp", Some(raw))], None) {
            assert!(!t.sensor.is_empty());
            let celsius = t.milli as f64 / 1000.0;
            assert!((-50.0..=200.0).contains(&celsius), "temp={celsius}");
        }
    }
}

#[test]
fn cpu_freqs_match_core_count_when_available() {
    let listing = "processor\t: 0\ncpu MHz\t\t: 3200.000\nprocessor\t: 1\ncpu MHz\t\t: 799.951\n";
    let mhz: Vec<u32> = cpuinfo_mhz(listing)
        .iter()
        .filter_map(|v| v.parse::<f64>().ok())
        .map(|v| (v * 1000.0).round() as u32)
        .collect();
    let dirs = [freq(0, 1_512_000), freq(1, 1_200_000)];
    for f in [cpu_freqs_khz(&dirs, &mhz, None), cpu_freqs_khz(&[], &mhz, None)] {
        let (_m, cores) = cpu_model_cores(listing, 1);
        assert_eq!(f.len(), cores);
        assert!(f.iter().all(|&k| k > 0));
    }
    let (lo, hi) = cpu_freq_range_khz(&dirs, None).unwrap();
    assert!(lo <= hi && hi > 0);
}

#[test]
fn scans_of_missing_tree_are_empty_not_panics() {
    assert!(scan_thermal_best(&[]).is_none());
    assert!(scan_cpu_freqs_khz(&[]).is_empty());
    assert!(cpu_freq_range_khz(&[], None).is_none());
}

#[test]
fn cpu_index_only_matches_numbered_cpu_dirs() {
    assert_eq!(cpu_index("cpu0"), Some(0));
    assert_eq!(cpu_index("cpu13"), Some(13));
    assert_eq!(cpu_index("cpufreq"), None);
    assert_eq!(cpu_index("cpuidle"), None);
    assert_eq!(cpu_index("possible"), None);
}

#[test]
fn driver_to_model_maps_known_drivers_only() {
    assert_eq!(driver_to_model("igc"), Some("Intel I225/I226 2.5GbE"));
    assert_eq!(driver_to_model("virtio_net"), Some("Virtio virtual NIC"));
    assert_eq!(driver_to_model("nonexistent_drv"), None);
}

#[test]
fn every_nominal_speed_driver_has_a_model_name() {
    for drv in VIRTUAL_NICS {
        let mbps = virtual_nic_nominal_speed(drv).unwrap();
        assert!(mbps > 0, "{drv}: nominal speed must be positive");
        assert!(driver_to_model(drv).is_some(), "{drv}: missing from NIC_MODELS");
    }
}

#[test]
fn no_phy_paravirt_drivers_fall_back_to_10g() {
    for drv in ["virtio_net", "hv_netvsc", "vif", "xen_netfront", "vmxnet3"] {
        assert_eq!(
            resolve_speed(Some(-1), Some(true), Some(drv)),
            Some(10_000),
            "{drv}: speed=-1 should fall back"
        );
        assert_eq!(
            resolve_speed(None, Some(true), Some(drv)),
            Some(10_000),
            "{drv}: unreadable speed should fall back"
        );
        assert_eq!(resolve_speed(Some(-1), Some(false), Some(drv)), None);
        assert_eq!(resolve_speed(Some(1000), Some(true), Some(drv)), Some(1000));
    }
}

#[test]
fn virtio_without_negotiated_speed_falls_back_to_10g() {
    assert_eq!(resolve_speed(Some(-1), Some(true), Some("virtio_net")), Some(10_000));
    assert_eq!(resolve_speed(None, Some(true), Some("virtio_net")), Some(10_000));
    assert_eq!(resolve_speed(Some(1000), Some(true), Some("virtio_net")), Some(1000));
    assert_eq!(resolve_speed(Some(-1), Some(false), Some("virtio_net")), None);
    assert_eq!(resolve_speed(Some(-1), None, Some("virtio_net")), None);
    assert_eq!(resolve_speed(Some(-1), Some(true), Some("igc")), None);
    assert_eq!(resolve_speed(Some(-1), Some(true), None), None);
    assert_eq!(resolve_speed(Some(2500), Some(true), Some("igc")), Some(2500));
}

#[test]
fn gateway_route_parse() {
    let table = "Iface\tDestination\tGateway\tFlags\neth0\t00000000\t0100A8C0\t0003\n";
    assert_eq!(default_gateways(table).get("eth0"), Some(&0xc0a8_0001));
    assert!(default_gateways("").get("eth0").is_none());
}

#[test]
fn texts_of_the_kernel_are_read() {
    assert_eq!(meminfo("MemTotal: 4 kB\nMemAvailable: 2 kB\n"), (4096, 2048));
    assert!(!kernel_version("6.1.0\n").contains('\n'));
    assert_eq!(
        resolv_nameservers("# x\nnameserver 1.1.1.1\nnameserver 8.8.8.8\n"),
        vec!["1.1.1.1".to_string(), "8.8.8.8".to_string()]
    );
    let stat = "77 (x) S 1 1 1 0 -1 0 0 0 0 0 5 7 0 0 20 0 1 0 4200";
    assert_eq!(process_uptime(stat, 100), Some(58));
}

#[test]
fn clash_tells_its_version() {
    let answer = "HTTP/1.0 200 OK\r\n\r\n{\"version\":\"1.19\",\"meta\":true}\r\n\r\n";
    let v = clash_version(answer).unwrap();
    assert_eq!(v.version, "1.19");
    assert!(v.meta);
    assert!(!clash_version("H\r\n\r\n{\"version\":\"1\"}").unwrap().meta);
    assert!(clash_version("H\r\n\r\n{\"meta\":true}").is_none());
    assert!(clash_version("no body").is_none());
}

fn cpuinfo_freqs_khz(listing: &str) -> Vec<u32> {
    cpuinfo_mhz(listing)
        .iter()
        .filter_map(|v| v.parse::<f64>().ok())
        .map(|mhz| (mhz * 1000.0).round() as u32)
        .collect()
}

#[test]
fn cpuinfo_freqs_parse_mhz_to_khz() {
    let text = "processor\t: 0\ncpu MHz\t\t: 3200.000\nprocessor\t: 1\ncpu MHz\t\t: 799.951\n";
    assert_eq!(cpuinfo_freqs_khz(text), vec![3_200_000, 799_951]);
    assert!(cpuinfo_freqs_khz("processor\t: 0\n").is_empty());
}

#[test]
fn frequencies_are_kept_as_written() {
    assert_eq!(cpuinfo_mhz("cpu MHz\t: 1.5 \ncpu MHz=2\n cpu MHz: 3\ncpu MHz\n"), ["1.5", "=2", ""]);
}
