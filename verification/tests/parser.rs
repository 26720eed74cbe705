use jmon::tegrastats::{parse_cpu_list, TegrastatsParser};

#[test]
fn parses_sample_line() {
    let parser = TegrastatsParser::new();
    let line = "01-20-2026 22:46:22 RAM 17842/125772MB (lfb 79x4MB) CPU [0%@972,0%@972,0%@1566,0%@1566,0%@972,0%@972,0%@972,0%@972,0%@972,0%@972,1%@972,0%@972,0%@972,0%@972] cpu@30.468C tj@31.218C soc012@30.218C soc345@31.218C VDD_GPU 0mW/0mW VDD_CPU_SOC_MSS 5535mW/5535mW VIN_SYS_5V0 5040mW/5040mW VIN 16802mW/16802mW";
    let snapshot = parser.parse_line(line).expect("parse snapshot");

    assert_eq!(snapshot.ram_used_mb, Some(17842));
    assert_eq!(snapshot.ram_total_mb, Some(125772));
    assert_eq!(snapshot.cpu_cores.len(), 14);
    assert!(snapshot.power_rails.iter().any(|rail| rail.name == "VIN"));
    let vin = snapshot
        .power_rails
        .iter()
        .find(|rail| rail.name == "VIN")
        .expect("VIN rail");
    assert_eq!(vin.current_mw, 16802);
}

#[test]
fn example_line_fields() {
    let parser = TegrastatsParser::new();
    let line = "RAM 17842/125772MB (lfb 79x4MB) CPU [0%@972,1%@972] cpu@30.468C VDD_GPU 0mW/0mW VIN 16802mW/16802mW";
    let snapshot = parser.parse_line(line).expect("parse snapshot");

    assert_eq!(snapshot.ram_used_mb, Some(17842));
    assert_eq!(snapshot.ram_total_mb, Some(125772));
    assert_eq!(snapshot.cpu_cores, vec![0, 1000]);
    assert_eq!(snapshot.temps.len(), 1);
    assert_eq!(snapshot.temps[0].name, "cpu");
    assert_eq!(snapshot.temps[0].value_milli_c, 30468);
    assert_eq!(snapshot.power_rails.len(), 2);
    assert_eq!(snapshot.power_rails[0].name, "VDD_GPU");
    assert_eq!(snapshot.power_rails[0].current_mw, 0);
    assert_eq!(snapshot.power_rails[0].average_mw, 0);
    assert_eq!(snapshot.power_rails[1].name, "VIN");
    assert_eq!(snapshot.power_rails[1].current_mw, 16802);
    assert_eq!(snapshot.power_rails[1].average_mw, 16802);
    assert_eq!(snapshot.total_power_mw(), Some(0));
}

#[test]
fn empty_line_yields_no_sample() {
    let parser = TegrastatsParser::new();
    assert!(parser.parse_line("").is_none());
}

#[test]
fn unrecognized_line_yields_no_sample() {
    let parser = TegrastatsParser::new();
    assert!(parser.parse_line("hello world, no telemetry here").is_none());
}

#[test]
fn swap_pair_is_parsed() {
    let parser = TegrastatsParser::new();
    let snapshot = parser.parse_line("SWAP 100/8192MB").expect("sample");
    assert_eq!(snapshot.swap_used_mb, Some(100));
    assert_eq!(snapshot.swap_total_mb, Some(8192));
    assert_eq!(snapshot.ram_used_mb, None);
}

#[test]
fn single_value_utilizations() {
    let parser = TegrastatsParser::new();
    let snapshot = parser
        .parse_line("GR3D_FREQ 45% EMC_FREQ 20%")
        .expect("sample");
    assert_eq!(snapshot.gpu_util, Some(45_000));
    assert_eq!(snapshot.emc_util, Some(20_000));
}

#[test]
fn cpu_list_drops_bad_entries_and_maps_off() {
    let parser = TegrastatsParser::new();
    let snapshot = parser
        .parse_line("CPU [off,50%@1000,bad,12.5%@972]")
        .expect("sample");
    assert_eq!(snapshot.cpu_cores, vec![0, 50_000, 12_500]);
}

#[test]
fn parse_cpu_list_directly() {
    assert_eq!(parse_cpu_list("0%@972, off ,1.5"), vec![0, 0, 1_500]);
    assert_eq!(parse_cpu_list(""), Vec::<u32>::new());
    assert_eq!(parse_cpu_list("OFF"), vec![0]);
    assert_eq!(parse_cpu_list("7"), vec![7_000]);
}

#[test]
fn several_temperatures_collected() {
    let parser = TegrastatsParser::new();
    let snapshot = parser.parse_line("a@1C b@2.5C cv0@40.25C").expect("sample");
    let temps: Vec<(String, u32)> = snapshot
        .temps
        .iter()
        .map(|t| (t.name.clone(), t.value_milli_c))
        .collect();
    assert_eq!(
        temps,
        vec![
            ("a".to_string(), 1_000),
            ("b".to_string(), 2_500),
            ("cv0".to_string(), 40_250)
        ]
    );
}

#[test]
fn overflowing_used_field_is_absent_and_total_alone_is_no_data() {
    let parser = TegrastatsParser::new();
    // The used number does not fit in u64, so it is treated as absent;
    // a total alone does not count as data, so no sample results.
    assert!(parser
        .parse_line("RAM 99999999999999999999999/10MB")
        .is_none());
}

#[test]
fn first_memory_pair_wins() {
    let parser = TegrastatsParser::new();
    let snapshot = parser.parse_line("RAM 1/2MB RAM 3/4MB").expect("sample");
    assert_eq!(snapshot.ram_used_mb, Some(1));
    assert_eq!(snapshot.ram_total_mb, Some(2));
}

#[test]
fn keyword_matches_inside_larger_word() {
    // The grammar has no word boundary: `TRAM 5/6MB` contains
    // `RAM 5/6MB`.
    let parser = TegrastatsParser::new();
    let snapshot = parser.parse_line("TRAM 5/6MB").expect("sample");
    assert_eq!(snapshot.ram_used_mb, Some(5));
    assert_eq!(snapshot.ram_total_mb, Some(6));
}

#[test]
fn rail_with_overflowing_number_is_dropped() {
    let parser = TegrastatsParser::new();
    let snapshot = parser
        .parse_line("VDD_A 5mW/6mW VDD_B 99999999999999999999999mW/1mW")
        .expect("sample");
    assert_eq!(snapshot.power_rails.len(), 1);
    assert_eq!(snapshot.power_rails[0].name, "VDD_A");
}

#[test]
fn temperature_without_closing_unit_is_ignored() {
    let parser = TegrastatsParser::new();
    assert!(parser.parse_line("cpu@30.").is_none());
    assert!(parser.parse_line("cpu@30").is_none());
}
