use aqs_analysis::network::MonitoringNetwork;
use aqs_analysis::pollution::PollutionData;
use aqs_analysis::station::Station;

fn station_at(num: &str, lat_udeg: i64, lon_udeg: i64) -> Station {
    let mut st = Station {
        state_code: "06".to_string(),
        county_code: "037".to_string(),
        site_number: num.to_string(),
        latitude_udeg: lat_udeg,
        longitude_udeg: lon_udeg,
        land_use: "COMMERCIAL".to_string(),
        location_setting: "SUBURBAN".to_string(),
        site_name: format!("Site {}", num),
        state_name: "State".to_string(),
        county_name: "County".to_string(),
        city_name: "City".to_string(),
        id: String::new(),
        avg_distance_to_neighbors: None,
    };
    st.generate_id();
    st
}

#[test]
fn generate_id_joins_codes() {
    let st = station_at("0001", 40_000_000, -74_000_000);
    assert_eq!(st.id, "06-037-0001");
}

#[test]
fn haversine_self_distance_is_zero() {
    let network = MonitoringNetwork::new();
    assert_eq!(
        network.haversine_distance(40_712_800, -74_006_000, 40_712_800, -74_006_000),
        0
    );
    assert_eq!(network.haversine_distance(0, 0, 0, 0), 0);
}

#[test]
fn haversine_is_symmetric() {
    let network = MonitoringNetwork::new();
    let d1 = network.haversine_distance(40_712_800, -74_006_000, 34_052_200, -118_243_700);
    let d2 = network.haversine_distance(34_052_200, -118_243_700, 40_712_800, -74_006_000);
    assert_eq!(d1, d2);
    let d3 = network.haversine_distance(-33_868_800, 151_209_300, 51_500_000, -120_000);
    let d4 = network.haversine_distance(51_500_000, -120_000, -33_868_800, 151_209_300);
    assert_eq!(d3, d4);
}

#[test]
fn three_close_stations_all_get_isolation() {
    // Stations at (40.0,-74.0), (40.1,-74.1), (40.2,-74.2): each lies a few
    // kilometers from another, so with k=1 every isolation must be defined.
    let mut network = MonitoringNetwork::new();
    network.add_station(station_at("0001", 40_000_000, -74_000_000));
    network.add_station(station_at("0002", 40_100_000, -74_100_000));
    network.add_station(station_at("0003", 40_200_000, -74_200_000));
    network.build_adjacency_list();
    network.calculate_isolation(1);
    for station in &network.stations {
        assert!(station.avg_distance_to_neighbors.is_some());
    }
    // the two ends are each ~14 km from the middle, the middle ~14 km away
    let iso0 = network.stations[0].avg_distance_to_neighbors.unwrap();
    assert!(iso0 > 10_000 && iso0 < 20_000, "iso0 = {}", iso0);
}

#[test]
fn isolation_unset_without_neighbors_in_radius() {
    // Two stations over 300 km apart: no isolation for either.
    let mut network = MonitoringNetwork::new();
    network.add_station(station_at("0001", 40_000_000, -74_000_000));
    network.add_station(station_at("0002", 40_000_000, -70_000_000));
    network.build_adjacency_list();
    network.calculate_isolation(3);
    for station in &network.stations {
        assert!(station.avg_distance_to_neighbors.is_none());
    }
}

#[test]
fn isolation_never_decreases_with_k() {
    let mut network = MonitoringNetwork::new();
    network.add_station(station_at("0001", 40_000_000, -74_000_000));
    network.add_station(station_at("0002", 40_100_000, -74_100_000));
    network.add_station(station_at("0003", 40_200_000, -74_200_000));
    network.build_adjacency_list();
    let mut previous: Vec<u64> = Vec::new();
    for k in 1..4usize {
        let mut network_k = MonitoringNetwork::new();
        network_k.add_station(station_at("0001", 40_000_000, -74_000_000));
        network_k.add_station(station_at("0002", 40_100_000, -74_100_000));
        network_k.add_station(station_at("0003", 40_200_000, -74_200_000));
        network_k.build_adjacency_list();
        network_k.calculate_isolation(k);
        let scores: Vec<u64> = network_k
            .stations
            .iter()
            .map(|s| s.avg_distance_to_neighbors.unwrap())
            .collect();
        if !previous.is_empty() {
            for (a, b) in previous.iter().zip(scores.iter()) {
                assert!(b >= a, "isolation decreased when k grew: {} -> {}", a, b);
            }
        }
        previous = scores;
    }
}

#[test]
fn correlation_of_two_antithetic_points_is_exactly_minus_one() {
    let mut network = MonitoringNetwork::new();
    let mut st1 = station_at("0001", 40_000_000, -74_000_000);
    st1.avg_distance_to_neighbors = Some(10_000);
    let mut st2 = station_at("0002", 40_100_000, -74_100_000);
    st2.avg_distance_to_neighbors = Some(20_000);
    let id1 = st1.id.clone();
    let id2 = st2.id.clone();
    network.add_station(st1);
    network.add_station(st2);
    let mut pollution = PollutionData::new();
    pollution.insert(id1, 20_000);
    pollution.insert(id2, 10_000);
    assert_eq!(network.analyze_correlation(&pollution), -1_000_000);
}

#[test]
fn correlation_without_paired_samples_is_zero() {
    let network = MonitoringNetwork::new();
    let pollution = PollutionData::new();
    assert_eq!(network.analyze_correlation(&pollution), 0);

    // stations without pollution values contribute no pairs
    let mut network2 = MonitoringNetwork::new();
    let mut st = station_at("0001", 40_000_000, -74_000_000);
    st.avg_distance_to_neighbors = Some(5_000);
    network2.add_station(st);
    assert_eq!(network2.analyze_correlation(&pollution), 0);
}

#[test]
fn correlation_stays_within_unit_interval() {
    let mut network = MonitoringNetwork::new();
    let mut pollution = PollutionData::new();
    for i in 0..25i64 {
        let mut st = station_at(&format!("{:04}", i), 40_000_000 + i * 50_000, -74_000_000);
        st.avg_distance_to_neighbors = Some((1_000 + (i * i * 37) % 90_000) as u64);
        let id = st.id.clone();
        network.add_station(st);
        pollution.insert(id, ((i * 13) % 7) * 1_000 - 3_000);
    }
    let r = network.analyze_correlation(&pollution);
    assert!(-1_000_000 <= r && r <= 1_000_000, "correlation out of range: {}", r);
}

#[test]
fn thresholds_pick_the_75th_percentile() {
    let mut network = MonitoringNetwork::new();
    let mut pollution = PollutionData::new();
    // isolation distribution: 1000, 2000, 3000, 4000 (meters)
    for i in 0..4i64 {
        let mut st = station_at(&format!("{:04}", i), 40_000_000 + i * 10_000, -74_000_000);
        st.avg_distance_to_neighbors = Some(((i + 1) * 1_000) as u64);
        let id = st.id.clone();
        network.add_station(st);
        // pollution distribution: 5000, 10000, 15000, 20000 (milli-units)
        pollution.insert(id, (i + 1) * 5_000);
    }
    // rank floor(0.75 * 4) = 3: the fourth smallest of each distribution
    let (iso_t, poll_t) = network.thresholds(&pollution).unwrap();
    assert_eq!(iso_t, 4_000);
    assert_eq!(poll_t, 20_000);
}

#[test]
fn thresholds_are_deterministic() {
    let mut network = MonitoringNetwork::new();
    let mut pollution = PollutionData::new();
    for i in 0..7i64 {
        let mut st = station_at(&format!("{:04}", i), 40_000_000 + i * 10_000, -74_000_000);
        st.avg_distance_to_neighbors = Some((100 + (i * 31) % 50) as u64 * 100);
        let id = st.id.clone();
        network.add_station(st);
        pollution.insert(id, (i * 17) % 11 * 500);
    }
    let first = network.thresholds(&pollution);
    let second = network.thresholds(&pollution);
    assert_eq!(first, second);
    assert!(first.is_some());
}

#[test]
fn thresholds_need_both_distributions() {
    let network = MonitoringNetwork::new();
    let pollution = PollutionData::new();
    assert!(network.thresholds(&pollution).is_none());
}

#[test]
fn gaps_exceed_both_thresholds_and_rank_by_isolation() {
    let mut network = MonitoringNetwork::new();
    let mut pollution = PollutionData::new();
    let iso = [5_000u64, 50_000, 120_000, 80_000, 200_000];
    let poll = [1_000i64, 30_000, 40_000, 35_000, 2_000];
    for i in 0..5usize {
        let mut st = station_at(
            &format!("{:04}", i),
            40_000_000 + (i as i64) * 10_000,
            -74_000_000,
        );
        st.avg_distance_to_neighbors = Some(iso[i]);
        let id = st.id.clone();
        network.add_station(st);
        pollution.insert(id, poll[i]);
    }
    let iso_threshold = 40_000u64;
    let poll_threshold = 20_000i64;
    let gaps = network.find_monitoring_gaps(&pollution, iso_threshold, poll_threshold);
    // stations 1, 2, 3 qualify; station 4 fails on pollution, 0 on both
    assert_eq!(gaps.len(), 3);
    for (idx, p) in &gaps {
        let st = &network.stations[*idx];
        assert!(st.avg_distance_to_neighbors.unwrap() > iso_threshold);
        assert!(*p > poll_threshold);
    }
    // ranked most isolated first: station 2 (120 km), 3 (80 km), 1 (50 km)
    assert_eq!(gaps[0].0, 2);
    assert_eq!(gaps[1].0, 3);
    assert_eq!(gaps[2].0, 1);
}

#[test]
fn station_without_pollution_is_no_gap() {
    let mut network = MonitoringNetwork::new();
    let pollution = PollutionData::new();
    let mut st = station_at("0001", 40_000_000, -74_000_000);
    st.avg_distance_to_neighbors = Some(250_000);
    network.add_station(st);
    let gaps = network.find_monitoring_gaps(&pollution, 1, 1);
    assert!(gaps.is_empty());
}

#[test]
fn isolation_statistics_summarize_the_distribution() {
    let mut network = MonitoringNetwork::new();
    let values = [9_000u64, 1_000, 5_000, 3_000];
    for i in 0..4usize {
        let mut st = station_at(
            &format!("{:04}", i),
            40_000_000 + (i as i64) * 10_000,
            -74_000_000,
        );
        st.avg_distance_to_neighbors = Some(values[i]);
        network.add_station(st);
    }
    let stats = network.isolation_statistics().unwrap();
    assert_eq!(stats.min_m, 1_000);
    assert_eq!(stats.max_m, 9_000);
    // sorted: 1000, 3000, 5000, 9000; index 4/2 = 2
    assert_eq!(stats.median_m, 5_000);
    assert_eq!(stats.mean_m, 4_500);
}

#[test]
fn isolation_statistics_need_scores() {
    let mut network = MonitoringNetwork::new();
    network.add_station(station_at("0001", 40_000_000, -74_000_000));
    assert!(network.isolation_statistics().is_none());
}

#[test]
fn add_station_replaces_duplicate_ids() {
    let mut network = MonitoringNetwork::new();
    network.add_station(station_at("0001", 40_000_000, -74_000_000));
    let mut replacement = station_at("0001", 41_000_000, -75_000_000);
    replacement.site_name = "Replacement".to_string();
    network.add_station(replacement);
    assert_eq!(network.stations.len(), 1);
    assert_eq!(network.stations[0].site_name, "Replacement");
    assert_eq!(network.stations[0].latitude_udeg, 41_000_000);
}

#[test]
fn pollution_recording_prefers_annual_values() {
    let mut pollution = PollutionData::new();
    // a short-term value lands first
    pollution.record_measurement("06-037-0001".to_string(), 8_000, false);
    assert_eq!(pollution.get(&"06-037-0001".to_string()), Some(8_000));
    // further short-term values do not displace it
    pollution.record_measurement("06-037-0001".to_string(), 9_500, false);
    assert_eq!(pollution.get(&"06-037-0001".to_string()), Some(8_000));
    // an annual value always does
    pollution.record_measurement("06-037-0001".to_string(), 7_250, true);
    assert_eq!(pollution.get(&"06-037-0001".to_string()), Some(7_250));
    // and other ids are untouched
    assert_eq!(pollution.get(&"06-037-0002".to_string()), None);
}
