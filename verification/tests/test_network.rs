use aqs_analysis::network::MonitoringNetwork;
use aqs_analysis::pollution::PollutionData;
use aqs_analysis::station::Station;

fn create_test_station(id: &str, name: &str, lat: f64, lon: f64) -> Station {
    Station {
        id: id.to_string(),
        state_code: "01".to_string(),
        county_code: "001".to_string(),
        site_number: id.split("-").last().unwrap_or("0001").to_string(),
        latitude_udeg: (lat * 1_000_000.0).round() as i64,
        longitude_udeg: (lon * 1_000_000.0).round() as i64,
        land_use: "RESIDENTIAL".to_string(),
        location_setting: "URBAN".to_string(),
        site_name: name.to_string(),
        state_name: "Test State".to_string(),
        county_name: "Test County".to_string(),
        city_name: "Test City".to_string(),
        avg_distance_to_neighbors: None,
    }
}

#[test]
fn test_haversine_distance() {
    let network = MonitoringNetwork::new();

    // New York City to Los Angeles distance (about 3940 km)
    let nyc_lat = 40_712_800i64;
    let nyc_lon = -74_006_000i64;
    let la_lat = 34_052_200i64;
    let la_lon = -118_243_700i64;

    let distance_m = network.haversine_distance(nyc_lat, nyc_lon, la_lat, la_lon);
    let distance_km = distance_m as f64 / 1000.0;

    // Check that the distance is within 1% of expected value
    assert!(
        (distance_km - 3940.0).abs() < 40.0,
        "Distance calculation error: {}",
        distance_km
    );
}

#[test]
fn test_calculate_isolation() {
    let mut network = MonitoringNetwork::new();

    let station1 = create_test_station("01-001-0001", "Station1", 40.0, -74.0);
    let station2 = create_test_station("01-001-0002", "Station2", 40.1, -74.1);
    let station3 = create_test_station("01-001-0003", "Station3", 40.2, -74.2);

    network.add_station(station1);
    network.add_station(station2);
    network.add_station(station3);

    network.build_adjacency_list();

    network.calculate_isolation(1);

    for station in &network.stations {
        assert!(
            station.avg_distance_to_neighbors.is_some(),
            "Station missing isolation value: {}",
            station.site_name
        );
    }
}

#[test]
fn test_correlation_calculation() {
    let mut network = MonitoringNetwork::new();
    let mut pollution_data = PollutionData::new();

    let station1_id = "01-001-0001".to_string();
    let station2_id = "01-001-0002".to_string();

    let mut station1 = create_test_station("01-001-0001", "Station1", 40.0, -74.0);
    // Set isolation value directly instead of calculating it: 10 km
    station1.avg_distance_to_neighbors = Some(10_000);

    let mut station2 = create_test_station("01-001-0002", "Station2", 40.1, -74.1);
    // Set isolation value directly instead of calculating it: 20 km
    station2.avg_distance_to_neighbors = Some(20_000);

    network.add_station(station1);
    network.add_station(station2);

    // Pollution values with perfect negative correlation to isolation:
    // Station1: isolation=10, pollution=20; Station2: isolation=20, pollution=10
    pollution_data.insert(station1_id, 20_000);
    pollution_data.insert(station2_id, 10_000);

    let correlation = network.analyze_correlation(&pollution_data);

    // With exactly two data points in perfect negative correlation, the
    // coefficient (scaled by one million) must be strongly negative.
    assert!(
        correlation < -900_000,
        "Expected strong negative correlation, got: {}",
        correlation
    );
}

#[test]
fn test_network_test_haversine_distance() {
    let network = MonitoringNetwork::new();

    let nyc_lat = 40_712_800i64;
    let nyc_lon = -74_006_000i64;
    let la_lat = 34_052_200i64;
    let la_lon = -118_243_700i64;

    let distance_m = network.haversine_distance(nyc_lat, nyc_lon, la_lat, la_lon);
    let distance_km = distance_m as f64 / 1000.0;

    assert!(
        (distance_km - 3940.0).abs() < 40.0,
        "Distance calculation error: {}",
        distance_km
    );
}

#[test]
fn test_network_test_calculate_isolation() {
    let mut network = MonitoringNetwork::new();

    let station1 = create_test_station("01-001-0001", "Station1", 40.0, -74.0);
    let station2 = create_test_station("01-001-0002", "Station2", 40.1, -74.1);
    let station3 = create_test_station("01-001-0003", "Station3", 40.2, -74.2);

    network.add_station(station1);
    network.add_station(station2);
    network.add_station(station3);

    network.build_adjacency_list();

    network.calculate_isolation(1);

    for station in &network.stations {
        assert!(
            station.avg_distance_to_neighbors.is_some(),
            "Station missing isolation value: {}",
            station.site_name
        );
    }
}
