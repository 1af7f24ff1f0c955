use reverse_geocoder::{GeocoderError, Locations, Record, ReverseGeocoder, UNITS_PER_DEGREE};

fn units(degrees: f64) -> i32 {
    (degrees * UNITS_PER_DEGREE as f64).round() as i32
}

fn place(lat: f64, lon: f64, name: &str, admin1: &str, admin2: &str, admin3: &str) -> Record {
    Record {
        lat: units(lat),
        lon: units(lon),
        name: name.to_string(),
        admin1: admin1.to_string(),
        admin2: admin2.to_string(),
        admin3: admin3.to_string(),
    }
}

fn twin_cities() -> Vec<Record> {
    vec![
        place(44.97997, -93.26384, "Minneapolis", "Minnesota", "Hennepin County", "US"),
        place(44.94441, -93.09327, "Saint Paul", "Minnesota", "Ramsey County", "US"),
        place(44.88330, -93.28300, "Richfield", "Minnesota", "Hennepin County", "US"),
        place(44.99385, -93.34912, "Golden Valley", "Minnesota", "Hennepin County", "US"),
        place(44.9483, -93.34801, "Saint Louis Park", "Minnesota", "Hennepin County", "US"),
        place(44.84080, -93.29828, "Bloomington", "Minnesota", "Hennepin County", "US"),
        place(44.92496, -93.46273, "Hopkins", "Minnesota", "Hennepin County", "US"),
        place(44.88969, -93.34995, "Edina", "Minnesota", "Hennepin County", "US"),
    ]
}

fn geocoder() -> ReverseGeocoder {
    ReverseGeocoder::new(Locations::from_records(twin_cities())).unwrap()
}

fn point(lat: f64, lon: f64) -> [i32; 2] {
    [units(lat), units(lon)]
}

#[test]
fn it_works() {
    let geocoder = geocoder();
    let y = geocoder.search(&point(44.962786, -93.344722));
    assert_eq!(y.is_some(), true);
    let slp = y.unwrap();

    assert_eq!(slp.name, "Saint Louis Park");

    // [44.894519, -93.308702] is 60 St W @ Penn Ave S, Minneapolis, Minnesota; however, this is physically closer to Richfield
    let mpls = geocoder.search(&point(44.894519, -93.308702)).unwrap();
    assert_eq!(mpls.name, "Richfield");

    // [44.887055, -93.334204] is HWY 62 and Valley View Road, which is in Edina
    let edina = geocoder.search(&point(44.887055, -93.334204)).unwrap();
    assert_eq!(edina.name, "Edina");
}

#[test]
fn returns_the_exact_record() {
    let r = geocoder().search(&point(44.962786, -93.344722)).unwrap();
    assert_eq!(r.lat, 449483000);
    assert_eq!(r.lon, -933480100);
    assert_eq!(r.name, "Saint Louis Park");
    assert_eq!(r.admin1, "Minnesota");
    assert_eq!(r.admin2, "Hennepin County");
    assert_eq!(r.admin3, "US");
}

#[test]
fn boundary_point_goes_to_richfield() {
    let g = geocoder();
    let r = g.search(&point(44.894519, -93.308702)).unwrap();
    assert_eq!(r.name, "Richfield");
    assert_ne!(r.name, "Minneapolis");
}

#[test]
fn empty_dataset_is_refused() {
    let r = ReverseGeocoder::new(Locations::from_records(Vec::new()));
    assert!(matches!(r, Err(GeocoderError::EmptyDataset)));
}

#[test]
fn single_record_answers_everything() {
    let g = ReverseGeocoder::new(Locations::from_records(vec![place(
        10.0, 20.0, "Only", "A", "B", "C",
    )]))
    .unwrap();
    for q in [[0, 0], [i32::MAX, i32::MIN], [i32::MIN, i32::MAX], [units(10.0), units(20.0)]] {
        assert_eq!(g.search(&q).unwrap().name, "Only");
        assert_eq!(g.nearest_index(&q), 0);
    }
}

#[test]
fn ties_go_to_the_earliest_record() {
    let recs = vec![
        place(0.0, 1.0, "east", "", "", ""),
        place(1.0, 0.0, "north", "", "", ""),
        place(0.0, -1.0, "west", "", "", ""),
        place(-1.0, 0.0, "south", "", "", ""),
        place(0.0, 1.0, "east again", "", "", ""),
    ];
    let g = ReverseGeocoder::new(Locations::from_records(recs)).unwrap();
    assert_eq!(g.search(&[0, 0]).unwrap().name, "east");
    assert_eq!(g.nearest_index(&[0, 0]), 0);
    assert_eq!(g.nearest_index(&point(0.0, 2.0)), 0);
    assert_eq!(g.nearest_index(&point(0.0, -2.0)), 2);
    assert_eq!(g.nearest_index(&point(-0.5, -0.5)), 2);
}

#[test]
fn equal_records_stay_distinct() {
    let recs = vec![
        place(5.0, 5.0, "same", "", "", ""),
        place(5.0, 5.0, "same", "", "", ""),
        place(5.0, 5.0, "same", "", "", ""),
    ];
    let g = ReverseGeocoder::new(Locations::from_records(recs)).unwrap();
    assert_eq!(g.nearest_index(&point(5.0, 5.0)), 0);
    assert_eq!(g.nearest_index(&point(-90.0, 170.0)), 0);
}

fn grid_records(n: i32) -> Vec<Record> {
    let mut recs = Vec::new();
    let mut seed: i64 = 12345;
    for i in 0..n {
        seed = (seed * 1103515245 + 12345) % 2147483648;
        let lat = (seed % 2001) as i32 - 1000;
        seed = (seed * 1103515245 + 12345) % 2147483648;
        let lon = (seed % 2001) as i32 - 1000;
        recs.push(Record {
            lat,
            lon,
            name: format!("p{}", i),
            admin1: String::new(),
            admin2: String::new(),
            admin3: String::new(),
        });
    }
    recs
}

#[test]
fn agrees_with_linear_scan() {
    let loc = Locations::from_records(grid_records(300));
    let scan = Locations::from_records(grid_records(300));
    let g = ReverseGeocoder::new(loc).unwrap();
    for lat in (-1200..=1200).step_by(37) {
        for lon in (-1200..=1200).step_by(41) {
            let q = [lat, lon];
            assert_eq!(Some(g.nearest_index(&q)), scan.nearest_by_scan(&q));
        }
    }
}

#[test]
fn agrees_with_linear_scan_on_many_ties() {
    // Points on a coarse lattice, each repeated, so most queries have ties.
    let mut recs = Vec::new();
    for k in 0..3 {
        for lat in 0..6 {
            for lon in 0..6 {
                recs.push(place(lat as f64, lon as f64, &format!("{}-{}-{}", lat, lon, k), "", "", ""));
            }
        }
    }
    let scan = Locations::from_records(recs.clone());
    let g = ReverseGeocoder::new(Locations::from_records(recs)).unwrap();
    for lat in -2..14 {
        for lon in -2..14 {
            let q = [units(lat as f64 / 2.0), units(lon as f64 / 2.0)];
            assert_eq!(Some(g.nearest_index(&q)), scan.nearest_by_scan(&q));
        }
    }
}

#[test]
fn two_builds_answer_alike() {
    let g1 = ReverseGeocoder::new(Locations::from_records(grid_records(200))).unwrap();
    let g2 = ReverseGeocoder::new(Locations::from_records(grid_records(200))).unwrap();
    for lat in (-1100..=1100).step_by(53) {
        for lon in (-1100..=1100).step_by(47) {
            let q = [lat, lon];
            assert_eq!(g1.nearest_index(&q), g2.nearest_index(&q));
            assert_eq!(g1.search(&q).unwrap().name, g2.search(&q).unwrap().name);
        }
    }
}

#[test]
fn repeated_queries_answer_alike() {
    let g = geocoder();
    let q = point(44.887055, -93.334204);
    let first = g.search(&q).unwrap();
    for _ in 0..5 {
        let again = g.search(&q).unwrap();
        assert_eq!(again.name, first.name);
        assert_eq!(again.lat, first.lat);
        assert_eq!(again.lon, first.lon);
    }
}

#[test]
fn far_queries_still_answer() {
    let g = geocoder();
    assert_eq!(g.search(&[i32::MAX, i32::MAX]).unwrap().name, "Saint Paul");
    assert_eq!(g.search(&point(-80.0, -93.29828)).unwrap().name, "Bloomington");
    assert_eq!(g.search(&point(89.0, -93.34912)).unwrap().name, "Golden Valley");
    assert_eq!(g.search(&point(44.9, -80.0)).unwrap().name, "Saint Paul");
}

#[test]
fn scan_on_empty_dataset_is_none() {
    let loc = Locations::from_records(Vec::new());
    assert_eq!(loc.len(), 0);
    assert_eq!(loc.nearest_by_scan(&[0, 0]), None);
}

#[test]
fn distance_is_squared_euclidean() {
    let r = place(0.0, 0.0, "o", "", "", "");
    let d = reverse_geocoder::record::distance(&[3, 4], &r);
    assert_eq!(d, 25);
    let far = Record { lat: i32::MIN, lon: i32::MIN, ..r.clone() };
    let d = reverse_geocoder::record::distance(&[i32::MAX, i32::MAX], &far);
    assert_eq!(d, 2 * (u32::MAX as i128) * (u32::MAX as i128));
}

#[test]
fn dataset_keeps_input_order() {
    let loc = Locations::from_records(twin_cities());
    assert_eq!(loc.len(), 8);
    assert_eq!(loc.get(0).name, "Minneapolis");
    assert_eq!(loc.get(7).name, "Edina");
    assert_eq!(loc.records_vec()[4].name, "Saint Louis Park");
}
