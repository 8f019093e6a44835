use plan_synth::categories;
use plan_synth::categories::CategoryRow;
use plan_synth::districts;
use plan_synth::districts::DistrictRow;
use plan_synth::levels;
use plan_synth::modes;
use plan_synth::modes::Mode;
use plan_synth::purposes::Purpose;
use plan_synth::reference::{ReferenceData, ReferenceDataError};
use plan_synth::time_bins::{time_bins, TimeBin, COUNT};
use plan_synth::trips;
use plan_synth::trips::{Transport, TripRow};

fn district_rows() -> Vec<DistrictRow> {
    vec![
        DistrictRow { id: 10, info: "A".to_string() },
        DistrictRow { id: 20, info: "B".to_string() },
    ]
}

fn category_rows() -> Vec<CategoryRow> {
    vec![
        CategoryRow { id: 1, origin: Purpose::Home, destination: Purpose::Work },
        CategoryRow { id: 2, origin: Purpose::Work, destination: Purpose::Home },
    ]
}

fn trip_row(category: u8, origin: u16, destination: u16, count: usize) -> TripRow {
    TripRow { transport: Transport::Individual, category, origin, destination, count }
}

fn flat_curve() -> Vec<u32> {
    vec![1u32; 48]
}

fn one_mode() -> Vec<Mode> {
    vec![Mode { index: 0, name: "Feet", share: 1, transport: Transport::Individual }]
}

#[test]
fn bins_wrap_around_the_day() {
    let late = TimeBin::new(40).unwrap();
    let next = late + 28800;
    assert_eq!(next.value(), 8);
    assert_eq!(next - late, 16);
    assert_eq!(late - next, 32);
    assert_eq!(late - late, 48);
    assert!(TimeBin::new(48).is_none());
    assert_eq!(TimeBin::new(47).unwrap().value(), 47);
}

#[test]
fn a_started_half_hour_counts_as_a_bin() {
    let start = TimeBin::new(0).unwrap();
    assert_eq!((start + 0).value(), 0);
    assert_eq!((start + 1).value(), 1);
    assert_eq!((start + 1800).value(), 1);
    assert_eq!((start + 1801).value(), 2);
    assert_eq!((start + 86400).value(), 0);
    assert_eq!((start + u64::MAX).value(), ((u64::MAX / 1800 + 1) % 48) as usize);
}

#[test]
fn the_day_has_48_bins_in_order() {
    let bins = time_bins();
    assert_eq!(bins.len(), COUNT);
    for (i, bin) in bins.iter().enumerate() {
        assert_eq!(bin.value(), i);
    }
}

#[test]
fn purposes_have_their_durations() {
    assert_eq!(Purpose::Home.duration(), 8 * 3600);
    assert_eq!(Purpose::Work.duration(), 8 * 3600);
    assert_eq!(Purpose::School.duration(), 7 * 3600);
    assert_eq!(Purpose::Leisure.duration(), 2 * 3600);
    assert_eq!(Purpose::Shopping.duration(), 3600);
    assert_eq!(Purpose::Service.duration(), 1800);
    let start = TimeBin::new(0).unwrap();
    assert_eq!((start + Purpose::Home.duration()).value(), 16);
    assert_eq!((start + Purpose::School.duration()).value(), 14);
    assert_eq!((start + Purpose::Service.duration()).value(), 1);
}

#[test]
fn purposes_are_read_from_their_labels() {
    assert_eq!(Purpose::from_str("Arbeit"), Ok(Purpose::Work));
    assert_eq!(Purpose::from_str("Dienstleistung"), Ok(Purpose::Service));
    assert_eq!(Purpose::from_str("Einkaufen"), Ok(Purpose::Shopping));
    assert_eq!(Purpose::from_str("Freizeit"), Ok(Purpose::Leisure));
    assert_eq!(Purpose::from_str("Grundschule"), Ok(Purpose::School));
    assert_eq!(Purpose::from_str("H\u{f6}rsaal"), Ok(Purpose::School));
    assert_eq!(Purpose::from_str("H\u{f6}rsaalHin"), Ok(Purpose::School));
    assert_eq!(Purpose::from_str("H\u{f6}rsaalplatz"), Ok(Purpose::School));
    assert_eq!(Purpose::from_str("H\u{f6}rsaalR\u{fc}ck"), Ok(Purpose::School));
    assert_eq!(Purpose::from_str("Service"), Ok(Purpose::Service));
    assert_eq!(Purpose::from_str("Stud.Ziele"), Ok(Purpose::School));
    assert_eq!(Purpose::from_str("weiterf.Schule"), Ok(Purpose::School));
    assert_eq!(Purpose::from_str("Wohnen"), Ok(Purpose::Home));
}

#[test]
fn an_unknown_label_is_quoted_in_the_error() {
    assert_eq!(
        Purpose::from_str("Urlaub"),
        Err("Unknown purpose string \"Urlaub\"!".to_string())
    );
    assert_eq!(Purpose::from_str(""), Err("Unknown purpose string \"\"!".to_string()));
    assert!(Purpose::from_str("arbeit").is_err());
}

#[test]
fn transport_has_its_abbreviation() {
    assert_eq!(Transport::Public.to_str(), "OV");
    assert_eq!(Transport::Individual.to_str(), "IV");
}

#[test]
fn districts_are_numbered_by_position() {
    let table = districts::load(&district_rows()).unwrap();
    assert_eq!(table.len(), 2);
    assert_eq!(table[0].index, 0);
    assert_eq!(table[0].id.value(), 10);
    assert_eq!(table[0].info, "A");
    assert_eq!(table[1].index, 1);
    assert_eq!(table[1].id.value(), 20);
    assert_eq!(districts::parse_id(&table, 20).unwrap().index, 1);
    assert!(districts::parse_id(&table, 30).is_none());
    assert_eq!(districts::find_position(&table, 10), Some(0));
}

#[test]
fn a_repeated_district_is_an_error() {
    let mut rows = district_rows();
    rows.push(DistrictRow { id: 10, info: "C".to_string() });
    assert_eq!(districts::load(&rows).unwrap_err(), ReferenceDataError::DuplicateDistrict);
}

#[test]
fn a_district_label_names_its_group_where_it_differs() {
    assert_eq!(districts::compose_info("Mitte", "Mitte"), "Mitte");
    assert_eq!(districts::compose_info("Markt", "Mitte"), "Markt (Mitte)");
    assert_eq!(districts::compose_info("", "Mitte"), " (Mitte)");
}

#[test]
fn categories_are_numbered_by_position() {
    let table = categories::load(&category_rows()).unwrap();
    assert_eq!(table.len(), 2);
    assert_eq!(table[1].index, 1);
    assert_eq!(table[1].id.value(), 2);
    assert_eq!(table[1].origin, Purpose::Work);
    assert_eq!(table[1].destination, Purpose::Home);
    assert_eq!(categories::parse_id(&table, 1).unwrap().index, 0);
    assert!(categories::parse_id(&table, 3).is_none());
}

#[test]
fn a_repeated_category_is_an_error() {
    let mut rows = category_rows();
    rows.push(CategoryRow { id: 2, origin: Purpose::Home, destination: Purpose::Leisure });
    assert_eq!(categories::load(&rows).unwrap_err(), ReferenceDataError::DuplicateCategory);
}

#[test]
fn trips_without_count_are_dropped_at_load() {
    let districts = districts::load(&district_rows()).unwrap();
    let categories = categories::load(&category_rows()).unwrap();
    let rows = vec![
        trip_row(1, 10, 20, 0),
        trip_row(2, 20, 10, 5),
        trip_row(9, 77, 88, 0),
        trip_row(1, 20, 10, 1),
    ];
    let table = trips::load(&districts, &categories, &rows).unwrap();
    assert_eq!(table.len(), 2);
    assert_eq!(table[0].index, 0);
    assert_eq!(table[0].category, 1);
    assert_eq!(table[0].origin, 1);
    assert_eq!(table[0].destination, 0);
    assert_eq!(table[0].count, 5);
    assert_eq!(table[1].index, 1);
    assert_eq!(table[1].category, 0);
    assert_eq!(table[1].count, 1);
}

#[test]
fn the_first_faulty_trip_decides_the_error() {
    let districts = districts::load(&district_rows()).unwrap();
    let categories = categories::load(&category_rows()).unwrap();
    let unknown_category = vec![trip_row(1, 10, 20, 1), trip_row(3, 10, 99, 1)];
    assert_eq!(
        trips::load(&districts, &categories, &unknown_category).unwrap_err(),
        ReferenceDataError::UnknownCategory
    );
    let unknown_origin = vec![trip_row(1, 30, 20, 1), trip_row(3, 10, 20, 1)];
    assert_eq!(
        trips::load(&districts, &categories, &unknown_origin).unwrap_err(),
        ReferenceDataError::UnknownDistrict
    );
    let unknown_destination = vec![trip_row(1, 10, 30, 1)];
    assert_eq!(
        trips::load(&districts, &categories, &unknown_destination).unwrap_err(),
        ReferenceDataError::UnknownDistrict
    );
    let repeated = vec![trip_row(1, 10, 20, 1), trip_row(2, 10, 20, 1), trip_row(1, 10, 20, 7)];
    assert_eq!(
        trips::load(&districts, &categories, &repeated).unwrap_err(),
        ReferenceDataError::DuplicateTrip
    );
    let repeated_for_other_transport = vec![
        trip_row(1, 10, 20, 1),
        TripRow { transport: Transport::Public, category: 1, origin: 10, destination: 20, count: 1 },
    ];
    assert_eq!(trips::load(&districts, &categories, &repeated_for_other_transport).unwrap().len(), 2);
}

#[test]
fn trip_counts_that_do_not_fit_are_found() {
    let districts = districts::load(&district_rows()).unwrap();
    let categories = categories::load(&category_rows()).unwrap();
    let rows = vec![trip_row(1, 10, 20, usize::MAX), trip_row(2, 20, 10, 1)];
    let table = trips::load(&districts, &categories, &rows).unwrap();
    assert!(!trips::counts_fit(&table));
    let rows = vec![trip_row(1, 10, 20, usize::MAX - 1), trip_row(2, 20, 10, 1)];
    let table = trips::load(&districts, &categories, &rows).unwrap();
    assert!(trips::counts_fit(&table));
}

#[test]
fn level_rows_are_cut_or_filled_to_a_day() {
    let categories = categories::load(&category_rows()).unwrap();
    let mut long = vec![0u32; 50];
    long[0] = 7;
    long[49] = 9;
    let short = vec![0u32, 3];
    let table = levels::load(&categories, &vec![long, short]).unwrap();
    assert_eq!(table.len(), 2);
    assert_eq!(table[0].len(), 48);
    assert_eq!(table[0][0], 7);
    assert_eq!(table[1].len(), 48);
    assert_eq!(table[1][1], 3);
    assert_eq!(table[1][47], 0);
    assert_eq!(levels::get_levels(&table, &categories[1])[1], 3);
}

#[test]
fn level_rows_without_weight_are_an_error() {
    let categories = categories::load(&category_rows()).unwrap();
    assert_eq!(
        levels::load(&categories, &vec![flat_curve()]).unwrap_err(),
        ReferenceDataError::MalformedLevels
    );
    assert_eq!(
        levels::load(&categories, &vec![flat_curve(), vec![0u32; 48]]).unwrap_err(),
        ReferenceDataError::MalformedLevels
    );
    let mut late = vec![0u32; 49];
    late[48] = 1;
    assert_eq!(
        levels::load(&categories, &vec![flat_curve(), late]).unwrap_err(),
        ReferenceDataError::MalformedLevels
    );
}

#[test]
fn the_built_in_modes_share_a_thousand() {
    let table = modes::modes();
    assert_eq!(table.len(), modes::COUNT);
    let names: Vec<&str> = table.iter().map(|mode| mode.name).collect();
    assert_eq!(names, vec!["Feet", "Bike", "Pt", "CarDriver", "CarPassenger"]);
    let shares: Vec<u32> = table.iter().map(|mode| mode.share).collect();
    assert_eq!(shares, vec![298, 110, 130, 336, 126]);
    assert_eq!(shares.iter().sum::<u32>(), 1000);
    assert_eq!(table[2].transport, Transport::Public);
    assert_eq!(table[3].transport, Transport::Individual);
    assert!(modes::check(&table));
}

#[test]
fn mode_tables_are_checked() {
    assert!(!modes::check(&Vec::new()));
    let no_share = vec![Mode { index: 0, name: "Feet", share: 0, transport: Transport::Individual }];
    assert!(!modes::check(&no_share));
    let misnumbered = vec![Mode { index: 1, name: "Feet", share: 1, transport: Transport::Individual }];
    assert!(!modes::check(&misnumbered));
    assert!(modes::check(&one_mode()));
}

#[test]
fn reference_data_are_loaded_as_a_whole() {
    let trips = vec![trip_row(1, 10, 20, 2), trip_row(2, 20, 10, 0)];
    let data = ReferenceData::load(
        &district_rows(),
        &category_rows(),
        &trips,
        &vec![flat_curve(), flat_curve()],
        one_mode(),
    )
    .unwrap();
    assert_eq!(data.districts.len(), 2);
    assert_eq!(data.categories.len(), 2);
    assert_eq!(data.trips.len(), 1);
    assert_eq!(data.levels.len(), 2);
    assert_eq!(data.modes.len(), 1);
}

#[test]
fn the_tables_are_checked_in_order() {
    let mut twice = district_rows();
    twice.push(DistrictRow { id: 20, info: "B".to_string() });
    let mut same = category_rows();
    same.push(CategoryRow { id: 1, origin: Purpose::Home, destination: Purpose::Home });
    let lost = vec![trip_row(1, 10, 99, 1)];
    let curves = vec![flat_curve(), flat_curve()];
    let fault = |districts: &Vec<DistrictRow>,
                 categories: &Vec<CategoryRow>,
                 trips: &Vec<TripRow>,
                 levels: &Vec<Vec<u32>>,
                 modes: Vec<Mode>| {
        ReferenceData::load(districts, categories, trips, levels, modes).unwrap_err()
    };
    assert_eq!(
        fault(&twice, &same, &lost, &Vec::new(), Vec::new()),
        ReferenceDataError::DuplicateDistrict
    );
    assert_eq!(
        fault(&district_rows(), &same, &lost, &Vec::new(), Vec::new()),
        ReferenceDataError::DuplicateCategory
    );
    assert_eq!(
        fault(&district_rows(), &category_rows(), &lost, &Vec::new(), Vec::new()),
        ReferenceDataError::UnknownDistrict
    );
    let fine = vec![trip_row(1, 10, 20, 1)];
    assert_eq!(
        fault(&district_rows(), &category_rows(), &fine, &Vec::new(), Vec::new()),
        ReferenceDataError::MalformedLevels
    );
    assert_eq!(
        fault(&district_rows(), &category_rows(), &fine, &curves, Vec::new()),
        ReferenceDataError::MalformedModes
    );
    let huge = vec![trip_row(1, 10, 20, usize::MAX), trip_row(2, 20, 10, 1)];
    assert_eq!(
        fault(&district_rows(), &category_rows(), &huge, &curves, one_mode()),
        ReferenceDataError::TooLarge
    );
    let unknown = vec![trip_row(5, 10, 20, 1)];
    assert_eq!(
        fault(&district_rows(), &category_rows(), &unknown, &curves, one_mode()),
        ReferenceDataError::UnknownCategory
    );
    let repeated = vec![trip_row(1, 10, 20, 1), trip_row(1, 10, 20, 1)];
    assert_eq!(
        fault(&district_rows(), &category_rows(), &repeated, &curves, one_mode()),
        ReferenceDataError::DuplicateTrip
    );
}
