use chrono::{DateTime, Datelike, Local, TimeZone, Timelike};
use simulated_annealing::instance_reader::parse_instance;
use simulated_annealing::instance_writer::{InstanceWriter, Timestamp};

fn stamp(at: &DateTime<Local>) -> Timestamp {
    Timestamp {
        year: at.year(),
        month: at.month(),
        day: at.day(),
        hour: at.hour(),
        minute: at.minute(),
        second: at.second() + at.nanosecond() / 1_000_000_000,
        millis: at.timestamp_subsec_millis(),
    }
}

fn sample() -> (Vec<i32>, Vec<usize>) {
    (vec![1, 2, 3, 4], vec![0, 1, 2, 3])
}

#[test]
fn format_instance_joins_city_ids_in_instance_order() {
    let (cities, instance) = sample();
    let writer = InstanceWriter::new(&cities, &instance, None);

    assert_eq!(writer.format_instance().unwrap(), "1,2,3,4");
}

#[test]
fn format_instance_errors_on_out_of_range_city_index() {
    let (cities, _instance) = sample();
    let bad_instance = vec![0usize, 99];
    let writer = InstanceWriter::new(&cities, &bad_instance, None);

    assert!(writer.format_instance().is_err());
    assert_eq!(writer.format_instance(), Err("city index 99 out of range".to_string()));
}

#[test]
fn format_path_maps_solution_positions_to_city_ids() {
    let (cities, instance) = sample();
    let writer = InstanceWriter::new(&cities, &instance, None);

    assert_eq!(writer.format_path(&[3usize, 0, 2, 1]).unwrap(), "4,1,3,2");
}

#[test]
fn format_path_errors_on_out_of_range_position() {
    let (cities, instance) = sample();
    let writer = InstanceWriter::new(&cities, &instance, None);

    assert!(writer.format_path(&[7usize]).is_err());
    assert_eq!(writer.format_path(&[7usize]), Err("solution position 7 out of range".to_string()));
}

#[test]
fn format_path_reports_a_city_index_out_of_range() {
    let writer = InstanceWriter::new(&[5, 6], &[1, 9], None);

    assert_eq!(writer.format_path(&[0, 1]), Err("city index 9 out of range".to_string()));
    assert_eq!(writer.format_path(&[0]), Ok("6".to_string()));
    assert_eq!(writer.format_path(&[]), Ok(String::new()));
}

#[test]
fn negative_ids_keep_their_sign() {
    let writer = InstanceWriter::new(&[-12, 0, i32::MIN], &[2, 0, 1], Some("out.txt".to_string()));

    assert_eq!(writer.format_instance().unwrap(), "-2147483648,-12,0");
    assert_eq!(writer.output_path(), Some("out.txt".to_string()));
}

#[test]
fn output_file_name_embeds_the_padded_index_and_the_formatted_timestamp() {
    let at = Local.with_ymd_and_hms(2024, 3, 7, 9, 5, 2).unwrap();
    let name = InstanceWriter::output_file_name(3, &stamp(&at));

    assert!(name.starts_with("./results/output-0003-"));
    assert!(name.ends_with(".out"));
    assert!(name.contains(&at.format("%d%m-%Y-%H%M-%S").to_string()));
}

#[test]
fn output_file_name_includes_centiseconds_from_subsecond_millis() {
    let at = Local
        .with_ymd_and_hms(2024, 1, 1, 0, 0, 0)
        .unwrap()
        .with_nanosecond(456_000_000)
        .unwrap();

    let name = InstanceWriter::output_file_name(0, &stamp(&at));

    assert!(name.ends_with("45.out"));
}

#[test]
fn output_file_name_has_the_exact_layout() {
    let at = Timestamp { year: 2024, month: 3, day: 7, hour: 9, minute: 5, second: 2, millis: 7 };

    assert_eq!(InstanceWriter::output_file_name(12345, &at), "./results/output-12345-0703-2024-0905-0200.out");
}

#[test]
fn output_file_name_writes_years_as_chrono_does() {
    for year in [-5, 0, 7, 999, 1000, 9999, 10000, 123456] {
        let at = Local.with_ymd_and_hms(year, 12, 31, 23, 59, 58).unwrap();
        let name = InstanceWriter::output_file_name(1, &stamp(&at));
        assert!(name.contains(&at.format("-%d%m-%Y-%H%M-%S").to_string()), "{name}");
    }
}

#[test]
fn solutions_file_name_replaces_extension_with_sol() {
    assert_eq!(
        InstanceWriter::solutions_file_name("./results/output-0001.out"),
        "./results/output-0001.sol"
    );
}

#[test]
fn solutions_file_name_appends_extension_when_missing() {
    assert_eq!(InstanceWriter::solutions_file_name("output"), "output.sol");
}

#[test]
fn a_rendered_instance_parses_back() {
    let cities = vec![-7, 30, 0, i32::MAX, i32::MIN, 12];
    let instance = vec![3, 0, 5, 5, 1, 4, 2];
    let writer = InstanceWriter::new(&cities, &instance, None);
    let text = writer.format_instance().unwrap();
    assert_eq!(parse_instance(&text, &cities).ok(), Some(instance));
    let empty = InstanceWriter::new(&cities, &[], None);
    assert_eq!(parse_instance(&empty.format_instance().unwrap(), &cities).ok(), Some(vec![]));
}
