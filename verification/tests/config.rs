use csv_filter::config::Config;

fn strings(names: &[&str]) -> Vec<String> {
    names.iter().map(|s| String::from(*s)).collect()
}

#[test]
fn too_few_arguments_are_rejected() {
    assert_eq!(
        Config::new(&strings(&["prog"])),
        Err("Wrong number of argument given, 2 expected")
    );
    assert_eq!(
        Config::new(&strings(&["prog", "data.csv"])),
        Err("Wrong number of argument given, 2 expected")
    );
}

#[test]
fn three_arguments_build_a_config() {
    let c = Config::new(&strings(&["prog", "data.csv", "a,b"])).unwrap();
    assert_eq!(c.csv_file, "data.csv");
    assert_eq!(c.columns, strings(&["a", "b"]));
}

#[test]
fn column_list_splits_like_a_header_line() {
    let c = Config::new(&strings(&["prog", "data.csv", "a"])).unwrap();
    assert_eq!(c.columns, strings(&["a"]));
    let c = Config::new(&strings(&["prog", "data.csv", ""])).unwrap();
    assert_eq!(c.columns, strings(&[""]));
    let c = Config::new(&strings(&["prog", "data.csv", "a,,b,"])).unwrap();
    assert_eq!(c.columns, strings(&["a", "", "b", ""]));
}

#[test]
fn extra_arguments_are_ignored() {
    let c = Config::new(&strings(&["prog", "data.csv", "a", "extra"])).unwrap();
    assert_eq!(c.csv_file, "data.csv");
    assert_eq!(c.columns, strings(&["a"]));
}
