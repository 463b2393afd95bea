use hadar::config::Config;

fn args(list: &[&str]) -> Vec<String> {
    list.iter().map(|s| s.to_string()).collect()
}

#[test]
fn no_argument_selects_the_default_data_directory() {
    assert_eq!(Config::from_args(&args(&[])).unwrap().data_dir, "hadar-data");
}

#[test]
fn one_argument_names_the_data_directory() {
    assert_eq!(Config::from_args(&args(&["/var/lib/hadar"])).unwrap().data_dir, "/var/lib/hadar");
}

#[test]
fn help_and_extra_arguments_answer_with_the_usage() {
    let usage = "usage: hadar [DATA_DIR]    (default: hadar-data)";
    assert_eq!(Config::usage(), usage);
    assert_eq!(Config::from_args(&args(&["-h"])).unwrap_err(), usage);
    assert_eq!(Config::from_args(&args(&["--help"])).unwrap_err(), usage);
    assert_eq!(Config::from_args(&args(&["a", "b"])).unwrap_err(), usage);
}
