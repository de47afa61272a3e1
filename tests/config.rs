use chains::config::Config;

fn args(a: &[&str]) -> Vec<String> {
    a.iter().map(|s| s.to_string()).collect()
}

#[test]
fn parse_input_and_text() {
    let c = Config::parse(args(&["-i", "corpus.txt", "hello"])).unwrap();
    assert_eq!(c.input_path.as_deref(), Some("corpus.txt"));
    assert_eq!(c.text.as_deref(), Some("hello"));
    assert_eq!(c.amount, 10);
    assert!(c.dictionary_path.is_none() && c.save_path.is_none());
}

#[test]
fn parse_long_options_and_amount() {
    let c = Config::parse(args(&["--dictionary", "d.bin", "--amount", "3", "seed words"])).unwrap();
    assert_eq!(c.dictionary_path.as_deref(), Some("d.bin"));
    assert_eq!(c.amount, 3);
    assert_eq!(c.text.as_deref(), Some("seed words"));
}

#[test]
fn parse_save_without_text() {
    let c = Config::parse(args(&["-i", "corpus.txt", "-s", "out.bin"])).unwrap();
    assert_eq!(c.save_path.as_deref(), Some("out.bin"));
    assert!(c.text.is_none());
}

#[test]
fn parse_errors() {
    assert_eq!(Config::parse(args(&[])).err().unwrap(), "-i or -d option are mandatory");
    assert_eq!(Config::parse(args(&["hello"])).err().unwrap(), "-i or -d option are mandatory");
    assert_eq!(Config::parse(args(&["-x", "y", "hello"])).err().unwrap(), "-x");
    assert_eq!(Config::parse(args(&["-i", "c.txt"])).err().unwrap(), "text not found");
    assert_eq!(
        Config::parse(args(&["-d", "d.bin", "-s", "o.bin", "t"])).err().unwrap(),
        "-s and -d cannot be used at the same time"
    );
    let e = Config::parse(args(&["-a", "many", "-i", "c.txt", "t"])).err().unwrap();
    assert!(e.starts_with("cant parse many: "));
}

#[test]
fn parse_option_value_can_be_last() {
    let c = Config::parse(args(&["-i", "c.txt", "-s", "o.bin", "-a", "5"])).unwrap();
    assert_eq!(c.amount, 5);
    assert!(c.text.is_none());
    assert_eq!(c.save_path.as_deref(), Some("o.bin"));
}

#[test]
fn parse_amount_forms() {
    assert_eq!(Config::parse(args(&["-a", "+7", "-i", "c", "t"])).unwrap().amount, 7);
    assert_eq!(Config::parse(args(&["-a", "007", "-i", "c", "t"])).unwrap().amount, 7);
    assert!(Config::parse(args(&["-a", "-7", "-i", "c", "t"])).is_err());
    assert!(Config::parse(args(&["-a", "", "-i", "c", "t"])).is_err());
    assert!(Config::parse(args(&["-a", "+", "-i", "c", "t"])).is_err());
    assert!(Config::parse(args(&["-a", "99999999999999999999999", "-i", "c", "t"])).is_err());
}
