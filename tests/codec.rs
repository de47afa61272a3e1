use chains::codec::ModelError;
use chains::predictor::Predictor;
use chains::text::word_split;

fn train(text: &str) -> Predictor {
    Predictor::create(&word_split(text))
}

#[test]
fn stored_model_loads_back_the_same() {
    let p = train("a b a c a b");
    let bytes = p.to_bytes();
    assert!(!bytes.is_empty());
    let q = Predictor::from_bytes(&bytes).ok().expect("decodes");
    assert_eq!(p.entries().len(), q.entries().len());
    for (x, y) in p.entries().iter().zip(q.entries().iter()) {
        assert_eq!(x.name, y.name);
        assert_eq!(x.total, y.total);
        assert_eq!(x.amounts, y.amounts);
    }
    assert_eq!(q.to_bytes(), bytes);
}

#[test]
fn empty_model_round_trips() {
    let p = train("");
    let q = Predictor::from_bytes(&p.to_bytes()).ok().unwrap();
    assert!(q.entries().is_empty());
}

#[test]
fn garbage_bytes_do_not_decode() {
    assert!(matches!(Predictor::from_bytes(&[0xff, 0x00, 0x13]), Err(ModelError::Decode)));
    assert!(matches!(Predictor::from_bytes(&[]), Err(ModelError::Decode)));
}

#[test]
fn truncated_bytes_do_not_decode() {
    let bytes = train("a b a c a b").to_bytes();
    assert!(matches!(Predictor::from_bytes(&bytes[..bytes.len() - 1]), Err(ModelError::Decode)));
}

fn encode(records: &Vec<(String, u32, Vec<u32>)>) -> Vec<u8> {
    let mut buf = Vec::new();
    ciborium::ser::into_writer(records, &mut buf).unwrap();
    buf
}

#[test]
fn records_written_elsewhere_decode() {
    let bytes = encode(&vec![("a".to_string(), 1, vec![0, 1]), ("b".to_string(), 0, vec![0, 0])]);
    let p = Predictor::from_bytes(&bytes).ok().unwrap();
    assert_eq!(p.predict_word("a"), Some("b".to_string()));
    assert_eq!(p.to_bytes(), bytes);
}

#[test]
fn inconsistent_records_are_invalid() {
    let descending = encode(&vec![("b".to_string(), 0, vec![0, 0]), ("a".to_string(), 1, vec![0, 1])]);
    assert!(matches!(Predictor::from_bytes(&descending), Err(ModelError::Invalid)));
    let wrong_total = encode(&vec![("a".to_string(), 2, vec![0, 1]), ("b".to_string(), 0, vec![0, 0])]);
    assert!(matches!(Predictor::from_bytes(&wrong_total), Err(ModelError::Invalid)));
    let short_counts = encode(&vec![("a".to_string(), 1, vec![1]), ("b".to_string(), 0, vec![0, 0])]);
    assert!(matches!(Predictor::from_bytes(&short_counts), Err(ModelError::Invalid)));
    let repeated = encode(&vec![("a".to_string(), 0, vec![0, 0]), ("a".to_string(), 0, vec![0, 0])]);
    assert!(matches!(Predictor::from_bytes(&repeated), Err(ModelError::Invalid)));
}
