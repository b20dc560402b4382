use reed_solomon::Errors;
use reed_solomon::FieldElement;
use reed_solomon::GF2k;
use reed_solomon::ReedSolomon;

fn engine() -> GF2k {
    GF2k::new().expect("the built tables satisfy every well-formedness check")
}

#[test]
fn construct_rejects_zero_length() {
    let rs = ReedSolomon::new(engine(), 0, 10, FieldElement::new(2));
    assert_eq!(rs.unwrap_err(), Errors::TooFewNumbers);
}

#[test]
fn construct_rejects_zero_parity() {
    let rs = ReedSolomon::new(engine(), 10, 0, FieldElement::new(2));
    assert_eq!(rs.unwrap_err(), Errors::TooFewParity);
}

#[test]
fn construct_rejects_oversized_length() {
    let rs = ReedSolomon::new(engine(), 257, 10, FieldElement::new(2));
    assert_eq!(rs.unwrap_err(), Errors::TooManyNumbers);
}

#[test]
fn construct_accepts_valid_parameters() {
    assert!(ReedSolomon::new(engine(), 255, 32, FieldElement::new(2)).is_ok());
    assert!(ReedSolomon::new(engine(), 256, 1, FieldElement::new(2)).is_ok());
}

#[test]
fn encode_rejects_empty_message() {
    let rs = ReedSolomon::new(engine(), 15, 4, FieldElement::new(2)).unwrap();
    assert_eq!(rs.encode(&vec![]).unwrap_err(), Errors::InvalidMessage);
}

#[test]
fn check_rejects_empty_message() {
    let rs = ReedSolomon::new(engine(), 15, 4, FieldElement::new(2)).unwrap();
    assert_eq!(rs.check(&vec![]).unwrap_err(), Errors::InvalidMessage);
}

#[test]
fn encode_known_codeword() {
    // Generator polynomial (x + 2)(x + 4) = x^2 + 6x + 8; message [5]
    // becomes [5, 0, 0], whose remainder is [6*5, 8*5] = [30, 40].
    let rs = ReedSolomon::new(engine(), 4, 2, FieldElement::new(2)).unwrap();
    let out = rs.encode(&vec![5]).unwrap();
    assert_eq!(out, vec![5, 30, 40]);
    assert_eq!(rs.check(&out).unwrap(), true);
}

#[test]
fn round_trip_accepts_codewords() {
    let rs = ReedSolomon::new(engine(), 32, 16, FieldElement::new(2)).unwrap();
    for message in [
        vec![1u8],
        vec![0u8],
        vec![104, 101, 108, 108, 111],
        vec![255, 0, 255, 17, 4, 99, 250],
    ] {
        let out = rs.encode(&message).unwrap();
        assert_eq!(out.len(), message.len() + 16);
        assert_eq!(rs.check(&out).unwrap(), true);
    }
}

#[test]
fn single_corruptions_are_detected() {
    let rs = ReedSolomon::new(engine(), 16, 6, FieldElement::new(2)).unwrap();
    let message = vec![11u8, 0, 42, 7];
    let out = rs.encode(&message).unwrap();
    for pos in 0..out.len() {
        for flip in [1u8, 0x40, 0xff] {
            let mut corrupted = out.clone();
            corrupted[pos] ^= flip;
            assert_eq!(rs.check(&corrupted).unwrap(), false);
        }
    }
}

#[test]
fn round_trip_at_the_field_order() {
    let rs = ReedSolomon::new(engine(), 256, 64, FieldElement::new(2)).unwrap();
    let message: Vec<u8> = (0..120u16).map(|i| (i * 7 % 256) as u8).collect();
    let out = rs.encode(&message).unwrap();
    assert_eq!(out.len(), message.len() + 64);
    assert_eq!(rs.check(&out).unwrap(), true);
}

#[test]
fn short_messages_still_round_trip() {
    // With fewer message symbols than the generator's degree the padded
    // polynomial is its own remainder, so the subtraction cancels it to the
    // all-zero codeword, which the generator trivially divides.
    let rs = ReedSolomon::new(engine(), 3, 1, FieldElement::new(2)).unwrap();
    let out = rs.encode(&vec![5]).unwrap();
    assert_eq!(out, vec![0, 0]);
    assert_eq!(rs.check(&out).unwrap(), true);
}

#[test]
fn error_descriptions() {
    assert_eq!(
        Errors::TooFewNumbers.to_string(),
        "Total number provided is less than one"
    );
    assert_eq!(
        Errors::TooFewParity.to_string(),
        "Total parity number provided is less than one"
    );
    assert_eq!(
        Errors::TooManyNumbers.to_string(),
        "Total number provided is greater than order of the field"
    );
    assert_eq!(Errors::InvalidMessage.to_string(), "Invalid message to encode");
}
