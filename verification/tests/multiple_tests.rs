use ecc::multiple::{decode, encode};

#[test]
fn multiple_inverse() {
    let test1: Vec<u8> = vec![1, 1, 2, 3, 5, 8, 13, 21, 34];
    let test2: Vec<u8> = vec![11, 7, 25, 1];
    let test3: Vec<u8> = vec![255, 255, 0, 255, 255];
    let test4: Vec<u8> = vec![0, 0, 0];
    let test5: Vec<u8> = vec![128, 32, 2, 4];

    assert_eq!(decode(&encode(&test1, 3), 3).unwrap(), test1);
    assert_eq!(decode(&encode(&test2, 17), 17).unwrap(), test2);
    assert_eq!(decode(&encode(&test3, 9), 9).unwrap(), test3);
    assert_eq!(decode(&encode(&test4, 3), 3).unwrap(), test4);
    assert_eq!(decode(&encode(&test5, 5), 5).unwrap(), test5);
}

#[test]
fn encoding() {
    let test: Vec<u8> = vec![15];
    let other: Vec<u8> = vec![128];

    assert_eq!(encode(&test, 2), vec![0, 255]);
    assert_eq!(encode(&test, 4), vec![0, 0, 255, 255]);
    assert_eq!(encode(&test, 8), vec![0, 0, 0, 0, 255, 255, 255, 255]);
    assert_eq!(encode(&other, 8), vec![255, 0, 0, 0, 0, 0, 0, 0]);
}

#[test]
fn error_correction() {
    let test1: Vec<u8> = vec![17, 8, 254, 255];
    let test2: Vec<u8> = vec![4, 8, 2, 129, 127, 254, 253, 255];
    let test3: Vec<u8> = vec![127, 1, 2, 4, 8, 16, 32, 64];

    assert_eq!(decode(&test1, 4).unwrap(), vec![15]);
    assert_eq!(decode(&test2, 8).unwrap(), vec![15]);
    assert_eq!(decode(&test3, 8).unwrap(), vec![128]);
}

#[test]
#[should_panic]
fn error_detection() {
    let test: Vec<u8> = vec![2, 254];
    decode(&test, 2).unwrap();
}

#[test]
fn tie_is_an_error() {
    // One coded group of two bits reading 1 then 0 is an exact tie: the
    // decode reports the unrecoverable condition instead of guessing.
    let coded: Vec<u8> = vec![128];
    assert!(decode(&coded, 2).is_err());
}

#[test]
fn majority_three_to_one() {
    // With four copies per bit, one flipped copy per group still loses the
    // vote three to one.
    let data: Vec<u8> = vec![15];
    let mut coded = encode(&data, 4);
    for byte in coded.iter_mut() {
        // flip one bit in each group of four
        *byte ^= 0b0001_0001;
    }
    assert_eq!(decode(&coded, 4).unwrap(), data);
}

#[test]
fn multiple_empty() {
    let empty: Vec<u8> = vec![];
    assert_eq!(encode(&empty, 5), empty);
    assert_eq!(decode(&empty, 5).unwrap(), empty);
}
