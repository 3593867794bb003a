use seedsearch::reading::{generate_readings, read_rowise, transpose_columns, ReadingError};

#[test]
fn transpose_moves_each_position_by_half() {
    let v: Vec<u8> = (0..6).collect();
    assert_eq!(transpose_columns(&v), vec![3, 4, 5, 0, 1, 2]);
}

#[test]
fn rowise_interleaves_the_halves() {
    let v: Vec<u8> = (0..6).collect();
    assert_eq!(read_rowise(&v), vec![0, 3, 1, 4, 2, 5]);
}

#[test]
fn test_it() {
    generate_readings(12).expect("should have worked");
}

#[test]
fn test_another() {
    let r = generate_readings(12).expect("work");
    for vec in r {
        let mut line = String::from("[");
        for v in vec {
            line.push_str(&format!("{}, ", v));
        }
        line.push(']');
        println!("{}", line);
    }
}

#[test]
fn angry() {
    assert!(match generate_readings(11) {
        Err(ReadingError::WordsUneven) => true,
        Ok(_) => false,
    });
}

#[test]
fn twelve_word_catalog_rows() {
    let r = generate_readings(12).expect("even count");
    assert_eq!(r.len(), 4);
    assert_eq!(r[0], vec![0, 1, 2, 3, 4, 5, 6, 7, 8, 9, 10, 11]);
    assert_eq!(r[1], vec![6, 7, 8, 9, 10, 11, 0, 1, 2, 3, 4, 5]);
    assert_eq!(r[2], vec![0, 6, 1, 7, 2, 8, 3, 9, 4, 10, 5, 11]);
    assert_eq!(r[3], vec![6, 0, 7, 1, 8, 2, 9, 3, 10, 4, 11, 5]);
}

#[test]
fn twelve_word_catalog_distinct() {
    let r = generate_readings(12).expect("even count");
    for a in 0..4 {
        for b in 0..4 {
            if a != b {
                assert_ne!(r[a], r[b]);
            }
        }
    }
}

#[test]
fn identity_and_swap_self_compose() {
    let r = generate_readings(12).expect("even count");
    let identity = &r[0];
    let swap = &r[1];
    let compose = |p: &Vec<u8>, q: &Vec<u8>| -> Vec<u8> {
        q.iter().map(|&k| p[k as usize]).collect()
    };
    assert_eq!(compose(identity, identity), *identity);
    assert_eq!(compose(swap, swap), *identity);
}

#[test]
fn odd_count_yields_nothing() {
    assert!(generate_readings(1).is_err());
    assert!(generate_readings(255).is_err());
    assert!(generate_readings(0).is_ok());
    assert!(generate_readings(2).is_ok());
}
