use tape_sort::codec::{decode_records, encode_records, CodecError, RECORD_BYTES};
use tape_sort::record::{Point, Triangle};
use tape_sort::sorter::sort;
use tape_sort::tape::{Tape, TapeContext};

fn sample() -> Triangle {
    Triangle {
        a: Point { x: 1, y: -1 },
        b: Point { x: 258, y: 0 },
        c: Point { x: -2, y: 2147483647 },
    }
}

#[test]
fn record_width_is_24_bytes() {
    assert_eq!(RECORD_BYTES, 24);
    let bytes = encode_records(&vec![sample()]);
    assert_eq!(bytes.len(), 24);
}

#[test]
fn encoding_is_fixed_width_little_endian() {
    let bytes = encode_records(&vec![sample()]);
    // 1, -1, 258, 0, -2, i32::MAX as little-endian two's complement
    assert_eq!(
        bytes,
        vec![
            1, 0, 0, 0, 255, 255, 255, 255, 2, 1, 0, 0, 0, 0, 0, 0, 254, 255, 255, 255, 255, 255,
            255, 127,
        ]
    );
}

#[test]
fn decode_inverts_encode() {
    let recs = vec![
        sample(),
        Triangle {
            a: Point { x: 0, y: 0 },
            b: Point { x: -2147483648, y: 5 },
            c: Point { x: 7, y: -9 },
        },
    ];
    let bytes = encode_records(&recs);
    assert_eq!(bytes.len(), 48);
    let back = decode_records(&bytes).unwrap();
    assert_eq!(back, recs);
}

#[test]
fn empty_file_decodes_to_no_records() {
    assert_eq!(decode_records(&Vec::new()).unwrap(), Vec::new());
}

#[test]
fn ragged_length_is_refused() {
    let mut bytes = encode_records(&vec![sample()]);
    bytes.push(0);
    assert_eq!(decode_records(&bytes), Err(CodecError::RaggedLength));
    assert_eq!(decode_records(&vec![1, 2, 3]), Err(CodecError::RaggedLength));
}

#[test]
fn binary_file_loads_onto_a_tape_and_sorts() {
    let recs: Vec<Triangle> = [9, 1, 5, 3]
        .iter()
        .map(|&k| Triangle {
            a: Point { x: 0, y: 0 },
            b: Point { x: k, y: 0 },
            c: Point { x: 0, y: 1 },
        })
        .collect();
    let bytes = encode_records(&recs);
    let loaded = decode_records(&bytes).unwrap();
    let mut ctx = TapeContext::new();
    let mut tape: Tape<Triangle> = Tape::new(&mut ctx, 2);
    for r in loaded {
        tape.push(r);
    }
    sort(&mut tape, 2, &mut ctx).unwrap();
    let keys: Vec<i128> = tape.contents().iter().map(|t| t.doubled_area()).collect();
    assert_eq!(keys, vec![1, 3, 5, 9]);
}
