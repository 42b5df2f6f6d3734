use memory_usage::storage::{Storage, Unit};

#[test]
fn test_from_bytes() {
    assert_eq!(Storage::from_bytes(0), Storage::new(0, 0, Unit::B));

    assert_eq!(Storage::from_bytes(1), Storage::new(1, 0, Unit::B));
    assert_eq!(Storage::from_bytes(512), Storage::new(512, 0, Unit::B));
    assert_eq!(Storage::from_bytes(1023), Storage::new(1023, 0, Unit::B));

    assert_eq!(Storage::from_bytes(1024), Storage::new(1, 0, Unit::KB));
    assert_eq!(
        Storage::from_bytes(1024 * 1024),
        Storage::new(1, 0, Unit::MB)
    );
    assert_eq!(
        Storage::from_bytes(1024 * 1024 * 1024),
        Storage::new(1, 0, Unit::GB)
    );
    assert_eq!(
        Storage::from_bytes(1024 * 1024 * 1024 * 1024),
        Storage::new(1, 0, Unit::TB)
    );
    assert_eq!(
        Storage::from_bytes(1024 * 1024 * 1024 * 1024 * 1024),
        Storage::new(1, 0, Unit::PB)
    );

    assert_eq!(Storage::from_bytes(1536), Storage::new(1, 512, Unit::KB));
    assert_eq!(
        Storage::from_bytes(1024 * 1024 + 512),
        Storage::new(1, 512, Unit::MB)
    );
    assert_eq!(
        Storage::from_bytes(3 * 1024 * 1024 + 256),
        Storage::new(3, 256, Unit::MB)
    );
    assert_eq!(
        Storage::from_bytes(5 * 1024 * 1024 * 1024 + 1024 * 1024),
        Storage::new(5, 1024 * 1024, Unit::GB)
    );

    assert_eq!(
        Storage::from_bytes(1024 - 1),
        Storage::new(1023, 0, Unit::B)
    );
    assert_eq!(
        Storage::from_bytes(1024 * 1024 - 1),
        Storage::new(1023, 1023, Unit::KB)
    );

    assert_eq!(
        Storage::from_bytes(10 * 1024 * 1024 * 1024 * 1024 * 1024),
        Storage::new(10, 0, Unit::PB)
    );
    assert_eq!(
        Storage::from_bytes(100 * 1024 * 1024 * 1024 * 1024 * 1024 + 512),
        Storage::new(100, 512, Unit::PB)
    );
}

#[test]
fn test_to_bytes() {
    assert_eq!(Storage::new(0, 0, Unit::B).to_bytes(), 0);
    assert_eq!(Storage::new(1, 0, Unit::B).to_bytes(), 1);
    assert_eq!(Storage::new(1023, 0, Unit::B).to_bytes(), 1023);

    assert_eq!(Storage::new(1, 0, Unit::KB).to_bytes(), 1024);
    assert_eq!(Storage::new(1, 0, Unit::MB).to_bytes(), 1024 * 1024);
    assert_eq!(Storage::new(1, 0, Unit::GB).to_bytes(), 1024 * 1024 * 1024);
    assert_eq!(
        Storage::new(1, 0, Unit::TB).to_bytes(),
        1024 * 1024 * 1024 * 1024
    );
    assert_eq!(
        Storage::new(1, 0, Unit::PB).to_bytes(),
        1024 * 1024 * 1024 * 1024 * 1024
    );

    assert_eq!(Storage::new(1, 512, Unit::KB).to_bytes(), 1536);
    assert_eq!(Storage::new(1, 512, Unit::MB).to_bytes(), 1024 * 1024 + 512);
    assert_eq!(
        Storage::new(3, 256, Unit::MB).to_bytes(),
        3 * 1024 * 1024 + 256
    );
    assert_eq!(
        Storage::new(5, 1024 * 1024, Unit::GB).to_bytes(),
        5 * 1024 * 1024 * 1024 + 1024 * 1024
    );
    assert_eq!(
        Storage::new(100, 512, Unit::PB).to_bytes(),
        100 * 1024 * 1024 * 1024 * 1024 * 1024 + 512
    );

    assert_eq!(
        Storage::new(1023, 1023, Unit::KB).to_bytes(),
        1023 * 1024 + 1023
    );
    assert_eq!(
        Storage::new(10, 0, Unit::TB).to_bytes(),
        10 * 1024 * 1024 * 1024 * 1024
    );
}

#[test]
fn test_round_trip() {
    let test_cases = vec![
        0,
        1,
        512,
        1023,
        1024,
        1025,
        1536,
        1024 * 1024 - 1,
        1024 * 1024,
        1024 * 1024 + 512,
        3 * 1024 * 1024 + 256,
        1024 * 1024 * 1024 - 1,
        1024 * 1024 * 1024,
        5 * 1024 * 1024 * 1024 + 1024 * 1024,
        1024 * 1024 * 1024 * 1024,
        10 * 1024 * 1024 * 1024 * 1024 * 1024,
        100 * 1024 * 1024 * 1024 * 1024 * 1024 + 512,
    ];

    for bytes in test_cases {
        let unit = Storage::from_bytes(bytes);
        assert_eq!(
            unit.to_bytes(),
            bytes,
            "Round trip failed for {} bytes, got {:?}",
            bytes,
            unit
        );
    }
}

#[test]
fn test_boundary_values() {
    assert_eq!(Storage::from_bytes(1023), Storage::new(1023, 0, Unit::B));
    assert_eq!(Storage::from_bytes(1024), Storage::new(1, 0, Unit::KB));
    assert_eq!(Storage::from_bytes(1025), Storage::new(1, 1, Unit::KB));

    let mb_boundary = 1024 * 1024;
    assert_eq!(
        Storage::from_bytes(mb_boundary - 1),
        Storage::new(1023, 1023, Unit::KB)
    );
    assert_eq!(
        Storage::from_bytes(mb_boundary),
        Storage::new(1, 0, Unit::MB)
    );
    assert_eq!(
        Storage::from_bytes(mb_boundary + 1),
        Storage::new(1, 1, Unit::MB)
    );

    let gb_boundary = 1024 * 1024 * 1024;
    assert_eq!(
        Storage::from_bytes(gb_boundary - 1),
        Storage::new(1023, 1023 * 1024 + 1023, Unit::MB)
    );
    assert_eq!(
        Storage::from_bytes(gb_boundary),
        Storage::new(1, 0, Unit::GB)
    );
    assert_eq!(
        Storage::from_bytes(gb_boundary + 1),
        Storage::new(1, 1, Unit::GB)
    );

    let tb_boundary = 1024_u64 * 1024 * 1024 * 1024;
    assert_eq!(
        Storage::from_bytes(tb_boundary),
        Storage::new(1, 0, Unit::TB)
    );

    let pb_boundary = 1024_u64 * 1024 * 1024 * 1024 * 1024;
    assert_eq!(
        Storage::from_bytes(pb_boundary),
        Storage::new(1, 0, Unit::PB)
    );
}
